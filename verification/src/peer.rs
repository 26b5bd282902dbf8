//! One conversation with a remote peer after the handshake: the four
//! choke and interest flags, the pipeline of outstanding requests, and what
//! to do on every message and on every answer of the torrent's supervisor.
//!
//! The session decides; whoever runs it performs the actions it returns and
//! hands back what came of them.

use crate::bitfield::{bits_of, wire_fault, BitField, BitfieldError};
use crate::buffer::{bytes_from_vec, bytes_as_slice, bytes_seq};
use crate::metainfo::TorrentInfo;
use crate::peer_protocol::{parse_handshake, Handshake, Message, MessageModel};
use crate::piece_picker::{Block, BlockInfo};
use crate::types::{same_hash, InfoHash, PeerAddr};
use std::sync::Arc;
use vstd::prelude::*;

verus! {

/// Most requests that may be outstanding with one peer.
pub const PIPELINE_CAP: usize = 5;

/// Why a session with a peer ends.
#[derive(Debug, PartialEq, Eq)]
pub enum PeerConnectError {
    /// The peer's handshake is not a handshake.
    InvalidHandshake,
    /// The peer's handshake names another torrent.
    HandshakeMismatch,
    /// The peer's bitfield does not suit the torrent.
    InvalidBitfield(BitfieldError),
    /// The peer sent its bitfield after another message.
    UnexpectedBitfield,
    /// The supervisor dropped the request for a task.
    TaskRequestFailed,
    /// The supervisor is gone.
    SessionDisconnected,
}

/// Seconds of silence from our side after which a keep-alive is sent.
pub const KEEP_ALIVE_AFTER: u64 = 120;

/// Seconds of silence from the peer after which the session ends.
pub const IDLE_LIMIT: u64 = 180;

/// Seconds allowed for the connection to a peer.
pub const CONNECT_TIMEOUT: u64 = 10;

/// Seconds allowed for the peer's handshake.
pub const HANDSHAKE_TIMEOUT: u64 = 5;

/// What a silent connection calls for.
#[derive(Debug, Clone, Copy, PartialEq, Eq, Structural)]
pub enum IdleAction {
    /// Nothing yet.
    Wait,
    /// Send a keep-alive.
    KeepAlive,
    /// End the session.
    Terminate,
}

/// What a connection calls for on which we sent nothing for `since_sent`
/// seconds and received nothing for `since_received` seconds: the session
/// ends once the peer was silent for `IDLE_LIMIT` seconds; otherwise a
/// keep-alive is due once we were silent for `KEEP_ALIVE_AFTER` seconds.
pub fn idle_action(since_sent: u64, since_received: u64) -> (action: IdleAction)
    ensures
        action == if since_received >= IDLE_LIMIT {
            IdleAction::Terminate
        } else if since_sent >= KEEP_ALIVE_AFTER {
            IdleAction::KeepAlive
        } else {
            IdleAction::Wait
        },
{
    if since_received >= IDLE_LIMIT {
        IdleAction::Terminate
    } else if since_sent >= KEEP_ALIVE_AFTER {
        IdleAction::KeepAlive
    } else {
        IdleAction::Wait
    }
}

/// What a session asks of whoever runs it.
#[derive(Debug)]
pub enum PeerAction {
    /// Send this message to the peer.
    Send(Message),
    /// Tell the supervisor which pieces the peer has; its verdict on our
    /// interest is to be handed to `on_interest`.
    PeerBitfield(BitField),
    /// Tell the supervisor that the peer has one more piece; with `reply`, its
    /// verdict on our interest is to be handed to `on_interest`.
    PeerHave { piece_index: u32, reply: bool },
    /// Hand this block to the supervisor.
    Piece(Block),
    /// Ask the supervisor for a piece to download; its grant is to be handed
    /// to `on_task`.
    GetTask,
}

/// An action as a mathematical value.
pub enum ActionModel {
    Send(MessageModel),
    PeerBitfield(Seq<bool>),
    PeerHave { piece_index: u32, reply: bool },
    Piece { index: u32, begin: u32, data: Seq<u8> },
    GetTask,
}

impl View for PeerAction {
    type V = ActionModel;

    open spec fn view(&self) -> ActionModel {
        match self {
            PeerAction::Send(m) => ActionModel::Send(m@),
            PeerAction::PeerBitfield(b) => ActionModel::PeerBitfield(b@),
            PeerAction::PeerHave { piece_index, reply } => ActionModel::PeerHave {
                piece_index: *piece_index,
                reply: *reply,
            },
            PeerAction::Piece(b) => ActionModel::Piece {
                index: b.index,
                begin: b.begin,
                data: bytes_seq(b.data),
            },
            PeerAction::GetTask => ActionModel::GetTask,
        }
    }
}

/// The actions of a list as mathematical values.
pub open spec fn models(actions: Seq<PeerAction>) -> Seq<ActionModel> {
    Seq::new(actions.len(), |i: int| actions[i]@)
}

/// One `REQUEST` for each block of `blocks`, in order.
pub open spec fn requests(blocks: Seq<BlockInfo>) -> Seq<ActionModel> {
    Seq::new(blocks.len(), |i: int| ActionModel::Send(MessageModel::Request(blocks[i])))
}

/// The outcome of filling the pipeline: the outstanding requests, the blocks
/// left in the cache, and the blocks requested, in the order of the requests.
pub struct Filled {
    pub outstanding: Seq<BlockInfo>,
    pub cache: Seq<BlockInfo>,
    pub sent: Seq<BlockInfo>,
}

/// Takes blocks off the end of `cache` and requests each, until the cache is
/// empty or `PIPELINE_CAP` requests are outstanding. A block that is
/// outstanding already is requested again and counted once.
pub open spec fn fill(outstanding: Seq<BlockInfo>, cache: Seq<BlockInfo>) -> Filled
    decreases cache.len(),
{
    if outstanding.len() >= PIPELINE_CAP || cache.len() == 0 {
        Filled { outstanding, cache, sent: Seq::empty() }
    } else {
        let block = cache.last();
        let next = if outstanding.contains(block) {
            outstanding
        } else {
            outstanding.push(block)
        };
        let rest = fill(next, cache.drop_last());
        Filled { outstanding: rest.outstanding, cache: rest.cache, sent: seq![block] + rest.sent }
    }
}

/// A session as a mathematical value.
pub struct SessionModel {
    /// We are choking the peer.
    pub am_choking: bool,
    /// We are interested in the peer.
    pub am_interested: bool,
    /// The peer is choking us.
    pub peer_choking: bool,
    /// The peer is interested in us.
    pub peer_interested: bool,
    /// The requests sent and not answered yet.
    pub outstanding: Seq<BlockInfo>,
    /// The blocks of the last grant that were not requested yet.
    pub cache: Seq<BlockInfo>,
    /// A message other than a keep-alive was received.
    pub started: bool,
}

/// A step of a session: the state it leads to and the actions it asks for.
pub struct Step {
    pub state: SessionModel,
    pub actions: Seq<ActionModel>,
}

impl SessionModel {
    /// The state at the start of a session: we choke and are not interested,
    /// the peer chokes and is not interested, nothing is outstanding.
    pub open spec fn initial() -> SessionModel {
        SessionModel {
            am_choking: true,
            am_interested: false,
            peer_choking: true,
            peer_interested: false,
            outstanding: Seq::empty(),
            cache: Seq::empty(),
            started: false,
        }
    }

    /// The pipeline holds no request twice and no more than `PIPELINE_CAP`.
    pub open spec fn inv(self) -> bool {
        self.outstanding.no_duplicates() && self.outstanding.len() <= PIPELINE_CAP
    }

    /// Requests may be sent: the peer does not choke us, we are interested,
    /// and the pipeline has room.
    pub open spec fn may_request(self) -> bool {
        !self.peer_choking && self.am_interested && self.outstanding.len() < PIPELINE_CAP
    }

    /// The blocks of the cache are requested until the pipeline is full.
    pub open spec fn filled(self) -> Step {
        let f = fill(self.outstanding, self.cache);
        Step {
            state: SessionModel { outstanding: f.outstanding, cache: f.cache, ..self },
            actions: requests(f.sent),
        }
    }

    /// As far as requests may be sent: with an empty cache a task is asked
    /// for, otherwise the cache's blocks are requested until the pipeline is full.
    pub open spec fn try_request(self) -> Step {
        if !self.may_request() {
            Step { state: self, actions: Seq::empty() }
        } else if self.cache.len() == 0 {
            Step { state: self, actions: seq![ActionModel::GetTask] }
        } else {
            self.filled()
        }
    }

    /// The supervisor's verdict on our interest arrived. If it is interested
    /// and we were not, we say so to the peer and try to request.
    pub open spec fn on_interest(self, verdict: bool) -> Step {
        if verdict && !self.am_interested {
            let next = SessionModel { am_interested: true, ..self }.try_request();
            Step {
                state: next.state,
                actions: seq![ActionModel::Send(MessageModel::Interested)] + next.actions,
            }
        } else {
            Step { state: self, actions: Seq::empty() }
        }
    }

    /// The supervisor's answer to a request for a task arrived. The granted
    /// blocks become the cache and are requested as far as requests may be sent.
    pub open spec fn on_task(self, task: Option<Seq<BlockInfo>>) -> Step {
        let cache = match task {
            Some(blocks) => blocks,
            None => Seq::empty(),
        };
        let next = SessionModel { cache, ..self };
        if next.may_request() {
            next.filled()
        } else {
            Step { state: next, actions: Seq::empty() }
        }
    }

    /// The request that a delivered block answers.
    pub open spec fn answered(index: u32, begin: u32, data: Seq<u8>) -> BlockInfo {
        BlockInfo { index, begin, length: data.len() as u32 }
    }

    /// Whether a delivered block answers an outstanding request.
    pub open spec fn expects(self, index: u32, begin: u32, data: Seq<u8>) -> bool {
        data.len() <= u32::MAX && self.outstanding.contains(Self::answered(index, begin, data))
    }

    /// Why message `m` ends the session, if it does, for a torrent of `num_pieces` pieces.
    pub open spec fn fault(self, m: MessageModel, num_pieces: nat) -> Option<PeerConnectError> {
        match m {
            MessageModel::Handshake { .. } => Some(PeerConnectError::InvalidHandshake),
            MessageModel::Bitfield(bytes) => if self.started {
                Some(PeerConnectError::UnexpectedBitfield)
            } else {
                match wire_fault(bytes, num_pieces) {
                    Some(e) => Some(PeerConnectError::InvalidBitfield(e)),
                    None => None,
                }
            },
            _ => None,
        }
    }

    /// The step that message `m` causes when it does not end the session.
    pub open spec fn on_message(self, m: MessageModel, num_pieces: nat) -> Step {
        let seen = SessionModel { started: true, ..self };
        match m {
            MessageModel::KeepAlive => Step { state: self, actions: Seq::empty() },
            MessageModel::Bitfield(bytes) => Step {
                state: seen,
                actions: seq![ActionModel::PeerBitfield(bits_of(bytes, num_pieces))],
            },
            MessageModel::Choke => Step {
                state: SessionModel { peer_choking: true, outstanding: Seq::empty(), ..seen },
                actions: Seq::empty(),
            },
            MessageModel::Unchoke => {
                let open = SessionModel { peer_choking: false, ..seen };
                if open.am_interested {
                    open.try_request()
                } else {
                    Step { state: open, actions: Seq::empty() }
                }
            },
            MessageModel::Interested => Step {
                state: SessionModel { peer_interested: true, ..seen },
                actions: Seq::empty(),
            },
            MessageModel::NotInterested => Step {
                state: SessionModel { peer_interested: false, ..seen },
                actions: Seq::empty(),
            },
            MessageModel::Have { piece_index } => Step {
                state: seen,
                actions: seq![ActionModel::PeerHave { piece_index, reply: !self.am_interested }],
            },
            MessageModel::Piece { index, begin, data } => if self.expects(index, begin, data) {
                let at = seen.outstanding.index_of(Self::answered(index, begin, data));
                let next = SessionModel {
                    outstanding: seen.outstanding.remove(at),
                    ..seen
                }.try_request();
                Step {
                    state: next.state,
                    actions: seq![ActionModel::Piece { index, begin, data }] + next.actions,
                }
            } else {
                Step { state: seen, actions: Seq::empty() }
            },
            _ => Step { state: seen, actions: Seq::empty() },
        }
    }
}

/// A bitfield in which a bit past the last piece is set ends the session,
/// whenever it arrives: as the first message because it is invalid, and
/// later because it comes too late.
pub proof fn lemma_spare_bits_end_session(s: SessionModel, bytes: Seq<u8>, num_pieces: nat)
    requires
        bytes.len() >= crate::bitfield::bytes_for(num_pieces),
        !crate::bitfield::spare_bits_clear(bytes, num_pieces),
    ensures
        wire_fault(bytes, num_pieces) == Some(BitfieldError::NonZeroSpareBits),
        s.fault(MessageModel::Bitfield(bytes), num_pieces) == Some(
            if s.started {
                PeerConnectError::UnexpectedBitfield
            } else {
                PeerConnectError::InvalidBitfield(BitfieldError::NonZeroSpareBits)
            },
        ),
{
}

/// Filling the pipeline keeps it within its cap and free of duplicates; no
/// request leaves it; every request that is outstanding afterwards was
/// outstanding before or has just been sent; and no more blocks are sent
/// than the pipeline had room for.
pub proof fn lemma_fill(outstanding: Seq<BlockInfo>, cache: Seq<BlockInfo>)
    requires
        outstanding.no_duplicates(),
        outstanding.len() <= PIPELINE_CAP,
    ensures
        fill(outstanding, cache).outstanding.no_duplicates(),
        fill(outstanding, cache).outstanding.len() <= PIPELINE_CAP,
        fill(outstanding, cache).outstanding.len() >= outstanding.len(),
        fill(outstanding, cache).outstanding.take(outstanding.len() as int) == outstanding,
        fill(outstanding, cache).sent.len() + fill(outstanding, cache).cache.len() == cache.len(),
        fill(outstanding, cache).outstanding.len() - outstanding.len() <= fill(
            outstanding,
            cache,
        ).sent.len(),
        fill(outstanding, cache).cache.len() == 0 || fill(outstanding, cache).outstanding.len()
            == PIPELINE_CAP,
        forall|b: BlockInfo| #[trigger]
            fill(outstanding, cache).outstanding.contains(b) ==> outstanding.contains(b) || fill(
                outstanding,
                cache,
            ).sent.contains(b),
    decreases cache.len(),
{
    if outstanding.len() >= PIPELINE_CAP || cache.len() == 0 {
    } else {
        let block = cache.last();
        let next = if outstanding.contains(block) {
            outstanding
        } else {
            outstanding.push(block)
        };
        if !outstanding.contains(block) {
            lemma_pushed_keeps_inv(outstanding, block);
        }
        lemma_fill(next, cache.drop_last());
        let rest = fill(next, cache.drop_last());
        let all = fill(outstanding, cache);
        assert(all.outstanding.take(outstanding.len() as int) =~= rest.outstanding.take(
            next.len() as int,
        ).take(outstanding.len() as int));
        assert(next.take(outstanding.len() as int) =~= outstanding);
        assert forall|b: BlockInfo| #[trigger] all.outstanding.contains(b) implies outstanding.contains(
            b,
        ) || all.sent.contains(b) by {
            if rest.sent.contains(b) {
                let i = choose|i: int| 0 <= i < rest.sent.len() && rest.sent[i] == b;
                assert(all.sent[i + 1] == b);
            } else if !outstanding.contains(b) {
                assert(next.contains(b));
                let i = choose|i: int| 0 <= i < next.len() && next[i] == b;
                if i < outstanding.len() {
                    assert(outstanding[i] == b);
                }
                assert(b == block);
                assert(all.sent[0] == b);
            }
        }
    }
}

/// How many requests filling sends when no block of the cache is
/// outstanding: as many as the pipeline has room for, or as the cache holds.
pub open spec fn fill_count(outstanding: nat, cache: nat) -> nat {
    if outstanding >= PIPELINE_CAP {
        0
    } else if PIPELINE_CAP - outstanding <= cache {
        (PIPELINE_CAP - outstanding) as nat
    } else {
        cache
    }
}

/// The last `count` blocks of `cache`, the last one first.
pub open spec fn last_first(cache: Seq<BlockInfo>, count: nat) -> Seq<BlockInfo> {
    Seq::new(count, |i: int| cache[cache.len() - 1 - i])
}

/// Whether the blocks of `cache` differ from each other and from every
/// request of `outstanding`.
pub open spec fn fresh(outstanding: Seq<BlockInfo>, cache: Seq<BlockInfo>) -> bool {
    &&& cache.no_duplicates()
    &&& forall|i: int| 0 <= i < cache.len() ==> !outstanding.contains(#[trigger] cache[i])
}

/// Filling the pipeline from a cache of blocks that differ from each other
/// and from every outstanding request sends exactly as many requests as the
/// pipeline has room for, or as the cache holds: for the last blocks of the
/// cache, the last one first. These join the outstanding requests in that
/// order, and the other blocks stay in the cache.
pub proof fn lemma_fill_exactly(outstanding: Seq<BlockInfo>, cache: Seq<BlockInfo>)
    requires
        outstanding.no_duplicates(),
        outstanding.len() <= PIPELINE_CAP,
        fresh(outstanding, cache),
    ensures
        fill(outstanding, cache).sent == last_first(
            cache,
            fill_count(outstanding.len(), cache.len()),
        ),
        fill(outstanding, cache).outstanding == outstanding + fill(outstanding, cache).sent,
        fill(outstanding, cache).cache == cache.take(
            cache.len() - fill_count(outstanding.len(), cache.len()),
        ),
    decreases cache.len(),
{
    let all = fill(outstanding, cache);
    let count = fill_count(outstanding.len(), cache.len());
    if outstanding.len() >= PIPELINE_CAP || cache.len() == 0 {
        assert(all.sent =~= last_first(cache, count));
        assert(all.outstanding =~= outstanding + all.sent);
        assert(all.cache =~= cache.take(cache.len() - count));
    } else {
        let block = cache.last();
        let shorter = cache.drop_last();
        let next = outstanding.push(block);
        assert(cache[cache.len() - 1] == block);
        assert(!outstanding.contains(block));
        lemma_pushed_keeps_inv(outstanding, block);
        assert forall|i: int| 0 <= i < shorter.len() implies !next.contains(
            #[trigger] shorter[i],
        ) by {
            assert(shorter[i] == cache[i]);
            assert(!outstanding.contains(cache[i]));
            if next.contains(shorter[i]) {
                let j = choose|j: int| 0 <= j < next.len() && next[j] == shorter[i];
                if j < outstanding.len() {
                    assert(outstanding[j] == shorter[i]);
                }
            }
        }
        lemma_fill_exactly(next, shorter);
        let rest = fill(next, shorter);
        let fewer = fill_count(next.len(), shorter.len());
        assert(count == fewer + 1);
        assert(all.sent =~= last_first(cache, count));
        assert(all.outstanding =~= outstanding + all.sent);
        assert(all.cache =~= cache.take(cache.len() - count));
    }
}

/// The pipeline stays within its cap, and free of duplicates, through every
/// step of a session.
pub proof fn lemma_steps_keep_inv(
    s: SessionModel,
    m: MessageModel,
    num_pieces: nat,
    verdict: bool,
    task: Option<Seq<BlockInfo>>,
)
    requires
        s.inv(),
    ensures
        s.try_request().state.inv(),
        s.on_message(m, num_pieces).state.inv(),
        s.on_interest(verdict).state.inv(),
        s.on_task(task).state.inv(),
{
    lemma_fill(s.outstanding, s.cache);
    let cache = match task {
        Some(blocks) => blocks,
        None => Seq::empty(),
    };
    lemma_fill(s.outstanding, cache);
    match m {
        MessageModel::Piece { index, begin, data } => {
            if s.expects(index, begin, data) {
                let b = SessionModel::answered(index, begin, data);
                let at = s.outstanding.index_of(b);
                let less = s.outstanding.remove(at);
                lemma_removed_keeps_inv(s.outstanding, b);
                lemma_fill(less, s.cache);
            }
        },
        _ => {},
    }
}

/// Every request that is outstanding after a message was outstanding before
/// or is sent by that very step; the same holds of the other steps.
pub proof fn lemma_outstanding_was_sent(
    s: SessionModel,
    m: MessageModel,
    num_pieces: nat,
    verdict: bool,
    task: Option<Seq<BlockInfo>>,
    b: BlockInfo,
)
    requires
        s.inv(),
    ensures
        s.on_message(m, num_pieces).state.outstanding.contains(b) ==> s.outstanding.contains(b)
            || s.on_message(m, num_pieces).actions.contains(
            ActionModel::Send(MessageModel::Request(b)),
        ),
        s.on_interest(verdict).state.outstanding.contains(b) ==> s.outstanding.contains(b)
            || s.on_interest(verdict).actions.contains(ActionModel::Send(MessageModel::Request(b))),
        s.on_task(task).state.outstanding.contains(b) ==> s.outstanding.contains(b) || s.on_task(
            task,
        ).actions.contains(ActionModel::Send(MessageModel::Request(b))),
{
    let want = ActionModel::Send(MessageModel::Request(b));
    // requests after a task
    let cache = match task {
        Some(blocks) => blocks,
        None => Seq::empty(),
    };
    lemma_sent_is_requested(s.outstanding, cache, b);
    lemma_sent_is_requested(s.outstanding, s.cache, b);
    // requests after a verdict
    let step = s.on_interest(verdict);
    if step.state.outstanding.contains(b) && !s.outstanding.contains(b) {
        let tail = SessionModel { am_interested: true, ..s }.try_request();
        assert(tail.actions.contains(want));
        let i = choose|i: int| 0 <= i < tail.actions.len() && tail.actions[i] == want;
        assert(step.actions[i + 1] == want);
    }
    // requests after a message
    let step = s.on_message(m, num_pieces);
    match m {
        MessageModel::Piece { index, begin, data } => {
            if s.expects(index, begin, data) {
                let at = s.outstanding.index_of(SessionModel::answered(index, begin, data));
                let less = s.outstanding.remove(at);
                lemma_sent_is_requested(less, s.cache, b);
                if step.state.outstanding.contains(b) && !s.outstanding.contains(b) {
                    if less.contains(b) {
                        let i = choose|i: int| 0 <= i < less.len() && less[i] == b;
                        let i0 = if i < at {
                            i
                        } else {
                            i + 1
                        };
                        assert(s.outstanding[i0] == b);
                    }
                    let tail = SessionModel {
                        outstanding: less,
                        started: true,
                        ..s
                    }.try_request();
                    assert(tail.actions.contains(want));
                    let i = choose|i: int| 0 <= i < tail.actions.len() && tail.actions[i] == want;
                    assert(step.actions[i + 1] == want);
                }
            }
        },
        _ => {},
    }
}

/// Trying to request leaves the pipeline within its cap and takes no request
/// out of it, and every request that it adds is sent. While the peer chokes
/// us, we are not interested or the pipeline is full, it does nothing; with
/// an empty cache it asks for a task and nothing else.
pub proof fn lemma_try_request_pipeline(s: SessionModel, b: BlockInfo)
    requires
        s.inv(),
    ensures
        s.try_request().state.outstanding.len() <= PIPELINE_CAP,
        s.try_request().state.outstanding.len() >= s.outstanding.len(),
        s.try_request().state.outstanding.take(s.outstanding.len() as int) == s.outstanding,
        s.try_request().state.outstanding.contains(b) ==> s.outstanding.contains(b)
            || s.try_request().actions.contains(ActionModel::Send(MessageModel::Request(b))),
        !s.may_request() ==> s.try_request() == (Step { state: s, actions: Seq::empty() }),
        s.may_request() && s.cache.len() == 0 ==> s.try_request() == (Step {
            state: s,
            actions: seq![ActionModel::GetTask],
        }),
{
    lemma_fill(s.outstanding, s.cache);
    lemma_sent_is_requested(s.outstanding, s.cache, b);
    assert(s.outstanding.take(s.outstanding.len() as int) =~= s.outstanding);
}

/// A block that answers an outstanding request, having its index, its
/// offset and its length, is handed on first of all, and its request leaves
/// the pipeline; what follows is an attempt to request, so the pipeline
/// stays within its cap.
pub proof fn lemma_block_answers_request(
    s: SessionModel,
    asked: BlockInfo,
    data: Seq<u8>,
    num_pieces: nat,
)
    requires
        s.inv(),
        s.outstanding.contains(asked),
        data.len() == asked.length,
    ensures
        ({
            let handed = ActionModel::Piece { index: asked.index, begin: asked.begin, data };
            let step = s.on_message(
                MessageModel::Piece { index: asked.index, begin: asked.begin, data },
                num_pieces,
            );
            let less = s.outstanding.remove(s.outstanding.index_of(asked));
            let next = (SessionModel { outstanding: less, started: true, ..s }).try_request();
            &&& step.actions.len() >= 1
            &&& step.actions[0] == handed
            &&& step.actions == seq![handed] + next.actions
            &&& step.state == next.state
            &&& step.state.outstanding.len() <= PIPELINE_CAP
            &&& less.len() == s.outstanding.len() - 1
            &&& !less.contains(asked)
            &&& !s.cache.contains(asked) ==> !step.state.outstanding.contains(asked)
        }),
{
    assert(SessionModel::answered(asked.index, asked.begin, data) == asked);
    assert(s.expects(asked.index, asked.begin, data));
    let less = s.outstanding.remove(s.outstanding.index_of(asked));
    lemma_removed_is_gone(s.outstanding, asked);
    lemma_removed_keeps_inv(s.outstanding, asked);
    lemma_fill(less, s.cache);
    lemma_sent_is_cached(less, s.cache, asked);
}

/// A block that answers no outstanding request, differing from each in its
/// index, its offset or its length, is dropped: nothing is handed on,
/// nothing is sent, and the pipeline stays as it is.
pub proof fn lemma_stray_block_is_dropped(
    s: SessionModel,
    index: u32,
    begin: u32,
    data: Seq<u8>,
    num_pieces: nat,
)
    requires
        forall|i: int|
            0 <= i < s.outstanding.len() ==> !({
                &&& (#[trigger] s.outstanding[i]).index == index
                &&& s.outstanding[i].begin == begin
                &&& s.outstanding[i].length == data.len()
            }),
    ensures
        s.on_message(MessageModel::Piece { index, begin, data }, num_pieces) == (Step {
            state: SessionModel { started: true, ..s },
            actions: Seq::empty(),
        }),
{
    if s.expects(index, begin, data) {
        let asked = SessionModel::answered(index, begin, data);
        let i = choose|i: int| 0 <= i < s.outstanding.len() && s.outstanding[i] == asked;
        assert(s.outstanding[i].length == data.len());
    }
}

/// Taking a request out of a pipeline without duplicates leaves none of it behind.
proof fn lemma_removed_is_gone(outstanding: Seq<BlockInfo>, b: BlockInfo)
    requires
        outstanding.no_duplicates(),
        outstanding.contains(b),
    ensures
        !outstanding.remove(outstanding.index_of(b)).contains(b),
{
    let at = outstanding.index_of(b);
    let less = outstanding.remove(at);
    if less.contains(b) {
        let i = choose|i: int| 0 <= i < less.len() && less[i] == b;
        let i0 = if i < at {
            i
        } else {
            i + 1
        };
        assert(outstanding[i0] == b);
    }
}

/// Taking a request out of a pipeline without duplicates leaves it without duplicates.
proof fn lemma_removed_keeps_inv(outstanding: Seq<BlockInfo>, b: BlockInfo)
    requires
        outstanding.no_duplicates(),
        outstanding.contains(b),
    ensures
        outstanding.remove(outstanding.index_of(b)).no_duplicates(),
{
    let at = outstanding.index_of(b);
    let less = outstanding.remove(at);
    assert forall|i: int, j: int|
        0 <= i < less.len() && 0 <= j < less.len() && i != j implies less[i] != less[j] by {
        let i0 = if i < at {
            i
        } else {
            i + 1
        };
        let j0 = if j < at {
            j
        } else {
            j + 1
        };
        assert(less[i] == outstanding[i0] && less[j] == outstanding[j0]);
    }
}

/// A request that filling the pipeline adds to it was in the cache.
proof fn lemma_sent_is_cached(outstanding: Seq<BlockInfo>, cache: Seq<BlockInfo>, b: BlockInfo)
    requires
        outstanding.no_duplicates(),
        outstanding.len() <= PIPELINE_CAP,
    ensures
        fill(outstanding, cache).outstanding.contains(b) ==> outstanding.contains(b)
            || cache.contains(b),
    decreases cache.len(),
{
    if outstanding.len() >= PIPELINE_CAP || cache.len() == 0 {
    } else {
        let block = cache.last();
        let next = if outstanding.contains(block) {
            outstanding
        } else {
            outstanding.push(block)
        };
        if !outstanding.contains(block) {
            lemma_pushed_keeps_inv(outstanding, block);
        }
        lemma_sent_is_cached(next, cache.drop_last(), b);
        if fill(outstanding, cache).outstanding.contains(b) && !outstanding.contains(b) {
            if next.contains(b) {
                let i = choose|i: int| 0 <= i < next.len() && next[i] == b;
                if i < outstanding.len() {
                    assert(outstanding[i] == b);
                }
                assert(b == block);
                assert(cache[cache.len() - 1] == b);
            } else {
                assert(cache.drop_last().contains(b));
                let i = choose|i: int| 0 <= i < cache.drop_last().len() && cache.drop_last()[i] == b;
                assert(cache[i] == b);
            }
        }
    }
}

/// Adding a request that is not outstanding keeps the pipeline free of duplicates.
proof fn lemma_pushed_keeps_inv(outstanding: Seq<BlockInfo>, b: BlockInfo)
    requires
        outstanding.no_duplicates(),
        !outstanding.contains(b),
    ensures
        outstanding.push(b).no_duplicates(),
{
    let next = outstanding.push(b);
    assert forall|i: int, j: int|
        0 <= i < next.len() && 0 <= j < next.len() && i != j implies next[i] != next[j] by {
        if i < outstanding.len() && j < outstanding.len() {
        } else if i < outstanding.len() {
            assert(outstanding.contains(next[i]));
        } else {
            assert(outstanding.contains(next[j]));
        }
    }
}

/// A grant of blocks that differ from each other and from every outstanding
/// request, to a session that may request, is answered with exactly as many
/// requests as the pipeline has room for, or as were granted: for the last
/// blocks of the grant, the last one first. The other blocks wait in the
/// cache, and no task is asked for.
pub proof fn lemma_grant_fills_pipeline(s: SessionModel, blocks: Seq<BlockInfo>)
    requires
        s.inv(),
        s.may_request(),
        fresh(s.outstanding, blocks),
    ensures
        ({
            let step = s.on_task(Some(blocks));
            let count = fill_count(s.outstanding.len(), blocks.len());
            &&& step.actions == requests(last_first(blocks, count))
            &&& step.actions.len() == count
            &&& step.state.outstanding == s.outstanding + last_first(blocks, count)
            &&& step.state.outstanding.len() == s.outstanding.len() + count
            &&& step.state.cache == blocks.take(blocks.len() - count)
            &&& step.state.cache.len() == blocks.len() - count
        }),
{
    lemma_fill_exactly(s.outstanding, blocks);
}

/// With a full pipeline and a cache of blocks that differ from each other
/// and from every outstanding request, a block that answers an outstanding
/// request is handed on and followed by exactly one request, for the last
/// block of the cache: the pipeline is full again, and the cache is one
/// block shorter.
pub proof fn lemma_answer_refills_one(
    s: SessionModel,
    asked: BlockInfo,
    data: Seq<u8>,
    num_pieces: nat,
)
    requires
        s.inv(),
        !s.peer_choking,
        s.am_interested,
        s.outstanding.len() == PIPELINE_CAP,
        s.outstanding.contains(asked),
        data.len() == asked.length,
        s.cache.len() >= 1,
        fresh(s.outstanding, s.cache),
    ensures
        ({
            let m = MessageModel::Piece { index: asked.index, begin: asked.begin, data };
            let step = s.on_message(m, num_pieces);
            &&& step.actions == seq![
                ActionModel::Piece { index: asked.index, begin: asked.begin, data },
                ActionModel::Send(MessageModel::Request(s.cache.last())),
            ]
            &&& step.state.outstanding == s.outstanding.remove(
                s.outstanding.index_of(asked),
            ).push(s.cache.last())
            &&& step.state.outstanding.len() == PIPELINE_CAP
            &&& step.state.cache == s.cache.drop_last()
        }),
{
    let m = MessageModel::Piece { index: asked.index, begin: asked.begin, data };
    let step = s.on_message(m, num_pieces);
    assert(SessionModel::answered(asked.index, asked.begin, data) == asked);
    assert(s.expects(asked.index, asked.begin, data));
    let at = s.outstanding.index_of(asked);
    let less = s.outstanding.remove(at);
    lemma_removed_keeps_inv(s.outstanding, asked);
    assert forall|i: int| 0 <= i < s.cache.len() implies !less.contains(#[trigger] s.cache[i]) by {
        if less.contains(s.cache[i]) {
            let j = choose|j: int| 0 <= j < less.len() && less[j] == s.cache[i];
            let j0 = if j < at {
                j
            } else {
                j + 1
            };
            assert(s.outstanding[j0] == s.cache[i]);
        }
    }
    lemma_fill_exactly(less, s.cache);
    let f = fill(less, s.cache);
    assert(fill_count(less.len(), s.cache.len()) == 1);
    assert(f.sent =~= seq![s.cache.last()]);
    assert(requests(f.sent) =~= seq![ActionModel::Send(MessageModel::Request(s.cache.last()))]);
    assert(step.actions =~= seq![
        ActionModel::Piece { index: asked.index, begin: asked.begin, data },
        ActionModel::Send(MessageModel::Request(s.cache.last())),
    ]);
    assert(step.state.outstanding =~= less.push(s.cache.last()));
    assert(step.state.cache =~= s.cache.drop_last());
}

/// A request that filling the pipeline adds to it is among the requests sent.
proof fn lemma_sent_is_requested(outstanding: Seq<BlockInfo>, cache: Seq<BlockInfo>, b: BlockInfo)
    requires
        outstanding.no_duplicates(),
        outstanding.len() <= PIPELINE_CAP,
    ensures
        fill(outstanding, cache).outstanding.contains(b) ==> outstanding.contains(b) || requests(
            fill(outstanding, cache).sent,
        ).contains(ActionModel::Send(MessageModel::Request(b))),
{
    lemma_fill(outstanding, cache);
    let f = fill(outstanding, cache);
    if f.outstanding.contains(b) && !outstanding.contains(b) {
        assert(f.sent.contains(b));
        let i = choose|i: int| 0 <= i < f.sent.len() && f.sent[i] == b;
        assert(requests(f.sent)[i] == ActionModel::Send(MessageModel::Request(b)));
    }
}

/// State of the conversation with one peer.
pub struct PeerInfo {
    peer_addr: PeerAddr,
    am_interested: bool,
    am_choking: bool,
    remote_interested: bool,
    remote_choking: bool,
    outgoing_requests: Vec<BlockInfo>,
    blocks_to_request: Vec<BlockInfo>,
    num_pieces: usize,
    started: bool,
}

impl View for PeerInfo {
    type V = SessionModel;

    closed spec fn view(&self) -> SessionModel {
        SessionModel {
            am_choking: self.am_choking,
            am_interested: self.am_interested,
            peer_choking: self.remote_choking,
            peer_interested: self.remote_interested,
            outstanding: self.outgoing_requests@,
            cache: self.blocks_to_request@,
            started: self.started,
        }
    }
}

/// Where `block` stands in `list`, if it does.
fn position(list: &Vec<BlockInfo>, block: BlockInfo) -> (r: Option<usize>)
    ensures
        match r {
            Some(i) => i < list@.len() && list@[i as int] == block,
            None => !list@.contains(block),
        },
{
    let mut i: usize = 0;
    while i < list.len()
        invariant
            i <= list@.len(),
            forall|j: int| 0 <= j < i ==> list@[j] != block,
        decreases list@.len() - i,
    {
        if list[i] == block {
            return Some(i);
        }
        i += 1;
    }
    None
}

/// Checks the handshake that a peer answered with against the torrent asked
/// for: bytes that are no handshake are an `InvalidHandshake`, a handshake
/// for another torrent is a `HandshakeMismatch`, and any peer id is accepted.
pub fn check_handshake(received: &[u8], info_hash: &InfoHash) -> (r: Result<
    Handshake,
    PeerConnectError,
>)
    ensures
        match parse_handshake(received@) {
            None => r == Err::<Handshake, PeerConnectError>(PeerConnectError::InvalidHandshake),
            Some(m) => if m->Handshake_info_hash == info_hash.0@ {
                r is Ok && m == (MessageModel::Handshake {
                    peer_id: r->Ok_0.peer_id.0@,
                    info_hash: r->Ok_0.info_hash.0@,
                })
            } else {
                r == Err::<Handshake, PeerConnectError>(PeerConnectError::HandshakeMismatch)
            },
        },
{
    match Handshake::from_bytes(received) {
        None => Err(PeerConnectError::InvalidHandshake),
        Some(h) => {
            if same_hash(&h.info_hash.0, &info_hash.0) {
                Ok(h)
            } else {
                Err(PeerConnectError::HandshakeMismatch)
            }
        },
    }
}

impl PeerInfo {
    /// The pipeline holds no request twice and no more than `PIPELINE_CAP`.
    pub open spec fn wf(&self) -> bool {
        self@.inv()
    }

    /// Number of pieces of the torrent, against which bitfields are checked.
    pub closed spec fn piece_count(&self) -> nat {
        self.num_pieces as nat
    }

    /// The peer at the other end, which stays the same through the whole session.
    pub closed spec fn addr(&self) -> PeerAddr {
        self.peer_addr
    }

    /// A session with `peer_addr` about `torrent`, in its initial state.
    pub fn new(peer_addr: PeerAddr, torrent: Arc<TorrentInfo>) -> (session: Self)
        ensures
            session.wf(),
            session@ == SessionModel::initial(),
            session.piece_count() == torrent.info.pieces@.len(),
            session.addr() == peer_addr,
    {
        Self {
            peer_addr,
            am_interested: false,
            am_choking: true,
            remote_interested: false,
            remote_choking: true,
            outgoing_requests: Vec::new(),
            blocks_to_request: Vec::new(),
            num_pieces: torrent.get_total_pieces(),
            started: false,
        }
    }

    /// The peer at the other end: the address that the session was made with.
    pub fn peer_addr(&self) -> (peer: PeerAddr)
        ensures
            peer == self.addr(),
    {
        self.peer_addr
    }

    /// Opens the session: our bitfield is sent first, if there is one to send.
    /// The state stays as it is.
    pub fn start(&self, our_bitfield: Option<BitField>) -> (actions: Vec<PeerAction>)
        ensures
            match our_bitfield {
                Some(bitfield) => models(actions@) == seq![
                    ActionModel::Send(MessageModel::Bitfield(bitfield.wire())),
                ],
                None => actions@.len() == 0,
            },
    {
        let mut actions: Vec<PeerAction> = Vec::new();
        match our_bitfield {
            Some(bitfield) => {
                actions.push(PeerAction::Send(Message::Bitfield(bitfield.as_bytes())));
                assert(models(actions@) =~= seq![
                    ActionModel::Send(MessageModel::Bitfield(bitfield.wire())),
                ]);
            },
            None => {},
        }
        actions
    }

    /// Number of requests sent and not answered yet.
    pub fn outstanding(&self) -> (n: usize)
        ensures
            n == self@.outstanding.len(),
    {
        self.outgoing_requests.len()
    }

    /// Whether we are interested in the peer.
    pub fn am_interested(&self) -> (flag: bool)
        ensures
            flag == self@.am_interested,
    {
        self.am_interested
    }

    /// Whether we are choking the peer.
    pub fn am_choking(&self) -> (flag: bool)
        ensures
            flag == self@.am_choking,
    {
        self.am_choking
    }

    /// Whether the peer is choking us.
    pub fn peer_choking(&self) -> (flag: bool)
        ensures
            flag == self@.peer_choking,
    {
        self.remote_choking
    }

    /// Whether the peer is interested in us.
    pub fn peer_interested(&self) -> (flag: bool)
        ensures
            flag == self@.peer_interested,
    {
        self.remote_interested
    }

    /// Requests the blocks of the cache, last first, until the cache is empty
    /// or the pipeline is full.
    fn fill_pipeline(&mut self, actions: &mut Vec<PeerAction>)
        requires
            old(self).wf(),
        ensures
            final(self).wf(),
            final(self).piece_count() == old(self).piece_count(),
            final(self).addr() == old(self).addr(),
            final(self)@ == old(self)@.filled().state,
            models(final(actions)@) == models(old(actions)@) + old(self)@.filled().actions,
    {
        let ghost start = fill(self.outgoing_requests@, self.blocks_to_request@);
        let ghost mut sent: Seq<BlockInfo> = Seq::empty();
        proof {
            assert(models(actions@) =~= models(old(actions)@) + requests(sent));
        }
        while self.outgoing_requests.len() < PIPELINE_CAP && self.blocks_to_request.len() > 0
            invariant
                self.wf(),
                self.am_choking == old(self).am_choking,
                self.am_interested == old(self).am_interested,
                self.remote_choking == old(self).remote_choking,
                self.remote_interested == old(self).remote_interested,
                self.started == old(self).started,
                self.num_pieces == old(self).num_pieces,
                self.peer_addr == old(self).peer_addr,
                start == fill(old(self).outgoing_requests@, old(self).blocks_to_request@),
                fill(self.outgoing_requests@, self.blocks_to_request@).outstanding
                    == start.outstanding,
                fill(self.outgoing_requests@, self.blocks_to_request@).cache == start.cache,
                sent + fill(self.outgoing_requests@, self.blocks_to_request@).sent == start.sent,
                models(actions@) == models(old(actions)@) + requests(sent),
            decreases self.blocks_to_request@.len(),
        {
            let ghost cache = self.blocks_to_request@;
            let ghost before = self.outgoing_requests@;
            let block: BlockInfo = self.blocks_to_request.pop().unwrap();
            assert(self.blocks_to_request@ =~= cache.drop_last());
            if position(&self.outgoing_requests, block).is_none() {
                self.outgoing_requests.push(block);
                proof {
                    let next = self.outgoing_requests@;
                    assert forall|i: int, j: int|
                        0 <= i < next.len() && 0 <= j < next.len() && i != j implies next[i]
                        != next[j] by {
                        if i < before.len() && j < before.len() {
                        } else if i < before.len() {
                            assert(before.contains(next[i]));
                        } else {
                            assert(before.contains(next[j]));
                        }
                    }
                }
            }
            let ghost actions_before = actions@;
            actions.push(PeerAction::Send(Message::Request(block)));
            proof {
                let rest = fill(self.outgoing_requests@, self.blocks_to_request@);
                let request = ActionModel::Send(MessageModel::Request(block));
                assert(sent.push(block) + rest.sent =~= sent + (seq![block] + rest.sent));
                assert(models(actions@) =~= models(actions_before).push(request));
                assert(requests(sent.push(block)) =~= requests(sent).push(request));
                sent = sent.push(block);
                assert(models(actions@) =~= models(old(actions)@) + requests(sent));
            }
        }
        proof {
            assert(fill(self.outgoing_requests@, self.blocks_to_request@).sent =~= Seq::<
                BlockInfo,
            >::empty());
            assert(sent =~= start.sent);
        }
    }

    /// Sends requests as far as they may be sent: with an empty cache a task
    /// is asked for, otherwise the cache's blocks are requested.
    fn try_request(&mut self, actions: &mut Vec<PeerAction>)
        requires
            old(self).wf(),
        ensures
            final(self).wf(),
            final(self).piece_count() == old(self).piece_count(),
            final(self).addr() == old(self).addr(),
            final(self)@ == old(self)@.try_request().state,
            models(final(actions)@) == models(old(actions)@) + old(self)@.try_request().actions,
    {
        if !self.remote_choking && self.am_interested && self.outgoing_requests.len()
            < PIPELINE_CAP {
            if self.blocks_to_request.len() == 0 {
                actions.push(PeerAction::GetTask);
                assert(models(actions@) =~= models(old(actions)@) + seq![ActionModel::GetTask]);
            } else {
                self.fill_pipeline(actions);
            }
        } else {
            assert(models(actions@) =~= models(old(actions)@) + Seq::<ActionModel>::empty());
        }
    }

    /// Takes the supervisor's verdict on our interest in the peer. When the
    /// verdict is interest and we had none, `Interested` is sent and requests follow.
    pub fn on_interest(&mut self, verdict: bool) -> (actions: Vec<PeerAction>)
        requires
            old(self).wf(),
        ensures
            final(self).wf(),
            final(self).piece_count() == old(self).piece_count(),
            final(self).addr() == old(self).addr(),
            final(self)@ == old(self)@.on_interest(verdict).state,
            models(actions@) == old(self)@.on_interest(verdict).actions,
    {
        let mut actions: Vec<PeerAction> = Vec::new();
        if verdict && !self.am_interested {
            actions.push(PeerAction::Send(Message::Interested));
            self.am_interested = true;
            assert(models(actions@) =~= seq![ActionModel::Send(MessageModel::Interested)]);
            self.try_request(&mut actions);
        } else {
            assert(models(actions@) =~= Seq::<ActionModel>::empty());
        }
        actions
    }

    /// Takes the supervisor's answer to `GetTask`. The granted blocks become
    /// the cache, and requests for them are sent as far as they may be.
    pub fn on_task(&mut self, task: Option<Vec<BlockInfo>>) -> (actions: Vec<PeerAction>)
        requires
            old(self).wf(),
        ensures
            final(self).wf(),
            final(self).piece_count() == old(self).piece_count(),
            final(self).addr() == old(self).addr(),
            final(self)@ == old(self)@.on_task(
                match task {
                    Some(blocks) => Some(blocks@),
                    None => None,
                },
            ).state,
            models(actions@) == old(self)@.on_task(
                match task {
                    Some(blocks) => Some(blocks@),
                    None => None,
                },
            ).actions,
    {
        let mut actions: Vec<PeerAction> = Vec::new();
        self.blocks_to_request = match task {
            Some(blocks) => blocks,
            None => Vec::new(),
        };
        assert(models(actions@) =~= Seq::<ActionModel>::empty());
        if !self.remote_choking && self.am_interested && self.outgoing_requests.len()
            < PIPELINE_CAP {
            self.fill_pipeline(&mut actions);
            assert(models(actions@) =~= old(self)@.on_task(
                match task {
                    Some(blocks) => Some(blocks@),
                    None => None,
                },
            ).actions);
        }
        actions
    }

    /// Takes a message from the peer and says what to do about it.
    ///
    /// A handshake in the middle of a session, a bitfield that is not the
    /// first message or does not suit the torrent: these end the session with
    /// an error and leave the state as it was. Every other message is a step
    /// of the session.
    pub fn handle_msg(&mut self, msg: Message) -> (r: Result<Vec<PeerAction>, PeerConnectError>)
        requires
            old(self).wf(),
        ensures
            final(self).wf(),
            final(self).piece_count() == old(self).piece_count(),
            final(self).addr() == old(self).addr(),
            match old(self)@.fault(msg@, old(self).piece_count()) {
                Some(e) => r is Err && r->Err_0 == e && final(self)@ == old(self)@,
                None => {
                    &&& r is Ok
                    &&& final(self)@ == old(self)@.on_message(msg@, old(self).piece_count()).state
                    &&& models(r->Ok_0@) == old(self)@.on_message(
                        msg@,
                        old(self).piece_count(),
                    ).actions
                },
            },
    {
        let mut actions: Vec<PeerAction> = Vec::new();
        assert(models(actions@) =~= Seq::<ActionModel>::empty());
        match msg {
            Message::Handshake { peer_id, info_hash } => {
                return Err(PeerConnectError::InvalidHandshake);
            },
            Message::KeepAlive => {},
            Message::Bitfield(data) => {
                if self.started {
                    return Err(PeerConnectError::UnexpectedBitfield);
                }
                match BitField::try_from(bytes_from_vec(data), self.num_pieces) {
                    Ok(bitfield) => {
                        self.started = true;
                        let ghost bits = bitfield@;
                        actions.push(PeerAction::PeerBitfield(bitfield));
                        assert(models(actions@) =~= seq![ActionModel::PeerBitfield(bits)]);
                    },
                    Err(e) => {
                        return Err(PeerConnectError::InvalidBitfield(e));
                    },
                }
            },
            Message::Choke => {
                self.started = true;
                self.remote_choking = true;
                self.outgoing_requests = Vec::new();
                assert(self@.outstanding =~= Seq::<BlockInfo>::empty());
            },
            Message::Unchoke => {
                self.started = true;
                self.remote_choking = false;
                if self.am_interested {
                    self.try_request(&mut actions);
                }
            },
            Message::Interested => {
                self.started = true;
                self.remote_interested = true;
            },
            Message::NotInterested => {
                self.started = true;
                self.remote_interested = false;
            },
            Message::Have { piece_index } => {
                self.started = true;
                actions.push(PeerAction::PeerHave { piece_index, reply: !self.am_interested });
                assert(models(actions@) =~= seq![
                    ActionModel::PeerHave { piece_index, reply: !self.am_interested },
                ]);
            },
            Message::Request(_block_info) => {
                self.started = true;
            },
            Message::Piece(block) => {
                self.started = true;
                let length: usize = bytes_as_slice(&block.data).len();
                if length <= u32::MAX as usize {
                    let info = BlockInfo {
                        index: block.index,
                        begin: block.begin,
                        length: length as u32,
                    };
                    match position(&self.outgoing_requests, info) {
                        Some(at) => {
                            let ghost before = self.outgoing_requests@;
                            let _ = self.outgoing_requests.remove(at);
                            proof {
                                assert(before.index_of(info) == at);
                                let less = self.outgoing_requests@;
                                assert forall|i: int, j: int|
                                    0 <= i < less.len() && 0 <= j < less.len() && i
                                        != j implies less[i] != less[j] by {
                                    let i0 = if i < at {
                                        i
                                    } else {
                                        i + 1
                                    };
                                    let j0 = if j < at {
                                        j
                                    } else {
                                        j + 1
                                    };
                                    assert(less[i] == before[i0] && less[j] == before[j0]);
                                }
                            }
                            let ghost data = bytes_seq(block.data);
                            actions.push(PeerAction::Piece(block));
                            assert(models(actions@) =~= seq![
                                ActionModel::Piece { index: info.index, begin: info.begin, data },
                            ]);
                            self.try_request(&mut actions);
                        },
                        None => {},
                    }
                }
            },
            Message::Cancel(_block_info) => {
                self.started = true;
            },
        }
        Ok(actions)
    }
}

} // verus!
