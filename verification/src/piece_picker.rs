//! Which piece to ask which peer for: per-piece availability and status, the
//! bitfield of every registered peer, and the two selection strategies.

use crate::bitfield::{has_bit, set_bit, BitField};
use crate::metainfo::TorrentInfo;
use crate::types::PeerAddr;
use bytes::Bytes;
use rand::seq::IteratorRandom;
use std::collections::HashMap;
use std::sync::Arc;
use vstd::prelude::*;

verus! {

broadcast use vstd::std_specs::hash::group_hash_axioms;

/// Canonical size of a block: 2^14 bytes.
pub const BLOCK_SIZE: u32 = 16384;

/// Number of downloaded pieces at which selection turns from random to rarest first.
pub const STRATEGY_SWITCH_THRESHOLD: usize = 4;

/// How far the download of a piece has come.
#[derive(Debug, Clone, Copy, PartialEq, Eq, Structural)]
pub enum PieceStatus {
    NotRequested,
    Requested,
    Download,
}

/// How the next piece is chosen among the candidates.
#[derive(Debug, Clone, Copy, PartialEq, Eq, Structural)]
pub enum Strategy {
    RandomFirst,
    RarestFirst,
}

/// A request for part of a piece.
#[derive(Debug, Copy, Clone, Hash, PartialEq, Eq, Structural)]
pub struct BlockInfo {
    pub index: u32,
    pub begin: u32,
    pub length: u32,
}

/// Part of a piece, as a peer delivered it.
#[derive(Debug, Clone, Hash, PartialEq, Eq)]
pub struct Block {
    pub index: u32,
    pub begin: u32,
    pub data: Bytes,
}

/// What the picker knows of one piece.
#[derive(Debug, Clone, Copy)]
pub struct PieceState {
    /// Registered peers known to have the piece.
    pub availability: usize,
    pub status: PieceStatus,
    /// Size in bytes.
    pub size: u32,
    /// The peer the piece was handed to, while it is `Requested`.
    pub holder: Option<u64>,
}

/// `p` with one more peer counted, unless the counter is at its ceiling.
pub open spec fn bumped(p: PieceState) -> PieceState {
    PieceState {
        availability: if p.availability < usize::MAX {
            (p.availability + 1) as usize
        } else {
            p.availability
        },
        ..p
    }
}

/// `p` with one peer fewer counted, never below zero.
pub open spec fn lowered(p: PieceState) -> PieceState {
    PieceState {
        availability: if p.availability > 0 {
            (p.availability - 1) as usize
        } else {
            p.availability
        },
        ..p
    }
}

/// Number of pieces of `pieces` that are downloaded.
pub open spec fn downloaded_count(pieces: Seq<PieceState>) -> nat
    decreases pieces.len(),
{
    if pieces.len() == 0 {
        0
    } else {
        downloaded_count(pieces.drop_last()) + if pieces.last().status == PieceStatus::Download {
            1nat
        } else {
            0nat
        }
    }
}

/// Number of blocks of a piece of `size` bytes.
pub open spec fn block_count(size: u32) -> nat {
    if size % BLOCK_SIZE == 0 {
        (size / BLOCK_SIZE) as nat
    } else {
        (size / BLOCK_SIZE + 1) as nat
    }
}

/// Block `j` of piece `index`, a piece of `size` bytes.
pub open spec fn block_at(index: u32, size: u32, j: int) -> BlockInfo {
    BlockInfo {
        index,
        begin: (j * BLOCK_SIZE) as u32,
        length: if size - j * BLOCK_SIZE < BLOCK_SIZE {
            (size - j * BLOCK_SIZE) as u32
        } else {
            BLOCK_SIZE
        },
    }
}

/// The blocks that cover piece `index` from its first byte to its last, in order.
pub open spec fn block_list(index: u32, size: u32) -> Seq<BlockInfo> {
    Seq::new(block_count(size), |j: int| block_at(index, size, j))
}

/// The blocks of a piece cover it exactly: none is empty, each starts where
/// the one before ended, the first at the piece's first byte, and the last
/// ends at the piece's last byte.
pub proof fn lemma_blocks_cover(index: u32, size: u32)
    ensures
        block_list(index, size).len() == block_count(size),
        size > 0 ==> block_list(index, size).len() > 0,
        forall|j: int|
            0 <= j < block_count(size) ==> {
                let block = #[trigger] block_list(index, size)[j];
                &&& block.index == index
                &&& block.begin == j * BLOCK_SIZE
                &&& 0 < block.length <= BLOCK_SIZE
                &&& block.begin + block.length == if j + 1 < block_count(size) {
                    (j + 1) * BLOCK_SIZE
                } else {
                    size as int
                }
            },
{
}

/// A piece no longer than a block is one block, which is the whole piece.
pub proof fn lemma_small_piece_is_one_block(index: u32, size: u32)
    requires
        0 < size <= BLOCK_SIZE,
    ensures
        block_list(index, size) == seq![BlockInfo { index, begin: 0, length: size }],
{
    assert(block_list(index, size) =~= seq![BlockInfo { index, begin: 0, length: size }]);
}

/// One where `b` holds, zero where it does not: what a peer adds to the
/// counter of a piece.
pub open spec fn one_if(b: bool) -> int {
    if b {
        1
    } else {
        0
    }
}

/// The picker as a mathematical value.
pub struct PickerModel {
    /// Bitfield of each registered peer, by the peer's key.
    pub peers: Map<u64, Seq<bool>>,
    pub pieces: Seq<PieceState>,
    pub strategy: Strategy,
}

impl PickerModel {
    /// Peer `peer` is registered and known to have piece `i`.
    pub open spec fn has(self, peer: u64, i: int) -> bool {
        self.peers.contains_key(peer) && has_bit(self.peers[peer], i)
    }

    /// The registered peers known to have piece `i`.
    pub open spec fn holders(self, i: int) -> Set<u64> {
        Set::new(|k: u64| self.has(k, i))
    }

    /// Every availability counter equals the number of registered peers whose
    /// bitfield has the piece.
    pub open spec fn counts_exact(self) -> bool {
        forall|i: int|
            0 <= i < self.pieces.len() ==> (#[trigger] self.pieces[i]).availability
                == self.holders(i).len()
    }

    /// A piece has a holder exactly while it is requested.
    pub open spec fn holders_match(self) -> bool {
        forall|i: int|
            0 <= i < self.pieces.len() ==> ((#[trigger] self.pieces[i]).status
                == PieceStatus::Requested <==> self.pieces[i].holder is Some)
    }

    /// The picker after `peer` registered with `bits`: the bitfield is
    /// stored under the peer, and the peer counts for exactly the pieces that
    /// this bitfield has. What the peer counted for before, if it was
    /// registered, is withdrawn first.
    pub open spec fn register(self, peer: u64, bits: Seq<bool>) -> PickerModel {
        self.unregister(peer).added(peer, bits)
    }

    /// The picker with the bitfield `bits` stored under `peer` and every piece
    /// that it has counting one more peer.
    pub open spec fn added(self, peer: u64, bits: Seq<bool>) -> PickerModel {
        PickerModel {
            peers: self.peers.insert(peer, bits),
            pieces: Seq::new(
                self.pieces.len(),
                |i: int|
                    if has_bit(bits, i) {
                        bumped(self.pieces[i])
                    } else {
                        self.pieces[i]
                    },
            ),
            strategy: self.strategy,
        }
    }

    /// The picker after `peer` announced piece `index`: if the peer is
    /// registered, the piece exists and the stored bitfield has room for it and
    /// lacks it, the bit is set and the piece counts one more peer; otherwise
    /// nothing changes.
    pub open spec fn update(self, peer: u64, index: int) -> PickerModel {
        if self.peers.contains_key(peer) && 0 <= index < self.pieces.len() && index
            < self.peers[peer].len() && !self.peers[peer][index] {
            PickerModel {
                peers: self.peers.insert(peer, set_bit(self.peers[peer], index)),
                pieces: self.pieces.update(index, bumped(self.pieces[index])),
                strategy: self.strategy,
            }
        } else {
            self
        }
    }

    /// The picker after `peer` left: its bitfield is forgotten, and every
    /// piece that it had counts one peer fewer, never below zero.
    pub open spec fn unregister(self, peer: u64) -> PickerModel {
        if self.peers.contains_key(peer) {
            PickerModel {
                peers: self.peers.remove(peer),
                pieces: Seq::new(
                    self.pieces.len(),
                    |i: int|
                        if self.has(peer, i) {
                            lowered(self.pieces[i])
                        } else {
                            self.pieces[i]
                        },
                ),
                strategy: self.strategy,
            }
        } else {
            self
        }
    }

    /// The pieces after `index` is marked with `status`, its holder being `holder`.
    pub open spec fn marked(self, index: int, status: PieceStatus, holder: Option<u64>) -> Seq<
        PieceState,
    > {
        if 0 <= index < self.pieces.len() {
            self.pieces.update(
                index,
                PieceState { status, holder, ..self.pieces[index] },
            )
        } else {
            self.pieces
        }
    }

    /// The picker after piece `index` was completed: the piece is
    /// `Download`, and selection turns to rarest first when this brings the
    /// number of downloaded pieces to the threshold.
    pub open spec fn mark_downloaded(self, index: int) -> PickerModel {
        let pieces = self.marked(index, PieceStatus::Download, None);
        PickerModel {
            peers: self.peers,
            pieces,
            strategy: if self.strategy == Strategy::RandomFirst && downloaded_count(pieces)
                == STRATEGY_SWITCH_THRESHOLD {
                Strategy::RarestFirst
            } else {
                self.strategy
            },
        }
    }

    /// Peer `peer` has a piece that is not downloaded yet.
    pub open spec fn interested(self, peer: u64) -> bool {
        exists|i: int|
            0 <= i < self.pieces.len() && (#[trigger] self.pieces[i]).status
                != PieceStatus::Download && self.has(peer, i)
    }

    /// Every piece is downloaded.
    pub open spec fn all_downloaded(self) -> bool {
        forall|i: int|
            0 <= i < self.pieces.len() ==> (#[trigger] self.pieces[i]).status
                == PieceStatus::Download
    }

    /// Piece `i` can be asked of `peer`: nobody was asked for it, and the peer has it.
    pub open spec fn is_candidate(self, peer: u64, i: int) -> bool {
        0 <= i < self.pieces.len() && self.pieces[i].status == PieceStatus::NotRequested
            && self.has(peer, i)
    }

    /// Piece `k` is the candidate for `peer` that the fewest peers have, the
    /// one of lowest index among those.
    pub open spec fn is_rarest(self, peer: u64, k: int) -> bool {
        &&& self.is_candidate(peer, k)
        &&& forall|j: int| #[trigger]
            self.is_candidate(peer, j) ==> self.pieces[k].availability
                < self.pieces[j].availability || (self.pieces[k].availability
                == self.pieces[j].availability && k <= j)
    }

    /// Piece `k` handed to `peer`.
    pub open spec fn assign(self, peer: u64, k: int) -> PickerModel {
        PickerModel {
            peers: self.peers,
            pieces: self.marked(k, PieceStatus::Requested, Some(peer)),
            strategy: self.strategy,
        }
    }

    /// Piece `k` taken back from whoever it was handed to; a piece that is not
    /// `Requested` stays as it is.
    pub open spec fn release(self, k: int) -> PickerModel {
        if 0 <= k < self.pieces.len() && self.pieces[k].status == PieceStatus::Requested {
            PickerModel {
                peers: self.peers,
                pieces: self.marked(k, PieceStatus::NotRequested, None),
                strategy: self.strategy,
            }
        } else {
            self
        }
    }

    /// Piece `k` asked for anew after it was lost: a piece that is `Download`
    /// becomes `NotRequested`; any other piece stays as it is.
    pub open spec fn requeue(self, k: int) -> PickerModel {
        if 0 <= k < self.pieces.len() && self.pieces[k].status == PieceStatus::Download {
            PickerModel {
                peers: self.peers,
                pieces: self.marked(k, PieceStatus::NotRequested, None),
                strategy: self.strategy,
            }
        } else {
            self
        }
    }

    /// Every piece handed to `peer` taken back.
    pub open spec fn release_peer(self, peer: u64) -> PickerModel {
        PickerModel {
            peers: self.peers,
            pieces: Seq::new(
                self.pieces.len(),
                |i: int|
                    if self.pieces[i].holder == Some(peer) {
                        PieceState {
                            status: PieceStatus::NotRequested,
                            holder: None,
                            ..self.pieces[i]
                        }
                    } else {
                        self.pieces[i]
                    },
            ),
            strategy: self.strategy,
        }
    }
}

/// The peers that have a piece are registered peers: finitely many, and no
/// more than are registered.
pub proof fn lemma_holders_bounded(m: PickerModel, i: int)
    requires
        m.peers.dom().finite(),
    ensures
        m.holders(i).finite(),
        m.holders(i).len() <= m.peers.dom().len(),
{
    assert(m.holders(i).subset_of(m.peers.dom()));
    vstd::set_lib::lemma_len_subset(m.holders(i), m.peers.dom());
}

/// A picker without peers, whose counters are all zero, counts exactly.
pub proof fn lemma_counts_exact_at_start(m: PickerModel)
    requires
        m.peers == Map::<u64, Seq<bool>>::empty(),
        forall|i: int| 0 <= i < m.pieces.len() ==> (#[trigger] m.pieces[i]).availability == 0,
    ensures
        m.counts_exact(),
{
    assert forall|i: int| 0 <= i < m.pieces.len() implies (#[trigger] m.pieces[i]).availability
        == m.holders(i).len() by {
        assert(m.holders(i) =~= Set::<u64>::empty());
    }
}

/// Storing the bitfield of a peer that is not registered keeps the counters
/// exact and adds one to the counter of every piece that the bitfield has,
/// as long as the peers can still be counted.
pub proof fn lemma_added_keeps_counts(m: PickerModel, peer: u64, bits: Seq<bool>)
    requires
        m.counts_exact(),
        m.peers.dom().finite(),
        m.peers.dom().len() < usize::MAX,
        !m.peers.contains_key(peer),
    ensures
        m.added(peer, bits).counts_exact(),
        forall|i: int|
            0 <= i < m.pieces.len() ==> (#[trigger] m.added(peer, bits).pieces[i]).availability
                == m.pieces[i].availability + one_if(has_bit(bits, i)),
{
    let after = m.added(peer, bits);
    assert forall|i: int| 0 <= i < after.pieces.len() implies (#[trigger] after.pieces[i]).availability
        == after.holders(i).len() && after.pieces[i].availability == m.pieces[i].availability
        + one_if(has_bit(bits, i)) by {
        lemma_holders_bounded(m, i);
        assert(m.pieces[i].availability == m.holders(i).len());
        if has_bit(bits, i) {
            assert(after.holders(i) =~= m.holders(i).insert(peer));
        } else {
            assert(after.holders(i) =~= m.holders(i));
        }
    }
}

/// Registration keeps the counters exact, whether or not the peer was
/// registered before: afterwards every counter is what it was, less one
/// where the peer's former bitfield had the piece, plus one where the new
/// one has it. This holds as long as the peers can still be counted.
pub proof fn lemma_register_keeps_counts(m: PickerModel, peer: u64, bits: Seq<bool>)
    requires
        m.counts_exact(),
        m.peers.dom().finite(),
        m.peers.dom().insert(peer).len() <= usize::MAX,
    ensures
        m.register(peer, bits).counts_exact(),
        m.register(peer, bits).peers == m.peers.insert(peer, bits),
        forall|i: int|
            0 <= i < m.pieces.len() ==> (#[trigger] m.register(peer, bits).pieces[i]).availability
                == m.pieces[i].availability - one_if(m.has(peer, i)) + one_if(has_bit(bits, i)),
        forall|i: int|
            0 <= i < m.pieces.len() ==> (#[trigger] m.register(peer, bits).pieces[i]).status
                == m.pieces[i].status && m.register(peer, bits).pieces[i].holder
                == m.pieces[i].holder && m.register(peer, bits).pieces[i].size == m.pieces[i].size,
{
    let mid = m.unregister(peer);
    lemma_unregister_keeps_counts(m, peer);
    assert(mid.peers.dom() =~= m.peers.dom().remove(peer));
    assert(m.peers.dom().insert(peer) =~= mid.peers.dom().insert(peer));
    lemma_added_keeps_counts(mid, peer, bits);
    assert(m.register(peer, bits).peers =~= m.peers.insert(peer, bits));
    assert forall|i: int| 0 <= i < m.pieces.len() implies (#[trigger] m.register(
        peer,
        bits,
    ).pieces[i]).availability == m.pieces[i].availability - one_if(m.has(peer, i)) + one_if(
        has_bit(bits, i),
    ) by {
        assert(m.pieces[i].availability == m.holders(i).len());
        lemma_holders_bounded(m, i);
        if m.has(peer, i) {
            assert(m.holders(i).contains(peer));
        }
        assert(mid.added(peer, bits).pieces[i].availability == mid.pieces[i].availability
            + one_if(has_bit(bits, i)));
    }
}

/// An announcement of one more piece keeps the counters exact: the piece
/// counts one more peer exactly when the peer's bitfield gained it.
pub proof fn lemma_update_keeps_counts(m: PickerModel, peer: u64, index: int)
    requires
        m.counts_exact(),
        m.peers.dom().finite(),
        m.peers.dom().len() <= usize::MAX,
    ensures
        m.update(peer, index).counts_exact(),
        m.update(peer, index) != m ==> m.update(peer, index).pieces[index].availability
            == m.pieces[index].availability + 1,
        m.update(peer, index) != m ==> m.update(peer, index).has(peer, index) && !m.has(
            peer,
            index,
        ),
        m.has(peer, index) ==> m.update(peer, index) == m,
        forall|i: int|
            0 <= i < m.pieces.len() && i != index ==> #[trigger] m.update(peer, index).pieces[i]
                == m.pieces[i],
        forall|i: int|
            0 <= i < m.pieces.len() ==> (#[trigger] m.update(peer, index).pieces[i]).status
                == m.pieces[i].status && m.update(peer, index).pieces[i].holder
                == m.pieces[i].holder && m.update(peer, index).pieces[i].size == m.pieces[i].size,
        forall|k: u64|
            k != peer ==> m.update(peer, index).peers.contains_key(k) == m.peers.contains_key(k)
                && #[trigger] m.update(peer, index).peers[k] == m.peers[k],
{
    let after = m.update(peer, index);
    if m.peers.contains_key(peer) && 0 <= index < m.pieces.len() && index < m.peers[peer].len()
        && !m.peers[peer][index] {
        assert forall|i: int|
            0 <= i < after.pieces.len() implies (#[trigger] after.pieces[i]).availability
            == after.holders(i).len() by {
            lemma_holders_bounded(m, i);
            assert(m.pieces[i].availability == m.holders(i).len());
            if i == index {
                assert(after.holders(i) =~= m.holders(i).insert(peer));
                assert(m.holders(i).insert(peer).subset_of(m.peers.dom()));
                vstd::set_lib::lemma_len_subset(m.holders(i).insert(peer), m.peers.dom());
            } else {
                assert(after.holders(i) =~= m.holders(i));
            }
        }
        lemma_holders_bounded(m, index);
        assert(m.pieces[index].availability == m.holders(index).len());
        assert(m.holders(index).insert(peer).subset_of(m.peers.dom()));
        vstd::set_lib::lemma_len_subset(m.holders(index).insert(peer), m.peers.dom());
    }
}

/// Forgetting a peer keeps the counters exact: every piece that the peer
/// had counts one peer fewer, and no other counter changes.
pub proof fn lemma_unregister_keeps_counts(m: PickerModel, peer: u64)
    requires
        m.counts_exact(),
        m.peers.dom().finite(),
    ensures
        m.unregister(peer).counts_exact(),
        m.unregister(peer).pieces.len() == m.pieces.len(),
        forall|i: int|
            0 <= i < m.pieces.len() ==> (#[trigger] m.unregister(peer).pieces[i]).availability
                == m.pieces[i].availability - one_if(m.has(peer, i)),
{
    let after = m.unregister(peer);
    assert forall|i: int| 0 <= i < after.pieces.len() implies (#[trigger] after.pieces[i]).availability
        == after.holders(i).len() && after.pieces[i].availability == m.pieces[i].availability
        - one_if(m.has(peer, i)) by {
        lemma_holders_bounded(m, i);
        assert(m.pieces[i].availability == m.holders(i).len());
        if m.peers.contains_key(peer) {
            assert(after.holders(i) =~= m.holders(i).remove(peer));
            if m.has(peer, i) {
                assert(m.holders(i).contains(peer));
            }
        }
    }
}

/// Changes of status leave the counters alone: marking, handing out and
/// taking back keep them exact.
pub proof fn lemma_status_keeps_counts(m: PickerModel, peer: u64, index: int)
    requires
        m.counts_exact(),
    ensures
        m.mark_downloaded(index).counts_exact(),
        m.assign(peer, index).counts_exact(),
        m.release(index).counts_exact(),
        m.requeue(index).counts_exact(),
        m.release_peer(peer).counts_exact(),
{
    lemma_same_peers_keeps_counts(m, m.mark_downloaded(index));
    lemma_same_peers_keeps_counts(m, m.assign(peer, index));
    lemma_same_peers_keeps_counts(m, m.release(index));
    lemma_same_peers_keeps_counts(m, m.requeue(index));
    lemma_same_peers_keeps_counts(m, m.release_peer(peer));
}

/// Exact counters stay exact when neither the peers nor the counters change.
pub proof fn lemma_same_peers_keeps_counts(m: PickerModel, after: PickerModel)
    requires
        m.counts_exact(),
        after.peers == m.peers,
        after.pieces.len() == m.pieces.len(),
        forall|i: int|
            0 <= i < m.pieces.len() ==> (#[trigger] after.pieces[i]).availability
                == m.pieces[i].availability,
    ensures
        after.counts_exact(),
{
    assert forall|i: int| 0 <= i < after.pieces.len() implies (#[trigger] after.pieces[i]).availability
        == after.holders(i).len() by {
        assert(m.pieces[i].availability == m.holders(i).len());
        assert(after.holders(i) =~= m.holders(i));
    }
}

/// A piece leaves `Download` only when it is asked for anew after its loss:
/// a downloaded piece stays downloaded through registration, announcements,
/// departures, marking, handing out a candidate and taking pieces back.
pub proof fn lemma_downloaded_is_final(
    m: PickerModel,
    peer: u64,
    bits: Seq<bool>,
    index: int,
    i: int,
)
    requires
        m.holders_match(),
        0 <= i < m.pieces.len(),
        m.pieces[i].status == PieceStatus::Download,
    ensures
        m.register(peer, bits).pieces[i].status == PieceStatus::Download,
        m.update(peer, index).pieces[i].status == PieceStatus::Download,
        m.unregister(peer).pieces[i].status == PieceStatus::Download,
        m.mark_downloaded(index).pieces[i].status == PieceStatus::Download,
        m.is_candidate(peer, index) ==> m.assign(peer, index).pieces[i].status
            == PieceStatus::Download,
        m.release(index).pieces[i].status == PieceStatus::Download,
        m.release_peer(peer).pieces[i].status == PieceStatus::Download,
{
}

/// A piece is handed out only while nobody holds it: after a candidate is
/// assigned, it is `Requested` by that peer alone and every other piece is as before.
pub proof fn lemma_assign_is_exclusive(m: PickerModel, peer: u64, k: int)
    requires
        m.holders_match(),
        m.is_candidate(peer, k),
    ensures
        m.pieces[k].holder is None,
        m.assign(peer, k).holders_match(),
        m.assign(peer, k).pieces[k].status == PieceStatus::Requested,
        m.assign(peer, k).pieces[k].holder == Some(peer),
        forall|i: int|
            0 <= i < m.pieces.len() && i != k ==> #[trigger] m.assign(peer, k).pieces[i]
                == m.pieces[i],
        forall|other: u64| !#[trigger] m.assign(peer, k).is_candidate(other, k),
{
}

/// `list` holds exactly the candidates for the peer `key`, in rising order.
#[verifier::opaque]
spec fn lists_candidates(m: PickerModel, key: u64, list: Seq<usize>) -> bool {
    &&& forall|t: int| 0 <= t < list.len() ==> m.is_candidate(key, #[trigger] list[t] as int)
    &&& forall|i: usize| #[trigger] m.is_candidate(key, i as int) ==> list.contains(i)
    &&& forall|a: int, b: int| 0 <= a < b < list.len() ==> list[a] < list[b]
}

proof fn lemma_listed_is_candidate(m: PickerModel, key: u64, list: Seq<usize>, t: int)
    requires
        lists_candidates(m, key, list),
        0 <= t < list.len(),
    ensures
        m.is_candidate(key, list[t] as int),
        list[t] < m.pieces.len(),
{
    reveal(lists_candidates);
}

proof fn lemma_no_candidate(m: PickerModel, key: u64, list: Seq<usize>)
    requires
        lists_candidates(m, key, list),
        list.len() == 0,
        m.pieces.len() <= usize::MAX,
    ensures
        forall|i: int| !m.is_candidate(key, i),
{
    reveal(lists_candidates);
    assert forall|i: int| !m.is_candidate(key, i) by {
        if m.is_candidate(key, i) {
            assert(m.is_candidate(key, (i as usize) as int));
            assert(list.contains(i as usize));
        }
    }
}

/// In a rising list of all candidates, the first item of least availability
/// is the rarest candidate.
proof fn lemma_first_least(m: PickerModel, key: u64, list: Seq<usize>, s: int)
    requires
        0 <= s < list.len(),
        m.pieces.len() <= usize::MAX,
        lists_candidates(m, key, list),
        forall|t: int|
            0 <= t < list.len() ==> m.pieces[list[s] as int].availability
                <= m.pieces[#[trigger] list[t] as int].availability,
        forall|t: int|
            0 <= t < s ==> m.pieces[list[s] as int].availability
                < m.pieces[#[trigger] list[t] as int].availability,
    ensures
        m.is_rarest(key, list[s] as int),
{
    reveal(lists_candidates);
    let best = list[s];
    assert(m.is_candidate(key, list[s] as int));
    assert forall|j: int| #[trigger] m.is_candidate(key, j) implies m.pieces[best as int].availability
        < m.pieces[j].availability || (m.pieces[best as int].availability
        == m.pieces[j].availability && best <= j) by {
        let ju: usize = j as usize;
        assert(m.is_candidate(key, ju as int));
        assert(list.contains(ju));
        let t = choose|t: int| 0 <= t < list.len() && list[t] == ju;
        assert(m.pieces[best as int].availability <= m.pieces[list[t] as int].availability);
        if t < s {
            assert(m.pieces[best as int].availability < m.pieces[list[t] as int].availability);
        } else if t > s {
            assert(list[s] < list[t]);
        }
    }
}

/// Tracks what every registered peer has and what was asked of whom.
pub struct PiecePicker {
    peer_bitifield: HashMap<u64, BitField>,
    total_pieces: usize,
    pieces: Vec<PieceState>,
    pick_strategy: Strategy,
}

impl View for PiecePicker {
    type V = PickerModel;

    closed spec fn view(&self) -> PickerModel {
        PickerModel {
            peers: Map::new(
                |k: u64| self.peer_bitifield@.contains_key(k),
                |k: u64| self.peer_bitifield@[k]@,
            ),
            pieces: self.pieces@,
            strategy: self.pick_strategy,
        }
    }
}

/// `IteratorRandom::choose` of the `rand` crate over the items of `candidates`,
/// with the thread's generator: `None` for an empty list, else one of its items.
/// Which one is left to chance.
#[verifier::external_body]
fn choose_random(candidates: &Vec<usize>) -> (r: Option<usize>)
    ensures
        candidates@.len() == 0 ==> r is None,
        candidates@.len() > 0 ==> r is Some && candidates@.contains(r->0),
{
    candidates.iter().choose(&mut rand::rng()).copied()
}

/// The blocks that cover a piece of `size` bytes, in order.
pub fn split_piece(index: u32, size: u32) -> (blocks: Vec<BlockInfo>)
    ensures
        blocks@ == block_list(index, size),
{
    let count: u32 = if size % BLOCK_SIZE == 0 {
        size / BLOCK_SIZE
    } else {
        size / BLOCK_SIZE + 1
    };
    let mut blocks: Vec<BlockInfo> = Vec::new();
    let mut j: u32 = 0;
    while j < count
        invariant
            j <= count,
            count == block_count(size),
            blocks@.len() == j,
            forall|t: int| 0 <= t < j ==> blocks@[t] == block_at(index, size, t),
        decreases count - j,
    {
        let begin: u32 = j * BLOCK_SIZE;
        let left: u32 = size - begin;
        let length: u32 = if left < BLOCK_SIZE {
            left
        } else {
            BLOCK_SIZE
        };
        blocks.push(BlockInfo { index, begin, length });
        j += 1;
    }
    assert(blocks@ =~= block_list(index, size));
    blocks
}

impl PiecePicker {
    /// Internal consistency: one state per piece, every stored bitfield
    /// well-formed, a holder exactly on the requested pieces, and every
    /// counter equal to the number of registered peers that have the piece.
    pub closed spec fn wf(&self) -> bool {
        &&& self.pieces@.len() == self.total_pieces
        &&& self.total_pieces <= u32::MAX
        &&& forall|k: u64| #[trigger]
            self.peer_bitifield@.contains_key(k) ==> self.peer_bitifield@[k].wf()
        &&& self@.holders_match()
        &&& self@.counts_exact()
    }

    /// What a well-formed picker guarantees of its model.
    pub proof fn lemma_wf(&self)
        requires
            self.wf(),
        ensures
            self@.holders_match(),
            self@.counts_exact(),
            self@.pieces.len() <= u32::MAX,
            self@.peers.dom().finite(),
            self@.peers.dom().len() <= usize::MAX,
    {
        assert(self.peer_bitifield@.len() == self.peer_bitifield.len());
        assert(self@.peers.dom() =~= self.peer_bitifield@.dom());
    }

    /// A picker for `torrent`: no peer registered, every piece `NotRequested`
    /// with availability zero and the size that the torrent's geometry gives it.
    pub fn from(torrent: Arc<TorrentInfo>) -> (picker: Self)
        requires
            torrent.wf(),
        ensures
            picker.wf(),
            picker@.peers == Map::<u64, Seq<bool>>::empty(),
            picker@.strategy == Strategy::RandomFirst,
            picker@.pieces.len() == torrent.info.pieces@.len(),
            picker@.counts_exact(),
            forall|i: int|
                0 <= i < picker@.pieces.len() ==> #[trigger] picker@.pieces[i] == (PieceState {
                    availability: 0,
                    status: PieceStatus::NotRequested,
                    size: crate::metainfo::piece_size(
                        torrent.info.length as int,
                        torrent.info.piece_length as int,
                        i,
                    ) as u32,
                    holder: None,
                }),
    {
        let total_pieces: usize = torrent.get_total_pieces();
        let mut pieces: Vec<PieceState> = Vec::new();
        let mut i: usize = 0;
        while i < total_pieces
            invariant
                i <= total_pieces,
                torrent.wf(),
                total_pieces == torrent.info.pieces@.len(),
                pieces@.len() == i,
                forall|j: int|
                    0 <= j < i ==> #[trigger] pieces@[j] == (PieceState {
                        availability: 0,
                        status: PieceStatus::NotRequested,
                        size: crate::metainfo::piece_size(
                            torrent.info.length as int,
                            torrent.info.piece_length as int,
                            j,
                        ) as u32,
                        holder: None,
                    }),
            decreases total_pieces - i,
        {
            pieces.push(
                PieceState {
                    availability: 0,
                    status: PieceStatus::NotRequested,
                    size: torrent.get_piece_len(i),
                    holder: None,
                },
            );
            i += 1;
        }
        let picker = Self {
            peer_bitifield: HashMap::new(),
            total_pieces,
            pieces,
            pick_strategy: Strategy::RandomFirst,
        };
        assert(picker@.peers =~= Map::<u64, Seq<bool>>::empty());
        proof {
            lemma_counts_exact_at_start(picker@);
        }
        picker
    }

    /// What is known of piece `index`, if there is such a piece.
    pub fn piece(&self, index: usize) -> (state: Option<PieceState>)
        ensures
            match state {
                Some(p) => index < self@.pieces.len() && p == self@.pieces[index as int],
                None => index >= self@.pieces.len(),
            },
    {
        if index < self.pieces.len() {
            Some(self.pieces[index])
        } else {
            None
        }
    }

    /// The strategy by which pieces are chosen at present.
    pub fn strategy(&self) -> (strategy: Strategy)
        ensures
            strategy == self@.strategy,
    {
        self.pick_strategy
    }

    /// Registers `peer` with the pieces it announced: the bitfield is stored
    /// under the peer, and the peer counts for exactly the pieces that this
    /// bitfield has. A peer that was registered before is registered anew:
    /// what it counted for is withdrawn first.
    ///
    /// Every counter is afterwards what it was, less one where the peer's
    /// former bitfield had the piece, plus one where the new one has it; no
    /// status changes.
    pub fn register_peer(&mut self, peer: PeerAddr, bitfield: BitField)
        requires
            old(self).wf(),
            bitfield.wf(),
        ensures
            final(self).wf(),
            final(self)@ == old(self)@.register(peer.key(), bitfield@),
            final(self)@.counts_exact(),
            final(self)@.peers == old(self)@.peers.insert(peer.key(), bitfield@),
            final(self)@.pieces.len() == old(self)@.pieces.len(),
            forall|i: int|
                0 <= i < old(self)@.pieces.len() ==> (#[trigger] final(self)@.pieces[i]).status
                    == old(self)@.pieces[i].status && final(self)@.pieces[i].holder == old(
                    self,
                )@.pieces[i].holder && final(self)@.pieces[i].size == old(self)@.pieces[i].size,
            forall|i: int|
                0 <= i < old(self)@.pieces.len() ==> (#[trigger] final(self)@.pieces[i]).availability
                    == old(self)@.pieces[i].availability - one_if(old(self)@.has(peer.key(), i))
                    + one_if(has_bit(bitfield@, i)),
    {
        self.unregister_peer(&peer);
        let ghost mid = self@;
        self.add_peer(peer.key(), bitfield);
        proof {
            old(self).lemma_wf();
            assert(self@.peers.dom() =~= self.peer_bitifield@.dom());
            assert(self.peer_bitifield@.len() == self.peer_bitifield.len());
            assert(self@.peers.dom() =~= old(self)@.peers.dom().insert(peer.key()));
            lemma_register_keeps_counts(old(self)@, peer.key(), bitfield@);
        }
    }

    /// Stores the bitfield of a peer that is not registered, every piece of
    /// the bitfield counting one more peer.
    fn add_peer(&mut self, key: u64, bitfield: BitField)
        requires
            old(self).wf(),
            bitfield.wf(),
            !old(self)@.peers.contains_key(key),
        ensures
            final(self).wf(),
            final(self)@ == old(self)@.added(key, bitfield@),
    {
        let n: usize = self.pieces.len();
        let mut i: usize = 0;
        while i < n
            invariant
                i <= n,
                n == self.pieces@.len(),
                n == old(self).pieces@.len(),
                bitfield.wf(),
                self.peer_bitifield == old(self).peer_bitifield,
                self.total_pieces == old(self).total_pieces,
                self.pick_strategy == old(self).pick_strategy,
                forall|j: int|
                    0 <= j < i ==> #[trigger] self.pieces@[j] == (if has_bit(bitfield@, j) {
                        bumped(old(self).pieces@[j])
                    } else {
                        old(self).pieces@[j]
                    }),
                forall|j: int| i <= j < n ==> #[trigger] self.pieces@[j] == old(self).pieces@[j],
            decreases n - i,
        {
            if bitfield.has_piece(i) {
                let p: PieceState = self.pieces[i];
                let availability: usize = if p.availability < usize::MAX {
                    p.availability + 1
                } else {
                    p.availability
                };
                self.pieces.set(
                    i,
                    PieceState { availability, status: p.status, size: p.size, holder: p.holder },
                );
            }
            i += 1;
        }
        self.peer_bitifield.insert(key, bitfield);
        proof {
            let want = old(self)@.added(key, bitfield@);
            assert(self@.peers =~= want.peers);
            assert(self@.pieces =~= want.pieces);
            assert(old(self)@.peers.dom() =~= old(self).peer_bitifield@.dom());
            assert(self.peer_bitifield@.dom() =~= old(self).peer_bitifield@.dom().insert(key));
            assert(self.peer_bitifield@.len() == self.peer_bitifield.len());
            lemma_added_keeps_counts(old(self)@, key, bitfield@);
        }
    }

    /// Notes that `peer` announced piece `piece_index`. If the peer is
    /// registered, the piece exists, and the stored bitfield has room for it
    /// and did not have it, the bit is set and the piece counts one more
    /// peer. An announcement that is repeated, that comes from an unknown peer
    /// or that names a piece that does not exist changes nothing.
    pub fn update_peer(&mut self, peer: &PeerAddr, piece_index: u32)
        requires
            old(self).wf(),
        ensures
            final(self).wf(),
            final(self)@ == old(self)@.update(peer.key(), piece_index as int),
            final(self)@.counts_exact(),
            final(self)@ != old(self)@ ==> final(self)@.pieces[piece_index as int].availability
                == old(self)@.pieces[piece_index as int].availability + 1,
    {
        proof {
            self.lemma_wf();
            lemma_update_keeps_counts(old(self)@, peer.key(), piece_index as int);
        }
        let key: u64 = peer.key();
        let index: usize = piece_index as usize;
        if index >= self.pieces.len() {
            return ;
        }
        match self.peer_bitifield.remove(&key) {
            Some(bitfield) => {
                let mut bitfield = bitfield;
                if index < bitfield.total_pieces() && !bitfield.has_piece(index) {
                    bitfield.set_piece(index);
                    let p: PieceState = self.pieces[index];
                    let availability: usize = if p.availability < usize::MAX {
                        p.availability + 1
                    } else {
                        p.availability
                    };
                    self.pieces.set(
                        index,
                        PieceState {
                            availability,
                            status: p.status,
                            size: p.size,
                            holder: p.holder,
                        },
                    );
                }
                self.peer_bitifield.insert(key, bitfield);
                proof {
                    let want = old(self)@.update(key, piece_index as int);
                    assert(self@.peers =~= want.peers);
                    assert(self@.pieces =~= want.pieces);
                }
            },
            None => {
                proof {
                    assert(self@.peers =~= old(self)@.peers);
                }
            },
        }
    }

    /// Forgets `peer`: every piece of its stored bitfield counts one peer
    /// fewer. An unknown peer changes nothing.
    pub fn unregister_peer(&mut self, peer: &PeerAddr)
        requires
            old(self).wf(),
        ensures
            final(self).wf(),
            final(self)@ == old(self)@.unregister(peer.key()),
            final(self)@.counts_exact(),
            !final(self)@.peers.contains_key(peer.key()),
            forall|i: int|
                0 <= i < old(self)@.pieces.len() ==> (#[trigger] final(self)@.pieces[i]).availability
                    == old(self)@.pieces[i].availability - one_if(old(self)@.has(peer.key(), i)),
    {
        proof {
            self.lemma_wf();
            lemma_unregister_keeps_counts(old(self)@, peer.key());
        }
        let key: u64 = peer.key();
        match self.peer_bitifield.remove(&key) {
            Some(bitfield) => {
                let n: usize = self.pieces.len();
                let mut i: usize = 0;
                while i < n
                    invariant
                        i <= n,
                        n == self.pieces@.len(),
                        n == old(self).pieces@.len(),
                        bitfield.wf(),
                        self.peer_bitifield@ == old(self).peer_bitifield@.remove(key),
                        self.total_pieces == old(self).total_pieces,
                        self.pick_strategy == old(self).pick_strategy,
                        forall|j: int|
                            0 <= j < i ==> #[trigger] self.pieces@[j] == (if has_bit(
                                bitfield@,
                                j,
                            ) {
                                lowered(old(self).pieces@[j])
                            } else {
                                old(self).pieces@[j]
                            }),
                        forall|j: int|
                            i <= j < n ==> #[trigger] self.pieces@[j] == old(self).pieces@[j],
                    decreases n - i,
                {
                    let p: PieceState = self.pieces[i];
                    if bitfield.has_piece(i) && p.availability > 0 {
                        self.pieces.set(
                            i,
                            PieceState {
                                availability: p.availability - 1,
                                status: p.status,
                                size: p.size,
                                holder: p.holder,
                            },
                        );
                    }
                    i += 1;
                }
                proof {
                    let want = old(self)@.unregister(key);
                    assert(self@.peers =~= want.peers);
                    assert(self@.pieces =~= want.pieces);
                }
            },
            None => {
                proof {
                    assert(self@.peers =~= old(self)@.peers);
                }
            },
        }
    }

    /// Sets piece `index` to `status` with `holder`; an index out of range changes nothing.
    fn mark_piece(&mut self, index: usize, status: PieceStatus, holder: Option<u64>)
        requires
            old(self).wf(),
            status == PieceStatus::Requested <==> holder is Some,
        ensures
            final(self).wf(),
            final(self)@.peers == old(self)@.peers,
            final(self)@.strategy == old(self)@.strategy,
            final(self)@.pieces == old(self)@.marked(index as int, status, holder),
    {
        if index < self.pieces.len() {
            let p: PieceState = self.pieces[index];
            self.pieces.set(
                index,
                PieceState { availability: p.availability, status, size: p.size, holder },
            );
        }
        proof {
            lemma_same_peers_keeps_counts(old(self)@, self@);
        }
    }

    /// Number of downloaded pieces.
    fn count_downloaded(&self) -> (count: usize)
        ensures
            count == downloaded_count(self@.pieces),
    {
        let n: usize = self.pieces.len();
        let mut count: usize = 0;
        let mut i: usize = 0;
        while i < n
            invariant
                i <= n,
                n == self.pieces@.len(),
                count <= i,
                count == downloaded_count(self.pieces@.subrange(0, i as int)),
            decreases n - i,
        {
            proof {
                assert(self.pieces@.subrange(0, i + 1).drop_last() =~= self.pieces@.subrange(
                    0,
                    i as int,
                ));
            }
            if self.pieces[i].status == PieceStatus::Download {
                count += 1;
            }
            i += 1;
        }
        assert(self.pieces@.subrange(0, n as int) =~= self.pieces@);
        count
    }

    /// Records that piece `piece_idx` is complete. When this brings the number
    /// of downloaded pieces to the threshold while selection is still random,
    /// selection turns to rarest first.
    pub fn mark_piece_downloaded(&mut self, piece_idx: usize)
        requires
            old(self).wf(),
        ensures
            final(self).wf(),
            final(self)@ == old(self)@.mark_downloaded(piece_idx as int),
    {
        self.mark_piece(piece_idx, PieceStatus::Download, None);
        if self.pick_strategy == Strategy::RandomFirst && self.count_downloaded()
            == STRATEGY_SWITCH_THRESHOLD {
            self.pick_strategy = Strategy::RarestFirst;
        }
        proof {
            lemma_same_peers_keeps_counts(old(self)@, self@);
        }
    }

    /// Whether `peer` has a piece that we have not downloaded. An unknown peer
    /// is of no interest.
    pub fn check_interest(&self, peer: PeerAddr) -> (interested: bool)
        requires
            self.wf(),
        ensures
            interested == self@.interested(peer.key()),
    {
        let key: u64 = peer.key();
        match self.peer_bitifield.get(&key) {
            Some(bitfield) => {
                let n: usize = self.pieces.len();
                let mut i: usize = 0;
                while i < n
                    invariant
                        i <= n,
                        n == self.pieces@.len(),
                        bitfield.wf(),
                        key == peer.key(),
                        self@.peers.contains_key(key),
                        self@.peers[key] == bitfield@,
                        forall|j: int|
                            0 <= j < i ==> !((#[trigger] self@.pieces[j]).status
                                != PieceStatus::Download && self@.has(key, j)),
                    decreases n - i,
                {
                    if self.pieces[i].status != PieceStatus::Download && bitfield.has_piece(i) {
                        assert(self@.pieces[i as int].status != PieceStatus::Download && self@.has(
                            key,
                            i as int,
                        ));
                        return true;
                    }
                    i += 1;
                }
                false
            },
            None => false,
        }
    }

    /// Whether every piece is downloaded.
    pub fn all_pieces_downloaded(&self) -> (all: bool)
        ensures
            all == self@.all_downloaded(),
    {
        let n: usize = self.pieces.len();
        let mut i: usize = 0;
        while i < n
            invariant
                i <= n,
                n == self.pieces@.len(),
                forall|j: int|
                    0 <= j < i ==> (#[trigger] self@.pieces[j]).status == PieceStatus::Download,
            decreases n - i,
        {
            if self.pieces[i].status != PieceStatus::Download {
                return false;
            }
            i += 1;
        }
        true
    }

    /// The blocks that cover piece `piece_idx`, in order.
    pub fn get_blocks(&self, piece_idx: u32) -> (blocks: Vec<BlockInfo>)
        requires
            piece_idx < self@.pieces.len(),
        ensures
            blocks@ == block_list(piece_idx, self@.pieces[piece_idx as int].size),
    {
        split_piece(piece_idx, self.pieces[piece_idx as usize].size)
    }

    /// Hands piece `piece` to `peer` if it is a candidate for that peer: nobody
    /// was asked for it yet and the peer has it. The piece becomes `Requested`
    /// and its blocks are returned. Otherwise nothing changes and the answer is `None`.
    pub fn request_piece(&mut self, peer: &PeerAddr, piece: usize) -> (r: Option<Vec<BlockInfo>>)
        requires
            old(self).wf(),
        ensures
            final(self).wf(),
            old(self)@.is_candidate(peer.key(), piece as int) ==> {
                &&& r is Some
                &&& r->0@ == block_list(piece as u32, old(self)@.pieces[piece as int].size)
                &&& final(self)@ == old(self)@.assign(peer.key(), piece as int)
            },
            !old(self)@.is_candidate(peer.key(), piece as int) ==> r is None && final(self)@ == old(
                self,
            )@,
    {
        let key: u64 = peer.key();
        if piece >= self.pieces.len() || self.pieces[piece].status != PieceStatus::NotRequested {
            return None;
        }
        let offered: bool = match self.peer_bitifield.get(&key) {
            Some(bitfield) => bitfield.has_piece(piece),
            None => false,
        };
        if !offered {
            return None;
        }
        self.mark_piece(piece, PieceStatus::Requested, Some(key));
        Some(self.get_blocks(piece as u32))
    }

    /// The pieces that can be asked of the peer filed under `key`, in rising order.
    fn candidates(&self, key: u64) -> (list: Vec<usize>)
        requires
            self.wf(),
        ensures
            lists_candidates(self@, key, list@),
    {
        reveal(lists_candidates);
        let mut list: Vec<usize> = Vec::new();
        match self.peer_bitifield.get(&key) {
            Some(bitfield) => {
                let n: usize = self.pieces.len();
                let mut i: usize = 0;
                while i < n
                    invariant
                        i <= n,
                        n == self.pieces@.len(),
                        bitfield.wf(),
                        self@.peers.contains_key(key),
                        self@.peers[key] == bitfield@,
                        forall|t: int|
                            0 <= t < list@.len() ==> self@.is_candidate(
                                key,
                                #[trigger] list@[t] as int,
                            ) && list@[t] < i,
                        forall|j: usize|
                            j < i && #[trigger] self@.is_candidate(key, j as int)
                                ==> list@.contains(j),
                        forall|s: int, t: int| 0 <= s < t < list@.len() ==> list@[s] < list@[t],
                    decreases n - i,
                {
                    if self.pieces[i].status == PieceStatus::NotRequested && bitfield.has_piece(
                        i,
                    ) {
                        let ghost before = list@;
                        list.push(i);
                        proof {
                            assert(list@[before.len() as int] == i);
                            assert forall|j: usize|
                                j < i + 1 && #[trigger] self@.is_candidate(
                                    key,
                                    j as int,
                                ) implies list@.contains(j) by {
                                if j < i {
                                    assert(before.contains(j));
                                    let t = choose|t: int| 0 <= t < before.len() && before[t] == j;
                                    assert(list@[t] == j);
                                }
                            }
                        }
                    }
                    i += 1;
                }
            },
            None => {},
        }
        list
    }

    /// The first item of `list` whose piece the fewest peers have.
    fn rarest_of(&self, list: &Vec<usize>) -> (best: usize)
        requires
            list@.len() > 0,
            forall|t: int| 0 <= t < list@.len() ==> #[trigger] list@[t] < self@.pieces.len(),
        ensures
            list@.contains(best),
            forall|t: int|
                0 <= t < list@.len() ==> self@.pieces[best as int].availability
                    <= self@.pieces[#[trigger] list@[t] as int].availability,
            exists|s: int|
                0 <= s < list@.len() && list@[s] == best && forall|t: int|
                    0 <= t < s ==> self@.pieces[best as int].availability
                        < self@.pieces[#[trigger] list@[t] as int].availability,
    {
        let mut at: usize = 0;
        let mut t: usize = 1;
        while t < list.len()
            invariant
                0 <= at < t <= list@.len(),
                forall|u: int| 0 <= u < list@.len() ==> #[trigger] list@[u] < self@.pieces.len(),
                forall|u: int|
                    0 <= u < t ==> self@.pieces[list@[at as int] as int].availability
                        <= self@.pieces[#[trigger] list@[u] as int].availability,
                forall|u: int|
                    0 <= u < at ==> self@.pieces[list@[at as int] as int].availability
                        < self@.pieces[#[trigger] list@[u] as int].availability,
            decreases list@.len() - t,
        {
            if self.pieces[list[t]].availability < self.pieces[list[at]].availability {
                at = t;
            }
            t += 1;
        }
        list[at]
    }

    /// One item of the candidate list `list`, by the current strategy.
    fn choose_piece(&self, key: u64, list: &Vec<usize>) -> (choice: usize)
        requires
            self.wf(),
            list@.len() > 0,
            lists_candidates(self@, key, list@),
        ensures
            self@.is_candidate(key, choice as int),
            self@.strategy == Strategy::RarestFirst ==> self@.is_rarest(key, choice as int),
    {
        match self.pick_strategy {
            Strategy::RandomFirst => {
                let choice: usize = match choose_random(list) {
                    Some(c) => c,
                    None => list[0],
                };
                proof {
                    let t = choose|t: int| 0 <= t < list@.len() && list@[t] == choice;
                    lemma_listed_is_candidate(self@, key, list@, t);
                }
                choice
            },
            Strategy::RarestFirst => {
                proof {
                    assert forall|t: int| 0 <= t < list@.len() implies #[trigger] list@[t]
                        < self@.pieces.len() by {
                        lemma_listed_is_candidate(self@, key, list@, t);
                    }
                }
                let best: usize = self.rarest_of(list);
                proof {
                    let s = choose|s: int|
                        0 <= s < list@.len() && list@[s] == best && forall|t: int|
                            0 <= t < s ==> self@.pieces[best as int].availability
                                < self@.pieces[#[trigger] list@[t] as int].availability;
                    lemma_first_least(self@, key, list@, s);
                }
                best
            },
        }
    }

    /// Chooses a piece to ask of `peer` and hands it over.
    ///
    /// The candidates are the pieces that nobody was asked for and that the
    /// peer has. With none, the answer is `None` and nothing changes. Otherwise
    /// one candidate becomes `Requested` and its blocks are returned: under
    /// `RarestFirst` the candidate that the fewest peers have, the lowest index
    /// among equals; under `RandomFirst` any candidate, left to chance.
    pub fn pick_piece(&mut self, peer: &PeerAddr) -> (r: Option<Vec<BlockInfo>>)
        requires
            old(self).wf(),
        ensures
            final(self).wf(),
            match r {
                None => {
                    &&& final(self)@ == old(self)@
                    &&& forall|i: int| !old(self)@.is_candidate(peer.key(), i)
                },
                Some(blocks) => exists|k: int|
                    {
                        &&& #[trigger] old(self)@.is_candidate(peer.key(), k)
                        &&& old(self)@.strategy == Strategy::RarestFirst ==> old(self)@.is_rarest(
                            peer.key(),
                            k,
                        )
                        &&& final(self)@ == old(self)@.assign(peer.key(), k)
                        &&& blocks@ == block_list(k as u32, old(self)@.pieces[k].size)
                    },
            },
    {
        let key: u64 = peer.key();
        let list: Vec<usize> = self.candidates(key);
        if list.len() == 0 {
            proof {
                lemma_no_candidate(self@, key, list@);
            }
            return None;
        }
        let choice: usize = self.choose_piece(key, &list);
        let r = self.request_piece(peer, choice);
        assert(old(self)@.is_candidate(peer.key(), choice as int));
        r
    }

    /// Takes piece `piece` back after a failed download: a `Requested` piece
    /// becomes `NotRequested` again; any other piece stays as it is.
    pub fn release_piece(&mut self, piece: usize)
        requires
            old(self).wf(),
        ensures
            final(self).wf(),
            final(self)@ == old(self)@.release(piece as int),
    {
        if piece < self.pieces.len() && self.pieces[piece].status == PieceStatus::Requested {
            self.mark_piece(piece, PieceStatus::NotRequested, None);
        }
    }

    /// Asks for piece `piece` anew after it was downloaded and then lost: a
    /// piece that is `Download` becomes `NotRequested`; any other piece stays
    /// as it is. The strategy stays as it is, too.
    pub fn requeue_piece(&mut self, piece: usize)
        requires
            old(self).wf(),
        ensures
            final(self).wf(),
            final(self)@ == old(self)@.requeue(piece as int),
    {
        if piece < self.pieces.len() && self.pieces[piece].status == PieceStatus::Download {
            self.mark_piece(piece, PieceStatus::NotRequested, None);
        }
    }

    /// Takes back every piece that was handed to `peer` and is still
    /// `Requested`, and returns their indices in rising order.
    pub fn release_peer(&mut self, peer: &PeerAddr) -> (released: Vec<usize>)
        requires
            old(self).wf(),
        ensures
            final(self).wf(),
            final(self)@ == old(self)@.release_peer(peer.key()),
            forall|t: int|
                0 <= t < released@.len() ==> #[trigger] released@[t] < old(self)@.pieces.len()
                    && old(self)@.pieces[released@[t] as int].holder == Some(peer.key()),
            forall|i: int|
                0 <= i < old(self)@.pieces.len() && (#[trigger] old(self)@.pieces[i]).holder
                    == Some(peer.key()) ==> released@.contains(i as usize),
            forall|s: int, t: int| 0 <= s < t < released@.len() ==> released@[s] < released@[t],
    {
        let key: u64 = peer.key();
        let mut released: Vec<usize> = Vec::new();
        let n: usize = self.pieces.len();
        let mut i: usize = 0;
        while i < n
            invariant
                i <= n,
                n == self.pieces@.len(),
                n == old(self).pieces@.len(),
                old(self).wf(),
                self.peer_bitifield == old(self).peer_bitifield,
                self.total_pieces == old(self).total_pieces,
                self.pick_strategy == old(self).pick_strategy,
                forall|j: int|
                    0 <= j < i ==> #[trigger] self.pieces@[j] == old(self)@.release_peer(
                        key,
                    ).pieces[j],
                forall|j: int| i <= j < n ==> #[trigger] self.pieces@[j] == old(self).pieces@[j],
                forall|t: int|
                    0 <= t < released@.len() ==> #[trigger] released@[t] < i && old(
                        self,
                    )@.pieces[released@[t] as int].holder == Some(key),
                forall|j: int|
                    0 <= j < i && (#[trigger] old(self)@.pieces[j]).holder == Some(key)
                        ==> released@.contains(j as usize),
                forall|s: int, t: int|
                    0 <= s < t < released@.len() ==> released@[s] < released@[t],
            decreases n - i,
        {
            let p: PieceState = self.pieces[i];
            let held: bool = match p.holder {
                Some(h) => h == key,
                None => false,
            };
            if held {
                self.pieces.set(
                    i,
                    PieceState {
                        availability: p.availability,
                        status: PieceStatus::NotRequested,
                        size: p.size,
                        holder: None,
                    },
                );
                let ghost before = released@;
                released.push(i);
                proof {
                    assert(released@[before.len() as int] == i);
                    assert forall|j: int|
                        0 <= j < i + 1 && (#[trigger] old(self)@.pieces[j]).holder == Some(
                            key,
                        ) implies released@.contains(j as usize) by {
                        if j < i {
                            assert(before.contains(j as usize));
                            let t = choose|t: int| 0 <= t < before.len() && before[t] == j as usize;
                            assert(released@[t] == j as usize);
                        }
                    }
                }
            }
            i += 1;
        }
        proof {
            assert(self@.pieces =~= old(self)@.release_peer(key).pieces);
            assert(self@.peers =~= old(self)@.peers);
            lemma_same_peers_keeps_counts(old(self)@, self@);
        }
        released
    }
}

} // verus!
