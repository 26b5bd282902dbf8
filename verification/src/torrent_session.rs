//! The supervisor of one torrent: it owns the picker, the assembler and the
//! local bitfield, and decides what follows from every event that the
//! tracker, the peer sessions and the assembler report.
//!
//! The supervisor decides; whoever runs it performs the actions it returns.

use crate::bitfield::{
    bits_of, bytes_for, clear_bit, no_bits, set_bit, spare_bits_clear, BitField,
};
use crate::buffer::{bytes_as_slice, bytes_seq, overwritten};
use crate::hash::{sha1_digest, sha1_of};
use crate::metainfo::{lemma_piece_size, piece_size, TorrentInfo};
use crate::piece_cache::{after_block, completes, fresh_buffer, CacheModel, PieceCache};
use crate::piece_picker::{
    Block, BlockInfo, PickerModel, PiecePicker, PieceState, PieceStatus, Strategy,
};
use crate::types::{same_hash, InfoHash, PeerAddr, PieceHash};
use bytes::Bytes;
use std::collections::HashSet;
use std::sync::Arc;
use vstd::prelude::*;

verus! {

broadcast use vstd::std_specs::hash::group_hash_axioms;

/// What the tracker, the peer sessions and the assembler report to the supervisor.
#[derive(Debug)]
pub enum TorrentMessage {
    /// The tracker named these peers.
    PeerList(Vec<PeerAddr>),
    /// A session with this peer has started.
    PeerConnected(PeerAddr),
    /// The session with this peer has ended.
    PeerDisconnected(PeerAddr),
    /// The peer announced its pieces; the session awaits our interest.
    PeerBitfield { peer_addr: PeerAddr, peer_bf: BitField },
    /// The peer announced one more piece; with `true`, the session awaits our interest.
    PeerHave(PeerAddr, u32, bool),
    /// The peer delivered a block.
    Piece(PeerAddr, Block),
    /// The session asks for a piece to download.
    GetTask(PeerAddr),
    /// The write of this piece failed.
    WriteFailed(usize),
}

/// What the supervisor asks of whoever runs it.
#[derive(Debug)]
pub enum TorrentAction {
    /// Start a session with this peer.
    Connect(PeerAddr),
    /// Answer the session of `peer`: whether we are interested.
    Interest { peer: PeerAddr, interested: bool },
    /// Answer the session of `peer`: the blocks to request, if any.
    Task { peer: PeerAddr, blocks: Option<Vec<BlockInfo>> },
    /// Write the validated piece `piece`, which is `data`, at `offset` of the
    /// torrent's file. A failure is to be reported with `WriteFailed`.
    WriteBlock { piece: usize, info_hash: InfoHash, offset: u64, data: Bytes },
}

/// A validated piece on its way to disk.
pub struct PieceWrite {
    pub piece: usize,
    pub offset: u64,
    pub data: Bytes,
}

/// The supervisor as a mathematical value.
pub struct TorrentModel {
    pub picker: PickerModel,
    pub cache: CacheModel,
    /// The local bitfield.
    pub have: Seq<bool>,
    /// The keys of the connected peers.
    pub connected: Set<u64>,
}

/// The addresses of `peers` to connect to: in order, those that are not
/// connected, as long as there is room.
pub open spec fn to_connect(peers: Seq<PeerAddr>, connected: Set<u64>, room: nat) -> Seq<PeerAddr>
    decreases peers.len(),
{
    if peers.len() == 0 || room == 0 {
        Seq::empty()
    } else if connected.contains(peers[0].key()) {
        to_connect(peers.drop_first(), connected, room)
    } else {
        seq![peers[0]] + to_connect(peers.drop_first(), connected, (room - 1) as nat)
    }
}

/// Size of piece `index` of `info`.
pub open spec fn size_of(info: TorrentInfo, index: int) -> nat {
    piece_size(info.info.length as int, info.info.piece_length as int, index) as nat
}

impl TorrentModel {
    /// The parts fit the torrent and each other: one state and one bit for
    /// every piece, each piece of the size the torrent gives it, a piece
    /// downloaded exactly when its bit is set, and a buffer of the piece's size
    /// for every piece in assembly.
    pub open spec fn fits(self, info: TorrentInfo) -> bool {
        &&& self.picker.pieces.len() == info.info.pieces@.len()
        &&& self.have.len() == info.info.pieces@.len()
        &&& forall|i: int|
            0 <= i < self.picker.pieces.len() ==> (#[trigger] self.picker.pieces[i]).size
                == size_of(info, i)
        &&& forall|i: int|
            0 <= i < self.picker.pieces.len() ==> ((#[trigger] self.picker.pieces[i]).status
                == PieceStatus::Download <==> self.have[i])
        &&& forall|k: usize| #[trigger]
            self.cache.contains_key(k) ==> k < info.info.pieces@.len() && self.cache[k].data.len()
                == size_of(info, k as int)
    }

    /// The model after peer `key` announced the pieces `bits`: the peer is
    /// registered with them, anew if it was registered before.
    pub open spec fn registered(self, key: u64, bits: Seq<bool>) -> TorrentModel {
        TorrentModel { picker: self.picker.register(key, bits), ..self }
    }

    /// The model after peer `key` left: its bitfield is forgotten, the pieces
    /// it was asked for are free again, and each of these starts afresh in the assembler.
    pub open spec fn disconnected(self, info: TorrentInfo, key: u64) -> TorrentModel {
        TorrentModel {
            picker: self.picker.unregister(key).release_peer(key),
            cache: Map::new(
                |k: usize|
                    self.cache.contains_key(k) || (k < self.picker.pieces.len()
                        && self.picker.pieces[k as int].holder == Some(key)),
                |k: usize|
                    if k < self.picker.pieces.len() && self.picker.pieces[k as int].holder == Some(
                        key,
                    ) {
                        fresh_buffer(size_of(info, k as int))
                    } else {
                        self.cache[k]
                    },
            ),
            have: self.have,
            connected: self.connected.remove(key),
        }
    }

    /// The model after a complete piece was judged: a valid piece is
    /// downloaded and its bit set; an invalid one is free to be asked for
    /// again and starts afresh in the assembler.
    pub open spec fn settled(self, info: TorrentInfo, piece: int, valid: bool) -> TorrentModel {
        if valid {
            TorrentModel {
                picker: self.picker.mark_downloaded(piece),
                have: set_bit(self.have, piece),
                ..self
            }
        } else {
            TorrentModel {
                picker: self.picker.release(piece),
                cache: self.cache.insert(piece as usize, fresh_buffer(size_of(info, piece))),
                ..self
            }
        }
    }

    /// The model after the write of piece `piece` failed: a piece that counted
    /// as downloaded is to be asked for again, its bit is cleared, and its
    /// assembly starts afresh. Of any other piece nothing changes.
    pub open spec fn write_failed(self, info: TorrentInfo, piece: int) -> TorrentModel {
        if 0 <= piece < self.have.len() && self.have[piece] {
            TorrentModel {
                picker: self.picker.requeue(piece),
                cache: self.cache.insert(piece as usize, fresh_buffer(size_of(info, piece))),
                have: clear_bit(self.have, piece),
                ..self
            }
        } else {
            self
        }
    }

    /// The bytes of the piece that a block completes.
    pub open spec fn completed(self, index: u32, begin: u32, data: Seq<u8>) -> Seq<u8> {
        overwritten(self.cache[index as usize].data, begin as int, data)
    }

    /// Whether the piece that a block completes has the hash the torrent expects.
    pub open spec fn valid_piece(
        self,
        info: TorrentInfo,
        index: u32,
        begin: u32,
        data: Seq<u8>,
    ) -> bool {
        sha1_of(self.completed(index, begin, data)) == info.info.pieces@[index as int].0@
    }

    /// The model after a block arrived.
    pub open spec fn after_piece(
        self,
        info: TorrentInfo,
        index: u32,
        begin: u32,
        data: Seq<u8>,
    ) -> TorrentModel {
        let taken = TorrentModel {
            cache: after_block(self.cache, index as usize, begin as int, data),
            ..self
        };
        if completes(self.cache, index as usize, begin as int, data.len() as int) {
            taken.settled(info, index as int, self.valid_piece(info, index, begin, data))
        } else {
            taken
        }
    }
}

/// Whether `piece_data` has the hash `expected`.
pub fn hash_matches(piece_data: &Bytes, expected: &PieceHash) -> (valid: bool)
    ensures
        valid == (sha1_of(bytes_seq(*piece_data)) == expected.0@),
{
    let computed: [u8; 20] = sha1_digest(bytes_as_slice(piece_data));
    same_hash(&computed, &expected.0)
}

/// Owner of everything that is known about one torrent's download.
pub struct Torrent {
    torrent: Arc<TorrentInfo>,
    piece_manager: PiecePicker,
    peer_list: HashSet<u64>,
    bitfield: BitField,
    piece_cache: PieceCache,
    max_peers: usize,
}

impl View for Torrent {
    type V = TorrentModel;

    closed spec fn view(&self) -> TorrentModel {
        TorrentModel {
            picker: self.piece_manager@,
            cache: self.piece_cache@,
            have: self.bitfield@,
            connected: self.peer_list@,
        }
    }
}

impl Torrent {
    /// The torrent that is downloaded.
    pub closed spec fn info(&self) -> TorrentInfo {
        *self.torrent
    }

    /// Most peers to be connected at a time.
    pub closed spec fn peer_limit(&self) -> nat {
        self.max_peers as nat
    }

    /// The parts are well-formed, and they fit the torrent and each other.
    pub closed spec fn wf(&self) -> bool {
        &&& self.torrent.wf()
        &&& self.piece_manager.wf()
        &&& self.piece_cache.wf()
        &&& self.bitfield.wf()
        &&& self@.fits(self.info())
    }

    /// What a well-formed supervisor guarantees of its model.
    pub proof fn lemma_wf(&self)
        requires
            self.wf(),
        ensures
            self.info().wf(),
            self@.fits(self.info()),
            self@.picker.counts_exact(),
            self@.picker.holders_match(),
            self.bitfield_wire().len() == bytes_for(self@.have.len()),
            bits_of(self.bitfield_wire(), self@.have.len()) == self@.have,
            spare_bits_clear(self.bitfield_wire(), self@.have.len()),
    {
        self.piece_manager.lemma_wf();
        self.bitfield.lemma_view();
    }

    /// A supervisor for `torrent`: nothing downloaded, nobody connected.
    pub fn new(torrent: Arc<TorrentInfo>, max_peers: usize) -> (session: Self)
        requires
            torrent.wf(),
        ensures
            session.wf(),
            session.info() == *torrent,
            session.peer_limit() == max_peers,
            session@.connected == Set::<u64>::empty(),
            session@.have == no_bits(torrent.info.pieces@.len()),
            session@.picker.peers == Map::<u64, Seq<bool>>::empty(),
            session@.picker.strategy == Strategy::RandomFirst,
            forall|i: int|
                0 <= i < torrent.info.pieces@.len() ==> #[trigger] session@.picker.pieces[i] == (
                PieceState {
                    availability: 0,
                    status: PieceStatus::NotRequested,
                    size: size_of(*torrent, i) as u32,
                    holder: None,
                }),
            forall|k: usize| #[trigger]
                session@.cache.contains_key(k) <==> k < torrent.info.pieces@.len(),
            forall|k: usize|
                k < torrent.info.pieces@.len() ==> #[trigger] session@.cache[k] == fresh_buffer(
                    size_of(*torrent, k as int),
                ),
    {
        let num_pieces: usize = torrent.get_total_pieces();
        let piece_manager = PiecePicker::from(torrent.clone());
        let piece_cache = PieceCache::from(torrent.clone());
        let session = Self {
            torrent,
            piece_manager,
            peer_list: HashSet::new(),
            bitfield: BitField::new(num_pieces),
            piece_cache,
            max_peers,
        };
        proof {
            assert forall|i: int| 0 <= i < session@.picker.pieces.len() implies (
            #[trigger] session@.picker.pieces[i]).size == size_of(session.info(), i) by {
                lemma_piece_size(
                    session.info().info.length as int,
                    session.info().info.piece_length as int,
                    i,
                );
            }
            assert forall|k: usize| #[trigger] session@.cache.contains_key(k) implies k
                < session.info().info.pieces@.len() && session@.cache[k].data.len() == size_of(
                session.info(),
                k as int,
            ) by {
                lemma_piece_size(
                    session.info().info.length as int,
                    session.info().info.piece_length as int,
                    k as int,
                );
            }
        }
        session
    }

    /// Whether every piece is downloaded.
    pub fn is_complete(&self) -> (done: bool)
        ensures
            done == self@.picker.all_downloaded(),
    {
        self.piece_manager.all_pieces_downloaded()
    }

    /// Whether piece `index` is downloaded: the local bitfield's bit.
    pub fn has_piece(&self, index: usize) -> (have: bool)
        requires
            self.wf(),
        ensures
            have == crate::bitfield::has_bit(self@.have, index as int),
    {
        self.bitfield.has_piece(index)
    }

    /// The local bitfield as it goes on the wire.
    pub fn bitfield_bytes(&self) -> (bytes: &[u8])
        ensures
            bytes@ == self.bitfield_wire(),
    {
        self.bitfield.get_inner()
    }

    /// The bytes of the local bitfield.
    pub closed spec fn bitfield_wire(&self) -> Seq<u8> {
        self.bitfield.wire()
    }

    /// The bitfield to open a session with: the local bitfield once a piece
    /// is downloaded, and none before.
    pub fn bitfield_to_send(&self) -> (bitfield: Option<BitField>)
        requires
            self.wf(),
        ensures
            match bitfield {
                Some(b) => b.wire() == self.bitfield_wire() && exists|i: int|
                    0 <= i < self@.have.len() && self@.have[i],
                None => forall|i: int| 0 <= i < self@.have.len() ==> !self@.have[i],
            },
    {
        if self.bitfield.is_empty() {
            None
        } else {
            Some(self.bitfield.duplicate())
        }
    }

    /// Number of registered peers known to have piece `index`, if there is
    /// such a piece.
    pub fn availability(&self, index: usize) -> (count: Option<usize>)
        ensures
            match count {
                Some(n) => index < self@.picker.pieces.len() && n
                    == self@.picker.pieces[index as int].availability,
                None => index >= self@.picker.pieces.len(),
            },
    {
        match self.piece_manager.piece(index) {
            Some(state) => Some(state.availability),
            None => None,
        }
    }

    /// Number of connected peers.
    pub fn connected_peers(&self) -> (n: usize)
        ensures
            n == self@.connected.len(),
    {
        self.peer_list.len()
    }

    /// The tracker named `peers`: which of them to connect to. These are,
    /// in order, the peers that are not connected, as many as the limit on
    /// connected peers leaves room for.
    pub fn on_peer_list(&self, peers: &Vec<PeerAddr>) -> (connect: Vec<PeerAddr>)
        ensures
            connect@ == to_connect(
                peers@,
                self@.connected,
                if self.peer_limit() > self@.connected.len() {
                    (self.peer_limit() - self@.connected.len()) as nat
                } else {
                    0
                },
            ),
    {
        let connected: usize = self.peer_list.len();
        let mut room: usize = if self.max_peers > connected {
            self.max_peers - connected
        } else {
            0
        };
        let ghost room0 = room as nat;
        let mut connect: Vec<PeerAddr> = Vec::new();
        let mut i: usize = 0;
        assert(peers@.skip(0) =~= peers@);
        while i < peers.len() && room > 0
            invariant
                i <= peers@.len(),
                to_connect(peers@, self@.connected, room0) == connect@ + to_connect(
                    peers@.skip(i as int),
                    self@.connected,
                    room as nat,
                ),
            decreases peers@.len() - i,
        {
            let peer: PeerAddr = peers[i];
            let ghost rest = peers@.skip(i as int);
            assert(rest[0] == peer);
            assert(rest.drop_first() =~= peers@.skip(i + 1));
            if !self.peer_list.contains(&peer.key()) {
                let ghost before = connect@;
                connect.push(peer);
                room -= 1;
                assert(connect@ + to_connect(peers@.skip(i + 1), self@.connected, room as nat)
                    =~= before + (seq![peer] + to_connect(
                    peers@.skip(i + 1),
                    self@.connected,
                    room as nat,
                )));
            }
            i += 1;
        }
        assert(to_connect(peers@.skip(i as int), self@.connected, room as nat) =~= Seq::<
            PeerAddr,
        >::empty());
        connect
    }

    /// A session with `addr` has started: the peer counts as connected.
    pub fn on_peer_connected(&mut self, addr: PeerAddr)
        requires
            old(self).wf(),
        ensures
            final(self).wf(),
            final(self).info() == old(self).info(),
            final(self).peer_limit() == old(self).peer_limit(),
            final(self)@ == (TorrentModel {
                connected: old(self)@.connected.insert(addr.key()),
                ..old(self)@
            }),
    {
        self.peer_list.insert(addr.key());
    }

    /// The session with `addr` has ended. The peer's pieces no longer count
    /// towards availability, the peer is no longer connected, and every piece
    /// that it was asked for and did not complete is free to be asked of
    /// another peer, its assembly starting afresh.
    pub fn on_peer_disconnected(&mut self, addr: PeerAddr)
        requires
            old(self).wf(),
        ensures
            final(self).wf(),
            final(self).info() == old(self).info(),
            final(self).peer_limit() == old(self).peer_limit(),
            final(self)@ == old(self)@.disconnected(old(self).info(), addr.key()),
    {
        let key: u64 = addr.key();
        proof {
            self.piece_manager.lemma_wf();
        }
        self.piece_manager.unregister_peer(&addr);
        self.peer_list.remove(&key);
        proof {
            assert forall|i: int| 0 <= i < old(self)@.picker.pieces.len() implies (
            #[trigger] self.piece_manager@.pieces[i]).holder == old(self)@.picker.pieces[i].holder by {}
        }
        let ghost mid = self.piece_manager@;
        let released: Vec<usize> = self.piece_manager.release_peer(&addr);
        let ghost want = old(self)@.disconnected(old(self).info(), key);
        proof {
            assert forall|i: int|
                0 <= i < old(self)@.picker.pieces.len() && (#[trigger] old(
                    self,
                )@.picker.pieces[i]).holder == Some(key) implies released@.contains(i as usize) by {
                assert(mid.pieces[i].holder == Some(key));
            }
        }
        let mut t: usize = 0;
        while t < released.len()
            invariant
                t <= released@.len(),
                self.torrent == old(self).torrent,
                self.torrent.wf(),
                self.max_peers == old(self).max_peers,
                self.bitfield == old(self).bitfield,
                self.bitfield.wf(),
                self.piece_manager.wf(),
                self.piece_cache.wf(),
                self.piece_manager@ == want.picker,
                self.peer_list@ == want.connected,
                want == old(self)@.disconnected(old(self).info(), key),
                old(self)@.fits(old(self).info()),
                old(self).info() == *self.torrent,
                forall|s: int|
                    0 <= s < released@.len() ==> #[trigger] released@[s] < old(
                        self,
                    )@.picker.pieces.len() && old(self)@.picker.pieces[released@[s] as int].holder
                        == Some(key),
                forall|i: int|
                    0 <= i < old(self)@.picker.pieces.len() && (#[trigger] old(
                        self,
                    )@.picker.pieces[i]).holder == Some(key) ==> released@.contains(i as usize),
                forall|a: int, b: int| 0 <= a < b < released@.len() ==> released@[a] < released@[b],
                forall|k: usize| #[trigger]
                    self.piece_cache@.contains_key(k) <==> old(self)@.cache.contains_key(k) || (
                    exists|s: int| 0 <= s < t && released@[s] == k),
                forall|k: usize| #[trigger]
                    self.piece_cache@.contains_key(k) ==> self.piece_cache@[k] == (if exists|s: int|
                        0 <= s < t && released@[s] == k {
                        fresh_buffer(size_of(old(self).info(), k as int))
                    } else {
                        old(self)@.cache[k]
                    }),
            decreases released@.len() - t,
        {
            let index: usize = released[t];
            proof {
                lemma_piece_size(
                    self.torrent.info.length as int,
                    self.torrent.info.piece_length as int,
                    index as int,
                );
            }
            let size: usize = self.torrent.get_piece_len(index) as usize;
            self.piece_cache.reset_piece(index, size);
            proof {
                assert forall|k: usize| #[trigger]
                    self.piece_cache@.contains_key(k) <==> old(self)@.cache.contains_key(k) || (
                    exists|s: int| 0 <= s < t + 1 && released@[s] == k) by {
                    if k == index {
                        assert(released@[t as int] == k);
                    }
                }
                assert forall|k: usize| #[trigger]
                    self.piece_cache@.contains_key(k) implies self.piece_cache@[k] == (
                if exists|s: int| 0 <= s < t + 1 && released@[s] == k {
                    fresh_buffer(size_of(old(self).info(), k as int))
                } else {
                    old(self)@.cache[k]
                }) by {
                    if k == index {
                        assert(released@[t as int] == k);
                    }
                }
            }
            t += 1;
        }
        proof {
            assert forall|k: usize|
                (exists|s: int| 0 <= s < released@.len() && released@[s] == k) <==> (k < old(
                    self,
                )@.picker.pieces.len() && old(self)@.picker.pieces[k as int].holder == Some(
                    key,
                )) by {
                if k < old(self)@.picker.pieces.len() && old(self)@.picker.pieces[k as int].holder
                    == Some(key) {
                    assert(released@.contains(k));
                }
            }
            assert(self@.cache =~= want.cache);
            self.piece_manager.lemma_wf();
            lemma_disconnected_fits(old(self)@, old(self).info(), key);
        }
    }

    /// The peer `peer_addr` announced its pieces: they are registered, and the
    /// answer says whether the peer has a piece that we lack.
    pub fn on_peer_bitfield(&mut self, peer_addr: PeerAddr, peer_bf: BitField) -> (interested: bool)
        requires
            old(self).wf(),
            peer_bf.wf(),
        ensures
            final(self).wf(),
            final(self).info() == old(self).info(),
            final(self).peer_limit() == old(self).peer_limit(),
            final(self)@ == old(self)@.registered(peer_addr.key(), peer_bf@),
            interested == final(self)@.picker.interested(peer_addr.key()),
    {
        self.piece_manager.register_peer(peer_addr, peer_bf);
        proof {
            lemma_same_status_fits(old(self)@, self@, self.info());
        }
        self.piece_manager.check_interest(peer_addr)
    }

    /// The peer `peer_addr` announced one more piece: it is noted, and the
    /// answer says whether the peer has a piece that we lack.
    pub fn on_peer_have(&mut self, peer_addr: PeerAddr, piece_idx: u32) -> (interested: bool)
        requires
            old(self).wf(),
        ensures
            final(self).wf(),
            final(self).info() == old(self).info(),
            final(self).peer_limit() == old(self).peer_limit(),
            final(self)@ == (TorrentModel {
                picker: old(self)@.picker.update(peer_addr.key(), piece_idx as int),
                ..old(self)@
            }),
            interested == final(self)@.picker.interested(peer_addr.key()),
    {
        self.piece_manager.update_peer(&peer_addr, piece_idx);
        proof {
            lemma_same_status_fits(old(self)@, self@, self.info());
        }
        self.piece_manager.check_interest(peer_addr)
    }

    /// The session of `peer_addr` asks for work: a piece that the peer has and
    /// that nobody was asked for is handed to it, chosen as the picker's
    /// strategy says, and its blocks are the answer. With no such piece the
    /// answer is `None` and nothing changes.
    pub fn on_get_task(&mut self, peer_addr: PeerAddr) -> (task: Option<Vec<BlockInfo>>)
        requires
            old(self).wf(),
        ensures
            final(self).wf(),
            final(self).info() == old(self).info(),
            final(self).peer_limit() == old(self).peer_limit(),
            match task {
                None => {
                    &&& final(self)@ == old(self)@
                    &&& forall|i: int| !old(self)@.picker.is_candidate(peer_addr.key(), i)
                },
                Some(blocks) => exists|k: int|
                    {
                        &&& #[trigger] old(self)@.picker.is_candidate(peer_addr.key(), k)
                        &&& old(self)@.picker.strategy == Strategy::RarestFirst ==> old(
                            self,
                        )@.picker.is_rarest(peer_addr.key(), k)
                        &&& final(self)@ == (TorrentModel {
                            picker: old(self)@.picker.assign(peer_addr.key(), k),
                            ..old(self)@
                        })
                        &&& blocks@ == crate::piece_picker::block_list(
                            k as u32,
                            old(self)@.picker.pieces[k].size,
                        )
                    },
            },
    {
        let task = self.piece_manager.pick_piece(&peer_addr);
        proof {
            if task is Some {
                let k = choose|k: int|
                    {
                        &&& #[trigger] old(self)@.picker.is_candidate(peer_addr.key(), k)
                        &&& old(self)@.picker.strategy == Strategy::RarestFirst ==> old(
                            self,
                        )@.picker.is_rarest(peer_addr.key(), k)
                        &&& self.piece_manager@ == old(self)@.picker.assign(peer_addr.key(), k)
                        &&& task->0@ == crate::piece_picker::block_list(
                            k as u32,
                            old(self)@.picker.pieces[k].size,
                        )
                    };
                assert(old(self)@.picker.is_candidate(peer_addr.key(), k));
                assert(self@ == (TorrentModel {
                    picker: old(self)@.picker.assign(peer_addr.key(), k),
                    ..old(self)@
                }));
                assert forall|i: int| 0 <= i < self@.picker.pieces.len() implies ((
                #[trigger] self@.picker.pieces[i]).status == PieceStatus::Download
                    <==> self@.have[i]) by {
                    assert(old(self)@.picker.pieces[i].status == PieceStatus::Download <==> old(
                        self,
                    )@.have[i]);
                }
                assert forall|i: int| 0 <= i < self@.picker.pieces.len() implies (
                #[trigger] self@.picker.pieces[i]).size == size_of(self.info(), i) by {
                    assert(old(self)@.picker.pieces[i].size == size_of(self.info(), i));
                }
            }
        }
        task
    }

    /// Whether `piece_data` has the hash that the torrent expects of piece `piece_idx`.
    pub fn piece_validation(&self, piece_idx: usize, piece_data: &Bytes) -> (valid: bool)
        requires
            self.wf(),
            piece_idx < self.info().info.pieces@.len(),
        ensures
            valid == (sha1_of(bytes_seq(*piece_data)) == self.info().info.pieces@[piece_idx as int].0@),
    {
        hash_matches(piece_data, &self.torrent.info.pieces[piece_idx])
    }

    /// The peer delivered `block`: it goes to the assembler. A piece that the
    /// block completes is returned in full, yet to be checked against its
    /// hash and settled; until then it neither counts as downloaded nor is
    /// free to be asked for again.
    pub fn on_block(&mut self, block: Block) -> (done: Option<(usize, Bytes)>)
        requires
            old(self).wf(),
        ensures
            final(self).wf(),
            final(self).info() == old(self).info(),
            final(self).peer_limit() == old(self).peer_limit(),
            final(self)@ == (TorrentModel {
                cache: after_block(
                    old(self)@.cache,
                    block.index as usize,
                    block.begin as int,
                    bytes_seq(block.data),
                ),
                ..old(self)@
            }),
            match done {
                Some(piece) => {
                    &&& completes(
                        old(self)@.cache,
                        block.index as usize,
                        block.begin as int,
                        bytes_seq(block.data).len() as int,
                    )
                    &&& piece.0 == block.index
                    &&& piece.0 < old(self).info().info.pieces@.len()
                    &&& bytes_seq(piece.1) == old(self)@.completed(
                        block.index,
                        block.begin,
                        bytes_seq(block.data),
                    )
                    &&& bytes_seq(piece.1).len() == size_of(old(self).info(), block.index as int)
                },
                None => !completes(
                    old(self)@.cache,
                    block.index as usize,
                    block.begin as int,
                    bytes_seq(block.data).len() as int,
                ),
            },
    {
        let done: Option<(usize, Bytes)> = self.piece_cache.insert_block(block);
        proof {
            assert forall|k: usize| #[trigger] self@.cache.contains_key(k) implies k
                < self.info().info.pieces@.len() && self@.cache[k].data.len() == size_of(
                self.info(),
                k as int,
            ) by {
                assert(old(self)@.cache.contains_key(k));
            }
            if done is Some {
                assert(old(self)@.cache.contains_key(block.index as usize));
            }
        }
        done
    }

    /// Settles a complete piece once its hash was checked.
    ///
    /// A valid piece is to be written at its place in the file, `piece_idx`
    /// times the piece length from the start; it counts as downloaded, and
    /// its bit in the local bitfield is set. An invalid piece is dropped: it
    /// is free to be asked for again, and its assembly starts afresh.
    pub fn try_write_piece(&mut self, piece_idx: usize, piece_data: Bytes, valid: bool) -> (write:
        Option<PieceWrite>)
        requires
            old(self).wf(),
            piece_idx < old(self).info().info.pieces@.len(),
        ensures
            final(self).wf(),
            final(self).info() == old(self).info(),
            final(self).peer_limit() == old(self).peer_limit(),
            final(self)@ == old(self)@.settled(old(self).info(), piece_idx as int, valid),
            match write {
                Some(w) => {
                    &&& valid
                    &&& w.piece == piece_idx
                    &&& w.offset == piece_idx * old(self).info().info.piece_length
                    &&& w.data == piece_data
                },
                None => !valid,
            },
    {
        proof {
            self.piece_manager.lemma_wf();
            lemma_settled_fits(self@, self.info(), piece_idx as int, valid);
        }
        if !valid {
            self.piece_manager.release_piece(piece_idx);
            proof {
                lemma_piece_size(
                    self.torrent.info.length as int,
                    self.torrent.info.piece_length as int,
                    piece_idx as int,
                );
            }
            let size: usize = self.torrent.get_piece_len(piece_idx) as usize;
            self.piece_cache.reset_piece(piece_idx, size);
            return None;
        }
        assert(piece_idx * self.torrent.info.piece_length <= 0xFFFF_FFFF * 0x7FFF_FFFF)
            by (nonlinear_arith)
            requires
                0 <= piece_idx <= 0xFFFF_FFFF,
                0 < self.torrent.info.piece_length <= 0x7FFF_FFFF,
        ;
        let offset: u64 = piece_idx as u64 * self.torrent.info.piece_length as u64;
        self.piece_manager.mark_piece_downloaded(piece_idx);
        self.bitfield.set_piece(piece_idx);
        Some(PieceWrite { piece: piece_idx, offset, data: piece_data })
    }

    /// The peer `peer_addr` delivered `block`.
    ///
    /// The block goes to the assembler. If it completes its piece, the piece
    /// is checked against the hash that the torrent expects and settled: a
    /// valid piece is returned for writing, in full and with its place in the
    /// file, and counts as downloaded; an invalid piece is dropped and free to
    /// be asked for again. What is to be written is as long as the piece and
    /// lies within the file.
    pub fn on_piece(&mut self, peer_addr: PeerAddr, block: Block) -> (write: Option<PieceWrite>)
        requires
            old(self).wf(),
        ensures
            final(self).wf(),
            final(self).info() == old(self).info(),
            final(self).peer_limit() == old(self).peer_limit(),
            final(self)@ == old(self)@.after_piece(
                old(self).info(),
                block.index,
                block.begin,
                bytes_seq(block.data),
            ),
            match write {
                Some(w) => {
                    &&& completes(
                        old(self)@.cache,
                        block.index as usize,
                        block.begin as int,
                        bytes_seq(block.data).len() as int,
                    )
                    &&& old(self)@.valid_piece(
                        old(self).info(),
                        block.index,
                        block.begin,
                        bytes_seq(block.data),
                    )
                    &&& w.piece == block.index
                    &&& w.offset == block.index * old(self).info().info.piece_length
                    &&& bytes_seq(w.data) == old(self)@.completed(
                        block.index,
                        block.begin,
                        bytes_seq(block.data),
                    )
                    &&& bytes_seq(w.data).len() == size_of(old(self).info(), block.index as int)
                    &&& w.offset + bytes_seq(w.data).len() <= old(self).info().info.length
                },
                None => !(completes(
                    old(self)@.cache,
                    block.index as usize,
                    block.begin as int,
                    bytes_seq(block.data).len() as int,
                ) && old(self)@.valid_piece(
                    old(self).info(),
                    block.index,
                    block.begin,
                    bytes_seq(block.data),
                )),
            },
    {
        match self.on_block(block) {
            None => None,
            Some(piece_completed) => {
                let piece_idx: usize = piece_completed.0;
                let piece_data: Bytes = piece_completed.1;
                proof {
                    lemma_piece_size(
                        self.torrent.info.length as int,
                        self.torrent.info.piece_length as int,
                        piece_idx as int,
                    );
                }
                let valid: bool = self.piece_validation(piece_idx, &piece_data);
                self.try_write_piece(piece_idx, piece_data, valid)
            },
        }
    }

    /// The write of piece `piece` failed: the piece no longer counts as
    /// downloaded, its bit in the local bitfield is cleared, it is free to be
    /// asked for again, and its assembly starts afresh. A piece that did not
    /// count as downloaded stays as it is.
    pub fn on_write_failed(&mut self, piece: usize)
        requires
            old(self).wf(),
        ensures
            final(self).wf(),
            final(self).info() == old(self).info(),
            final(self).peer_limit() == old(self).peer_limit(),
            final(self)@ == old(self)@.write_failed(old(self).info(), piece as int),
    {
        if self.bitfield.has_piece(piece) {
            proof {
                self.piece_manager.lemma_wf();
                lemma_write_failed_fits(self@, self.info(), piece as int);
                lemma_piece_size(
                    self.torrent.info.length as int,
                    self.torrent.info.piece_length as int,
                    piece as int,
                );
            }
            self.piece_manager.requeue_piece(piece);
            self.bitfield.clear_piece(piece);
            let size: usize = self.torrent.get_piece_len(piece) as usize;
            self.piece_cache.reset_piece(piece, size);
        }
    }

    /// Takes one event and says what is to be done about it.
    ///
    /// A list of peers yields the connections to start. A bitfield is
    /// answered with our interest; an announced piece is, if the session asked
    /// for it. A request for work is answered with the blocks of a piece, or
    /// with none. A delivered block yields a write when it completes a valid piece.
    pub fn handle(&mut self, msg: TorrentMessage) -> (actions: Vec<TorrentAction>)
        requires
            old(self).wf(),
            msg matches TorrentMessage::PeerBitfield { peer_bf, .. } ==> peer_bf.wf(),
        ensures
            final(self).wf(),
            final(self).info() == old(self).info(),
            final(self).peer_limit() == old(self).peer_limit(),
            match msg {
                TorrentMessage::PeerList(peers) => {
                    &&& final(self)@ == old(self)@
                    &&& actions@.len() == to_connect(
                        peers@,
                        old(self)@.connected,
                        old(self).room(),
                    ).len()
                    &&& forall|i: int|
                        0 <= i < actions@.len() ==> #[trigger] actions@[i] == TorrentAction::Connect(
                            to_connect(peers@, old(self)@.connected, old(self).room())[i],
                        )
                },
                TorrentMessage::PeerConnected(addr) => {
                    &&& actions@.len() == 0
                    &&& final(self)@ == (TorrentModel {
                        connected: old(self)@.connected.insert(addr.key()),
                        ..old(self)@
                    })
                },
                TorrentMessage::PeerDisconnected(addr) => {
                    &&& actions@.len() == 0
                    &&& final(self)@ == old(self)@.disconnected(old(self).info(), addr.key())
                },
                TorrentMessage::PeerBitfield { peer_addr, peer_bf } => {
                    &&& final(self)@ == old(self)@.registered(peer_addr.key(), peer_bf@)
                    &&& actions@.len() == 1
                    &&& actions@[0] == (TorrentAction::Interest {
                        peer: peer_addr,
                        interested: final(self)@.picker.interested(peer_addr.key()),
                    })
                },
                TorrentMessage::PeerHave(peer_addr, piece_idx, reply) => {
                    &&& final(self)@ == (TorrentModel {
                        picker: old(self)@.picker.update(peer_addr.key(), piece_idx as int),
                        ..old(self)@
                    })
                    &&& if reply {
                        &&& actions@.len() == 1
                        &&& actions@[0] == (TorrentAction::Interest {
                            peer: peer_addr,
                            interested: final(self)@.picker.interested(peer_addr.key()),
                        })
                    } else {
                        actions@.len() == 0
                    }
                },
                TorrentMessage::GetTask(peer_addr) => {
                    &&& actions@.len() == 1
                    &&& actions@[0] matches TorrentAction::Task { peer, blocks }
                    &&& peer == peer_addr
                    &&& match blocks {
                        None => {
                            &&& final(self)@ == old(self)@
                            &&& forall|i: int| !old(self)@.picker.is_candidate(peer_addr.key(), i)
                        },
                        Some(list) => exists|k: int|
                            {
                                &&& #[trigger] old(self)@.picker.is_candidate(peer_addr.key(), k)
                                &&& old(self)@.picker.strategy == Strategy::RarestFirst ==> old(
                                    self,
                                )@.picker.is_rarest(peer_addr.key(), k)
                                &&& final(self)@ == (TorrentModel {
                                    picker: old(self)@.picker.assign(peer_addr.key(), k),
                                    ..old(self)@
                                })
                                &&& list@ == crate::piece_picker::block_list(
                                    k as u32,
                                    old(self)@.picker.pieces[k].size,
                                )
                            },
                    }
                },
                TorrentMessage::Piece(peer_addr, block) => {
                    &&& final(self)@ == old(self)@.after_piece(
                        old(self).info(),
                        block.index,
                        block.begin,
                        bytes_seq(block.data),
                    )
                    &&& if completes(
                        old(self)@.cache,
                        block.index as usize,
                        block.begin as int,
                        bytes_seq(block.data).len() as int,
                    ) && old(self)@.valid_piece(
                        old(self).info(),
                        block.index,
                        block.begin,
                        bytes_seq(block.data),
                    ) {
                        &&& actions@.len() == 1
                        &&& actions@[0] matches TorrentAction::WriteBlock {
                            piece,
                            info_hash,
                            offset,
                            data,
                        }
                        &&& piece == block.index
                        &&& info_hash == old(self).info().info_hash
                        &&& offset == block.index * old(self).info().info.piece_length
                        &&& bytes_seq(data) == old(self)@.completed(
                            block.index,
                            block.begin,
                            bytes_seq(block.data),
                        )
                        &&& bytes_seq(data).len() == size_of(old(self).info(), block.index as int)
                        &&& offset + bytes_seq(data).len() <= old(self).info().info.length
                    } else {
                        actions@.len() == 0
                    }
                },
                TorrentMessage::WriteFailed(piece) => {
                    &&& actions@.len() == 0
                    &&& final(self)@ == old(self)@.write_failed(old(self).info(), piece as int)
                },
            },
    {
        let mut actions: Vec<TorrentAction> = Vec::new();
        match msg {
            TorrentMessage::PeerList(peers) => {
                let connect: Vec<PeerAddr> = self.on_peer_list(&peers);
                let mut i: usize = 0;
                while i < connect.len()
                    invariant
                        i <= connect@.len(),
                        actions@.len() == i,
                        forall|j: int|
                            0 <= j < i ==> #[trigger] actions@[j] == TorrentAction::Connect(
                                connect@[j],
                            ),
                    decreases connect@.len() - i,
                {
                    actions.push(TorrentAction::Connect(connect[i]));
                    i += 1;
                }
            },
            TorrentMessage::PeerConnected(addr) => {
                self.on_peer_connected(addr);
            },
            TorrentMessage::PeerDisconnected(addr) => {
                self.on_peer_disconnected(addr);
            },
            TorrentMessage::PeerBitfield { peer_addr, peer_bf } => {
                let interested: bool = self.on_peer_bitfield(peer_addr, peer_bf);
                actions.push(TorrentAction::Interest { peer: peer_addr, interested });
            },
            TorrentMessage::PeerHave(peer_addr, piece_idx, reply) => {
                let interested: bool = self.on_peer_have(peer_addr, piece_idx);
                if reply {
                    actions.push(TorrentAction::Interest { peer: peer_addr, interested });
                }
            },
            TorrentMessage::GetTask(peer_addr) => {
                let blocks = self.on_get_task(peer_addr);
                actions.push(TorrentAction::Task { peer: peer_addr, blocks });
            },
            TorrentMessage::Piece(peer_addr, block) => {
                match self.on_piece(peer_addr, block) {
                    Some(w) => {
                        actions.push(
                            TorrentAction::WriteBlock {
                                piece: w.piece,
                                info_hash: self.torrent.info_hash,
                                offset: w.offset,
                                data: w.data,
                            },
                        );
                    },
                    None => {},
                }
            },
            TorrentMessage::WriteFailed(piece) => {
                self.on_write_failed(piece);
            },
        }
        actions
    }

    /// How many more peers may be connected.
    pub open spec fn room(&self) -> nat {
        if self.peer_limit() > self@.connected.len() {
            (self.peer_limit() - self@.connected.len()) as nat
        } else {
            0
        }
    }
}

/// A block sets a bit of the local bitfield only by completing a valid
/// piece: after a block arrived, a piece's bit is set if and only if it was
/// set before or this block completed that very piece with the expected hash.
pub proof fn lemma_bit_follows_valid_piece(
    m: TorrentModel,
    info: TorrentInfo,
    index: u32,
    begin: u32,
    data: Seq<u8>,
    i: int,
)
    requires
        m.fits(info),
        0 <= i < m.have.len(),
    ensures
        m.after_piece(info, index, begin, data).have.len() == m.have.len(),
        m.after_piece(info, index, begin, data).have[i] <==> m.have[i] || (i == index
            && completes(m.cache, index as usize, begin as int, data.len() as int)
            && m.valid_piece(info, index, begin, data)),
{
}

/// A model still fits when only peers and availability changed.
proof fn lemma_same_status_fits(before: TorrentModel, after: TorrentModel, info: TorrentInfo)
    requires
        before.fits(info),
        after.cache == before.cache,
        after.have == before.have,
        after.picker.pieces.len() == before.picker.pieces.len(),
        forall|i: int|
            0 <= i < before.picker.pieces.len() ==> (#[trigger] after.picker.pieces[i]).status
                == before.picker.pieces[i].status && after.picker.pieces[i].size
                == before.picker.pieces[i].size,
    ensures
        after.fits(info),
{
    assert forall|i: int| 0 <= i < after.picker.pieces.len() implies ((
    #[trigger] after.picker.pieces[i]).status == PieceStatus::Download <==> after.have[i]) by {
        assert(before.picker.pieces[i].status == PieceStatus::Download <==> before.have[i]);
    }
    assert forall|i: int| 0 <= i < after.picker.pieces.len() implies (
    #[trigger] after.picker.pieces[i]).size == size_of(info, i) by {
        assert(before.picker.pieces[i].size == size_of(info, i));
    }
}

/// A well-fitting model fits as well after a write failed.
pub proof fn lemma_write_failed_fits(m: TorrentModel, info: TorrentInfo, piece: int)
    requires
        m.fits(info),
        info.wf(),
    ensures
        m.write_failed(info, piece).fits(info),
{
    let after = m.write_failed(info, piece);
    if 0 <= piece < m.have.len() && m.have[piece] {
        lemma_piece_size(info.info.length as int, info.info.piece_length as int, piece);
        assert(m.picker.pieces[piece].status == PieceStatus::Download);
        assert forall|i: int| 0 <= i < after.picker.pieces.len() implies ((
        #[trigger] after.picker.pieces[i]).status == PieceStatus::Download <==> after.have[i]) by {
            assert(m.picker.pieces[i].status == PieceStatus::Download <==> m.have[i]);
        }
        assert forall|i: int| 0 <= i < after.picker.pieces.len() implies (
        #[trigger] after.picker.pieces[i]).size == size_of(info, i) by {
            assert(m.picker.pieces[i].size == size_of(info, i));
        }
    }
}

/// A well-fitting model fits as well after a piece was settled.
pub proof fn lemma_settled_fits(m: TorrentModel, info: TorrentInfo, piece: int, valid: bool)
    requires
        m.fits(info),
        info.wf(),
        0 <= piece < info.info.pieces@.len(),
    ensures
        m.settled(info, piece, valid).fits(info),
{
    let after = m.settled(info, piece, valid);
    lemma_piece_size(info.info.length as int, info.info.piece_length as int, piece);
    assert forall|i: int| 0 <= i < after.picker.pieces.len() implies ((
    #[trigger] after.picker.pieces[i]).status == PieceStatus::Download <==> after.have[i]) by {
        assert(m.picker.pieces[i].status == PieceStatus::Download <==> m.have[i]);
    }
    assert forall|i: int| 0 <= i < after.picker.pieces.len() implies (
    #[trigger] after.picker.pieces[i]).size == size_of(info, i) by {
        assert(m.picker.pieces[i].size == size_of(info, i));
    }
}

/// A well-fitting model fits as well after a peer left.
pub proof fn lemma_disconnected_fits(m: TorrentModel, info: TorrentInfo, key: u64)
    requires
        m.fits(info),
        m.picker.holders_match(),
        info.wf(),
    ensures
        m.disconnected(info, key).fits(info),
{
    let after = m.disconnected(info, key);
    assert forall|k: usize| #[trigger] after.cache.contains_key(k) implies k
        < info.info.pieces@.len() && after.cache[k].data.len() == size_of(info, k as int) by {
        if k < m.picker.pieces.len() && m.picker.pieces[k as int].holder == Some(key) {
            lemma_piece_size(info.info.length as int, info.info.piece_length as int, k as int);
        }
    }
    assert forall|i: int| 0 <= i < after.picker.pieces.len() implies ((
    #[trigger] after.picker.pieces[i]).status == PieceStatus::Download <==> after.have[i]) by {
        assert(m.picker.pieces[i].status == PieceStatus::Download <==> m.have[i]);
    }
    assert forall|i: int| 0 <= i < after.picker.pieces.len() implies (
    #[trigger] after.picker.pieces[i]).size == size_of(info, i) by {
        assert(m.picker.pieces[i].size == size_of(info, i));
    }
}

} // verus!
