//! Assembles the blocks that arrive for each piece until the piece is whole.

use crate::buffer::{
    buf_as_slice, buf_freeze, buf_seq, buf_write_at, buf_zeroed, bytes_as_slice, bytes_seq,
    overwritten,
};
use crate::metainfo::{piece_size, TorrentInfo};
use crate::piece_picker::Block;
use bytes::{Bytes, BytesMut};
use std::collections::HashMap;
use std::sync::Arc;
use vstd::prelude::*;

verus! {

broadcast use vstd::std_specs::hash::group_hash_axioms;

/// The buffer of one unfinished piece.
struct PieceMetadata {
    buffer: BytesMut,
    piece_length: usize,
    downloaded: usize,
}

/// One buffer for every piece that is not complete yet.
pub struct PieceCache {
    piece_map: HashMap<usize, PieceMetadata>,
}

/// An unfinished piece as a mathematical value: its bytes so far, as long as
/// the piece, and the number of bytes delivered for it.
pub struct PieceBuffer {
    pub data: Seq<u8>,
    pub downloaded: nat,
}

/// `n` zero bytes and nothing delivered.
pub open spec fn fresh_buffer(n: nat) -> PieceBuffer {
    PieceBuffer { data: Seq::new(n, |i: int| 0u8), downloaded: 0 }
}

/// The pieces in assembly, by index.
pub type CacheModel = Map<usize, PieceBuffer>;

/// Whether a block for piece `index`, `len` bytes from offset `begin`, is
/// taken into the cache: the piece is in assembly and the block lies within it.
pub open spec fn takes_block(m: CacheModel, index: usize, begin: int, len: int) -> bool {
    m.contains_key(index) && begin + len <= m[index].data.len()
}

/// Whether that block completes its piece: with it, as many bytes were
/// delivered as the piece is long.
pub open spec fn completes(m: CacheModel, index: usize, begin: int, len: int) -> bool {
    takes_block(m, index, begin, len) && m[index].downloaded + len >= m[index].data.len()
}

/// The cache after a block of `data` for piece `index` at offset `begin`.
/// A block that is not taken changes nothing. A block that completes its
/// piece removes the piece. Any other block is written into the piece's
/// buffer, later bytes over earlier ones, and counted.
pub open spec fn after_block(m: CacheModel, index: usize, begin: int, data: Seq<u8>) -> CacheModel {
    if !takes_block(m, index, begin, data.len() as int) {
        m
    } else if completes(m, index, begin, data.len() as int) {
        m.remove(index)
    } else {
        m.insert(
            index,
            PieceBuffer {
                data: overwritten(m[index].data, begin, data),
                downloaded: m[index].downloaded + data.len(),
            },
        )
    }
}

impl View for PieceMetadata {
    type V = PieceBuffer;

    closed spec fn view(&self) -> PieceBuffer {
        PieceBuffer { data: buf_seq(self.buffer), downloaded: self.downloaded as nat }
    }
}

impl PieceMetadata {
    spec fn wf(&self) -> bool {
        &&& buf_seq(self.buffer).len() == self.piece_length
        &&& self.downloaded < self.piece_length
    }
}

impl View for PieceCache {
    type V = CacheModel;

    closed spec fn view(&self) -> CacheModel {
        Map::new(|k: usize| self.piece_map@.contains_key(k), |k: usize| self.piece_map@[k]@)
    }
}

impl PieceCache {
    /// Every piece in assembly is incomplete.
    pub closed spec fn wf(&self) -> bool {
        forall|k: usize| #[trigger] self.piece_map@.contains_key(k) ==> self.piece_map@[k].wf()
    }

    /// What a well-formed cache guarantees of its model.
    pub proof fn lemma_wf(&self)
        requires
            self.wf(),
        ensures
            forall|k: usize| #[trigger]
                self@.contains_key(k) ==> self@[k].downloaded < self@[k].data.len(),
            self@.dom().finite(),
    {
        assert(self@.dom() =~= self.piece_map@.dom());
    }

    /// A cache with one zeroed buffer for every piece of `torrent`.
    pub fn from(torrent: Arc<TorrentInfo>) -> (cache: Self)
        requires
            torrent.wf(),
        ensures
            cache.wf(),
            forall|k: usize| #[trigger]
                cache@.contains_key(k) <==> k < torrent.info.pieces@.len(),
            forall|k: usize|
                k < torrent.info.pieces@.len() ==> #[trigger] cache@[k] == fresh_buffer(
                    piece_size(
                        torrent.info.length as int,
                        torrent.info.piece_length as int,
                        k as int,
                    ) as nat,
                ),
    {
        let mut piece_map: HashMap<usize, PieceMetadata> = HashMap::new();
        let total: usize = torrent.get_total_pieces();
        let mut i: usize = 0;
        while i < total
            invariant
                i <= total,
                torrent.wf(),
                total == torrent.info.pieces@.len(),
                forall|k: usize| #[trigger] piece_map@.contains_key(k) <==> k < i,
                forall|k: usize| k < i ==> (#[trigger] piece_map@[k]).wf(),
                forall|k: usize|
                    k < i ==> (#[trigger] piece_map@[k])@ == fresh_buffer(
                        piece_size(
                            torrent.info.length as int,
                            torrent.info.piece_length as int,
                            k as int,
                        ) as nat,
                    ),
            decreases total - i,
        {
            proof {
                crate::metainfo::lemma_piece_size(
                    torrent.info.length as int,
                    torrent.info.piece_length as int,
                    i as int,
                );
            }
            let piece_length: usize = torrent.get_piece_len(i) as usize;
            let buffer: BytesMut = buf_zeroed(piece_length);
            piece_map.insert(i, PieceMetadata { buffer, piece_length, downloaded: 0 });
            i += 1;
        }
        PieceCache { piece_map }
    }

    /// Takes a block into the cache.
    ///
    /// A block for a piece that is not in assembly (it is complete, or it
    /// never existed), or a block that reaches past the end of its piece, is
    /// dropped: the answer is `None` and nothing changes. Otherwise the block
    /// is written at its offset and its length is added to the piece's count
    /// of delivered bytes, whether or not the bytes were delivered before. Once
    /// that count reaches the piece's length, the piece leaves the cache, and
    /// its index and bytes are returned.
    pub fn insert_block(&mut self, block: Block) -> (r: Option<(usize, Bytes)>)
        requires
            old(self).wf(),
        ensures
            final(self).wf(),
            final(self)@ == after_block(
                old(self)@,
                block.index as usize,
                block.begin as int,
                bytes_seq(block.data),
            ),
            match r {
                Some(done) => {
                    &&& completes(
                        old(self)@,
                        block.index as usize,
                        block.begin as int,
                        bytes_seq(block.data).len() as int,
                    )
                    &&& done.0 == block.index
                    &&& bytes_seq(done.1) == overwritten(
                        old(self)@[block.index as usize].data,
                        block.begin as int,
                        bytes_seq(block.data),
                    )
                },
                None => !completes(
                    old(self)@,
                    block.index as usize,
                    block.begin as int,
                    bytes_seq(block.data).len() as int,
                ),
            },
    {
        let index: usize = block.index as usize;
        let offset: usize = block.begin as usize;
        let data = bytes_as_slice(&block.data);
        match self.piece_map.remove(&index) {
            None => {
                assert(self@ =~= old(self)@);
                None
            },
            Some(piece) => {
                let mut piece = piece;
                if offset > piece.piece_length || data.len() > piece.piece_length - offset {
                    self.piece_map.insert(index, piece);
                    assert(self@ =~= old(self)@);
                    return None;
                }
                buf_write_at(&mut piece.buffer, offset, offset + data.len(), data);
                if data.len() >= piece.piece_length - piece.downloaded {
                    let completed_piece: Bytes = buf_freeze(piece.buffer);
                    assert(self@ =~= old(self)@.remove(index));
                    Some((index, completed_piece))
                } else {
                    piece.downloaded = piece.downloaded + data.len();
                    self.piece_map.insert(index, piece);
                    assert(self@ =~= after_block(
                        old(self)@,
                        index,
                        block.begin as int,
                        bytes_seq(block.data),
                    ));
                    None
                }
            },
        }
    }

    /// Starts piece `index` afresh with a zeroed buffer of `piece_length`
    /// bytes, whether or not it was in assembly.
    pub fn reset_piece(&mut self, index: usize, piece_length: usize)
        requires
            old(self).wf(),
            0 < piece_length <= isize::MAX,
        ensures
            final(self).wf(),
            final(self)@ == old(self)@.insert(index, fresh_buffer(piece_length as nat)),
    {
        let buffer: BytesMut = buf_zeroed(piece_length);
        self.piece_map.insert(index, PieceMetadata { buffer, piece_length, downloaded: 0 });
        assert(self@ =~= old(self)@.insert(index, fresh_buffer(piece_length as nat)));
    }

    /// Number of pieces in assembly.
    pub fn len(&self) -> (n: usize)
        ensures
            n == self@.dom().len(),
    {
        assert(self@.dom() =~= self.piece_map@.dom());
        self.piece_map.len()
    }

    /// Whether piece `index` is in assembly.
    pub fn contains(&self, index: usize) -> (found: bool)
        ensures
            found == self@.contains_key(index),
    {
        self.piece_map.contains_key(&index)
    }

    /// Number of bytes delivered so far for piece `index`, if it is in assembly.
    pub fn downloaded(&self, index: usize) -> (r: Option<usize>)
        ensures
            match r {
                Some(n) => self@.contains_key(index) && n == self@[index].downloaded,
                None => !self@.contains_key(index),
            },
    {
        match self.piece_map.get(&index) {
            Some(piece) => Some(piece.downloaded),
            None => None,
        }
    }

    /// The bytes assembled so far for piece `index`, if it is in assembly.
    pub fn piece_bytes(&self, index: usize) -> (r: Option<Vec<u8>>)
        ensures
            match r {
                Some(bytes) => self@.contains_key(index) && bytes@ == self@[index].data,
                None => !self@.contains_key(index),
            },
    {
        match self.piece_map.get(&index) {
            Some(piece) => {
                let mut out: Vec<u8> = Vec::new();
                out.extend_from_slice(buf_as_slice(&piece.buffer));
                Some(out)
            },
            None => None,
        }
    }
}

} // verus!
