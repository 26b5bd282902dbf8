//! Bit-packed set of piece indices, most significant bit first within each byte.

use crate::buffer::{bytes_as_slice, bytes_seq};
use bytes::Bytes;
use vstd::prelude::*;
use vstd::slice::slice_subrange;

verus! {

/// Number of bytes that hold `n` bits.
pub open spec fn bytes_for(n: nat) -> nat {
    if n % 8 == 0 {
        n / 8
    } else {
        n / 8 + 1
    }
}

/// Mask that selects position `k` of a byte, counted from the most significant bit.
pub open spec fn bit_mask(k: u8) -> u8 {
    0x80u8 >> k
}

/// Whether bit `i` is set in `bytes`, bit `i` living in byte `i / 8` at position `7 - i % 8`.
pub open spec fn bit_at(bytes: Seq<u8>, i: int) -> bool {
    bytes[i / 8] & bit_mask((i % 8) as u8) != 0
}

/// The first `n` bits of `bytes`.
pub open spec fn bits_of(bytes: Seq<u8>, n: nat) -> Seq<bool> {
    Seq::new(n, |i: int| bit_at(bytes, i))
}

/// No bit at position `n` or beyond is set in `bytes`.
pub open spec fn spare_bits_clear(bytes: Seq<u8>, n: nat) -> bool {
    forall|i: int| n <= i < 8 * bytes.len() ==> !#[trigger] bit_at(bytes, i)
}

/// `n` bits, none of them set.
pub open spec fn no_bits(n: nat) -> Seq<bool> {
    Seq::new(n, |i: int| false)
}

/// Whether `bits` has position `index`, and has it set.
pub open spec fn has_bit(bits: Seq<bool>, index: int) -> bool {
    0 <= index < bits.len() && bits[index]
}

/// `bits` with position `index` set; an index past the end changes nothing.
pub open spec fn set_bit(bits: Seq<bool>, index: int) -> Seq<bool> {
    if 0 <= index < bits.len() {
        bits.update(index, true)
    } else {
        bits
    }
}

/// `bits` with position `index` cleared; an index past the end changes nothing.
pub open spec fn clear_bit(bits: Seq<bool>, index: int) -> Seq<bool> {
    if 0 <= index < bits.len() {
        bits.update(index, false)
    } else {
        bits
    }
}

/// `bits` after setting every index of `indices`, in order.
pub open spec fn set_bits(bits: Seq<bool>, indices: Seq<usize>) -> Seq<bool>
    decreases indices.len(),
{
    if indices.len() == 0 {
        bits
    } else {
        set_bit(set_bits(bits, indices.drop_last()), indices.last() as int)
    }
}

/// Why `bytes` cannot be the bitfield of a torrent of `n` pieces, if it cannot.
pub open spec fn wire_fault(bytes: Seq<u8>, n: nat) -> Option<BitfieldError> {
    if bytes.len() < bytes_for(n) {
        Some(
            BitfieldError::InvalidLength {
                expected_len: bytes_for(n) as usize,
                actual_len: bytes.len() as usize,
            },
        )
    } else if !spare_bits_clear(bytes, n) {
        Some(BitfieldError::NonZeroSpareBits)
    } else {
        None
    }
}

/// The pieces that one party has: one bit for each piece of a torrent.
#[derive(Debug, Clone, PartialEq, Eq)]
pub struct BitField {
    total_pieces: usize,
    inner: Vec<u8>,
}

/// Why bytes from the wire are no bitfield.
#[derive(Debug, PartialEq, Eq)]
pub enum BitfieldError {
    /// Fewer bytes than the pieces need.
    InvalidLength { expected_len: usize, actual_len: usize },
    /// A bit past the last piece is set.
    NonZeroSpareBits,
}

impl View for BitField {
    type V = Seq<bool>;

    /// One flag per piece.
    closed spec fn view(&self) -> Seq<bool> {
        bits_of(self.inner@, self.total_pieces as nat)
    }
}

/// The bits of one byte from position `r` on are all zero exactly when the byte
/// shares no bit with `0xFF >> r`.
proof fn lemma_low_bits(b: u8, r: u8)
    requires
        r < 8,
    ensures
        (b & (0xFFu8 >> r)) == 0 <==> (forall|k: u8| r <= k < 8 ==> b & #[trigger] bit_mask(k) == 0),
{
    assert(bit_mask(0) == 0x80 && bit_mask(1) == 0x40 && bit_mask(2) == 0x20 && bit_mask(3) == 0x10
        && bit_mask(4) == 0x08 && bit_mask(5) == 0x04 && bit_mask(6) == 0x02 && bit_mask(7)
        == 0x01) by (bit_vector);
    assert(r < 8 ==> ((b & (0xFFu8 >> r)) == 0 <==> ((r > 0 || b & 0x80 == 0) && (r > 1 || b & 0x40
        == 0) && (r > 2 || b & 0x20 == 0) && (r > 3 || b & 0x10 == 0) && (r > 4 || b & 0x08 == 0)
        && (r > 5 || b & 0x04 == 0) && (r > 6 || b & 0x02 == 0) && (r > 7 || b & 0x01 == 0))))
        by (bit_vector);
    if (b & (0xFFu8 >> r)) == 0 {
        assert forall|k: u8| r <= k < 8 implies b & #[trigger] bit_mask(k) == 0 by {
            assert(k == 0 || k == 1 || k == 2 || k == 3 || k == 4 || k == 5 || k == 6 || k == 7);
        }
    }
}

fn mask_of(k: usize) -> (m: u8)
    requires
        k < 8,
    ensures
        m == bit_mask(k as u8),
{
    0x80u8 >> (k as u8)
}

impl BitField {
    /// The bytes are exactly as many as the pieces need, and the bits past the last piece are zero.
    pub closed spec fn wf(&self) -> bool {
        &&& self.inner@.len() == bytes_for(self.total_pieces as nat)
        &&& spare_bits_clear(self.inner@, self.total_pieces as nat)
    }

    /// The bytes as they go on the wire.
    pub closed spec fn wire(&self) -> Seq<u8> {
        self.inner@
    }

    /// Number of pieces the field speaks of.
    pub open spec fn piece_count(&self) -> nat {
        self@.len()
    }

    /// The bits are those of the wire bytes; a well-formed field has exactly
    /// the bytes that its pieces need, with no bit set past the last piece.
    pub proof fn lemma_view(&self)
        ensures
            self@ == bits_of(self.wire(), self.piece_count()),
            self.wf() ==> self.wire().len() == bytes_for(self.piece_count()),
            self.wf() ==> spare_bits_clear(self.wire(), self.piece_count()),
    {
    }

    /// The bitfield of a torrent without pieces has no bytes and no pieces:
    /// no bytes are its wire form, and whatever index is asked for is absent.
    pub proof fn lemma_no_pieces(index: int)
        ensures
            bytes_for(0) == 0,
            no_bits(0).len() == 0,
            !has_bit(no_bits(0), index),
            wire_fault(Seq::<u8>::empty(), 0) is None,
            bits_of(Seq::<u8>::empty(), 0) == no_bits(0),
    {
        assert(bits_of(Seq::<u8>::empty(), 0) =~= no_bits(0));
    }

    /// A well-formed bitfield survives the wire: its own bytes are accepted for
    /// its own piece count, and they read back as the same bits and the same bytes.
    pub proof fn lemma_wire_round_trip(&self)
        requires
            self.wf(),
        ensures
            wire_fault(self.wire(), self.piece_count()) is None,
            bits_of(self.wire(), self.piece_count()) == self@,
            self.wire().subrange(0, bytes_for(self.piece_count()) as int) == self.wire(),
    {
        assert(self.wire().subrange(0, bytes_for(self.piece_count()) as int) =~= self.wire());
    }

    /// The pieces fix the bytes: two byte strings of the length that `n`
    /// pieces need, with no bit set past the last piece and with the same
    /// `n` bits, are the same.
    pub proof fn lemma_bits_fix_bytes(a: Seq<u8>, b: Seq<u8>, n: nat)
        requires
            a.len() == bytes_for(n),
            b.len() == bytes_for(n),
            spare_bits_clear(a, n),
            spare_bits_clear(b, n),
            bits_of(a, n) == bits_of(b, n),
        ensures
            a == b,
    {
        assert forall|j: int| 0 <= j < a.len() implies a[j] == b[j] by {
            let x = a[j];
            let y = b[j];
            assert forall|k: u8| k < 8 implies (x & bit_mask(k) != 0) == (y & bit_mask(k) != 0) by {
                let i = 8 * j + k;
                assert(i / 8 == j && i % 8 == k);
                if i < n {
                    assert(bits_of(a, n)[i] == bit_at(a, i));
                    assert(bits_of(b, n)[i] == bit_at(b, i));
                } else {
                    assert(!bit_at(a, i));
                    assert(!bit_at(b, i));
                }
            }
            assert((x & bit_mask(0) != 0) == (y & bit_mask(0) != 0));
            assert((x & bit_mask(1) != 0) == (y & bit_mask(1) != 0));
            assert((x & bit_mask(2) != 0) == (y & bit_mask(2) != 0));
            assert((x & bit_mask(3) != 0) == (y & bit_mask(3) != 0));
            assert((x & bit_mask(4) != 0) == (y & bit_mask(4) != 0));
            assert((x & bit_mask(5) != 0) == (y & bit_mask(5) != 0));
            assert((x & bit_mask(6) != 0) == (y & bit_mask(6) != 0));
            assert((x & bit_mask(7) != 0) == (y & bit_mask(7) != 0));
            assert(bit_mask(0) == 0x80 && bit_mask(1) == 0x40 && bit_mask(2) == 0x20 && bit_mask(3)
                == 0x10 && bit_mask(4) == 0x08 && bit_mask(5) == 0x04 && bit_mask(6) == 0x02
                && bit_mask(7) == 0x01) by (bit_vector);
            assert(((x & 0x80 != 0) == (y & 0x80 != 0) && (x & 0x40 != 0) == (y & 0x40 != 0) && (x
                & 0x20 != 0) == (y & 0x20 != 0) && (x & 0x10 != 0) == (y & 0x10 != 0) && (x & 0x08
                != 0) == (y & 0x08 != 0) && (x & 0x04 != 0) == (y & 0x04 != 0) && (x & 0x02 != 0)
                == (y & 0x02 != 0) && (x & 0x01 != 0) == (y & 0x01 != 0)) ==> x == y)
                by (bit_vector);
        }
        assert(a =~= b);
    }

    /// Setting exactly the indices of `indices` in an empty field of `n` pieces
    /// gives a field in which a piece is present if and only if it was set.
    pub proof fn lemma_set_exactly(n: nat, indices: Seq<usize>)
        ensures
            set_bits(no_bits(n), indices).len() == n,
            forall|i: int|
                0 <= i < n ==> (#[trigger] set_bits(no_bits(n), indices)[i] <==> exists|j: int|
                    0 <= j < indices.len() && indices[j] == i),
        decreases indices.len(),
    {
        let empty = no_bits(n);
        if indices.len() > 0 {
            let front = indices.drop_last();
            Self::lemma_set_exactly(n, front);
            assert forall|i: int| 0 <= i < n implies (#[trigger] set_bits(empty, indices)[i]
                <==> exists|j: int| 0 <= j < indices.len() && indices[j] == i) by {
                if set_bits(empty, indices)[i] {
                    if indices.last() == i {
                        assert(indices[indices.len() - 1] == i);
                    } else {
                        assert(set_bits(empty, front)[i]);
                        let j = choose|j: int| 0 <= j < front.len() && front[j] == i;
                        assert(indices[j] == i);
                    }
                }
                if exists|j: int| 0 <= j < indices.len() && indices[j] == i {
                    let j = choose|j: int| 0 <= j < indices.len() && indices[j] == i;
                    if j < front.len() {
                        assert(front[j] == i);
                    }
                }
            }
        }
    }

    /// A bitfield for `total_pieces` pieces, none of them present.
    pub fn new(total_pieces: usize) -> (bf: Self)
        ensures
            bf.wf(),
            bf.piece_count() == total_pieces,
            bf@ == no_bits(total_pieces as nat),
            bf.wire() == Seq::new(bytes_for(total_pieces as nat), |i: int| 0u8),
    {
        let num_bytes: usize = if total_pieces % 8 == 0 {
            total_pieces / 8
        } else {
            total_pieces / 8 + 1
        };
        let inner: Vec<u8> = vec![0u8; num_bytes];
        let bf = Self { total_pieces, inner };
        proof {
            assert forall|i: int| 0 <= i < 8 * bf.inner@.len() implies !#[trigger] bit_at(
                bf.inner@,
                i,
            ) by {
                let k: u8 = (i % 8) as u8;
                assert(0u8 & (0x80u8 >> k) == 0) by (bit_vector);
            }
            assert(bf@ =~= no_bits(total_pieces as nat));
            assert(bf.wire() =~= Seq::new(bytes_for(total_pieces as nat), |i: int| 0u8));
        }
        bf
    }

    /// Reads a bitfield that a peer sent for a torrent of `num_pieces` pieces.
    ///
    /// Fewer bytes than the pieces need are an `InvalidLength`. More bytes are
    /// accepted as long as every bit past the last piece is zero, in the last
    /// meaningful byte and in the bytes after it; otherwise the answer is
    /// `NonZeroSpareBits`.
    pub fn try_from(bytes: Bytes, num_pieces: usize) -> (r: Result<Self, BitfieldError>)
        ensures
            match wire_fault(bytes_seq(bytes), num_pieces as nat) {
                Some(e) => r == Err::<Self, BitfieldError>(e),
                None => {
                    &&& r is Ok
                    &&& r->Ok_0.wf()
                    &&& r->Ok_0.piece_count() == num_pieces
                    &&& r->Ok_0.wire() == bytes_seq(bytes).subrange(
                        0,
                        bytes_for(num_pieces as nat) as int,
                    )
                    &&& r->Ok_0@ == bits_of(bytes_seq(bytes), num_pieces as nat)
                },
            },
    {
        let s = bytes_as_slice(&bytes);
        let rest: usize = num_pieces % 8;
        let expected_bytes: usize = if rest == 0 {
            num_pieces / 8
        } else {
            num_pieces / 8 + 1
        };
        if s.len() < expected_bytes {
            return Err(
                BitfieldError::InvalidLength { expected_len: expected_bytes, actual_len: s.len() },
            );
        }
        if rest != 0 {
            let last_byte: u8 = s[expected_bytes - 1];
            let mask: u8 = 0xFFu8 >> (rest as u8);
            proof {
                lemma_low_bits(last_byte, rest as u8);
            }
            if last_byte & mask != 0 {
                proof {
                    let k: u8 = choose|k: u8| rest <= k < 8 && last_byte & bit_mask(k) != 0;
                    let i: int = 8 * (expected_bytes - 1) + k;
                    assert(i / 8 == expected_bytes - 1 && i % 8 == k as int);
                    assert(bit_at(s@, i));
                }
                return Err(BitfieldError::NonZeroSpareBits);
            }
        }
        let mut j: usize = expected_bytes;
        while j < s.len()
            invariant
                s@ == bytes_seq(bytes),
                expected_bytes == bytes_for(num_pieces as nat),
                expected_bytes <= j <= s.len(),
                forall|t: int| expected_bytes <= t < j ==> s@[t] == 0,
            decreases s.len() - j,
        {
            if s[j] != 0 {
                proof {
                    let b: u8 = s@[j as int];
                    lemma_low_bits(b, 0);
                    assert(b & (0xFFu8 >> 0u8) == b) by (bit_vector);
                    let k: u8 = choose|k: u8| 0 <= k < 8 && b & bit_mask(k) != 0;
                    let i: int = 8 * j + k;
                    assert(i / 8 == j as int && i % 8 == k as int);
                    assert(bit_at(s@, i));
                }
                return Err(BitfieldError::NonZeroSpareBits);
            }
            j += 1;
        }
        let mut inner: Vec<u8> = Vec::new();
        inner.extend_from_slice(slice_subrange(s, 0, expected_bytes));
        let bf = Self { total_pieces: num_pieces, inner };
        proof {
            assert(bf.inner@ == s@.subrange(0, expected_bytes as int));
            assert forall|i: int| num_pieces <= i < 8 * s@.len() implies !#[trigger] bit_at(
                s@,
                i,
            ) by {
                let b: u8 = s@[i / 8];
                let k: u8 = (i % 8) as u8;
                if i / 8 >= expected_bytes {
                    assert(b == 0);
                    assert(0u8 & (0x80u8 >> k) == 0) by (bit_vector);
                } else {
                    assert(i / 8 == expected_bytes - 1);
                    assert(rest != 0);
                    assert(rest <= k < 8);
                    assert(b & bit_mask(k) == 0);
                }
            }
            assert forall|i: int| 0 <= i < 8 * expected_bytes implies bit_at(bf.inner@, i) == bit_at(
                s@,
                i,
            ) by {
                assert(bf.inner@[i / 8] == s@[i / 8]);
            }
            assert(bf@ =~= bits_of(s@, num_pieces as nat));
        }
        Ok(bf)
    }

    /// Number of pieces the field speaks of.
    pub fn total_pieces(&self) -> (n: usize)
        ensures
            n == self.piece_count(),
    {
        self.total_pieces
    }

    /// Marks piece `index` as absent. An index that the field does not speak
    /// of is ignored.
    pub fn clear_piece(&mut self, index: usize)
        requires
            old(self).wf(),
        ensures
            final(self).wf(),
            final(self)@ == clear_bit(old(self)@, index as int),
            index >= old(self).piece_count() ==> final(self).wire() == old(self).wire(),
            index < old(self).piece_count() ==> final(self).wire() == old(self).wire().update(
                index as int / 8,
                old(self).wire()[index as int / 8] & !bit_mask((index % 8) as u8),
            ),
    {
        if index >= self.total_pieces {
            return ;
        }
        let byte_index: usize = index / 8;
        let mask: u8 = mask_of(index % 8);
        let before: u8 = self.inner[byte_index];
        self.inner.set(byte_index, before & !mask);
        proof {
            let j: u8 = (index % 8) as u8;
            assert forall|k: u8| k < 8 implies (((before & !(0x80u8 >> j)) & (0x80u8 >> k)) != 0) == ((
            before & (0x80u8 >> k)) != 0 && k != j) by {
                assert(j < 8 && k < 8 ==> ((((before & !(0x80u8 >> j)) & (0x80u8 >> k)) != 0) == ((
                before & (0x80u8 >> k)) != 0 && k != j))) by (bit_vector);
            }
            assert forall|i: int| 0 <= i < 8 * self.inner@.len() implies bit_at(self.inner@, i) == (
            bit_at(old(self).inner@, i) && i != index) by {
                let k: u8 = (i % 8) as u8;
                assert(k < 8);
                if i / 8 == byte_index as int {
                    assert(i == index <==> k == j);
                } else {
                    assert(i != index);
                }
            }
            assert(self@ =~= old(self)@.update(index as int, false));
        }
    }

    /// Whether no piece is present.
    pub fn is_empty(&self) -> (empty: bool)
        requires
            self.wf(),
        ensures
            empty == (forall|i: int| 0 <= i < self@.len() ==> !self@[i]),
    {
        let mut j: usize = 0;
        while j < self.inner.len()
            invariant
                j <= self.inner@.len(),
                self.wf(),
                forall|t: int| 0 <= t < j ==> self.inner@[t] == 0,
            decreases self.inner@.len() - j,
        {
            let b: u8 = self.inner[j];
            if b != 0 {
                proof {
                    lemma_low_bits(b, 0);
                    assert(b & (0xFFu8 >> 0u8) == b) by (bit_vector);
                    let k: u8 = choose|k: u8| 0 <= k < 8 && b & bit_mask(k) != 0;
                    let i: int = 8 * j + k;
                    assert(i / 8 == j as int && i % 8 == k as int);
                    assert(bit_at(self.inner@, i));
                    assert(i < self.total_pieces);
                    assert(self@[i]);
                }
                return false;
            }
            j += 1;
        }
        proof {
            assert forall|i: int| 0 <= i < self@.len() implies !self@[i] by {
                let k: u8 = (i % 8) as u8;
                assert(self.inner@[i / 8] == 0);
                assert(0u8 & (0x80u8 >> k) == 0) by (bit_vector);
            }
        }
        true
    }

    /// A second bitfield with the same pieces.
    pub fn duplicate(&self) -> (copy: Self)
        ensures
            copy@ == self@,
            copy.wire() == self.wire(),
            copy.wf() == self.wf(),
    {
        Self { total_pieces: self.total_pieces, inner: self.as_bytes() }
    }

    /// The bytes as they go on the wire, copied.
    pub fn as_bytes(&self) -> (bytes: Vec<u8>)
        ensures
            bytes@ == self.wire(),
    {
        vstd::slice::slice_to_vec(self.inner.as_slice())
    }

    /// The bytes as they go on the wire.
    pub fn get_inner(&self) -> (bytes: &[u8])
        ensures
            bytes@ == self.wire(),
    {
        self.inner.as_slice()
    }

    /// Whether piece `index` is present. A piece that the field does not
    /// speak of is not.
    pub fn has_piece(&self, index: usize) -> (has: bool)
        requires
            self.wf(),
        ensures
            has == has_bit(self@, index as int),
    {
        if index >= self.total_pieces {
            return false;
        }
        let byte_index: usize = index / 8;
        let mask: u8 = mask_of(index % 8);
        self.inner[byte_index] & mask != 0
    }

    /// Marks piece `index` as present. An index that the field does not speak
    /// of is ignored.
    pub fn set_piece(&mut self, index: usize)
        requires
            old(self).wf(),
        ensures
            final(self).wf(),
            final(self).piece_count() == old(self).piece_count(),
            final(self)@ == set_bit(old(self)@, index as int),
            index >= old(self).piece_count() ==> final(self).wire() == old(self).wire(),
            index < old(self).piece_count() ==> final(self).wire() == old(self).wire().update(
                index as int / 8,
                old(self).wire()[index as int / 8] | bit_mask((index % 8) as u8),
            ),
    {
        if index >= self.total_pieces {
            return ;
        }
        let byte_index: usize = index / 8;
        let mask: u8 = mask_of(index % 8);
        let before: u8 = self.inner[byte_index];
        self.inner.set(byte_index, before | mask);
        proof {
            let j: u8 = (index % 8) as u8;
            assert forall|k: u8| k < 8 implies (((before | (0x80u8 >> j)) & (0x80u8 >> k)) != 0) == ((
            before & (0x80u8 >> k)) != 0 || k == j) by {
                assert(j < 8 && k < 8 ==> ((((before | (0x80u8 >> j)) & (0x80u8 >> k)) != 0) == ((
                before & (0x80u8 >> k)) != 0 || k == j))) by (bit_vector);
            }
            assert forall|i: int| 0 <= i < 8 * self.inner@.len() implies bit_at(self.inner@, i) == (
            bit_at(old(self).inner@, i) || i == index) by {
                let k: u8 = (i % 8) as u8;
                assert(k < 8);
                if i / 8 == byte_index as int {
                    assert(i == index <==> k == j);
                } else {
                    assert(i != index);
                }
            }
            assert(self@ =~= old(self)@.update(index as int, true));
        }
    }
}

} // verus!
