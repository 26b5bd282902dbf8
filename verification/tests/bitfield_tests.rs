use bittorrent_core::bitfield::{BitField, BitfieldError};
use bytes::Bytes;

#[test]
fn test_new_bitfield() {
    let bitfield = BitField::new(10);
    assert_eq!(bitfield.total_pieces(), 10);
    assert_eq!(bitfield.get_inner().len(), 2); // ceil(10/8) = 2
    assert_eq!(bitfield.get_inner(), vec![0u8, 0u8]);
}

#[test]
fn test_set_and_has_piece() {
    let mut bitfield = BitField::new(10);
    assert!(!bitfield.has_piece(0));
    bitfield.set_piece(0);
    assert!(bitfield.has_piece(0));

    assert!(!bitfield.has_piece(9));
    bitfield.set_piece(9);
    assert!(bitfield.has_piece(9));

    // Out of bounds: neither a panic nor a change.
    assert!(!bitfield.has_piece(10));
    bitfield.set_piece(10);
    assert!(!bitfield.has_piece(10));
}

#[test]
fn test_try_from_valid() {
    // 8 pieces, 1 byte
    let bytes = Bytes::from(vec![0b10101010]);
    let bitfield = BitField::try_from(bytes.clone(), 8).unwrap();
    assert_eq!(bitfield.total_pieces(), 8);
    assert_eq!(bitfield.get_inner(), vec![0b10101010]);
    assert!(bitfield.has_piece(0));
    assert!(!bitfield.has_piece(1));
    assert!(bitfield.has_piece(2));

    // 10 pieces, 2 bytes, the last 6 bits of the second byte are spare
    let bytes = Bytes::from(vec![0b11111111, 0b11000000]);
    let bitfield = BitField::try_from(bytes.clone(), 10).unwrap();
    assert_eq!(bitfield.total_pieces(), 10);
    assert_eq!(bitfield.get_inner(), vec![0b11111111, 0b11000000]);
    assert!(bitfield.has_piece(0));
    assert!(bitfield.has_piece(7));
    assert!(bitfield.has_piece(8));
    assert!(bitfield.has_piece(9));
    assert!(!bitfield.has_piece(10));

    // 10 pieces, 4 bytes, the last two bytes are spare and zero
    let bytes_with_trailing_zeros = Bytes::from(vec![0b11111111, 0b11000000, 0u8, 0u8]);
    let bitfield_tz = BitField::try_from(bytes_with_trailing_zeros.clone(), 10).unwrap();
    assert_eq!(bitfield_tz.total_pieces(), 10);
    assert_eq!(bitfield_tz.get_inner(), vec![0b11111111, 0b11000000]);
}

#[test]
fn test_try_from_invalid_length_too_short() {
    let bytes = Bytes::from(vec![0b10101010]);
    let result = BitField::try_from(bytes, 10); // 2 bytes are needed
    assert_eq!(
        result.unwrap_err(),
        BitfieldError::InvalidLength {
            expected_len: 2,
            actual_len: 1
        }
    );
}

#[test]
fn test_try_from_non_zero_spare_bits_in_last_byte() {
    // 10 pieces, 2 bytes. The last 6 bits of the second byte must be 0;
    // here bit 5 of the second byte is set.
    let bytes = Bytes::from(vec![0b11111111, 0b11000100]);
    let result = BitField::try_from(bytes, 10);
    assert_eq!(result.unwrap_err(), BitfieldError::NonZeroSpareBits);
}

#[test]
fn test_try_from_non_zero_spare_bits_in_trailing_bytes() {
    // 8 pieces need 1 byte. Of 2 bytes given, the second is not zero.
    let bytes = Bytes::from(vec![0b11111111, 0b00000001]);
    let result = BitField::try_from(bytes, 8);
    assert_eq!(result.unwrap_err(), BitfieldError::NonZeroSpareBits);
}

#[test]
fn test_get_inner() {
    let bitfield = BitField::new(5);
    assert_eq!(bitfield.get_inner(), &[0u8]);
    let mut bitfield_2 = BitField::new(12);
    bitfield_2.set_piece(0);
    bitfield_2.set_piece(8);
    assert_eq!(bitfield_2.get_inner(), &[0b10000000, 0b10000000]);
}

#[test]
fn bitfield_of_no_pieces_is_empty() {
    let bitfield = BitField::new(0);
    assert_eq!(bitfield.total_pieces(), 0);
    assert_eq!(bitfield.get_inner().len(), 0);
    for i in 0..20 {
        assert!(!bitfield.has_piece(i));
    }
    let read = BitField::try_from(Bytes::new(), 0).unwrap();
    assert_eq!(read, bitfield);
}

#[test]
fn bitfield_survives_the_wire() {
    let mut bitfield = BitField::new(19);
    for i in [0usize, 3, 7, 8, 18] {
        bitfield.set_piece(i);
    }
    assert_eq!(bitfield.get_inner(), &[0b10010001, 0b10000000, 0b00100000]);
    let wire = Bytes::copy_from_slice(bitfield.get_inner());
    let back = BitField::try_from(wire, 19).unwrap();
    assert_eq!(back, bitfield);
}

#[test]
fn bitfield_has_exactly_what_was_set() {
    let set = [1usize, 4, 5, 12, 40, 4];
    let mut bitfield = BitField::new(13);
    for i in set {
        bitfield.set_piece(i);
    }
    for i in 0..64 {
        assert_eq!(bitfield.has_piece(i), i < 13 && set.contains(&i));
    }
}

#[test]
fn spare_bit_next_to_the_last_piece_is_refused() {
    // 9 pieces: bit 9 is the first spare bit.
    let result = BitField::try_from(Bytes::from(vec![0u8, 0b01000000]), 9);
    assert_eq!(result.unwrap_err(), BitfieldError::NonZeroSpareBits);
    let result = BitField::try_from(Bytes::from(vec![0u8, 0b10000000]), 9);
    assert!(result.unwrap().has_piece(8));
}

#[test]
fn pieces_can_be_cleared_again() {
    let mut bitfield = BitField::new(10);
    assert!(bitfield.is_empty());
    bitfield.set_piece(3);
    bitfield.set_piece(9);
    assert!(!bitfield.is_empty());
    bitfield.clear_piece(3);
    bitfield.clear_piece(4);
    bitfield.clear_piece(10);
    assert!(!bitfield.has_piece(3));
    assert!(bitfield.has_piece(9));
    assert_eq!(bitfield.get_inner(), &[0, 0b01000000]);
    assert_eq!(bitfield.as_bytes(), vec![0, 0b01000000]);
    let copy = bitfield.duplicate();
    assert_eq!(copy, bitfield);
    bitfield.clear_piece(9);
    assert!(bitfield.is_empty());
    assert!(!copy.is_empty());
}
