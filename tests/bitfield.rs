use bittorrent::bitfield::{BitField, BitFieldError};

#[test]
fn it_can_use_a_predefined_bitfield() {
    let bitfield: BitField = vec![1, 3, 5, 7].into();
    // [ [0..1], [0..1, 1], [0..1, 0, 1], [0.. 1, 1, 1]  ]

    for bit in &[7, 14, 15, 21, 23, 29, 30, 31] {
        assert_eq!(Ok(true), bitfield.is_set(*bit));
    }
}

#[test]
fn it_can_set_a_bit_in_existing_bitfield() {
    let mut bitfield: BitField = vec![192].into();
    // [ [1, 1, 0]  ]

    for bit in &[0, 1] {
        assert_eq!(Ok(true), bitfield.is_set(*bit));
    }

    for bit in &[2] {
        assert_eq!(Ok(false), bitfield.is_set(*bit));
        let _ = bitfield.set(*bit);
        assert_eq!(Ok(true), bitfield.is_set(*bit));
    }
}

#[test]
fn predefined_bitfield_has_exactly_the_listed_bits() {
    let bitfield = BitField::new(vec![1, 3, 5, 7]);
    let expected = [7, 14, 15, 21, 23, 29, 30, 31];
    for bit in 0..32 {
        assert_eq!(Ok(expected.contains(&bit)), bitfield.is_set(bit));
    }
}

#[test]
fn bits_follow_the_raw_bytes_high_bit_first() {
    let bytes = vec![0b1000_0001u8, 0b0100_0000, 0xff];
    let bitfield = BitField::new(bytes.clone());
    for i in 0..24usize {
        let expected = (bytes[i / 8] >> (7 - i % 8)) & 1 == 1;
        assert_eq!(Ok(expected), bitfield.is_set(i));
    }
}

#[test]
fn out_of_range_bits_are_refused() {
    let mut bitfield = BitField::new(vec![0xff]);
    assert_eq!(Err(BitFieldError::InvalidBit(8)), bitfield.is_set(8));
    assert_eq!(Err(BitFieldError::InvalidBit(9)), bitfield.set(9));
    for bit in 0..8 {
        assert_eq!(Ok(true), bitfield.is_set(bit));
    }
    let mut empty = BitField::new(vec![]);
    assert_eq!(Err(BitFieldError::InvalidBit(0)), empty.is_set(0));
    assert_eq!(Err(BitFieldError::InvalidBit(0)), empty.set(0));
}

#[test]
fn setting_a_bit_leaves_the_others() {
    let mut bitfield = BitField::new(vec![0, 0]);
    assert_eq!(Ok(()), bitfield.set(9));
    for bit in 0..16 {
        assert_eq!(Ok(bit == 9), bitfield.is_set(bit));
    }
}
