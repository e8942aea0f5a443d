//! The packet-header bit reader.

use rust_j2k::tier2::bio::BitReader;

#[test]
fn reads_msb_first() {
    let mut b = BitReader::new(&[0b1011_0010, 0b0100_0000]);
    let bits: Vec<u32> = (0..8).map(|_| b.read_bit()).collect();
    assert_eq!(bits, [1, 0, 1, 1, 0, 0, 1, 0]);
    assert_eq!(b.read(2), 0b01);
}

#[test]
fn read_multiple_bits() {
    let mut b = BitReader::new(&[0xA5, 0x3C]);
    assert_eq!(b.read(4), 0xA);
    assert_eq!(b.read(4), 0x5);
    assert_eq!(b.read(8), 0x3C);
}

#[test]
fn ff_byte_stuffs_following_msb() {
    let mut b = BitReader::new(&[0xFF, 0x80]);
    for _ in 0..8 {
        assert_eq!(b.read_bit(), 1, "first byte is all ones");
    }
    for _ in 0..7 {
        assert_eq!(b.read_bit(), 0, "stuffed byte yields seven zeros");
    }
}

#[test]
fn past_end_is_bounded() {
    let mut b = BitReader::new(&[0x00]);
    for _ in 0..8 {
        assert_eq!(b.read_bit(), 0);
    }
    for _ in 0..64 {
        assert_eq!(b.read_bit(), 1);
    }
}

#[test]
fn empty_input_is_bounded() {
    let mut b = BitReader::new(&[]);
    for _ in 0..16 {
        let _ = b.read_bit();
    }
}

#[test]
fn align_rounds_up_partial_byte() {
    let mut b = BitReader::new(&[0b1011_0000, 0xAB]);
    assert_eq!(b.read(4), 0b1011);
    b.align();
    assert_eq!(b.bytes_consumed(), 1);
}

#[test]
fn align_skips_stuffed_byte_after_ff() {
    let mut b = BitReader::new(&[0xFF, 0x80, 0xAB]);
    for _ in 0..8 {
        assert_eq!(b.read_bit(), 1);
    }
    b.align();
    assert_eq!(b.bytes_consumed(), 2);
}

#[test]
fn align_on_boundary_is_noop() {
    let mut b = BitReader::new(&[0x3C, 0xAB]);
    assert_eq!(b.read(8), 0x3C);
    b.align();
    assert_eq!(b.bytes_consumed(), 1);
}
