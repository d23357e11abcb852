use brotli_dec::bitreader::{BitReader, StreamBitReader};

#[test]
fn read_bits_reproduces_little_endian_packing() {
    // The first n bits of the stream form the low n bits of the value, the
    // first byte supplying the least significant eight.
    let data = vec![0xB2u8, 0x6D, 0x5A, 0x99, 0xF0];
    let full: u64 = 0xB2 | (0x6D << 8) | (0x5A << 16) | (0x99 << 24) | (0xF0u64 << 32);
    for n in 1..=32u32 {
        let mut br = StreamBitReader::new(data.clone());
        let v = br.read_bits(n);
        let mask: u64 = if n == 64 { u64::MAX } else { (1u64 << n) - 1 };
        assert_eq!(v as u64, full & mask, "width {}", n);
    }
}

#[test]
fn read_bits_advances_through_the_stream() {
    let data = vec![0b1010_0111u8, 0b0101_1100];
    let mut br = StreamBitReader::new(data);
    assert_eq!(br.read_bits(3), 0b111);
    assert_eq!(br.read_bits(5), 0b10100);
    assert_eq!(br.read_bits(4), 0b1100);
    assert_eq!(br.read_bits(4), 0b0101);
}

#[test]
fn get_bits_peeks_without_consuming() {
    let mut br = StreamBitReader::new(vec![0xC5, 0x01]);
    assert_eq!(br.get_bits(8), 0xC5);
    assert_eq!(br.get_bits(8), 0xC5);
    br.drop_bits(4);
    assert_eq!(br.get_bits(8), 0x1C);
}

#[test]
fn reads_past_the_end_serve_implicit_zeroes() {
    let mut br = StreamBitReader::new(vec![0xFF]);
    assert_eq!(br.read_bits(16), 0x00FF);
    assert!(!br.is_reader_okay());
}

#[test]
fn is_reader_okay_within_real_input() {
    let mut br = StreamBitReader::new(vec![0xFF, 0x01]);
    let _ = br.read_bits(16);
    assert!(br.is_reader_okay());
}

#[test]
fn safe_read_bits_refuses_truncated_reads() {
    let mut br = StreamBitReader::new(vec![0xAB]);
    assert_eq!(br.safe_read_bits(6), Some(0x2B));
    assert_eq!(br.safe_read_bits(4), None);
    // Nothing was consumed by the refused read.
    assert_eq!(br.safe_read_bits(2), Some(0b10));
}

#[test]
fn jump_to_byte_boundary_detects_set_padding_bits() {
    // From every in-byte position, padding with any set bit is refused.
    for k in 1..8u32 {
        let mut br = StreamBitReader::new(vec![0xFF, 0xAA]);
        let _ = br.read_bits(k);
        assert!(!br.jump_to_byte_boundary(), "position {}", k);

        let low_only = ((1u32 << k) - 1) as u8;
        let mut br = StreamBitReader::new(vec![low_only, 0xAA]);
        let _ = br.read_bits(k);
        assert!(br.jump_to_byte_boundary(), "position {}", k);
        assert_eq!(br.read_bits(8), 0xAA);
    }
}

#[test]
fn jump_at_boundary_is_a_no_op() {
    let mut br = StreamBitReader::new(vec![0x12, 0x34]);
    assert!(br.jump_to_byte_boundary());
    assert_eq!(br.read_bits(8), 0x12);
}

#[test]
fn peek_byte_reads_ahead_without_consuming() {
    let mut br = StreamBitReader::new(vec![0x10, 0x20, 0x30]);
    let _ = br.read_bits(8);
    assert_eq!(br.peek_byte(0), Some(0x20));
    assert_eq!(br.peek_byte(1), Some(0x30));
    assert_eq!(br.peek_byte(2), None);
    assert_eq!(br.read_bits(8), 0x20);
}

#[test]
fn copy_bytes_takes_aligned_bytes() {
    let mut br = StreamBitReader::new(vec![1, 2, 3, 4, 5]);
    let _ = br.read_bits(8);
    let mut dst = vec![0u8; 3];
    br.copy_bytes(&mut dst);
    assert_eq!(dst, vec![2, 3, 4]);
    assert_eq!(br.read_bits(8), 5);
}

#[test]
fn remaining_bytes_counts_unread_real_input() {
    let mut br = StreamBitReader::new(vec![9, 9, 9, 9]);
    assert_eq!(br.get_remaining_bytes(), 4);
    let _ = br.read_bits(3);
    assert_eq!(br.get_remaining_bytes(), 4);
    let _ = br.read_bits(5);
    assert_eq!(br.get_remaining_bytes(), 3);
    assert!(br.check_input_amount(3));
    assert!(!br.check_input_amount(4));
}

#[test]
fn warmup_reports_input_availability() {
    let mut br = StreamBitReader::new(vec![1]);
    assert!(br.warmup());
    let mut empty = StreamBitReader::new(Vec::new());
    assert!(!empty.warmup());
}
