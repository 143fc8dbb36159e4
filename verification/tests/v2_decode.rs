use tsz_compress::v2::consts::headers;
use tsz_compress::v2::decode::{
    decode_i16, decode_i32, decode_i64, decode_i8, read_full_i128, read_full_i16, read_full_i32,
    read_full_i64, read_full_i8, HalfIter,
};
use tsz_compress::v2::encode::{
    write_i128_bits, write_i16_bits, write_i32_bits, write_i64_bits, write_i8_bits, EmitDeltaBits,
};
use tsz_compress::v2::halfvec::{HalfVec, HalfWord};
use tsz_compress::v2::queue::CompressionQueue;
use tsz_compress::v2::CodingError;

#[test]
fn half_iter_reads_high_then_low_nibbles() {
    let bytes = [0xAB, 0x09];
    let mut iter = HalfIter::new(&bytes);
    assert_eq!(iter.next(), Some(0xA));
    assert_eq!(iter.next(), Some(0xB));
    assert_eq!(iter.next(), Some(0x0));
    assert_eq!(iter.next(), Some(0x9));
    assert_eq!(iter.next(), None);
    assert_eq!(iter.next(), None);
}

#[test]
fn read_full_values_are_big_endian() {
    assert_eq!(read_full_i8(&[0xFF]), -1);
    assert_eq!(read_full_i16(&[0x12, 0x34]), 0x1234);
    assert_eq!(read_full_i32(&[0x80, 0, 0, 0]), i32::MIN);
    assert_eq!(read_full_i64(&[0, 0, 0, 0, 0, 0, 1, 2]), 0x0102);
    let mut b = [0u8; 16];
    b[15] = 7;
    assert_eq!(read_full_i128(&b), 7);
}

/// Writes a column of values as the column writer does, and packs it.
fn column_bytes_i16(values: &[i16]) -> Vec<u8> {
    let mut out = HalfVec::new(8);
    if !values.is_empty() {
        write_i16_bits(&mut out, values[0]);
    }
    if values.len() > 1 {
        write_i32_bits(&mut out, values[1] as i32 - values[0] as i32);
    }
    let mut queue: CompressionQueue<10> = CompressionQueue::new();
    for i in 2..values.len() {
        queue.push(values[i] as i32 - values[i - 1] as i32);
        if queue.is_full() {
            queue.emit_delta_bits(&mut out);
        }
    }
    while queue.len() > 0 {
        queue.flush_delta_bits(&mut out);
    }
    let mut bytes = Vec::new();
    HalfVec::finish(&mut bytes, &[&out]);
    bytes
}

#[test]
fn column_of_i16_round_trips() {
    let values: Vec<i16> = (0..100).map(|i| ((i * 37) % 200 - 100) as i16).collect();
    let bytes = column_bytes_i16(&values);
    let mut iter = HalfIter::new(&bytes);
    let mut out = Vec::new();
    assert!(decode_i16(&mut iter, &mut out).is_ok());
    assert_eq!(out, values);
}

#[test]
fn column_of_i16_with_wide_jumps_round_trips() {
    let values: Vec<i16> = vec![0, i16::MAX, i16::MIN, 5, 6, 7, -30000, 30000, 1, 2, 3, 4, 5];
    let bytes = column_bytes_i16(&values);
    let mut iter = HalfIter::new(&bytes);
    let mut out = Vec::new();
    assert!(decode_i16(&mut iter, &mut out).is_ok());
    assert_eq!(out, values);
}

#[test]
fn i8_column_stops_at_next_column() {
    let mut first = HalfVec::new(8);
    write_i8_bits(&mut first, 5);
    write_i16_bits(&mut first, -7);
    let mut second = HalfVec::new(8);
    second.push(HalfWord::Half(headers::START_OF_COLUMN));
    write_i8_bits(&mut second, 100);
    let mut bytes = Vec::new();
    HalfVec::finish(&mut bytes, &[&first, &second]);

    let mut iter = HalfIter::new(&bytes);
    let mut out = Vec::new();
    assert!(decode_i8(&mut iter, &mut out).is_ok());
    assert_eq!(out, vec![5, -2]);
    let mut next = Vec::new();
    assert!(decode_i8(&mut iter, &mut next).is_ok());
    assert_eq!(next, vec![100]);
}

#[test]
fn i32_and_i64_heads_round_trip() {
    let mut h = HalfVec::new(8);
    write_i32_bits(&mut h, -123456);
    write_i64_bits(&mut h, 1_000_000_000_000);
    let mut bytes = Vec::new();
    HalfVec::finish(&mut bytes, &[&h]);
    let mut iter = HalfIter::new(&bytes);
    let mut out = Vec::new();
    assert!(decode_i32(&mut iter, &mut out).is_ok());
    assert_eq!(out, vec![-123456, -123456 + 1_000_000_000_000i64 as i32]);

    let mut h = HalfVec::new(8);
    write_i64_bits(&mut h, i64::MIN);
    write_i128_bits(&mut h, 5);
    let mut bytes = Vec::new();
    HalfVec::finish(&mut bytes, &[&h]);
    let mut iter = HalfIter::new(&bytes);
    let mut out = Vec::new();
    assert!(decode_i64(&mut iter, &mut out).is_ok());
    assert_eq!(out, vec![i64::MIN, i64::MIN + 5]);
}

#[test]
fn truncated_column_keeps_whole_values() {
    let mut h = HalfVec::new(8);
    write_i16_bits(&mut h, 300);
    write_i32_bits(&mut h, 1);
    h.push(HalfWord::Half(headers::EIGHT_BITS_FOUR_SAMPLES));
    h.push(HalfWord::Byte(0x12));
    let mut bytes = Vec::new();
    HalfVec::finish(&mut bytes, &[&h]);
    let mut iter = HalfIter::new(&bytes);
    let mut out = Vec::new();
    assert!(matches!(decode_i16(&mut iter, &mut out), Err(CodingError::NotEnoughBits)));
    assert_eq!(out, vec![300, 301]);
    assert_eq!(iter.next(), None);
}

#[test]
fn empty_input_is_an_empty_column() {
    let bytes: [u8; 0] = [];
    let mut iter = HalfIter::new(&bytes);
    let mut out: Vec<i64> = Vec::new();
    assert!(decode_i64(&mut iter, &mut out).is_ok());
    assert!(out.is_empty());
}
