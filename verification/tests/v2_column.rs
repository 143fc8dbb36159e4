use tsz_compress::v2::column::ColumnWriter;
use tsz_compress::v2::consts::headers;
use tsz_compress::v2::decode::{decode_i16, decode_i32, decode_i64, decode_i8, HalfIter};

fn column_bytes(k: u32, values: &[i64]) -> Vec<u8> {
    let mut w = ColumnWriter::new(k);
    for v in values {
        w.push(*v);
    }
    let mut bytes = Vec::new();
    w.finish(&mut bytes);
    bytes
}

#[test]
fn column_writer_i8_round_trips() {
    let values: Vec<i8> = (0..95).map(|i: i32| ((i * 53) % 180 - 90) as i8).collect();
    let wide: Vec<i64> = values.iter().map(|v| *v as i64).collect();
    let bytes = column_bytes(8, &wide);
    let mut iter = HalfIter::new(&bytes);
    assert_eq!(iter.next(), Some(headers::START_OF_COLUMN));
    let mut out = Vec::new();
    assert!(decode_i8(&mut iter, &mut out).is_ok());
    assert_eq!(out, values);
    assert_eq!(iter.next(), None);
}

#[test]
fn column_writer_i16_round_trips() {
    let values: Vec<i16> = vec![7, i16::MAX, i16::MIN, 0, 1, 2, 3, 4, 5, 6, 7, 8, 9, 10, -30000, 30000];
    let wide: Vec<i64> = values.iter().map(|v| *v as i64).collect();
    let bytes = column_bytes(16, &wide);
    let mut iter = HalfIter::new(&bytes);
    assert_eq!(iter.next(), Some(headers::START_OF_COLUMN));
    let mut out = Vec::new();
    assert!(decode_i16(&mut iter, &mut out).is_ok());
    assert_eq!(out, values);
}

#[test]
fn column_writer_i32_round_trips() {
    let values: Vec<i32> = (0..1000).map(|i: i32| i.wrapping_mul(2654435761u32 as i32) >> 3).collect();
    let wide: Vec<i64> = values.iter().map(|v| *v as i64).collect();
    let bytes = column_bytes(32, &wide);
    let mut iter = HalfIter::new(&bytes);
    assert_eq!(iter.next(), Some(headers::START_OF_COLUMN));
    let mut out = Vec::new();
    assert!(decode_i32(&mut iter, &mut out).is_ok());
    assert_eq!(out, values);
}

#[test]
fn column_writer_i64_round_trips() {
    let values: Vec<i64> = vec![1_675_528_564_000, 1_675_528_565_000, 1_675_528_566_001, 0, -5, 1 << 40];
    let bytes = column_bytes(64, &values);
    let mut iter = HalfIter::new(&bytes);
    assert_eq!(iter.next(), Some(headers::START_OF_COLUMN));
    let mut out = Vec::new();
    assert!(decode_i64(&mut iter, &mut out).is_ok());
    assert_eq!(out, values);
}

#[test]
fn column_writer_empty_and_single() {
    let bytes = column_bytes(16, &[]);
    assert_eq!(bytes, vec![0x99]);
    let bytes = column_bytes(8, &[5]);
    // tag, 0x05, padding
    assert_eq!(bytes, vec![0x90, 0x59]);
    let mut iter = HalfIter::new(&bytes);
    assert_eq!(iter.next(), Some(9));
    let mut out = Vec::new();
    assert!(decode_i8(&mut iter, &mut out).is_ok());
    assert_eq!(out, vec![5]);
}

#[test]
fn column_writer_emits_ten_small_deltas_as_one_block() {
    let mut w = ColumnWriter::new(16);
    for v in 0..12i64 {
        w.push(v);
    }
    // first value (4 nibbles), first delta (8 nibbles), one tagged block of ten (9 nibbles)
    assert_eq!(w.nibble_len(), 4 + 8 + 9);
}

#[test]
fn column_writer_flushes_greedily() {
    // twelve deltas of one: a block of ten while pushing, a block of two at the end
    let values: Vec<i64> = (0..14).collect();
    let bytes = column_bytes(16, &values);
    // tag (1) + first value (4) + first delta (8) + two blocks (9 + 9) = 31 nibbles, padded
    assert_eq!(bytes.len(), 16);
    assert_eq!(bytes[15] & 0x0f, 9);
    let mut iter = HalfIter::new(&bytes);
    assert_eq!(iter.next(), Some(headers::START_OF_COLUMN));
    let mut out = Vec::new();
    assert!(decode_i16(&mut iter, &mut out).is_ok());
    assert_eq!(out, (0..14).collect::<Vec<i16>>());

    // fifteen deltas of one: a block of ten, then a block of five
    let values: Vec<i64> = (0..17).collect();
    assert_eq!(column_bytes(16, &values).len(), 16);
}
