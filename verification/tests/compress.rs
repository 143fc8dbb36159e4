use tsz_compress::bits::BitBuffer;
use tsz_compress::compress::{Compressor, Decompressor};
use tsz_compress::delta::encode_delta_i64;
use tsz_compress::rows::Row;
use tsz_compress::svlq::Svlq;

fn same_bits(a: &BitBuffer, b: &BitBuffer) -> bool {
    a.len() == b.len() && (0..a.len()).all(|i| a.get(i) == b.get(i))
}

fn decode_rows(bits: &BitBuffer) -> Result<Vec<Row>, &'static str> {
    let mut decompressor = Decompressor::new(bits.as_bitslice());
    let rows = decompressor.decompress::<Row>()?;
    assert!(decompressor.input.is_empty());
    Ok(rows)
}

fn pairs(rows: &[Row]) -> Vec<(i64, i32)> {
    rows.iter().map(|r| (r.ts, r.val)).collect()
}

#[test]
fn test_compress() {
    let mut compressor = Compressor::new();
    let mut rows = Vec::new();
    let lower = -32;
    let j = 0;
    for i in lower..10isize {
        let row = Row { ts: (j + i - lower) as i64, val: (j + i) as i32 };
        rows.push(row);
        compressor.compress(row);
    }
    let encoded = compressor.finish();
    let decoded = decode_rows(&encoded).unwrap();
    assert_eq!(pairs(&decoded), pairs(&rows));
}

#[test]
fn compressor_writes_full_then_delta_then_deltadelta() {
    let a = Row { ts: 1_000, val: -3 };
    let b = Row { ts: 1_010, val: -2 };
    let c = Row { ts: 1_020, val: -1 };
    let mut compressor = Compressor::new();
    compressor.compress(a);
    assert_eq!(compressor.row_n.map(|r| r.ts), Some(1_000));
    assert!(compressor.row_n1.is_none());
    compressor.compress(b);
    assert_eq!(compressor.row_n.map(|r| r.ts), Some(1_000));
    assert_eq!(compressor.row_n1.map(|r| r.ts), Some(1_010));
    compressor.compress(c);
    assert_eq!(compressor.row_n.map(|r| r.ts), Some(1_010));
    assert_eq!(compressor.row_n1.map(|r| r.ts), Some(1_020));

    let mut expected = BitBuffer::new();
    expected.extend_from(&Svlq::from_i64(1_000).bits);
    expected.extend_from(&Svlq::from_i32(-3).bits);
    encode_delta_i64(10, &mut expected);
    encode_delta_i64(1, &mut expected);
    // constant steps: both delta-deltas are zero, one bit each
    encode_delta_i64(0, &mut expected);
    encode_delta_i64(0, &mut expected);
    let bits = compressor.finish();
    assert!(same_bits(&bits, &expected));
    // first row 16 + 8 bits, delta 10 + 6 bits, delta-delta 1 + 1 bits
    assert_eq!(bits.len(), 16 + 8 + 10 + 6 + 2);
}

#[test]
fn compressed_rows_with_extreme_steps_come_back() {
    let rows = vec![
        Row { ts: i64::MAX, val: i32::MIN },
        Row { ts: i64::MIN, val: i32::MAX },
        Row { ts: 0, val: 0 },
        Row { ts: i64::MAX, val: i32::MIN },
        Row { ts: -5, val: 7 },
    ];
    let mut compressor = Compressor::new();
    for row in &rows {
        compressor.compress(*row);
    }
    let decoded = decode_rows(&compressor.finish()).unwrap();
    assert_eq!(pairs(&decoded), pairs(&rows));
}

#[test]
fn decompress_reports_a_short_stream() {
    // a value that does not fit the row's 32-bit field
    let mut bits = BitBuffer::new();
    bits.extend_from(&Svlq::from_i64(5).bits);
    bits.extend_from(&Svlq::from_i64(1 << 40).bits);
    assert_eq!(decode_rows(&bits).err(), Some("failed to unmarshal full row"));

    // a delta that stops short
    let mut bits = BitBuffer::new();
    bits.extend_from(&Svlq::from_i64(5).bits);
    bits.extend_from(&Svlq::from_i32(6).bits);
    encode_delta_i64(7, &mut bits);
    assert_eq!(decode_rows(&bits).err(), Some("failed to unmarshal delta row"));
}

#[test]
fn test_one_row() {
    let mut c = Compressor::new();
    c.compress(Row { ts: 1, val: 0 });
    let bits = c.finish();
    assert!(bits.len() > 0);
    let rows = decode_rows(&bits).unwrap();
    assert_eq!(pairs(&rows), vec![(1, 0)]);
}

#[test]
fn test_two_rows() {
    let mut c = Compressor::new();
    c.compress(Row { ts: 1, val: 0 });
    c.compress(Row { ts: 2, val: 0 });
    let rows = decode_rows(&c.finish()).unwrap();
    assert_eq!(pairs(&rows), vec![(1, 0), (2, 0)]);
}

#[test]
fn test_five_rows() {
    let mut c = Compressor::new();
    for a in 1..=5 {
        c.compress(Row { ts: a, val: 0 });
    }
    let rows = decode_rows(&c.finish()).unwrap();
    assert_eq!(pairs(&rows), vec![(1, 0), (2, 0), (3, 0), (4, 0), (5, 0)]);
}
