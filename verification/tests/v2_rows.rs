use tsz_compress::rows::TestRow;
use tsz_compress::v2::consts::headers;
use tsz_compress::v2::decode::{decode_i16, decode_i32, decode_i64, decode_i8, HalfIter};
use tsz_compress::v2::row_writer::TestRowCompressorImpl;

fn read_columns(bytes: &[u8]) -> (Vec<i64>, Vec<i8>, Vec<i16>, Vec<i32>) {
    let mut iter = HalfIter::new(bytes);
    assert_eq!(iter.next(), Some(headers::START_OF_COLUMN));
    let (mut t, mut a, mut b, mut c) = (Vec::new(), Vec::new(), Vec::new(), Vec::new());
    assert!(decode_i64(&mut iter, &mut t).is_ok());
    assert!(decode_i8(&mut iter, &mut a).is_ok());
    assert!(decode_i16(&mut iter, &mut b).is_ok());
    assert!(decode_i32(&mut iter, &mut c).is_ok());
    assert_eq!(iter.next(), None);
    (t, a, b, c)
}

fn rows(n: i64) -> Vec<TestRow> {
    (0..n)
        .map(|i| TestRow {
            t: 1_675_528_564_000 + 1000 * i + (i % 3),
            a: ((i * 7) % 100) as i8,
            b: (1000 - 37 * i) as i16,
            c: (i * i * 31) as i32,
        })
        .collect()
}

#[test]
fn test_row_columns_read_back() {
    for n in [0i64, 1, 2, 3, 11, 12, 25, 200] {
        let rs = rows(n);
        let mut compressor = TestRowCompressorImpl::new(128);
        for r in &rs {
            compressor.compress(*r);
        }
        assert_eq!(compressor.row_count(), n as usize);
        let bytes = compressor.finish();
        assert_eq!(compressor.row_count(), 0);
        let (t, a, b, c) = read_columns(&bytes);
        assert_eq!(t, rs.iter().map(|r| r.t).collect::<Vec<_>>());
        assert_eq!(a, rs.iter().map(|r| r.a).collect::<Vec<_>>());
        assert_eq!(b, rs.iter().map(|r| r.b).collect::<Vec<_>>());
        assert_eq!(c, rs.iter().map(|r| r.c).collect::<Vec<_>>());
    }
}

#[test]
fn test_row_zero_rows_are_four_tags() {
    let mut compressor = TestRowCompressorImpl::new(0);
    assert!(compressor.is_empty());
    assert_eq!(compressor.len(), 0);
    assert_eq!(compressor.bit_rate(), 0);
    assert_eq!(compressor.finish(), vec![0x99, 0x99]);
}

#[test]
fn test_row_columns_share_one_pad() {
    // one row: t full (16 nibbles), a (2), b (4), c (8), four tags: 34 nibbles, no pad
    let mut compressor = TestRowCompressorImpl::new(1);
    compressor.compress(TestRow { t: 1, a: 2, b: 3, c: 4 });
    assert_eq!(compressor.len(), 4 * 30);
    let bytes = compressor.finish();
    assert_eq!(bytes.len(), 17);
    assert_eq!(bytes[0] >> 4, 9);

    // finish_into appends, and leaves the compressor empty
    let mut out = vec![0xAB];
    compressor.compress(TestRow { t: 1, a: 2, b: 3, c: 4 });
    compressor.finish_into(&mut out);
    assert_eq!(out.len(), 18);
    assert_eq!(&out[1..], &bytes[..]);
    assert!(compressor.is_empty());
}
