use rand::Rng;
use tsz_compress::bits::BitBuffer;
use tsz_compress::deltadelta_zigzag::{
    decode_deltadelta_i16, decode_deltadelta_i32, decode_deltadelta_i64, decode_deltadelta_i8,
    encode_deltadelta_i16, encode_deltadelta_i32, encode_deltadelta_i64, encode_deltadelta_i8,
};

fn encode_decode_i8(value: i8) {
    let mut bits = BitBuffer::new();
    encode_deltadelta_i8(value, &mut bits);
    let (decoded, remaining) = decode_deltadelta_i8(bits.as_bitslice()).unwrap();
    assert_eq!(value, decoded);
    assert!(remaining.is_none());
}

fn encode_decode_i16(value: i16) {
    let mut bits = BitBuffer::new();
    encode_deltadelta_i16(value, &mut bits);
    let (decoded, remaining) = decode_deltadelta_i16(bits.as_bitslice()).unwrap();
    assert_eq!(value, decoded);
    assert!(remaining.is_none());
}

fn encode_decode_i32(value: i32) {
    let mut bits = BitBuffer::new();
    encode_deltadelta_i32(value, &mut bits);
    let (decoded, remaining) = decode_deltadelta_i32(bits.as_bitslice()).unwrap();
    assert_eq!(value, decoded);
    assert!(remaining.is_none());
}

fn encode_decode_i64(value: i64) {
    let mut bits = BitBuffer::new();
    encode_deltadelta_i64(value, &mut bits);
    let (decoded, remaining) = decode_deltadelta_i64(bits.as_bitslice()).unwrap();
    assert_eq!(value, decoded);
    assert!(remaining.is_none());
}

#[test]
fn deltadelta_zigzag_can_encode_decode_all_i8() {
    for i in i8::MIN..=i8::MAX {
        encode_decode_i8(i);
    }
}

#[test]
fn deltadelta_zigzag_can_encode_decode_all_i16() {
    for i in i8::MIN..=i8::MAX {
        encode_decode_i16(i as i16);
    }

    for i in i16::MIN..=i16::MAX {
        encode_decode_i16(i);
    }
}

#[test]
fn deltadelta_zigzag_can_encode_decode_all_i32() {
    for i in i8::MIN..=i8::MAX {
        encode_decode_i32(i as i32);
    }

    for i in i16::MIN..=i16::MAX {
        encode_decode_i32(i as i32);
    }

    let mut rng = rand::thread_rng();

    // Randomly skip most of the values
    encode_decode_i32(i32::MIN);
    encode_decode_i32(0);
    encode_decode_i32(i32::MAX);
    for _ in 0..=10000 {
        let i = rng.gen_range(i32::MIN..=i32::MAX);
        encode_decode_i32(i);
    }
}

#[test]
fn deltadelta_zigzag_can_encode_decode_all_i64() {
    for i in i8::MIN..=i8::MAX {
        encode_decode_i64(i as i64);
    }

    for i in i16::MIN..=i16::MAX {
        encode_decode_i64(i as i64);
    }

    let mut rng = rand::thread_rng();

    // Randomly skip most of the values
    encode_decode_i64(i32::MIN as i64);
    encode_decode_i64(0);
    encode_decode_i64(i32::MAX as i64);
    for _ in 0..=10000 {
        let i = rng.gen_range(i32::MIN..=i32::MAX);
        encode_decode_i64(i as i64);
    }

    encode_decode_i64(i64::MIN);
    encode_decode_i64(0);
    encode_decode_i64(i64::MAX);
    for _ in 0..=100000 {
        let i = rng.gen_range(i64::MIN..=i64::MAX);
        encode_decode_i64(i);
    }
}

#[test]
fn deltadelta_stream_of_values() {
    let mut bits = BitBuffer::new();
    let values: [i32; 5] = [0, -1, 255, -70000, i32::MAX];
    for v in values {
        encode_deltadelta_i32(v, &mut bits);
    }
    let mut rest = Some(bits.as_bitslice());
    for v in values {
        let (d, r) = decode_deltadelta_i32(rest.unwrap()).unwrap();
        assert_eq!(d, v);
        rest = r;
    }
    assert!(rest.is_none());
}

#[test]
fn deltadelta_errors() {
    let bits = BitBuffer::new();
    assert_eq!(decode_deltadelta_i16(bits.as_bitslice()).err(), Some("Not enough bits to decode"));
    let mut bits = BitBuffer::new();
    bits.push(true);
    assert_eq!(
        decode_deltadelta_i16(bits.as_bitslice()).err(),
        Some("Not a delta-delta encoded value")
    );
}

#[test]
fn deltadelta_lengths_by_class() {
    let len_i8 = |v: i8| {
        let mut bits = BitBuffer::new();
        encode_deltadelta_i8(v, &mut bits);
        bits.len()
    };
    let len_i16 = |v: i16| {
        let mut bits = BitBuffer::new();
        encode_deltadelta_i16(v, &mut bits);
        bits.len()
    };
    // class 0: zero, two header bits, one payload bit
    assert_eq!(len_i8(0), 4);
    assert_eq!(len_i8(-1), 4);
    // class 1: 3 + 5
    assert_eq!(len_i8(14), 8);
    assert_eq!(len_i8(-15), 8);
    // class 2 of an i8: 3 + 8
    assert_eq!(len_i8(15), 11);
    assert_eq!(len_i8(i8::MIN), 11);
    assert_eq!(len_i8(i8::MAX), 11);
    // class 2 of an i16: 3 + 9; class 3: 4 + 16
    assert_eq!(len_i16(15), 12);
    assert_eq!(len_i16(254), 12);
    assert_eq!(len_i16(255), 20);
    assert_eq!(len_i16(i16::MIN), 20);
    for v in i8::MIN..=i8::MAX {
        encode_decode_i8(v);
    }
}
