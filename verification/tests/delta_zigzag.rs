use tsz_compress::bits::BitBuffer;
use tsz_compress::delta_zigzag::{
    decode_delta_i16, decode_delta_i32, decode_delta_i64, decode_delta_i8, encode_delta_i16,
    encode_delta_i32, encode_delta_i64, encode_delta_i8, zigzag64, unzigzag64,
};

fn encode_decode_i8(values: &mut [i8]) {
    let mut bits = BitBuffer::new();
    encode_delta_i8(values, &mut bits);
    let (decoded, remaining) = decode_delta_i8(bits.as_bitslice()).unwrap();
    let mut ind = 0;
    for de_value in decoded.to_vec() {
        assert_eq!(values[ind], de_value);
        ind += 1;
    }
    assert_eq!(ind, values.len());
    assert!(remaining.is_none());
}

fn encode_decode_i16(values: &mut [i16]) {
    let mut bits = BitBuffer::new();
    encode_delta_i16(values, &mut bits);
    let (decoded, remaining) = decode_delta_i16(bits.as_bitslice()).unwrap();
    let mut ind = 0;
    for de_value in decoded.to_vec() {
        assert_eq!(values[ind], de_value);
        ind += 1;
    }
    assert_eq!(ind, values.len());
    assert!(remaining.is_none());
}

fn encode_decode_i32(values: &mut [i32]) {
    let mut bits = BitBuffer::new();
    encode_delta_i32(values, &mut bits);
    let (decoded, remaining) = decode_delta_i32(bits.as_bitslice()).unwrap();
    let mut ind = 0;
    for de_value in decoded.to_vec() {
        assert_eq!(values[ind], de_value);
        ind += 1;
    }
    assert_eq!(ind, values.len());
    assert!(remaining.is_none());
}

fn encode_decode_i64(values: &mut [i64]) {
    let mut bits = BitBuffer::new();
    encode_delta_i64(values, &mut bits);
    let (decoded, remaining) = decode_delta_i64(bits.as_bitslice()).unwrap();
    let mut ind = 0;
    for de_value in decoded.to_vec() {
        assert_eq!(values[ind], de_value);
        ind += 1;
    }
    assert_eq!(ind, values.len());
    assert!(remaining.is_none());
}

#[test]
fn delta_zigzag_can_encode_decode_all_i8() {
    for i in -4..4 {
        let mut values: [i8; 10] = [0; 10];
        for j in 0..10 {
            values[j] = i;
        }
        encode_decode_i8(&mut values[..]);
    }
    for i in -8..8 {
        let mut values: [i8; 8] = [0; 8];
        for j in 0..8 {
            values[j] = i;
        }
        encode_decode_i8(&mut values[..]);
    }
    for i in -128..=127 {
        let mut values: [i8; 4] = [0; 4];
        for j in 0..4 {
            values[j] = i;
        }
        encode_decode_i8(&mut values[..]);
    }
}

#[test]
fn delta_zigzag_can_encode_decode_all_i16() {
    for i in -4..4 {
        let mut values: [i16; 10] = [0; 10];
        for j in 0..10 {
            values[j] = i;
        }
        encode_decode_i16(&mut values[..]);
    }
    for i in -8..8 {
        let mut values: [i16; 8] = [0; 8];
        for j in 0..8 {
            values[j] = i;
        }
        encode_decode_i16(&mut values[..]);
    }
    for i in -128..128 {
        let mut values: [i16; 4] = [0; 4];
        for j in 0..4 {
            values[j] = i;
        }
        encode_decode_i16(&mut values[..]);
    }
    for i in -512..512 {
        let mut values: [i16; 3] = [0; 3];
        for j in 0..3 {
            values[j] = i;
        }
        encode_decode_i16(&mut values[..]);
    }
    for i in -32768..=32767 {
        let mut values: [i16; 2] = [0; 2];
        for j in 0..2 {
            values[j] = i;
        }
        encode_decode_i16(&mut values[..]);
    }
}

#[test]
fn delta_zigzag_can_encode_decode_all_i32() {
    for i in -4..4 {
        let mut values: [i32; 10] = [0; 10];
        for j in 0..10 {
            values[j] = i;
        }
        encode_decode_i32(&mut values[..]);
    }
    for i in -8..8 {
        let mut values: [i32; 8] = [0; 8];
        for j in 0..8 {
            values[j] = i;
        }
        encode_decode_i32(&mut values[..]);
    }
    for i in -128..128 {
        let mut values: [i32; 4] = [0; 4];
        for j in 0..4 {
            values[j] = i;
        }
        encode_decode_i32(&mut values[..]);
    }
    for i in -512..512 {
        let mut values: [i32; 3] = [0; 3];
        for j in 0..3 {
            values[j] = i;
        }
        encode_decode_i32(&mut values[..]);
    }
    for i in -32768..32768 {
        let mut values: [i32; 2] = [0; 2];
        for j in 0..2 {
            values[j] = i;
        }
        encode_decode_i32(&mut values[..]);
    }
}

#[test]
fn delta_zigzag_can_encode_decode_all_i64() {
    for i in -4..4 {
        let mut values: [i64; 10] = [0; 10];
        for j in 0..10 {
            values[j] = i;
        }
        encode_decode_i64(&mut values[..]);
    }
    for i in -8..8 {
        let mut values: [i64; 8] = [0; 8];
        for j in 0..8 {
            values[j] = i;
        }
        encode_decode_i64(&mut values[..]);
    }
    for i in -128..128 {
        let mut values: [i64; 4] = [0; 4];
        for j in 0..4 {
            values[j] = i;
        }
        encode_decode_i64(&mut values[..]);
    }
    for i in -512..512 {
        let mut values: [i64; 3] = [0; 3];
        for j in 0..3 {
            values[j] = i;
        }
        encode_decode_i64(&mut values[..]);
    }
    for i in -32768..32768 {
        let mut values: [i64; 2] = [0; 2];
        for j in 0..2 {
            values[j] = i;
        }
        encode_decode_i64(&mut values[..]);
    }
}

#[test]
fn zigzag_codes_alternate_signs() {
    assert_eq!(zigzag64(0), 0);
    assert_eq!(zigzag64(-1), 1);
    assert_eq!(zigzag64(1), 2);
    assert_eq!(zigzag64(-2), 3);
    assert_eq!(zigzag64(i64::MIN), u64::MAX);
    assert_eq!(unzigzag64(u64::MAX), i64::MIN);
    for v in [-5i64, 0, 7, i64::MAX, i64::MIN] {
        assert_eq!(unzigzag64(zigzag64(v)), v);
    }
}

#[test]
fn delta_zigzag_mixed_block_and_stream() {
    let mut bits = BitBuffer::new();
    let mut first: [i16; 3] = [-300, 511, 0];
    let mut second: [i16; 2] = [i16::MIN, i16::MAX];
    encode_delta_i16(&mut first[..], &mut bits);
    encode_delta_i16(&mut second[..], &mut bits);
    let (a, rest) = decode_delta_i16(bits.as_bitslice()).unwrap();
    assert_eq!(a.to_vec(), vec![-300, 511, 0]);
    let (b, rest) = decode_delta_i16(rest.unwrap()).unwrap();
    assert_eq!(b.to_vec(), vec![i16::MIN, i16::MAX]);
    assert!(rest.is_none());
}

#[test]
fn delta_zigzag_rejects_non_delta_and_short_input() {
    let mut bits = BitBuffer::new();
    bits.push(false);
    assert_eq!(decode_delta_i8(bits.as_bitslice()).err(), Some("Not valid for delta decoding"));
    // An i8 block header needs its second bit set.
    let mut bits = BitBuffer::new();
    bits.push(true);
    bits.push(false);
    assert_eq!(decode_delta_i8(bits.as_bitslice()).err(), Some("Not enough bits to decode"));
}
