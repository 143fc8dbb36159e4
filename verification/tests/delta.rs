use rand::Rng;
use tsz_compress::bits::BitBuffer;
use tsz_compress::delta::{
    decode_delta_i16, decode_delta_i32, decode_delta_i64, decode_delta_i8, encode_delta_i16,
    encode_delta_i32, encode_delta_i64, encode_delta_i8,
};

fn encode_decode_i8(value: i8) {
    let mut bits = BitBuffer::new();
    encode_delta_i8(value, &mut bits);
    let (decoded, remaining) = decode_delta_i8(bits.as_bitslice()).unwrap();
    assert_eq!(value, decoded);
    assert!(remaining.is_none());
}

fn encode_decode_i16(value: i16) {
    let mut bits = BitBuffer::new();
    encode_delta_i16(value, &mut bits);
    let (decoded, remaining) = decode_delta_i16(bits.as_bitslice()).unwrap();
    assert_eq!(value, decoded);
    assert!(remaining.is_none());
}

fn encode_decode_i32(value: i32) {
    let mut bits = BitBuffer::new();
    encode_delta_i32(value, &mut bits);
    let (decoded, remaining) = decode_delta_i32(bits.as_bitslice()).unwrap();
    assert_eq!(value, decoded);
    assert!(remaining.is_none());
}

fn encode_decode_i64(value: i64) {
    let mut bits = BitBuffer::new();
    encode_delta_i64(value, &mut bits);
    let (decoded, remaining) = decode_delta_i64(bits.as_bitslice()).unwrap();
    assert_eq!(value, decoded);
    assert!(remaining.is_none());
}

#[test]
fn delta_can_encode_decode_all_i8() {
    for i in i8::MIN..=i8::MAX {
        encode_decode_i8(i);
    }
}

#[test]
fn delta_can_encode_decode_all_i16() {
    for i in i8::MIN..=i8::MAX {
        encode_decode_i16(i as i16);
    }

    for i in i16::MIN..=i16::MAX {
        encode_decode_i16(i);
    }
}

#[test]
fn delta_can_encode_decode_all_i32() {
    for i in i8::MIN..=i8::MAX {
        encode_decode_i32(i as i32);
    }

    for i in i16::MIN..=i16::MAX {
        encode_decode_i32(i as i32);
    }

    let mut rng = rand::thread_rng();

    // Randomly skip most of the values
    encode_decode_i32(i32::MIN);
    encode_decode_i32(0);
    encode_decode_i32(i32::MAX);
    for _ in 0..=10000 {
        let i = rng.gen_range(i32::MIN..=i32::MAX);
        encode_decode_i32(i);
    }
}

#[test]
fn delta_can_encode_decode_all_i64() {
    for i in i8::MIN..=i8::MAX {
        encode_decode_i64(i as i64);
    }

    for i in i16::MIN..=i16::MAX {
        encode_decode_i64(i as i64);
    }

    let mut rng = rand::thread_rng();

    // Randomly skip most of the values
    encode_decode_i64(i32::MIN as i64);
    encode_decode_i64(0);
    encode_decode_i64(i32::MAX as i64);
    for _ in 0..=10000 {
        let i = rng.gen_range(i32::MIN..=i32::MAX);
        encode_decode_i64(i as i64);
    }

    encode_decode_i64(i64::MIN);
    encode_decode_i64(0);
    encode_decode_i64(i64::MAX);
    for _ in 0..=100000 {
        let i = rng.gen_range(i64::MIN..=i64::MAX);
        encode_decode_i64(i);
    }
}

fn bit_string(bits: &BitBuffer) -> String {
    let mut s = String::new();
    for i in 0..bits.len() {
        s.push(if bits.get(i) { '1' } else { '0' });
    }
    s
}

#[test]
fn delta_zero_is_one_clear_bit() {
    let mut bits = BitBuffer::new();
    encode_delta_i8(0, &mut bits);
    assert_eq!(bit_string(&bits), "0");
}

#[test]
fn delta_consecutive_values_read_in_order() {
    let mut bits = BitBuffer::new();
    encode_delta_i16(-300, &mut bits);
    encode_delta_i16(7, &mut bits);
    encode_delta_i16(0, &mut bits);
    let (a, rest) = decode_delta_i16(bits.as_bitslice()).unwrap();
    assert_eq!(a, -300);
    let (b, rest) = decode_delta_i16(rest.unwrap()).unwrap();
    assert_eq!(b, 7);
    let (c, rest) = decode_delta_i16(rest.unwrap()).unwrap();
    assert_eq!(c, 0);
    assert!(rest.is_none());
}

#[test]
fn delta_empty_input_is_refused() {
    let bits = BitBuffer::new();
    assert_eq!(decode_delta_i8(bits.as_bitslice()).err(), Some("Not enough bits to decode"));
}

fn delta_len_i64(value: i64) -> usize {
    let mut bits = BitBuffer::new();
    bits.push(true);
    encode_delta_i64(value, &mut bits);
    assert!(bits.get(0));
    bits.len() - 1
}

#[test]
fn delta_lengths_follow_size_table() {
    assert_eq!(delta_len_i64(0), 1);
    // [-7, 8]: 2-bit header and 4-bit payload
    assert_eq!(delta_len_i64(-7), 6);
    assert_eq!(delta_len_i64(8), 6);
    // [-63, 64]: 3 + 7
    assert_eq!(delta_len_i64(-8), 10);
    assert_eq!(delta_len_i64(9), 10);
    assert_eq!(delta_len_i64(-63), 10);
    assert_eq!(delta_len_i64(64), 10);
    // [-255, 256]: 4 + 9
    assert_eq!(delta_len_i64(-64), 13);
    assert_eq!(delta_len_i64(65), 13);
    assert_eq!(delta_len_i64(256), 13);
    // [-2047, 2048]: 5 + 12
    assert_eq!(delta_len_i64(-256), 17);
    assert_eq!(delta_len_i64(2048), 17);
    // [-16383, 16384]: 6 + 15
    assert_eq!(delta_len_i64(-2048), 21);
    assert_eq!(delta_len_i64(16384), 21);
    // [-131071, 131072]: 7 + 18
    assert_eq!(delta_len_i64(-16384), 25);
    assert_eq!(delta_len_i64(131072), 25);
    // [-(2^31 - 1), 2^31]: 8 + 32
    assert_eq!(delta_len_i64(-131072), 40);
    assert_eq!(delta_len_i64(1 << 31), 40);
    assert_eq!(delta_len_i64(-(1 << 31) + 1), 40);
    // everything else: 8 + 64
    assert_eq!(delta_len_i64(-(1 << 31)), 72);
    assert_eq!(delta_len_i64((1 << 31) + 1), 72);
    assert_eq!(delta_len_i64(i64::MIN), 72);
}
