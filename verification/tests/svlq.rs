use rand::Rng;
use tsz_compress::bits::BitBuffer;
use tsz_compress::svlq::{Svlq, SvlqRef};

fn bit_string(bits: &BitBuffer) -> String {
    (0..bits.len()).map(|i| if bits.get(i) { '1' } else { '0' }).collect()
}

#[test]
fn svlq_can_encode_0() {
    let svlq = Svlq::from_i8(0);
    assert_eq!(svlq.bits.len(), 8);
    assert_eq!(svlq.bits.get(0), false);
    assert_eq!(svlq.bits.get(1), false);
    assert_eq!(svlq.bits.get(2), false);
    assert_eq!(svlq.bits.get(3), false);
    assert_eq!(svlq.bits.get(4), false);
    assert_eq!(svlq.bits.get(5), false);
    assert_eq!(svlq.bits.get(6), false);
    assert_eq!(svlq.bits.get(7), false);

    let svlq = Svlq::from_i16(0);
    assert_eq!(svlq.bits.len(), 8);
    assert_eq!(svlq.bits.get(0), false);
    assert_eq!(svlq.bits.get(1), false);
    assert_eq!(svlq.bits.get(2), false);
    assert_eq!(svlq.bits.get(3), false);
    assert_eq!(svlq.bits.get(4), false);
    assert_eq!(svlq.bits.get(5), false);
    assert_eq!(svlq.bits.get(6), false);
    assert_eq!(svlq.bits.get(7), false);

    let svlq = Svlq::from_i32(0);
    assert_eq!(svlq.bits.len(), 8);
    assert_eq!(svlq.bits.get(0), false);
    assert_eq!(svlq.bits.get(1), false);
    assert_eq!(svlq.bits.get(2), false);
    assert_eq!(svlq.bits.get(3), false);
    assert_eq!(svlq.bits.get(4), false);
    assert_eq!(svlq.bits.get(5), false);
    assert_eq!(svlq.bits.get(6), false);
    assert_eq!(svlq.bits.get(7), false);

    let svlq = Svlq::from_i64(0);
    assert_eq!(svlq.bits.len(), 8);
    assert_eq!(svlq.bits.get(0), false);
    assert_eq!(svlq.bits.get(1), false);
    assert_eq!(svlq.bits.get(2), false);
    assert_eq!(svlq.bits.get(3), false);
    assert_eq!(svlq.bits.get(4), false);
    assert_eq!(svlq.bits.get(5), false);
    assert_eq!(svlq.bits.get(6), false);
    assert_eq!(svlq.bits.get(7), false);
}

#[test]
fn svlq_can_encode_1() {
    let svlq = Svlq::from_i8(1);
    assert_eq!(svlq.bits.len(), 8);
    assert_eq!(svlq.bits.get(0), false);
    assert_eq!(svlq.bits.get(1), false);
    assert_eq!(svlq.bits.get(2), false);
    assert_eq!(svlq.bits.get(3), false);
    assert_eq!(svlq.bits.get(4), false);
    assert_eq!(svlq.bits.get(5), false);
    assert_eq!(svlq.bits.get(6), false);
    assert_eq!(svlq.bits.get(7), true);

    let svlq = Svlq::from_i16(1);
    assert_eq!(svlq.bits.len(), 8);
    assert_eq!(svlq.bits.get(0), false);
    assert_eq!(svlq.bits.get(1), false);
    assert_eq!(svlq.bits.get(2), false);
    assert_eq!(svlq.bits.get(3), false);
    assert_eq!(svlq.bits.get(4), false);
    assert_eq!(svlq.bits.get(5), false);
    assert_eq!(svlq.bits.get(6), false);
    assert_eq!(svlq.bits.get(7), true);

    let svlq = Svlq::from_i32(1);
    assert_eq!(svlq.bits.len(), 8);
    assert_eq!(svlq.bits.get(0), false);
    assert_eq!(svlq.bits.get(1), false);
    assert_eq!(svlq.bits.get(2), false);
    assert_eq!(svlq.bits.get(3), false);
    assert_eq!(svlq.bits.get(4), false);
    assert_eq!(svlq.bits.get(5), false);
    assert_eq!(svlq.bits.get(6), false);
    assert_eq!(svlq.bits.get(7), true);

    let svlq = Svlq::from_i64(1);
    assert_eq!(svlq.bits.len(), 8);
    assert_eq!(svlq.bits.get(0), false);
    assert_eq!(svlq.bits.get(1), false);
    assert_eq!(svlq.bits.get(2), false);
    assert_eq!(svlq.bits.get(3), false);
    assert_eq!(svlq.bits.get(4), false);
    assert_eq!(svlq.bits.get(5), false);
    assert_eq!(svlq.bits.get(6), false);
    assert_eq!(svlq.bits.get(7), true);
}

#[test]
fn can_encode_neg_1() {
    let svlq = Svlq::from_i8(-1);
    assert_eq!(svlq.bits.len(), 8);
    assert_eq!(svlq.bits.get(0), true);
    assert_eq!(svlq.bits.get(1), false);
    assert_eq!(svlq.bits.get(2), false);
    assert_eq!(svlq.bits.get(3), false);
    assert_eq!(svlq.bits.get(4), false);
    assert_eq!(svlq.bits.get(5), false);
    assert_eq!(svlq.bits.get(6), false);
    assert_eq!(svlq.bits.get(7), true);

    let svlq = Svlq::from_i16(-1);
    assert_eq!(svlq.bits.len(), 8);
    assert_eq!(svlq.bits.get(0), true);
    assert_eq!(svlq.bits.get(1), false);
    assert_eq!(svlq.bits.get(2), false);
    assert_eq!(svlq.bits.get(3), false);
    assert_eq!(svlq.bits.get(4), false);
    assert_eq!(svlq.bits.get(5), false);
    assert_eq!(svlq.bits.get(6), false);
    assert_eq!(svlq.bits.get(7), true);

    let svlq = Svlq::from_i32(-1);
    assert_eq!(svlq.bits.len(), 8);
    assert_eq!(svlq.bits.get(0), true);
    assert_eq!(svlq.bits.get(1), false);
    assert_eq!(svlq.bits.get(2), false);
    assert_eq!(svlq.bits.get(3), false);
    assert_eq!(svlq.bits.get(4), false);
    assert_eq!(svlq.bits.get(5), false);
    assert_eq!(svlq.bits.get(6), false);
    assert_eq!(svlq.bits.get(7), true);

    let svlq = Svlq::from_i64(-1);
    assert_eq!(svlq.bits.len(), 8);
    assert_eq!(svlq.bits.get(0), true);
    assert_eq!(svlq.bits.get(1), false);
    assert_eq!(svlq.bits.get(2), false);
    assert_eq!(svlq.bits.get(3), false);
    assert_eq!(svlq.bits.get(4), false);
    assert_eq!(svlq.bits.get(5), false);
    assert_eq!(svlq.bits.get(6), false);
    assert_eq!(svlq.bits.get(7), true);
}

#[test]
fn can_encode_63() {
    let svlq = Svlq::from_i8(63);
    assert_eq!(svlq.bits.len(), 8);
    assert_eq!(svlq.bits.get(0), false);
    assert_eq!(svlq.bits.get(1), false);
    assert_eq!(svlq.bits.get(2), true);
    assert_eq!(svlq.bits.get(3), true);
    assert_eq!(svlq.bits.get(4), true);
    assert_eq!(svlq.bits.get(5), true);
    assert_eq!(svlq.bits.get(6), true);
    assert_eq!(svlq.bits.get(7), true);

    let svlq = Svlq::from_i16(63);
    assert_eq!(svlq.bits.len(), 8);
    assert_eq!(svlq.bits.get(0), false);
    assert_eq!(svlq.bits.get(1), false);
    assert_eq!(svlq.bits.get(2), true);
    assert_eq!(svlq.bits.get(3), true);
    assert_eq!(svlq.bits.get(4), true);
    assert_eq!(svlq.bits.get(5), true);
    assert_eq!(svlq.bits.get(6), true);
    assert_eq!(svlq.bits.get(7), true);

    let svlq = Svlq::from_i32(63);
    assert_eq!(svlq.bits.len(), 8);
    assert_eq!(svlq.bits.get(0), false);
    assert_eq!(svlq.bits.get(1), false);
    assert_eq!(svlq.bits.get(2), true);
    assert_eq!(svlq.bits.get(3), true);
    assert_eq!(svlq.bits.get(4), true);
    assert_eq!(svlq.bits.get(5), true);
    assert_eq!(svlq.bits.get(6), true);
    assert_eq!(svlq.bits.get(7), true);

    let svlq = Svlq::from_i64(63);
    assert_eq!(svlq.bits.len(), 8);
    assert_eq!(svlq.bits.get(0), false);
    assert_eq!(svlq.bits.get(1), false);
    assert_eq!(svlq.bits.get(2), true);
    assert_eq!(svlq.bits.get(3), true);
    assert_eq!(svlq.bits.get(4), true);
    assert_eq!(svlq.bits.get(5), true);
    assert_eq!(svlq.bits.get(6), true);
    assert_eq!(svlq.bits.get(7), true);
}

#[test]
fn svlq_can_encode_128() {
    // 0b1000 0000
    // 0b0100 0000 0b0000 0010
    let svlq = Svlq::from_i16(128);
    assert_eq!(svlq.bits.len(), 16);
    assert_eq!(svlq.bits.get(0), false);
    assert_eq!(svlq.bits.get(1), true);
    assert_eq!(svlq.bits.get(2), false);
    assert_eq!(svlq.bits.get(3), false);
    assert_eq!(svlq.bits.get(4), false);
    assert_eq!(svlq.bits.get(5), false);
    assert_eq!(svlq.bits.get(6), false);
    assert_eq!(svlq.bits.get(7), false);
    assert_eq!(svlq.bits.get(8), false);
    assert_eq!(svlq.bits.get(9), false);
    assert_eq!(svlq.bits.get(10), false);
    assert_eq!(svlq.bits.get(11), false);
    assert_eq!(svlq.bits.get(12), false);
    assert_eq!(svlq.bits.get(13), false);
    assert_eq!(svlq.bits.get(14), true);
    assert_eq!(svlq.bits.get(15), false);

    let svlq = Svlq::from_i32(128);
    assert_eq!(svlq.bits.len(), 16);
    assert_eq!(svlq.bits.get(0), false);
    assert_eq!(svlq.bits.get(1), true);
    assert_eq!(svlq.bits.get(2), false);
    assert_eq!(svlq.bits.get(3), false);
    assert_eq!(svlq.bits.get(4), false);
    assert_eq!(svlq.bits.get(5), false);
    assert_eq!(svlq.bits.get(6), false);
    assert_eq!(svlq.bits.get(7), false);
    assert_eq!(svlq.bits.get(8), false);
    assert_eq!(svlq.bits.get(9), false);
    assert_eq!(svlq.bits.get(10), false);
    assert_eq!(svlq.bits.get(11), false);
    assert_eq!(svlq.bits.get(12), false);
    assert_eq!(svlq.bits.get(13), false);
    assert_eq!(svlq.bits.get(14), true);
    assert_eq!(svlq.bits.get(15), false);

    let svlq = Svlq::from_i64(128);
    assert_eq!(svlq.bits.len(), 16);
    assert_eq!(svlq.bits.get(0), false);
    assert_eq!(svlq.bits.get(1), true);
    assert_eq!(svlq.bits.get(2), false);
    assert_eq!(svlq.bits.get(3), false);
    assert_eq!(svlq.bits.get(4), false);
    assert_eq!(svlq.bits.get(5), false);
    assert_eq!(svlq.bits.get(6), false);
    assert_eq!(svlq.bits.get(7), false);
    assert_eq!(svlq.bits.get(8), false);
    assert_eq!(svlq.bits.get(9), false);
    assert_eq!(svlq.bits.get(10), false);
    assert_eq!(svlq.bits.get(11), false);
    assert_eq!(svlq.bits.get(12), false);
    assert_eq!(svlq.bits.get(13), false);
    assert_eq!(svlq.bits.get(14), true);
    assert_eq!(svlq.bits.get(15), false);
}

#[test]
fn svlq_can_encode_33333() {
    let svlq = Svlq::from_i32(33333);
    // 33333 = 0b100 0001000 110101
    // vlq = 0b0 0b1 bottom 6, 0b1 next bottom 7, 0b0 remaining 7
    assert_eq!(svlq.bits.len(), 24);
    let str = bit_string(&svlq.bits);
    let expected = "011101011000100000000100".to_string();
    assert_eq!(str, expected);

    let svlq = Svlq::from_i64(33333);
    // 33333 = 0b10 0000100 0110101
    // vlq = 0b1 bottom 7, 0b1 next bottom 7, 0b0 remaining 7
    assert_eq!(svlq.bits.len(), 24);
    let str = bit_string(&svlq.bits);
    let expected = "011101011000100000000100".to_string();
    assert_eq!(str, expected);
}

#[test]
fn can_encode_neg_33333() {
    let svlq = Svlq::from_i32(-33333);
    // 33333 = 0b100 0001000 110101
    // vlq = 0b1 0b1 bottom 6, 0b1 next bottom 7, 0b0 remaining 7
    assert_eq!(svlq.bits.len(), 24);
    let str = bit_string(&svlq.bits);
    let expected = "111101011000100000000100".to_string();
    assert_eq!(str, expected);

    let svlq = Svlq::from_i64(-33333);
    // 33333 = 0b10 0000100 0110101
    // vlq = 0b1 bottom 7, 0b1 next bottom 7, 0b0 remaining 7
    assert_eq!(svlq.bits.len(), 24);
    let str = bit_string(&svlq.bits);
    let expected = "111101011000100000000100".to_string();
    assert_eq!(str, expected);
}

#[test]
fn svlq_can_decode_0() {
    // i8
    let svlq = Svlq::from_i8(0);
    let byte = svlq.try_into_i8().unwrap();
    assert_eq!(byte, 0);

    // i16
    let svlq = Svlq::from_i16(0);
    let byte = svlq.try_into_i16().unwrap();
    assert_eq!(byte, 0);

    // i32
    let svlq = Svlq::from_i32(0);
    let byte = svlq.try_into_i32().unwrap();
    assert_eq!(byte, 0);

    // i64
    let svlq = Svlq::from_i64(0);
    let byte = svlq.try_into_i64().unwrap();
    assert_eq!(byte, 0);
}

#[test]
fn svlq_can_decode_1() {
    // i8
    let svlq = Svlq::from_i32(-1);
    let byte = svlq.try_into_i8().unwrap();
    assert_eq!(byte, -1);

    // i16
    let svlq = Svlq::from_i32(-1);
    let byte = svlq.try_into_i16().unwrap();
    assert_eq!(byte, -1);

    // i32
    let svlq = Svlq::from_i32(-1);
    let byte = svlq.try_into_i32().unwrap();
    assert_eq!(byte, -1);

    // i64
    let svlq = Svlq::from_i32(-1);
    let byte = svlq.try_into_i64().unwrap();
    assert_eq!(byte, -1);
}

#[test]
fn can_decode_neg_1() {
    // i8
    let svlq = Svlq::from_i32(-1);
    let byte = svlq.try_into_i8().unwrap();
    assert_eq!(byte, -1);

    // i16
    let svlq = Svlq::from_i32(-1);
    let byte = svlq.try_into_i16().unwrap();
    assert_eq!(byte, -1);

    // i32
    let svlq = Svlq::from_i32(-1);
    let byte = svlq.try_into_i32().unwrap();
    assert_eq!(byte, -1);

    // i64
    let svlq = Svlq::from_i32(-1);
    let byte = svlq.try_into_i64().unwrap();
    assert_eq!(byte, -1);
}

#[test]
fn svlq_can_decode_127() {
    let svlq = Svlq::from_i32(127);
    let byte = svlq.try_into_i8().unwrap();
    assert_eq!(byte, 127);

    let svlq = Svlq::from_i32(127);
    let byte = svlq.try_into_i16().unwrap();
    assert_eq!(byte, 127);

    let svlq = Svlq::from_i32(127);
    let byte = svlq.try_into_i32().unwrap();
    assert_eq!(byte, 127);

    let svlq = Svlq::from_i32(127);
    let byte = svlq.try_into_i64().unwrap();
    assert_eq!(byte, 127);
}

#[test]
fn svlq_can_decode_128() {
    let svlq = Svlq::from_i64(128);
    let byte = svlq.try_into_i8();
    assert!(byte.is_err());

    let svlq = Svlq::from_i64(128);
    let byte = svlq.try_into_i16().unwrap();
    assert_eq!(byte, 128);

    let svlq = Svlq::from_i64(128);
    let byte = svlq.try_into_i32().unwrap();
    assert_eq!(byte, 128);

    let svlq = Svlq::from_i64(128);
    let byte = svlq.try_into_i64().unwrap();
    assert_eq!(byte, 128);
}

#[test]
fn can_decode_neg_128() {
    let svlq = Svlq::from_i64(-128);
    let byte = svlq.try_into_i8().unwrap();
    assert_eq!(byte, -128);

    let svlq = Svlq::from_i64(-128);
    let byte = svlq.try_into_i16().unwrap();
    assert_eq!(byte, -128);

    let svlq = Svlq::from_i64(-128);
    let byte = svlq.try_into_i32().unwrap();
    assert_eq!(byte, -128);

    let svlq = Svlq::from_i64(-128);
    let byte = svlq.try_into_i64().unwrap();
    assert_eq!(byte, -128);
}

#[test]
fn svlq_can_decode_255() {
    let svlq = Svlq::from_i32(255);
    let byte = svlq.try_into_i8();
    assert!(byte.is_err());

    let svlq = Svlq::from_i32(255);
    let byte = svlq.try_into_i16().unwrap();
    assert_eq!(byte, 255);

    let svlq = Svlq::from_i32(255);
    let byte = svlq.try_into_i32().unwrap();
    assert_eq!(byte, 255);

    let svlq = Svlq::from_i32(255);
    let byte = svlq.try_into_i64().unwrap();
    assert_eq!(byte, 255);
}

#[test]
fn svlq_can_convert_epoch_s() {
    let s: i64 = 1675528564;
    let svlq = Svlq::from_i64(s);
    let value = svlq.try_into_i32().unwrap();
    assert_eq!(value, s as i32);

    let svlq = Svlq::from_i64(s);
    let value = svlq.try_into_i64().unwrap();
    assert_eq!(value, s);
}

#[test]
fn svlq_can_convert_epoch_ms() {
    let ms: i64 = 1675528564000;
    let svlq = Svlq::from_i64(ms);
    let value = svlq.try_into_i32();
    assert!(value.is_err());

    let svlq = Svlq::from_i64(ms);
    let value = svlq.try_into_i64().unwrap();
    assert_eq!(value, ms);
}

#[test]
fn svlq_can_convert_epoch_us() {
    let us: i64 = 1675528564123456;
    let svlq = Svlq::from_i64(us);
    let value = svlq.try_into_i32();
    assert!(value.is_err());

    let svlq = Svlq::from_i64(us);
    let value = svlq.try_into_i64().unwrap();
    assert_eq!(value, us);
}

#[test]
fn can_convert_all_i8() {
    for i in -128i8..=127 {
        // println!("i: {}", i);
        let svlq = Svlq::from_i8(i);
        let value = svlq.try_into_i8().unwrap();
        assert_eq!(value, i);
    }
}

#[test]
fn can_convert_all_i16() {
    for i in -128i16..=127 {
        // println!("i: {}", i);
        let svlq = Svlq::from_i16(i);
        let value = svlq.try_into_i16().unwrap();
        assert_eq!(value, i);
    }

    for i in -32768i16..=32767 {
        // println!("i: {}", i);
        let svlq = Svlq::from_i16(i);
        let value = svlq.try_into_i16().unwrap();
        assert_eq!(value, i);
    }
}

#[test]
fn can_convert_all_i32() {
    for i in i8::MIN..=i8::MAX {
        // println!("i: {}", i);
        let svlq = Svlq::from_i8(i);
        let value = svlq.try_into_i32().unwrap();
        assert_eq!(value, i as i32);
    }

    for i in i16::MIN..=i16::MAX {
        // println!("i: {}", i);
        let svlq = Svlq::from_i16(i);
        let value = svlq.try_into_i32().unwrap();
        assert_eq!(value, i as i32);
    }

    let mut rng = rand::thread_rng();
    for _ in 0..100000 {
        let i = rng.gen_range(i32::MIN..=i32::MAX);
        let svlq = Svlq::from_i32(i);
        let value = svlq.try_into_i32().unwrap();
        assert_eq!(value, i as i32);
    }
}

#[test]
fn can_convert_all_i64() {
    for i in i8::MIN..=i8::MAX {
        let svlq = Svlq::from_i8(i);
        let value = svlq.try_into_i64().unwrap();
        assert_eq!(value, i as i64);
    }

    for i in i16::MIN..=i16::MAX {
        let svlq = Svlq::from_i16(i);
        let value = svlq.try_into_i64().unwrap();
        assert_eq!(value, i as i64);
    }

    let mut rng = rand::thread_rng();

    for _ in 0..100000 {
        let i = rng.gen_range(i32::MIN..=i32::MAX);
        let svlq = Svlq::from_i32(i);
        let value = svlq.try_into_i64().unwrap();
        assert_eq!(value, i as i64);
    }

    for _ in 0..100000 {
        let i = rng.gen_range(i64::MIN..=i64::MAX);
        let svlq = Svlq::from_i64(i);
        let value = svlq.try_into_i64().unwrap();
        assert_eq!(value, i as i64);
    }
}

#[test]
fn svlq_reader_takes_the_quantity_and_stops() {
    // -100 as an i8: magnitude 100 = 0b1_100100, two chunks
    let mut bits = Svlq::from_i8(-100).bits;
    assert_eq!(bit_string(&bits), "1110010000000001");
    // trailing bits are left alone
    bits.push(true);
    bits.push(false);
    let r = SvlqRef(bits.as_bitslice());
    assert_eq!(r.try_read_i8(), Ok((-100, 16)));
    assert_eq!(r.try_read_i64(), Ok((-100, 16)));

    // -128 fits an i8, -129 does not, 128 overflows it
    let b = Svlq::from_i16(-128).bits;
    assert_eq!(SvlqRef(b.as_bitslice()).try_read_i8(), Ok((-128, 16)));
    let b = Svlq::from_i16(-129).bits;
    assert_eq!(SvlqRef(b.as_bitslice()).try_read_i8(), Err("Signed VLQ value out of bit range"));
    let b = Svlq::from_i16(128).bits;
    assert_eq!(SvlqRef(b.as_bitslice()).try_read_i8(), Err("Signed VLQ bit overflow"));
    let b = Svlq::from_i16(-256).bits;
    assert_eq!(SvlqRef(b.as_bitslice()).try_read_i8(), Err("Signed VLQ bit overflow"));

    // extremes of i64
    for v in [i64::MIN, i64::MAX, i64::MIN + 1, -64, 63, 64] {
        let b = Svlq::from_i64(v).bits;
        let n = b.len();
        assert_eq!(SvlqRef(b.as_bitslice()).try_read_i64(), Ok((v, n)));
    }
    assert_eq!(Svlq::from_i64(i64::MIN).bits.len(), 80);

    // fewer than eight bits read as zero, taking none
    let mut short = BitBuffer::new();
    short.push(true);
    assert_eq!(SvlqRef(short.as_bitslice()).try_read_i32(), Ok((0, 0)));
}

#[test]
fn all_i8_and_i16_read_back_from_a_stream() {
    for v in i16::MIN..=i16::MAX {
        let mut b = Svlq::from_i16(v).bits;
        let n = b.len();
        b.push(true);
        assert_eq!(SvlqRef(b.as_bitslice()).try_read_i16(), Ok((v, n)));
        if let Ok(x) = i8::try_from(v) {
            assert_eq!(SvlqRef(b.as_bitslice()).try_read_i8(), Ok((x, n)));
        }
    }
}
