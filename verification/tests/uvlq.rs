use rand::Rng;
use tsz_compress::bits::BitBuffer;
use tsz_compress::uvlq::{Uvlq, UvlqRef};

fn bit_string(bits: &BitBuffer) -> String {
    let mut s = String::new();
    for i in 0..bits.len() {
        s.push(if bits.get(i) { '1' } else { '0' });
    }
    s
}

#[test]
fn uvlq_can_encode_0() {
    let uvlq = Uvlq::from_u32(0);
    assert_eq!(uvlq.bits.len(), 8);
    assert_eq!(uvlq.bits.get(0), false);
    assert_eq!(uvlq.bits.get(1), false);
    assert_eq!(uvlq.bits.get(2), false);
    assert_eq!(uvlq.bits.get(3), false);
    assert_eq!(uvlq.bits.get(4), false);
    assert_eq!(uvlq.bits.get(5), false);
    assert_eq!(uvlq.bits.get(6), false);
    assert_eq!(uvlq.bits.get(7), false);

    let uvlq = Uvlq::from_u64(0);
    assert_eq!(uvlq.bits.len(), 8);
    assert_eq!(uvlq.bits.get(0), false);
    assert_eq!(uvlq.bits.get(1), false);
    assert_eq!(uvlq.bits.get(2), false);
    assert_eq!(uvlq.bits.get(3), false);
    assert_eq!(uvlq.bits.get(4), false);
    assert_eq!(uvlq.bits.get(5), false);
    assert_eq!(uvlq.bits.get(6), false);
    assert_eq!(uvlq.bits.get(7), false);
}

#[test]
fn uvlq_can_encode_1() {
    let uvlq = Uvlq::from_u32(1);
    assert_eq!(uvlq.bits.len(), 8);
    assert_eq!(uvlq.bits.get(0), false);
    assert_eq!(uvlq.bits.get(1), false);
    assert_eq!(uvlq.bits.get(2), false);
    assert_eq!(uvlq.bits.get(3), false);
    assert_eq!(uvlq.bits.get(4), false);
    assert_eq!(uvlq.bits.get(5), false);
    assert_eq!(uvlq.bits.get(6), false);
    assert_eq!(uvlq.bits.get(7), true);

    let uvlq = Uvlq::from_u64(1);
    assert_eq!(uvlq.bits.len(), 8);
    assert_eq!(uvlq.bits.get(0), false);
    assert_eq!(uvlq.bits.get(1), false);
    assert_eq!(uvlq.bits.get(2), false);
    assert_eq!(uvlq.bits.get(3), false);
    assert_eq!(uvlq.bits.get(4), false);
    assert_eq!(uvlq.bits.get(5), false);
    assert_eq!(uvlq.bits.get(6), false);
    assert_eq!(uvlq.bits.get(7), true);
}

#[test]
fn uvlq_can_encode_127() {
    let uvlq = Uvlq::from_u32(127);
    assert_eq!(uvlq.bits.len(), 8);
    assert_eq!(uvlq.bits.get(0), false);
    assert_eq!(uvlq.bits.get(1), true);
    assert_eq!(uvlq.bits.get(2), true);
    assert_eq!(uvlq.bits.get(3), true);
    assert_eq!(uvlq.bits.get(4), true);
    assert_eq!(uvlq.bits.get(5), true);
    assert_eq!(uvlq.bits.get(6), true);
    assert_eq!(uvlq.bits.get(7), true);

    let uvlq = Uvlq::from_u64(127);
    assert_eq!(uvlq.bits.len(), 8);
    assert_eq!(uvlq.bits.get(0), false);
    assert_eq!(uvlq.bits.get(1), true);
    assert_eq!(uvlq.bits.get(2), true);
    assert_eq!(uvlq.bits.get(3), true);
    assert_eq!(uvlq.bits.get(4), true);
    assert_eq!(uvlq.bits.get(5), true);
    assert_eq!(uvlq.bits.get(6), true);
    assert_eq!(uvlq.bits.get(7), true);
}

#[test]
fn uvlq_can_encode_128() {
    let uvlq = Uvlq::from_u32(128);
    assert_eq!(uvlq.bits.len(), 16);
    assert_eq!(uvlq.bits.get(0), true);
    assert_eq!(uvlq.bits.get(1), false);
    assert_eq!(uvlq.bits.get(2), false);
    assert_eq!(uvlq.bits.get(3), false);
    assert_eq!(uvlq.bits.get(4), false);
    assert_eq!(uvlq.bits.get(5), false);
    assert_eq!(uvlq.bits.get(6), false);
    assert_eq!(uvlq.bits.get(7), false);
    assert_eq!(uvlq.bits.get(8), false);
    assert_eq!(uvlq.bits.get(9), false);
    assert_eq!(uvlq.bits.get(10), false);
    assert_eq!(uvlq.bits.get(11), false);
    assert_eq!(uvlq.bits.get(12), false);
    assert_eq!(uvlq.bits.get(13), false);
    assert_eq!(uvlq.bits.get(14), false);
    assert_eq!(uvlq.bits.get(15), true);

    let uvlq = Uvlq::from_u64(128);
    assert_eq!(uvlq.bits.len(), 16);
    assert_eq!(uvlq.bits.get(0), true);
    assert_eq!(uvlq.bits.get(1), false);
    assert_eq!(uvlq.bits.get(2), false);
    assert_eq!(uvlq.bits.get(3), false);
    assert_eq!(uvlq.bits.get(4), false);
    assert_eq!(uvlq.bits.get(5), false);
    assert_eq!(uvlq.bits.get(6), false);
    assert_eq!(uvlq.bits.get(7), false);
    assert_eq!(uvlq.bits.get(8), false);
    assert_eq!(uvlq.bits.get(9), false);
    assert_eq!(uvlq.bits.get(10), false);
    assert_eq!(uvlq.bits.get(11), false);
    assert_eq!(uvlq.bits.get(12), false);
    assert_eq!(uvlq.bits.get(13), false);
    assert_eq!(uvlq.bits.get(14), false);
    assert_eq!(uvlq.bits.get(15), true);
}

#[test]
fn uvlq_can_encode_33333() {
    let uvlq = Uvlq::from_u32(33333);
    // 33333 = 0b10 0000100 0110101
    // vlq = 0b1 bottom 7, 0b1 next bottom 7, 0b0 remaining 7
    assert_eq!(uvlq.bits.len(), 24);
    let str = bit_string(&uvlq.bits);
    let expected = "101101011000010000000010".to_string();
    assert_eq!(str, expected);

    let uvlq = Uvlq::from_u64(33333);
    // 33333 = 0b10 0000100 0110101
    // vlq = 0b1 bottom 7, 0b1 next bottom 7, 0b0 remaining 7
    assert_eq!(uvlq.bits.len(), 24);
    let str = bit_string(&uvlq.bits);
    let expected = "101101011000010000000010".to_string();
    assert_eq!(str, expected);
}

#[test]
fn uvlq_can_decode_0() {
    // u8
    let uvlq = Uvlq::from_u32(0);
    let byte = uvlq.try_into_u8().unwrap();
    assert_eq!(byte, 0);

    // u16
    let uvlq = Uvlq::from_u32(0);
    let byte = uvlq.try_into_u16().unwrap();
    assert_eq!(byte, 0);

    // u32
    let uvlq = Uvlq::from_u32(0);
    let byte = uvlq.try_into_u32().unwrap();
    assert_eq!(byte, 0);

    // u64
    let uvlq = Uvlq::from_u32(0);
    let byte = uvlq.try_into_u64().unwrap();
    assert_eq!(byte, 0);
}

#[test]
fn uvlq_can_decode_1() {
    // u8
    let uvlq = Uvlq::from_u64(1);
    let byte = uvlq.try_into_u8().unwrap();
    assert_eq!(byte, 1);

    // u16
    let uvlq = Uvlq::from_u64(1);
    let byte = uvlq.try_into_u16().unwrap();
    assert_eq!(byte, 1);

    // u32
    let uvlq = Uvlq::from_u64(1);
    let byte = uvlq.try_into_u32().unwrap();
    assert_eq!(byte, 1);

    // u64
    let uvlq = Uvlq::from_u64(1);
    let byte = uvlq.try_into_u64().unwrap();
    assert_eq!(byte, 1);
}

#[test]
fn uvlq_can_decode_127() {
    let uvlq = Uvlq::from_u32(127);
    let byte = uvlq.try_into_u8().unwrap();
    assert_eq!(byte, 127);

    let uvlq = Uvlq::from_u32(127);
    let byte = uvlq.try_into_u16().unwrap();
    assert_eq!(byte, 127);

    let uvlq = Uvlq::from_u32(127);
    let byte = uvlq.try_into_u32().unwrap();
    assert_eq!(byte, 127);

    let uvlq = Uvlq::from_u32(127);
    let byte = uvlq.try_into_u64().unwrap();
    assert_eq!(byte, 127);
}

#[test]
fn uvlq_can_decode_128() {
    let uvlq = Uvlq::from_u64(128);
    let byte = uvlq.try_into_u8().unwrap();
    assert_eq!(byte, 128);

    let uvlq = Uvlq::from_u64(128);
    let byte = uvlq.try_into_u16().unwrap();
    assert_eq!(byte, 128);

    let uvlq = Uvlq::from_u64(128);
    let byte = uvlq.try_into_u32().unwrap();
    assert_eq!(byte, 128);

    let uvlq = Uvlq::from_u64(128);
    let byte = uvlq.try_into_u64().unwrap();
    assert_eq!(byte, 128);
}

#[test]
fn uvlq_can_decode_255() {
    let uvlq = Uvlq::from_u32(255);
    let byte = uvlq.try_into_u8().unwrap();
    assert_eq!(byte, 255);

    let uvlq = Uvlq::from_u32(255);
    let byte = uvlq.try_into_u16().unwrap();
    assert_eq!(byte, 255);

    let uvlq = Uvlq::from_u32(255);
    let byte = uvlq.try_into_u32().unwrap();
    assert_eq!(byte, 255);

    let uvlq = Uvlq::from_u32(255);
    let byte = uvlq.try_into_u64().unwrap();
    assert_eq!(byte, 255);
}

#[test]
fn uvlq_cant_decode_256_as_u8() {
    let uvlq = Uvlq::from_u64(256);
    let byte = uvlq.try_into_u8();
    assert!(byte.is_err());
}

#[test]
fn uvlq_can_decode_256_above_u8() {
    let uvlq = Uvlq::from_u32(256);
    let value = uvlq.try_into_u16().unwrap();
    assert_eq!(value, 256);

    let uvlq = Uvlq::from_u32(256);
    let value = uvlq.try_into_u32().unwrap();
    assert_eq!(value, 256);

    let uvlq = Uvlq::from_u32(256);
    let value = uvlq.try_into_u64().unwrap();
    assert_eq!(value, 256);
}

#[test]
fn uvlq_cant_decode_33333_as_u8() {
    let uvlq = Uvlq::from_u64(33333);
    let byte = uvlq.try_into_u8();
    assert!(byte.is_err());
}

#[test]
fn uvlq_can_decode_33333_above_u8() {
    let uvlq = Uvlq::from_u64(33333);
    let value = uvlq.try_into_u16().unwrap();
    assert_eq!(value, 33333);

    let uvlq = Uvlq::from_u64(33333);
    let value = uvlq.try_into_u32().unwrap();
    assert_eq!(value, 33333);

    let uvlq = Uvlq::from_u64(33333);
    let value = uvlq.try_into_u64().unwrap();
    assert_eq!(value, 33333);
}

#[test]
fn uvlq_can_convert_epoch_s() {
    let s = 1675528564;
    let uvlq = Uvlq::from_u64(s);
    let value = uvlq.try_into_u32().unwrap();
    assert_eq!(value, s as u32);

    let uvlq = Uvlq::from_u64(s);
    let value = uvlq.try_into_u64().unwrap();
    assert_eq!(value, s);
}

#[test]
fn uvlq_can_convert_epoch_ms() {
    let ms = 1675528564000;
    let uvlq = Uvlq::from_u64(ms);
    let value = uvlq.try_into_u32();
    assert!(value.is_err());

    let uvlq = Uvlq::from_u64(ms);
    let value = uvlq.try_into_u64().unwrap();
    assert_eq!(value, ms);
}

#[test]
fn uvlq_can_convert_epoch_us() {
    let us = 1675528564123456;
    let uvlq = Uvlq::from_u64(us);
    let value = uvlq.try_into_u32();
    assert!(value.is_err());

    let uvlq = Uvlq::from_u64(us);
    let value = uvlq.try_into_u64().unwrap();
    assert_eq!(value, us);
}

#[test]
fn can_convert_all_u8() {
    for i in u8::MIN..=u8::MAX {
        // println!("i: {}", i);
        let svlq = Uvlq::from_u8(i);
        let value = svlq.try_into_u8().unwrap();
        assert_eq!(value, i);
    }
}

#[test]
fn can_convert_all_u16() {
    for i in u8::MIN..=u8::MAX {
        // println!("i: {}", i);
        let svlq = Uvlq::from_u8(i);
        let value = svlq.try_into_u16().unwrap();
        assert_eq!(value, i as u16);
    }

    for i in u16::MIN..=u16::MAX {
        // println!("i: {}", i);
        let svlq = Uvlq::from_u16(i);
        let value = svlq.try_into_u16().unwrap();
        assert_eq!(value, i);
    }
}

#[test]
fn can_encode_all_u16() {
    let mut bits = BitBuffer::new();

    for i in u16::MIN..=u16::MAX {
        let svlq = Uvlq::from_u16(i);
        for k in 0..svlq.bits.len() {
            bits.push(svlq.bits.get(k));
        }
    }

    let mut bits = bits.as_bitslice();
    for i in u16::MIN..=u16::MAX {
        let (vu16, vu16_bits) = UvlqRef(bits).try_read_u16().unwrap();
        bits = bits.skip(vu16_bits);
        assert_eq!(vu16, i);
    }
}

#[test]
fn can_convert_all_u32() {
    for i in u8::MIN..=u8::MAX {
        // println!("i: {}", i);
        let svlq = Uvlq::from_u8(i);
        let value = svlq.try_into_u32().unwrap();
        assert_eq!(value, i as u32);
    }

    for i in u16::MIN..=u16::MAX {
        // println!("i: {}", i);
        let svlq = Uvlq::from_u16(i);
        let value = svlq.try_into_u32().unwrap();
        assert_eq!(value, i as u32);
    }

    let mut rng = rand::thread_rng();
    for _ in 0..100000 {
        let i = rng.gen_range(u32::MIN..=u32::MAX);
        let svlq = Uvlq::from_u32(i);
        let value = svlq.try_into_u32().unwrap();
        assert_eq!(value, i as u32);
    }
}

#[test]
fn can_convert_all_u64() {
    for i in u8::MIN..=u8::MAX {
        println!("i: {}", i);
        let svlq = Uvlq::from_u8(i);
        let value = svlq.try_into_u64().unwrap();
        assert_eq!(value, i as u64);
    }

    for i in u16::MIN..=u16::MAX {
        println!("i: {}", i);
        let svlq = Uvlq::from_u16(i);
        let value = svlq.try_into_u64().unwrap();
        assert_eq!(value, i as u64);
    }

    let mut rng = rand::thread_rng();
    for _ in 0..100000 {
        let i = rng.gen_range(u32::MIN..=u32::MAX);
        let svlq = Uvlq::from_u32(i);
        let value = svlq.try_into_u64().unwrap();
        assert_eq!(value, i as u64);
    }

    for _ in 0..100000 {
        let i = rng.gen_range(u64::MIN..=u64::MAX);
        let svlq = Uvlq::from_u64(i);
        let value = svlq.try_into_u64().unwrap();
        assert_eq!(value, i);
    }
}

#[test]
fn uvlq_u128_round_trip_and_width_errors() {
    let v = u128::MAX;
    let uvlq = Uvlq::from_u128(v);
    assert_eq!(uvlq.bits.len(), 8 * 19);
    assert_eq!(uvlq.try_into_u128(), Ok(v));
    assert_eq!(Uvlq::from_u128(1 << 70).try_into_u64(), Err(()));
    assert_eq!(Uvlq::from_u16(u16::MAX).try_into_u8(), Err(()));
    assert_eq!(Uvlq::from_u16(u16::MAX).try_into_u16(), Ok(u16::MAX));
}

#[test]
fn uvlq_reader_reports_bits_taken_and_overflow() {
    let mut bits = BitBuffer::new();
    let a = Uvlq::from_u32(300);
    let b = Uvlq::from_u32(5);
    for k in 0..a.bits.len() {
        bits.push(a.bits.get(k));
    }
    for k in 0..b.bits.len() {
        bits.push(b.bits.get(k));
    }
    let slice = bits.as_bitslice();
    assert_eq!(UvlqRef(slice).try_read_u32(), Ok((300, 16)));
    assert_eq!(UvlqRef(slice.skip(16)).try_read_u8(), Ok((5, 8)));
    assert_eq!(UvlqRef(slice).try_read_u8(), Err("Unsigned VLQ bit overflow"));
    let empty = BitBuffer::new();
    assert_eq!(UvlqRef(empty.as_bitslice()).try_read_u64(), Ok((0, 0)));
}
