use tsz_compress::v2::consts::headers;
use tsz_compress::v2::encode::EmitDeltaBits;
use tsz_compress::v2::halfvec::{HalfVec, HalfWord};
use tsz_compress::v2::queue::CompressionQueue;

#[test]
fn halfvec_can_init() {
    let queue = HalfVec::new(128);
    assert_eq!(queue.len(), 0);
    assert_eq!(queue.is_empty(), true);
}

#[test]
fn can_push() {
    let mut queue = HalfVec::new(128);
    assert_eq!(queue.len(), 0);
    assert_eq!(queue.is_empty(), true);

    for i in 0..128 {
        queue.push(HalfWord::Half(i as u8));
        assert_eq!(queue.len(), i + 1);
        assert_eq!(queue.is_empty(), false);
    }

    for i in 0..128 {
        queue.push(HalfWord::Full(i as u32));
        assert_eq!(queue.len(), 128 + (i + 1) * 8);
        assert_eq!(queue.is_empty(), false);
    }

    queue.push(HalfWord::Half(15));
    assert!(queue.len() % 2 == 1);
    // End on the byte
    queue.push(HalfWord::Half(0));

    // Now every nibble is pushed together
    let mut bytes = Vec::new();
    HalfVec::finish(&mut bytes, &[&queue]);
    assert_eq!(bytes.len(), (128 + 8 * 128 + 1 + 1) / 2);
}

#[test]
fn can_push_with_header() {
    let mut queue = HalfVec::new(128);
    assert_eq!(queue.len(), 0);
    assert_eq!(queue.is_empty(), true);

    for i in 0..128 {
        queue.push(HalfWord::Half(i as u8));
        assert_eq!(queue.len(), i + 1);
        assert_eq!(queue.is_empty(), false);
    }

    for i in 0..128 {
        queue.push(HalfWord::Full(i as u32));
        assert_eq!(queue.len(), 128 + (i + 1) * 8);
        assert_eq!(queue.is_empty(), false);
    }

    queue.push(HalfWord::Half(15));
    assert!(queue.len() % 2 == 1);
    // End on the byte
    queue.push(HalfWord::Half(0));

    // Now every nibble is pushed together
    let mut bytes = Vec::new();
    bytes.push(0xDE);
    bytes.push(0xAD);
    bytes.push(0xBE);
    bytes.push(0xEF);
    HalfVec::finish(&mut bytes, &[&queue]);
    assert_eq!(bytes.len(), 4 + ((128 + 8 * 128 + 1 + 1) / 2));
    assert_eq!(bytes[0], 0xDE);
    assert_eq!(bytes[1], 0xAD);
    assert_eq!(bytes[2], 0xBE);
    assert_eq!(bytes[3], 0xEF);
}

fn emit_delta_i32(values: Vec<i32>) -> HalfVec {
    // Create queue
    let mut queue: CompressionQueue<10> = CompressionQueue::new();

    // Push values into queue
    for value in &values {
        queue.push(*value);
    }

    // Initialize bit buffer
    let mut bits = HalfVec::new(8);

    // Encode
    queue.emit_delta_bits(&mut bits);

    bits
}

#[test]
fn halfvec_test_emit_delta_i32_sanity1() {
    // Encode 10 samples between [-4, 3] in 3 bits
    let values = vec![-3, 2, 0, 1, 2, -3, -1, -2, -4, -3];

    let encoded_halfvec = emit_delta_i32(values);

    let mut expected_halfvec = HalfVec::new(8);
    expected_halfvec.push(HalfWord::Half(headers::THREE_BITS_TEN_SAMPLES));

    // Zigzag values: [5, 4, 0, 2, 4, 5, 1, 3, 7, 5]
    // Binary of zigzag values: 00 101 100 000 010 100 101 001 011 111 101
    let full_value = 0x2C0A_52FD;
    expected_halfvec.push(HalfWord::Full(full_value));

    assert_eq!(encoded_halfvec, expected_halfvec);
}

#[test]
fn halfvec_test_emit_delta_i32_sanity2() {
    // Encode 5 samples between [-32, 31] in 6 bits
    let values = vec![-32, 31, 16, 1, 2];

    let encoded_halfvec = emit_delta_i32(values);

    let mut expected_halfvec = HalfVec::new(8);
    expected_halfvec.push(HalfWord::Half(headers::SIX_BITS_FIVE_SAMPLES));

    // Zigzag values: [63, 62, 32, 2, 4]
    // Binary of zigzag values: 111111 111110 100000 000010 000100
    let full_value = 0x3FFA_0084;
    expected_halfvec.push(HalfWord::Full(full_value));

    assert_eq!(encoded_halfvec, expected_halfvec);
}

#[test]
fn halfvec_test_emit_delta_i32_sanity3() {
    // Encode 4 samples between [-128, 127] in 8 bits
    let values = vec![-128, 127, 64, 1];

    let encoded_halfvec = emit_delta_i32(values);

    let mut expected_halfvec = HalfVec::new(8);
    expected_halfvec.push(HalfWord::Half(headers::EIGHT_BITS_FOUR_SAMPLES));

    // Zigzag values: [255, 254, 128, 2]
    // Binary of zigzag values: 11111111 11111110 10000000 00000010
    let full_value = 0xFFFE_8002;
    expected_halfvec.push(HalfWord::Full(full_value));

    assert_eq!(encoded_halfvec, expected_halfvec);
}

#[test]
fn halfvec_test_emit_delta_i32_sanity4() {
    // Encode 3 samples between [-512, 511] in 10 bits
    let values = vec![-512, 511, 256];

    let encoded_halfvec = emit_delta_i32(values);

    let mut expected_halfvec = HalfVec::new(8);
    expected_halfvec.push(HalfWord::Half(headers::TEN_BITS_THREE_SAMPLES));

    // Zigzag values: [1023, 1022, 512]
    // Binary of zigzag values: 1111111111 1111111110 1000000000
    let full_value = 0x3FFF_FA00;
    expected_halfvec.push(HalfWord::Full(full_value));

    assert_eq!(encoded_halfvec, expected_halfvec);
}

#[test]
fn halfvec_test_emit_delta_i32_sanity5() {
    // Encode 2 samples between [-32768, 32767] in 16 bits
    let values = vec![-32768, 32767];

    let encoded_halfvec = emit_delta_i32(values);

    let mut expected_halfvec = HalfVec::new(8);
    expected_halfvec.push(HalfWord::Half(headers::SIXTEEN_BITS_TWO_SAMPLES));

    // Zigzag values: [65535, 65534]
    // Binary of zigzag values: 1111111111111111 1111111111111110
    let full_value = 0xFFFF_FFFE;
    expected_halfvec.push(HalfWord::Full(full_value));

    assert_eq!(encoded_halfvec, expected_halfvec);
}

#[test]
fn halfvec_test_emit_delta_i32_sanity6() {
    // One sample too wide for two 16-bit samples
    let values = vec![i32::MIN / 4, 1, 1, 1];

    let encoded_halfvec = emit_delta_i32(values);

    let mut expected_halfvec = HalfVec::new(8);
    expected_halfvec.push(HalfWord::Half(headers::THIRTY_TWO_BITS_ONE_SAMPLE));

    // Zigzag values: [-1 * i32::MIN / 2]
    let full_value = 0x3FFFFFFF;
    expected_halfvec.push(HalfWord::Full(full_value));

    assert_eq!(encoded_halfvec, expected_halfvec);
}
