use tsz_compress::v2::encode::{EmitDeltaBits, EmitDeltaDeltaBits};
use tsz_compress::v2::halfvec::{HalfVec, HalfWord};
use tsz_compress::v2::queue::CompressionQueue;

fn emit_delta_i32(values: Vec<i32>) -> HalfVec {
    // Create queue
    let mut queue: CompressionQueue<10> = CompressionQueue::new();

    // Push values into queue
    for value in &values {
        queue.push(*value);
    }

    // Initialize bit buffer
    let mut bits = HalfVec::new(8);

    // Encode
    queue.emit_delta_bits(&mut bits);

    return bits;
}

#[test]
fn tests_test_emit_delta_i32_sanity1() {
    // Encode 10 samples between [-4, 3] in 3 bits
    let values = vec![-3, 2, 0, 1, 2, -3, -1, -2, -4, -3];
    let encoded_halfvec = emit_delta_i32(values);
    let mut expected_halfvec = HalfVec::new(8);
    expected_halfvec.push(HalfWord::Half(0b1111));
    // Zigzag values: [5, 4, 0, 2, 4, 5, 1, 3, 7, 5]
    let full_value = 0b00101100000010100101001011111101;
    expected_halfvec.push(HalfWord::Full(full_value));
    assert_eq!(encoded_halfvec, expected_halfvec);
}

#[test]
fn tests_test_emit_delta_i32_sanity2() {
    // Encode 5 samples between [-32, 31] in 6 bits
    let values = vec![-32, 31, 16, 1, 2];
    let encoded_halfvec = emit_delta_i32(values);
    let mut expected_halfvec = HalfVec::new(8);
    expected_halfvec.push(HalfWord::Half(0b1110));
    // Zigzag values: [63, 62, 32, 2, 4]
    let full_value = 0b00111111111110100000000010000100;
    expected_halfvec.push(HalfWord::Full(full_value));
    assert_eq!(encoded_halfvec, expected_halfvec);
}

#[test]
fn tests_test_emit_delta_i32_sanity3() {
    // Encode 4 samples between [-128, 127] in 8 bits
    let values = vec![-128, 127, 64, 1];
    let encoded_halfvec = emit_delta_i32(values);
    let mut expected_halfvec = HalfVec::new(8);
    expected_halfvec.push(HalfWord::Half(0b1100));
    // Zigzag values: [255, 254, 128, 2]
    let full_value = 0b11111111111111101000000000000010;
    expected_halfvec.push(HalfWord::Full(full_value));
    assert_eq!(encoded_halfvec, expected_halfvec);
}

#[test]
fn tests_test_emit_delta_i32_sanity4() {
    // Encode 3 samples between [-512, 511] in 10 bits
    let values = vec![-512, 511, 256];
    let encoded_halfvec = emit_delta_i32(values);
    let mut expected_halfvec = HalfVec::new(8);
    expected_halfvec.push(HalfWord::Half(0b1010));
    // Zigzag values: [1023, 1022, 512]
    let full_value = 0b00111111111111111111101000000000;
    expected_halfvec.push(HalfWord::Full(full_value));
    assert_eq!(encoded_halfvec, expected_halfvec);
}

#[test]
fn tests_test_emit_delta_i32_sanity5() {
    // Encode 2 samples between [-32768, 32767] in 16 bits
    let values = vec![-32768, 32767];
    let encoded_halfvec = emit_delta_i32(values);
    let mut expected_halfvec = HalfVec::new(8);
    expected_halfvec.push(HalfWord::Half(0b1000));
    // Zigzag values: [65535, 65534]
    let full_value = 0b11111111111111111111111111111110;
    expected_halfvec.push(HalfWord::Full(full_value));
    assert_eq!(encoded_halfvec, expected_halfvec);
}

#[test]
fn tests_test_emit_delta_i32_sanity6() {
    // One sample too wide for two 16-bit samples
    let values = vec![i32::MIN / 4, 1, 1, 1];
    let encoded_halfvec = emit_delta_i32(values);
    let mut expected_halfvec = HalfVec::new(8);
    expected_halfvec.push(HalfWord::Half(0b1011));
    // Zigzag values: [-1 * i32::MIN / 2]
    let full_value = 0b00111111111111111111111111111111;
    expected_halfvec.push(HalfWord::Full(full_value));
    assert_eq!(encoded_halfvec, expected_halfvec);
}

#[test]
fn emit_sixty_four_bit_sample() {
    let mut queue: CompressionQueue<10> = CompressionQueue::new();
    queue.push(i64::MIN);
    let mut bits = HalfVec::new(8);
    assert_eq!(queue.emit_delta_bits(&mut bits), 1);
    let mut expected = HalfVec::new(8);
    expected.push(HalfWord::Half(0b1101));
    expected.push(HalfWord::Full(u32::MAX));
    expected.push(HalfWord::Full(u32::MAX));
    assert_eq!(bits, expected);
    assert!(queue.is_empty());
}

#[test]
fn flush_uses_only_live_codes() {
    let mut queue: CompressionQueue<10> = CompressionQueue::new();
    queue.push(1i8);
    queue.push(-1i8);
    queue.push(0i8);
    let mut bits = HalfVec::new(8);
    // Three codes of at most two bits fit a block of three samples.
    assert_eq!(queue.flush_delta_bits(&mut bits), 3);
    let mut expected = HalfVec::new(8);
    expected.push(HalfWord::Half(0b1010));
    expected.push(HalfWord::Full((2 << 20) | (1 << 10)));
    assert_eq!(bits, expected);
    assert_eq!(queue.flush_delta_bits(&mut bits), 0);
}

#[test]
fn emit_delta_delta_codes_by_size() {
    let mut queue: CompressionQueue<2> = CompressionQueue::new();
    queue.push(0i32);
    queue.push(-3i32);
    let mut bits = HalfVec::new(8);
    assert_eq!(queue.emit_delta_delta_bits(&mut bits), 2);
    let mut expected = HalfVec::new(8);
    expected.push(HalfWord::Half(0b0000));
    // Zigzag of -3 is 5: five bits or fewer
    expected.push(HalfWord::Byte(0b0010_0101));
    assert_eq!(bits, expected);
    assert_eq!(queue.emit_delta_delta_bits(&mut bits), 0);
}
