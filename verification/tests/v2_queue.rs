use std::collections::VecDeque;
use rand::Rng;
use tsz_compress::v2::encode::Bits;
use tsz_compress::v2::greedy_delta_v2::Queue;
use tsz_compress::v2::queue::CompressionQueue;

#[test]
fn queue_can_init() {
    let queue: CompressionQueue<10> = CompressionQueue::new();
    assert_eq!(queue.len(), 0);
    assert_eq!(queue.is_full(), false);
    assert_eq!(queue.is_empty(), true);
}

#[test]
fn fuzz() {
    let mut rng = rand::thread_rng();
    let mut std_queue: VecDeque<u64> = VecDeque::new();
    let mut queue: CompressionQueue<10> = CompressionQueue::new();
    for _ in 0..10000 {
        let value = rng.gen::<i32>();
        let zig_zag_value = value.zigzag();
        if rng.gen::<bool>() {
            std_queue.push_back(zig_zag_value);
            if queue.len() == 16 {
                assert_eq!(std_queue.pop_front(), queue.pop());
            }
            queue.push(value);
        } else {
            assert_eq!(std_queue.pop_front(), queue.pop());
        }
        assert_eq!(std_queue.len(), queue.len());

        for _ in 0..queue.len() {
            assert_eq!(std_queue.pop_front(), queue.pop());
        }
    }
}

#[test]
fn queue_overwrites_oldest_past_sixteen() {
    let mut queue: CompressionQueue<10> = CompressionQueue::new();
    for i in 0..20i32 {
        queue.push(i);
        assert_eq!(queue.is_full(), i + 1 >= 10);
    }
    assert_eq!(queue.len(), 16);
    // The oldest four codes were overwritten: 4 comes out first, as code 8.
    assert_eq!(queue.pop(), Some(8));
    let rest = queue.pop_n(3);
    assert_eq!(rest, vec![10, 12, 14]);
    assert_eq!(queue.peak_bitcounts(2), vec![5, 5]);
    assert_eq!(queue.len(), 12);
}

#[test]
fn zigzag_bits_count_significant_bits() {
    assert_eq!(0i8.zigzag_bits(), (0, 0));
    assert_eq!((-1i16).zigzag_bits(), (1, 1));
    assert_eq!(64i32.zigzag_bits(), (128, 8));
    assert_eq!(i64::MIN.zigzag_bits(), (u64::MAX, 64));
}

#[test]
fn test_init_push_pop() {
    const SIZE: usize = 10;
    let mut queue: Queue<usize, SIZE> = Queue::new();
    let pushed_value = 8;
    queue.push(pushed_value);
    let popped_value = queue.pop().unwrap();
    assert_eq!(pushed_value, popped_value);
}

#[test]
fn test_is_full() {
    const SIZE: usize = 10;
    let mut queue: Queue<usize, SIZE> = Queue::new();
    for value in 0..SIZE {
        queue.push(value);
    }
    assert!(queue.is_full());
}

#[test]
fn test_is_not_full() {
    const SIZE: usize = 10;
    let mut queue: Queue<usize, SIZE> = Queue::new();
    for value in 0..SIZE - 1 {
        queue.push(value);
    }
    assert!(!queue.is_full());
}

#[test]
fn greedy_queue_is_first_in_first_out() {
    let mut queue: Queue<i16, 3> = Queue::new();
    assert_eq!(queue.pop(), None);
    queue.push(-1);
    queue.push(2);
    queue.push(7);
    assert!(queue.is_full());
    assert_eq!(queue.pop(), Some(-1));
    queue.push(9);
    assert_eq!(queue.pop(), Some(2));
    assert_eq!(queue.pop(), Some(7));
    assert_eq!(queue.pop(), Some(9));
    assert_eq!(queue.pop(), None);
}

#[test]
fn can_choose_zigzag_bits() {
    let num_bits = |i: i32| match i {
        -128..=127 => 8,
        -32768..=32767 => 16,
        _ => 32,
    };

    assert_eq!(num_bits(0), 8);
}
