use bitkit::hamming::{distance_bytes, distance_u64, distance_u8, distance_words};

#[test]
fn distance_u8_of_five_and_seven() {
    assert_eq!(distance_u8(5, 7), 1);
}

#[test]
fn distance_u64_of_five_and_seven() {
    assert_eq!(distance_u64(5, 7), 1);
}

#[test]
fn distance_bytes_sample() {
    assert_eq!(distance_bytes(vec![1u8, 2, 3], vec![1u8, 3, 1]), 2);
}

#[test]
fn distance_words_sample() {
    assert_eq!(distance_words(vec![5u64, 7], vec![1u64, 7]), 1);
}

#[test]
fn distance_extremes() {
    assert_eq!(distance_u8(0, 255), 8);
    assert_eq!(distance_u8(0xAA, 0xAA), 0);
    assert_eq!(distance_u64(0, u64::MAX), 64);
    assert_eq!(distance_u64(u64::MAX, u64::MAX), 0);
}

#[test]
fn distance_sequences_stop_at_shorter() {
    assert_eq!(distance_bytes(vec![0u8, 0, 0xFF], vec![0xFFu8]), 8);
    assert_eq!(distance_bytes(vec![], vec![1u8, 2, 3]), 0);
    assert_eq!(distance_words(vec![0u64, 1, 2], vec![3u64]), 2);
}

#[test]
fn distance_is_symmetric_and_zero_on_equal() {
    let pairs: [(u64, u64); 4] = [(0, 1), (0xDEADBEEF, 0xFEEDFACE), (7, 7), (u64::MAX, 1)];
    for (a, b) in pairs {
        assert_eq!(distance_u64(a, b), distance_u64(b, a));
        assert_eq!(distance_u64(a, b) == 0, a == b);
    }
    assert_eq!(distance_bytes(vec![1u8, 2], vec![9u8, 9]), distance_bytes(vec![9u8, 9], vec![1u8, 2]));
}

#[test]
fn distance_triangle_inequality_sample() {
    let (a, b, c) = (0b1010u64, 0b0110u64, 0b0001u64);
    assert!(distance_u64(a, c) <= distance_u64(a, b) + distance_u64(b, c));
    let (x, y, z) = (0x0Fu8, 0xF0u8, 0x3Cu8);
    assert!(distance_u8(x, z) <= distance_u8(x, y) + distance_u8(y, z));
}
