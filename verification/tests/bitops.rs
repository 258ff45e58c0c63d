use bitkit::bitops::{choice, majority, rotate_left, rotate_right};

const A: [u64; 4] = [0x1111_1111_1111_0000, 0x1111_0000_1100_1100, 0x1100_1100_1010_1010, 0x0123_4567_89AB_CDEF];

#[test]
fn choice_sample() {
    assert_eq!(choice(A[0], A[1], A[2]), 0x1111000011001010);
}

#[test]
fn majority_sample() {
    assert_eq!(majority(A[0], A[1], A[2]), 0x1111110011101000);
}

#[test]
fn rotate_right_samples() {
    assert_eq!(rotate_right(A[3], 4), 0xF0123456789ABCDE);
    assert_eq!(rotate_right(A[3], 8), 0xEF0123456789ABCD);
    assert_eq!(rotate_right(A[3], 12), 0xDEF0123456789ABC);
    assert_eq!(rotate_right(0x1000, 2), 0x0000000000000400);
    assert_eq!(rotate_right(0x1000, 30), 0x0000400000000000);
}

#[test]
fn rotate_by_whole_turns() {
    assert_eq!(rotate_right(A[3], 0), A[3]);
    assert_eq!(rotate_right(A[3], 64), A[3]);
    assert_eq!(rotate_left(A[3], 128), A[3]);
    assert_eq!(rotate_right(A[3], 68), rotate_right(A[3], 4));
}

#[test]
fn rotate_left_undoes_rotate_right() {
    for k in [0u32, 1, 7, 31, 63, 64, 100] {
        assert_eq!(rotate_left(rotate_right(A[3], k), k), A[3]);
        assert_eq!(rotate_right(rotate_left(A[1], k), k), A[1]);
    }
    assert_eq!(rotate_left(1, 1), 2);
    assert_eq!(rotate_left(0x8000_0000_0000_0000, 1), 1);
}

#[test]
fn majority_as_choice() {
    let (a, b, c) = (A[0], A[1], A[2]);
    assert_eq!(majority(a, b, c), choice(a ^ b, c, a));
    assert_eq!(majority(a, a, c), a);
    assert_eq!(majority(a, b, c), majority(b, a, c));
    assert_eq!(majority(a, b, c), majority(a, c, b));
    assert_eq!(choice(u64::MAX, b, c), b);
    assert_eq!(choice(0, b, c), c);
}
