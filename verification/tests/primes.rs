use bitkit::primes::{integer_sqrt, is_prime};

#[test]
fn first_primes_found_by_search() {
    let mut found: Vec<u64> = vec![2, 3, 5, 7, 11];
    let mut val = 13u64;
    while found.len() < 8 {
        if is_prime(val) {
            found.push(val);
        }
        val += 2;
    }
    assert_eq!(found, vec![2, 3, 5, 7, 11, 13, 17, 19]);
}

#[test]
fn is_prime_small_cases() {
    assert!(!is_prime(0));
    assert!(!is_prime(1));
    assert!(is_prime(2));
    assert!(!is_prime(4));
    assert!(!is_prime(9));
    assert!(!is_prime(25));
    assert!(is_prime(97));
    assert!(!is_prime(91));
}

#[test]
fn is_prime_large_cases() {
    assert!(is_prime(1_000_000_007));
    assert!(!is_prime(1_000_000_007 * 3));
    assert!(is_prime(4_294_967_291));
    assert!(!is_prime(4_294_967_297));
}

fn f64_estimate(n: u128) -> u64 {
    (n as f64).sqrt() as u64
}

#[test]
fn integer_sqrt_small_values() {
    let nums: [u128; 8] = [2, 3, 5, 7, 11, 13, 17, 19];
    let roots: [u64; 8] = [1, 1, 2, 2, 3, 3, 4, 4];
    for (n, r) in nums.iter().zip(roots.iter()) {
        assert_eq!(integer_sqrt(*n, f64_estimate(*n)), *r);
    }
    assert_eq!(integer_sqrt(0, 7), 0);
    assert_eq!(integer_sqrt(1, 7), 1);
    assert_eq!(integer_sqrt(16, 4), 4);
}

#[test]
fn integer_sqrt_refines_from_zero() {
    assert_eq!(integer_sqrt(17, 0), 4);
    assert_eq!(integer_sqrt(1 << 40, 0), 1 << 20);
    assert_eq!(integer_sqrt(99, 0), 9);
}

#[test]
fn integer_sqrt_keeps_an_overshooting_estimate() {
    let n = u64::MAX as u128;
    assert_eq!(f64_estimate(n), 4294967296);
    assert_eq!(integer_sqrt(n, 4294967296), 4294967296);
    assert_eq!(integer_sqrt(u128::MAX, f64_estimate(u128::MAX)), u64::MAX);
}

#[test]
fn integer_sqrt_estimate_below_gives_square_below() {
    for (n, a) in [(24u128, 3u64), (1000, 30), (123456789, 1000)] {
        let k = integer_sqrt(n, a) as u128;
        assert!(k * k <= n && k >= a as u128);
    }
    assert_eq!(integer_sqrt(8, 1), 1);
}
