use bitkit::bignum::{add_ix, ix, mul_ix, sub_ix};
use bitkit::bignum_text::{hex_input_valid, ix_from_hex, ix_to_hex};

fn h(s: &str) -> ix {
    assert!(hex_input_valid(s));
    ix_from_hex(s)
}

#[test]
fn from_hex_reads_limbs_least_significant_first() {
    let x = ix_from_hex("0x1_0000000000000002".replace('_', "").as_str());
    assert!(!x.sign);
    assert_eq!(x.vals, vec![2u64, 1]);
    let y = ix_from_hex("  -0X00ff  ");
    assert!(y.sign);
    assert_eq!(y.vals, vec![0xffu64]);
}

#[test]
fn from_hex_zero_forms() {
    for s in ["0", "-0", "+0x0000", "   ", "0x", "-"] {
        let z = ix_from_hex(s);
        assert!(!z.sign);
        assert_eq!(z.vals, vec![0u64]);
        assert_eq!(ix_to_hex(&z), "0");
    }
}

#[test]
fn hex_input_validity() {
    assert!(hex_input_valid("0xDEADbeef"));
    assert!(hex_input_valid(" -12345678901234567890abcdef "));
    assert!(hex_input_valid(""));
    assert!(hex_input_valid("++1"));
    assert!(!hex_input_valid("0xg1"));
    assert!(!hex_input_valid("12 34"));
    assert!(!hex_input_valid("+-1"));
    assert!(!hex_input_valid("1+0000000000000000"));
}

#[test]
fn to_hex_formats() {
    assert_eq!(ix_to_hex(&ix { sign: false, vals: vec![0xff] }), "ff");
    assert_eq!(ix_to_hex(&ix { sign: true, vals: vec![1, 2, 0, 0] }), "-20000000000000001");
    assert_eq!(ix_to_hex(&ix { sign: true, vals: vec![0, 0] }), "0");
    assert_eq!(ix_to_hex(&ix { sign: false, vals: vec![] }), "0");
}

#[test]
fn add_sub_mul_samples() {
    let cases: [(&str, &str, &str, &str, &str); 5] = [
        ("ffffffffffffffff", "1", "10000000000000000", "fffffffffffffffe", "ffffffffffffffff"),
        (
            "-123456789abcdef0123456789",
            "fedcba9876543210fedcba",
            "-122468acf13579acf12468acf",
            "-1244444444444433334444443",
            "-121fa00ad77d742247acc90922e59bbbd07233a8f54f58a",
        ),
        ("0", "-5", "-5", "5", "0"),
        (
            "100000000000000000000000000000000",
            "-10000000000000000",
            "ffffffffffffffff0000000000000000",
            "100000000000000010000000000000000",
            "-1000000000000000000000000000000000000000000000000",
        ),
        ("-7", "-9", "-10", "2", "3f"),
    ];
    for (a, b, sum, diff, prod) in cases {
        let (x, y) = (h(a), h(b));
        assert_eq!(ix_to_hex(&add_ix(&x, &y)), sum);
        assert_eq!(ix_to_hex(&sub_ix(&x, &y)), diff);
        assert_eq!(ix_to_hex(&mul_ix(&x, &y)), prod);
    }
}

#[test]
fn hex_round_trip() {
    for s in ["0", "1", "-1", "ffffffffffffffff", "-10000000000000000", "123456789abcdef0123456789abcdef"] {
        assert_eq!(ix_to_hex(&ix_from_hex(s)), s);
    }
}

#[test]
fn subtraction_of_self_is_zero_and_addition_commutes() {
    let x = h("-fedcba98765432100123");
    let y = h("42");
    assert_eq!(ix_to_hex(&sub_ix(&x, &x)), "0");
    assert_eq!(ix_to_hex(&add_ix(&x, &y)), ix_to_hex(&add_ix(&y, &x)));
    assert_eq!(ix_to_hex(&mul_ix(&x, &y)), ix_to_hex(&mul_ix(&y, &x)));
}

#[test]
fn canonical_round_trip_keeps_sign_and_limbs() {
    let samples = [
        ix { sign: false, vals: vec![0] },
        ix { sign: true, vals: vec![5] },
        ix { sign: false, vals: vec![0, 0, 1] },
        ix { sign: true, vals: vec![u64::MAX, 7] },
    ];
    for x in samples {
        let y = ix_from_hex(&ix_to_hex(&x));
        assert_eq!(y.sign, x.sign);
        assert_eq!(y.vals, x.vals);
    }
}

#[test]
fn read_then_write_normalizes() {
    assert_eq!(ix_to_hex(&ix_from_hex("-0x00FF")), "-ff");
    assert_eq!(ix_to_hex(&ix_from_hex("-0")), "0");
    assert_eq!(ix_to_hex(&ix_from_hex("  +000ABCdef0123456789  ")), "abcdef0123456789");
}
