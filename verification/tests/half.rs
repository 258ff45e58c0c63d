use bitkit::half::{classify_f16, i32_to_f16, F16Class, F16};

#[test]
fn twelve_packs_to_4a00() {
    assert_eq!(i32_to_f16(12).bits, 0x4A00);
    assert_eq!(
        classify_f16(&i32_to_f16(12)),
        F16Class::Normal { negative: false, exponent: 3, mantissa: 512 }
    );
}

#[test]
fn zero_and_signs() {
    assert_eq!(i32_to_f16(0).bits, 0);
    assert_eq!(i32_to_f16(1).bits, 0x3C00);
    assert_eq!(i32_to_f16(-1).bits, 0xBC00);
    assert_eq!(i32_to_f16(-12).bits, 0xCA00);
    assert_eq!(classify_f16(&F16 { bits: 0 }), F16Class::Subnormal { negative: false, mantissa: 0 });
}

#[test]
fn large_magnitudes_truncate_or_overflow() {
    assert_eq!(i32_to_f16(2049).bits, i32_to_f16(2048).bits);
    assert_eq!(i32_to_f16(65535).bits, 0x7BFF);
    assert_eq!(i32_to_f16(65536).bits, 0x7C00);
    assert_eq!(i32_to_f16(-70000).bits, 0xFC00);
    assert_eq!(i32_to_f16(i32::MIN).bits, 0xFC00);
    assert_eq!(classify_f16(&i32_to_f16(100000)), F16Class::Infinite { negative: false });
}

#[test]
fn classify_special_patterns() {
    assert_eq!(classify_f16(&F16 { bits: 0x7E00 }), F16Class::NaN);
    assert_eq!(classify_f16(&F16 { bits: 0x8001 }), F16Class::Subnormal { negative: true, mantissa: 1 });
    assert_eq!(classify_f16(&F16 { bits: 0xFC00 }), F16Class::Infinite { negative: true });
}

#[test]
fn small_integers_are_exact() {
    for n in [1i32, 2, 3, 7, 100, 1023, 2047, -5, -2000] {
        match classify_f16(&i32_to_f16(n)) {
            F16Class::Normal { negative, exponent, mantissa } => {
                assert_eq!(negative, n < 0);
                assert_eq!((1024 + mantissa as i64) << exponent, (n as i64).abs() * 1024);
            }
            other => panic!("unexpected {:?}", other),
        }
    }
}

#[test]
fn packed_value_never_exceeds_magnitude() {
    for n in [2049i32, 4097, 12345, 65535, -40000] {
        match classify_f16(&i32_to_f16(n)) {
            F16Class::Normal { exponent, mantissa, .. } => {
                let v = (1024 + mantissa as i64) << exponent;
                let m = (n as i64).abs() * 1024;
                assert!(v <= m && m < (1025 + mantissa as i64) << exponent);
            }
            other => panic!("unexpected {:?}", other),
        }
    }
}
