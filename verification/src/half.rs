//! Half-precision (IEEE 754 binary16) bit patterns: packing 32-bit integers and
//! splitting a pattern into its fields.
use vstd::prelude::*;
use vstd::arithmetic::power2::*;
use vstd::arithmetic::div_mod::*;
use vstd::bits::{
    lemma_u32_pow2_no_overflow, lemma_u32_shl_is_mul, lemma_u32_shr_is_div,
};

verus! {

/// A half-precision number, held as its 16-bit pattern: sign bit, five exponent
/// bits (bias 15), ten mantissa bits.
#[derive(Clone, Copy, Debug, PartialEq, Eq, Structural)]
pub struct F16 {
    pub bits: u16,
}

/// The kind of value a half-precision pattern holds, with its fields.
#[derive(Clone, Copy, Debug, PartialEq, Eq, Structural)]
pub enum F16Class {
    /// Exponent field zero: `mantissa / 1024 * 2^-14`, signed (zero included).
    Subnormal { negative: bool, mantissa: u16 },
    /// Exponent field 31, mantissa zero.
    Infinite { negative: bool },
    /// Exponent field 31, mantissa non-zero.
    NaN,
    /// Any other exponent field: `(1 + mantissa / 1024) * 2^exponent`, signed.
    Normal { negative: bool, exponent: i32, mantissa: u16 },
}

/// The position of the highest one bit of `x > 0`.
pub open spec fn top_bit(x: nat) -> nat
    decreases x,
{
    if x < 2 {
        0
    } else {
        1 + top_bit(x / 2)
    }
}

/// The magnitude of `n`.
pub open spec fn abs_i32(n: i32) -> nat {
    if n < 0 {
        (-n) as nat
    } else {
        n as nat
    }
}

/// The half-precision pattern for `n`: zero for zero; infinity of the sign of
/// `n` when its magnitude reaches 2^16; otherwise the exponent of the highest one
/// bit and the ten bits after it, further bits dropped.
pub open spec fn spec_f16_bits(n: i32) -> u16 {
    if n == 0 {
        0
    } else {
        let s: nat = if n < 0 { 1 } else { 0 };
        let x = abs_i32(n);
        let e = top_bit(x);
        if e >= 16 {
            (s * 32768 + 31744) as u16
        } else {
            let frac = (x - pow2(e)) as nat;
            let m: nat = if e <= 10 { frac * pow2((10 - e) as nat) } else { frac / pow2((e - 10) as nat) };
            (s * 32768 + (e + 15) * 1024 + m) as u16
        }
    }
}

proof fn lemma_top_bit_bounds(x: nat)
    requires
        x >= 1,
    ensures
        pow2(top_bit(x)) <= x < pow2(top_bit(x) + 1),
    decreases x,
{
    lemma2_to64();
    if x >= 2 {
        lemma_top_bit_bounds(x / 2);
        let t = top_bit(x / 2);
        lemma_pow2_unfold(t + 1);
        lemma_pow2_unfold(t + 2);
        lemma_fundamental_div_mod(x as int, 2);
    }
}

proof fn lemma_top_bit_below(x: nat, k: nat)
    requires
        1 <= x < pow2(k),
    ensures
        top_bit(x) < k,
{
    lemma_top_bit_bounds(x);
    if top_bit(x) > k {
        lemma_pow2_strictly_increases(k, top_bit(x));
    }
}

proof fn lemma_top_bit_at_least(x: nat, k: nat)
    requires
        pow2(k) <= x,
    ensures
        top_bit(x) >= k,
{
    lemma_pow2_pos(k);
    lemma_top_bit_bounds(x);
    if top_bit(x) + 1 < k {
        lemma_pow2_strictly_increases(top_bit(x) + 1, k);
    }
}

/// What a packed integer stands for: zero packs to a positive zero; a magnitude
/// of 2^16 or more to infinity of the same sign; any other `n` to a normal number
/// of the same sign whose value `(1024 + mantissa) * 2^exponent / 1024` is the
/// largest such value not above `|n|` (the next mantissa step would pass it).
/// Below 2048 this is `|n|` exactly.
pub proof fn law_packing_truncates(n: i32)
    ensures
        n == 0 ==> spec_classify(spec_f16_bits(n)) == (F16Class::Subnormal { negative: false, mantissa: 0 }),
        abs_i32(n) >= 65536 ==> spec_classify(spec_f16_bits(n)) == (F16Class::Infinite { negative: n < 0 }),
        0 < abs_i32(n) < 65536 ==> (match spec_classify(spec_f16_bits(n)) {
            F16Class::Normal { negative, exponent, mantissa } => {
                &&& negative == (n < 0)
                &&& 0 <= exponent <= 15
                &&& (1024 + mantissa) * pow2(exponent as nat) <= abs_i32(n) * 1024
                &&& abs_i32(n) * 1024 < (1025 + mantissa) * pow2(exponent as nat)
                &&& (abs_i32(n) < 2048 ==> (1024 + mantissa) * pow2(exponent as nat) == abs_i32(n) * 1024)
            },
            _ => false,
        }),
{
    lemma2_to64();
    if n == 0 {
        return;
    }
    let x = abs_i32(n);
    let s: nat = if n < 0 { 1 } else { 0 };
    let e = top_bit(x);
    lemma_top_bit_bounds(x);
    if x >= 65536 {
        lemma_top_bit_at_least(x, 16);
        let b = (s * 32768 + 31744) as u16;
        assert(b / 32768 == s && (b / 1024) % 32 == 31 && b % 1024 == 0);
        return;
    }
    lemma_top_bit_below(x, 16);
    let frac = (x - pow2(e)) as nat;
    lemma_pow2_unfold(e + 1);
    assert(frac < pow2(e));
    let m: nat = if e <= 10 { frac * pow2((10 - e) as nat) } else { frac / pow2((e - 10) as nat) };
    if e <= 10 {
        let p = pow2((10 - e) as nat);
        lemma_pow2_adds(e, (10 - e) as nat);
        assert(m < 1024) by (nonlinear_arith)
            requires m == frac * p, frac < pow2(e), pow2(e) * p == 1024, p > 0;
        assert((1024 + m) * pow2(e) == x * 1024) by (nonlinear_arith)
            requires m == frac * p, frac == x - pow2(e), pow2(e) * p == 1024;
        lemma_pow2_pos(e);
        assert(x * 1024 < (1025 + m) * pow2(e)) by (nonlinear_arith)
            requires (1024 + m) * pow2(e) == x * 1024, pow2(e) > 0;
    } else {
        let q = pow2((e - 10) as nat);
        lemma_pow2_adds((e - 10) as nat, 10);
        lemma_pow2_pos((e - 10) as nat);
        lemma_fundamental_div_mod(frac as int, q as int);
        let r = frac % q;
        assert(m < 1024) by {
            lemma_div_strictly_bounded(frac as int, q as int, 1024);
        }
        assert((1024 + m) * pow2(e) + r * 1024 == x * 1024 && r < q) by (nonlinear_arith)
            requires
                frac == q * m + r,
                0 <= r < q,
                frac == x - pow2(e),
                pow2(e) == q * 1024,
        ;
        assert(x * 1024 < (1025 + m) * pow2(e)) by (nonlinear_arith)
            requires
                (1024 + m) * pow2(e) + r * 1024 == x * 1024,
                r < q,
                pow2(e) == q * 1024,
        ;
        if x < 2048 {
            lemma_top_bit_below(x, 11);
        }
    }
    let b = (s * 32768 + (e + 15) * 1024 + m) as u16;
    assert(b == s * 32768 + (e + 15) * 1024 + m);
    assert(b / 32768 == s && (b / 1024) % 32 == e + 15 && b % 1024 == m);
    assert(spec_f16_bits(n) == b);
}

/// Classifying splits a pattern into its fields and nothing else: the sign,
/// exponent and mantissa put back in their places give the pattern again.
/// Exponent fields 1 to 30 give `Normal` with the unbiased exponent
/// `field - 15` (from -14 to 15), field 0 gives `Subnormal`, and field 31
/// gives `Infinite` for a zero mantissa and `NaN` otherwise.
pub proof fn law_classify_fields(bits: u16)
    ensures
        ({
            let field = (bits / 1024) % 32;
            let sign: int = if bits >= 32768 { 32768 } else { 0 };
            match spec_classify(bits) {
                F16Class::Normal { negative, exponent, mantissa } => {
                    &&& 1 <= field <= 30
                    &&& exponent == field - 15
                    &&& -14 <= exponent <= 15
                    &&& mantissa < 1024
                    &&& negative == (bits >= 32768)
                    &&& bits == sign + (exponent + 15) * 1024 + mantissa
                },
                F16Class::Subnormal { negative, mantissa } => {
                    &&& field == 0
                    &&& mantissa < 1024
                    &&& negative == (bits >= 32768)
                    &&& bits == sign + mantissa
                },
                F16Class::Infinite { negative } => {
                    &&& field == 31
                    &&& negative == (bits >= 32768)
                    &&& bits == sign + 31 * 1024
                },
                F16Class::NaN => field == 31 && bits % 1024 != 0,
            }
        }),
{
}

/// The fields of a half-precision pattern, classified.
pub open spec fn spec_classify(bits: u16) -> F16Class {
    let negative = bits / 32768 == 1;
    let exp = (bits / 1024) % 32;
    let mant = (bits % 1024) as u16;
    if exp == 0 {
        F16Class::Subnormal { negative, mantissa: mant }
    } else if exp == 31 {
        if mant == 0 {
            F16Class::Infinite { negative }
        } else {
            F16Class::NaN
        }
    } else {
        F16Class::Normal { negative, exponent: (exp - 15) as i32, mantissa: mant }
    }
}

proof fn lemma_top_bit(x: nat, e: nat)
    requires
        pow2(e) <= x < pow2(e + 1),
    ensures
        top_bit(x) == e,
    decreases e,
{
    lemma_pow2_unfold(e + 1);
    if e == 0 {
        lemma2_to64();
    } else {
        lemma_pow2_unfold(e);
        lemma2_to64();
        lemma_pow2_pos((e - 1) as nat);
        let p = pow2((e - 1) as nat);
        assert(p <= x / 2 < 2 * p) by {
            lemma_div_is_ordered((2 * p) as int, x as int, 2);
            lemma_div_multiples_vanish(p as int, 2);
            lemma_fundamental_div_mod(x as int, 2);
        }
        lemma_top_bit(x / 2, (e - 1) as nat);
    }
}

/// The half-precision number nearest below `n` in magnitude: its highest one bit
/// sets the exponent, the next ten bits the mantissa, and lower bits are dropped;
/// magnitudes of 2^16 and more give infinity.
pub fn i32_to_f16(n: i32) -> (r: F16)
    ensures
        r.bits == spec_f16_bits(n),
{
    if n == 0 {
        return F16 { bits: 0 };
    }
    let sign: u16 = if n < 0 { 1 } else { 0 };
    let x: u32 = if n < 0 { (-(n as i64)) as u32 } else { n as u32 };
    assert(x as nat == abs_i32(n));
    let lz = x.leading_zeros();
    proof {
        vstd::std_specs::bits::axiom_u32_leading_zeros(x);
    }
    let e: u32 = 31 - lz;
    proof {
        assert((x >> e) & 1 != 0 && (e < 31 ==> x >> ((e + 1) as u32) == 0));
        assert(x >= (1u32 << e) && (e < 31 ==> x < (1u32 << ((e + 1) as u32)))) by (bit_vector)
            requires
                e < 32,
                (x >> e) & 1 != 0,
                e < 31 ==> x >> ((e + 1) as u32) == 0,
        ;
        lemma_u32_pow2_no_overflow(e as nat);
        lemma_u32_shl_is_mul(1, e);
        if e < 31 {
            lemma_u32_pow2_no_overflow((e + 1) as nat);
            lemma_u32_shl_is_mul(1, (e + 1) as u32);
        } else {
            lemma2_to64();
            lemma2_to64_rest();
        }
        lemma_top_bit(x as nat, e as nat);
    }
    let exp: i32 = (e as i32) + 15;
    if exp >= 31 {
        let bits: u16 = (sign << 15) | (0x1Fu16 << 10);
        assert(bits == sign * 32768 + 31744) by (bit_vector)
            requires sign <= 1 && bits == (sign << 15) | (0x1Fu16 << 10);
        return F16 { bits };
    }
    let frac = x & ((1 << e) - 1);
    proof {
        assert(frac == x - (1u32 << e)) by (bit_vector)
            requires
                e < 16,
                (1u32 << e) <= x < (1u32 << ((e + 1) as u32)),
                frac == x & (((1u32 << e) - 1) as u32),
        ;
        lemma_u32_pow2_no_overflow((e + 1) as nat);
        lemma_u32_shl_is_mul(1, (e + 1) as u32);
        lemma_pow2_unfold((e + 1) as nat);
    }
    let mantissa: u16 = if e <= 10 {
        proof {
            lemma_pow2_adds(e as nat, (10 - e) as nat);
            lemma2_to64();
            let f = frac as nat;
            let p = pow2((10 - e) as nat);
            assert(f * p < 1024) by (nonlinear_arith)
                requires f < pow2(e as nat), pow2(e as nat) * p == 1024, p > 0;
            lemma_pow2_pos((10 - e) as nat);
            lemma_u32_shl_is_mul(frac, (10 - e) as u32);
        }
        let v = frac << (10 - e);
        assert((v as u16) & 0x03FF == v) by (bit_vector)
            requires v < 1024;
        (v as u16) & 0x03FF
    } else {
        proof {
            lemma_u32_shr_is_div(frac, (e - 10) as u32);
            lemma_pow2_adds((e - 10) as nat, 10);
            lemma2_to64();
            lemma_pow2_pos((e - 10) as nat);
            let f = frac as nat;
            let p = pow2((e - 10) as nat);
            assert(f / p < 1024) by {
                lemma_div_strictly_bounded(f as int, p as int, 1024);
            }
        }
        let v = frac >> (e - 10);
        assert((v as u16) & 0x03FF == v) by (bit_vector)
            requires v < 1024;
        (v as u16) & 0x03FF
    };
    let ex = exp as u16;
    let bits = (sign << 15) | (ex << 10) | mantissa;
    assert(bits == sign * 32768 + ex * 1024 + mantissa) by (bit_vector)
        requires
            sign <= 1,
            ex < 32,
            mantissa < 1024,
            bits == (sign << 15) | (ex << 10) | mantissa,
    ;
    F16 { bits }
}

proof fn lemma_div_strictly_bounded(x: int, a: int, b: int)
    requires
        a > 0,
        b >= 0,
        0 <= x < a * b,
    ensures
        x / a < b,
{
    lemma_div_by_multiple(b, a);
    assert(a * b == b * a) by (nonlinear_arith);
    lemma_div_by_multiple_is_strongly_ordered(x, a * b, b, a);
}

/// The sign, exponent and mantissa fields of `x`, and what kind of value they make.
pub fn classify_f16(x: &F16) -> (c: F16Class)
    ensures
        c == spec_classify(x.bits),
{
    let b = x.bits;
    let sign_bit = (b >> 15) & 1;
    let exp_bits = (b >> 10) & 0x1F;
    let mant = b & 0x03FF;
    assert(sign_bit == b / 32768 && exp_bits == (b / 1024) % 32 && mant == b % 1024) by (bit_vector)
        requires
            sign_bit == (b >> 15) & 1,
            exp_bits == (b >> 10) & 0x1F,
            mant == b & 0x03FF,
    ;
    let negative = sign_bit == 1;
    if exp_bits == 0 {
        F16Class::Subnormal { negative, mantissa: mant }
    } else if exp_bits == 31 {
        if mant == 0 {
            F16Class::Infinite { negative }
        } else {
            F16Class::NaN
        }
    } else {
        F16Class::Normal { negative, exponent: (exp_bits as i32) - 15, mantissa: mant }
    }
}

} // verus!
