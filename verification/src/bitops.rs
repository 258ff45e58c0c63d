//! Bitwise mixing functions on 64-bit words: choice, majority and rotations.
use vstd::prelude::*;

verus! {

/// Bit `i` of `x`.
pub open spec fn bit(x: u64, i: u64) -> bool {
    (x >> i) & 1 == 1
}

/// Choice: `f` where `e` has a one bit, `g` where it has a zero bit.
pub open spec fn choice_spec(e: u64, f: u64, g: u64) -> u64 {
    (e & f) ^ (!e & g)
}

/// Majority: the bit value that at least two of the three words share.
pub open spec fn majority_spec(a: u64, b: u64, c: u64) -> u64 {
    (a & b) | (a & c) | (b & c)
}

/// Rotation right by `k` places, `k` taken modulo 64.
pub open spec fn rotate_right_spec(x: u64, k: u32) -> u64 {
    let r = k % 64;
    if r == 0 {
        x
    } else {
        (x >> r) | (x << ((64 - r) as u32))
    }
}

/// Rotation left by `k` places, `k` taken modulo 64.
pub open spec fn rotate_left_spec(x: u64, k: u32) -> u64 {
    let r = k % 64;
    if r == 0 {
        x
    } else {
        (x << r) | (x >> ((64 - r) as u32))
    }
}

/// Each bit of the result is the bit of `f` or of `g` at that place, as the bit of `e` selects.
pub fn choice(e: u64, f: u64, g: u64) -> (r: u64)
    ensures
        r == choice_spec(e, f, g),
        forall|i: u64| i < 64 ==> #[trigger] bit(r, i) == if bit(e, i) { bit(f, i) } else { bit(g, i) },
{
    let r = (e & f) ^ ((!e) & g);
    assert forall|i: u64| i < 64 implies #[trigger] bit(r, i) == if bit(e, i) {
        bit(f, i)
    } else {
        bit(g, i)
    } by {
        assert(((((e & f) ^ (!e & g)) >> i) & 1 == 1) == (if (e >> i) & 1 == 1 {
            (f >> i) & 1 == 1
        } else {
            (g >> i) & 1 == 1
        })) by (bit_vector)
            requires i < 64;
    }
    r
}

/// Each bit of the result is the bit value held by at least two of `a`, `b`, `c` at that place.
pub fn majority(a: u64, b: u64, c: u64) -> (r: u64)
    ensures
        r == majority_spec(a, b, c),
        forall|i: u64|
            i < 64 ==> #[trigger] bit(r, i) == ((bit(a, i) && bit(b, i)) || (bit(a, i) && bit(c, i)) || (
            bit(b, i) && bit(c, i))),
{
    let r = (a & b) | (a & c) | (b & c);
    assert forall|i: u64| i < 64 implies #[trigger] bit(r, i) == ((bit(a, i) && bit(b, i)) || (bit(
        a,
        i,
    ) && bit(c, i)) || (bit(b, i) && bit(c, i))) by {
        assert(((((a & b) | (a & c) | (b & c)) >> i) & 1 == 1) == ((((a >> i) & 1 == 1) && ((b >> i)
            & 1 == 1)) || (((a >> i) & 1 == 1) && ((c >> i) & 1 == 1)) || (((b >> i) & 1 == 1) && ((c
            >> i) & 1 == 1)))) by (bit_vector)
            requires i < 64;
    }
    r
}

/// Rotates `x` right by `k` places: bit `i` of the result is bit `(i + k) mod 64` of `x`.
pub fn rotate_right(x: u64, k: u32) -> (res: u64)
    ensures
        res == rotate_right_spec(x, k),
        forall|i: u64| i < 64 ==> #[trigger] bit(res, i) == bit(x, ((i + k % 64) % 64) as u64),
{
    let n: u32 = 64;
    let r: u32 = k % n;
    let res = if r == 0 {
        x
    } else {
        (x >> r) | (x << (n - r))
    };
    assert forall|i: u64| i < 64 implies #[trigger] bit(res, i) == bit(x, ((i + k % 64) % 64) as u64) by {
        let rr = r as u64;
        if r == 0 {
            assert(((x >> i) & 1 == 1) == ((x >> (((i + rr) % 64) as u64)) & 1 == 1)) by (bit_vector)
                requires i < 64 && rr == 0;
        } else {
            assert(((((x >> rr) | (x << ((64 - rr) as u64))) >> i) & 1 == 1) == ((x >> (((i + rr) % 64) as u64)) & 1
                == 1)) by (bit_vector)
                requires i < 64 && 0 < rr < 64;
            assert((x >> r) | (x << (n - r)) == (x >> rr) | (x << ((64 - rr) as u64)));
        }
    }
    res
}

/// Rotates `x` left by `k` places: bit `i` of the result is bit `(i - k) mod 64` of `x`.
pub fn rotate_left(x: u64, k: u32) -> (res: u64)
    ensures
        res == rotate_left_spec(x, k),
        forall|i: u64| i < 64 ==> #[trigger] bit(res, i) == bit(x, ((i + 64 - k % 64) % 64) as u64),
{
    let n: u32 = 64;
    let r: u32 = k % n;
    let res = if r == 0 {
        x
    } else {
        (x << r) | (x >> (n - r))
    };
    assert forall|i: u64| i < 64 implies #[trigger] bit(res, i) == bit(x, ((i + 64 - k % 64) % 64) as u64) by {
        let rr = r as u64;
        if r == 0 {
            assert(((x >> i) & 1 == 1) == ((x >> (((i + 64 - rr) % 64) as u64)) & 1 == 1)) by (bit_vector)
                requires i < 64 && rr == 0;
        } else {
            assert(((((x << rr) | (x >> ((64 - rr) as u64))) >> i) & 1 == 1) == ((x >> (((i + 64 - rr) % 64) as u64))
                & 1 == 1)) by (bit_vector)
                requires i < 64 && 0 < rr < 64;
            assert((x << r) | (x >> (n - r)) == (x << rr) | (x >> ((64 - rr) as u64)));
        }
    }
    res
}

/// Rotating left undoes rotating right by the same amount, and the other way round.
pub proof fn law_rotate_inverse(x: u64, k: u32)
    ensures
        rotate_left_spec(rotate_right_spec(x, k), k) == x,
        rotate_right_spec(rotate_left_spec(x, k), k) == x,
{
    let r = k % 64;
    if r != 0 {
        let rr = r as u64;
        assert(((((x >> rr) | (x << ((64 - rr) as u64))) << rr) | (((x >> rr) | (x << ((64 - rr) as u64))) >> ((64
            - rr) as u64))) == x) by (bit_vector)
            requires 0 < rr < 64;
        assert(((((x << rr) | (x >> ((64 - rr) as u64))) >> rr) | (((x << rr) | (x >> ((64 - rr) as u64))) << ((64
            - rr) as u64))) == x) by (bit_vector)
            requires 0 < rr < 64;
    }
}

/// Majority does not depend on the order of its arguments, and choice picks
/// `f` under an all-ones selector and `g` under an all-zeros one.
pub proof fn law_majority_choice(a: u64, b: u64, c: u64)
    ensures
        majority_spec(a, b, c) == majority_spec(b, a, c),
        majority_spec(a, b, c) == majority_spec(a, c, b),
        majority_spec(a, a, c) == a,
        choice_spec(0xffff_ffff_ffff_ffff, b, c) == b,
        choice_spec(0, b, c) == c,
{
    assert(majority_spec(a, b, c) == majority_spec(b, a, c)) by (bit_vector);
    assert(majority_spec(a, b, c) == majority_spec(a, c, b)) by (bit_vector);
    assert(majority_spec(a, a, c) == a) by (bit_vector);
    assert(choice_spec(0xffff_ffff_ffff_ffff, b, c) == b) by (bit_vector);
    assert(choice_spec(0, b, c) == c) by (bit_vector);
}

} // verus!
