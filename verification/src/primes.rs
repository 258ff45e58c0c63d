//! Primality by trial division, and integer square roots.
use vstd::prelude::*;
use vstd::arithmetic::div_mod::*;
use vstd::arithmetic::mul::*;
use vstd::arithmetic::power2::*;

verus! {

/// `n` is a prime number: at least 2, with no divisor strictly between 1 and itself.
pub open spec fn is_prime_spec(n: nat) -> bool {
    n >= 2 && forall|d: nat| 2 <= d < n ==> #[trigger] (n % d) != 0
}

proof fn lemma_even_divisor_of_odd(n: nat, d: nat)
    requires
        n % 2 == 1,
        d >= 2,
        d % 2 == 0,
    ensures
        n % d != 0,
{
    if n % d == 0 {
        lemma_fundamental_div_mod(n as int, d as int);
        lemma_fundamental_div_mod(d as int, 2);
        let q = n / d;
        let h = d / 2;
        assert(n == 2 * (h * q)) by (nonlinear_arith)
            requires
                n == d * q,
                d == 2 * h,
        ;
        lemma_mod_multiples_basic((h * q) as int, 2);
        assert((h * q) * 2 == 2 * (h * q)) by (nonlinear_arith);
    }
}

/// A divisor of `n` at or above `i`, where `i * i > n`, has a cofactor in `[2, i)`.
proof fn lemma_cofactor(n: nat, d: nat, i: nat)
    requires
        2 <= d < n,
        n % d == 0,
        i <= d,
        n / i < i,
        i >= 1,
    ensures
        2 <= n / d < i,
        n % (n / d) == 0,
{
    lemma_fundamental_div_mod(n as int, d as int);
    let q = n / d;
    assert(n == d * q);
    assert(q >= 2) by (nonlinear_arith)
        requires
            n == d * q,
            d < n,
            d >= 2,
    ;
    lemma_div_is_ordered_by_denominator(n as int, i as int, d as int);
    assert(n == q * d) by (nonlinear_arith)
        requires n == d * q;
    lemma_mod_multiples_basic(d as int, q as int);
    lemma_div_multiples_vanish(q as int, d as int);
}

/// Whether `n` is prime, by trial division with 2 and the odd numbers up to its square root.
pub fn is_prime(n: u64) -> (r: bool)
    ensures
        r == is_prime_spec(n as nat),
{
    if n <= 1 {
        return false;
    }
    if n == 2 {
        return true;
    }
    if n % 2 == 0 {
        assert(n % 2 == 0 && 2 < n);
        return false;
    }
    let mut i: u64 = 3;
    while i <= n / i
        invariant
            3 <= i,
            i % 2 == 1,
            n % 2 == 1,
            n > 2,
            forall|d: nat| 2 <= d < i ==> #[trigger] ((n as nat) % d) != 0,
        decreases n - i,
    {
        if n % i == 0 {
            proof {
                lemma_div_pos_is_pos(n as int, i as int);
                assert(n / i >= 1);
                lemma_fundamental_div_mod(n as int, i as int);
                assert(i < n) by (nonlinear_arith)
                    requires
                        i >= 3,
                        n == i * (n / i) + n % i,
                        n % i == 0,
                        i <= n / i,
                ;
            }
            return false;
        }
        proof {
            assert forall|d: nat| 2 <= d < i + 2 implies #[trigger] ((n as nat) % d) != 0 by {
                if d == i + 1 {
                    lemma_even_divisor_of_odd(n as nat, d);
                }
            }
            lemma_fundamental_div_mod(n as int, i as int);
            assert(i < n) by (nonlinear_arith)
                requires
                    i >= 3,
                    n == i * (n / i) + n % i,
                    n % i >= 0,
                    i <= n / i,
            ;
            assert(i + 2 <= n) by (nonlinear_arith)
                requires
                    i >= 3,
                    n == i * (n / i) + n % i,
                    n % i >= 1,
                    i <= n / i,
            ;
        }
        i += 2;
    }
    proof {
        assert forall|d: nat| 2 <= d < n implies #[trigger] ((n as nat) % d) != 0 by {
            if d >= i && (n as nat) % d == 0 {
                lemma_cofactor(n as nat, d, i as nat);
                let q = (n as nat) / d;
                assert((n as nat) % q != 0);
            }
        }
    }
    true
}

/// The bit search on `root` over bits `k - 1` down to 0: each bit is set when
/// the square of `root` with that bit set stays at most `n`.
pub open spec fn refine_sqrt(n: u128, root: u128, k: nat) -> u128
    decreases k,
{
    if k == 0 {
        root
    } else {
        let c = root | (1u128 << ((k - 1) as u32));
        refine_sqrt(n, if c * c <= n { c } else { root }, (k - 1) as nat)
    }
}

/// The square root that `integer_sqrt` finds from the first estimate
/// `approx`: `n` itself when `n <= 1`, otherwise the bit search over bits 62
/// down to 0 starting from `approx`.
pub open spec fn spec_integer_sqrt(n: u128, approx: u64) -> u64 {
    if n <= 1 {
        n as u64
    } else {
        refine_sqrt(n, approx as u128, 63) as u64
    }
}

/// An integer square root of `n` refined from the estimate `approx`: for
/// `n > 1`, bits 62 down to 0 are set in turn on `approx` whenever the square
/// stays at most `n`. When the estimate's square is at most `n`, so is the
/// result's, and the result is at least the estimate.
pub fn integer_sqrt(n: u128, approx: u64) -> (r: u64)
    ensures
        r == spec_integer_sqrt(n, approx),
        (approx as nat) * (approx as nat) <= n ==> (r as nat) * (r as nat) <= n && r >= approx,
{
    if n <= 1 {
        assert((approx as nat) * (approx as nat) <= n ==> approx <= n) by (nonlinear_arith)
            requires n <= 1;
        assert((n as nat) * (n as nat) <= n) by (nonlinear_arith)
            requires n <= 1;
        return n as u64;
    }
    let mut root: u128 = approx as u128;
    let mut k: u32 = 63;
    while k > 0
        invariant
            k <= 63,
            n > 1,
            root < 0x1_0000_0000_0000_0000,
            root >= approx,
            refine_sqrt(n, root, k as nat) == refine_sqrt(n, approx as u128, 63),
            (approx as nat) * (approx as nat) <= n ==> root * root <= n,
        decreases k,
    {
        k -= 1;
        let c = root | (1u128 << k);
        assert(c < 0x1_0000_0000_0000_0000 && c >= root) by (bit_vector)
            requires
                root < 0x1_0000_0000_0000_0000,
                k < 63,
                c == root | (1u128 << k),
        ;
        assert(c * c < 0x1_0000_0000_0000_0000_0000_0000_0000_0000) by (nonlinear_arith)
            requires
                c < 0x1_0000_0000_0000_0000,
        ;
        assert(((k + 1) - 1) as u32 == k);
        if c * c <= n {
            root = c;
        }
    }
    root as u64
}

} // verus!
