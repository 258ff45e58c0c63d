//! Little-endian sequences of 64-bit limbs read as natural numbers.
use vstd::prelude::*;
use vstd::arithmetic::power2::*;
use vstd::arithmetic::div_mod::*;
use vstd::arithmetic::mul::*;

verus! {

/// The limb base, 2^64.
pub open spec fn limb_base() -> nat {
    0x1_0000_0000_0000_0000
}

/// `limb_base()` raised to `k`.
pub open spec fn bpow(k: nat) -> nat {
    pow2(64 * k)
}

/// The natural number whose base-2^64 digits, least significant first, are `s`.
pub open spec fn limbs_value(s: Seq<u64>) -> nat
    decreases s.len(),
{
    if s.len() == 0 {
        0
    } else {
        limbs_value(s.drop_last()) + (s.last() as nat) * bpow((s.len() - 1) as nat)
    }
}

/// The limb at position `i`, or zero past either end.
pub open spec fn limb_at(s: Seq<u64>, i: int) -> u64 {
    if 0 <= i < s.len() {
        s[i]
    } else {
        0
    }
}

/// The value of the first `i` limbs of `s`, reading missing limbs as zero.
pub open spec fn prefix_value(s: Seq<u64>, i: nat) -> nat
    decreases i,
{
    if i == 0 {
        0
    } else {
        prefix_value(s, (i - 1) as nat) + (limb_at(s, i - 1) as nat) * bpow((i - 1) as nat)
    }
}

/// The `n` least significant base-2^64 digits of `v`.
pub open spec fn limbs_of(v: nat, n: nat) -> Seq<u64>
    decreases n,
{
    if n == 0 {
        Seq::empty()
    } else {
        limbs_of(v, (n - 1) as nat).push(((v / bpow((n - 1) as nat)) % limb_base()) as u64)
    }
}

/// The number of limbs needed to write `v`, at least one.
pub open spec fn sig_limbs(v: nat) -> nat
    decreases v,
{
    if v < limb_base() {
        1
    } else {
        1 + sig_limbs(v / limb_base())
    }
}

/// Every limb of `s` is zero.
pub open spec fn all_zero(s: Seq<u64>) -> bool {
    forall|i: int| 0 <= i < s.len() ==> s[i] == 0
}

pub proof fn lemma_bpow(k: nat)
    ensures
        bpow(0) == 1,
        bpow(1) == limb_base(),
        bpow(k + 1) == limb_base() * bpow(k),
        bpow(k) > 0,
{
    lemma2_to64();
    lemma2_to64_rest();
    lemma_pow2_adds(64, 64 * k);
    lemma_pow2_pos(64 * k);
    assert(64 * (k + 1) == 64 + 64 * k);
}

pub proof fn lemma_bpow_adds(i: nat, j: nat)
    ensures
        bpow(i) * bpow(j) == bpow(i + j),
{
    lemma_pow2_adds(64 * i, 64 * j);
    assert(64 * i + 64 * j == 64 * (i + j));
}

pub proof fn lemma_bpow_le(i: nat, j: nat)
    requires
        i <= j,
    ensures
        bpow(i) <= bpow(j),
{
    if i < j {
        lemma_pow2_strictly_increases(64 * i, 64 * j);
    }
}

pub proof fn lemma_value_bound(s: Seq<u64>)
    ensures
        limbs_value(s) < bpow(s.len()),
    decreases s.len(),
{
    let n = s.len();
    if n == 0 {
        lemma_bpow(0);
    } else {
        let n1 = (n - 1) as nat;
        lemma_value_bound(s.drop_last());
        lemma_bpow(n1);
        let v0 = limbs_value(s.drop_last());
        let l = s.last() as nat;
        let p = bpow(n1);
        assert(v0 + l * p < limb_base() * p) by (nonlinear_arith)
            requires
                v0 < p,
                l < limb_base(),
        ;
    }
}

pub proof fn lemma_value_push(s: Seq<u64>, x: u64)
    ensures
        limbs_value(s.push(x)) == limbs_value(s) + (x as nat) * bpow(s.len()),
{
    assert(s.push(x).drop_last() =~= s);
}

pub proof fn lemma_prefix_value_take(s: Seq<u64>, i: nat)
    requires
        i <= s.len(),
    ensures
        prefix_value(s, i) == limbs_value(s.take(i as int)),
    decreases i,
{
    if i > 0 {
        lemma_prefix_value_take(s, (i - 1) as nat);
        assert(s.take(i as int).drop_last() =~= s.take(i - 1));
    } else {
        assert(s.take(0) =~= Seq::<u64>::empty());
    }
}

/// Past its length the prefix value of `s` is the value of `s`.
pub proof fn lemma_prefix_value_full(s: Seq<u64>, i: nat)
    requires
        i >= s.len(),
    ensures
        prefix_value(s, i) == limbs_value(s),
    decreases i,
{
    if i == s.len() {
        lemma_prefix_value_take(s, i);
        assert(s.take(i as int) =~= s);
    } else {
        lemma_prefix_value_full(s, (i - 1) as nat);
    }
}

pub proof fn lemma_prefix_value_bound(s: Seq<u64>, i: nat)
    ensures
        prefix_value(s, i) < bpow(i),
    decreases i,
{
    lemma_bpow(i);
    if i > 0 {
        let i1 = (i - 1) as nat;
        lemma_prefix_value_bound(s, i1);
        lemma_bpow(i1);
        let v0 = prefix_value(s, i1);
        let l = limb_at(s, i - 1) as nat;
        let p = bpow(i1);
        assert(v0 + l * p < limb_base() * p) by (nonlinear_arith)
            requires
                v0 < p,
                l < limb_base(),
        ;
    }
}

pub proof fn lemma_value_update(s: Seq<u64>, k: int, v: u64)
    requires
        0 <= k < s.len(),
    ensures
        limbs_value(s.update(k, v)) + (s[k] as nat) * bpow(k as nat) == limbs_value(s) + (v as nat)
            * bpow(k as nat),
    decreases s.len(),
{
    let t = s.update(k, v);
    if k == s.len() - 1 {
        assert(t.drop_last() =~= s.drop_last());
    } else {
        assert(t.drop_last() =~= s.drop_last().update(k, v));
        lemma_value_update(s.drop_last(), k, v);
    }
}

/// Reading a value from its least significant limb.
pub proof fn lemma_value_front(s: Seq<u64>)
    requires
        s.len() > 0,
    ensures
        limbs_value(s) == (s[0] as nat) + limb_base() * limbs_value(s.drop_first()),
    decreases s.len(),
{
    let n = s.len();
    if n == 1 {
        lemma_bpow(0);
        assert(s.drop_last() =~= Seq::<u64>::empty());
        assert(s.drop_first() =~= Seq::<u64>::empty());
    } else {
        let n2 = (n - 2) as nat;
        lemma_value_front(s.drop_last());
        assert(s.drop_last().drop_first() =~= s.drop_first().drop_last());
        lemma_bpow(n2);
        let a = limbs_value(s.drop_first().drop_last());
        let l = s.last() as nat;
        let p = bpow(n2);
        assert(limb_base() * (a + l * p) == limb_base() * a + l * (limb_base() * p))
            by (nonlinear_arith);
    }
}

/// A value is zero exactly when all of its limbs are.
pub proof fn lemma_value_zero(s: Seq<u64>)
    ensures
        limbs_value(s) == 0 <==> all_zero(s),
    decreases s.len(),
{
    if s.len() > 0 {
        lemma_value_zero(s.drop_last());
        lemma_bpow((s.len() - 1) as nat);
        let l = s.last() as nat;
        let p = bpow((s.len() - 1) as nat);
        assert(l * p == 0 <==> l == 0) by (nonlinear_arith)
            requires
                p > 0,
        ;
        if all_zero(s) {
            assert(all_zero(s.drop_last()));
        }
        if limbs_value(s) == 0 {
            assert forall|i: int| 0 <= i < s.len() implies s[i] == 0 by {
                if i < s.len() - 1 {
                    assert(s.drop_last()[i] == s[i]);
                }
            }
        }
    }
}

/// A value whose top limb is non-zero needs all of its limbs.
pub proof fn lemma_value_top_nonzero(s: Seq<u64>)
    requires
        s.len() > 0,
        s.last() != 0,
    ensures
        limbs_value(s) >= bpow((s.len() - 1) as nat),
{
    let l = s.last() as nat;
    let p = bpow((s.len() - 1) as nat);
    assert(l * p >= p) by (nonlinear_arith)
        requires
            l >= 1,
    ;
}

/// The value of a prefix never exceeds the value of the whole.
pub proof fn lemma_value_take_le(s: Seq<u64>, j: int)
    requires
        0 <= j <= s.len(),
    ensures
        limbs_value(s.take(j)) <= limbs_value(s),
    decreases s.len() - j,
{
    if j < s.len() {
        lemma_value_take_le(s, j + 1);
        assert(s.take(j + 1).drop_last() =~= s.take(j));
    } else {
        assert(s.take(j) =~= s);
    }
}

/// Limbs above the size of a value are zero.
pub proof fn lemma_value_high_zero(s: Seq<u64>, k: nat, i: int)
    requires
        limbs_value(s) < bpow(k),
        k <= i < s.len(),
    ensures
        s[i] == 0,
{
    if s[i] != 0 {
        lemma_value_take_le(s, i + 1);
        let t = s.take(i + 1);
        assert(t.last() == s[i]);
        lemma_value_top_nonzero(t);
        lemma_bpow_le(k, i as nat);
    }
}

/// Removing a zero top limb keeps the value.
pub proof fn lemma_value_drop_zero_top(s: Seq<u64>)
    requires
        s.len() > 0,
        s.last() == 0,
    ensures
        limbs_value(s) == limbs_value(s.drop_last()),
{
}

/// Two limb sequences of equal length and equal value are equal.
pub proof fn lemma_value_unique(s: Seq<u64>, t: Seq<u64>)
    requires
        s.len() == t.len(),
        limbs_value(s) == limbs_value(t),
    ensures
        s == t,
    decreases s.len(),
{
    if s.len() > 0 {
        lemma_value_front(s);
        lemma_value_front(t);
        let v = limbs_value(s) as int;
        lemma_fundamental_div_mod_converse(
            v,
            limb_base() as int,
            limbs_value(s.drop_first()) as int,
            s[0] as int,
        );
        lemma_fundamental_div_mod_converse(
            v,
            limb_base() as int,
            limbs_value(t.drop_first()) as int,
            t[0] as int,
        );
        lemma_value_unique(s.drop_first(), t.drop_first());
        assert(s =~= t) by {
            assert forall|i: int| 0 <= i < s.len() implies s[i] == t[i] by {
                if i > 0 {
                    assert(s[i] == s.drop_first()[i - 1]);
                    assert(t[i] == t.drop_first()[i - 1]);
                }
            }
        }
    } else {
        assert(s =~= t);
    }
}

/// The digits `limbs_of(v, n)` spell `v` modulo `bpow(n)`.
pub proof fn lemma_limbs_of_value(v: nat, n: nat)
    ensures
        limbs_of(v, n).len() == n,
        limbs_value(limbs_of(v, n)) == v % bpow(n),
    decreases n,
{
    lemma_bpow(n);
    if n == 0 {
        assert(v % 1 == 0) by (nonlinear_arith);
    } else {
        let n1 = (n - 1) as nat;
        lemma_limbs_of_value(v, n1);
        lemma_bpow(n1);
        let p = bpow(n1);
        let d = ((v / p) % limb_base()) as u64;
        lemma_mod_bound((v / p) as int, limb_base() as int);
        lemma_value_push(limbs_of(v, n1), d);
        lemma_mod_breakdown(v as int, p as int, limb_base() as int);
        assert(p * limb_base() == limb_base() * p) by (nonlinear_arith);
        assert(limbs_of(v, n) == limbs_of(v, n1).push(d));
        assert(limbs_value(limbs_of(v, n)) == v % p + (d as nat) * p);
        assert((d as nat) * p == p * ((v / p) % limb_base())) by (nonlinear_arith)
            requires d as nat == (v / p) % limb_base();
        assert(v % bpow(n) == v % (p * limb_base()));
    }
}

/// A limb sequence is the digit expansion of its own value.
pub proof fn lemma_limbs_of_self(s: Seq<u64>)
    ensures
        s == limbs_of(limbs_value(s), s.len()),
{
    let v = limbs_value(s);
    lemma_limbs_of_value(v, s.len());
    lemma_value_bound(s);
    lemma_small_mod(v, bpow(s.len()));
    lemma_value_unique(s, limbs_of(v, s.len()));
}

/// `sig_limbs` is the length of a sequence without superfluous top zero limbs.
pub proof fn lemma_sig_limbs(s: Seq<u64>)
    requires
        s.len() >= 1,
        s.len() > 1 ==> s.last() != 0,
    ensures
        sig_limbs(limbs_value(s)) == s.len(),
    decreases s.len(),
{
    lemma_value_front(s);
    let v = limbs_value(s);
    if s.len() == 1 {
        assert(s.drop_first() =~= Seq::<u64>::empty());
    } else {
        lemma_value_top_nonzero(s);
        lemma_bpow_le(1, (s.len() - 1) as nat);
        lemma_bpow(0);
        let t = s.drop_first();
        lemma_fundamental_div_mod_converse(
            v as int,
            limb_base() as int,
            limbs_value(t) as int,
            s[0] as int,
        );
        assert(t.last() == s.last());
        lemma_sig_limbs(t);
    }
}

/// Facts about the length `sig_limbs` picks.
pub proof fn lemma_sig_limbs_bound(v: nat)
    ensures
        sig_limbs(v) >= 1,
        v < bpow(sig_limbs(v)),
        sig_limbs(v) > 1 ==> v >= bpow((sig_limbs(v) - 1) as nat),
    decreases v,
{
    lemma_bpow(1);
    lemma_bpow(0);
    if v >= limb_base() {
        let q = v / limb_base();
        lemma_sig_limbs_bound(q);
        let k = sig_limbs(q);
        lemma_bpow(k);
        lemma_fundamental_div_mod(v as int, limb_base() as int);
        lemma_mod_bound(v as int, limb_base() as int);
        let r = v % limb_base();
        let p = bpow(k);
        assert(v < limb_base() * p) by (nonlinear_arith)
            requires
                v == limb_base() * q + r,
                r < limb_base(),
                q < p,
        ;
        if k > 1 {
            let k1 = (k - 1) as nat;
            lemma_bpow(k1);
            let p1 = bpow(k1);
            assert(v >= limb_base() * p1) by (nonlinear_arith)
                requires
                    v == limb_base() * q + r,
                    q >= p1,
            ;
        } else {
            assert(q >= 1);
        }
    }
}

/// The digits `limbs_of(v, sig_limbs(v))` have no superfluous top zero limb.
pub proof fn lemma_limbs_of_sig(v: nat)
    ensures
        limbs_of(v, sig_limbs(v)).len() == sig_limbs(v),
        limbs_value(limbs_of(v, sig_limbs(v))) == v,
        sig_limbs(v) > 1 ==> limbs_of(v, sig_limbs(v)).last() != 0,
{
    let k = sig_limbs(v);
    lemma_sig_limbs_bound(v);
    lemma_limbs_of_value(v, k);
    lemma_small_mod(v, bpow(k));
    let s = limbs_of(v, k);
    if k > 1 && s.last() == 0 {
        lemma_value_drop_zero_top(s);
        lemma_value_bound(s.drop_last());
    }
}

} // verus!
