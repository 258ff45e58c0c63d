//! Signed arbitrary-precision integers stored as a sign and little-endian
//! 64-bit limbs, with addition, subtraction and multiplication.
use vstd::prelude::*;
use vstd::arithmetic::div_mod::*;
use crate::limbs::{
    all_zero, bpow, lemma_bpow, lemma_bpow_le, lemma_limbs_of_self, lemma_limbs_of_sig,
    lemma_limbs_of_value, lemma_prefix_value_full, lemma_sig_limbs, lemma_value_bound,
    lemma_value_drop_zero_top, lemma_value_high_zero, lemma_value_push, lemma_value_top_nonzero,
    lemma_value_update, lemma_value_zero, limb_at, lemma_bpow_adds, limb_base, limbs_of, limbs_value, prefix_value, sig_limbs,
};

verus! {

/// A signed integer: `sign` is set for negative numbers, `vals` holds the
/// magnitude as base-2^64 digits, least significant first.
pub struct ix {
    pub sign: bool,
    pub vals: Vec<u64>,
}

impl View for ix {
    type V = (bool, Seq<u64>);

    open spec fn view(&self) -> (bool, Seq<u64>) {
        (self.sign, self.vals@)
    }
}

/// The integer that a sign and a limb sequence denote.
pub open spec fn ix_value(x: (bool, Seq<u64>)) -> int {
    if x.0 {
        -(limbs_value(x.1) as int)
    } else {
        limbs_value(x.1) as int
    }
}

/// The canonical zero: positive, one zero limb.
pub open spec fn ix_zero() -> (bool, Seq<u64>) {
    (false, seq![0u64])
}

/// A result whose magnitude is all zero limbs becomes the canonical zero.
pub open spec fn normalized(sign: bool, vals: Seq<u64>) -> (bool, Seq<u64>) {
    if all_zero(vals) {
        ix_zero()
    } else {
        (sign, vals)
    }
}

pub open spec fn max_len(a: Seq<u64>, b: Seq<u64>) -> nat {
    if a.len() >= b.len() {
        a.len()
    } else {
        b.len()
    }
}

/// The limbs of `a + b`: as many as the longer input, one more when the sum carries out.
pub open spec fn mag_sum(a: Seq<u64>, b: Seq<u64>) -> Seq<u64> {
    let n = max_len(a, b);
    let v = limbs_value(a) + limbs_value(b);
    limbs_of(v, if v < bpow(n) { n } else { n + 1 })
}

/// The limbs of `m - s` without superfluous top zero limbs (at least one limb),
/// or nothing when `m` has no limbs.
pub open spec fn mag_diff(m: Seq<u64>, s: Seq<u64>) -> Seq<u64> {
    if m.len() == 0 {
        Seq::empty()
    } else {
        let d = (limbs_value(m) - limbs_value(s)) as nat;
        limbs_of(d, sig_limbs(d))
    }
}

/// The exact result of `add_ix`.
pub open spec fn spec_add_ix(a: (bool, Seq<u64>), b: (bool, Seq<u64>)) -> (bool, Seq<u64>) {
    if a.0 == b.0 {
        normalized(a.0, mag_sum(a.1, b.1))
    } else if !a.0 {
        if limbs_value(a.1) >= limbs_value(b.1) {
            normalized(false, mag_diff(a.1, b.1))
        } else {
            normalized(true, mag_diff(b.1, a.1))
        }
    } else {
        if limbs_value(b.1) >= limbs_value(a.1) {
            normalized(false, mag_diff(b.1, a.1))
        } else {
            normalized(true, mag_diff(a.1, b.1))
        }
    }
}

/// The exact result of `sub_ix`.
pub open spec fn spec_sub_ix(a: (bool, Seq<u64>), b: (bool, Seq<u64>)) -> (bool, Seq<u64>) {
    if all_zero(b.1) {
        a
    } else {
        spec_add_ix(a, (!b.0, b.1))
    }
}

/// The exact result of `mul_ix`.
pub open spec fn spec_mul_ix(a: (bool, Seq<u64>), b: (bool, Seq<u64>)) -> (bool, Seq<u64>) {
    if all_zero(a.1) || all_zero(b.1) {
        ix_zero()
    } else {
        let p = limbs_value(a.1) * limbs_value(b.1);
        (a.0 != b.0, limbs_of(p, sig_limbs(p)))
    }
}

/// An integer in the form the reader produces: at least one limb, no zero top
/// limb except in the zero `[0]`, and zero never negative.
pub open spec fn ix_canonical(x: (bool, Seq<u64>)) -> bool {
    &&& x.1.len() >= 1
    &&& (x.1 == seq![0u64] || x.1.last() != 0)
    &&& (x.1 == seq![0u64] ==> !x.0)
}

proof fn lemma_normalized_canonical(sign: bool, vals: Seq<u64>)
    requires
        vals.len() >= 1,
        all_zero(vals) || vals.last() != 0,
    ensures
        ix_canonical(normalized(sign, vals)),
{
    if !all_zero(vals) && vals == seq![0u64] {
        assert(vals[0] == 0);
    }
}

proof fn lemma_sig_form(d: nat)
    ensures
        limbs_of(d, sig_limbs(d)).len() >= 1,
        all_zero(limbs_of(d, sig_limbs(d))) || limbs_of(d, sig_limbs(d)).last() != 0,
{
    lemma_limbs_of_sig(d);
    let s = limbs_of(d, sig_limbs(d));
    lemma_value_zero(s);
    if sig_limbs(d) == 1 && d > 0 {
        assert(s.drop_last() =~= Seq::<u64>::empty());
        lemma_bpow(0);
    }
}

proof fn lemma_mag_sum_form(a: Seq<u64>, b: Seq<u64>)
    requires
        ix_canonical((false, a)),
        ix_canonical((false, b)),
    ensures
        mag_sum(a, b).len() >= 1,
        all_zero(mag_sum(a, b)) || mag_sum(a, b).last() != 0,
{
    let n = max_len(a, b);
    let v = limbs_value(a) + limbs_value(b);
    let k = if v < bpow(n) { n } else { n + 1 };
    let s = mag_sum(a, b);
    lemma_mag_sum_value(a, b);
    lemma_limbs_of_value(v, k);
    lemma_value_zero(s);
    if v > 0 && s.last() == 0 {
        lemma_value_drop_zero_top(s);
        lemma_value_bound(s.drop_last());
        if k == n {
            let l = if a.len() >= b.len() { a } else { b };
            lemma_bpow(0);
            if l.last() != 0 {
                lemma_value_top_nonzero(l);
            }
            assert(limbs_value(l) <= v);
        }
    }
}

/// Sums, differences and products of canonical integers are canonical: at
/// least one limb, no zero top limb but in the zero `[0]`, and zero positive.
pub proof fn law_arith_keeps_canonical(a: (bool, Seq<u64>), b: (bool, Seq<u64>))
    requires
        ix_canonical(a),
        ix_canonical(b),
    ensures
        ix_canonical(spec_add_ix(a, b)),
        ix_canonical(spec_sub_ix(a, b)),
        ix_canonical(spec_mul_ix(a, b)),
{
    lemma_add_canonical(a, b);
    if !all_zero(b.1) {
        lemma_add_canonical(a, (!b.0, b.1));
    }
    if !(all_zero(a.1) || all_zero(b.1)) {
        let p = limbs_value(a.1) * limbs_value(b.1);
        lemma_sig_form(p);
        lemma_value_zero(a.1);
        lemma_value_zero(b.1);
        assert(p > 0) by (nonlinear_arith)
            requires limbs_value(a.1) > 0, limbs_value(b.1) > 0, p == limbs_value(a.1) * limbs_value(b.1);
        lemma_limbs_of_sig(p);
        lemma_value_zero(limbs_of(p, sig_limbs(p)));
        if limbs_of(p, sig_limbs(p)) == seq![0u64] {
            assert(all_zero(limbs_of(p, sig_limbs(p))));
        }
    }
}

proof fn lemma_add_canonical(a: (bool, Seq<u64>), b: (bool, Seq<u64>))
    requires
        ix_canonical((false, a.1)),
        ix_canonical((false, b.1)),
    ensures
        ix_canonical(spec_add_ix(a, b)),
{
    if a.0 == b.0 {
        lemma_mag_sum_form(a.1, b.1);
        lemma_normalized_canonical(a.0, mag_sum(a.1, b.1));
    } else {
        lemma_sig_form((limbs_value(a.1) - limbs_value(b.1)) as nat);
        lemma_sig_form((limbs_value(b.1) - limbs_value(a.1)) as nat);
        lemma_normalized_canonical(false, mag_diff(a.1, b.1));
        lemma_normalized_canonical(true, mag_diff(a.1, b.1));
        lemma_normalized_canonical(false, mag_diff(b.1, a.1));
        lemma_normalized_canonical(true, mag_diff(b.1, a.1));
    }
}

/// Whether every limb of `v` is zero.
fn is_all_zero(v: &Vec<u64>) -> (r: bool)
    ensures
        r == all_zero(v@),
{
    let mut i: usize = 0;
    while i < v.len()
        invariant
            i <= v.len(),
            forall|j: int| 0 <= j < i ==> v@[j] == 0,
        decreases v.len() - i,
    {
        if v[i] != 0 {
            return false;
        }
        i += 1;
    }
    true
}

proof fn lemma_prefix_value_step(s: Seq<u64>, i: nat)
    ensures
        prefix_value(s, i + 1) == prefix_value(s, i) + (limb_at(s, i as int) as nat) * bpow(i),
{
}

/// Prefix values stop growing where the remaining limbs are zero.
proof fn lemma_prefix_value_zero_tail(s: Seq<u64>, n: nat, j: nat)
    requires
        n <= j,
        forall|i: int| n <= i < s.len() ==> s[i] == 0,
    ensures
        prefix_value(s, j) == prefix_value(s, n),
    decreases j - n,
{
    if j > n {
        lemma_prefix_value_zero_tail(s, n, (j - 1) as nat);
        assert(limb_at(s, j - 1) == 0);
        assert((limb_at(s, j - 1) as nat) * bpow((j - 1) as nat) == 0);
    }
}

/// `limbs_value(a) + limbs_value(b)`, with as many limbs as the longer input
/// plus one more when the top limbs carry out.
fn add_mag(aug_vals: &Vec<u64>, add_vals: &Vec<u64>) -> (result: Vec<u64>)
    ensures
        result@ == mag_sum(aug_vals@, add_vals@),
{
    let n: usize = if aug_vals.len() >= add_vals.len() {
        aug_vals.len()
    } else {
        add_vals.len()
    };
    let mut result: Vec<u64> = Vec::new();
    let mut carry: u128 = 0;
    let mut i: usize = 0;
    while i < n
        invariant
            n == max_len(aug_vals@, add_vals@),
            i <= n,
            result.len() == i,
            carry <= 1,
            limbs_value(result@) + (carry as nat) * bpow(i as nat) == prefix_value(aug_vals@, i as nat)
                + prefix_value(add_vals@, i as nat),
        decreases n - i,
    {
        let x: u128 = if i < aug_vals.len() { aug_vals[i] as u128 } else { 0 };
        let y: u128 = if i < add_vals.len() { add_vals[i] as u128 } else { 0 };
        let sum: u128 = x + y + carry;
        let low = sum as u64;
        let next_carry = sum >> 64;
        proof {
            assert(low as nat == sum % 0x1_0000_0000_0000_0000 && next_carry == sum
                / 0x1_0000_0000_0000_0000) by (bit_vector)
                requires low == sum as u64 && next_carry == sum >> 64;
            lemma_fundamental_div_mod(sum as int, limb_base() as int);
            lemma_value_push(result@, low);
            lemma_prefix_value_step(aug_vals@, i as nat);
            lemma_prefix_value_step(add_vals@, i as nat);
            lemma_bpow(i as nat);
            let p = bpow(i as nat);
            assert((low as nat) * p + (next_carry as nat) * (limb_base() * p) == (sum as nat) * p)
                by (nonlinear_arith)
                requires sum == limb_base() * next_carry + low;
            assert(x == limb_at(aug_vals@, i as int) && y == limb_at(add_vals@, i as int));
            assert((sum as nat) * p == (x as nat) * p + (y as nat) * p + (carry as nat) * p)
                by (nonlinear_arith)
                requires sum == x + y + carry;
        }
        result.push(low);
        carry = next_carry;
        i += 1;
    }
    proof {
        lemma_prefix_value_full(aug_vals@, n as nat);
        lemma_prefix_value_full(add_vals@, n as nat);
        lemma_value_bound(result@);
        lemma_bpow(n as nat);
    }
    if carry != 0 {
        proof {
            lemma_value_push(result@, carry as u64);
        }
        result.push(carry as u64);
    }
    proof {
        lemma_limbs_of_self(result@);
        lemma_value_bound(result@);
    }
    result
}

/// `limbs_value(min_vals) - limbs_value(sub_vals)` with no superfluous top zero
/// limbs, keeping at least one limb.
fn sub_mag(min_vals: &Vec<u64>, sub_vals: &Vec<u64>) -> (result: Vec<u64>)
    requires
        limbs_value(min_vals@) >= limbs_value(sub_vals@),
    ensures
        result@ == mag_diff(min_vals@, sub_vals@),
{
    let n = min_vals.len();
    let mut result: Vec<u64> = Vec::new();
    let mut borrow: u128 = 0;
    let mut i: usize = 0;
    while i < n
        invariant
            n == min_vals.len(),
            i <= n,
            result.len() == i,
            borrow <= 1,
            limbs_value(result@) + prefix_value(sub_vals@, i as nat) == prefix_value(
                min_vals@,
                i as nat,
            ) + (borrow as nat) * bpow(i as nat),
        decreases n - i,
    {
        let x: u128 = min_vals[i] as u128;
        let y: u128 = if i < sub_vals.len() { sub_vals[i] as u128 } else { 0 };
        assert(1u128 << 64 == 0x1_0000_0000_0000_0000u128) by (bit_vector);
        let diff: u128 = (1u128 << 64) + x - y - borrow;
        let low = diff as u64;
        let next_borrow: u128 = if x < y + borrow { 1 } else { 0 };
        proof {
            assert(low as nat == diff % 0x1_0000_0000_0000_0000) by (bit_vector)
                requires low == diff as u64;
            assert(low + y + borrow == x + next_borrow * limb_base());
            lemma_value_push(result@, low);
            lemma_prefix_value_step(min_vals@, i as nat);
            lemma_prefix_value_step(sub_vals@, i as nat);
            lemma_bpow(i as nat);
            let p = bpow(i as nat);
            assert(x == limb_at(min_vals@, i as int) && y == limb_at(sub_vals@, i as int));
            assert((low as nat) * p + (y as nat) * p + (borrow as nat) * p == (x as nat) * p
                + (next_borrow as nat) * (limb_base() * p)) by (nonlinear_arith)
                requires low + y + borrow == x + next_borrow * limb_base();
        }
        result.push(low);
        borrow = next_borrow;
        i += 1;
    }
    proof {
        lemma_prefix_value_full(min_vals@, n as nat);
        lemma_value_bound(min_vals@);
        lemma_value_bound(result@);
        assert forall|j: int| n <= j < sub_vals@.len() implies sub_vals@[j] == 0 by {
            lemma_value_high_zero(sub_vals@, n as nat, j);
        }
        if sub_vals@.len() > n {
            lemma_prefix_value_zero_tail(sub_vals@, n as nat, sub_vals@.len());
        }
        lemma_prefix_value_full(sub_vals@, if sub_vals@.len() > n {
            sub_vals@.len()
        } else {
            n as nat
        });
        if borrow == 1 {
            lemma_bpow(n as nat);
        }
    }
    let ghost d = limbs_value(min_vals@) - limbs_value(sub_vals@);
    while result.len() > 1 && result[result.len() - 1] == 0
        invariant
            limbs_value(result@) == d,
            1 <= result.len() <= n || result.len() == 0 == n,
        decreases result.len(),
    {
        proof {
            lemma_value_drop_zero_top(result@);
        }
        result.pop();
    }
    proof {
        if n > 0 {
            lemma_sig_limbs(result@);
            lemma_limbs_of_self(result@);
        } else {
            assert(result@ =~= Seq::<u64>::empty());
        }
    }
    result
}

/// The length of `s` once its top zero limbs are dropped, with the value kept.
proof fn lemma_strip_zero_top(s: Seq<u64>, k: int)
    requires
        0 <= k <= s.len(),
        forall|i: int| k <= i < s.len() ==> s[i] == 0,
    ensures
        limbs_value(s.take(k)) == limbs_value(s),
    decreases s.len() - k,
{
    if k < s.len() {
        lemma_strip_zero_top(s, k + 1);
        assert(s.take(k + 1).drop_last() =~= s.take(k));
    } else {
        assert(s.take(k) =~= s);
    }
}

/// Two equal-length limb sequences that first differ, from the top, at `i`
/// compare as their limbs at `i` do.
proof fn lemma_compare_from_top(a: Seq<u64>, b: Seq<u64>, i: int)
    requires
        a.len() == b.len(),
        0 <= i < a.len(),
        forall|j: int| i < j < a.len() ==> a[j] == b[j],
        a[i] > b[i],
    ensures
        limbs_value(a) > limbs_value(b),
    decreases a.len(),
{
    let n1 = (a.len() - 1) as nat;
    if i == a.len() - 1 {
        lemma_value_bound(a.drop_last());
        lemma_value_bound(b.drop_last());
        let p = bpow(n1);
        let va = limbs_value(a.drop_last());
        let vb = limbs_value(b.drop_last());
        let la = a.last() as nat;
        let lb = b.last() as nat;
        assert(va + la * p > vb + lb * p) by (nonlinear_arith)
            requires
                vb < p,
                la >= lb + 1,
        ;
    } else {
        lemma_compare_from_top(a.drop_last(), b.drop_last(), i);
    }
}

/// Whether `limbs_value(a_vals) >= limbs_value(b_vals)`.
fn gte_mag(a_vals: &Vec<u64>, b_vals: &Vec<u64>) -> (r: bool)
    ensures
        r == (limbs_value(a_vals@) >= limbs_value(b_vals@)),
{
    let mut al = a_vals.len();
    while al > 0 && a_vals[al - 1] == 0
        invariant
            al <= a_vals.len(),
            forall|i: int| al <= i < a_vals.len() ==> a_vals@[i] == 0,
        decreases al,
    {
        al -= 1;
    }
    let mut bl = b_vals.len();
    while bl > 0 && b_vals[bl - 1] == 0
        invariant
            bl <= b_vals.len(),
            forall|i: int| bl <= i < b_vals.len() ==> b_vals@[i] == 0,
        decreases bl,
    {
        bl -= 1;
    }
    let ghost sa = a_vals@.take(al as int);
    let ghost sb = b_vals@.take(bl as int);
    proof {
        lemma_strip_zero_top(a_vals@, al as int);
        lemma_strip_zero_top(b_vals@, bl as int);
        lemma_value_bound(sa);
        lemma_value_bound(sb);
        if al > 0 {
            assert(sa.last() == a_vals@[al - 1]);
            lemma_value_top_nonzero(sa);
        }
        if bl > 0 {
            assert(sb.last() == b_vals@[bl - 1]);
            lemma_value_top_nonzero(sb);
        }
    }
    if al != bl {
        proof {
            if al > bl {
                lemma_bpow_le(bl as nat, (al - 1) as nat);
            } else {
                lemma_bpow_le(al as nat, (bl - 1) as nat);
            }
        }
        return al > bl;
    }
    let mut i = al;
    while i > 0
        invariant
            i <= al,
            al == bl,
            al <= a_vals.len(),
            bl <= b_vals.len(),
            sa == a_vals@.take(al as int),
            sb == b_vals@.take(bl as int),
            limbs_value(sa) == limbs_value(a_vals@),
            limbs_value(sb) == limbs_value(b_vals@),
            forall|j: int| i <= j < al ==> a_vals@[j] == b_vals@[j],
        decreases i,
    {
        i -= 1;
        if a_vals[i] != b_vals[i] {
            proof {
                if a_vals@[i as int] > b_vals@[i as int] {
                    lemma_compare_from_top(sa, sb, i as int);
                } else {
                    lemma_compare_from_top(sb, sa, i as int);
                }
            }
            return a_vals[i] > b_vals[i];
        }
    }
    proof {
        assert(sa =~= sb);
    }
    true
}

proof fn lemma_mag_sum_value(a: Seq<u64>, b: Seq<u64>)
    ensures
        limbs_value(mag_sum(a, b)) == limbs_value(a) + limbs_value(b),
{
    let n = max_len(a, b);
    let v = limbs_value(a) + limbs_value(b);
    lemma_value_bound(a);
    lemma_value_bound(b);
    lemma_bpow_le(a.len(), n);
    lemma_bpow_le(b.len(), n);
    lemma_bpow(n);
    let k = if v < bpow(n) { n } else { n + 1 };
    lemma_limbs_of_value(v, k);
    lemma_small_mod(v, bpow(k));
}

proof fn lemma_mag_diff_value(m: Seq<u64>, s: Seq<u64>)
    requires
        limbs_value(m) >= limbs_value(s),
    ensures
        limbs_value(mag_diff(m, s)) == limbs_value(m) - limbs_value(s),
{
    if m.len() > 0 {
        lemma_limbs_of_sig((limbs_value(m) - limbs_value(s)) as nat);
    } else {
        assert(limbs_value(m) == 0);
    }
}

proof fn lemma_normalized_value(sign: bool, vals: Seq<u64>)
    ensures
        ix_value(normalized(sign, vals)) == ix_value((sign, vals)),
        all_zero(vals) ==> normalized(sign, vals) == ix_zero(),
{
    lemma_value_zero(vals);
    lemma_value_zero(seq![0u64]);
}

/// Sum of `a` and `b`; a zero result is the canonical zero.
pub fn add_ix(a: &ix, b: &ix) -> (r: ix)
    ensures
        r@ == spec_add_ix(a@, b@),
        ix_value(r@) == ix_value(a@) + ix_value(b@),
{
    proof {
        lemma_mag_sum_value(a.vals@, b.vals@);
    }
    if a.sign == b.sign {
        let vals = add_mag(&a.vals, &b.vals);
        let is_zero = is_all_zero(&vals);
        proof {
            lemma_normalized_value(a.sign, vals@);
        }
        if is_zero {
            ix { sign: false, vals: vec![0] }
        } else {
            ix { sign: a.sign, vals }
        }
    } else if !a.sign {
        if gte_mag(&a.vals, &b.vals) {
            let vals = sub_mag(&a.vals, &b.vals);
            proof {
                lemma_mag_diff_value(a.vals@, b.vals@);
                lemma_normalized_value(false, vals@);
            }
            if is_all_zero(&vals) {
                ix { sign: false, vals: vec![0] }
            } else {
                ix { sign: false, vals }
            }
        } else {
            let vals = sub_mag(&b.vals, &a.vals);
            proof {
                lemma_mag_diff_value(b.vals@, a.vals@);
                lemma_normalized_value(true, vals@);
            }
            if is_all_zero(&vals) {
                ix { sign: false, vals: vec![0] }
            } else {
                ix { sign: true, vals }
            }
        }
    } else {
        if gte_mag(&b.vals, &a.vals) {
            let vals = sub_mag(&b.vals, &a.vals);
            proof {
                lemma_mag_diff_value(b.vals@, a.vals@);
                lemma_normalized_value(false, vals@);
            }
            if is_all_zero(&vals) {
                ix { sign: false, vals: vec![0] }
            } else {
                ix { sign: false, vals }
            }
        } else {
            let vals = sub_mag(&a.vals, &b.vals);
            proof {
                lemma_mag_diff_value(a.vals@, b.vals@);
                lemma_normalized_value(true, vals@);
            }
            if is_all_zero(&vals) {
                ix { sign: false, vals: vec![0] }
            } else {
                ix { sign: true, vals }
            }
        }
    }
}

fn clone_limbs(v: &Vec<u64>) -> (r: Vec<u64>)
    ensures
        r@ == v@,
{
    let mut r: Vec<u64> = Vec::new();
    let mut i: usize = 0;
    while i < v.len()
        invariant
            i <= v.len(),
            r@ == v@.take(i as int),
        decreases v.len() - i,
    {
        r.push(v[i]);
        assert(v@.take(i as int).push(v@[i as int]) =~= v@.take(i + 1));
        i += 1;
    }
    assert(v@.take(v.len() as int) =~= v@);
    r
}

/// Difference `a - b`. When `b` is zero the result is a copy of `a`.
pub fn sub_ix(a: &ix, b: &ix) -> (r: ix)
    ensures
        r@ == spec_sub_ix(a@, b@),
        ix_value(r@) == ix_value(a@) - ix_value(b@),
{
    let b_is_zero = is_all_zero(&b.vals);
    proof {
        lemma_value_zero(b.vals@);
    }
    if b_is_zero {
        return ix { sign: a.sign, vals: clone_limbs(&a.vals) };
    }
    let nb = ix { sign: !b.sign, vals: clone_limbs(&b.vals) };
    add_ix(a, &nb)
}


/// Product `a * b`. The magnitude has no superfluous top zero limbs; a zero
/// product is the canonical zero, any other product is negative exactly when
/// the signs differ.
pub fn mul_ix(a: &ix, b: &ix) -> (r: ix)
    requires
        a.vals.len() + b.vals.len() <= usize::MAX,
    ensures
        r@ == spec_mul_ix(a@, b@),
        ix_value(r@) == ix_value(a@) * ix_value(b@),
{
    let a_zero = is_all_zero(&a.vals);
    let b_zero = is_all_zero(&b.vals);
    proof {
        lemma_value_zero(a.vals@);
        lemma_value_zero(b.vals@);
    }
    if a_zero || b_zero {
        proof {
            let va = limbs_value(a.vals@);
            let vb = limbs_value(b.vals@);
            assert(va * vb == 0) by (nonlinear_arith)
                requires va == 0 || vb == 0;
            assert(ix_value(a@) == 0 || ix_value(b@) == 0);
            assert(ix_value(a@) * ix_value(b@) == 0) by (nonlinear_arith)
                requires ix_value(a@) == 0 || ix_value(b@) == 0;
            lemma_value_zero(seq![0u64]);
        }
        let z = ix { sign: false, vals: vec![0] };
        assert(z.vals@ =~= seq![0u64]);
        return z;
    }
    let n = a.vals.len();
    let m = b.vals.len();
    let mut out: Vec<u64> = vec![0; n + m];
    let ghost vb = limbs_value(b.vals@);
    proof {
        lemma_value_zero(out@);
        lemma_prefix_value_full(b.vals@, m as nat);
        assert(0 * vb == 0) by (nonlinear_arith);
    }
    let mut i: usize = 0;
    while i < n
        invariant
            n == a.vals.len(),
            m == b.vals.len(),
            n + m <= usize::MAX,
            i <= n,
            out.len() == n + m,
            vb == limbs_value(b.vals@),
            vb == prefix_value(b.vals@, m as nat),
            limbs_value(out@) == prefix_value(a.vals@, i as nat) * vb,
            forall|k: int| i + m <= k < n + m ==> out@[k] == 0,
        decreases n - i,
    {
        let ai: u128 = a.vals[i] as u128;
        let mut carry: u128 = 0;
        let ghost pa = prefix_value(a.vals@, i as nat);
        proof {
            let pi = bpow(i as nat);
            assert((ai as nat) * 0 * pi == 0) by (nonlinear_arith);
            assert(0 * pi == 0) by (nonlinear_arith);
        }
        let mut j: usize = 0;
        while j < m
            invariant
                n == a.vals.len(),
                m == b.vals.len(),
                n + m <= usize::MAX,
                i < n,
                j <= m,
                out.len() == n + m,
                ai == a.vals@[i as int],
                carry < limb_base(),
                limbs_value(out@) + (carry as nat) * bpow((i + j) as nat) == pa * vb + (ai as nat)
                    * prefix_value(b.vals@, j as nat) * bpow(i as nat),
                forall|k: int| i + m <= k < n + m ==> out@[k] == 0,
            decreases m - j,
        {
            let bj: u128 = b.vals[j] as u128;
            let old: u128 = out[i + j] as u128;
            proof {
                assert(ai * bj <= 0xffff_ffff_ffff_fffe_0000_0000_0000_0001) by (nonlinear_arith)
                    requires
                        ai <= 0xffff_ffff_ffff_ffff,
                        bj <= 0xffff_ffff_ffff_ffff,
                ;
            }
            let acc: u128 = old + ai * bj + carry;
            let low = acc as u64;
            let next_carry = acc >> 64;
            proof {
                assert(low as nat == acc % 0x1_0000_0000_0000_0000 && next_carry == acc
                    / 0x1_0000_0000_0000_0000) by (bit_vector)
                    requires low == acc as u64 && next_carry == acc >> 64;
                lemma_fundamental_div_mod(acc as int, limb_base() as int);
                lemma_value_update(out@, (i + j) as int, low);
                lemma_bpow((i + j) as nat);
                lemma_bpow_adds(i as nat, j as nat);
                lemma_prefix_value_step(b.vals@, j as nat);
                assert(limb_at(b.vals@, j as int) == bj);
                let p = bpow((i + j) as nat);
                let pi = bpow(i as nat);
                let pj = bpow(j as nat);
                let pvb = prefix_value(b.vals@, j as nat);
                assert((low as nat) * p + (next_carry as nat) * (limb_base() * p) == (acc as nat) * p)
                    by (nonlinear_arith)
                    requires acc == limb_base() * next_carry + low;
                assert((acc as nat) * p == (old as nat) * p + (ai as nat) * (bj as nat) * p
                    + (carry as nat) * p) by (nonlinear_arith)
                    requires acc == old + ai * bj + carry;
                assert((ai as nat) * (pvb + (bj as nat) * pj) * pi == (ai as nat) * pvb * pi
                    + (ai as nat) * (bj as nat) * p) by (nonlinear_arith)
                    requires p == pi * pj;
                assert(next_carry < limb_base()) by (nonlinear_arith)
                    requires
                        acc == limb_base() * next_carry + low,
                        acc <= 0xffff_ffff_ffff_ffff_ffff_ffff_ffff_ffff,
                        low >= 0,
                ;
            }
            out.set(i + j, low);
            carry = next_carry;
            j += 1;
        }
        proof {
            assert(out@[(i + m) as int] == 0);
            lemma_value_update(out@, (i + m) as int, carry as u64);
            lemma_prefix_value_step(a.vals@, i as nat);
            assert(limb_at(a.vals@, i as int) == ai);
            lemma_bpow_adds(i as nat, m as nat);
            let pi = bpow(i as nat);
            assert((ai as nat) * vb * pi == (ai as nat) * pi * vb) by (nonlinear_arith);
            assert((pa + (ai as nat) * pi) * vb == pa * vb + (ai as nat) * pi * vb)
                by (nonlinear_arith);
        }
        let top = out[i + m] as u128 + carry;
        out.set(i + m, top as u64);
        i += 1;
    }
    proof {
        lemma_prefix_value_full(a.vals@, n as nat);
    }
    let ghost prod = limbs_value(a.vals@) * vb;
    let mut k = out.len();
    while k > 1 && out[k - 1] == 0
        invariant
            1 <= k <= out.len(),
            out.len() == n + m,
            limbs_value(out@) == prod,
            forall|idx: int| k <= idx < out.len() ==> out@[idx] == 0,
        decreases k,
    {
        k -= 1;
    }
    proof {
        lemma_strip_zero_top(out@, k as int);
    }
    out.truncate(k);
    proof {
        assert(k >= 1);
        if k > 1 {
            assert(out@.last() != 0);
        }
        lemma_sig_limbs(out@);
        lemma_limbs_of_self(out@);
        let va = limbs_value(a.vals@) as int;
        let vbi = vb as int;
        if a.sign && b.sign {
            assert((-va) * (-vbi) == va * vbi) by (nonlinear_arith);
        } else if a.sign {
            assert((-va) * vbi == -(va * vbi)) by (nonlinear_arith);
        } else if b.sign {
            assert(va * (-vbi) == -(va * vbi)) by (nonlinear_arith);
        }
    }
    ix { sign: a.sign != b.sign, vals: out }
}

} // verus!
