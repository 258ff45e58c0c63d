//! Lowercase hexadecimal digits of natural numbers, and the value of hexadecimal text.
use vstd::prelude::*;
use vstd::arithmetic::power2::*;
use vstd::arithmetic::div_mod::*;
use crate::text::push_char;

verus! {

/// The lowercase hexadecimal digit for `d < 16`.
pub open spec fn hex_digit(d: nat) -> char {
    if d < 10 {
        (48 + d) as char
    } else {
        (87 + d) as char
    }
}

/// Whether `c` is a hexadecimal digit, in either case.
pub open spec fn is_hex_digit(c: char) -> bool {
    ('0' <= c && c <= '9') || ('a' <= c && c <= 'f') || ('A' <= c && c <= 'F')
}

/// The value of a hexadecimal digit.
pub open spec fn hex_digit_value(c: char) -> nat {
    if '0' <= c && c <= '9' {
        (c as int - 48) as nat
    } else if 'a' <= c && c <= 'f' {
        (c as int - 87) as nat
    } else {
        (c as int - 55) as nat
    }
}

/// Every character of `s` is a hexadecimal digit.
pub open spec fn all_hex_digits(s: Seq<char>) -> bool {
    forall|i: int| 0 <= i < s.len() ==> is_hex_digit(#[trigger] s[i])
}

/// The number that a string of hexadecimal digits spells, most significant first.
pub open spec fn hex_value(s: Seq<char>) -> nat
    decreases s.len(),
{
    if s.len() == 0 {
        0
    } else {
        hex_value(s.drop_last()) * 16 + hex_digit_value(s.last())
    }
}

/// The shortest lowercase hexadecimal numeral for `v` (`"0"` for zero).
pub open spec fn nat_to_hex(v: nat) -> Seq<char>
    decreases v,
{
    if v < 16 {
        seq![hex_digit(v)]
    } else {
        nat_to_hex(v / 16).push(hex_digit(v % 16))
    }
}

/// The `k` least significant lowercase hexadecimal digits of `v`, zero-padded.
pub open spec fn pad_hex(v: nat, k: nat) -> Seq<char>
    decreases k,
{
    if k == 0 {
        Seq::empty()
    } else {
        pad_hex(v / 16, (k - 1) as nat).push(hex_digit(v % 16))
    }
}

/// 16 raised to `k`.
pub open spec fn pow16(k: nat) -> nat {
    pow2(4 * k)
}

pub proof fn lemma_pow16(k: nat)
    ensures
        pow16(0) == 1,
        pow16(k + 1) == 16 * pow16(k),
        pow16(k) > 0,
        pow16(16) == 0x1_0000_0000_0000_0000,
{
    lemma2_to64();
    lemma2_to64_rest();
    lemma_pow2_adds(4, 4 * k);
    lemma_pow2_pos(4 * k);
    assert(4 * (k + 1) == 4 + 4 * k);
}

pub proof fn lemma_hex_digit(d: nat)
    requires
        d < 16,
    ensures
        is_hex_digit(hex_digit(d)),
        hex_digit_value(hex_digit(d)) == d,
        hex_digit(d) != '-' && hex_digit(d) != '+',
        d > 0 ==> hex_digit(d) != '0',
{
}

/// `nat_to_hex` spells its argument, in hexadecimal digits.
pub proof fn lemma_nat_to_hex(v: nat)
    ensures
        all_hex_digits(nat_to_hex(v)),
        hex_value(nat_to_hex(v)) == v,
        nat_to_hex(v).len() >= 1,
        v > 0 ==> nat_to_hex(v)[0] != '0',
        nat_to_hex(v)[0] != '-' && nat_to_hex(v)[0] != '+',
    decreases v,
{
    if v < 16 {
        lemma_hex_digit(v);
        assert(nat_to_hex(v).drop_last() =~= Seq::<char>::empty());
        assert(hex_value(Seq::<char>::empty()) == 0);
        assert(hex_value(nat_to_hex(v)) == hex_digit_value(hex_digit(v)));
    } else {
        lemma_nat_to_hex(v / 16);
        lemma_hex_digit(v % 16);
        lemma_fundamental_div_mod(v as int, 16);
        let s = nat_to_hex(v);
        assert(s.drop_last() =~= nat_to_hex(v / 16));
        assert forall|i: int| 0 <= i < s.len() implies is_hex_digit(#[trigger] s[i]) by {
            if i < s.len() - 1 {
                assert(s[i] == nat_to_hex(v / 16)[i]);
            }
        }
        assert(s[0] == nat_to_hex(v / 16)[0]);
        assert(s.last() == hex_digit(v % 16));
        assert(hex_value(s) == hex_value(nat_to_hex(v / 16)) * 16 + (v % 16));
    }
}

/// Padded digits spell the value modulo `16^k`.
pub proof fn lemma_pad_hex(v: nat, k: nat)
    ensures
        pad_hex(v, k).len() == k,
        all_hex_digits(pad_hex(v, k)),
        hex_value(pad_hex(v, k)) == v % pow16(k),
    decreases k,
{
    lemma_pow16(k);
    if k == 0 {
        assert(v % 1 == 0) by (nonlinear_arith);
    } else {
        let k1 = (k - 1) as nat;
        lemma_pad_hex(v / 16, k1);
        lemma_hex_digit(v % 16);
        lemma_pow16(k1);
        let s = pad_hex(v, k);
        assert(s.drop_last() =~= pad_hex(v / 16, k1));
        assert forall|i: int| 0 <= i < s.len() implies is_hex_digit(#[trigger] s[i]) by {
            if i < s.len() - 1 {
                assert(s[i] == pad_hex(v / 16, k1)[i]);
            }
        }
        lemma_mod_breakdown(v as int, 16, pow16(k1) as int);
        assert(16 * pow16(k1) == pow16(k));
    }
}

/// The numeral of `hi * 16^k + lo` is that of `hi` followed by `k` padded digits of `lo`.
pub proof fn lemma_nat_to_hex_split(hi: nat, lo: nat, k: nat)
    requires
        hi > 0,
        lo < pow16(k),
    ensures
        nat_to_hex(hi * pow16(k) + lo) == nat_to_hex(hi) + pad_hex(lo, k),
    decreases k,
{
    lemma_pow16(k);
    if k == 0 {
        assert(lo == 0);
        assert(hi * 1 == hi);
        assert(nat_to_hex(hi) + pad_hex(lo, k) =~= nat_to_hex(hi));
    } else {
        let k1 = (k - 1) as nat;
        lemma_pow16(k1);
        let p1 = pow16(k1);
        let v = hi * pow16(k) + lo;
        assert(v == 16 * (hi * p1 + lo / 16) + lo % 16 && v >= 16) by (nonlinear_arith)
            requires
                v == hi * pow16(k) + lo,
                pow16(k) == 16 * p1,
                lo == 16 * (lo / 16) + lo % 16,
                hi >= 1,
                p1 >= 1,
        {
        }
        lemma_fundamental_div_mod(lo as int, 16);
        lemma_mod_bound(lo as int, 16);
        lemma_fundamental_div_mod_converse(v as int, 16, (hi * p1 + lo / 16) as int, (lo % 16) as int);
        assert(lo / 16 < p1) by (nonlinear_arith)
            requires
                lo < 16 * p1,
                lo == 16 * (lo / 16) + lo % 16,
                lo % 16 >= 0,
        ;
        lemma_nat_to_hex_split(hi, lo / 16, k1);
        assert(nat_to_hex(v) =~= nat_to_hex(hi) + pad_hex(lo, k));
    }
}

/// Reading a concatenation of hexadecimal strings.
pub proof fn lemma_hex_value_concat(a: Seq<char>, b: Seq<char>)
    ensures
        hex_value(a + b) == hex_value(a) * pow16(b.len()) + hex_value(b),
    decreases b.len(),
{
    lemma_pow16(b.len());
    if b.len() == 0 {
        assert(a + b =~= a);
    } else {
        let b1 = b.drop_last();
        lemma_hex_value_concat(a, b1);
        assert((a + b).drop_last() =~= a + b1);
        lemma_pow16(b1.len());
        let ha = hex_value(a);
        let p = pow16(b1.len());
        assert((ha * p + hex_value(b1)) * 16 == ha * (16 * p) + hex_value(b1) * 16)
            by (nonlinear_arith);
    }
}

/// A string of at most `k` hexadecimal digits is worth less than `16^k`.
pub proof fn lemma_hex_value_bound(s: Seq<char>)
    requires
        all_hex_digits(s),
    ensures
        hex_value(s) < pow16(s.len()),
    decreases s.len(),
{
    lemma_pow16(s.len());
    if s.len() > 0 {
        let s1 = s.drop_last();
        assert(all_hex_digits(s1)) by {
            assert forall|i: int| 0 <= i < s1.len() implies is_hex_digit(#[trigger] s1[i]) by {
                assert(s1[i] == s[i]);
            }
        }
        lemma_hex_value_bound(s1);
        lemma_pow16(s1.len());
        assert(is_hex_digit(s[s.len() - 1]));
        assert(hex_digit_value(s.last()) < 16);
    }
}

/// The hexadecimal digit for `d < 16`.
pub fn hex_digit_char(d: u64) -> (c: char)
    requires
        d < 16,
    ensures
        c == hex_digit(d as nat),
{
    if d < 10 {
        let b: u8 = 48 + d as u8;
        b as char
    } else {
        let b: u8 = 87 + d as u8;
        b as char
    }
}

/// Appends the shortest lowercase hexadecimal numeral for `x` to `s`.
pub fn push_hex(s: &mut String, x: u64)
    ensures
        final(s)@ == old(s)@ + nat_to_hex(x as nat),
    decreases x,
{
    if x >= 16 {
        push_hex(s, x / 16);
    }
    push_char(s, hex_digit_char(x % 16));
    proof {
        if x >= 16 {
            assert(old(s)@ + nat_to_hex(x as nat) =~= old(s)@ + nat_to_hex((x / 16) as nat) + seq![
                hex_digit((x % 16) as nat),
            ]);
        } else {
            assert(old(s)@ + nat_to_hex(x as nat) =~= old(s)@.push(hex_digit((x % 16) as nat)));
        }
    }
}

/// Appends the `k` least significant lowercase hexadecimal digits of `x`, zero-padded.
pub fn push_hex_padded(s: &mut String, x: u64, k: u64)
    ensures
        final(s)@ == old(s)@ + pad_hex(x as nat, k as nat),
    decreases k,
{
    if k > 0 {
        push_hex_padded(s, x / 16, k - 1);
        push_char(s, hex_digit_char(x % 16));
        proof {
            assert(old(s)@ + pad_hex(x as nat, k as nat) =~= old(s)@ + pad_hex(
                (x / 16) as nat,
                (k - 1) as nat,
            ) + seq![hex_digit((x % 16) as nat)]);
        }
    } else {
        assert(old(s)@ + pad_hex(x as nat, 0) =~= old(s)@);
    }
}

} // verus!
