//! Decimal numerals: writing a `usize` as `Display` does, and reading one as
//! `usize::from_str` does.
use vstd::prelude::*;
use crate::text::push_char;

verus! {

/// The decimal digit character for `d < 10`.
pub open spec fn dec_digit(d: nat) -> char {
    (48 + d) as char
}

pub open spec fn is_dec_digit(c: char) -> bool {
    '0' <= c && c <= '9'
}

pub open spec fn all_dec_digits(s: Seq<char>) -> bool {
    forall|i: int| 0 <= i < s.len() ==> is_dec_digit(#[trigger] s[i])
}

/// The number that a string of decimal digits spells.
pub open spec fn dec_value(s: Seq<char>) -> nat
    decreases s.len(),
{
    if s.len() == 0 {
        0
    } else {
        dec_value(s.drop_last()) * 10 + (s.last() as int - 48) as nat
    }
}

/// The shortest decimal numeral for `v`.
pub open spec fn nat_to_dec(v: nat) -> Seq<char>
    decreases v,
{
    if v < 10 {
        seq![dec_digit(v)]
    } else {
        nat_to_dec(v / 10).push(dec_digit(v % 10))
    }
}

/// What `usize::from_str` gives: digits after at most one `+`, whose value fits.
pub open spec fn parse_usize(s: Seq<char>) -> Option<nat> {
    let d = if s.len() > 0 && s[0] == '+' { s.drop_first() } else { s };
    if d.len() >= 1 && all_dec_digits(d) && dec_value(d) <= usize::MAX {
        Some(dec_value(d))
    } else {
        None
    }
}

/// Properties of the numeral `nat_to_dec(v)`.
pub proof fn lemma_nat_to_dec(v: nat)
    ensures
        nat_to_dec(v).len() >= 1,
        all_dec_digits(nat_to_dec(v)),
        dec_value(nat_to_dec(v)) == v,
    decreases v,
{
    let s = nat_to_dec(v);
    if v < 10 {
        assert(s.drop_last() =~= Seq::<char>::empty());
        assert(dec_value(Seq::<char>::empty()) == 0);
    } else {
        lemma_nat_to_dec(v / 10);
        assert(s.drop_last() =~= nat_to_dec(v / 10));
        assert forall|i: int| 0 <= i < s.len() implies is_dec_digit(#[trigger] s[i]) by {
            if i < s.len() - 1 {
                assert(s[i] == nat_to_dec(v / 10)[i]);
            }
        }
    }
}

/// Reading back a written `usize` gives it again.
pub proof fn lemma_parse_usize_of_dec(v: nat)
    requires
        v <= usize::MAX,
    ensures
        parse_usize(nat_to_dec(v)) == Some(v),
{
    lemma_nat_to_dec(v);
    let s = nat_to_dec(v);
    assert(is_dec_digit(s[0]));
}

/// Appends the decimal numeral of `x`, as `format!("{}", x)` writes it.
pub fn push_decimal(s: &mut String, x: usize)
    ensures
        final(s)@ == old(s)@ + nat_to_dec(x as nat),
    decreases x,
{
    if x >= 10 {
        push_decimal(s, x / 10);
    }
    let d = (x % 10) as u8;
    push_char(s, (48 + d) as char);
    proof {
        if x >= 10 {
            assert(old(s)@ + nat_to_dec(x as nat) =~= old(s)@ + nat_to_dec((x / 10) as nat) + seq![
                dec_digit((x % 10) as nat),
            ]);
        } else {
            assert(old(s)@ + nat_to_dec(x as nat) =~= old(s)@.push(dec_digit((x % 10) as nat)));
        }
    }
}

/// Reads `s[lo..hi]` as `usize::from_str` does.
pub fn parse_usize_range(s: &Vec<char>, lo: usize, hi: usize) -> (r: Option<usize>)
    requires
        lo <= hi <= s.len(),
    ensures
        r matches Some(v) ==> parse_usize(s@.subrange(lo as int, hi as int)) == Some(v as nat),
        r is None ==> parse_usize(s@.subrange(lo as int, hi as int)) is None,
{
    let ghost t = s@.subrange(lo as int, hi as int);
    let first = if lo < hi && s[lo] == '+' { lo + 1 } else { lo };
    let ghost d = s@.subrange(first as int, hi as int);
    proof {
        if lo < hi && s[lo as int] == '+' {
            assert(d =~= t.drop_first());
        } else {
            assert(d =~= t);
        }
    }
    if first == hi {
        return None;
    }
    let mut acc: usize = 0;
    let mut i = first;
    assert(s@.subrange(first as int, first as int) =~= Seq::<char>::empty());
    while i < hi
        invariant
            first <= i <= hi <= s.len(),
            d == s@.subrange(first as int, hi as int),
            t == s@.subrange(lo as int, hi as int),
            parse_usize(t) == (if d.len() >= 1 && all_dec_digits(d) && dec_value(d) <= usize::MAX {
                Some(dec_value(d))
            } else {
                None
            }),
            acc == dec_value(s@.subrange(first as int, i as int)),
            forall|j: int| first <= j < i ==> is_dec_digit(#[trigger] s@[j]),
        decreases hi - i,
    {
        let c = s[i];
        if !('0' <= c && c <= '9') {
            proof {
                assert(!is_dec_digit(d[i - first]));
            }
            return None;
        }
        let digit = (c as u32 - 48) as usize;
        proof {
            assert(s@.subrange(first as int, i + 1).drop_last() =~= s@.subrange(
                first as int,
                i as int,
            ));
        }
        if acc > (usize::MAX - digit) / 10 {
            proof {
                assert(acc * 10 + digit > usize::MAX) by (nonlinear_arith)
                    requires acc > (usize::MAX - digit) / 10, digit <= 9;
                assert(d.take((i + 1 - first) as int) =~= s@.subrange(first as int, i + 1));
                if all_dec_digits(d) {
                    lemma_dec_value_prefix_mono(d, (i + 1 - first) as int);
                }
            }
            return None;
        }
        acc = acc * 10 + digit;
        i += 1;
    }
    proof {
        assert(s@.subrange(first as int, hi as int) == d);
        assert(all_dec_digits(d)) by {
            assert forall|j: int| 0 <= j < d.len() implies is_dec_digit(#[trigger] d[j]) by {
                assert(d[j] == s@[first + j]);
            }
        }
    }
    Some(acc)
}

/// The value of a prefix of a numeral is at most the value of the numeral.
proof fn lemma_dec_value_prefix_mono(d: Seq<char>, k: int)
    requires
        0 <= k <= d.len(),
        all_dec_digits(d),
    ensures
        dec_value(d.take(k)) <= dec_value(d),
    decreases d.len() - k,
{
    if k < d.len() {
        lemma_dec_value_prefix_mono(d, k + 1);
        assert(d.take(k + 1).drop_last() =~= d.take(k));
        assert(is_dec_digit(d[k]));
    } else {
        assert(d.take(k) =~= d);
    }
}

} // verus!
