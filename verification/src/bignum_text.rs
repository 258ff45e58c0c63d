//! Reading and writing `ix` integers as hexadecimal text.
use vstd::prelude::*;
use crate::bignum::{ix, ix_canonical, ix_value, ix_zero};
use crate::hex::{
    all_hex_digits, hex_digit_value, hex_value, is_hex_digit, lemma_hex_value_bound,
    lemma_hex_value_concat, lemma_nat_to_hex, lemma_nat_to_hex_split, lemma_pow16, nat_to_hex,
    pad_hex, pow16, push_hex, push_hex_padded,
};
use crate::limbs::{
    bpow, lemma_bpow, lemma_bpow_le, lemma_value_bound, lemma_value_drop_zero_top, lemma_value_unique, lemma_value_front, lemma_value_top_nonzero, lemma_value_zero, limbs_value,
};
use crate::text::{chars_of, push_char};

verus! {

/// Unicode `White_Space`, the set that `char::is_whitespace` and `str::trim` use.
pub open spec fn is_whitespace(c: char) -> bool {
    ('\u{9}' <= c && c <= '\u{d}') || c == ' ' || c == '\u{85}' || c == '\u{a0}' || c
        == '\u{1680}' || ('\u{2000}' <= c && c <= '\u{200a}') || c == '\u{2028}' || c
        == '\u{2029}' || c == '\u{202f}' || c == '\u{205f}' || c == '\u{3000}'
}

/// `s` without its leading whitespace.
pub open spec fn trim_start_ws(s: Seq<char>) -> Seq<char>
    decreases s.len(),
{
    if s.len() > 0 && is_whitespace(s[0]) {
        trim_start_ws(s.drop_first())
    } else {
        s
    }
}

/// `s` without its trailing whitespace.
pub open spec fn trim_end_ws(s: Seq<char>) -> Seq<char>
    decreases s.len(),
{
    if s.len() > 0 && is_whitespace(s.last()) {
        trim_end_ws(s.drop_last())
    } else {
        s
    }
}

/// `s` without leading and trailing whitespace.
pub open spec fn trim_ws(s: Seq<char>) -> Seq<char> {
    trim_end_ws(trim_start_ws(s))
}

/// Removes one leading `+` or `-`; the flag tells whether it was `-`.
pub open spec fn strip_sign(t: Seq<char>) -> (bool, Seq<char>) {
    if t.len() > 0 && t[0] == '+' {
        (false, t.drop_first())
    } else if t.len() > 0 && t[0] == '-' {
        (true, t.drop_first())
    } else {
        (false, t)
    }
}

/// Removes a leading `0x` or `0X`.
pub open spec fn strip_radix_prefix(t: Seq<char>) -> Seq<char> {
    if t.len() >= 2 && t[0] == '0' && (t[1] == 'x' || t[1] == 'X') {
        t.skip(2)
    } else {
        t
    }
}

/// Removes every leading `0`.
pub open spec fn strip_leading_zeros(t: Seq<char>) -> Seq<char>
    decreases t.len(),
{
    if t.len() > 0 && t[0] == '0' {
        strip_leading_zeros(t.drop_first())
    } else {
        t
    }
}

/// The digits of a hexadecimal numeral, after trimming, sign, radix prefix and leading zeros.
pub open spec fn hex_body(s: Seq<char>) -> Seq<char> {
    strip_leading_zeros(strip_radix_prefix(strip_sign(trim_ws(s)).1))
}

/// Whether the numeral starts, after trimming, with `-`.
pub open spec fn hex_negative(s: Seq<char>) -> bool {
    strip_sign(trim_ws(s)).0
}

/// How many 16-digit groups a body of `len` digits splits into.
pub open spec fn num_chunks(len: nat) -> nat {
    (len + 15) / 16
}

/// The `k`-th group of up to 16 digits, counted from the least significant end.
pub open spec fn chunk_at(body: Seq<char>, k: nat) -> Seq<char> {
    let hi = body.len() - 16 * k;
    let lo = if hi > 16 { hi - 16 } else { 0 };
    body.subrange(lo, hi)
}

/// A group that `u64::from_str_radix(_, 16)` accepts: hexadecimal digits,
/// optionally after one `+`.
pub open spec fn chunk_ok(c: Seq<char>) -> bool {
    (c.len() >= 1 && all_hex_digits(c)) || (c.len() >= 2 && c[0] == '+' && all_hex_digits(
        c.drop_first(),
    ))
}

/// The value `u64::from_str_radix(_, 16)` gives an accepted group.
pub open spec fn chunk_value(c: Seq<char>) -> nat {
    if c.len() > 0 && c[0] == '+' {
        hex_value(c.drop_first())
    } else {
        hex_value(c)
    }
}

/// The inputs that `ix_from_hex` accepts: every digit group parses.
pub open spec fn hex_input_ok(s: Seq<char>) -> bool {
    forall|k: nat| k < num_chunks(hex_body(s).len()) ==> chunk_ok(#[trigger] chunk_at(hex_body(s), k))
}

/// The limbs read from a body of digits, one per 16-digit group.
pub open spec fn body_limbs(body: Seq<char>) -> Seq<u64> {
    Seq::new(num_chunks(body.len()), |k: int| chunk_value(chunk_at(body, k as nat)) as u64)
}

/// The exact result of `ix_from_hex`.
pub open spec fn spec_ix_from_hex(s: Seq<char>) -> (bool, Seq<u64>) {
    let body = hex_body(s);
    if body.len() == 0 {
        ix_zero()
    } else {
        (hex_negative(s), body_limbs(body))
    }
}

/// The exact result of `ix_to_hex`: `"0"` for zero, otherwise the shortest
/// lowercase hexadecimal numeral of the magnitude, after `-` when the sign is set.
pub open spec fn spec_ix_to_hex(x: (bool, Seq<u64>)) -> Seq<char> {
    let v = limbs_value(x.1);
    if v == 0 {
        seq!['0']
    } else if x.0 {
        seq!['-'] + nat_to_hex(v)
    } else {
        nat_to_hex(v)
    }
}

/// Whether `c` is Unicode whitespace.
pub fn is_whitespace_char(c: char) -> (r: bool)
    ensures
        r == is_whitespace(c),
{
    ('\u{9}' <= c && c <= '\u{d}') || c == ' ' || c == '\u{85}' || c == '\u{a0}' || c
        == '\u{1680}' || ('\u{2000}' <= c && c <= '\u{200a}') || c == '\u{2028}' || c
        == '\u{2029}' || c == '\u{202f}' || c == '\u{205f}' || c == '\u{3000}'
}

fn hex_digit_val(c: char) -> (d: u64)
    requires
        is_hex_digit(c),
    ensures
        d == hex_digit_value(c),
        d < 16,
{
    if '0' <= c && c <= '9' {
        (c as u32 - 48) as u64
    } else if 'a' <= c && c <= 'f' {
        (c as u32 - 87) as u64
    } else {
        (c as u32 - 55) as u64
    }
}

/// Parses the digit group `v[start..end]` as `u64::from_str_radix(_, 16)` does.
fn parse_chunk(v: &Vec<char>, start: usize, end: usize) -> (r: u64)
    requires
        start < end <= v.len(),
        end - start <= 16,
        chunk_ok(v@.subrange(start as int, end as int)),
    ensures
        r == chunk_value(v@.subrange(start as int, end as int)),
{
    let ghost c = v@.subrange(start as int, end as int);
    let first = if v[start] == '+' { start + 1 } else { start };
    let ghost digits = v@.subrange(first as int, end as int);
    proof {
        if v[start as int] == '+' {
            assert(digits =~= c.drop_first());
        } else {
            assert(digits =~= c);
        }
        assert(all_hex_digits(digits));
    }
    let mut acc: u64 = 0;
    let mut i = first;
    proof {
        lemma_pow16(0);
        assert(v@.subrange(first as int, first as int) =~= Seq::<char>::empty());
    }
    while i < end
        invariant
            first <= i <= end <= v.len(),
            end - first <= 16,
            digits == v@.subrange(first as int, end as int),
            all_hex_digits(digits),
            acc == hex_value(v@.subrange(first as int, i as int)),
            acc < pow16((i - first) as nat),
        decreases end - i,
    {
        assert(is_hex_digit(digits[i - first]));
        let d = hex_digit_val(v[i]);
        proof {
            lemma_pow16((i - first) as nat);
            lemma_pow16(16);
            if i - first < 15 {
                vstd::arithmetic::power2::lemma_pow2_strictly_increases(
                    4 * ((i - first + 1) as nat),
                    64,
                );
            }
            assert(v@.subrange(first as int, i + 1).drop_last() =~= v@.subrange(
                first as int,
                i as int,
            ));
        }
        acc = acc * 16 + d;
        i += 1;
    }
    acc
}

pub(crate) proof fn lemma_trim_start_step(s: Seq<char>, lo: int)
    requires
        0 <= lo < s.len(),
        is_whitespace(s[lo]),
    ensures
        trim_start_ws(s.subrange(lo, s.len() as int)) == trim_start_ws(
            s.subrange(lo + 1, s.len() as int),
        ),
{
    assert(s.subrange(lo, s.len() as int).drop_first() =~= s.subrange(lo + 1, s.len() as int));
}

pub(crate) proof fn lemma_trim_end_step(s: Seq<char>, lo: int, hi: int)
    requires
        0 <= lo < hi <= s.len(),
        is_whitespace(s[hi - 1]),
    ensures
        trim_end_ws(s.subrange(lo, hi)) == trim_end_ws(s.subrange(lo, hi - 1)),
{
    assert(s.subrange(lo, hi).drop_last() =~= s.subrange(lo, hi - 1));
}

proof fn lemma_zeros_step(s: Seq<char>, lo: int, hi: int)
    requires
        0 <= lo < hi <= s.len(),
        s[lo] == '0',
    ensures
        strip_leading_zeros(s.subrange(lo, hi)) == strip_leading_zeros(s.subrange(lo + 1, hi)),
{
    assert(s.subrange(lo, hi).drop_first() =~= s.subrange(lo + 1, hi));
}

/// Where the digits of the numeral `v` lie once surrounding whitespace, one
/// sign, a `0x`/`0X` prefix and leading zeros are skipped, and whether the sign
/// was `-`.
fn locate_hex_body(v: &Vec<char>) -> (r: (bool, usize, usize))
    ensures
        r.1 <= r.2 <= v.len(),
        v@.subrange(r.1 as int, r.2 as int) == hex_body(v@),
        r.0 == hex_negative(v@),
{
    let n = v.len();
    let mut lo: usize = 0;
    assert(v@.subrange(0, n as int) =~= v@);
    while lo < n && is_whitespace_char(v[lo])
        invariant
            lo <= n == v@.len(),
            trim_start_ws(v@) == trim_start_ws(v@.subrange(lo as int, n as int)),
        decreases n - lo,
    {
        proof {
            lemma_trim_start_step(v@, lo as int);
        }
        lo += 1;
    }
    proof {
        if lo == 0 {
            assert(v@.subrange(0, n as int) =~= v@);
        }
    }
    let mut hi: usize = n;
    while hi > lo && is_whitespace_char(v[hi - 1])
        invariant
            lo <= hi <= n == v@.len(),
            trim_ws(v@) == trim_end_ws(v@.subrange(lo as int, hi as int)),
        decreases hi,
    {
        proof {
            lemma_trim_end_step(v@, lo as int, hi as int);
        }
        hi -= 1;
    }
    let ghost t = v@.subrange(lo as int, hi as int);
    assert(trim_ws(v@) == t);
    let mut neg = false;
    if lo < hi && v[lo] == '+' {
        lo += 1;
    } else if lo < hi && v[lo] == '-' {
        lo += 1;
        neg = true;
    }
    proof {
        assert(strip_sign(t).1 =~= v@.subrange(lo as int, hi as int));
    }
    let ghost u = v@.subrange(lo as int, hi as int);
    if hi - lo >= 2 && v[lo] == '0' && (v[lo + 1] == 'x' || v[lo + 1] == 'X') {
        lo += 2;
    }
    proof {
        assert(strip_radix_prefix(u) =~= v@.subrange(lo as int, hi as int));
    }
    while lo < hi && v[lo] == '0'
        invariant
            lo <= hi <= n == v@.len(),
            hex_body(v@) == strip_leading_zeros(v@.subrange(lo as int, hi as int)),
        decreases hi - lo,
    {
        proof {
            lemma_zeros_step(v@, lo as int, hi as int);
        }
        lo += 1;
    }
    assert(strip_sign(t).0 == neg);
    (neg, lo, hi)
}

/// Whether `v[start..end]` is a group that `u64::from_str_radix(_, 16)` accepts.
fn chunk_is_ok(v: &Vec<char>, start: usize, end: usize) -> (r: bool)
    requires
        start <= end <= v.len(),
    ensures
        r == chunk_ok(v@.subrange(start as int, end as int)),
{
    let ghost c = v@.subrange(start as int, end as int);
    if start == end {
        return false;
    }
    let plus = v[start] == '+';
    let first = if plus { start + 1 } else { start };
    assert(c[0] == v@[start as int]);
    if first == end {
        assert(!is_hex_digit(c[0]));
        return false;
    }
    let ghost digits = v@.subrange(first as int, end as int);
    proof {
        if plus {
            assert(digits =~= c.drop_first());
        } else {
            assert(digits =~= c);
        }
    }
    let mut i = first;
    while i < end
        invariant
            start < first <= end || start == first < end,
            first <= i <= end <= v.len(),
            c == v@.subrange(start as int, end as int),
            digits == v@.subrange(first as int, end as int),
            plus == (c[0] == '+'),
            first == if plus { start + 1 } else { start as int },
            plus ==> digits == c.drop_first(),
            !plus ==> digits == c,
            forall|j: int| first <= j < i ==> is_hex_digit(#[trigger] v@[j]),
        decreases end - i,
    {
        let ch = v[i];
        if !(('0' <= ch && ch <= '9') || ('a' <= ch && ch <= 'f') || ('A' <= ch && ch <= 'F')) {
            assert(!is_hex_digit(digits[i - first]));
            assert(!all_hex_digits(digits));
            assert(plus ==> !is_hex_digit(c[0]));
            return false;
        }
        i += 1;
    }
    assert(all_hex_digits(digits)) by {
        assert forall|j: int| 0 <= j < digits.len() implies is_hex_digit(#[trigger] digits[j]) by {
            assert(digits[j] == v@[first + j]);
        }
    }
    true
}

/// Whether `ix_from_hex` accepts `s`: every group of up to 16 digits, counted
/// from the least significant end of the digits, parses as hexadecimal.
pub fn hex_input_valid(s: &str) -> (r: bool)
    ensures
        r == hex_input_ok(s@),
{
    let v = chars_of(s);
    let (_neg, lo, hi) = locate_hex_body(&v);
    let ghost body = v@.subrange(lo as int, hi as int);
    let ghost len = body.len();
    assert(hex_body(s@) == body);
    let mut end = hi;
    let mut k: usize = 0;
    while end > lo
        invariant
            lo <= end <= hi <= v@.len(),
            body == v@.subrange(lo as int, hi as int),
            len == body.len(),
            hex_body(s@) == body,
            k <= num_chunks(len),
            end - lo == if len >= 16 * k { len - 16 * k } else { 0 },
            end > lo ==> k < num_chunks(len),
            end == lo ==> k == num_chunks(len),
            forall|j: nat| j < k ==> chunk_ok(#[trigger] chunk_at(body, j)),
        decreases end - lo,
    {
        let start = if end - lo > 16 { end - 16 } else { lo };
        assert(chunk_at(body, k as nat) =~= v@.subrange(start as int, end as int));
        if !chunk_is_ok(&v, start, end) {
            assert(!chunk_ok(chunk_at(body, k as nat)));
            return false;
        }
        k += 1;
        end = start;
    }
    true
}

/// Reads a signed hexadecimal integer: surrounding whitespace, one `+` or `-`,
/// a `0x`/`0X` prefix and leading zeros are skipped, and the digits are read
/// in groups of 16 from the least significant end, one limb per group.
pub fn ix_from_hex(s: &str) -> (x: ix)
    requires
        hex_input_ok(s@),
    ensures
        x@ == spec_ix_from_hex(s@),
{
    let v = chars_of(s);
    let (neg, lo, hi) = locate_hex_body(&v);
    let ghost body = v@.subrange(lo as int, hi as int);
    assert(hex_body(s@) == body);
    if lo == hi {
        let z = ix { sign: false, vals: vec![0] };
        assert(z.vals@ =~= seq![0u64]);
        return z;
    }
    let ghost len = body.len();
    let mut vals: Vec<u64> = Vec::new();
    let mut end = hi;
    while end > lo
        invariant
            lo < hi <= v@.len(),
            body == v@.subrange(lo as int, hi as int),
            len == body.len(),
            lo <= end <= hi,
            hex_input_ok(s@),
            hex_body(s@) == body,
            vals.len() <= num_chunks(len),
            end - lo == if len >= 16 * vals.len() {
                len - 16 * vals.len()
            } else {
                0
            },
            end > lo ==> vals.len() < num_chunks(len),
            end == lo ==> vals.len() == num_chunks(len),
            forall|j: int|
                0 <= j < vals.len() ==> vals@[j] == chunk_value(chunk_at(body, j as nat)) as u64,
        decreases end - lo,
    {
        let start = if end - lo > 16 { end - 16 } else { lo };
        let ghost k = vals.len() as nat;
        proof {
            assert(chunk_ok(chunk_at(body, k)));
            assert(chunk_at(body, k) =~= v@.subrange(start as int, end as int));
        }
        let limb = parse_chunk(&v, start, end);
        vals.push(limb);
        end = start;
    }
    proof {
        assert(vals@ =~= body_limbs(body));
    }
    ix { sign: neg, vals }
}

proof fn lemma_subrange_value(s: Seq<u64>, i: int, len: int)
    requires
        0 <= i < len <= s.len(),
    ensures
        limbs_value(s.subrange(i, len)) == (s[i] as nat) + bpow(1) * limbs_value(
            s.subrange(i + 1, len),
        ),
{
    lemma_value_front(s.subrange(i, len));
    lemma_bpow(0);
    assert(s.subrange(i, len).drop_first() =~= s.subrange(i + 1, len));
}

/// Writes `x` as a signed lowercase hexadecimal numeral without prefix or
/// leading zeros; zero, whatever its sign, is `"0"`.
pub fn ix_to_hex(x: &ix) -> (s: String)
    ensures
        s@ == spec_ix_to_hex(x@),
{
    let mut len = x.vals.len();
    while len > 0 && x.vals[len - 1] == 0
        invariant
            len <= x.vals.len(),
            forall|i: int| len <= i < x.vals.len() ==> x.vals@[i] == 0,
        decreases len,
    {
        len -= 1;
    }
    let ghost top = x.vals@.subrange(0, len as int);
    proof {
        lemma_strip(x.vals@, len as int);
        assert(top =~= x.vals@.take(len as int));
    }
    let mut s = String::new();
    if len == 0 {
        proof {
            lemma_value_zero(top);
        }
        push_char(&mut s, '0');
        assert(s@ =~= seq!['0']);
        return s;
    }
    if x.sign {
        push_char(&mut s, '-');
    }
    let ghost pre = s@;
    push_hex(&mut s, x.vals[len - 1]);
    proof {
        assert(x.vals@.subrange(len - 1, len as int) =~= seq![x.vals@[len - 1]]);
        lemma_subrange_value(x.vals@, len - 1, len as int);
        assert(x.vals@.subrange(len as int, len as int) =~= Seq::<u64>::empty());
        assert(limbs_value(Seq::<u64>::empty()) == 0);
        assert(bpow(1) * 0 == 0);
        assert(limbs_value(x.vals@.subrange(len - 1, len as int)) == x.vals@[len - 1]);
    }
    let mut i = len - 1;
    while i > 0
        invariant
            0 <= i < len <= x.vals.len(),
            x.vals@[len - 1] != 0,
            s@ == pre + nat_to_hex(limbs_value(x.vals@.subrange(i as int, len as int))),
        decreases i,
    {
        let ghost hi = limbs_value(x.vals@.subrange(i as int, len as int));
        let ghost lo_limb = x.vals@[i - 1];
        push_hex_padded(&mut s, x.vals[i - 1], 16);
        proof {
            lemma_subrange_value(x.vals@, i - 1, len as int);
            let sub = x.vals@.subrange(i as int, len as int);
            assert(sub.last() == x.vals@[len - 1]);
            lemma_value_top_nonzero(sub);
            lemma_bpow((sub.len() - 1) as nat);
            lemma_bpow(0);
            lemma_pow16(16);
            lemma_bpow_one();
            assert(hi * pow16(16) + lo_limb as nat == lo_limb as nat + bpow(1) * hi)
                by (nonlinear_arith)
                requires pow16(16) == bpow(1);
            lemma_nat_to_hex_split(hi, lo_limb as nat, 16);
            assert(pre + nat_to_hex(hi) + pad_hex(lo_limb as nat, 16) =~= pre + (nat_to_hex(hi)
                + pad_hex(lo_limb as nat, 16)));
        }
        i -= 1;
    }
    proof {
        assert(x.vals@.subrange(0, len as int) == top);
        lemma_value_top_nonzero(top);
        lemma_bpow((len - 1) as nat);
        if x.sign {
            assert(pre =~= seq!['-']);
        } else {
            assert(pre =~= Seq::<char>::empty());
            assert(s@ =~= nat_to_hex(limbs_value(top)));
        }
    }
    s
}

proof fn lemma_bpow_one()
    ensures
        bpow(1) == 0x1_0000_0000_0000_0000,
{
    lemma_bpow(0);
}

proof fn lemma_strip(s: Seq<u64>, k: int)
    requires
        0 <= k <= s.len(),
        forall|i: int| k <= i < s.len() ==> s[i] == 0,
    ensures
        limbs_value(s.take(k)) == limbs_value(s),
    decreases s.len() - k,
{
    if k < s.len() {
        lemma_strip(s, k + 1);
        let t = s.take(k + 1);
        assert(t.drop_last() =~= s.take(k));
        assert(t.last() == s[k]);
        lemma_value_drop_zero_top(t);
    } else {
        assert(s.take(k) =~= s);
    }
}


proof fn lemma_all_hex_subrange(s: Seq<char>, lo: int, hi: int)
    requires
        all_hex_digits(s),
        0 <= lo <= hi <= s.len(),
    ensures
        all_hex_digits(s.subrange(lo, hi)),
{
    assert forall|i: int| 0 <= i < hi - lo implies is_hex_digit(#[trigger] s.subrange(lo, hi)[i]) by {
        assert(s.subrange(lo, hi)[i] == s[lo + i]);
    }
}

/// A body of hexadecimal digits splits into accepted groups whose limbs spell its value.
proof fn lemma_body_limbs_value(body: Seq<char>)
    requires
        all_hex_digits(body),
        body.len() >= 1,
    ensures
        limbs_value(body_limbs(body)) == hex_value(body),
        forall|k: nat| k < num_chunks(body.len()) ==> chunk_ok(#[trigger] chunk_at(body, k)),
    decreases body.len(),
{
    let len = body.len();
    let lo: int = if len > 16 { len - 16 } else { 0 };
    let last = body.subrange(lo, len as int);
    lemma_all_hex_subrange(body, lo, len as int);
    assert(chunk_at(body, 0) =~= last);
    assert(is_hex_digit(last[0]));
    lemma_hex_value_bound(last);
    lemma_pow16(16);
    if last.len() < 16 {
        vstd::arithmetic::power2::lemma_pow2_strictly_increases(4 * last.len(), 64);
    }
    let bl = body_limbs(body);
    assert(bl[0] == hex_value(last));
    lemma_value_front(bl);
    lemma_bpow(0);
    if len <= 16 {
        assert(last =~= body);
        assert(bl.drop_first() =~= Seq::<u64>::empty());
        assert forall|k: nat| k < num_chunks(body.len()) implies chunk_ok(
            #[trigger] chunk_at(body, k),
        ) by {
            assert(k == 0);
        }
    } else {
        let pre = body.subrange(0, len - 16);
        lemma_all_hex_subrange(body, 0, len - 16);
        lemma_body_limbs_value(pre);
        assert(num_chunks(pre.len()) + 1 == num_chunks(len));
        assert forall|k: nat| k < num_chunks(pre.len()) implies chunk_at(body, k + 1) =~= chunk_at(
            pre,
            k,
        ) by {}
        assert(bl.drop_first() =~= body_limbs(pre)) by {
            assert forall|k: int| 0 <= k < num_chunks(pre.len()) implies bl.drop_first()[k]
                == body_limbs(pre)[k] by {
                assert(chunk_at(body, (k + 1) as nat) =~= chunk_at(pre, k as nat));
            }
        }
        assert forall|k: nat| k < num_chunks(body.len()) implies chunk_ok(
            #[trigger] chunk_at(body, k),
        ) by {
            if k > 0 {
                assert(chunk_at(body, k) =~= chunk_at(pre, (k - 1) as nat));
            }
        }
        assert(body =~= pre + last);
        lemma_hex_value_concat(pre, last);
        lemma_bpow_one();
    }
}

proof fn lemma_hex_not_space(c: char)
    requires
        is_hex_digit(c),
    ensures
        !is_whitespace(c),
        c != '+' && c != '-',
{
}

/// Where the digits of a written integer lie: none for zero; otherwise the
/// shortest numeral of the magnitude, with the sign read back as written.
proof fn lemma_to_hex_body(x: (bool, Seq<u64>))
    ensures
        limbs_value(x.1) == 0 ==> hex_body(spec_ix_to_hex(x)).len() == 0,
        limbs_value(x.1) > 0 ==> hex_body(spec_ix_to_hex(x)) == nat_to_hex(limbs_value(x.1))
            && hex_negative(spec_ix_to_hex(x)) == x.0,
{
    let v = limbs_value(x.1);
    let s = spec_ix_to_hex(x);
    if v == 0 {
        assert(trim_start_ws(s) == s);
        assert(trim_ws(s) == s);
        assert(strip_sign(s) == (false, s));
        assert(s.drop_first() =~= Seq::<char>::empty());
        assert(strip_radix_prefix(s) == s);
        assert(strip_leading_zeros(Seq::<char>::empty()) == Seq::<char>::empty());
        assert(strip_leading_zeros(s) == strip_leading_zeros(s.drop_first()));
        assert(hex_body(s) =~= Seq::<char>::empty());
    } else {
        let h = nat_to_hex(v);
        lemma_nat_to_hex(v);
        lemma_hex_not_space(h[0]);
        lemma_hex_not_space(h.last());
        assert(is_hex_digit(h[h.len() - 1]));
        if x.0 {
            assert(s[0] == '-');
            assert(s.last() == h.last());
            assert(s.drop_first() =~= h);
        } else {
            assert(s == h);
        }
        assert(trim_start_ws(s) == s);
        assert(trim_ws(s) == s);
        assert(strip_sign(s) == (x.0, h));
        assert(strip_radix_prefix(h) == h);
        assert(strip_leading_zeros(h) == h);
        assert(hex_body(s) == h);
    }
}

/// Writing an integer in hexadecimal and reading the text back gives the same integer,
/// and the text is always accepted by the reader.
pub proof fn law_hex_roundtrip(x: (bool, Seq<u64>))
    ensures
        hex_input_ok(spec_ix_to_hex(x)),
        ix_value(spec_ix_from_hex(spec_ix_to_hex(x))) == ix_value(x),
{
    let v = limbs_value(x.1);
    lemma_to_hex_body(x);
    if v == 0 {
        lemma_value_zero(seq![0u64]);
    } else {
        lemma_nat_to_hex(v);
        lemma_body_limbs_value(nat_to_hex(v));
    }
}

proof fn lemma_nat_to_hex_low(v: nat)
    requires
        v > 0,
    ensures
        v >= pow16((nat_to_hex(v).len() - 1) as nat),
    decreases v,
{
    lemma_pow16(0);
    if v >= 16 {
        lemma_nat_to_hex(v / 16);
        lemma_nat_to_hex_low(v / 16);
        let k = (nat_to_hex(v / 16).len() - 1) as nat;
        assert(nat_to_hex(v).len() == nat_to_hex(v / 16).len() + 1);
        lemma_pow16(k);
        vstd::arithmetic::div_mod::lemma_fundamental_div_mod(v as int, 16);
    }
}

proof fn lemma_pow2_le(a: nat, b: nat)
    requires
        a <= b,
    ensures
        vstd::arithmetic::power2::pow2(a) <= vstd::arithmetic::power2::pow2(b),
{
    if a < b {
        vstd::arithmetic::power2::lemma_pow2_strictly_increases(a, b);
    }
}

/// The limbs that the reader makes of the digits of a positive value have a
/// non-zero top limb.
proof fn lemma_body_limbs_top(v: nat)
    requires
        v > 0,
    ensures
        body_limbs(nat_to_hex(v)).len() >= 1,
        body_limbs(nat_to_hex(v)).last() != 0,
        limbs_value(body_limbs(nat_to_hex(v))) == v,
{
    let h = nat_to_hex(v);
    lemma_nat_to_hex(v);
    lemma_body_limbs_value(h);
    let y = body_limbs(h);
    let len = h.len();
    let m = num_chunks(len);
    assert(m >= 1);
    lemma_nat_to_hex_low(v);
    if y.last() == 0 {
        lemma_value_drop_zero_top(y);
        lemma_value_bound(y.drop_last());
        assert(16 * (m - 1) <= len - 1);
        lemma_pow2_le(64 * ((m - 1) as nat), 4 * ((len - 1) as nat));
        assert(false);
    }
}

/// Writing a canonical integer in hexadecimal and reading the text back gives
/// the same sign and the same limbs.
pub proof fn law_hex_roundtrip_exact(x: (bool, Seq<u64>))
    requires
        ix_canonical(x),
    ensures
        spec_ix_from_hex(spec_ix_to_hex(x)) == x,
{
    law_hex_roundtrip(x);
    lemma_to_hex_body(x);
    let v = limbs_value(x.1);
    let s = spec_ix_to_hex(x);
    if x.1 == seq![0u64] {
        lemma_value_zero(x.1);
        assert(hex_body(s).len() == 0);
    } else {
        if v == 0 {
            lemma_value_zero(x.1);
            assert(x.1[x.1.len() - 1] == 0);
        }
        let h = nat_to_hex(v);
        lemma_nat_to_hex(v);
        lemma_body_limbs_top(v);
        let y = body_limbs(h);
        lemma_value_top_nonzero(x.1);
        lemma_value_bound(x.1);
        lemma_value_top_nonzero(y);
        lemma_value_bound(y);
        let n = x.1.len();
        let m = y.len();
        if n < m {
            lemma_bpow_le(n, (m - 1) as nat);
        } else if m < n {
            lemma_bpow_le(m, (n - 1) as nat);
        }
        lemma_value_unique(x.1, y);
    }
}

/// Reading a numeral whose digits are all hexadecimal and writing it back gives
/// `"0"` when the digits are worth zero, and otherwise the shortest lowercase
/// numeral of their value, after `-` when the numeral was negative.
pub proof fn law_hex_normalizes(s: Seq<char>)
    requires
        all_hex_digits(hex_body(s)),
    ensures
        spec_ix_to_hex(spec_ix_from_hex(s)) == (if hex_value(hex_body(s)) == 0 {
            seq!['0']
        } else if hex_negative(s) {
            seq!['-'] + nat_to_hex(hex_value(hex_body(s)))
        } else {
            nat_to_hex(hex_value(hex_body(s)))
        }),
{
    let body = hex_body(s);
    if body.len() == 0 {
        lemma_value_zero(seq![0u64]);
        assert(body =~= Seq::<char>::empty());
    } else {
        lemma_body_limbs_value(body);
    }
}

} // verus!
