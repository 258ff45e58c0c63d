//! Base85 in the Ascii85 alphabet (`!` to `u`), without the `z` abbreviation.
use vstd::prelude::*;
use vstd::arithmetic::div_mod::*;
use crate::text::push_char;

verus! {

/// The Ascii85 digit for `n < 85`.
pub open spec fn b85_char(n: nat) -> char {
    (33 + n) as char
}

/// 85 raised to `k`, for `k <= 5`.
pub open spec fn p85(k: nat) -> nat {
    if k == 0 {
        1
    } else if k == 1 {
        85
    } else if k == 2 {
        7225
    } else if k == 3 {
        614125
    } else if k == 4 {
        52200625
    } else {
        4437053125
    }
}

/// The five base-85 digits of `v`, most significant first.
pub open spec fn b85_digits(v: nat) -> Seq<nat> {
    seq![(v / 52200625) % 85, (v / 614125) % 85, (v / 7225) % 85, (v / 85) % 85, v % 85]
}

/// The 32-bit big-endian value of four bytes.
pub open spec fn quad(a: u8, b: u8, c: u8, d: u8) -> nat {
    (a as nat) * 16777216 + (b as nat) * 65536 + (c as nat) * 256 + (d as nat)
}

/// The characters for the first `count` digits of `v`.
pub open spec fn b85_chars(v: nat, count: int) -> Seq<char> {
    b85_digits(v).take(count).map_values(|x: nat| b85_char(x))
}

/// The Base85 text of `s`: each group of four bytes gives five digits; a final
/// group of `r < 4` bytes, read with zero bytes after it, gives its first `r + 1` digits.
pub open spec fn base85_spec(s: Seq<u8>) -> Seq<char>
    decreases s.len(),
{
    if s.len() >= 4 {
        b85_chars(quad(s[0], s[1], s[2], s[3]), 5) + base85_spec(s.skip(4))
    } else if s.len() == 3 {
        b85_chars(quad(s[0], s[1], s[2], 0), 4)
    } else if s.len() == 2 {
        b85_chars(quad(s[0], s[1], 0, 0), 3)
    } else if s.len() == 1 {
        b85_chars(quad(s[0], 0, 0, 0), 2)
    } else {
        Seq::empty()
    }
}

/// The Ascii85 digit for `n`, or `None` when `n` is 85 or more.
pub fn num_to_b85(n: u8) -> (r: Option<char>)
    ensures
        n < 85 ==> r == Some(b85_char(n as nat)),
        n >= 85 ==> r is None,
{
    if n >= 85 {
        return None;
    }
    Some((33 + n) as char)
}

/// Appends the first `count` digits of the 32-bit group `quad`.
fn push_group(out: &mut String, quad: u32, count: usize)
    requires
        2 <= count <= 5,
    ensures
        final(out)@ == old(out)@ + b85_chars(quad as nat, count as int),
{
    let mut v = quad;
    let mut digits: Vec<u32> = vec![0, 0, 0, 0, 0];
    let mut j: usize = 5;
    while j > 0
        invariant
            j <= 5,
            digits.len() == 5,
            v as nat == (quad as nat) / p85((5 - j) as nat),
            forall|jj: int| j <= jj < 5 ==> digits@[jj] as nat == ((quad as nat) / p85((4 - jj) as nat))
                % 85,
        decreases j,
    {
        j -= 1;
        proof {
            lemma_div_denominator(quad as int, p85((4 - j) as nat) as int, 85);
            assert(p85((4 - j) as nat) * 85 == p85((5 - j) as nat));
        }
        digits.set(j, v % 85);
        v = v / 85;
    }
    let ghost d = b85_digits(quad as nat);
    let ghost pre = out@;
    assert forall|jj: int| 0 <= jj < 5 implies digits@[jj] as nat == d[jj] by {}
    let mut k: usize = 0;
    while k < count
        invariant
            k <= count <= 5,
            digits.len() == 5,
            forall|jj: int| 0 <= jj < 5 ==> digits@[jj] as nat == d[jj],
            d == b85_digits(quad as nat),
            out@ == pre + b85_chars(quad as nat, k as int),
        decreases count - k,
    {
        assert(digits[k as int] < 85);
        push_char(out, num_to_b85(digits[k] as u8).unwrap());
        assert(b85_chars(quad as nat, k + 1) =~= b85_chars(quad as nat, k as int).push(
            b85_char(d[k as int]),
        ));
        k += 1;
    }
}

/// The Base85 text of `bytes`, without delimiters or line breaks.
pub fn base85_encode(bytes: &[u8]) -> (out: String)
    ensures
        out@ == base85_spec(bytes@),
{
    let mut out = String::new();
    let mut i: usize = 0;
    assert(bytes@.skip(0) =~= bytes@);
    while bytes.len() - i >= 4
        invariant
            i <= bytes.len(),
            base85_spec(bytes@) == out@ + base85_spec(bytes@.skip(i as int)),
        decreases bytes.len() - i,
    {
        let a = bytes[i] as u32;
        let b = bytes[i + 1] as u32;
        let c = bytes[i + 2] as u32;
        let d = bytes[i + 3] as u32;
        let q = (a << 24) | (b << 16) | (c << 8) | d;
        proof {
            assert(q == a * 16777216 + b * 65536 + c * 256 + d) by (bit_vector)
                requires
                    a < 256 && b < 256 && c < 256 && d < 256,
                    q == (a << 24) | (b << 16) | (c << 8) | d,
            ;
            let rest = bytes@.skip(i as int);
            assert(rest.skip(4) =~= bytes@.skip(i + 4));
            assert(rest[0] == bytes@[i as int] && rest[1] == bytes@[i + 1] && rest[2] == bytes@[i
                + 2] && rest[3] == bytes@[i + 3]);
        }
        push_group(&mut out, q, 5);
        i += 4;
    }
    let rem = bytes.len() - i;
    let ghost rest = bytes@.skip(i as int);
    if rem == 1 {
        let a = bytes[i] as u32;
        let q = a << 24;
        assert(q == a * 16777216) by (bit_vector)
            requires a < 256 && q == a << 24;
        push_group(&mut out, q, 2);
    } else if rem == 2 {
        let a = bytes[i] as u32;
        let b = bytes[i + 1] as u32;
        let q = (a << 24) | (b << 16);
        assert(q == a * 16777216 + b * 65536) by (bit_vector)
            requires a < 256 && b < 256 && q == (a << 24) | (b << 16);
        push_group(&mut out, q, 3);
    } else if rem == 3 {
        let a = bytes[i] as u32;
        let b = bytes[i + 1] as u32;
        let c = bytes[i + 2] as u32;
        let q = (a << 24) | (b << 16) | (c << 8);
        assert(q == a * 16777216 + b * 65536 + c * 256) by (bit_vector)
            requires a < 256 && b < 256 && c < 256 && q == (a << 24) | (b << 16) | (c << 8);
        push_group(&mut out, q, 4);
    } else {
        assert(out@ =~= out@ + base85_spec(rest));
    }
    out
}

/// The five digits of a 32-bit group spell it in base 85, so the group can be recovered.
pub proof fn law_base85_group_lossless(a: u8, b: u8, c: u8, d: u8)
    ensures
        ({
            let v = quad(a, b, c, d);
            let g = b85_digits(v);
            &&& forall|i: int| 0 <= i < 5 ==> g[i] < 85
            &&& v == g[0] * 52200625 + g[1] * 614125 + g[2] * 7225 + g[3] * 85 + g[4]
        }),
{
    let v = quad(a, b, c, d) as int;
    assert(v < 4437053125);
    lemma_fundamental_div_mod(v, 85);
    lemma_fundamental_div_mod(v / 85, 85);
    lemma_div_denominator(v, 85, 85);
    lemma_fundamental_div_mod(v / 7225, 85);
    lemma_div_denominator(v, 7225, 85);
    lemma_fundamental_div_mod(v / 614125, 85);
    lemma_div_denominator(v, 614125, 85);
    lemma_div_denominator(v, 52200625, 85);
    assert(v / 52200625 < 85) by {
        lemma_div_is_ordered(v, 4437053125 - 1, 52200625);
    }
    lemma_small_mod((v / 52200625) as nat, 85);
}

/// The Base85 text has five characters for each group of four bytes and `r + 1`
/// for a final group of `r` bytes.
pub proof fn law_base85_length(s: Seq<u8>)
    ensures
        base85_spec(s).len() == 5 * (s.len() / 4) + if s.len() % 4 == 0 { 0 } else { s.len() % 4 + 1 },
    decreases s.len(),
{
    if s.len() >= 4 {
        law_base85_length(s.skip(4));
    }
}

/// The digit for each `n < 85` is the `n`-th character of the Ascii85
/// alphabet, the consecutive characters `!` to `u`; no digit is a line break.
pub proof fn law_b85_alphabet(n: nat)
    requires
        n < 85,
    ensures
        b85_char(n) as int == '!' as int + n,
        '!' <= b85_char(n) <= 'u',
        b85_char(n) != '\n',
{
}

} // verus!
