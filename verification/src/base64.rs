//! Base64 (RFC 4648, standard alphabet, `=` padding).
use vstd::prelude::*;
use crate::text::push_char;

verus! {

/// The Base64 digit for `n < 64`: `A`–`Z`, `a`–`z`, `0`–`9`, `+`, `/`.
pub open spec fn b64_char(n: nat) -> char {
    if n < 26 {
        (65 + n) as char
    } else if n < 52 {
        (71 + n) as char
    } else if n < 62 {
        (n - 4) as char
    } else if n == 62 {
        '+'
    } else {
        '/'
    }
}

/// The four Base64 digits of three bytes: their 24 bits, six at a time,
/// most significant first.
pub open spec fn b64_sextets(a: u8, b: u8, c: u8) -> Seq<nat> {
    seq![
        (a / 4) as nat,
        ((a % 4) * 16 + b / 16) as nat,
        ((b % 16) * 4 + c / 64) as nat,
        (c % 64) as nat,
    ]
}

/// The Base64 text of `s`: each group of three bytes gives four digits; a final
/// group of two bytes gives three digits and `=`, of one byte two digits and `==`
/// (the missing bytes read as zero).
pub open spec fn base64_spec(s: Seq<u8>) -> Seq<char>
    decreases s.len(),
{
    if s.len() >= 3 {
        let d = b64_sextets(s[0], s[1], s[2]);
        seq![b64_char(d[0]), b64_char(d[1]), b64_char(d[2]), b64_char(d[3])] + base64_spec(
            s.skip(3),
        )
    } else if s.len() == 2 {
        let d = b64_sextets(s[0], s[1], 0);
        seq![b64_char(d[0]), b64_char(d[1]), b64_char(d[2]), '=']
    } else if s.len() == 1 {
        let d = b64_sextets(s[0], 0, 0);
        seq![b64_char(d[0]), b64_char(d[1]), '=', '=']
    } else {
        Seq::empty()
    }
}

/// The Base64 digit for `n`, or `None` when `n` is 64 or more.
pub fn num_to_b64(n: u8) -> (r: Option<char>)
    ensures
        n < 64 ==> r == Some(b64_char(n as nat)),
        n >= 64 ==> r is None,
{
    if n >= 64 {
        return None;
    }
    let c: u8 = if n < 26 {
        65 + n
    } else if n < 52 {
        71 + n
    } else if n < 62 {
        n - 4
    } else if n == 62 {
        43
    } else {
        47
    };
    Some(c as char)
}

/// Appends the digits of the 24-bit group `a b c`, cut to `count` digits.
fn push_group(out: &mut String, a: u8, b: u8, c: u8, count: usize)
    requires
        2 <= count <= 4,
    ensures
        final(out)@ == old(out)@ + b64_sextets(a, b, c).take(count as int).map_values(
            |x: nat| b64_char(x),
        ),
{
    let triple: u32 = ((a as u32) << 16) | ((b as u32) << 8) | (c as u32);
    let s0 = ((triple >> 18) & 0x3F) as u8;
    let s1 = ((triple >> 12) & 0x3F) as u8;
    let s2 = ((triple >> 6) & 0x3F) as u8;
    let s3 = (triple & 0x3F) as u8;
    proof {
        assert(s0 == a / 4 && s1 == (a % 4) * 16 + b / 16 && s2 == (b % 16) * 4 + c / 64 && s3 == c
            % 64) by (bit_vector)
            requires
                triple == ((a as u32) << 16) | ((b as u32) << 8) | (c as u32),
                s0 == ((triple >> 18) & 0x3F) as u8,
                s1 == ((triple >> 12) & 0x3F) as u8,
                s2 == ((triple >> 6) & 0x3F) as u8,
                s3 == (triple & 0x3F) as u8,
        ;
    }
    let ghost d = b64_sextets(a, b, c);
    assert(d[0] == s0 as nat && d[1] == s1 as nat && d[2] == s2 as nat && d[3] == s3 as nat);
    let ghost pre = out@;
    push_char(out, num_to_b64(s0).unwrap());
    push_char(out, num_to_b64(s1).unwrap());
    if count >= 3 {
        push_char(out, num_to_b64(s2).unwrap());
    }
    if count >= 4 {
        push_char(out, num_to_b64(s3).unwrap());
    }
    let ghost m = d.take(count as int).map_values(|x: nat| b64_char(x));
    assert(d.take(count as int).len() == count);
    assert(m.len() == count);
    assert(d.take(count as int)[0] == d[0] && d.take(count as int)[1] == d[1]);
    assert(m[0] == b64_char(s0 as nat) && m[1] == b64_char(s1 as nat));
    if count >= 3 {
        assert(m[2] == b64_char(s2 as nat));
    }
    if count >= 4 {
        assert(m[3] == b64_char(s3 as nat));
    }
    assert(out@ =~= pre + m);
}

/// The Base64 text of `bytes`, without line breaks.
pub fn base64_encode(bytes: &[u8]) -> (out: String)
    ensures
        out@ == base64_spec(bytes@),
{
    let mut out = String::new();
    let mut i: usize = 0;
    assert(bytes@.skip(0) =~= bytes@);
    while bytes.len() - i >= 3
        invariant
            i <= bytes.len(),
            base64_spec(bytes@) == out@ + base64_spec(bytes@.skip(i as int)),
        decreases bytes.len() - i,
    {
        let ghost rest = bytes@.skip(i as int);
        let ghost pre = out@;
        push_group(&mut out, bytes[i], bytes[i + 1], bytes[i + 2], 4);
        proof {
            assert(rest.skip(3) =~= bytes@.skip(i + 3));
            assert(rest[0] == bytes@[i as int] && rest[1] == bytes@[i + 1] && rest[2] == bytes@[i + 2]);
            let d = b64_sextets(rest[0], rest[1], rest[2]);
            assert(d.take(4).map_values(|x: nat| b64_char(x)) =~= seq![
                b64_char(d[0]),
                b64_char(d[1]),
                b64_char(d[2]),
                b64_char(d[3]),
            ]);
        }
        i += 3;
    }
    let rem = bytes.len() - i;
    let ghost rest = bytes@.skip(i as int);
    let ghost pre = out@;
    if rem == 1 {
        push_group(&mut out, bytes[i], 0, 0, 2);
        push_char(&mut out, '=');
        push_char(&mut out, '=');
        proof {
            let d = b64_sextets(rest[0], 0, 0);
            assert(out@ =~= pre + seq![b64_char(d[0]), b64_char(d[1]), '=', '=']);
        }
    } else if rem == 2 {
        push_group(&mut out, bytes[i], bytes[i + 1], 0, 3);
        push_char(&mut out, '=');
        proof {
            let d = b64_sextets(rest[0], rest[1], 0);
            assert(out@ =~= pre + seq![b64_char(d[0]), b64_char(d[1]), b64_char(d[2]), '=']);
        }
    } else {
        assert(out@ =~= out@ + base64_spec(rest));
    }
    out
}

/// The four digits of a group of three bytes determine the bytes.
pub proof fn law_base64_group_lossless(a: u8, b: u8, c: u8)
    ensures
        ({
            let d = b64_sextets(a, b, c);
            &&& forall|i: int| 0 <= i < 4 ==> d[i] < 64
            &&& a == d[0] * 4 + d[1] / 16
            &&& b == (d[1] % 16) * 16 + d[2] / 4
            &&& c == (d[2] % 4) * 64 + d[3]
        }),
{
}

/// The Base64 text has four characters for every started group of three bytes.
pub proof fn law_base64_length(s: Seq<u8>)
    ensures
        base64_spec(s).len() == 4 * ((s.len() + 2) / 3),
    decreases s.len(),
{
    if s.len() >= 3 {
        law_base64_length(s.skip(3));
    }
}

/// The digit for each `n < 64` is the `n`-th character of the standard
/// alphabet: `A`–`Z` for 0–25, `a`–`z` for 26–51, `0`–`9` for 52–61, then `+`
/// and `/`; no digit is `=` or a line break.
pub proof fn law_b64_alphabet(n: nat)
    requires
        n < 64,
    ensures
        n < 26 ==> b64_char(n) as int == 'A' as int + n,
        26 <= n < 52 ==> b64_char(n) as int == 'a' as int + (n - 26),
        52 <= n < 62 ==> b64_char(n) as int == '0' as int + (n - 52),
        n == 62 ==> b64_char(n) == '+',
        n == 63 ==> b64_char(n) == '/',
        b64_char(n) != '=' && b64_char(n) != '\n',
{
}

} // verus!
