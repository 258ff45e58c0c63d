//! Line-wrapped text armor for the Base64 and Base85 encoders.
use vstd::prelude::*;
use crate::base64::{b64_char, b64_sextets, base64_encode, base64_spec, law_b64_alphabet, law_base64_group_lossless};
use crate::base85::{b85_chars, b85_digits, base85_encode, base85_spec, law_b85_alphabet, quad};
use crate::text::{chars_of, push_char};

verus! {

/// `s` with a line break put before a character whenever the current line
/// already holds `width` characters; the first line starts with `count` taken.
pub open spec fn wrap_spec(s: Seq<char>, width: nat, count: nat) -> Seq<char>
    decreases s.len(),
{
    if s.len() == 0 {
        Seq::empty()
    } else if count == width {
        seq!['\n', s[0]] + wrap_spec(s.drop_first(), width, 1)
    } else {
        seq![s[0]] + wrap_spec(s.drop_first(), width, count + 1)
    }
}

/// `s` without its line breaks.
pub open spec fn strip_newlines(s: Seq<char>) -> Seq<char>
    decreases s.len(),
{
    if s.len() == 0 {
        Seq::empty()
    } else if s[0] == '\n' {
        strip_newlines(s.drop_first())
    } else {
        seq![s[0]] + strip_newlines(s.drop_first())
    }
}

/// Base64 text wrapped at 76 columns, ending with a line break.
pub open spec fn base64_armor_spec(bytes: Seq<u8>) -> Seq<char> {
    wrap_spec(base64_spec(bytes), 76, 0).push('\n')
}

/// Base85 text between `<~` and `~>`, wrapped at 80 columns counting the opening `<~`.
pub open spec fn base85_armor_spec(bytes: Seq<u8>) -> Seq<char> {
    seq!['<', '~'] + wrap_spec(base85_spec(bytes), 80, 2) + seq!['~', '>']
}

/// Appends `text` wrapped at `width` columns, the current line holding `count` characters.
fn push_wrapped(out: &mut String, text: &String, width: usize, count: usize)
    requires
        1 <= width,
        count <= width,
    ensures
        final(out)@ == old(out)@ + wrap_spec(text@, width as nat, count as nat),
{
    let chars = chars_of(text.as_str());
    let ghost pre = out@;
    let ghost c0 = count;
    let mut count = count;
    let mut i: usize = 0;
    assert(chars@.skip(0) =~= chars@);
    while i < chars.len()
        invariant
            i <= chars.len(),
            chars@ == text@,
            1 <= width,
            count <= width,
            pre + wrap_spec(text@, width as nat, c0 as nat) == out@ + wrap_spec(
                chars@.skip(i as int),
                width as nat,
                count as nat,
            ),
        decreases chars.len() - i,
    {
        let ghost rest = chars@.skip(i as int);
        let ghost before = out@;
        assert(rest.drop_first() =~= chars@.skip(i + 1));
        assert(rest[0] == chars@[i as int]);
        if count == width {
            push_char(out, '\n');
            count = 0;
            push_char(out, chars[i]);
            assert(before + wrap_spec(rest, width as nat, width as nat) =~= out@ + wrap_spec(
                chars@.skip(i + 1),
                width as nat,
                1,
            ));
        } else {
            push_char(out, chars[i]);
            assert(before + wrap_spec(rest, width as nat, count as nat) =~= out@ + wrap_spec(
                chars@.skip(i + 1),
                width as nat,
                (count + 1) as nat,
            ));
        }
        count += 1;
        i += 1;
    }
    assert(chars@.skip(chars.len() as int) =~= Seq::<char>::empty());
}


/// Base64 text of `bytes` wrapped at 76 columns, with a final line break.
pub fn base64_armor(bytes: &[u8]) -> (out: String)
    ensures
        out@ == base64_armor_spec(bytes@),
{
    let text = base64_encode(bytes);
    let mut out = String::new();
    push_wrapped(&mut out, &text, 76, 0);
    push_char(&mut out, '\n');
    assert(out@ =~= base64_armor_spec(bytes@));
    out
}

/// Base85 text of `bytes` between `<~` and `~>`, wrapped at 80 columns.
pub fn base85_armor(bytes: &[u8]) -> (out: String)
    ensures
        out@ == base85_armor_spec(bytes@),
{
    let text = base85_encode(bytes);
    let mut out = String::new();
    push_char(&mut out, '<');
    push_char(&mut out, '~');
    push_wrapped(&mut out, &text, 80, 2);
    push_char(&mut out, '~');
    push_char(&mut out, '>');
    assert(out@ =~= base85_armor_spec(bytes@));
    out
}

/// Wrapping only adds line breaks: removing them gives the text back, when the
/// text has none of its own.
pub proof fn law_wrap_removable(s: Seq<char>, width: nat, count: nat)
    requires
        forall|i: int| 0 <= i < s.len() ==> s[i] != '\n',
    ensures
        strip_newlines(wrap_spec(s, width, count)) == s,
    decreases s.len(),
{
    if s.len() > 0 {
        let t = s.drop_first();
        assert forall|i: int| 0 <= i < t.len() implies t[i] != '\n' by {
            assert(t[i] == s[i + 1]);
        }
        if count == width {
            law_wrap_removable(t, width, 1);
            let w = seq!['\n', s[0]] + wrap_spec(t, width, 1);
            let w1 = seq![s[0]] + wrap_spec(t, width, 1);
            assert(w.drop_first() =~= w1);
            assert(w1.drop_first() =~= wrap_spec(t, width, 1));
            assert(w[0] == '\n');
            assert(w1[0] == s[0]);
            assert(strip_newlines(w) == strip_newlines(w1));
            assert(strip_newlines(w1) == seq![s[0]] + strip_newlines(wrap_spec(t, width, 1)));
        } else {
            law_wrap_removable(t, width, count + 1);
            let w = seq![s[0]] + wrap_spec(t, width, count + 1);
            assert(w.drop_first() =~= wrap_spec(t, width, count + 1));
            assert(w[0] == s[0]);
            assert(strip_newlines(w) == seq![s[0]] + strip_newlines(wrap_spec(t, width, count + 1)));
        }
        assert(seq![s[0]] + t =~= s);
    } else {
        assert(s =~= Seq::<char>::empty());
    }
}

/// Whether `w`, read from a line that already holds `cur` characters, breaks
/// its lines exactly when they are full: a line break stands only where the
/// line holds `width` characters, and any other character only where it holds
/// fewer.
pub open spec fn full_lines(w: Seq<char>, width: nat, cur: nat) -> bool
    decreases w.len(),
{
    if w.len() == 0 {
        true
    } else if w[0] == '\n' {
        cur == width && full_lines(w.drop_first(), width, 0)
    } else {
        cur < width && full_lines(w.drop_first(), width, cur + 1)
    }
}

/// Wrapping breaks a line exactly when it holds `width` characters: the first
/// line, which starts with `count` taken, gets `width - count` characters,
/// every later line but the last exactly `width`, and the last at most `width`.
pub proof fn law_wrap_full_lines(s: Seq<char>, width: nat, count: nat)
    requires
        forall|i: int| 0 <= i < s.len() ==> s[i] != '\n',
        1 <= width,
        count <= width,
    ensures
        full_lines(wrap_spec(s, width, count), width, count),
    decreases s.len(),
{
    if s.len() > 0 {
        let t = s.drop_first();
        assert forall|i: int| 0 <= i < t.len() implies t[i] != '\n' by {
            assert(t[i] == s[i + 1]);
        }
        assert(s[0] != '\n');
        if count == width {
            law_wrap_full_lines(t, width, 1);
            let w = seq!['\n', s[0]] + wrap_spec(t, width, 1);
            let w1 = seq![s[0]] + wrap_spec(t, width, 1);
            assert(w.drop_first() =~= w1);
            assert(w1.drop_first() =~= wrap_spec(t, width, 1));
            assert(full_lines(w1, width, 0));
        } else {
            law_wrap_full_lines(t, width, count + 1);
            let w = seq![s[0]] + wrap_spec(t, width, count + 1);
            assert(w.drop_first() =~= wrap_spec(t, width, count + 1));
        }
    }
}

proof fn lemma_base64_no_newline(s: Seq<u8>)
    ensures
        forall|i: int| 0 <= i < base64_spec(s).len() ==> base64_spec(s)[i] != '\n',
    decreases s.len(),
{
    law_base64_group_lossless(s[0], s[1], s[2]);
    if s.len() >= 3 {
        lemma_base64_no_newline(s.skip(3));
        let d = b64_sextets(s[0], s[1], s[2]);
        law_b64_alphabet(d[0]);
        law_b64_alphabet(d[1]);
        law_b64_alphabet(d[2]);
        law_b64_alphabet(d[3]);
        let head = seq![b64_char(d[0]), b64_char(d[1]), b64_char(d[2]), b64_char(d[3])];
        let rest = base64_spec(s.skip(3));
        assert forall|i: int| 0 <= i < base64_spec(s).len() implies base64_spec(s)[i] != '\n' by {
            if i >= 4 {
                assert(base64_spec(s)[i] == rest[i - 4]);
            }
        }
    } else if s.len() == 2 {
        law_base64_group_lossless(s[0], s[1], 0);
        let d = b64_sextets(s[0], s[1], 0);
        law_b64_alphabet(d[0]);
        law_b64_alphabet(d[1]);
        law_b64_alphabet(d[2]);
    } else if s.len() == 1 {
        law_base64_group_lossless(s[0], 0, 0);
        let d = b64_sextets(s[0], 0, 0);
        law_b64_alphabet(d[0]);
        law_b64_alphabet(d[1]);
    }
}

proof fn lemma_b85_chars_no_newline(v: nat, count: int)
    requires
        0 <= count <= 5,
    ensures
        forall|i: int| 0 <= i < b85_chars(v, count).len() ==> b85_chars(v, count)[i] != '\n',
{
    assert forall|i: int| 0 <= i < b85_chars(v, count).len() implies b85_chars(v, count)[i] != '\n' by {
        let d = b85_digits(v)[i];
        assert(d < 85);
        law_b85_alphabet(d);
    }
}

proof fn lemma_base85_no_newline(s: Seq<u8>)
    ensures
        forall|i: int| 0 <= i < base85_spec(s).len() ==> base85_spec(s)[i] != '\n',
    decreases s.len(),
{
    if s.len() >= 4 {
        lemma_base85_no_newline(s.skip(4));
        let v = quad(s[0], s[1], s[2], s[3]);
        lemma_b85_chars_no_newline(v, 5);
        let head = b85_chars(v, 5);
        let rest = base85_spec(s.skip(4));
        assert forall|i: int| 0 <= i < base85_spec(s).len() implies base85_spec(s)[i] != '\n' by {
            if i >= head.len() {
                assert(base85_spec(s)[i] == rest[i - head.len()]);
            } else {
                assert(base85_spec(s)[i] == head[i]);
            }
        }
    } else if s.len() == 3 {
        lemma_b85_chars_no_newline(quad(s[0], s[1], s[2], 0), 4);
    } else if s.len() == 2 {
        lemma_b85_chars_no_newline(quad(s[0], s[1], 0, 0), 3);
    } else if s.len() == 1 {
        lemma_b85_chars_no_newline(quad(s[0], 0, 0, 0), 2);
    }
}

/// The armored texts break their lines only when full: the Base64 text before
/// its final line break in lines of 76 characters (the last at most 76), the
/// Base85 text between `<~` and `~>` in lines of 80, counting `<~` on the first.
pub proof fn law_armor_line_widths(bytes: Seq<u8>)
    ensures
        base64_armor_spec(bytes).last() == '\n',
        full_lines(base64_armor_spec(bytes).drop_last(), 76, 0),
        base85_armor_spec(bytes).take(2) == seq!['<', '~'],
        base85_armor_spec(bytes).skip(base85_armor_spec(bytes).len() - 2) == seq!['~', '>'],
        full_lines(base85_armor_spec(bytes).subrange(2, base85_armor_spec(bytes).len() - 2), 80, 2),
{
    lemma_base64_no_newline(bytes);
    lemma_base85_no_newline(bytes);
    law_wrap_full_lines(base64_spec(bytes), 76, 0);
    law_wrap_full_lines(base85_spec(bytes), 80, 2);
    let a = base64_armor_spec(bytes);
    assert(a.drop_last() =~= wrap_spec(base64_spec(bytes), 76, 0));
    let b = base85_armor_spec(bytes);
    let w = wrap_spec(base85_spec(bytes), 80, 2);
    assert(b.take(2) =~= seq!['<', '~']);
    assert(b.skip(b.len() - 2) =~= seq!['~', '>']);
    assert(b.subrange(2, b.len() - 2) =~= w);
}

} // verus!
