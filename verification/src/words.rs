//! The word game: a fixed list of five-letter words, the secret word drawn
//! from a number, whether a guess is a listed word, and how each letter of a
//! guess compares with the secret word.
use vstd::prelude::*;
use crate::bignum_text::{is_whitespace_char, trim_ws, trim_end_ws, trim_start_ws, lemma_trim_start_step, lemma_trim_end_step};
use crate::text::{chars_of, string_of};

verus! {

/// The words of the game, in order.
pub open spec fn word_list() -> Seq<Seq<char>> {
    seq![
        seq!['r', 'o', 't', 'a', 's'],
        seq!['o', 'p', 'e', 'r', 'a'],
        seq!['t', 'e', 'n', 'e', 't'],
        seq!['a', 'r', 'e', 'p', 'o'],
        seq!['s', 'a', 't', 'o', 'r'],
    ]
}

/// How one letter of a guess compares with the secret word.
#[derive(Clone, Copy, Debug, PartialEq, Eq, Structural)]
pub enum LetterMark {
    /// The secret word has this letter at this place.
    Exact,
    /// The secret word has this letter elsewhere.
    Present,
    /// The secret word lacks this letter.
    Absent,
}

/// The mark of the letter at place `i` of `guess` against `answer`.
pub open spec fn spec_mark(guess: Seq<char>, answer: Seq<char>, i: int) -> LetterMark {
    if i < answer.len() && answer[i] == guess[i] {
        LetterMark::Exact
    } else if answer.contains(guess[i]) {
        LetterMark::Present
    } else {
        LetterMark::Absent
    }
}

/// The word at place `i` of the list, `i < 5`.
fn word_at(i: usize) -> (w: Vec<char>)
    requires
        i < 5,
    ensures
        w@ == word_list()[i as int],
{
    let w = if i == 0 {
        vec!['r', 'o', 't', 'a', 's']
    } else if i == 1 {
        vec!['o', 'p', 'e', 'r', 'a']
    } else if i == 2 {
        vec!['t', 'e', 'n', 'e', 't']
    } else if i == 3 {
        vec!['a', 'r', 'e', 'p', 'o']
    } else {
        vec!['s', 'a', 't', 'o', 'r']
    };
    assert(w@ =~= word_list()[i as int]);
    w
}

/// The secret word that the number `secret` draws: the word at place
/// `secret % 5` of the list.
pub fn pick_word(secret: usize) -> (w: String)
    ensures
        w@ == word_list()[(secret % 5) as int],
{
    string_of(&word_at(secret % 5))
}

/// Whether `a` and `b[lo..hi]` hold the same characters.
fn same_chars(a: &Vec<char>, b: &Vec<char>, lo: usize, hi: usize) -> (r: bool)
    requires
        lo <= hi <= b.len(),
    ensures
        r == (a@ == b@.subrange(lo as int, hi as int)),
{
    if a.len() != hi - lo {
        return false;
    }
    let mut i: usize = 0;
    while i < a.len()
        invariant
            i <= a.len() == hi - lo,
            lo <= hi <= b.len(),
            forall|j: int| 0 <= j < i ==> a@[j] == b@[lo + j],
        decreases a.len() - i,
    {
        if a[i] != b[lo + i] {
            assert(a@[i as int] != b@.subrange(lo as int, hi as int)[i as int]);
            return false;
        }
        i += 1;
    }
    assert(a@ =~= b@.subrange(lo as int, hi as int));
    true
}

/// Whether `guess`, without surrounding whitespace, is one of the words.
pub fn is_listed_word(guess: &str) -> (r: bool)
    ensures
        r == word_list().contains(trim_ws(guess@)),
{
    let v = chars_of(guess);
    let n = v.len();
    let mut lo: usize = 0;
    assert(v@.subrange(0, n as int) =~= v@);
    while lo < n && is_whitespace_char(v[lo])
        invariant
            lo <= n == v@.len(),
            trim_start_ws(v@) == trim_start_ws(v@.subrange(lo as int, n as int)),
        decreases n - lo,
    {
        proof {
            lemma_trim_start_step(v@, lo as int);
        }
        lo += 1;
    }
    let mut hi: usize = n;
    while hi > lo && is_whitespace_char(v[hi - 1])
        invariant
            lo <= hi <= n == v@.len(),
            trim_ws(v@) == trim_end_ws(v@.subrange(lo as int, hi as int)),
        decreases hi,
    {
        proof {
            lemma_trim_end_step(v@, lo as int, hi as int);
        }
        hi -= 1;
    }
    let ghost t = v@.subrange(lo as int, hi as int);
    assert(trim_ws(v@) == t);
    assert(v@ == guess@);
    assert(t == trim_ws(guess@));
    let mut k: usize = 0;
    while k < 5
        invariant
            k <= 5,
            lo <= hi <= v@.len(),
            t == v@.subrange(lo as int, hi as int),
            t == trim_ws(guess@),
            forall|j: int| 0 <= j < k ==> word_list()[j] != t,
        decreases 5 - k,
    {
        if same_chars(&word_at(k), &v, lo, hi) {
            assert(word_list()[k as int] == t);
            assert(word_list().len() == 5);
            return true;
        }
        k += 1;
    }
    proof {
        if word_list().contains(t) {
            let j = choose|j: int| 0 <= j < word_list().len() && word_list()[j] == t;
            assert(word_list().len() == 5);
        }
    }
    false
}

/// Whether `c` occurs in `v`.
fn has_char(v: &Vec<char>, c: char) -> (r: bool)
    ensures
        r == v@.contains(c),
{
    let mut i: usize = 0;
    while i < v.len()
        invariant
            i <= v.len(),
            forall|j: int| 0 <= j < i ==> v@[j] != c,
        decreases v.len() - i,
    {
        if v[i] == c {
            assert(v@[i as int] == c);
            return true;
        }
        i += 1;
    }
    false
}

/// The mark of each letter of `guess` against `answer`: `Exact` where the
/// letters at that place agree, `Present` where `answer` has the letter
/// elsewhere, `Absent` otherwise.
pub fn mark_letters(guess: &str, answer: &str) -> (marks: Vec<LetterMark>)
    ensures
        marks@.len() == guess@.len(),
        forall|i: int| 0 <= i < guess@.len() ==> marks@[i] == spec_mark(guess@, answer@, i),
{
    let g = chars_of(guess);
    let a = chars_of(answer);
    let mut marks: Vec<LetterMark> = Vec::new();
    let mut i: usize = 0;
    while i < g.len()
        invariant
            i <= g.len(),
            g@ == guess@,
            a@ == answer@,
            marks@.len() == i,
            forall|j: int| 0 <= j < i ==> marks@[j] == spec_mark(g@, a@, j),
        decreases g.len() - i,
    {
        let m = if i < a.len() && a[i] == g[i] {
            LetterMark::Exact
        } else if has_char(&a, g[i]) {
            LetterMark::Present
        } else {
            LetterMark::Absent
        };
        marks.push(m);
        i += 1;
    }
    marks
}

/// Each letter of a guess is marked `Exact` when the answer has the same
/// letter at the same place; otherwise `Present` when the letter occurs at any
/// place of the answer, the last one included; otherwise `Absent`.
pub proof fn law_mark_meaning(guess: Seq<char>, answer: Seq<char>, i: int)
    requires
        0 <= i < guess.len(),
    ensures
        (spec_mark(guess, answer, i) == LetterMark::Exact) <==> (i < answer.len() && answer[i] == guess[i]),
        (spec_mark(guess, answer, i) == LetterMark::Present) <==> (!(i < answer.len() && answer[i] == guess[i])
            && exists|j: int| 0 <= j < answer.len() && answer[j] == guess[i]),
        (spec_mark(guess, answer, i) == LetterMark::Absent) <==> (forall|j: int|
            0 <= j < answer.len() ==> answer[j] != guess[i]),
{
    if exists|j: int| 0 <= j < answer.len() && answer[j] == guess[i] {
        let j = choose|j: int| 0 <= j < answer.len() && answer[j] == guess[i];
        assert(answer.contains(guess[i]));
    }
}

} // verus!
