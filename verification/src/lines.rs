//! A file's text as lines: split at every newline, and joined back with
//! newlines between them. An empty text has no lines.
use vstd::prelude::*;
use crate::patch::lines_view;
use crate::text::{chars_of, push_char};

verus! {

/// The pieces of `s` between newlines; one piece more than `s` has newlines.
pub open spec fn split_pieces(s: Seq<char>) -> Seq<Seq<char>>
    decreases s.len(),
{
    if s.len() == 0 {
        seq![Seq::empty()]
    } else {
        let r = split_pieces(s.drop_last());
        if s.last() == '\n' {
            r.push(Seq::empty())
        } else {
            r.update(r.len() - 1, r.last().push(s.last()))
        }
    }
}

/// The lines of a text: its pieces between newlines, none for the empty text.
pub open spec fn spec_split_lines(s: Seq<char>) -> Seq<Seq<char>> {
    if s.len() == 0 {
        Seq::empty()
    } else {
        split_pieces(s)
    }
}

/// The lines put back together, with a newline between each two.
pub open spec fn spec_join_lines(l: Seq<Seq<char>>) -> Seq<char>
    decreases l.len(),
{
    if l.len() == 0 {
        Seq::empty()
    } else if l.len() == 1 {
        l[0]
    } else {
        spec_join_lines(l.drop_last()) + seq!['\n'] + l.last()
    }
}

/// No line holds a newline.
pub open spec fn no_newlines(l: Seq<Seq<char>>) -> bool {
    forall|i: int| 0 <= i < l.len() ==> !(#[trigger] l[i]).contains('\n')
}

proof fn lemma_pieces_nonempty(s: Seq<char>)
    ensures
        split_pieces(s).len() >= 1,
    decreases s.len(),
{
    if s.len() > 0 {
        lemma_pieces_nonempty(s.drop_last());
    }
}

proof fn lemma_pieces_single(s: Seq<char>)
    requires
        !s.contains('\n'),
    ensures
        split_pieces(s) == seq![s],
    decreases s.len(),
{
    if s.len() > 0 {
        let u = s.drop_last();
        assert(!u.contains('\n')) by {
            if u.contains('\n') {
                let j = choose|j: int| 0 <= j < u.len() && u[j] == '\n';
                assert(s[j] == '\n');
            }
        }
        lemma_pieces_single(u);
        assert(s.last() != '\n') by {
            assert(s[s.len() - 1] == s.last());
        }
        assert(u.push(s.last()) =~= s);
        assert(split_pieces(s) =~= seq![s]);
    } else {
        assert(s =~= Seq::<char>::empty());
    }
}

proof fn lemma_pieces_concat(a: Seq<char>, b: Seq<char>)
    ensures
        split_pieces(a + seq!['\n'] + b) == split_pieces(a) + split_pieces(b),
    decreases b.len(),
{
    let an = a + seq!['\n'];
    if b.len() == 0 {
        assert(an + b =~= an);
        assert(an.drop_last() =~= a);
        assert(split_pieces(b) =~= seq![Seq::<char>::empty()]);
        assert(split_pieces(a).push(Seq::empty()) =~= split_pieces(a) + split_pieces(b));
    } else {
        let u = b.drop_last();
        let c = b.last();
        lemma_pieces_concat(a, u);
        lemma_pieces_nonempty(u);
        lemma_pieces_nonempty(a);
        let s = an + b;
        assert(s.drop_last() =~= an + u);
        assert(s.last() == c);
        let pa = split_pieces(a);
        let pu = split_pieces(u);
        if c == '\n' {
            assert(split_pieces(s) =~= (pa + pu).push(Seq::empty()));
            assert((pa + pu).push(Seq::empty()) =~= pa + pu.push(Seq::empty()));
        } else {
            let r = pa + pu;
            assert(r.last() == pu.last());
            assert(r.update(r.len() - 1, r.last().push(c)) =~= pa + pu.update(pu.len() - 1, pu.last().push(c)));
        }
    }
}

proof fn lemma_join_update_last(x: Seq<Seq<char>>, c: char)
    requires
        x.len() >= 1,
    ensures
        spec_join_lines(x.update(x.len() - 1, x.last().push(c))) == spec_join_lines(x).push(c),
{
    let y = x.update(x.len() - 1, x.last().push(c));
    if x.len() > 1 {
        assert(y.drop_last() =~= x.drop_last());
        assert(y.last() == x.last().push(c));
        assert(spec_join_lines(x.drop_last()) + seq!['\n'] + x.last().push(c) =~= (spec_join_lines(
            x.drop_last(),
        ) + seq!['\n'] + x.last()).push(c));
    }
}

proof fn lemma_join_pieces(s: Seq<char>)
    ensures
        spec_join_lines(split_pieces(s)) == s,
    decreases s.len(),
{
    if s.len() > 0 {
        let u = s.drop_last();
        lemma_join_pieces(u);
        lemma_pieces_nonempty(u);
        let r = split_pieces(u);
        if s.last() == '\n' {
            let y = r.push(Seq::<char>::empty());
            assert(y.drop_last() =~= r);
            assert(spec_join_lines(y) =~= u + seq!['\n'] + Seq::<char>::empty());
            assert(u + seq!['\n'] + Seq::<char>::empty() =~= s);
        } else {
            lemma_join_update_last(r, s.last());
            assert(u.push(s.last()) =~= s);
        }
    }
}

proof fn lemma_pieces_join(l: Seq<Seq<char>>)
    requires
        l.len() >= 1,
        no_newlines(l),
    ensures
        split_pieces(spec_join_lines(l)) == l,
    decreases l.len(),
{
    if l.len() == 1 {
        assert(!l[0].contains('\n'));
        lemma_pieces_single(l[0]);
        assert(l =~= seq![l[0]]);
    } else {
        let u = l.drop_last();
        assert(no_newlines(u)) by {
            assert forall|i: int| 0 <= i < u.len() implies !(#[trigger] u[i]).contains('\n') by {
                assert(u[i] == l[i]);
            }
        }
        lemma_pieces_join(u);
        assert(!l[l.len() - 1].contains('\n'));
        lemma_pieces_single(l.last());
        lemma_pieces_concat(spec_join_lines(u), l.last());
        assert(u + seq![l.last()] =~= l);
    }
}

/// Joining the lines of any text gives the text back.
pub proof fn law_join_split(s: Seq<char>)
    ensures
        spec_join_lines(spec_split_lines(s)) == s,
{
    if s.len() > 0 {
        lemma_join_pieces(s);
    } else {
        assert(s =~= Seq::<char>::empty());
    }
}

/// Splitting joined lines gives them back, when no line holds a newline and
/// the lines are not a single empty line (which joins to the empty text, and
/// that has no lines).
pub proof fn law_split_join(l: Seq<Seq<char>>)
    requires
        no_newlines(l),
        l != seq![Seq::<char>::empty()],
    ensures
        spec_split_lines(spec_join_lines(l)) == l,
{
    if l.len() == 0 {
        assert(l =~= Seq::<Seq<char>>::empty());
    } else {
        lemma_pieces_join(l);
        if spec_join_lines(l).len() == 0 {
            if l.len() == 1 {
                assert(l[0] =~= Seq::<char>::empty());
                assert(l =~= seq![Seq::<char>::empty()]);
            } else {
                assert(spec_join_lines(l) == spec_join_lines(l.drop_last()) + seq!['\n'] + l.last());
                assert(spec_join_lines(l).len() >= 1);
            }
        }
    }
}

/// The lines of the text `data`: the pieces between newlines (a newline at the
/// end leaves an empty last line), and no lines at all for empty text.
pub fn split_lines(data: &str) -> (lines: Vec<String>)
    ensures
        lines_view(lines@) == spec_split_lines(data@),
{
    let chars = chars_of(data);
    let mut lines: Vec<String> = Vec::new();
    if chars.len() == 0 {
        assert(lines_view(lines@) =~= Seq::<Seq<char>>::empty());
        return lines;
    }
    let mut cur = String::new();
    let mut i: usize = 0;
    assert(chars@.take(0) =~= Seq::<char>::empty());
    assert(lines_view(lines@).push(cur@) =~= split_pieces(chars@.take(0)));
    while i < chars.len()
        invariant
            i <= chars.len(),
            lines_view(lines@).push(cur@) == split_pieces(chars@.take(i as int)),
        decreases chars.len() - i,
    {
        let c = chars[i];
        let ghost t = chars@.take(i + 1);
        assert(t.drop_last() =~= chars@.take(i as int));
        assert(t.last() == c);
        if c == '\n' {
            let ghost prev = lines@;
            let done = cur;
            lines.push(done);
            cur = String::new();
            assert(lines_view(lines@) =~= lines_view(prev).push(done@));
            assert(lines_view(lines@).push(cur@) =~= split_pieces(t));
        } else {
            let ghost before = cur@;
            push_char(&mut cur, c);
            let ghost r = lines_view(lines@).push(before);
            assert(lines_view(lines@).push(cur@) =~= r.update(r.len() - 1, r.last().push(c)));
        }
        i += 1;
    }
    let ghost prev = lines@;
    lines.push(cur);
    assert(lines_view(lines@) =~= lines_view(prev).push(lines@.last()@));
    assert(chars@.take(chars.len() as int) =~= data@);
    lines
}

/// The text whose lines are `lines`: them in order with a newline between each two.
pub fn join_lines(lines: &Vec<String>) -> (data: String)
    ensures
        data@ == spec_join_lines(lines_view(lines@)),
{
    let mut out = String::new();
    let mut i: usize = 0;
    while i < lines.len()
        invariant
            i <= lines.len(),
            out@ == spec_join_lines(lines_view(lines@).take(i as int)),
        decreases lines.len() - i,
    {
        let ghost t = lines_view(lines@).take(i + 1);
        assert(t.drop_last() =~= lines_view(lines@).take(i as int));
        assert(t.last() == lines@[i as int]@);
        if i > 0 {
            push_char(&mut out, '\n');
        } else {
            assert(t =~= seq![lines@[0]@]);
        }
        out.append(lines[i].as_str());
        assert(i > 0 ==> out@ =~= spec_join_lines(t.drop_last()) + seq!['\n'] + t.last());
        i += 1;
    }
    assert(lines_view(lines@).take(lines.len() as int) =~= lines_view(lines@));
    out
}

} // verus!
