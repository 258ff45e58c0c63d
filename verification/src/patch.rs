//! Line diffs as reverse patches: `diff_lines(before, after)` writes the edit
//! operations that turn `after` back into `before`, and `apply_reverse_patch`
//! carries them out.
use vstd::prelude::*;
use crate::decimal::{
    all_dec_digits, dec_value, is_dec_digit, lemma_nat_to_dec, lemma_parse_usize_of_dec, nat_to_dec,
    parse_usize, parse_usize_range, push_decimal,
};
use crate::text::{chars_of, push_char};

verus! {

/// The character content of each line.
pub open spec fn lines_view(v: Seq<String>) -> Seq<Seq<char>> {
    v.map_values(|s: String| s@)
}

/// Length of a longest common subsequence of `o[i..]` and `n[j..]`.
pub open spec fn lcs_len(o: Seq<Seq<char>>, n: Seq<Seq<char>>, i: nat, j: nat) -> nat
    decreases o.len() - i + n.len() - j,
{
    if i >= o.len() || j >= n.len() {
        0
    } else if o[i as int] == n[j as int] {
        1 + lcs_len(o, n, i + 1, j + 1)
    } else {
        let down = lcs_len(o, n, i + 1, j);
        let right = lcs_len(o, n, i, j + 1);
        if down >= right {
            down
        } else {
            right
        }
    }
}

/// One edit of a reverse patch.
pub enum PatchOp {
    /// Remove the line at this index.
    Delete(nat),
    /// Insert this line at this index.
    Insert(nat, Seq<char>),
}

/// The edits that turn `o[..i]` followed by `n[j..]` into `n`, walking the
/// common-subsequence table back from `(i, j)`.
pub open spec fn edit_ops(o: Seq<Seq<char>>, n: Seq<Seq<char>>, i: nat, j: nat) -> Seq<PatchOp>
    decreases i + j,
{
    if i == 0 && j == 0 {
        Seq::empty()
    } else if i > 0 && j > 0 && o[i - 1] == n[j - 1] {
        edit_ops(o, n, (i - 1) as nat, (j - 1) as nat)
    } else if j > 0 && (i == 0 || lcs_len(o, n, i, (j - 1) as nat) >= lcs_len(
        o,
        n,
        (i - 1) as nat,
        j,
    )) {
        seq![PatchOp::Insert(i, n[j - 1])] + edit_ops(o, n, i, (j - 1) as nat)
    } else {
        seq![PatchOp::Delete((i - 1) as nat)] + edit_ops(o, n, (i - 1) as nat, j)
    }
}

/// The text of an edit: `D <index>` or `I <index> <line>`.
pub open spec fn op_text(op: PatchOp) -> Seq<char> {
    match op {
        PatchOp::Delete(k) => seq!['D', ' '] + nat_to_dec(k),
        PatchOp::Insert(k, line) => seq!['I', ' '] + nat_to_dec(k) + seq![' '] + line,
    }
}

/// The exact result of `diff_lines(before, after)`.
pub open spec fn spec_diff_lines(before: Seq<Seq<char>>, after: Seq<Seq<char>>) -> Seq<Seq<char>> {
    edit_ops(after, before, after.len(), before.len()).map_values(|op: PatchOp| op_text(op))
}

/// Index of the first space in `s`, or -1.
pub open spec fn find_space(s: Seq<char>) -> int
    decreases s.len(),
{
    if s.len() == 0 {
        -1
    } else if s[0] == ' ' {
        0
    } else {
        let r = find_space(s.drop_first());
        if r < 0 {
            -1
        } else {
            r + 1
        }
    }
}

/// The first space-separated field of an edit line.
pub open spec fn op_kind(line: Seq<char>) -> Seq<char> {
    let p = find_space(line);
    if p < 0 {
        line
    } else {
        line.take(p)
    }
}

/// The index field of an edit line; `"0"` when there is none.
pub open spec fn op_index_text(line: Seq<char>) -> Seq<char> {
    let p = find_space(line);
    if p < 0 {
        seq!['0']
    } else {
        let r = line.skip(p + 1);
        let q = find_space(r);
        if q < 0 {
            r
        } else {
            r.take(q)
        }
    }
}

/// Everything after the second space of an edit line; empty when there is none.
pub open spec fn op_content(line: Seq<char>) -> Seq<char> {
    let p = find_space(line);
    if p < 0 {
        Seq::empty()
    } else {
        let r = line.skip(p + 1);
        let q = find_space(r);
        if q < 0 {
            Seq::empty()
        } else {
            r.skip(q + 1)
        }
    }
}

/// Carries out one edit line. Empty lines, lines whose index does not parse
/// and lines of an unknown kind change nothing; a deletion past the end
/// changes nothing; an insertion past the end appends.
pub open spec fn apply_op_line(cur: Seq<Seq<char>>, line: Seq<char>) -> Seq<Seq<char>> {
    if line.len() == 0 {
        cur
    } else {
        match parse_usize(op_index_text(line)) {
            None => cur,
            Some(idx) => {
                if op_kind(line) == seq!['D'] {
                    if idx < cur.len() {
                        cur.remove(idx as int)
                    } else {
                        cur
                    }
                } else if op_kind(line) == seq!['I'] {
                    if idx <= cur.len() {
                        cur.insert(idx as int, op_content(line))
                    } else {
                        cur.push(op_content(line))
                    }
                } else {
                    cur
                }
            },
        }
    }
}

/// Carries out the edit lines in order.
pub open spec fn apply_op_lines(cur: Seq<Seq<char>>, ops: Seq<Seq<char>>) -> Seq<Seq<char>>
    decreases ops.len(),
{
    if ops.len() == 0 {
        cur
    } else {
        apply_op_lines(apply_op_line(cur, ops[0]), ops.drop_first())
    }
}

proof fn lemma_lcs_bound(o: Seq<Seq<char>>, n: Seq<Seq<char>>, i: nat, j: nat)
    ensures
        i <= o.len() ==> lcs_len(o, n, i, j) <= o.len() - i,
    decreases o.len() - i + n.len() - j,
{
    if i < o.len() && j < n.len() {
        lemma_lcs_bound(o, n, i + 1, j + 1);
        lemma_lcs_bound(o, n, i + 1, j);
        lemma_lcs_bound(o, n, i, j + 1);
    }
}

fn zeros(len: usize) -> (v: Vec<usize>)
    ensures
        v@.len() == len,
        forall|k: int| 0 <= k < len ==> v@[k] == 0,
{
    let mut v: Vec<usize> = Vec::new();
    while v.len() < len
        invariant
            v@.len() <= len,
            forall|k: int| 0 <= k < v@.len() ==> v@[k] == 0,
        decreases len - v@.len(),
    {
        v.push(0);
    }
    v
}

fn clone_string(s: &String) -> (r: String)
    ensures
        r@ == s@,
{
    s.clone()
}

/// `D <index>`.
fn delete_text(index: usize) -> (s: String)
    ensures
        s@ == op_text(PatchOp::Delete(index as nat)),
{
    let mut s = String::new();
    push_char(&mut s, 'D');
    push_char(&mut s, ' ');
    push_decimal(&mut s, index);
    assert(s@ =~= op_text(PatchOp::Delete(index as nat)));
    s
}

/// `I <index> <line>`.
fn insert_text(index: usize, line: &String) -> (s: String)
    ensures
        s@ == op_text(PatchOp::Insert(index as nat, line@)),
{
    let mut s = String::new();
    push_char(&mut s, 'I');
    push_char(&mut s, ' ');
    push_decimal(&mut s, index);
    push_char(&mut s, ' ');
    let chars = chars_of(line.as_str());
    let mut i: usize = 0;
    let ghost pre = s@;
    while i < chars.len()
        invariant
            i <= chars.len(),
            chars@ == line@,
            s@ == pre + chars@.take(i as int),
        decreases chars.len() - i,
    {
        push_char(&mut s, chars[i]);
        assert(chars@.take(i + 1) =~= chars@.take(i as int).push(chars@[i as int]));
        i += 1;
    }
    assert(chars@.take(chars.len() as int) =~= chars@);
    assert(s@ =~= op_text(PatchOp::Insert(index as nat, line@)));
    s
}

/// The edit lines that turn `after` back into `before`: a longest common
/// subsequence of the two is kept, and walking back from the ends of both,
/// every line of `before` outside it is inserted (`I <index> <line>`) and every
/// line of `after` outside it deleted (`D <index>`), preferring insertions
/// when both keep the common part equally long.
pub fn diff_lines(before: &Vec<String>, after: &Vec<String>) -> (ops: Vec<String>)
    requires
        after.len() < usize::MAX,
        before.len() < usize::MAX,
    ensures
        lines_view(ops@) == spec_diff_lines(lines_view(before@), lines_view(after@)),
{
    let old_lines = after;
    let new_lines = before;
    let ghost o = lines_view(old_lines@);
    let ghost nw = lines_view(new_lines@);
    let n = old_lines.len();
    let m = new_lines.len();
    let mut dp: Vec<Vec<usize>> = Vec::new();
    while dp.len() < n + 1
        invariant
            n < usize::MAX && m < usize::MAX,
            dp@.len() <= n + 1,
            forall|r: int| 0 <= r < dp@.len() ==> #[trigger] dp@[r]@.len() == m + 1,
            forall|r: int, c: int| 0 <= r < dp@.len() && 0 <= c <= m ==> #[trigger] dp@[r]@[c] == 0,
        decreases n + 1 - dp@.len(),
    {
        dp.push(zeros(m + 1));
    }
    proof {
        assert forall|c: int| 0 <= c <= m implies dp@[n as int]@[c] == lcs_len(o, nw, n as nat, c as nat) by {}
    }
    let mut i = n;
    while i > 0
        invariant
            i <= n,
            n == old_lines.len() && m == new_lines.len(),
            o == lines_view(old_lines@) && nw == lines_view(new_lines@),
            n < usize::MAX && m < usize::MAX,
            dp@.len() == n + 1,
            forall|r: int| 0 <= r <= n ==> #[trigger] dp@[r]@.len() == m + 1,
            forall|r: int, c: int|
                i <= r <= n && 0 <= c <= m ==> #[trigger] dp@[r]@[c] == lcs_len(
                    o,
                    nw,
                    r as nat,
                    c as nat,
                ),
        decreases i,
    {
        i -= 1;
        let mut row = zeros(m + 1);
        let mut j = m;
        while j > 0
            invariant
                i < n,
                j <= m,
                n == old_lines.len() && m == new_lines.len(),
                o == lines_view(old_lines@) && nw == lines_view(new_lines@),
                n < usize::MAX && m < usize::MAX,
                dp@.len() == n + 1,
                row@.len() == m + 1,
                forall|r: int| 0 <= r <= n ==> #[trigger] dp@[r]@.len() == m + 1,
                forall|r: int, c: int|
                    i + 1 <= r <= n && 0 <= c <= m ==> #[trigger] dp@[r]@[c] == lcs_len(
                        o,
                        nw,
                        r as nat,
                        c as nat,
                    ),
                forall|c: int| j <= c <= m ==> #[trigger] row@[c] == lcs_len(o, nw, i as nat, c as nat),
            decreases j,
        {
            j -= 1;
            proof {
                lemma_lcs_bound(o, nw, (i + 1) as nat, (j + 1) as nat);
                assert(o[i as int] == old_lines@[i as int]@);
                assert(nw[j as int] == new_lines@[j as int]@);
            }
            if old_lines[i] == new_lines[j] {
                let v = dp[i + 1][j + 1] + 1;
                row.set(j, v);
            } else {
                let down = dp[i + 1][j];
                let right = row[j + 1];
                row.set(j, if down >= right { down } else { right });
            }
        }
        dp.set(i, row);
    }
    let mut result: Vec<String> = Vec::new();
    let mut ib = n;
    let mut jb = m;
    let ghost all = edit_ops(o, nw, n as nat, m as nat).map_values(|op: PatchOp| op_text(op));
    assert(lines_view(result@) + edit_ops(o, nw, ib as nat, jb as nat).map_values(
        |op: PatchOp| op_text(op),
    ) =~= all);
    while ib > 0 || jb > 0
        invariant
            ib <= n && jb <= m,
            n == old_lines.len() && m == new_lines.len(),
            o == lines_view(old_lines@) && nw == lines_view(new_lines@),
            dp@.len() == n + 1,
            forall|r: int| 0 <= r <= n ==> #[trigger] dp@[r]@.len() == m + 1,
            forall|r: int, c: int|
                0 <= r <= n && 0 <= c <= m ==> #[trigger] dp@[r]@[c] == lcs_len(
                    o,
                    nw,
                    r as nat,
                    c as nat,
                ),
            all == edit_ops(o, nw, n as nat, m as nat).map_values(|op: PatchOp| op_text(op)),
            lines_view(result@) + edit_ops(o, nw, ib as nat, jb as nat).map_values(
                |op: PatchOp| op_text(op),
            ) == all,
        decreases ib + jb,
    {
        let ghost prev = result@;
        proof {
            if ib > 0 {
                assert(o[ib - 1] == old_lines@[ib - 1]@);
            }
            if jb > 0 {
                assert(nw[jb - 1] == new_lines@[jb - 1]@);
            }
        }
        if ib > 0 && jb > 0 && old_lines[ib - 1] == new_lines[jb - 1] {
            ib -= 1;
            jb -= 1;
        } else if jb > 0 && (ib == 0 || dp[ib][jb - 1] >= dp[ib - 1][jb]) {
            let t = insert_text(ib, &new_lines[jb - 1]);
            result.push(t);
            proof {
                let op = PatchOp::Insert(ib as nat, nw[jb - 1]);
                let rest = edit_ops(o, nw, ib as nat, (jb - 1) as nat);
                assert(edit_ops(o, nw, ib as nat, jb as nat) == seq![op] + rest);
                assert((seq![op] + rest).map_values(|op: PatchOp| op_text(op)) =~= seq![
                    op_text(op),
                ] + rest.map_values(|op: PatchOp| op_text(op)));
                assert(lines_view(result@) =~= lines_view(prev).push(op_text(op)));
                assert(lines_view(result@) + rest.map_values(|op: PatchOp| op_text(op))
                    =~= lines_view(prev) + (seq![op_text(op)] + rest.map_values(
                    |op: PatchOp| op_text(op),
                )));
            }
            jb -= 1;
        } else {
            let t = delete_text(ib - 1);
            result.push(t);
            proof {
                let op = PatchOp::Delete((ib - 1) as nat);
                let rest = edit_ops(o, nw, (ib - 1) as nat, jb as nat);
                assert(edit_ops(o, nw, ib as nat, jb as nat) == seq![op] + rest);
                assert((seq![op] + rest).map_values(|op: PatchOp| op_text(op)) =~= seq![
                    op_text(op),
                ] + rest.map_values(|op: PatchOp| op_text(op)));
                assert(lines_view(result@) =~= lines_view(prev).push(op_text(op)));
                assert(lines_view(result@) + rest.map_values(|op: PatchOp| op_text(op))
                    =~= lines_view(prev) + (seq![op_text(op)] + rest.map_values(
                    |op: PatchOp| op_text(op),
                )));
            }
            ib -= 1;
        }
    }
    proof {
        assert(edit_ops(o, nw, 0, 0) =~= Seq::<PatchOp>::empty());
        assert(lines_view(result@) =~= all);
    }
    result
}


/// `find_space` locates the first space.
proof fn lemma_find_space(s: Seq<char>, k: int)
    requires
        0 <= k <= s.len(),
        forall|i: int| 0 <= i < k ==> s[i] != ' ',
        k < s.len() ==> s[k] == ' ',
    ensures
        find_space(s) == if k < s.len() { k } else { -1 },
    decreases k,
{
    if k > 0 {
        lemma_find_space(s.drop_first(), k - 1);
    }
}

/// Index of the first space in `v` at or after `start`, or `v.len()`.
fn find_space_from(v: &Vec<char>, start: usize) -> (p: usize)
    requires
        start <= v.len(),
    ensures
        start <= p <= v.len(),
        find_space(v@.skip(start as int)) == if p < v.len() {
            p - start
        } else {
            -1
        },
{
    let mut p = start;
    while p < v.len() && v[p] != ' '
        invariant
            start <= p <= v.len(),
            forall|i: int| start <= i < p ==> v@[i] != ' ',
        decreases v.len() - p,
    {
        p += 1;
    }
    proof {
        lemma_find_space(v@.skip(start as int), p - start);
    }
    p
}

fn string_from_range(v: &Vec<char>, lo: usize, hi: usize) -> (s: String)
    requires
        lo <= hi <= v.len(),
    ensures
        s@ == v@.subrange(lo as int, hi as int),
{
    let mut s = String::new();
    let mut i = lo;
    while i < hi
        invariant
            lo <= i <= hi <= v.len(),
            s@ == v@.subrange(lo as int, i as int),
        decreases hi - i,
    {
        push_char(&mut s, v[i]);
        assert(v@.subrange(lo as int, i + 1) =~= v@.subrange(lo as int, i as int).push(v@[i as int]));
        i += 1;
    }
    s
}

proof fn lemma_apply_op_lines_push(cur: Seq<Seq<char>>, ops: Seq<Seq<char>>, x: Seq<char>)
    ensures
        apply_op_lines(cur, ops.push(x)) == apply_op_line(apply_op_lines(cur, ops), x),
    decreases ops.len(),
{
    if ops.len() == 0 {
        assert(ops.push(x).drop_first() =~= Seq::<Seq<char>>::empty());
        assert(ops.push(x)[0] == x);
        assert(apply_op_lines(apply_op_line(cur, x), Seq::<Seq<char>>::empty()) == apply_op_line(
            cur,
            x,
        ));
    } else {
        assert(ops.push(x)[0] == ops[0]);
        assert(ops.push(x).drop_first() =~= ops.drop_first().push(x));
        lemma_apply_op_lines_push(apply_op_line(cur, ops[0]), ops.drop_first(), x);
    }
}

/// Carries out the edit lines of `diff_lines_for_file` on a copy of `current`, in order.
/// Each line reads `<kind> <index> <content>`, split at the first two spaces: kind
/// `D` removes the line at the index when there is one; kind `I` inserts the
/// content at the index, or appends it when the index is past the end. Empty lines,
/// lines whose index is not a `usize` numeral (a missing index reads as `0`) and
/// other kinds are skipped.
pub fn apply_reverse_patch(current: &Vec<String>, diff_lines_for_file: &Vec<String>) -> (result: Vec<String>)
    ensures
        lines_view(result@) == apply_op_lines(lines_view(current@), lines_view(diff_lines_for_file@)),
{
    let mut result: Vec<String> = Vec::new();
    let mut c: usize = 0;
    while c < current.len()
        invariant
            c <= current.len(),
            lines_view(result@) == lines_view(current@).take(c as int),
        decreases current.len() - c,
    {
        result.push(clone_string(&current[c]));
        assert(lines_view(current@).take(c + 1) =~= lines_view(current@).take(c as int).push(
            current@[c as int]@,
        ));
        assert(lines_view(result@) =~= lines_view(current@).take(c + 1));
        c += 1;
    }
    assert(lines_view(current@).take(current.len() as int) =~= lines_view(current@));
    let ghost cur0 = lines_view(current@);
    let ghost ops = lines_view(diff_lines_for_file@);
    assert(ops.take(0) =~= Seq::<Seq<char>>::empty());
    let mut k: usize = 0;
    while k < diff_lines_for_file.len()
        invariant
            k <= diff_lines_for_file.len(),
            ops == lines_view(diff_lines_for_file@),
            lines_view(result@) == apply_op_lines(cur0, ops.take(k as int)),
        decreases diff_lines_for_file.len() - k,
    {
        let ghost before = lines_view(result@);
        let ghost line = ops[k as int];
        proof {
            assert(ops.take(k + 1) =~= ops.take(k as int).push(line));
            lemma_apply_op_lines_push(cur0, ops.take(k as int), line);
        }
        let chars = chars_of(diff_lines_for_file[k].as_str());
        assert(chars@ == line);
        let len = chars.len();
        if len > 0 {
            let p1 = find_space_from(&chars, 0);
            assert(chars@.skip(0) =~= chars@);
            let mut p2 = len;
            let parsed: Option<usize>;
            if p1 == len {
                parsed = Some(0);
                proof {
                    assert(op_index_text(line) == seq!['0']);
                    assert(is_dec_digit('0'));
                    assert(seq!['0'].drop_last() =~= Seq::<char>::empty());
                    assert(dec_value(Seq::<char>::empty()) == 0);
                    assert(dec_value(seq!['0']) == 0);
                    assert(all_dec_digits(seq!['0']));
                    assert(parse_usize(seq!['0']) == Some(0nat));
                }
            } else {
                p2 = find_space_from(&chars, p1 + 1);
                proof {
                    let r = line.skip(p1 + 1);
                    assert(r =~= chars@.skip(p1 + 1));
                    if p2 < len {
                        assert(r.take(p2 - p1 - 1) =~= chars@.subrange(p1 + 1, p2 as int));
                    } else {
                        assert(r =~= chars@.subrange(p1 + 1, p2 as int));
                    }
                }
                parsed = parse_usize_range(&chars, p1 + 1, p2);
            }
            match parsed {
                None => {},
                Some(idx) => {
                    proof {
                        if p1 < len {
                            assert(op_kind(line) =~= chars@.take(p1 as int));
                        }
                    }
                    if p1 == 1 && chars[0] == 'D' {
                        assert(op_kind(line) =~= seq!['D']);
                        if idx < result.len() {
                            result.remove(idx);
                            assert(lines_view(result@) =~= before.remove(idx as int));
                        }
                    } else if p1 == 1 && chars[0] == 'I' {
                        assert(op_kind(line) =~= seq!['I']);
                        let content = if p2 < len {
                            string_from_range(&chars, p2 + 1, len)
                        } else {
                            String::new()
                        };
                        proof {
                            if p2 < len {
                                assert(op_content(line) =~= chars@.subrange(p2 + 1, len as int));
                            } else {
                                assert(op_content(line) =~= Seq::<char>::empty());
                            }
                        }
                        if idx <= result.len() {
                            result.insert(idx, content);
                            assert(lines_view(result@) =~= before.insert(idx as int, op_content(line)));
                        } else {
                            result.push(content);
                            assert(lines_view(result@) =~= before.push(op_content(line)));
                        }
                    } else {
                        proof {
                            if p1 == len {
                                assert(op_kind(line) == line);
                            }
                            assert(op_kind(line) != seq!['D'] && op_kind(line) != seq!['I']) by {
                                if op_kind(line) == seq!['D'] || op_kind(line) == seq!['I'] {
                                    assert(op_kind(line).len() == 1);
                                    assert(op_kind(line)[0] == chars@[0]);
                                }
                            }
                        }
                    }
                },
            }
        }
        k += 1;
    }
    assert(ops.take(diff_lines_for_file.len() as int) =~= ops);
    result
}


proof fn lemma_dec_no_space(k: nat)
    ensures
        forall|i: int| 0 <= i < nat_to_dec(k).len() ==> nat_to_dec(k)[i] != ' ',
        nat_to_dec(k).len() >= 1,
{
    lemma_nat_to_dec(k);
    assert forall|i: int| 0 <= i < nat_to_dec(k).len() implies nat_to_dec(k)[i] != ' ' by {
        assert(is_dec_digit(nat_to_dec(k)[i]));
    }
}

/// The text of an edit reads back as that edit.
proof fn lemma_op_text_applies(cur: Seq<Seq<char>>, op: PatchOp)
    requires
        match op {
            PatchOp::Delete(k) => k < cur.len() && k <= usize::MAX,
            PatchOp::Insert(k, _) => k <= cur.len() && k <= usize::MAX,
        },
    ensures
        apply_op_line(cur, op_text(op)) == match op {
            PatchOp::Delete(k) => cur.remove(k as int),
            PatchOp::Insert(k, line) => cur.insert(k as int, line),
        },
{
    let t = op_text(op);
    match op {
        PatchOp::Delete(k) => {
            let d = nat_to_dec(k);
            lemma_dec_no_space(k);
            lemma_parse_usize_of_dec(k);
            lemma_find_space(t, 1);
            assert(op_kind(t) =~= seq!['D']);
            let r = t.skip(2);
            assert(r =~= d);
            lemma_find_space(r, r.len() as int);
            assert(op_index_text(t) == d);
        },
        PatchOp::Insert(k, line) => {
            let d = nat_to_dec(k);
            lemma_dec_no_space(k);
            lemma_parse_usize_of_dec(k);
            lemma_find_space(t, 1);
            assert(op_kind(t) =~= seq!['I']);
            let r = t.skip(2);
            assert(r =~= d + seq![' '] + line);
            lemma_find_space(r, d.len() as int);
            assert(r.take(d.len() as int) =~= d);
            assert(op_index_text(t) == d);
            assert(r.skip(d.len() as int + 1) =~= line);
            assert(op_content(t) == line);
            assert(seq!['I'] != seq!['D']) by {
                assert(seq!['I'][0] != seq!['D'][0]);
            }
        },
    }
}

proof fn lemma_apply_cons(cur: Seq<Seq<char>>, t: Seq<char>, rest: Seq<Seq<char>>)
    ensures
        apply_op_lines(cur, seq![t] + rest) == apply_op_lines(apply_op_line(cur, t), rest),
{
    assert((seq![t] + rest)[0] == t);
    assert((seq![t] + rest).drop_first() =~= rest);
}

/// The edits from `(i, j)` turn `o[..i]` followed by `n[j..]` into `n`.
proof fn lemma_edit_ops_apply(o: Seq<Seq<char>>, n: Seq<Seq<char>>, i: nat, j: nat)
    requires
        i <= o.len(),
        j <= n.len(),
        o.len() <= usize::MAX,
    ensures
        apply_op_lines(o.take(i as int) + n.skip(j as int), edit_ops(o, n, i, j).map_values(
            |op: PatchOp| op_text(op),
        )) == n,
    decreases i + j,
{
    let state = o.take(i as int) + n.skip(j as int);
    let texts = |op: PatchOp| op_text(op);
    if i == 0 && j == 0 {
        assert(state =~= n);
        assert(edit_ops(o, n, i, j).map_values(texts) =~= Seq::<Seq<char>>::empty());
    } else if i > 0 && j > 0 && o[i - 1] == n[j - 1] {
        assert(state =~= o.take(i - 1) + n.skip(j - 1));
        lemma_edit_ops_apply(o, n, (i - 1) as nat, (j - 1) as nat);
    } else if j > 0 && (i == 0 || lcs_len(o, n, i, (j - 1) as nat) >= lcs_len(
        o,
        n,
        (i - 1) as nat,
        j,
    )) {
        let op = PatchOp::Insert(i, n[j - 1]);
        let rest = edit_ops(o, n, i, (j - 1) as nat);
        assert(edit_ops(o, n, i, j).map_values(texts) =~= seq![op_text(op)] + rest.map_values(
            texts,
        ));
        lemma_apply_cons(state, op_text(op), rest.map_values(texts));
        lemma_op_text_applies(state, op);
        assert(state.insert(i as int, n[j - 1]) =~= o.take(i as int) + n.skip(j - 1));
        lemma_edit_ops_apply(o, n, i, (j - 1) as nat);
    } else {
        let op = PatchOp::Delete((i - 1) as nat);
        let rest = edit_ops(o, n, (i - 1) as nat, j);
        assert(edit_ops(o, n, i, j).map_values(texts) =~= seq![op_text(op)] + rest.map_values(
            texts,
        ));
        lemma_apply_cons(state, op_text(op), rest.map_values(texts));
        lemma_op_text_applies(state, op);
        assert(state.remove(i - 1) =~= o.take(i - 1) + n.skip(j as int));
        lemma_edit_ops_apply(o, n, (i - 1) as nat, j);
    }
}

/// Applying the reverse patch of `diff_lines(before, after)` to `after` gives `before` back.
pub proof fn law_patch_undoes_diff(before: Seq<Seq<char>>, after: Seq<Seq<char>>)
    requires
        after.len() <= usize::MAX,
    ensures
        apply_op_lines(after, spec_diff_lines(before, after)) == before,
{
    lemma_edit_ops_apply(after, before, after.len(), before.len());
    assert(after.take(after.len() as int) + before.skip(before.len() as int) =~= after);
}

} // verus!
