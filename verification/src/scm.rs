//! The snapshot store: commits record, against the previous snapshot, the files
//! that appeared, the files that vanished, and reverse patches for the files
//! that changed.
use vstd::prelude::*;
use crate::text::chars_of;
use crate::patch::{apply_op_lines, apply_reverse_patch, diff_lines, law_patch_undoes_diff, lines_view, spec_diff_lines};

verus! {

/// A named file and its lines (or, in a commit's diff, its reverse-patch lines).
pub struct FileEntry {
    pub name: String,
    pub lines: Vec<String>,
}

/// One commit: files new since the previous snapshot with their lines, reverse
/// patches of changed files, and files removed since the previous snapshot with
/// their former lines.
pub struct ScmCommit {
    pub init: Vec<FileEntry>,
    pub diff: Vec<FileEntry>,
    pub delete: Vec<FileEntry>,
}

/// The store: the files as last committed, and the commits in order.
pub struct ScmState {
    pub latest: Vec<FileEntry>,
    pub commits: Vec<ScmCommit>,
}

/// Why the store refused a step.
#[derive(Clone, Copy, Debug, PartialEq, Eq, Structural)]
pub enum ScmError {
    /// A stored state holds no commit at all.
    NoCommits,
    /// There is no commit before the last one to go back to.
    NothingToRevert,
}

/// A file tree: file name to lines.
pub type Tree = Map<Seq<char>, Seq<Seq<char>>>;

/// No two entries share a name.
pub open spec fn distinct_names(v: Seq<FileEntry>) -> bool {
    forall|i: int, j: int| 0 <= i < v.len() && 0 <= j < v.len() && i != j ==> v[i].name@ != v[j].name@
}

/// The tree that a list of entries with distinct names describes.
pub open spec fn tree_view(v: Seq<FileEntry>) -> Tree
    decreases v.len(),
{
    if v.len() == 0 {
        Map::empty()
    } else {
        tree_view(v.drop_last()).insert(v.last().name@, lines_view(v.last().lines@))
    }
}

/// The names of the entries, in order.
pub open spec fn names_view(v: Seq<FileEntry>) -> Seq<Seq<char>> {
    v.map_values(|e: FileEntry| e.name@)
}

/// The names in `w` that are not in `old`, in the order of `w`.
pub open spec fn new_names(w: Seq<Seq<char>>, old: Seq<Seq<char>>) -> Seq<Seq<char>>
    decreases w.len(),
{
    if w.len() == 0 {
        Seq::empty()
    } else if old.contains(w.last()) {
        new_names(w.drop_last(), old)
    } else {
        new_names(w.drop_last(), old).push(w.last())
    }
}

/// Files of `working` that `before` lacks.
pub open spec fn spec_commit_init(before: Tree, working: Tree) -> Tree {
    working.restrict(working.dom().difference(before.dom()))
}

/// Files of `before` that `working` lacks.
pub open spec fn spec_commit_delete(before: Tree, working: Tree) -> Tree {
    before.restrict(before.dom().difference(working.dom()))
}

/// Reverse patches of the files in both trees whose lines changed.
pub open spec fn spec_commit_diff(before: Tree, working: Tree) -> Tree {
    Map::new(
        |k: Seq<char>|
            before.contains_key(k) && working.contains_key(k) && before[k] != working[k]
                && spec_diff_lines(before[k], working[k]).len() > 0,
        |k: Seq<char>| spec_diff_lines(before[k], working[k]),
    )
}

/// The lines of file `k` in `current`; none when `current` lacks it, as
/// reading a missing file gives no lines.
pub open spec fn lines_or_none(current: Tree, k: Seq<char>) -> Seq<Seq<char>> {
    if current.contains_key(k) {
        current[k]
    } else {
        Seq::empty()
    }
}

/// The tree that reverting a commit made of `init`, `diff` and `delete` gives,
/// starting from `latest`, with the steps taken in this order: each changed
/// file is patched back from its lines in `current` (the files as they are read
/// once `latest` is written out), removed files are written back, and new
/// files go.
pub open spec fn spec_revert(latest: Tree, init: Tree, diff: Tree, delete: Tree, current: Tree) -> Tree {
    Map::new(
        |k: Seq<char>|
            !init.contains_key(k) && (latest.contains_key(k) || delete.contains_key(k) || diff.contains_key(k)),
        |k: Seq<char>|
            if delete.contains_key(k) {
                delete[k]
            } else if diff.contains_key(k) {
                apply_op_lines(lines_or_none(current, k), diff[k])
            } else {
                latest[k]
            },
    )
}

/// Every file of the tree has fewer lines than `usize::MAX`.
pub open spec fn lines_fit(t: Tree) -> bool {
    forall|k: Seq<char>| #[trigger] t.contains_key(k) ==> t[k].len() < usize::MAX
}

/// What a list of entries with distinct names says about each name.
pub proof fn lemma_tree_view(v: Seq<FileEntry>)
    requires
        distinct_names(v),
    ensures
        forall|i: int|
            #![trigger v[i]]
            0 <= i < v.len() ==> tree_view(v).contains_key(v[i].name@) && tree_view(v)[v[i].name@]
                == lines_view(v[i].lines@),
        forall|k: Seq<char>|
            #[trigger] tree_view(v).contains_key(k) ==> exists|i: int| 0 <= i < v.len() && v[i].name@ == k,
    decreases v.len(),
{
    if v.len() > 0 {
        let u = v.drop_last();
        assert(distinct_names(u));
        lemma_tree_view(u);
        assert(tree_view(v) == tree_view(u).insert(v.last().name@, lines_view(v.last().lines@)));
        assert forall|i: int| #![trigger v[i]] 0 <= i < v.len() implies tree_view(v).contains_key(
            v[i].name@,
        ) && tree_view(v)[v[i].name@] == lines_view(v[i].lines@) by {
            if i < v.len() - 1 {
                assert(u[i] == v[i]);
                assert(v[i].name@ != v.last().name@);
                assert(tree_view(u).contains_key(u[i].name@));
                assert(tree_view(u)[u[i].name@] == lines_view(u[i].lines@));
            }
        }
        assert forall|k: Seq<char>| #[trigger] tree_view(v).contains_key(k) implies exists|i: int|
            0 <= i < v.len() && v[i].name@ == k by {
            if k != v.last().name@ {
                assert(tree_view(u).contains_key(k));
                let i = choose|i: int| 0 <= i < u.len() && u[i].name@ == k;
                assert(v[i] == u[i]);
            } else {
                assert(v[v.len() - 1].name@ == k);
            }
        }
    }
}

proof fn lemma_lines_view_push(v: Seq<String>, x: String)
    ensures
        lines_view(v.push(x)) == lines_view(v).push(x@),
        v.push(x).map_values(|s: String| s@) == v.map_values(|s: String| s@).push(x@),
{
    assert(lines_view(v.push(x)) =~= lines_view(v).push(x@));
    assert(v.push(x).map_values(|s: String| s@) =~= v.map_values(|s: String| s@).push(x@));
}

fn clone_string(s: &String) -> (r: String)
    ensures
        r@ == s@,
{
    s.clone()
}

fn clone_lines(v: &Vec<String>) -> (r: Vec<String>)
    ensures
        lines_view(r@) == lines_view(v@),
{
    let mut r: Vec<String> = Vec::new();
    let mut i: usize = 0;
    while i < v.len()
        invariant
            i <= v.len(),
            lines_view(r@) == lines_view(v@).take(i as int),
        decreases v.len() - i,
    {
        let ghost prev = r@;
        let x = clone_string(&v[i]);
        proof {
            lemma_lines_view_push(prev, x);
        }
        r.push(x);
        assert(lines_view(r@) =~= lines_view(v@).take(i + 1));
        i += 1;
    }
    assert(lines_view(v@).take(v.len() as int) =~= lines_view(v@));
    r
}

/// Whether two files have the same lines.
fn lines_equal(a: &Vec<String>, b: &Vec<String>) -> (r: bool)
    ensures
        r == (lines_view(a@) == lines_view(b@)),
{
    if a.len() != b.len() {
        proof {
            assert(lines_view(a@).len() != lines_view(b@).len());
        }
        return false;
    }
    let mut i: usize = 0;
    while i < a.len()
        invariant
            i <= a.len() == b.len(),
            forall|j: int| 0 <= j < i ==> a@[j]@ == b@[j]@,
        decreases a.len() - i,
    {
        if a[i] != b[i] {
            proof {
                assert(lines_view(a@)[i as int] != lines_view(b@)[i as int]);
            }
            return false;
        }
        i += 1;
    }
    assert(lines_view(a@) =~= lines_view(b@));
    true
}

/// The position of the entry named `name`, if there is one.
fn find_entry(v: &Vec<FileEntry>, name: &String) -> (r: Option<usize>)
    ensures
        r matches Some(i) ==> i < v.len() && v@[i as int].name@ == name@,
        r is None ==> forall|i: int| 0 <= i < v.len() ==> v@[i].name@ != name@,
{
    let mut i: usize = 0;
    while i < v.len()
        invariant
            i <= v.len(),
            forall|j: int| 0 <= j < i ==> v@[j].name@ != name@,
        decreases v.len() - i,
    {
        if v[i].name == *name {
            return Some(i);
        }
        i += 1;
    }
    None
}

/// Whether `names` holds `name`.
fn contains_name(names: &Vec<String>, name: &String) -> (r: bool)
    ensures
        r == names@.map_values(|s: String| s@).contains(name@),
{
    let ghost view = names@.map_values(|s: String| s@);
    let mut i: usize = 0;
    while i < names.len()
        invariant
            i <= names.len(),
            view == names@.map_values(|s: String| s@),
            forall|j: int| 0 <= j < i ==> names@[j]@ != name@,
        decreases names.len() - i,
    {
        if names[i] == *name {
            assert(view[i as int] == name@);
            return true;
        }
        i += 1;
    }
    proof {
        if view.contains(name@) {
            let j = choose|j: int| 0 <= j < view.len() && view[j] == name@;
            assert(names@[j]@ == name@);
        }
    }
    false
}

/// The names of the files in `latest`, in order.
pub fn collect_old_file_names(latest: &Vec<FileEntry>) -> (names: Vec<String>)
    ensures
        names@.map_values(|s: String| s@) == names_view(latest@),
{
    let mut names: Vec<String> = Vec::new();
    let mut i: usize = 0;
    while i < latest.len()
        invariant
            i <= latest.len(),
            names@.map_values(|s: String| s@) == names_view(latest@).take(i as int),
        decreases latest.len() - i,
    {
        let ghost prev = names@;
        let x = clone_string(&latest[i].name);
        proof {
            lemma_lines_view_push(prev, x);
        }
        names.push(x);
        assert(names@.map_values(|s: String| s@) =~= names_view(latest@).take(i + 1));
        i += 1;
    }
    assert(names_view(latest@).take(latest.len() as int) =~= names_view(latest@));
    names
}

/// The names of the files in `working` that `old_file_names` does not hold, in order.
pub fn collect_new_file_names(working: &Vec<FileEntry>, old_file_names: &Vec<String>) -> (names: Vec<String>)
    ensures
        names@.map_values(|s: String| s@) == new_names(
            names_view(working@),
            old_file_names@.map_values(|s: String| s@),
        ),
{
    let ghost old = old_file_names@.map_values(|s: String| s@);
    let mut names: Vec<String> = Vec::new();
    let mut i: usize = 0;
    assert(names_view(working@).take(0) =~= Seq::<Seq<char>>::empty());
    while i < working.len()
        invariant
            i <= working.len(),
            old == old_file_names@.map_values(|s: String| s@),
            names@.map_values(|s: String| s@) == new_names(names_view(working@).take(i as int), old),
        decreases working.len() - i,
    {
        let ghost w = names_view(working@).take(i + 1);
        assert(w.drop_last() =~= names_view(working@).take(i as int));
        assert(w.last() == working@[i as int].name@);
        if !contains_name(old_file_names, &working[i].name) {
            let ghost prev = names@;
            let x = clone_string(&working[i].name);
            proof {
                lemma_lines_view_push(prev, x);
            }
            names.push(x);
            assert(names@.map_values(|s: String| s@) =~= new_names(w, old));
        }
        i += 1;
    }
    assert(names_view(working@).take(working.len() as int) =~= names_view(working@));
    names
}


/// The names of a list with distinct names are distinct, and they are the keys of its tree.
proof fn lemma_names_view(v: Seq<FileEntry>)
    requires
        distinct_names(v),
    ensures
        names_view(v).no_duplicates(),
        forall|k: Seq<char>| #[trigger] tree_view(v).contains_key(k) <==> names_view(v).contains(k),
{
    lemma_tree_view(v);
    let nv = names_view(v);
    assert forall|k: Seq<char>| #[trigger] tree_view(v).contains_key(k) <==> nv.contains(k) by {
        if tree_view(v).contains_key(k) {
            let i = choose|i: int| 0 <= i < v.len() && v[i].name@ == k;
            assert(nv[i] == k);
        }
        if nv.contains(k) {
            let i = choose|i: int| 0 <= i < nv.len() && nv[i] == k;
            assert(v[i].name@ == k);
        }
    }
}

/// Membership in `new_names`, and that it repeats no name when `w` repeats none.
proof fn lemma_new_names(w: Seq<Seq<char>>, old: Seq<Seq<char>>)
    ensures
        forall|x: Seq<char>| #[trigger] new_names(w, old).contains(x) <==> (w.contains(x) && !old.contains(x)),
        w.no_duplicates() ==> new_names(w, old).no_duplicates(),
    decreases w.len(),
{
    if w.len() > 0 {
        let u = w.drop_last();
        lemma_new_names(u, old);
        assert forall|x: Seq<char>| #[trigger] new_names(w, old).contains(x) <==> (w.contains(x)
            && !old.contains(x)) by {
            if w.contains(x) && x != w.last() {
                let i = choose|i: int| 0 <= i < w.len() && w[i] == x;
                assert(u[i] == x);
            }
            if u.contains(x) {
                let i = choose|i: int| 0 <= i < u.len() && u[i] == x;
                assert(w[i] == x);
            }
            assert(w[w.len() - 1] == w.last());
            if !old.contains(w.last()) {
                assert(new_names(w, old) == new_names(u, old).push(w.last()));
                assert(new_names(w, old)[new_names(u, old).len() as int] == w.last());
                if new_names(u, old).contains(x) {
                    let i = choose|i: int| 0 <= i < new_names(u, old).len() && new_names(u, old)[i] == x;
                    assert(new_names(w, old)[i] == x);
                }
                if new_names(w, old).contains(x) && x != w.last() {
                    let i = choose|i: int| 0 <= i < new_names(w, old).len() && new_names(w, old)[i] == x;
                    assert(new_names(u, old)[i] == x);
                }
            }
        }
        if w.no_duplicates() {
            assert(u.no_duplicates());
            if !old.contains(w.last()) {
                assert(!u.contains(w.last())) by {
                    if u.contains(w.last()) {
                        let i = choose|i: int| 0 <= i < u.len() && u[i] == w.last();
                        assert(w[i] == w[w.len() - 1]);
                    }
                }
                assert(!new_names(u, old).contains(w.last()));
            }
        }
    }
}

proof fn lemma_restrict_push(m: Tree, s: Seq<Seq<char>>, x: Seq<char>)
    ensures
        m.contains_key(x) ==> m.restrict(s.push(x).to_set()) == m.restrict(s.to_set()).insert(x, m[x]),
        !m.contains_key(x) ==> m.restrict(s.push(x).to_set()) == m.restrict(s.to_set()),
{
    assert forall|y: Seq<char>| #[trigger] s.push(x).to_set().contains(y) <==> (s.to_set().contains(y) || y == x) by {
        if s.push(x).contains(y) && y != x {
            let i = choose|i: int| 0 <= i < s.push(x).len() && s.push(x)[i] == y;
            assert(s[i] == y);
        }
        if s.contains(y) {
            let i = choose|i: int| 0 <= i < s.len() && s[i] == y;
            assert(s.push(x)[i] == y);
        }
        if y == x {
            assert(s.push(x)[s.len() as int] == x);
        }
    }
    if m.contains_key(x) {
        let a = m.restrict(s.push(x).to_set());
        let b = m.restrict(s.to_set()).insert(x, m[x]);
        assert forall|y: Seq<char>| a.contains_key(y) <==> b.contains_key(y) by {
            assert(s.push(x).to_set().contains(y) <==> (s.to_set().contains(y) || y == x));
        }
        assert forall|y: Seq<char>| #[trigger] a.contains_key(y) implies a[y] == b[y] by {
            assert(s.push(x).to_set().contains(y) <==> (s.to_set().contains(y) || y == x));
            if y != x {
                assert(m.restrict(s.to_set()).contains_key(y));
            }
        }
        assert(a =~= b);
    } else {
        let a = m.restrict(s.push(x).to_set());
        let b = m.restrict(s.to_set());
        assert forall|y: Seq<char>| a.contains_key(y) <==> b.contains_key(y) by {
            assert(s.push(x).to_set().contains(y) <==> (s.to_set().contains(y) || y == x));
        }
        assert(a =~= b);
    }
}

proof fn lemma_tree_view_push(v: Seq<FileEntry>, e: FileEntry)
    ensures
        tree_view(v.push(e)) == tree_view(v).insert(e.name@, lines_view(e.lines@)),
{
    assert(v.push(e).drop_last() =~= v);
}

proof fn lemma_distinct_push(v: Seq<FileEntry>, e: FileEntry, names: Seq<Seq<char>>)
    requires
        distinct_names(v),
        forall|j: int| 0 <= j < v.len() ==> names.contains(#[trigger] v[j].name@),
        !names.contains(e.name@),
    ensures
        distinct_names(v.push(e)),
{
    let w = v.push(e);
    assert forall|i: int, j: int| 0 <= i < w.len() && 0 <= j < w.len() && i != j implies w[i].name@
        != w[j].name@ by {
        if i < v.len() && j < v.len() {
            assert(w[i] == v[i] && w[j] == v[j]);
        } else if i < v.len() {
            assert(names.contains(v[i].name@));
            assert(w[i] == v[i]);
        } else {
            assert(names.contains(v[j].name@));
            assert(w[j] == v[j]);
        }
    }
}

/// The commit that takes the tree `latest_before` to the tree `working`: the
/// files only `working` has, with their lines; for each file both have with
/// different lines, `diff_lines(before_lines, working_lines)`; the files only
/// `latest_before` has, with their lines.
pub fn make_commit(latest_before: &Vec<FileEntry>, working: &Vec<FileEntry>) -> (c: ScmCommit)
    requires
        distinct_names(latest_before@),
        distinct_names(working@),
        forall|i: int| 0 <= i < latest_before.len() ==> #[trigger] latest_before@[i].lines.len() < usize::MAX,
        forall|i: int| 0 <= i < working.len() ==> #[trigger] working@[i].lines.len() < usize::MAX,
    ensures
        distinct_names(c.init@),
        distinct_names(c.diff@),
        distinct_names(c.delete@),
        tree_view(c.init@) == spec_commit_init(tree_view(latest_before@), tree_view(working@)),
        tree_view(c.diff@) == spec_commit_diff(tree_view(latest_before@), tree_view(working@)),
        tree_view(c.delete@) == spec_commit_delete(tree_view(latest_before@), tree_view(working@)),
{
    let ghost bt = tree_view(latest_before@);
    let ghost wt = tree_view(working@);
    proof {
        lemma_tree_view(latest_before@);
        lemma_tree_view(working@);
        lemma_names_view(latest_before@);
        lemma_names_view(working@);
    }
    let old_file_names = collect_old_file_names(latest_before);
    let new_file_names = collect_new_file_names(working, &old_file_names);
    let ghost on = old_file_names@.map_values(|s: String| s@);
    let ghost nn = new_file_names@.map_values(|s: String| s@);
    proof {
        lemma_new_names(names_view(working@), on);
    }
    let mut init: Vec<FileEntry> = Vec::new();
    let mut k: usize = 0;
    while k < new_file_names.len()
        invariant
            k <= new_file_names.len(),
            nn == new_file_names@.map_values(|s: String| s@),
            nn.no_duplicates(),
            on == names_view(latest_before@),
            bt == tree_view(latest_before@),
            wt == tree_view(working@),
            forall|x: Seq<char>| #[trigger] nn.contains(x) <==> (names_view(working@).contains(x)
                && !on.contains(x)),
            forall|x: Seq<char>| #[trigger] bt.contains_key(x) <==> on.contains(x),
            forall|x: Seq<char>| #[trigger] wt.contains_key(x) <==> names_view(working@).contains(x),
            forall|i: int|
                #![trigger working@[i]]
                0 <= i < working@.len() ==> wt[working@[i].name@] == lines_view(
                    working@[i].lines@,
                ),
            distinct_names(init@),
            forall|j: int| 0 <= j < init@.len() ==> nn.take(k as int).contains(#[trigger] init@[j].name@),
            tree_view(init@) == spec_commit_init(bt, wt).restrict(nn.take(k as int).to_set()),
        decreases new_file_names.len() - k,
    {
        let ghost x = nn[k as int];
        let found = find_entry(working, &new_file_names[k]);
        proof {
            assert(nn.contains(x));
            if found is None {
                let i = choose|i: int| 0 <= i < names_view(working@).len() && names_view(working@)[i] == x;
                assert(working@[i].name@ == x);
            }
        }
        let idx = found.unwrap();
        let e = FileEntry { name: clone_string(&new_file_names[k]), lines: clone_lines(&working[idx].lines) };
        proof {
            assert(nn[k as int] == new_file_names@[k as int]@);
            assert(working@[idx as int].name@ == x);
            assert(wt[x] == lines_view(working@[idx as int].lines@));
            assert(names_view(working@).contains(x) && !on.contains(x));
            assert(wt.contains_key(x) && !bt.contains_key(x));
            assert(spec_commit_init(bt, wt).contains_key(x));
            assert(spec_commit_init(bt, wt)[x] == lines_view(e.lines@));
            assert(!nn.take(k as int).contains(x)) by {
                if nn.take(k as int).contains(x) {
                    let j = choose|j: int| 0 <= j < k && nn.take(k as int)[j] == x;
                    assert(nn[j] == nn[k as int]);
                }
            }
            lemma_distinct_push(init@, e, nn.take(k as int));
            lemma_tree_view_push(init@, e);
            assert(nn.take(k + 1) =~= nn.take(k as int).push(x));
            lemma_restrict_push(spec_commit_init(bt, wt), nn.take(k as int), x);
            assert(spec_commit_init(bt, wt).restrict(nn.take(k + 1).to_set()) =~= spec_commit_init(
                bt,
                wt,
            ).restrict(nn.take(k as int).to_set()).insert(x, lines_view(e.lines@)));
            let ghost init2 = init@.push(e);
            assert forall|j: int| 0 <= j < init2.len() implies nn.take(k + 1).contains(
                #[trigger] init2[j].name@,
            ) by {
                if j < init@.len() {
                    assert(init2[j] == init@[j]);
                    let t = choose|t: int| 0 <= t < k && nn.take(k as int)[t] == init@[j].name@;
                    assert(nn.take(k + 1)[t] == init@[j].name@);
                } else {
                    assert(nn.take(k + 1)[k as int] == x);
                }
            }
        }
        init.push(e);
        k += 1;
    }
    proof {
        assert(nn.take(k as int) =~= nn);
        assert(tree_view(init@) =~= spec_commit_init(bt, wt)) by {
            assert forall|x: Seq<char>| #[trigger] spec_commit_init(bt, wt).contains_key(x) implies nn.to_set().contains(x) by {
                assert(nn.contains(x));
            }
        }
    }
    let mut diff: Vec<FileEntry> = Vec::new();
    let mut delete: Vec<FileEntry> = Vec::new();
    let mut k: usize = 0;
    while k < old_file_names.len()
        invariant
            k <= old_file_names.len(),
            on == old_file_names@.map_values(|s: String| s@),
            on == names_view(latest_before@),
            on.no_duplicates(),
            bt == tree_view(latest_before@),
            wt == tree_view(working@),
            forall|x: Seq<char>| #[trigger] bt.contains_key(x) <==> on.contains(x),
            forall|x: Seq<char>| #[trigger] wt.contains_key(x) <==> names_view(working@).contains(x),
            forall|i: int|
                #![trigger working@[i]]
                0 <= i < working@.len() ==> wt[working@[i].name@] == lines_view(
                    working@[i].lines@,
                ),
            forall|i: int|
                #![trigger latest_before@[i]]
                0 <= i < latest_before@.len() ==> bt[latest_before@[i].name@] == lines_view(
                    latest_before@[i].lines@,
                ),
            forall|i: int| 0 <= i < latest_before.len() ==> #[trigger] latest_before@[i].lines.len() < usize::MAX,
            forall|i: int| 0 <= i < working.len() ==> #[trigger] working@[i].lines.len() < usize::MAX,
            distinct_names(diff@),
            distinct_names(delete@),
            forall|j: int| 0 <= j < diff@.len() ==> on.take(k as int).contains(#[trigger] diff@[j].name@),
            forall|j: int| 0 <= j < delete@.len() ==> on.take(k as int).contains(#[trigger] delete@[j].name@),
            tree_view(diff@) == spec_commit_diff(bt, wt).restrict(on.take(k as int).to_set()),
            tree_view(delete@) == spec_commit_delete(bt, wt).restrict(on.take(k as int).to_set()),
        decreases old_file_names.len() - k,
    {
        let ghost x = on[k as int];
        let name = &old_file_names[k];
        assert(name@ == x);
        let before_found = find_entry(latest_before, name);
        let after_found = find_entry(working, name);
        proof {
            assert(on.take(k + 1) =~= on.take(k as int).push(x));
            lemma_restrict_push(spec_commit_diff(bt, wt), on.take(k as int), x);
            lemma_restrict_push(spec_commit_delete(bt, wt), on.take(k as int), x);
            assert(!on.take(k as int).contains(x)) by {
                if on.take(k as int).contains(x) {
                    let j = choose|j: int| 0 <= j < k && on.take(k as int)[j] == x;
                    assert(on[j] == on[k as int]);
                }
            }
            if before_found is None {
                assert(latest_before@[k as int].name@ == x);
            }
            if after_found is None {
                assert(!wt.contains_key(x)) by {
                    if wt.contains_key(x) {
                        let i = choose|i: int| 0 <= i < names_view(working@).len() && names_view(working@)[i] == x;
                        assert(working@[i].name@ == x);
                    }
                }
            }
            assert(bt.contains_key(x));
        }
        let bi = before_found.unwrap();
        let ghost d_map = spec_commit_diff(bt, wt);
        let ghost del_map = spec_commit_delete(bt, wt);
        let ghost s0 = on.take(k as int).to_set();
        let ghost s1 = on.take(k + 1).to_set();
        match after_found {
            Some(ai) => {
                proof {
                    assert(working@[ai as int].name@ == x);
                    assert(names_view(working@)[ai as int] == x);
                    assert(wt.contains_key(x));
                    assert(!del_map.contains_key(x));
                    assert(del_map.restrict(s1) =~= del_map.restrict(s0));
                }
                proof {
                    assert(latest_before@[bi as int].name@ == x);
                    assert(bt[x] == lines_view(latest_before@[bi as int].lines@));
                    assert(wt[x] == lines_view(working@[ai as int].lines@));
                }
                let differs = !lines_equal(&latest_before[bi].lines, &working[ai].lines);
                if differs {
                    let d = diff_lines(&latest_before[bi].lines, &working[ai].lines);
                    if d.len() > 0 {
                        let e = FileEntry { name: clone_string(name), lines: d };
                        proof {
                            lemma_distinct_push(diff@, e, on.take(k as int));
                            lemma_tree_view_push(diff@, e);
                            assert(d_map.contains_key(x));
                            assert(d_map.restrict(s1) =~= d_map.restrict(s0).insert(x, lines_view(e.lines@)));
                            let ghost diff2 = diff@.push(e);
                            assert forall|j: int| 0 <= j < diff2.len() implies on.take(k + 1).contains(
                                #[trigger] diff2[j].name@,
                            ) by {
                                if j < diff@.len() {
                                    assert(diff2[j] == diff@[j]);
                                    let t = choose|t: int| 0 <= t < k && on.take(k as int)[t] == diff@[j].name@;
                                    assert(on.take(k + 1)[t] == diff@[j].name@);
                                } else {
                                    assert(on.take(k + 1)[k as int] == x);
                                }
                            }
                        }
                        diff.push(e);
                    } else {
                        proof {
                            assert(!d_map.contains_key(x));
                            assert(d_map.restrict(s1) =~= d_map.restrict(s0));
                        }
                    }
                } else {
                    proof {
                        assert(!d_map.contains_key(x));
                        assert(d_map.restrict(s1) =~= d_map.restrict(s0));
                    }
                }
            },
            None => {
                let e = FileEntry { name: clone_string(name), lines: clone_lines(&latest_before[bi].lines) };
                proof {
                    assert(!d_map.contains_key(x));
                    assert(d_map.restrict(s1) =~= d_map.restrict(s0));
                    assert(latest_before@[bi as int].name@ == x);
                    assert(bt[x] == lines_view(latest_before@[bi as int].lines@));
                    lemma_distinct_push(delete@, e, on.take(k as int));
                    lemma_tree_view_push(delete@, e);
                    assert(del_map.contains_key(x));
                    assert(del_map.restrict(s1) =~= del_map.restrict(s0).insert(x, lines_view(e.lines@)));
                    let ghost del2 = delete@.push(e);
                    assert forall|j: int| 0 <= j < del2.len() implies on.take(k + 1).contains(
                        #[trigger] del2[j].name@,
                    ) by {
                        if j < delete@.len() {
                            assert(del2[j] == delete@[j]);
                            let t = choose|t: int| 0 <= t < k && on.take(k as int)[t] == delete@[j].name@;
                            assert(on.take(k + 1)[t] == delete@[j].name@);
                        } else {
                            assert(on.take(k + 1)[k as int] == x);
                        }
                    }
                }
                delete.push(e);
            },
        }
        k += 1;
    }
    proof {
        assert(on.take(k as int) =~= on);
        assert(tree_view(diff@) =~= spec_commit_diff(bt, wt)) by {
            assert forall|x: Seq<char>| #[trigger] spec_commit_diff(bt, wt).contains_key(x) implies on.to_set().contains(x) by {
                assert(bt.contains_key(x));
            }
        }
        assert(tree_view(delete@) =~= spec_commit_delete(bt, wt)) by {
            assert forall|x: Seq<char>| #[trigger] spec_commit_delete(bt, wt).contains_key(x) implies on.to_set().contains(x) by {
                assert(bt.contains_key(x));
            }
        }
    }
    ScmCommit { init, diff, delete }
}


/// The position of the entry named `name` in a list with distinct names, if any,
/// read against the list's tree.
fn lookup(v: &Vec<FileEntry>, name: &String) -> (r: Option<usize>)
    requires
        distinct_names(v@),
    ensures
        r matches Some(i) ==> i < v.len() && v@[i as int].name@ == name@ && tree_view(v@).contains_key(name@)
            && tree_view(v@)[name@] == lines_view(v@[i as int].lines@),
        r is None ==> !tree_view(v@).contains_key(name@),
{
    proof {
        lemma_tree_view(v@);
    }
    let r = find_entry(v, name);
    proof {
        if r is None && tree_view(v@).contains_key(name@) {
            let i = choose|i: int| 0 <= i < v.len() && v@[i].name@ == name@;
        }
    }
    r
}

proof fn lemma_restrict_insert(m: Tree, a: Set<Seq<char>>, x: Seq<char>)
    ensures
        m.contains_key(x) ==> m.restrict(a.insert(x)) == m.restrict(a).insert(x, m[x]),
        !m.contains_key(x) ==> m.restrict(a.insert(x)) == m.restrict(a),
{
    if m.contains_key(x) {
        assert(m.restrict(a.insert(x)) =~= m.restrict(a).insert(x, m[x]));
    } else {
        assert(m.restrict(a.insert(x)) =~= m.restrict(a));
    }
}

proof fn lemma_take_to_set(s: Seq<Seq<char>>, i: int)
    requires
        0 <= i < s.len(),
    ensures
        s.take(i + 1).to_set() == s.take(i).to_set().insert(s[i]),
        s.no_duplicates() ==> !s.take(i).to_set().contains(s[i]),
{
    let t1 = s.take(i + 1);
    let t0 = s.take(i);
    assert forall|y: Seq<char>| t1.contains(y) <==> (t0.contains(y) || y == s[i]) by {
        if t1.contains(y) && y != s[i] {
            let j = choose|j: int| 0 <= j < t1.len() && t1[j] == y;
            assert(t0[j] == y);
        }
        if t0.contains(y) {
            let j = choose|j: int| 0 <= j < t0.len() && t0[j] == y;
            assert(t1[j] == y);
        }
        if y == s[i] {
            assert(t1[i] == y);
        }
    }
    assert(t1.to_set() =~= t0.to_set().insert(s[i]));
    if s.no_duplicates() && t0.contains(s[i]) {
        let j = choose|j: int| 0 <= j < t0.len() && t0[j] == s[i];
        assert(s[j] == s[i]);
    }
}

proof fn lemma_distinct_push_set(v: Seq<FileEntry>, e: FileEntry, names: Set<Seq<char>>)
    requires
        distinct_names(v),
        forall|j: int| 0 <= j < v.len() ==> names.contains(#[trigger] v[j].name@),
        !names.contains(e.name@),
    ensures
        distinct_names(v.push(e)),
        forall|j: int| 0 <= j < v.len() + 1 ==> names.insert(e.name@).contains(#[trigger] v.push(e)[j].name@),
{
    let w = v.push(e);
    assert forall|i: int, j: int| 0 <= i < w.len() && 0 <= j < w.len() && i != j implies w[i].name@
        != w[j].name@ by {
        if i < v.len() {
            assert(w[i] == v[i]);
            assert(names.contains(v[i].name@));
        }
        if j < v.len() {
            assert(w[j] == v[j]);
            assert(names.contains(v[j].name@));
        }
    }
    assert forall|j: int| 0 <= j < v.len() + 1 implies names.insert(e.name@).contains(#[trigger] w[j].name@) by {
        if j < v.len() {
            assert(w[j] == v[j]);
        }
    }
}

/// The reverse patch `ops` applied to the lines of file `name` in `current`
/// (no lines when `current` lacks it).
fn patch_current(current: &Vec<FileEntry>, name: &String, ops: &Vec<String>) -> (r: Vec<String>)
    requires
        distinct_names(current@),
    ensures
        lines_view(r@) == apply_op_lines(lines_or_none(tree_view(current@), name@), lines_view(ops@)),
{
    match lookup(current, name) {
        Some(c) => apply_reverse_patch(&current[c].lines, ops),
        None => {
            let empty: Vec<String> = Vec::new();
            assert(lines_view(empty@) =~= Seq::<Seq<char>>::empty());
            apply_reverse_patch(&empty, ops)
        },
    }
}

/// The files that reverting `commit` leaves, starting from the files `latest`:
/// each changed file patched back with `apply_reverse_patch` (from no lines when
/// `latest` lacks it), each removed file with its recorded lines, and no file
/// that the commit introduced.
pub fn revert_commit(latest: &Vec<FileEntry>, commit: &ScmCommit, current: &Vec<FileEntry>) -> (r: Vec<FileEntry>)
    requires
        distinct_names(latest@),
        distinct_names(current@),
        distinct_names(commit.init@),
        distinct_names(commit.diff@),
        distinct_names(commit.delete@),
    ensures
        distinct_names(r@),
        tree_view(r@) == spec_revert(
            tree_view(latest@),
            tree_view(commit.init@),
            tree_view(commit.diff@),
            tree_view(commit.delete@),
            tree_view(current@),
        ),
{
    let ghost ct = tree_view(current@);
    let ghost lt = tree_view(latest@);
    let ghost it = tree_view(commit.init@);
    let ghost dt = tree_view(commit.diff@);
    let ghost delt = tree_view(commit.delete@);
    let ghost rt = spec_revert(lt, it, dt, delt, ct);
    let ghost ln = names_view(latest@);
    let ghost den = names_view(commit.delete@);
    let ghost dfn = names_view(commit.diff@);
    proof {
        lemma_names_view(latest@);
        lemma_names_view(commit.delete@);
        lemma_names_view(commit.diff@);
        lemma_tree_view(latest@);
        lemma_tree_view(commit.delete@);
        lemma_tree_view(commit.diff@);
    }
    let mut result: Vec<FileEntry> = Vec::new();
    let mut i: usize = 0;
    while i < latest.len()
        invariant
            i <= latest.len(),
            distinct_names(latest@),
            distinct_names(commit.init@),
            distinct_names(commit.diff@),
            distinct_names(commit.delete@),
            lt == tree_view(latest@),
            it == tree_view(commit.init@),
            dt == tree_view(commit.diff@),
            delt == tree_view(commit.delete@),
            rt == spec_revert(lt, it, dt, delt, ct),
            ct == tree_view(current@),
            distinct_names(current@),
            ln == names_view(latest@),
            ln.no_duplicates(),
            distinct_names(result@),
            forall|j: int| 0 <= j < result.len() ==> ln.take(i as int).to_set().difference(delt.dom()).contains(
                #[trigger] result@[j].name@,
            ),
            tree_view(result@) == rt.restrict(ln.take(i as int).to_set().difference(delt.dom())),
        decreases latest.len() - i,
    {
        let ghost x = latest@[i as int].name@;
        let ghost a0 = ln.take(i as int).to_set().difference(delt.dom());
        proof {
            assert(ln[i as int] == x);
            lemma_take_to_set(ln, i as int);
            lemma_tree_view(latest@);
            assert(lt.contains_key(x));
            assert(lt[x] == lines_view(latest@[i as int].lines@));
        }
        let in_init = lookup(&commit.init, &latest[i].name);
        let in_delete = lookup(&commit.delete, &latest[i].name);
        if in_init.is_none() && in_delete.is_none() {
            let in_diff = lookup(&commit.diff, &latest[i].name);
            let lines = match in_diff {
                Some(d) => patch_current(current, &latest[i].name, &commit.diff[d].lines),
                None => clone_lines(&latest[i].lines),
            };
            let e = FileEntry { name: clone_string(&latest[i].name), lines };
            proof {
                assert(rt.contains_key(x));
                assert(rt[x] == lines_view(e.lines@));
                assert(!a0.contains(x));
                lemma_distinct_push_set(result@, e, a0);
                lemma_tree_view_push(result@, e);
                lemma_restrict_insert(rt, a0, x);
                assert(ln.take(i + 1).to_set().difference(delt.dom()) =~= a0.insert(x));
            }
            result.push(e);
        } else {
            proof {
                if in_delete is Some {
                    assert(ln.take(i + 1).to_set().difference(delt.dom()) =~= a0);
                } else {
                    assert(!rt.contains_key(x));
                    lemma_restrict_insert(rt, a0, x);
                    assert(ln.take(i + 1).to_set().difference(delt.dom()) =~= a0.insert(x));
                    assert forall|j: int| 0 <= j < result.len() implies a0.insert(x).contains(
                        #[trigger] result@[j].name@,
                    ) by {}
                }
            }
        }
        i += 1;
    }
    let ghost a1 = lt.dom().difference(delt.dom());
    proof {
        assert(ln.take(latest.len() as int) =~= ln);
        assert(ln.to_set() =~= lt.dom());
        assert(a1 =~= ln.take(i as int).to_set().difference(delt.dom()));
    }
    let mut i: usize = 0;
    while i < commit.delete.len()
        invariant
            i <= commit.delete.len(),
            distinct_names(commit.init@),
            distinct_names(commit.delete@),
            it == tree_view(commit.init@),
            delt == tree_view(commit.delete@),
            rt == spec_revert(lt, it, dt, delt, ct),
            ct == tree_view(current@),
            distinct_names(current@),
            a1 == lt.dom().difference(delt.dom()),
            den == names_view(commit.delete@),
            den.no_duplicates(),
            forall|k: Seq<char>| #[trigger] delt.contains_key(k) <==> den.contains(k),
            forall|j: int|
                #![trigger commit.delete@[j]]
                0 <= j < commit.delete.len() ==> delt[commit.delete@[j].name@] == lines_view(commit.delete@[j].lines@),
            distinct_names(result@),
            forall|j: int| 0 <= j < result.len() ==> a1.union(den.take(i as int).to_set()).contains(
                #[trigger] result@[j].name@,
            ),
            tree_view(result@) == rt.restrict(a1.union(den.take(i as int).to_set())),
        decreases commit.delete.len() - i,
    {
        let ghost x = commit.delete@[i as int].name@;
        let ghost a0 = a1.union(den.take(i as int).to_set());
        proof {
            assert(den[i as int] == x);
            lemma_take_to_set(den, i as int);
            assert(den.contains(x));
            assert(delt.contains_key(x));
            assert(!a0.contains(x));
            assert(a1.union(den.take(i + 1).to_set()) =~= a0.insert(x));
        }
        let in_init = lookup(&commit.init, &commit.delete[i].name);
        if in_init.is_none() {
            let e = FileEntry { name: clone_string(&commit.delete[i].name), lines: clone_lines(&commit.delete[i].lines) };
            proof {
                assert(rt.contains_key(x));
                assert(rt[x] == lines_view(e.lines@));
                lemma_distinct_push_set(result@, e, a0);
                lemma_tree_view_push(result@, e);
                lemma_restrict_insert(rt, a0, x);
            }
            result.push(e);
        } else {
            proof {
                assert(!rt.contains_key(x));
                lemma_restrict_insert(rt, a0, x);
                assert forall|j: int| 0 <= j < result.len() implies a0.insert(x).contains(
                    #[trigger] result@[j].name@,
                ) by {}
            }
        }
        i += 1;
    }
    let ghost a2 = a1.union(delt.dom());
    proof {
        assert(den.take(i as int) =~= den);
        assert(den.to_set() =~= delt.dom());
        assert(a2 =~= a1.union(den.take(i as int).to_set()));
    }
    let mut i: usize = 0;
    while i < commit.diff.len()
        invariant
            i <= commit.diff.len(),
            distinct_names(latest@),
            distinct_names(commit.init@),
            distinct_names(commit.diff@),
            distinct_names(commit.delete@),
            lt == tree_view(latest@),
            it == tree_view(commit.init@),
            dt == tree_view(commit.diff@),
            delt == tree_view(commit.delete@),
            rt == spec_revert(lt, it, dt, delt, ct),
            ct == tree_view(current@),
            distinct_names(current@),
            a2 == lt.dom().difference(delt.dom()).union(delt.dom()),
            dfn == names_view(commit.diff@),
            dfn.no_duplicates(),
            forall|k: Seq<char>| #[trigger] dt.contains_key(k) <==> dfn.contains(k),
            forall|j: int|
                #![trigger commit.diff@[j]]
                0 <= j < commit.diff.len() ==> dt[commit.diff@[j].name@] == lines_view(commit.diff@[j].lines@),
            distinct_names(result@),
            forall|j: int| 0 <= j < result.len() ==> a2.union(dfn.take(i as int).to_set()).contains(
                #[trigger] result@[j].name@,
            ),
            tree_view(result@) == rt.restrict(a2.union(dfn.take(i as int).to_set())),
        decreases commit.diff.len() - i,
    {
        let ghost x = commit.diff@[i as int].name@;
        let ghost a0 = a2.union(dfn.take(i as int).to_set());
        proof {
            assert(dfn[i as int] == x);
            lemma_take_to_set(dfn, i as int);
            assert(dfn.contains(x));
            assert(dt.contains_key(x));
            assert(a2.union(dfn.take(i + 1).to_set()) =~= a0.insert(x));
        }
        let in_init = lookup(&commit.init, &commit.diff[i].name);
        let in_delete = lookup(&commit.delete, &commit.diff[i].name);
        let in_latest = lookup(latest, &commit.diff[i].name);
        if in_init.is_none() && in_delete.is_none() && in_latest.is_none() {
            let e = FileEntry {
                name: clone_string(&commit.diff[i].name),
                lines: patch_current(current, &commit.diff[i].name, &commit.diff[i].lines),
            };
            proof {
                assert(!a0.contains(x));
                assert(rt.contains_key(x));
                assert(rt[x] == lines_view(e.lines@));
                lemma_distinct_push_set(result@, e, a0);
                lemma_tree_view_push(result@, e);
                lemma_restrict_insert(rt, a0, x);
            }
            result.push(e);
        } else {
            proof {
                if in_init is Some {
                    assert(!rt.contains_key(x));
                    lemma_restrict_insert(rt, a0, x);
                } else {
                    assert(a0.contains(x));
                    assert(a0.insert(x) =~= a0);
                }
                assert forall|j: int| 0 <= j < result.len() implies a0.insert(x).contains(
                    #[trigger] result@[j].name@,
                ) by {}
            }
        }
        i += 1;
    }
    proof {
        assert(dfn.take(i as int) =~= dfn);
        assert(dfn.to_set() =~= dt.dom());
        assert(tree_view(result@) =~= rt) by {
            assert forall|k: Seq<char>| #[trigger] rt.contains_key(k) implies a2.union(dt.dom()).contains(k) by {}
            assert(a2.union(dt.dom()) =~= a2.union(dfn.take(i as int).to_set()));
        }
    }
    result
}

/// Each part of the commit names every file at most once.
pub open spec fn commit_wf(c: ScmCommit) -> bool {
    &&& distinct_names(c.init@)
    &&& distinct_names(c.diff@)
    &&& distinct_names(c.delete@)
}

/// Every file of the list has fewer lines than `usize::MAX`.
pub open spec fn entries_fit(v: Seq<FileEntry>) -> bool {
    forall|i: int| 0 <= i < v.len() ==> #[trigger] v[i].lines.len() < usize::MAX
}

/// Records `working` as a new commit. With no store yet, the first commit
/// holds every working file as new and `working` becomes the latest files. A
/// store without commits is refused. Otherwise the commit from the latest
/// files to `working` (see `make_commit`) is appended and `working` becomes
/// the latest files.
pub fn commit_state(state: Option<ScmState>, working: Vec<FileEntry>) -> (r: Result<ScmState, ScmError>)
    requires
        distinct_names(working@),
        entries_fit(working@),
        state matches Some(st) ==> distinct_names(st.latest@) && entries_fit(st.latest@),
    ensures
        state is None ==> (r matches Ok(t) && t.latest@ == working@ && t.commits@.len() == 1
            && commit_wf(t.commits@[0])
            && tree_view(t.commits@[0].init@) == tree_view(working@)
            && tree_view(t.commits@[0].diff@) == Tree::empty()
            && tree_view(t.commits@[0].delete@) == Tree::empty()),
        state matches Some(st) ==> (st.commits@.len() == 0 <==> r == Err::<ScmState, ScmError>(ScmError::NoCommits)),
        state matches Some(st) ==> (st.commits@.len() > 0 ==> (r matches Ok(t)
            && t.latest@ == working@
            && t.commits@.len() == st.commits@.len() + 1
            && t.commits@.take(st.commits@.len() as int) == st.commits@
            && commit_wf(t.commits@.last())
            && tree_view(t.commits@.last().init@) == spec_commit_init(tree_view(st.latest@), tree_view(working@))
            && tree_view(t.commits@.last().diff@) == spec_commit_diff(tree_view(st.latest@), tree_view(working@))
            && tree_view(t.commits@.last().delete@) == spec_commit_delete(tree_view(st.latest@), tree_view(working@)))),
{
    match state {
        None => {
            let none: Vec<FileEntry> = Vec::new();
            let first = make_commit(&none, &working);
            proof {
                assert(tree_view(none@) == Tree::empty());
                let wt = tree_view(working@);
                let e = Tree::empty();
                assert(spec_commit_init(e, wt) =~= wt);
                assert(spec_commit_diff(e, wt) =~= e);
                assert(spec_commit_delete(e, wt) =~= e);
            }
            let mut commits: Vec<ScmCommit> = Vec::new();
            commits.push(first);
            Ok(ScmState { latest: working, commits })
        },
        Some(st) => {
            if st.commits.len() == 0 {
                return Err(ScmError::NoCommits);
            }
            let c = make_commit(&st.latest, &working);
            let mut commits = st.commits;
            let ghost prev = commits@;
            commits.push(c);
            assert(commits@.take(prev.len() as int) =~= prev);
            Ok(ScmState { latest: working, commits })
        },
    }
}

/// The commit that a revert undoes: the last one, when there is an earlier
/// commit to go back to.
pub fn last_commit(state: &ScmState) -> (r: Result<&ScmCommit, ScmError>)
    ensures
        state.commits@.len() < 2 <==> r == Err::<&ScmCommit, ScmError>(ScmError::NothingToRevert),
        state.commits@.len() >= 2 <==> r is Ok,
        r matches Ok(c) ==> *c == state.commits@.last(),
{
    let n = state.commits.len();
    if n < 2 {
        return Err(ScmError::NothingToRevert);
    }
    Ok(&state.commits[n - 1])
}

/// Whether the working-tree walk takes an entry of this name: names that
/// start with `.` are skipped.
pub fn is_tracked_name(name: &str) -> (r: bool)
    ensures
        r == !(name@.len() > 0 && name@[0] == '.'),
{
    let v = chars_of(name);
    !(v.len() > 0 && v[0] == '.')
}

/// Reverting a commit restores the tree it was made from: starting from the
/// tree the commit recorded, with its files read back as they were recorded,
/// removing its new files, patching back its changed files and restoring its
/// removed files gives the previous tree exactly.
pub proof fn law_revert_undoes_commit(before: Tree, working: Tree, current: Tree)
    requires
        lines_fit(working),
        forall|k: Seq<char>| #[trigger] working.contains_key(k) ==> current.contains_key(k) && current[k] == working[k],
    ensures
        spec_revert(
            working,
            spec_commit_init(before, working),
            spec_commit_diff(before, working),
            spec_commit_delete(before, working),
            current,
        ) == before,
{
    let init = spec_commit_init(before, working);
    let diff = spec_commit_diff(before, working);
    let delete = spec_commit_delete(before, working);
    let r = spec_revert(working, init, diff, delete, current);
    assert forall|k: Seq<char>| r.contains_key(k) <==> before.contains_key(k) by {}
    assert forall|k: Seq<char>| #[trigger] r.contains_key(k) implies r[k] == before[k] by {
        if !delete.contains_key(k) {
            assert(working.contains_key(k) && before.contains_key(k));
            assert(working[k].len() < usize::MAX);
            law_patch_undoes_diff(before[k], working[k]);
            if !diff.contains_key(k) && before[k] != working[k] {
                assert(spec_diff_lines(before[k], working[k]).len() == 0);
                assert(spec_diff_lines(before[k], working[k]) =~= Seq::<Seq<char>>::empty());
                assert(apply_op_lines(working[k], Seq::<Seq<char>>::empty()) == working[k]);
            }
        }
    }
    assert(r =~= before);
}

} // verus!
