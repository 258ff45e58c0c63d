use bitkit::patch::{apply_reverse_patch, diff_lines};

fn owned(v: &[&str]) -> Vec<String> {
    v.iter().map(|s| s.to_string()).collect()
}

#[test]
fn diff_lines_exact_ops() {
    let before = owned(&["a", "b", "c"]);
    let after = owned(&["a", "c", "d"]);
    assert_eq!(diff_lines(&before, &after), owned(&["I 3 c", "I 3 b", "I 3 a", "D 2", "D 1", "D 0"]));
    assert_eq!(diff_lines(&owned(&[]), &owned(&["p", "q"])), owned(&["D 1", "D 0"]));
    assert_eq!(diff_lines(&owned(&["x y", "", "z"]), &owned(&[])), owned(&["I 0 z", "I 0 ", "I 0 x y"]));
    assert_eq!(diff_lines(&owned(&["same"]), &owned(&["same"])), Vec::<String>::new());
}

#[test]
fn reverse_patch_restores_before() {
    let samples: [(&[&str], &[&str]); 5] = [
        (&["a", "b", "c"], &["a", "c", "d"]),
        (&[], &["p", "q"]),
        (&["x y", "", "z"], &[]),
        (&["1", "2", "3", "4"], &["2", "4", "5", "1"]),
        (&["keep", "keep"], &["keep"]),
    ];
    for (b, a) in samples {
        let before = owned(b);
        let after = owned(a);
        let ops = diff_lines(&before, &after);
        assert_eq!(apply_reverse_patch(&after, &ops), before);
    }
}

#[test]
fn apply_reverse_patch_skips_malformed_lines() {
    let current = owned(&["a", "b"]);
    let ops = owned(&["I 5 tail", "D 9", "X 0", "D zz", "", "I 0 new head"]);
    assert_eq!(apply_reverse_patch(&current, &ops), owned(&["new head", "a", "b", "tail"]));
    assert_eq!(apply_reverse_patch(&current, &owned(&["D +1"])), owned(&["a"]));
    assert_eq!(apply_reverse_patch(&current, &owned(&["I 1"])), owned(&["a", "", "b"]));
}
