use bitkit::lines::{join_lines, split_lines};

fn owned(v: &[&str]) -> Vec<String> {
    v.iter().map(|s| s.to_string()).collect()
}

#[test]
fn split_lines_samples() {
    assert_eq!(split_lines(""), Vec::<String>::new());
    assert_eq!(split_lines("a"), owned(&["a"]));
    assert_eq!(split_lines("a\nb"), owned(&["a", "b"]));
    assert_eq!(split_lines("a\nb\n"), owned(&["a", "b", ""]));
    assert_eq!(split_lines("\n"), owned(&["", ""]));
    assert_eq!(split_lines("x\r\ny"), owned(&["x\r", "y"]));
}

#[test]
fn join_lines_samples() {
    assert_eq!(join_lines(&owned(&[])), "");
    assert_eq!(join_lines(&owned(&[""])), "");
    assert_eq!(join_lines(&owned(&["a", "b", ""])), "a\nb\n");
    assert_eq!(join_lines(&owned(&["only"])), "only");
}

#[test]
fn join_after_split_gives_text_back() {
    for t in ["", "\n\n", "one\ntwo", "end\n", "é\nü\n\n"] {
        assert_eq!(join_lines(&split_lines(t)), t);
    }
}

#[test]
fn split_after_join_gives_lines_back() {
    for l in [vec![], vec!["a"], vec!["", ""], vec!["a", "", "b"]] {
        let lines = owned(&l);
        assert_eq!(split_lines(&join_lines(&lines)), lines);
    }
    assert_eq!(split_lines(&join_lines(&owned(&[""]))), Vec::<String>::new());
}
