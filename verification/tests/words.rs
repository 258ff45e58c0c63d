use bitkit::words::{is_listed_word, mark_letters, pick_word, LetterMark};
use bitkit::words::LetterMark::{Absent, Exact, Present};

#[test]
fn pick_word_by_remainder() {
    assert_eq!(pick_word(0), "rotas");
    assert_eq!(pick_word(1), "opera");
    assert_eq!(pick_word(2), "tenet");
    assert_eq!(pick_word(3), "arepo");
    assert_eq!(pick_word(4), "sator");
    assert_eq!(pick_word(5), "rotas");
    assert_eq!(pick_word(usize::MAX), pick_word(usize::MAX % 5));
}

#[test]
fn listed_words_after_trimming() {
    assert!(is_listed_word("tenet"));
    assert!(is_listed_word("  sator\n"));
    assert!(!is_listed_word("Tenet"));
    assert!(!is_listed_word("tenets"));
    assert!(!is_listed_word(""));
    assert!(!is_listed_word("te net"));
}

#[test]
fn letter_marks() {
    assert_eq!(mark_letters("opera", "rotas"), vec![Present, Absent, Absent, Present, Present]);
    assert_eq!(mark_letters("rotas", "rotas"), vec![Exact; 5]);
    assert_eq!(mark_letters("xyz", "ab"), vec![Absent; 3]);
    assert_eq!(mark_letters("", "rotas"), Vec::<LetterMark>::new());
}
