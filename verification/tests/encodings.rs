use bitkit::armor::{base64_armor, base85_armor};
use bitkit::base64::{base64_encode, num_to_b64};
use bitkit::base85::{base85_encode, num_to_b85};

#[test]
fn num_to_b64_alphabet_ends() {
    assert_eq!(num_to_b64(0), Some('A'));
    assert_eq!(num_to_b64(25), Some('Z'));
    assert_eq!(num_to_b64(26), Some('a'));
    assert_eq!(num_to_b64(52), Some('0'));
    assert_eq!(num_to_b64(62), Some('+'));
    assert_eq!(num_to_b64(63), Some('/'));
    assert_eq!(num_to_b64(64), None);
    assert_eq!(num_to_b64(255), None);
}

#[test]
fn num_to_b85_alphabet_ends() {
    assert_eq!(num_to_b85(0), Some('!'));
    assert_eq!(num_to_b85(15), Some('0'));
    assert_eq!(num_to_b85(84), Some('u'));
    assert_eq!(num_to_b85(85), None);
    assert_eq!(num_to_b85(200), None);
}

#[test]
fn base64_known_encodings() {
    assert_eq!(base64_encode(b""), "");
    assert_eq!(base64_encode(b"M"), "TQ==");
    assert_eq!(base64_encode(b"Ma"), "TWE=");
    assert_eq!(base64_encode(b"Man"), "TWFu");
    assert_eq!(base64_encode(b"hello world"), "aGVsbG8gd29ybGQ=");
}

#[test]
fn base64_length_is_four_per_started_group() {
    for n in 0..20usize {
        let bytes: Vec<u8> = (0..n as u8).collect();
        assert_eq!(base64_encode(&bytes).len(), 4 * ((n + 2) / 3));
    }
}

#[test]
fn base85_known_encodings() {
    assert_eq!(base85_encode(b""), "");
    assert_eq!(base85_encode(b"M"), "9`");
    assert_eq!(base85_encode(b"Ma"), "9jn");
    assert_eq!(base85_encode(b"Man"), "9jqo");
    assert_eq!(base85_encode(b"abc"), "@:E^");
    assert_eq!(base85_encode(b"hello world"), "BOu!rD]j7BEbo7");
}

#[test]
fn base85_length_is_five_per_word_plus_partial() {
    for n in 0..20usize {
        let bytes: Vec<u8> = (0..n as u8).collect();
        let rem = n % 4;
        let expected = 5 * (n / 4) + if rem == 0 { 0 } else { rem + 1 };
        assert_eq!(base85_encode(&bytes).len(), expected);
    }
}

#[test]
fn base64_armor_wraps_at_76() {
    let bytes: Vec<u8> = (0..60u8).collect();
    assert_eq!(
        base64_armor(&bytes),
        "AAECAwQFBgcICQoLDA0ODxAREhMUFRYXGBkaGxwdHh8gISIjJCUmJygpKissLS4vMDEyMzQ1Njc4\nOTo7\n"
    );
    assert_eq!(base64_armor(b""), "\n");
    assert_eq!(base64_armor(b"Man"), "TWFu\n");
}

#[test]
fn base85_armor_wraps_at_80_counting_opening() {
    let bytes: Vec<u8> = (0..100u8).collect();
    assert_eq!(
        base85_armor(&bytes),
        "<~!!*-'\"9eu7#RLhG$k3[W&.oNg'GVB\"(`=52*$$(B+<_pR,UFcb-n-Vr/1iJ-0JP==1c70M3&s#]4?Y\nkm5X@_(6q'R884cEH9MJ8X:f1+h<)lt#=BSg3>[:ZC?t!MS~>"
    );
    assert_eq!(base85_armor(b"hello"), "<~BOu!rDZ~>");
    assert_eq!(base85_armor(b""), "<~~>");
}

#[test]
fn armor_without_line_breaks_is_the_encoding() {
    let bytes: Vec<u8> = (0..250u8).collect();
    assert_eq!(base64_armor(&bytes).replace('\n', ""), base64_encode(&bytes));
    let b85 = base85_armor(&bytes).replace('\n', "");
    assert_eq!(&b85[2..b85.len() - 2], base85_encode(&bytes));
}

fn b64_digit_value(c: char) -> u32 {
    (0..64u8).find(|&n| num_to_b64(n) == Some(c)).unwrap() as u32
}

fn b85_digit_value(c: char) -> u64 {
    (0..85u8).find(|&n| num_to_b85(n) == Some(c)).unwrap() as u64
}

#[test]
fn base64_groups_decode_back() {
    for group in [[0u8, 0, 0], [255, 255, 255], [1, 2, 3], [0x4D, 0x61, 0x6E], [200, 7, 99]] {
        let text = base64_encode(&group);
        let v = text.chars().fold(0u32, |acc, c| acc * 64 + b64_digit_value(c));
        assert_eq!(v.to_be_bytes()[1..].to_vec(), group.to_vec());
    }
}

#[test]
fn base85_groups_decode_back() {
    for group in [[0u8, 0, 0, 0], [255, 255, 255, 255], [1, 2, 3, 4], [0x4D, 0x61, 0x6E, 0x20]] {
        let text = base85_encode(&group);
        assert_eq!(text.len(), 5);
        let v = text.chars().fold(0u64, |acc, c| acc * 85 + b85_digit_value(c));
        assert_eq!(v, u32::from_be_bytes(group) as u64);
    }
}
