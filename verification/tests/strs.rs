use tabula::strs::{center, cut, pad, right, UNLIM};

#[test]
fn cut_utf_test() {
    let s = "ʃʤaíckəʊkʌɪg";
    let c = cut(s, 0, UNLIM);
    assert_eq!(c, s.to_string());
    let c = cut(s, 2, UNLIM);
    assert_eq!(c, "aíckəʊkʌɪg".to_string());
    let c = cut(s, UNLIM, UNLIM);
    assert_eq!(c, "".to_string());
    let c = cut(s, 4, 30);
    assert_eq!(c, "ckəʊkʌɪg".to_string());
    let c = cut(s, 3, 5);
    assert_eq!(c, "íckəʊ".to_string());
    let c = cut(s, 13, 4);
    assert_eq!(c, "".to_string());
}

#[test]
fn center_utf_test() {
    let s = "ʃʤaíckəʊkʌɪg";
    let c = center(s, 12);
    assert_eq!(c, s.to_string());
    let c = center(s, 10);
    assert_eq!(c, "ʤaíckəʊkʌɪ".to_string());
    let c = center(s, 9);
    assert_eq!(c, "ʤaíckəʊkʌ".to_string());
    let c = center(s, 13);
    assert_eq!(c, "ʃʤaíckəʊkʌɪg ".to_string());
    let c = center(s, 16);
    assert_eq!(c, "  ʃʤaíckəʊkʌɪg  ".to_string());
}

#[test]
fn right_utf_test() {
    let s = "ʃʤaíckəʊkʌɪg";
    let c = right(s, 12);
    assert_eq!(c, s.to_string());
    let c = right(s, 10);
    assert_eq!(c, "aíckəʊkʌɪg".to_string());
    let c = right(s, 9);
    assert_eq!(c, "íckəʊkʌɪg".to_string());
    let c = right(s, 13);
    assert_eq!(c, " ʃʤaíckəʊkʌɪg".to_string());
    let c = right(s, 16);
    assert_eq!(c, "    ʃʤaíckəʊkʌɪg".to_string());
}

#[test]
fn pad_utf_test() {
    let s = "ʃʤaíckəʊkʌɪg";
    let c = pad(s, 12);
    assert_eq!(c, s.to_string());
    let c = pad(s, 10);
    assert_eq!(c, s.to_string());
    let c = pad(s, 13);
    assert_eq!(c, "ʃʤaíckəʊkʌɪg ".to_string());
    let c = pad(s, 16);
    assert_eq!(c, "ʃʤaíckəʊkʌɪg    ".to_string());
}

#[test]
fn wide_characters_take_two_columns() {
    // each of these takes two columns, so three of them fill six
    let s = "日本語";
    assert_eq!(pad(s, 8), "日本語  ".to_string());
    assert_eq!(right(s, 8), "  日本語".to_string());
    assert_eq!(center(s, 8), " 日本語 ".to_string());
    assert_eq!(cut(s, 0, 4), "日本".to_string());
    assert_eq!(cut(s, 1, 3), "本".to_string());
    assert_eq!(right(s, 4), "本語".to_string());
}

#[test]
fn control_characters_take_no_column() {
    let s = "a\u{1}b";
    assert_eq!(cut(s, 1, 1), "\u{1}b".to_string());
    assert_eq!(right(s, 1), "\u{1}b".to_string());
}

#[test]
fn cut_of_nothing_is_nothing() {
    assert_eq!(cut("abc", 1, 0), "".to_string());
    assert_eq!(cut("", 0, 0), "".to_string());
    assert_eq!(right("", 5), "".to_string());
    assert_eq!(pad("", 3), "   ".to_string());
    assert_eq!(center("", 3), "   ".to_string());
}
