use alfanous_core::normalize::{normalize_arabic, normalize_for_search, strip_definite_article};
use alfanous_core::text::{decimal_chars, is_whitespace, trim_chars};

#[test]
fn whitespace_matches_char_is_whitespace() {
    for code in 0u32..=0x10FFFF {
        if let Some(c) = char::from_u32(code) {
            assert_eq!(is_whitespace(c), c.is_whitespace(), "U+{:04X}", code);
        }
    }
}

#[test]
fn trim_matches_str_trim() {
    let cases = ["", " ", "a", " a ", "\u{00A0}a b\u{3000}", "\t\n", "ab  ", "\u{2028}x\u{2029}"];
    for s in cases {
        let chars: Vec<char> = s.chars().collect();
        let t: String = trim_chars(&chars).into_iter().collect();
        assert_eq!(t, s.trim(), "{:?}", s);
    }
}

#[test]
fn search_form_is_split_and_joined_normal_form() {
    let cases = [
        "",
        "   ",
        "a",
        " a  b ",
        "\u{00A0}بِسْمِ\u{2003}ٱللَّهِ\n",
        "ـ ـ",
        "x\u{064B} \u{064B} y",
        "\u{0085}a\u{200A}\u{200A}b\u{205F}",
    ];
    for s in cases {
        let n = normalize_arabic(s);
        let expected = n.split_whitespace().collect::<Vec<&str>>().join(" ");
        assert_eq!(normalize_for_search(s), expected, "{:?}", s);
    }
}

#[test]
fn strip_article_after_trim() {
    assert_eq!(strip_definite_article("\u{00A0}الكتاب"), "كتاب");
    assert_eq!(strip_definite_article("الا"), "ا");
    assert_eq!(strip_definite_article(" ال "), "ال");
    assert_eq!(strip_definite_article(""), "");
}

#[test]
fn decimal_matches_to_string() {
    for n in [0u64, 7, 10, 99, 100, 286, 6236, u32::MAX as u64, u64::MAX] {
        let d: String = decimal_chars(n).into_iter().collect();
        assert_eq!(d, n.to_string());
    }
}
