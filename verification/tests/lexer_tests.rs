use alfanous_core::parser::lexer::{is_float_literal, lexes};
use alfanous_core::parser::{tokenize, Token};

fn w(s: &str) -> Token {
    Token::Word(s.to_string())
}

#[test]
fn lex_operators_and_words() {
    assert_eq!(
        tokenize("(a | b) + -c"),
        vec![Token::LParen, w("a"), Token::Or, w("b"), Token::RParen, Token::And, Token::Not, w("c")]
    );
    assert_eq!(
        tokenize(":~#%>>x>y"),
        vec![Token::Colon, Token::Tilde, Token::Hash, Token::Percent, Token::DoubleGreater, w("x>y")]
    );
}

#[test]
fn lex_hyphen_inside_word_is_kept() {
    assert_eq!(tokenize("a-b"), vec![w("a-b")]);
    assert_eq!(tokenize("-a"), vec![Token::Not, w("a")]);
}

#[test]
fn lex_arabic_operator_words() {
    assert_eq!(tokenize("و"), vec![Token::And]);
    assert_eq!(tokenize("أو او"), vec![Token::Or, Token::Or]);
    assert_eq!(tokenize("ليس"), vec![Token::Not]);
    assert_eq!(tokenize("وليس"), vec![Token::And, Token::Not]);
    assert_eq!(tokenize("والله"), vec![w("والله")]);
}

#[test]
fn lex_phrases() {
    assert_eq!(tokenize("\"a b\"c"), vec![Token::Phrase("a b".to_string()), w("c")]);
    assert_eq!(tokenize("\"open"), vec![Token::Phrase("open".to_string())]);
    assert_eq!(tokenize("\"\""), vec![Token::Phrase(String::new())]);
}

#[test]
fn lex_boost_suffix() {
    assert_eq!(tokenize("w^2.5"), vec![w("w"), Token::Boost("2.5".to_string())]);
    assert_eq!(tokenize("w^.5"), vec![w("w"), Token::Boost(".5".to_string())]);
    assert_eq!(tokenize("w^1.5E-3"), vec![w("w"), Token::Boost("1.5E-3".to_string())]);
    // `+` ends a word
    assert_eq!(tokenize("w^+1"), vec![w("w^"), Token::And, w("1")]);
    assert_eq!(tokenize("w^INF"), vec![w("w"), Token::Boost("INF".to_string())]);
    assert_eq!(tokenize("^3"), vec![w(""), Token::Boost("3".to_string())]);
    assert_eq!(tokenize("w^abc"), vec![w("w^abc")]);
    assert_eq!(tokenize("w^"), vec![w("w^")]);
    assert_eq!(tokenize("w^."), vec![w("w^.")]);
    assert_eq!(tokenize("w^1^2"), vec![w("w^1^2")]);
}

#[test]
fn float_syntax_matches_f64_from_str() {
    let cases = [
        "0", "1", "1.", ".5", ".", "", "+", "-", "+1", "-1", "1e5", "1E5", "1e", "e5", "1e+5",
        "1e-5", "1.5e5", "1.5e", ".e1", "1..2", "1.2.3", "inf", "INF", "Inf", "+inf", "-inf",
        "infinity", "Infinity", "INFINITY", "infinit", "nan", "NaN", "-nan", "nanx", "in", "1_0",
        " 1", "1 ", "0x10", "1e1.5", "١", "12345678901234567890", "1e400", "++1", "-+1",
    ];
    for s in cases {
        let chars: Vec<char> = s.chars().collect();
        assert_eq!(is_float_literal(&chars, 0), s.parse::<f64>().is_ok(), "{:?}", s);
    }
}

#[test]
fn lex_blank_input_has_no_tokens() {
    assert!(tokenize("").is_empty());
    assert!(tokenize(" \t\r\n").is_empty());
}

#[test]
fn lexer_stops_only_on_plain_whitespace() {
    assert!(lexes("الله + النار"));
    assert!(lexes("\"a\u{00A0}b\""));
    assert!(!lexes("a\u{000B}b"));
    assert!(!lexes("\u{00A0}"));
}
