//! The query lexer: turns a query string into operator, word and phrase
//! tokens. Arabic operator words (و، أو، او، ليس، وليس) are recognised as
//! operators, and a `word^N` suffix becomes a separate boost token when `N`
//! is a number in the syntax that `f64::from_str` accepts.
use vstd::prelude::*;

use crate::text::{chars_of, is_space, is_whitespace, string_of, sub_chars};

verus! {

/// Token produced by the query lexer.
///
/// A boost holds the text of its weight, exactly as written after `^`; the
/// lexer only emits it when that text is a valid floating-point literal.
#[derive(Debug, Clone, PartialEq)]
pub enum Token {
    Word(String),
    Phrase(String),
    And,
    Or,
    Not,
    LParen,
    RParen,
    Colon,
    Tilde,
    Hash,
    DoubleGreater,
    Greater,
    Percent,
    Boost(String),
}

/// A token as a mathematical value: its strings as character sequences.
pub enum TokenModel {
    Word(Seq<char>),
    Phrase(Seq<char>),
    And,
    Or,
    Not,
    LParen,
    RParen,
    Colon,
    Tilde,
    Hash,
    DoubleGreater,
    Greater,
    Percent,
    Boost(Seq<char>),
}

impl View for Token {
    type V = TokenModel;

    open spec fn view(&self) -> TokenModel {
        match self {
            Token::Word(s) => TokenModel::Word(s@),
            Token::Phrase(s) => TokenModel::Phrase(s@),
            Token::And => TokenModel::And,
            Token::Or => TokenModel::Or,
            Token::Not => TokenModel::Not,
            Token::LParen => TokenModel::LParen,
            Token::RParen => TokenModel::RParen,
            Token::Colon => TokenModel::Colon,
            Token::Tilde => TokenModel::Tilde,
            Token::Hash => TokenModel::Hash,
            Token::DoubleGreater => TokenModel::DoubleGreater,
            Token::Greater => TokenModel::Greater,
            Token::Percent => TokenModel::Percent,
            Token::Boost(s) => TokenModel::Boost(s@),
        }
    }
}

pub open spec fn tokens_model(ts: Seq<Token>) -> Seq<TokenModel> {
    ts.map_values(|t: Token| t@)
}

// ---------------------------------------------------------------------
// Floating-point literal syntax
// ---------------------------------------------------------------------
pub open spec fn is_digit(c: char) -> bool {
    '0' <= c && c <= '9'
}

pub open spec fn all_digits(s: Seq<char>) -> bool {
    forall|i: int| 0 <= i < s.len() ==> is_digit(#[trigger] s[i])
}

/// Length of an optional leading `+` or `-`.
pub open spec fn sign_len(s: Seq<char>) -> int {
    if s.len() > 0 && (s[0] == '+' || s[0] == '-') {
        1
    } else {
        0
    }
}

/// The upper-case form of the lower-case ASCII letters used in `inf`,
/// `infinity` and `nan`.
pub open spec fn upper_of(c: char) -> char {
    if c == 'i' {
        'I'
    } else if c == 'n' {
        'N'
    } else if c == 'f' {
        'F'
    } else if c == 't' {
        'T'
    } else if c == 'y' {
        'Y'
    } else if c == 'a' {
        'A'
    } else {
        c
    }
}

/// `s` spells the lower-case word `w`, ignoring ASCII case.
pub open spec fn spells(s: Seq<char>, w: Seq<char>) -> bool {
    s.len() == w.len() && forall|i: int| 0 <= i < s.len() ==> (#[trigger] s[i] == w[i] || s[i]
        == upper_of(w[i]))
}

/// First index at or after `i` where `s` holds `c`, or `s.len()`.
pub open spec fn first_pos(s: Seq<char>, c: char, i: int) -> int
    decreases s.len() - i,
{
    if 0 <= i < s.len() && s[i] != c {
        first_pos(s, c, i + 1)
    } else {
        i
    }
}

/// First index at or after `i` where `s` holds `e` or `E`, or `s.len()`.
pub open spec fn exp_pos(s: Seq<char>, i: int) -> int
    decreases s.len() - i,
{
    if 0 <= i < s.len() && s[i] != 'e' && s[i] != 'E' {
        exp_pos(s, i + 1)
    } else {
        i
    }
}

/// `Digit+ | Digit+ '.' Digit* | Digit* '.' Digit+`
pub open spec fn mantissa_ok(m: Seq<char>) -> bool {
    let d = first_pos(m, '.', 0);
    if d >= m.len() {
        m.len() > 0 && all_digits(m)
    } else {
        all_digits(m.take(d)) && all_digits(m.skip(d + 1)) && (d > 0 || m.len() > d + 1)
    }
}

/// `Sign? Digit+` (what follows the `e` of an exponent).
pub open spec fn exponent_ok(x: Seq<char>) -> bool {
    let y = x.skip(sign_len(x));
    y.len() > 0 && all_digits(y)
}

/// `Number ::= ( Digit+ | Digit+ '.' Digit* | Digit* '.' Digit+ ) Exp?`
pub open spec fn number_ok(b: Seq<char>) -> bool {
    let e = exp_pos(b, 0);
    mantissa_ok(b.take(e)) && (e >= b.len() || exponent_ok(b.skip(e + 1)))
}

/// The strings that `f64::from_str` accepts:
/// `Sign? ( 'inf' | 'infinity' | 'nan' | Number )`, letters in any ASCII case.
pub open spec fn valid_float(s: Seq<char>) -> bool {
    let b = s.skip(sign_len(s));
    ||| spells(b, seq!['i', 'n', 'f'])
    ||| spells(b, seq!['i', 'n', 'f', 'i', 'n', 'i', 't', 'y'])
    ||| spells(b, seq!['n', 'a', 'n'])
    ||| number_ok(b)
}

pub proof fn lemma_first_pos_bounds(s: Seq<char>, c: char, i: int)
    requires
        0 <= i <= s.len(),
    ensures
        i <= first_pos(s, c, i) <= s.len(),
        forall|j: int| i <= j < first_pos(s, c, i) ==> s[j] != c,
        first_pos(s, c, i) < s.len() ==> s[first_pos(s, c, i)] == c,
    decreases s.len() - i,
{
    if i < s.len() && s[i] != c {
        lemma_first_pos_bounds(s, c, i + 1);
    }
}

pub proof fn lemma_exp_pos_bounds(s: Seq<char>, i: int)
    requires
        0 <= i <= s.len(),
    ensures
        i <= exp_pos(s, i) <= s.len(),
        forall|j: int| i <= j < exp_pos(s, i) ==> s[j] != 'e' && s[j] != 'E',
        exp_pos(s, i) < s.len() ==> (s[exp_pos(s, i)] == 'e' || s[exp_pos(s, i)] == 'E'),
    decreases s.len() - i,
{
    if i < s.len() && s[i] != 'e' && s[i] != 'E' {
        lemma_exp_pos_bounds(s, i + 1);
    }
}

fn find_char_from(s: &[char], c: char, from: usize, to: usize) -> (r: usize)
    requires
        from <= to <= s@.len(),
    ensures
        from <= r <= to,
        forall|j: int| from <= j < r ==> s@[j] != c,
        r < to ==> s@[r as int] == c,
{
    let mut i = from;
    while i < to && s[i] != c
        invariant
            from <= i <= to <= s@.len(),
            forall|j: int| from <= j < i ==> s@[j] != c,
        decreases to - i,
    {
        i = i + 1;
    }
    i
}

fn all_digits_in(s: &[char], from: usize, to: usize) -> (r: bool)
    requires
        from <= to <= s@.len(),
    ensures
        r == all_digits(s@.subrange(from as int, to as int)),
{
    let mut i = from;
    while i < to
        invariant
            from <= i <= to <= s@.len(),
            forall|j: int| from <= j < i ==> is_digit(s@[j]),
        decreases to - i,
    {
        if !(s[i] >= '0' && s[i] <= '9') {
            assert(!is_digit(s@.subrange(from as int, to as int)[i - from]));
            return false;
        }
        i = i + 1;
    }
    assert forall|k: int| 0 <= k < to - from implies is_digit(
        #[trigger] s@.subrange(from as int, to as int)[k],
    ) by {
        assert(s@.subrange(from as int, to as int)[k] == s@[from + k]);
    }
    true
}

fn upper_char(c: char) -> (r: char)
    ensures
        r == upper_of(c),
{
    if c == 'i' {
        'I'
    } else if c == 'n' {
        'N'
    } else if c == 'f' {
        'F'
    } else if c == 't' {
        'T'
    } else if c == 'y' {
        'Y'
    } else if c == 'a' {
        'A'
    } else {
        c
    }
}

fn spells_at(s: &[char], from: usize, w: &[char]) -> (r: bool)
    requires
        from <= s@.len(),
    ensures
        r == spells(s@.skip(from as int), w@),
{
    let slen = s.len();
    if slen - from != w.len() {
        return false;
    }
    let mut i: usize = 0;
    while i < w.len()
        invariant
            slen == s@.len(),
            from + w@.len() == s@.len(),
            i <= w@.len(),
            forall|j: int| 0 <= j < i ==> (s@[from + j] == w@[j] || s@[from + j] == upper_of(w@[j])),
        decreases w@.len() - i,
    {
        let c = s[from + i];
        if !(c == w[i] || c == upper_char(w[i])) {
            assert(s@.skip(from as int)[i as int] == c);
            return false;
        }
        i = i + 1;
    }
    assert forall|j: int| 0 <= j < s@.skip(from as int).len() implies (#[trigger] s@.skip(
        from as int,
    )[j] == w@[j] || s@.skip(from as int)[j] == upper_of(w@[j])) by {
        assert(s@.skip(from as int)[j] == s@[from + j]);
    }
    true
}

fn mantissa_in(s: &[char], start: usize, e: usize) -> (r: bool)
    requires
        start <= e <= s@.len(),
    ensures
        r == mantissa_ok(s@.subrange(start as int, e as int)),
{
    let ghost m = s@.subrange(start as int, e as int);
    let d = find_char_from(s, '.', start, e);
    proof {
        lemma_first_pos_bounds(m, '.', 0);
        let fp = first_pos(m, '.', 0);
        if fp < d - start {
            assert(m[fp] == s@[start + fp]);
        }
        if d - start < fp {
            assert(m[d - start] == s@[d as int]);
        }
        assert(fp == d - start);
    }
    if d >= e {
        e > start && all_digits_in(s, start, e)
    } else {
        assert(m.take(d - start) =~= s@.subrange(start as int, d as int));
        assert(m.skip(d - start + 1) =~= s@.subrange(d + 1, e as int));
        all_digits_in(s, start, d) && all_digits_in(s, d + 1, e) && (d > start || e > d + 1)
    }
}

fn exponent_at(s: &[char], x_start: usize) -> (r: bool)
    requires
        x_start <= s@.len(),
    ensures
        r == exponent_ok(s@.skip(x_start as int)),
{
    let ghost x = s@.skip(x_start as int);
    let y_start: usize = if x_start < s.len() && (s[x_start] == '+' || s[x_start] == '-') {
        x_start + 1
    } else {
        x_start
    };
    assert(x.skip(sign_len(x)) =~= s@.subrange(y_start as int, s@.len() as int));
    y_start < s.len() && all_digits_in(s, y_start, s.len())
}

fn number_at(s: &[char], start: usize) -> (r: bool)
    requires
        start <= s@.len(),
    ensures
        r == number_ok(s@.skip(start as int)),
{
    let ghost b = s@.skip(start as int);
    let mut e = start;
    while e < s.len() && s[e] != 'e' && s[e] != 'E'
        invariant
            start <= e <= s@.len(),
            forall|j: int| start <= j < e ==> s@[j] != 'e' && s@[j] != 'E',
        decreases s@.len() - e,
    {
        e = e + 1;
    }
    proof {
        lemma_exp_pos_bounds(b, 0);
        let ep = exp_pos(b, 0);
        if ep < e - start {
            assert(b[ep] == s@[start + ep]);
        }
        if e - start < ep {
            assert(b[e - start] == s@[e as int]);
        }
        assert(ep == e - start);
        assert(b.take(e - start) =~= s@.subrange(start as int, e as int));
    }
    if !mantissa_in(s, start, e) {
        return false;
    }
    if e >= s.len() {
        return true;
    }
    assert(b.skip(e - start + 1) =~= s@.skip(e + 1));
    exponent_at(s, e + 1)
}

/// Whether `s[from..]` is a floating-point literal (see [`valid_float`]).
pub fn is_float_literal(s: &[char], from: usize) -> (r: bool)
    requires
        from <= s@.len(),
    ensures
        r == valid_float(s@.skip(from as int)),
{
    let ghost whole = s@.skip(from as int);
    let start: usize = if from < s.len() && (s[from] == '+' || s[from] == '-') {
        from + 1
    } else {
        from
    };
    assert(whole.skip(sign_len(whole)) =~= s@.skip(start as int));
    let inf = vec!['i', 'n', 'f'];
    let infinity = vec!['i', 'n', 'f', 'i', 'n', 'i', 't', 'y'];
    let nan = vec!['n', 'a', 'n'];
    assert(inf@ == seq!['i', 'n', 'f']);
    assert(infinity@ == seq!['i', 'n', 'f', 'i', 'n', 'i', 't', 'y']);
    assert(nan@ == seq!['n', 'a', 'n']);
    let named = spells_at(s, start, inf.as_slice()) || spells_at(s, start, infinity.as_slice())
        || spells_at(s, start, nan.as_slice());
    named || number_at(s, start)
}

// ---------------------------------------------------------------------
// The token language
// ---------------------------------------------------------------------
/// The whitespace characters that the lexer skips between tokens.
pub open spec fn is_blank(c: char) -> bool {
    c == ' ' || c == '\t' || c == '\n' || c == '\r'
}

/// The token of a one-character operator.
pub open spec fn single_char_token(c: char) -> Option<TokenModel> {
    if c == '+' {
        Some(TokenModel::And)
    } else if c == '|' {
        Some(TokenModel::Or)
    } else if c == '(' {
        Some(TokenModel::LParen)
    } else if c == ')' {
        Some(TokenModel::RParen)
    } else if c == ':' {
        Some(TokenModel::Colon)
    } else if c == '~' {
        Some(TokenModel::Tilde)
    } else if c == '#' {
        Some(TokenModel::Hash)
    } else if c == '%' {
        Some(TokenModel::Percent)
    } else if c == '-' {
        Some(TokenModel::Not)
    } else {
        None
    }
}

/// The characters that end a word.
pub open spec fn ends_word(c: char) -> bool {
    is_space(c) || c == '+' || c == '|' || c == '(' || c == ')' || c == ':' || c == '~' || c
        == '#' || c == '%' || c == '"'
}

/// Index of the first character at or after `i` that ends a word.
pub open spec fn word_end(s: Seq<char>, i: int) -> int
    decreases s.len() - i,
{
    if 0 <= i < s.len() && !ends_word(s[i]) {
        word_end(s, i + 1)
    } else {
        i
    }
}

pub proof fn lemma_word_end_bounds(s: Seq<char>, i: int)
    requires
        0 <= i <= s.len(),
    ensures
        i <= word_end(s, i) <= s.len(),
        forall|j: int| i <= j < word_end(s, i) ==> !ends_word(s[j]),
        word_end(s, i) < s.len() ==> ends_word(s[word_end(s, i)]),
    decreases s.len() - i,
{
    if i < s.len() && !ends_word(s[i]) {
        lemma_word_end_bounds(s, i + 1);
    }
}

pub open spec fn and_word() -> Seq<char> {
    seq!['\u{0648}']
}

pub open spec fn or_word() -> Seq<char> {
    seq!['\u{0623}', '\u{0648}']
}

pub open spec fn or_word_plain() -> Seq<char> {
    seq!['\u{0627}', '\u{0648}']
}

pub open spec fn not_word() -> Seq<char> {
    seq!['\u{0644}', '\u{064A}', '\u{0633}']
}

pub open spec fn and_not_word() -> Seq<char> {
    seq!['\u{0648}', '\u{0644}', '\u{064A}', '\u{0633}']
}

/// The tokens that a word read by the lexer stands for.
pub open spec fn word_tokens(w: Seq<char>) -> Seq<TokenModel> {
    if w == and_word() {
        seq![TokenModel::And]
    } else if w == or_word() || w == or_word_plain() {
        seq![TokenModel::Or]
    } else if w == not_word() {
        seq![TokenModel::Not]
    } else if w == and_not_word() {
        seq![TokenModel::And, TokenModel::Not]
    } else {
        let k = first_pos(w, '^', 0);
        if k < w.len() && valid_float(w.skip(k + 1)) {
            seq![TokenModel::Word(w.take(k)), TokenModel::Boost(w.skip(k + 1))]
        } else {
            seq![TokenModel::Word(w)]
        }
    }
}

pub open spec fn prepend(p: Seq<TokenModel>, rest: Option<Seq<TokenModel>>) -> Option<
    Seq<TokenModel>,
> {
    match rest {
        Some(t) => Some(p + t),
        None => None,
    }
}

/// The tokens of `s[i..]`, or `None` where the lexer would never finish:
/// a whitespace character other than space, tab, newline and carriage
/// return, met between tokens, is neither skipped nor read into a word.
pub open spec fn lex_from(s: Seq<char>, i: int) -> Option<Seq<TokenModel>>
    decreases s.len() - i,
{
    if i < 0 || i >= s.len() {
        Some(seq![])
    } else {
        let c = s[i];
        if is_blank(c) {
            lex_from(s, i + 1)
        } else {
            match single_char_token(c) {
                Some(t) => prepend(seq![t], lex_from(s, i + 1)),
                None => {
                    if c == '>' {
                        if i + 1 < s.len() && s[i + 1] == '>' {
                            prepend(seq![TokenModel::DoubleGreater], lex_from(s, i + 2))
                        } else {
                            prepend(seq![TokenModel::Greater], lex_from(s, i + 1))
                        }
                    } else if c == '"' {
                        let e = first_pos(s, '"', i + 1);
                        proof {
                            lemma_first_pos_bounds(s, '"', i + 1);
                        }
                        prepend(
                            seq![TokenModel::Phrase(s.subrange(i + 1, e))],
                            lex_from(
                                s,
                                if e < s.len() {
                                    e + 1
                                } else {
                                    e
                                },
                            ),
                        )
                    } else if is_space(c) {
                        None
                    } else {
                        let e = word_end(s, i + 1);
                        proof {
                            lemma_word_end_bounds(s, i + 1);
                        }
                        prepend(word_tokens(s.subrange(i, e)), lex_from(s, e))
                    }
                },
            }
        }
    }
}

/// The tokens of a whole query, or `None` where the lexer would never finish.
pub open spec fn lex(s: Seq<char>) -> Option<Seq<TokenModel>> {
    lex_from(s, 0)
}

pub proof fn lemma_prepend_push(p: Seq<TokenModel>, t: Seq<TokenModel>, rest: Option<Seq<TokenModel>>)
    ensures
        prepend(p, prepend(t, rest)) == prepend(p + t, rest),
{
    if let Some(r) = rest {
        assert(p + (t + r) =~= (p + t) + r);
    }
}

proof fn lemma_model_push(ts: Seq<Token>, t: Token)
    ensures
        tokens_model(ts.push(t)) == tokens_model(ts) + seq![t@],
{
    assert(tokens_model(ts.push(t)) =~= tokens_model(ts) + seq![t@]);
}

fn is_word_stop(c: char) -> (r: bool)
    ensures
        r == ends_word(c),
{
    is_whitespace(c) || c == '+' || c == '|' || c == '(' || c == ')' || c == ':' || c == '~' || c
        == '#' || c == '%' || c == '"'
}

/// Reads a word starting at `start`: the characters up to the first one
/// that ends a word. A word does not start with `>` or `-`; inside a word
/// both are kept. Returns the index just past the word.
fn read_word(chars: &[char], start: usize) -> (end: usize)
    requires
        start <= chars@.len(),
    ensures
        end == if start < chars@.len() && !ends_word(chars@[start as int]) && chars@[start as int]
            != '>' && chars@[start as int] != '-' {
            word_end(chars@, start + 1)
        } else {
            start as int
        },
{
    let mut end = start;
    if start < chars.len() && !is_word_stop(chars[start]) && chars[start] != '>' && chars[start]
        != '-' {
        end = start + 1;
        while end < chars.len() && !is_word_stop(chars[end])
            invariant
                start < end <= chars@.len(),
                word_end(chars@, start + 1) == word_end(chars@, end as int),
            decreases chars@.len() - end,
        {
            end = end + 1;
        }
    }
    end
}

/// Pushes the tokens that the word `w` stands for.
fn push_word_tokens(w: &[char], tokens: &mut Vec<Token>)
    ensures
        tokens_model(final(tokens)@) == tokens_model(old(tokens)@) + word_tokens(w@),
{
    proof {
        reveal_with_fuel(first_pos, 2);
    }
    let n = w.len();
    if n == 1 && w[0] == '\u{0648}' {
        assert(w@ =~= and_word());
        proof {
            lemma_model_push(tokens@, Token::And);
        }
        tokens.push(Token::And);
    } else if n == 2 && (w[0] == '\u{0623}' || w[0] == '\u{0627}') && w[1] == '\u{0648}' {
        assert(w@ =~= or_word() || w@ =~= or_word_plain());
        proof {
            lemma_model_push(tokens@, Token::Or);
        }
        tokens.push(Token::Or);
    } else if n == 3 && w[0] == '\u{0644}' && w[1] == '\u{064A}' && w[2] == '\u{0633}' {
        assert(w@ =~= not_word());
        proof {
            lemma_model_push(tokens@, Token::Not);
        }
        tokens.push(Token::Not);
    } else if n == 4 && w[0] == '\u{0648}' && w[1] == '\u{0644}' && w[2] == '\u{064A}' && w[3]
        == '\u{0633}' {
        assert(w@ =~= and_not_word());
        proof {
            lemma_model_push(tokens@, Token::And);
            lemma_model_push(tokens@.push(Token::And), Token::Not);
        }
        tokens.push(Token::And);
        tokens.push(Token::Not);
        assert(seq![TokenModel::And] + seq![TokenModel::Not] =~= seq![
            TokenModel::And,
            TokenModel::Not,
        ]);
    } else {
        proof {
            assert(w@ != and_word()) by {
                if w@ == and_word() {
                    assert(w@[0] == '\u{0648}');
                }
            }
            assert(w@ != or_word() && w@ != or_word_plain()) by {
                if w@ == or_word() || w@ == or_word_plain() {
                    assert(w@[1] == '\u{0648}');
                }
            }
            assert(w@ != not_word()) by {
                if w@ == not_word() {
                    assert(w@[2] == '\u{0633}');
                }
            }
            assert(w@ != and_not_word()) by {
                if w@ == and_not_word() {
                    assert(w@[3] == '\u{0633}');
                }
            }
            lemma_first_pos_bounds(w@, '^', 0);
        }
        let k = find_char_from(w, '^', 0, n);
        proof {
            let fp = first_pos(w@, '^', 0);
            if fp < k {
                assert(w@[fp] == '^');
            }
            if k < fp {
                assert(w@[k as int] == '^');
            }
        }
        if k < n && is_float_literal(w, k + 1) {
            let term = string_of(sub_chars(w, 0, k).as_slice());
            let weight = string_of(sub_chars(w, k + 1, n).as_slice());
            proof {
                lemma_model_push(tokens@, Token::Word(term));
                lemma_model_push(tokens@.push(Token::Word(term)), Token::Boost(weight));
                assert(w@.subrange(0, k as int) =~= w@.take(k as int));
                assert(w@.subrange(k + 1, n as int) =~= w@.skip(k + 1));
            }
            tokens.push(Token::Word(term));
            tokens.push(Token::Boost(weight));
            assert(seq![TokenModel::Word(w@.take(k as int))] + seq![
                TokenModel::Boost(w@.skip(k + 1)),
            ] =~= seq![TokenModel::Word(w@.take(k as int)), TokenModel::Boost(w@.skip(k + 1))]);
        } else {
            let word = string_of(w);
            proof {
                lemma_model_push(tokens@, Token::Word(word));
            }
            tokens.push(Token::Word(word));
        }
    }
}

/// Whether the lexer finishes on `input` (see [`lex`]).
pub fn lexes(input: &str) -> (r: bool)
    ensures
        r == (lex(input@) is Some),
{
    let chars = chars_of(input);
    lexes_chars(chars.as_slice())
}

/// Whether the lexer finishes on a query given as characters.
pub fn lexes_chars(input: &[char]) -> (r: bool)
    ensures
        r == (lex(input@) is Some),
{
    let chars = input;
    let n = chars.len();
    let mut i: usize = 0;
    while i < n
        invariant
            n == chars@.len(),
            i <= n,
            chars@ == input@,
            lex(chars@) is Some <==> lex_from(chars@, i as int) is Some,
        decreases n - i,
    {
        let c = chars[i];
        if c == ' ' || c == '\t' || c == '\n' || c == '\r' || c == '+' || c == '|' || c == '('
            || c == ')' || c == ':' || c == '~' || c == '#' || c == '%' || c == '-' {
            i = i + 1;
        } else if c == '>' {
            if i + 1 < n && chars[i + 1] == '>' {
                i = i + 2;
            } else {
                i = i + 1;
            }
        } else if c == '"' {
            let e = find_char_from(chars, '"', i + 1, n);
            proof {
                lemma_first_pos_bounds(chars@, '"', i + 1);
                let fp = first_pos(chars@, '"', i + 1);
                if fp < e {
                    assert(chars@[fp] == '"');
                }
                if e < fp {
                    assert(chars@[e as int] == '"');
                }
            }
            i = if e < n {
                e + 1
            } else {
                e
            };
        } else if is_whitespace(c) {
            assert(single_char_token(c) is None);
            assert(lex_from(chars@, i as int) is None);
            return false;
        } else {
            let e = read_word(chars, i);
            proof {
                lemma_word_end_bounds(chars@, i + 1);
            }
            i = e;
        }
    }
    true
}

/// Tokenize a query string into a sequence of tokens.
pub fn tokenize(input: &str) -> (tokens: Vec<Token>)
    requires
        lex(input@) is Some,
    ensures
        lex(input@) == Some(tokens_model(tokens@)),
{
    let chars = chars_of(input);
    tokenize_chars(chars.as_slice())
}

/// The tokens of a query given as characters.
pub fn tokenize_chars(input: &[char]) -> (tokens: Vec<Token>)
    requires
        lex(input@) is Some,
    ensures
        lex(input@) == Some(tokens_model(tokens@)),
{
    let chars = input;
    let n = chars.len();
    let mut tokens: Vec<Token> = Vec::new();
    let mut i: usize = 0;
    assert(tokens_model(tokens@) =~= seq![]);
    assert(prepend(seq![], lex_from(chars@, 0)) == lex_from(chars@, 0)) by {
        if let Some(r) = lex_from(chars@, 0) {
            assert(seq![] + r =~= r);
        }
    }
    while i < n
        invariant
            n == chars@.len(),
            i <= n,
            chars@ == input@,
            lex(chars@) is Some,
            lex(chars@) == prepend(tokens_model(tokens@), lex_from(chars@, i as int)),
        decreases n - i,
    {
        let ghost before = tokens_model(tokens@);
        let c = chars[i];
        if c == ' ' || c == '\t' || c == '\n' || c == '\r' {
            i = i + 1;
        } else if c == '+' || c == '|' || c == '(' || c == ')' || c == ':' || c == '~' || c == '#'
            || c == '%' || c == '-' {
            let t = if c == '+' {
                Token::And
            } else if c == '|' {
                Token::Or
            } else if c == '(' {
                Token::LParen
            } else if c == ')' {
                Token::RParen
            } else if c == ':' {
                Token::Colon
            } else if c == '~' {
                Token::Tilde
            } else if c == '#' {
                Token::Hash
            } else if c == '%' {
                Token::Percent
            } else {
                Token::Not
            };
            proof {
                assert(single_char_token(c) == Some(t@));
                lemma_prepend_push(before, seq![t@], lex_from(chars@, i + 1));
                lemma_model_push(tokens@, t);
            }
            tokens.push(t);
            i = i + 1;
        } else if c == '>' {
            if i + 1 < n && chars[i + 1] == '>' {
                proof {
                    lemma_prepend_push(before, seq![TokenModel::DoubleGreater], lex_from(chars@, i + 2));
                    lemma_model_push(tokens@, Token::DoubleGreater);
                }
                tokens.push(Token::DoubleGreater);
                i = i + 2;
            } else {
                proof {
                    lemma_prepend_push(before, seq![TokenModel::Greater], lex_from(chars@, i + 1));
                    lemma_model_push(tokens@, Token::Greater);
                }
                tokens.push(Token::Greater);
                i = i + 1;
            }
        } else if c == '"' {
            let e = find_char_from(chars, '"', i + 1, n);
            proof {
                lemma_first_pos_bounds(chars@, '"', i + 1);
                let fp = first_pos(chars@, '"', i + 1);
                if fp < e {
                    assert(chars@[fp] == '"');
                }
                if e < fp {
                    assert(chars@[e as int] == '"');
                }
            }
            let phrase = string_of(sub_chars(chars, i + 1, e).as_slice());
            let next = if e < n {
                e + 1
            } else {
                e
            };
            proof {
                lemma_prepend_push(
                    before,
                    seq![TokenModel::Phrase(chars@.subrange(i + 1, e as int))],
                    lex_from(chars@, next as int),
                );
                lemma_model_push(tokens@, Token::Phrase(phrase));
            }
            tokens.push(Token::Phrase(phrase));
            i = next;
        } else {
            proof {
                if is_space(c) {
                    assert(lex_from(chars@, i as int) is None);
                }
            }
            let e = read_word(chars, i);
            proof {
                lemma_word_end_bounds(chars@, i + 1);
            }
            let w = sub_chars(chars, i, e);
            push_word_tokens(w.as_slice(), &mut tokens);
            proof {
                lemma_prepend_push(before, word_tokens(w@), lex_from(chars@, e as int));
            }
            i = e;
        }
    }
    assert(lex_from(chars@, i as int) == Some(Seq::<TokenModel>::empty()));
    assert(tokens_model(tokens@) + Seq::<TokenModel>::empty() =~= tokens_model(tokens@));
    tokens
}

} // verus!
