//! The query language: a recursive-descent parser over the lexer's tokens.
//!
//! Grammar (lowest precedence first):
//! - or:      and (`|` and)*            left-associative
//! - and:     unary (`+` unary)*        left-associative
//! - unary:   `-` primary | `~` word | `#` word | `>>` word | `>` word
//!            | `%` word | primary
//! - primary: phrase | `(` or `)` | word `:` primary | word `^N` | word
use vstd::prelude::*;

pub mod lexer;

pub use lexer::{tokenize, Token};

use crate::text::{chars_of, has_char, is_space, trim};
use lexer::{
    and_not_word, and_word, ends_word, first_pos, is_blank, lemma_first_pos_bounds,
    lemma_prepend_push, lemma_word_end_bounds, lex, lex_from, not_word, or_word, or_word_plain,
    prepend, single_char_token, tokens_model, word_end, word_tokens, TokenModel,
};

verus! {

/// AST node representing a parsed query.
///
/// A boost keeps the text of its weight, a floating-point literal.
#[derive(Debug, PartialEq)]
pub enum QueryNode {
    Term(String),
    Phrase(String),
    Wildcard(String),
    And(Box<QueryNode>, Box<QueryNode>),
    Or(Box<QueryNode>, Box<QueryNode>),
    Not(Box<QueryNode>),
    Field { field: String, value: Box<QueryNode> },
    Synonym(String),
    Antonym(String),
    Root(String),
    Lemma(String),
    Boost(Box<QueryNode>, String),
    SpellTolerant(String),
}

/// A query tree as a mathematical value.
pub enum QueryModel {
    Term(Seq<char>),
    Phrase(Seq<char>),
    Wildcard(Seq<char>),
    And(Box<QueryModel>, Box<QueryModel>),
    Or(Box<QueryModel>, Box<QueryModel>),
    Not(Box<QueryModel>),
    Field { field: Seq<char>, value: Box<QueryModel> },
    Synonym(Seq<char>),
    Antonym(Seq<char>),
    Root(Seq<char>),
    Lemma(Seq<char>),
    Boost(Box<QueryModel>, Seq<char>),
    SpellTolerant(Seq<char>),
}

pub open spec fn node_model(n: QueryNode) -> QueryModel
    decreases n,
{
    match n {
        QueryNode::Term(s) => QueryModel::Term(s@),
        QueryNode::Phrase(s) => QueryModel::Phrase(s@),
        QueryNode::Wildcard(s) => QueryModel::Wildcard(s@),
        QueryNode::And(l, r) => QueryModel::And(
            Box::new(node_model(*l)),
            Box::new(node_model(*r)),
        ),
        QueryNode::Or(l, r) => QueryModel::Or(Box::new(node_model(*l)), Box::new(node_model(*r))),
        QueryNode::Not(i) => QueryModel::Not(Box::new(node_model(*i))),
        QueryNode::Field { field, value } => QueryModel::Field {
            field: field@,
            value: Box::new(node_model(*value)),
        },
        QueryNode::Synonym(s) => QueryModel::Synonym(s@),
        QueryNode::Antonym(s) => QueryModel::Antonym(s@),
        QueryNode::Root(s) => QueryModel::Root(s@),
        QueryNode::Lemma(s) => QueryModel::Lemma(s@),
        QueryNode::Boost(i, w) => QueryModel::Boost(Box::new(node_model(*i)), w@),
        QueryNode::SpellTolerant(s) => QueryModel::SpellTolerant(s@),
    }
}

impl View for QueryNode {
    type V = QueryModel;

    open spec fn view(&self) -> QueryModel {
        node_model(*self)
    }
}

/// A word with a wildcard character (`*`, `?` or the Arabic `؟`) is a
/// wildcard pattern; any other word is a plain term.
pub open spec fn term_or_wildcard(w: Seq<char>) -> QueryModel {
    if w.contains('*') || w.contains('?') || w.contains('\u{061F}') {
        QueryModel::Wildcard(w)
    } else {
        QueryModel::Term(w)
    }
}

/// `q` moved into `[lo, hi]` (to `lo` where the range is empty).
pub open spec fn clamp(q: int, lo: int, hi: int) -> int {
    if q < lo || hi < lo {
        lo
    } else if q > hi {
        hi
    } else {
        q
    }
}

/// The word operand of a prefix operator at position `p`: the token there is
/// consumed whatever it is, and stands for the empty word unless it is a word.
pub open spec fn word_operand(t: Seq<TokenModel>, p: int) -> (Seq<char>, int) {
    if 0 <= p < t.len() {
        match t[p] {
            TokenModel::Word(w) => (w, p + 1),
            _ => (Seq::empty(), p + 1),
        }
    } else {
        (Seq::empty(), p)
    }
}

/// primary: phrase | `(` or `)` | word `:` primary | word boost | word
pub open spec fn p_primary(t: Seq<TokenModel>, p: int) -> (QueryModel, int)
    decreases t.len() - p, 0int,
{
    if p < 0 || p >= t.len() {
        (QueryModel::Term(Seq::empty()), p)
    } else {
        match t[p] {
            TokenModel::Phrase(s) => (QueryModel::Phrase(s), p + 1),
            TokenModel::LParen => {
                let (inner, q) = p_or(t, p + 1);
                if 0 <= q < t.len() && t[q] is RParen {
                    (inner, q + 1)
                } else {
                    (inner, q)
                }
            },
            TokenModel::Word(w) => {
                if p + 1 < t.len() && t[p + 1] is Colon {
                    let (v, q) = p_primary(t, p + 2);
                    (QueryModel::Field { field: w, value: Box::new(v) }, q)
                } else if p + 1 < t.len() && t[p + 1] is Boost {
                    (QueryModel::Boost(Box::new(term_or_wildcard(w)), t[p + 1]->Boost_0), p + 2)
                } else {
                    (term_or_wildcard(w), p + 1)
                }
            },
            _ => (QueryModel::Term(Seq::empty()), p + 1),
        }
    }
}

/// unary: `-` primary | prefix operator word | primary
pub open spec fn p_unary(t: Seq<TokenModel>, p: int) -> (QueryModel, int)
    decreases t.len() - p, 1int,
{
    if p < 0 || p >= t.len() {
        p_primary(t, p)
    } else {
        match t[p] {
            TokenModel::Not => {
                let (o, q) = p_primary(t, p + 1);
                (QueryModel::Not(Box::new(o)), q)
            },
            TokenModel::Tilde => {
                let (w, q) = word_operand(t, p + 1);
                (QueryModel::Synonym(w), q)
            },
            TokenModel::Hash => {
                let (w, q) = word_operand(t, p + 1);
                (QueryModel::Antonym(w), q)
            },
            TokenModel::DoubleGreater => {
                let (w, q) = word_operand(t, p + 1);
                (QueryModel::Root(w), q)
            },
            TokenModel::Greater => {
                let (w, q) = word_operand(t, p + 1);
                (QueryModel::Lemma(w), q)
            },
            TokenModel::Percent => {
                let (w, q) = word_operand(t, p + 1);
                (QueryModel::SpellTolerant(w), q)
            },
            _ => p_primary(t, p),
        }
    }
}

/// The `(+ unary)*` tail of an and-expression whose left part is `left`.
pub open spec fn p_and_rest(t: Seq<TokenModel>, left: QueryModel, q: int) -> (QueryModel, int)
    decreases t.len() - q, 2int,
{
    if 0 <= q < t.len() && t[q] is And {
        let (r, q2) = p_unary(t, q + 1);
        p_and_rest(t, QueryModel::And(Box::new(left), Box::new(r)), clamp(q2, q + 1, t.len() as int))
    } else {
        (left, q)
    }
}

/// and: unary (`+` unary)*
pub open spec fn p_and(t: Seq<TokenModel>, p: int) -> (QueryModel, int)
    decreases t.len() - p, 3int,
{
    let (l, q) = p_unary(t, p);
    p_and_rest(t, l, clamp(q, p, t.len() as int))
}

/// The `(| and)*` tail of an or-expression whose left part is `left`.
pub open spec fn p_or_rest(t: Seq<TokenModel>, left: QueryModel, q: int) -> (QueryModel, int)
    decreases t.len() - q, 4int,
{
    if 0 <= q < t.len() && t[q] is Or {
        let (r, q2) = p_and(t, q + 1);
        p_or_rest(t, QueryModel::Or(Box::new(left), Box::new(r)), clamp(q2, q + 1, t.len() as int))
    } else {
        (left, q)
    }
}

/// or: and (`|` and)*
pub open spec fn p_or(t: Seq<TokenModel>, p: int) -> (QueryModel, int)
    decreases t.len() - p, 5int,
{
    let (l, q) = p_and(t, p);
    p_or_rest(t, l, clamp(q, p, t.len() as int))
}

/// The tree that the parser builds from a token sequence: an or-expression
/// read from its start (tokens after it are ignored).
pub open spec fn parse_tokens(t: Seq<TokenModel>) -> QueryModel {
    p_or(t, 0).0
}

/// The tree of a query string whose lexing finishes.
pub open spec fn query_model(s: Seq<char>) -> QueryModel {
    match lex(s) {
        Some(t) => parse_tokens(t),
        None => QueryModel::Term(Seq::empty()),
    }
}

/// Parse a query string into a QueryNode AST.
pub fn parse_query(input: &str) -> (node: QueryNode)
    requires
        lex(input@) is Some,
    ensures
        node@ == query_model(input@),
{
    let tokens = tokenize(input);
    let mut parser = Parser::new(tokens);
    parser.parse_or()
}

/// Parse a query given as characters.
pub fn parse_query_chars(input: &[char]) -> (node: QueryNode)
    requires
        lex(input@) is Some,
    ensures
        node@ == query_model(input@),
{
    let tokens = lexer::tokenize_chars(input);
    let mut parser = Parser::new(tokens);
    parser.parse_or()
}

/// Whether two tokens are equal.
fn same_token(a: &Token, b: &Token) -> (r: bool)
    ensures
        r == (a@ == b@),
{
    match (a, b) {
        (Token::Word(x), Token::Word(y)) => *x == *y,
        (Token::Phrase(x), Token::Phrase(y)) => *x == *y,
        (Token::Boost(x), Token::Boost(y)) => *x == *y,
        (Token::And, Token::And) => true,
        (Token::Or, Token::Or) => true,
        (Token::Not, Token::Not) => true,
        (Token::LParen, Token::LParen) => true,
        (Token::RParen, Token::RParen) => true,
        (Token::Colon, Token::Colon) => true,
        (Token::Tilde, Token::Tilde) => true,
        (Token::Hash, Token::Hash) => true,
        (Token::DoubleGreater, Token::DoubleGreater) => true,
        (Token::Greater, Token::Greater) => true,
        (Token::Percent, Token::Percent) => true,
        _ => false,
    }
}

/// A copy of a token.
fn copy_token(t: &Token) -> (r: Token)
    ensures
        r@ == t@,
{
    match t {
        Token::Word(s) => Token::Word(s.clone()),
        Token::Phrase(s) => Token::Phrase(s.clone()),
        Token::Boost(s) => Token::Boost(s.clone()),
        Token::And => Token::And,
        Token::Or => Token::Or,
        Token::Not => Token::Not,
        Token::LParen => Token::LParen,
        Token::RParen => Token::RParen,
        Token::Colon => Token::Colon,
        Token::Tilde => Token::Tilde,
        Token::Hash => Token::Hash,
        Token::DoubleGreater => Token::DoubleGreater,
        Token::Greater => Token::Greater,
        Token::Percent => Token::Percent,
    }
}

struct Parser {
    tokens: Vec<Token>,
    pos: usize,
}

impl Parser {
    spec fn model(&self) -> Seq<TokenModel> {
        tokens_model(self.tokens@)
    }

    spec fn wf(&self) -> bool {
        self.pos <= self.tokens@.len()
    }

    fn new(tokens: Vec<Token>) -> (p: Self)
        ensures
            p.tokens == tokens,
            p.pos == 0,
    {
        Self { tokens, pos: 0 }
    }

    fn peek(&self) -> (r: Option<&Token>)
        ensures
            self.pos < self.tokens@.len() ==> r == Some(&self.tokens@[self.pos as int]),
            self.pos >= self.tokens@.len() ==> r is None,
    {
        if self.pos < self.tokens.len() {
            Some(&self.tokens[self.pos])
        } else {
            None
        }
    }

    fn advance(&mut self) -> (r: Option<Token>)
        requires
            old(self).wf(),
        ensures
            final(self).tokens == old(self).tokens,
            final(self).wf(),
            old(self).pos < old(self).tokens@.len() ==> final(self).pos == old(self).pos + 1 && r
                is Some && r->0@ == old(self).tokens@[old(self).pos as int]@,
            old(self).pos >= old(self).tokens@.len() ==> final(self).pos == old(self).pos && r is None,
    {
        if self.pos < self.tokens.len() {
            let token = copy_token(&self.tokens[self.pos]);
            self.pos += 1;
            Some(token)
        } else {
            None
        }
    }

    fn expect(&mut self, expected: &Token) -> (r: bool)
        requires
            old(self).wf(),
        ensures
            final(self).tokens == old(self).tokens,
            final(self).wf(),
            r == (old(self).pos < old(self).tokens@.len() && old(self).tokens@[old(
                self,
            ).pos as int]@ == expected@),
            final(self).pos == if r {
                old(self).pos + 1
            } else {
                old(self).pos as int
            },
    {
        let matched = match self.peek() {
            Some(t) => same_token(t, expected),
            None => false,
        };
        if matched {
            self.advance();
            true
        } else {
            false
        }
    }

    fn peek_is_or(&self) -> (r: bool)
        ensures
            r == (self.pos < self.tokens@.len() && self.tokens@[self.pos as int]@ is Or),
    {
        match self.peek() {
            Some(Token::Or) => true,
            _ => false,
        }
    }

    fn peek_is_and(&self) -> (r: bool)
        ensures
            r == (self.pos < self.tokens@.len() && self.tokens@[self.pos as int]@ is And),
    {
        match self.peek() {
            Some(Token::And) => true,
            _ => false,
        }
    }

    /// OR expression: and_expr (| and_expr)*
    fn parse_or(&mut self) -> (node: QueryNode)
        requires
            old(self).wf(),
        ensures
            final(self).tokens == old(self).tokens,
            final(self).wf(),
            old(self).pos <= final(self).pos,
            (node@, final(self).pos as int) == p_or(old(self).model(), old(self).pos as int),
        decreases old(self).tokens@.len() - old(self).pos, 5int,
    {
        let ghost t = self.model();
        let ghost p0 = self.pos as int;
        let mut left = self.parse_and();
        while self.peek_is_or()
            invariant
                self.tokens == old(self).tokens,
                self.model() == t,
                self.wf(),
                p0 == old(self).pos,
                p0 <= self.pos,
                p_or(t, p0) == p_or_rest(t, left@, self.pos as int),
            decreases self.tokens@.len() - self.pos,
        {
            self.advance();
            let right = self.parse_and();
            left = QueryNode::Or(Box::new(left), Box::new(right));
        }
        left
    }

    /// AND expression: unary_expr (+ unary_expr)*
    fn parse_and(&mut self) -> (node: QueryNode)
        requires
            old(self).wf(),
        ensures
            final(self).tokens == old(self).tokens,
            final(self).wf(),
            old(self).pos <= final(self).pos,
            (node@, final(self).pos as int) == p_and(old(self).model(), old(self).pos as int),
        decreases old(self).tokens@.len() - old(self).pos, 3int,
    {
        let ghost t = self.model();
        let ghost p0 = self.pos as int;
        let mut left = self.parse_unary();
        while self.peek_is_and()
            invariant
                self.tokens == old(self).tokens,
                self.model() == t,
                self.wf(),
                p0 == old(self).pos,
                p0 <= self.pos,
                p_and(t, p0) == p_and_rest(t, left@, self.pos as int),
            decreases self.tokens@.len() - self.pos,
        {
            self.advance();
            let right = self.parse_unary();
            left = QueryNode::And(Box::new(left), Box::new(right));
        }
        left
    }

    /// Unary: NOT / prefix operators / primary
    fn parse_unary(&mut self) -> (node: QueryNode)
        requires
            old(self).wf(),
        ensures
            final(self).tokens == old(self).tokens,
            final(self).wf(),
            old(self).pos <= final(self).pos,
            (node@, final(self).pos as int) == p_unary(old(self).model(), old(self).pos as int),
        decreases old(self).tokens@.len() - old(self).pos, 1int,
    {
        let kind: u8 = match self.peek() {
            Some(Token::Not) => 1,
            Some(Token::Tilde) => 2,
            Some(Token::Hash) => 3,
            Some(Token::DoubleGreater) => 4,
            Some(Token::Greater) => 5,
            Some(Token::Percent) => 6,
            _ => 0,
        };
        if kind == 0 {
            return self.parse_primary();
        }
        self.advance();
        if kind == 1 {
            let operand = self.parse_primary();
            return QueryNode::Not(Box::new(operand));
        }
        let word = self.read_next_word();
        if kind == 2 {
            QueryNode::Synonym(word)
        } else if kind == 3 {
            QueryNode::Antonym(word)
        } else if kind == 4 {
            QueryNode::Root(word)
        } else if kind == 5 {
            QueryNode::Lemma(word)
        } else {
            QueryNode::SpellTolerant(word)
        }
    }

    /// Primary: word, phrase, group, field:value
    fn parse_primary(&mut self) -> (node: QueryNode)
        requires
            old(self).wf(),
        ensures
            final(self).tokens == old(self).tokens,
            final(self).wf(),
            old(self).pos <= final(self).pos,
            (node@, final(self).pos as int) == p_primary(old(self).model(), old(self).pos as int),
        decreases old(self).tokens@.len() - old(self).pos, 0int,
    {
        let ghost t = self.model();
        let ghost p0 = self.pos as int;
        match self.advance() {
            Some(Token::Phrase(p)) => QueryNode::Phrase(p),
            Some(Token::LParen) => {
                let inner = self.parse_or();
                self.expect(&Token::RParen);
                inner
            },
            Some(Token::Word(word)) => {
                let is_field = match self.peek() {
                    Some(Token::Colon) => true,
                    _ => false,
                };
                if is_field {
                    self.advance();
                    let value = self.parse_primary();
                    return QueryNode::Field { field: word, value: Box::new(value) };
                }
                let weight: Option<String> = match self.peek() {
                    Some(Token::Boost(w)) => Some(w.clone()),
                    _ => None,
                };
                if let Some(weight) = weight {
                    self.advance();
                    let node = self.make_term_or_wildcard(word);
                    return QueryNode::Boost(Box::new(node), weight);
                }
                self.make_term_or_wildcard(word)
            },
            _ => QueryNode::Term(String::new()),
        }
    }

    fn make_term_or_wildcard(&self, word: String) -> (node: QueryNode)
        ensures
            node@ == term_or_wildcard(word@),
    {
        let chars = chars_of(word.as_str());
        if has_char(chars.as_slice(), '*') || has_char(chars.as_slice(), '?') || has_char(
            chars.as_slice(),
            '\u{061F}',
        ) {
            QueryNode::Wildcard(word)
        } else {
            QueryNode::Term(word)
        }
    }

    fn read_next_word(&mut self) -> (w: String)
        requires
            old(self).wf(),
        ensures
            final(self).tokens == old(self).tokens,
            final(self).wf(),
            (w@, final(self).pos as int) == word_operand(old(self).model(), old(self).pos as int),
    {
        match self.advance() {
            Some(Token::Word(w)) => w,
            _ => String::new(),
        }
    }
}

proof fn lemma_blank_lex_from(s: Seq<char>, i: int)
    requires
        0 <= i <= s.len(),
        forall|j: int| 0 <= j < s.len() ==> is_blank(#[trigger] s[j]),
    ensures
        lex_from(s, i) == Some(Seq::<TokenModel>::empty()),
    decreases s.len() - i,
{
    if i < s.len() {
        assert(is_blank(s[i]));
        lemma_blank_lex_from(s, i + 1);
    }
}

/// A query made only of spaces, tabs and line breaks (the empty query
/// included) has no tokens and parses to the empty term.
pub proof fn lemma_blank_query_is_empty_term(s: Seq<char>)
    requires
        forall|j: int| 0 <= j < s.len() ==> is_blank(#[trigger] s[j]),
    ensures
        lex(s) == Some(Seq::<TokenModel>::empty()),
        query_model(s) == QueryModel::Term(Seq::empty()),
{
    lemma_blank_lex_from(s, 0);
    let t = Seq::<TokenModel>::empty();
    assert(p_unary(t, 0) == (QueryModel::Term(Seq::empty()), 0int));
    assert(p_and(t, 0) == (QueryModel::Term(Seq::empty()), 0int));
    assert(p_or(t, 0) == (QueryModel::Term(Seq::empty()), 0int));
}

proof fn lemma_primary_bounds(t: Seq<TokenModel>, p: int)
    requires
        0 <= p <= t.len(),
    ensures
        p <= p_primary(t, p).1 <= t.len(),
        p < t.len() ==> p_primary(t, p).1 > p,
        p == t.len() ==> p_primary(t, p) == (QueryModel::Term(Seq::empty()), p),
    decreases t.len() - p, 0int,
{
    if p < t.len() {
        match t[p] {
            TokenModel::LParen => {
                lemma_or_bounds(t, p + 1);
            },
            TokenModel::Word(w) => {
                if p + 1 < t.len() && t[p + 1] is Colon {
                    lemma_primary_bounds(t, p + 2);
                }
            },
            _ => {},
        }
    }
}

proof fn lemma_unary_bounds(t: Seq<TokenModel>, p: int)
    requires
        0 <= p <= t.len(),
    ensures
        p <= p_unary(t, p).1 <= t.len(),
        p < t.len() ==> p_unary(t, p).1 > p,
    decreases t.len() - p, 1int,
{
    if p < t.len() {
        match t[p] {
            TokenModel::Not => {
                lemma_primary_bounds(t, p + 1);
            },
            _ => {
                lemma_primary_bounds(t, p);
            },
        }
    } else {
        lemma_primary_bounds(t, p);
    }
}

proof fn lemma_and_rest_bounds(t: Seq<TokenModel>, left: QueryModel, q: int)
    requires
        0 <= q <= t.len(),
    ensures
        q <= p_and_rest(t, left, q).1 <= t.len(),
    decreases t.len() - q, 2int,
{
    if q < t.len() && t[q] is And {
        lemma_unary_bounds(t, q + 1);
        let (r, q2) = p_unary(t, q + 1);
        lemma_and_rest_bounds(t, QueryModel::And(Box::new(left), Box::new(r)), q2);
    }
}

proof fn lemma_and_bounds(t: Seq<TokenModel>, p: int)
    requires
        0 <= p <= t.len(),
    ensures
        p <= p_and(t, p).1 <= t.len(),
        p < t.len() ==> p_and(t, p).1 > p,
    decreases t.len() - p, 3int,
{
    lemma_unary_bounds(t, p);
    let (l, q) = p_unary(t, p);
    lemma_and_rest_bounds(t, l, q);
}

proof fn lemma_or_rest_bounds(t: Seq<TokenModel>, left: QueryModel, q: int)
    requires
        0 <= q <= t.len(),
    ensures
        q <= p_or_rest(t, left, q).1 <= t.len(),
    decreases t.len() - q, 4int,
{
    if q < t.len() && t[q] is Or {
        lemma_and_bounds(t, q + 1);
        let (r, q2) = p_and(t, q + 1);
        lemma_or_rest_bounds(t, QueryModel::Or(Box::new(left), Box::new(r)), q2);
    }
}

proof fn lemma_or_bounds(t: Seq<TokenModel>, p: int)
    requires
        0 <= p <= t.len(),
    ensures
        p <= p_or(t, p).1 <= t.len(),
        p < t.len() ==> p_or(t, p).1 > p,
    decreases t.len() - p, 5int,
{
    lemma_and_bounds(t, p);
    let (l, q) = p_and(t, p);
    lemma_or_rest_bounds(t, l, q);
}

/// A primary expression read at position `p` ends at a position between `p`
/// and the end of the tokens; it consumes at least one token when there is
/// one, and at the end of the tokens it is the empty term and consumes
/// nothing. A whole or-expression read at `p` also ends between `p` and the
/// end, past `p` when a token is left.
pub proof fn lemma_parse_positions(t: Seq<TokenModel>, p: int)
    requires
        0 <= p <= t.len(),
    ensures
        p <= p_primary(t, p).1 <= t.len(),
        p < t.len() ==> p_primary(t, p).1 > p,
        p == t.len() ==> p_primary(t, p) == (QueryModel::Term(Seq::empty()), p),
        p <= p_or(t, p).1 <= t.len(),
        p < t.len() ==> p_or(t, p).1 > p,
{
    lemma_primary_bounds(t, p);
    lemma_or_bounds(t, p);
}

/// A query that is one plain word: no whitespace, operator or quote
/// character in it, no operator character or `>` first, not one of the
/// operator words (و، أو، او، ليس، وليس), and no boost mark or wildcard.
pub open spec fn plain_word(w: Seq<char>) -> bool {
    &&& w.len() > 0
    &&& forall|i: int| 0 <= i < w.len() ==> !ends_word(#[trigger] w[i])
    &&& single_char_token(w[0]) is None
    &&& w[0] != '>'
    &&& w != and_word() && w != or_word() && w != or_word_plain() && w != not_word() && w
        != and_not_word()
    &&& !w.contains('^')
    &&& !w.contains('*') && !w.contains('?') && !w.contains('\u{061F}')
}

/// A plain word is read as that one word and parsed as the term it spells.
pub proof fn lemma_plain_word_is_term(w: Seq<char>)
    requires
        plain_word(w),
    ensures
        trim(w) == w,
        lex(w) == Some(seq![TokenModel::Word(w)]),
        query_model(w) == QueryModel::Term(w),
{
    assert(!is_space(w[0]) && !is_space(w.last())) by {
        assert(!ends_word(w[0]));
        assert(!ends_word(w[w.len() - 1]));
    }
    lemma_word_end_bounds(w, 1);
    assert(word_end(w, 1) == w.len()) by {
        if word_end(w, 1) < w.len() {
            assert(!ends_word(w[word_end(w, 1)]));
        }
    }
    assert(w.subrange(0, w.len() as int) =~= w);
    lemma_first_pos_bounds(w, '^', 0);
    assert(first_pos(w, '^', 0) == w.len()) by {
        if first_pos(w, '^', 0) < w.len() {
            assert(w[first_pos(w, '^', 0)] == '^');
        }
    }
    assert(!is_blank(w[0]));
    assert(w[0] != '"');
    assert(lex_from(w, w.len() as int) == Some(Seq::<TokenModel>::empty()));
    assert(seq![TokenModel::Word(w)] + Seq::<TokenModel>::empty() =~= seq![TokenModel::Word(w)]);
    let t = seq![TokenModel::Word(w)];
    assert(p_primary(t, 0) == (QueryModel::Term(w), 1int));
    assert(p_unary(t, 0) == (QueryModel::Term(w), 1int));
    assert(p_and(t, 0) == (QueryModel::Term(w), 1int));
    assert(p_or(t, 0) == (QueryModel::Term(w), 1int));
}

/// `+` binds tighter than `|`, and both group to the left: for any words
/// a, b, c, `a | b + c` is `a` or (`b` and `c`), `a + b | c` is (`a` and
/// `b`) or `c`, and the whole token sequence is read in each case.
pub proof fn lemma_and_binds_tighter_than_or(a: Seq<char>, b: Seq<char>, c: Seq<char>)
    ensures
        p_or(
            seq![
                TokenModel::Word(a),
                TokenModel::Or,
                TokenModel::Word(b),
                TokenModel::And,
                TokenModel::Word(c),
            ],
            0,
        ) == (
            QueryModel::Or(
                Box::new(term_or_wildcard(a)),
                Box::new(
                    QueryModel::And(Box::new(term_or_wildcard(b)), Box::new(term_or_wildcard(c))),
                ),
            ),
            5int,
        ),
        p_or(
            seq![
                TokenModel::Word(a),
                TokenModel::And,
                TokenModel::Word(b),
                TokenModel::Or,
                TokenModel::Word(c),
            ],
            0,
        ) == (
            QueryModel::Or(
                Box::new(
                    QueryModel::And(Box::new(term_or_wildcard(a)), Box::new(term_or_wildcard(b))),
                ),
                Box::new(term_or_wildcard(c)),
            ),
            5int,
        ),
{
    let ta = term_or_wildcard(a);
    let tb = term_or_wildcard(b);
    let tc = term_or_wildcard(c);
    let t = seq![
        TokenModel::Word(a),
        TokenModel::Or,
        TokenModel::Word(b),
        TokenModel::And,
        TokenModel::Word(c),
    ];
    assert(p_primary(t, 0) == (ta, 1int));
    assert(p_unary(t, 0) == (ta, 1int));
    assert(p_and_rest(t, ta, 1) == (ta, 1int));
    assert(p_and(t, 0) == (ta, 1int));
    assert(p_primary(t, 2) == (tb, 3int));
    assert(p_unary(t, 2) == (tb, 3int));
    assert(p_primary(t, 4) == (tc, 5int));
    assert(p_unary(t, 4) == (tc, 5int));
    let bc = QueryModel::And(Box::new(tb), Box::new(tc));
    assert(p_and_rest(t, bc, 5) == (bc, 5int));
    assert(p_and_rest(t, tb, 3) == (bc, 5int));
    assert(p_and(t, 2) == (bc, 5int));
    let abc = QueryModel::Or(Box::new(ta), Box::new(bc));
    assert(p_or_rest(t, abc, 5) == (abc, 5int));
    assert(p_or_rest(t, ta, 1) == (abc, 5int));
    let u = seq![
        TokenModel::Word(a),
        TokenModel::And,
        TokenModel::Word(b),
        TokenModel::Or,
        TokenModel::Word(c),
    ];
    assert(p_primary(u, 0) == (ta, 1int));
    assert(p_unary(u, 0) == (ta, 1int));
    assert(p_primary(u, 2) == (tb, 3int));
    assert(p_unary(u, 2) == (tb, 3int));
    let ab = QueryModel::And(Box::new(ta), Box::new(tb));
    assert(p_and_rest(u, ab, 3) == (ab, 3int));
    assert(p_and_rest(u, ta, 1) == (ab, 3int));
    assert(p_and(u, 0) == (ab, 3int));
    assert(p_primary(u, 4) == (tc, 5int));
    assert(p_unary(u, 4) == (tc, 5int));
    assert(p_and_rest(u, tc, 5) == (tc, 5int));
    assert(p_and(u, 4) == (tc, 5int));
    let abc2 = QueryModel::Or(Box::new(ab), Box::new(tc));
    assert(p_or_rest(u, abc2, 5) == (abc2, 5int));
    assert(p_or_rest(u, ab, 3) == (abc2, 5int));
}
/// The tokens `+ w1 + w2 ...` for the words `ws`.
pub open spec fn and_rest_tokens(ws: Seq<Seq<char>>) -> Seq<TokenModel>
    decreases ws.len(),
{
    if ws.len() == 0 {
        seq![]
    } else {
        seq![TokenModel::And, TokenModel::Word(ws[0])] + and_rest_tokens(ws.drop_first())
    }
}

/// The tokens `w0 + w1 + ...` of a non-empty list of words.
pub open spec fn and_chain(ws: Seq<Seq<char>>) -> Seq<TokenModel> {
    seq![TokenModel::Word(ws[0])] + and_rest_tokens(ws.drop_first())
}

/// The tokens `| g1 | g2 ...`, each group of words joined by `+`.
pub open spec fn or_rest_tokens(gs: Seq<Seq<Seq<char>>>) -> Seq<TokenModel>
    decreases gs.len(),
{
    if gs.len() == 0 {
        seq![]
    } else {
        seq![TokenModel::Or] + and_chain(gs[0]) + or_rest_tokens(gs.drop_first())
    }
}

/// The tokens `g0 | g1 | ...` of a query made of words joined by `+` and `|`.
pub open spec fn sum_of_products_tokens(gs: Seq<Seq<Seq<char>>>) -> Seq<TokenModel> {
    and_chain(gs[0]) + or_rest_tokens(gs.drop_first())
}

/// `left` and-ed with the terms of `ws`, one after another.
pub open spec fn and_fold(left: QueryModel, ws: Seq<Seq<char>>) -> QueryModel
    decreases ws.len(),
{
    if ws.len() == 0 {
        left
    } else {
        and_fold(QueryModel::And(Box::new(left), Box::new(term_or_wildcard(ws[0]))), ws.drop_first())
    }
}

/// The conjunction of the terms of a non-empty list of words, grouped to
/// the left.
pub open spec fn and_tree(ws: Seq<Seq<char>>) -> QueryModel {
    and_fold(term_or_wildcard(ws[0]), ws.drop_first())
}

/// `left` or-ed with the conjunctions of the groups `gs`, one after another.
pub open spec fn or_fold(left: QueryModel, gs: Seq<Seq<Seq<char>>>) -> QueryModel
    decreases gs.len(),
{
    if gs.len() == 0 {
        left
    } else {
        or_fold(QueryModel::Or(Box::new(left), Box::new(and_tree(gs[0]))), gs.drop_first())
    }
}

/// The disjunction of the conjunctions of the groups, grouped to the left.
pub open spec fn sum_of_products_tree(gs: Seq<Seq<Seq<char>>>) -> QueryModel {
    or_fold(and_tree(gs[0]), gs.drop_first())
}

proof fn lemma_and_rest_len(ws: Seq<Seq<char>>)
    ensures
        and_rest_tokens(ws).len() == 2 * ws.len(),
    decreases ws.len(),
{
    if ws.len() > 0 {
        lemma_and_rest_len(ws.drop_first());
    }
}

proof fn lemma_and_rest_run(
    t: Seq<TokenModel>,
    left: QueryModel,
    q: int,
    ws: Seq<Seq<char>>,
    tail: Seq<TokenModel>,
)
    requires
        0 <= q <= t.len(),
        t.skip(q) == and_rest_tokens(ws) + tail,
        tail.len() == 0 || tail[0] is Or,
    ensures
        and_rest_tokens(ws).len() == 2 * ws.len(),
        p_and_rest(t, left, q) == (and_fold(left, ws), q + 2 * ws.len()),
    decreases ws.len(),
{
    if ws.len() == 0 {
        assert(and_rest_tokens(ws) =~= Seq::<TokenModel>::empty());
        assert(t.skip(q) =~= tail);
        if q < t.len() {
            assert(t[q] == t.skip(q)[0]);
        }
    } else {
        let rest = ws.drop_first();
        let a = and_rest_tokens(ws);
        lemma_and_rest_len(ws);
        assert(a == seq![TokenModel::And, TokenModel::Word(ws[0])] + and_rest_tokens(rest));
        assert(t.skip(q).len() == t.len() - q);
        assert(q + 2 <= t.len());
        assert(t[q] == t.skip(q)[0]);
        assert(t[q + 1] == t.skip(q)[1]);
        assert((a + tail)[0] == TokenModel::And);
        assert((a + tail)[1] == TokenModel::Word(ws[0]));
        assert(t[q] is And);
        assert(t[q + 1] == TokenModel::Word(ws[0]));
        assert(t.skip(q + 2) =~= t.skip(q).skip(2));
        assert((a + tail).skip(2) =~= and_rest_tokens(rest) + tail);
        lemma_and_rest_run(t, QueryModel::And(Box::new(left), Box::new(term_or_wildcard(ws[0]))), q + 2, rest, tail);
        if q + 2 < t.len() {
            assert(t[q + 2] == t.skip(q + 2)[0]);
            if rest.len() > 0 {
                assert(and_rest_tokens(rest) == seq![TokenModel::And, TokenModel::Word(rest[0])]
                    + and_rest_tokens(rest.drop_first()));
                assert(t[q + 2] is And);
            } else {
                assert(and_rest_tokens(rest) =~= Seq::<TokenModel>::empty());
                assert(t[q + 2] is Or);
            }
        }
        assert(p_primary(t, q + 1) == (term_or_wildcard(ws[0]), q + 2));
        assert(p_unary(t, q + 1) == (term_or_wildcard(ws[0]), q + 2));
    }
}

proof fn lemma_and_chain_run(t: Seq<TokenModel>, p: int, ws: Seq<Seq<char>>, tail: Seq<TokenModel>)
    requires
        0 <= p <= t.len(),
        ws.len() > 0,
        t.skip(p) == and_chain(ws) + tail,
        tail.len() == 0 || tail[0] is Or,
    ensures
        and_chain(ws).len() == 2 * ws.len() - 1,
        p_and(t, p) == (and_tree(ws), p + 2 * ws.len() - 1),
{
    let rest = ws.drop_first();
    lemma_and_rest_len(rest);
    assert(t.skip(p).len() == t.len() - p);
    assert(p + 1 <= t.len());
    assert(t[p] == t.skip(p)[0]);
    assert((and_chain(ws) + tail)[0] == TokenModel::Word(ws[0]));
    assert(t[p] == TokenModel::Word(ws[0]));
    assert(t.skip(p + 1) =~= t.skip(p).skip(1));
    assert((and_chain(ws) + tail).skip(1) =~= and_rest_tokens(rest) + tail);
    lemma_and_rest_run(t, term_or_wildcard(ws[0]), p + 1, rest, tail);
    if p + 1 < t.len() {
        assert(t[p + 1] == t.skip(p + 1)[0]);
        if rest.len() > 0 {
            assert(and_rest_tokens(rest) == seq![TokenModel::And, TokenModel::Word(rest[0])]
                + and_rest_tokens(rest.drop_first()));
            assert(t[p + 1] is And);
        } else {
            assert(and_rest_tokens(rest) =~= Seq::<TokenModel>::empty());
            assert(t[p + 1] is Or);
        }
    }
    assert(p_primary(t, p) == (term_or_wildcard(ws[0]), p + 1));
    assert(p_unary(t, p) == (term_or_wildcard(ws[0]), p + 1));
}

proof fn lemma_or_rest_run(t: Seq<TokenModel>, left: QueryModel, q: int, gs: Seq<Seq<Seq<char>>>)
    requires
        0 <= q <= t.len(),
        t.skip(q) == or_rest_tokens(gs),
        forall|i: int| 0 <= i < gs.len() ==> (#[trigger] gs[i]).len() > 0,
    ensures
        p_or_rest(t, left, q) == (or_fold(left, gs), t.len() as int),
    decreases gs.len(),
{
    if gs.len() == 0 {
        assert(or_rest_tokens(gs) =~= Seq::<TokenModel>::empty());
        assert(t.skip(q).len() == 0);
    } else {
        let g = gs[0];
        let rest = gs.drop_first();
        assert(g.len() > 0);
        let tail = or_rest_tokens(rest);
        let u = seq![TokenModel::Or] + and_chain(g) + tail;
        assert(t.skip(q) == u);
        assert(t.skip(q).len() == t.len() - q);
        assert(u.len() >= 1);
        assert(t[q] == t.skip(q)[0]);
        assert(u[0] == TokenModel::Or);
        assert(t.skip(q + 1) =~= t.skip(q).skip(1));
        assert(u.skip(1) =~= and_chain(g) + tail);
        if rest.len() > 0 {
            assert(tail == seq![TokenModel::Or] + and_chain(rest[0]) + or_rest_tokens(rest.drop_first()));
            assert(tail[0] is Or);
        } else {
            assert(tail =~= Seq::<TokenModel>::empty());
        }
        lemma_and_chain_run(t, q + 1, g, tail);
        let e = q + 1 + 2 * g.len() - 1;
        assert(t.skip(e) =~= t.skip(q + 1).skip(and_chain(g).len() as int));
        assert((and_chain(g) + tail).skip(and_chain(g).len() as int) =~= tail);
        assert forall|i: int| 0 <= i < rest.len() implies (#[trigger] rest[i]).len() > 0 by {
            assert(rest[i] == gs[i + 1]);
        }
        lemma_or_rest_run(t, QueryModel::Or(Box::new(left), Box::new(and_tree(g))), e, rest);
    }
}

/// A query made of words joined by `+` and `|` (no other operators) is
/// read whole and parsed by precedence: `+` binds tighter than `|`, and
/// each groups to the left. For groups of words g0, g1, ..., the query
/// `g0 | g1 | ...`, with the words of each group joined by `+`, is the
/// disjunction of the groups' conjunctions.
pub proof fn lemma_sum_of_products(gs: Seq<Seq<Seq<char>>>)
    requires
        gs.len() > 0,
        forall|i: int| 0 <= i < gs.len() ==> (#[trigger] gs[i]).len() > 0,
    ensures
        p_or(sum_of_products_tokens(gs), 0) == (
            sum_of_products_tree(gs),
            sum_of_products_tokens(gs).len() as int,
        ),
        parse_tokens(sum_of_products_tokens(gs)) == sum_of_products_tree(gs),
{
    let t = sum_of_products_tokens(gs);
    let rest = gs.drop_first();
    let tail = or_rest_tokens(rest);
    let g = gs[0];
    assert(g.len() > 0);
    assert(t.skip(0) =~= and_chain(g) + tail);
    lemma_or_tail_starts(rest);
    lemma_and_chain_run(t, 0, g, tail);
    let e = 2 * g.len() - 1;
    assert(t.skip(e) =~= tail) by {
        assert((and_chain(g) + tail).skip(and_chain(g).len() as int) =~= tail);
    }
    assert forall|i: int| 0 <= i < rest.len() implies (#[trigger] rest[i]).len() > 0 by {
        assert(rest[i] == gs[i + 1]);
    }
    lemma_or_rest_run(t, and_tree(g), e, rest);
    assert(p_or(t, 0) == p_or_rest(t, and_tree(g), e));
}

proof fn lemma_or_tail_starts(gs: Seq<Seq<Seq<char>>>)
    ensures
        or_rest_tokens(gs).len() == 0 || or_rest_tokens(gs)[0] is Or,
{
    if gs.len() > 0 {
        let u = seq![TokenModel::Or] + and_chain(gs[0]) + or_rest_tokens(gs.drop_first());
        assert(or_rest_tokens(gs) == u);
        assert(u[0] is Or);
    }
}

proof fn lemma_plain_word_tokens(w: Seq<char>)
    requires
        plain_word(w),
    ensures
        word_tokens(w) == seq![TokenModel::Word(w)],
        term_or_wildcard(w) == QueryModel::Term(w),
{
    lemma_first_pos_bounds(w, '^', 0);
    assert(first_pos(w, '^', 0) == w.len()) by {
        if first_pos(w, '^', 0) < w.len() {
            assert(w[first_pos(w, '^', 0)] == '^');
        }
    }
}

/// A plain word standing at `i` in `s`, followed by the end or by a
/// character that ends words, is read as that one word.
proof fn lemma_lex_plain_word(s: Seq<char>, i: int, w: Seq<char>)
    requires
        plain_word(w),
        0 <= i,
        i + w.len() <= s.len(),
        s.subrange(i, i + w.len()) == w,
        i + w.len() == s.len() || ends_word(s[i + w.len()]),
    ensures
        lex_from(s, i) == prepend(seq![TokenModel::Word(w)], lex_from(s, i + w.len())),
{
    let n = w.len() as int;
    assert(s[i] == w[0]);
    assert(!ends_word(w[0]));
    lemma_word_end_bounds(s, i + 1);
    let e = word_end(s, i + 1);
    assert(e == i + n) by {
        if e < i + n {
            assert(s[e] == w[e - i]);
            assert(!ends_word(w[e - i]));
        }
        if e > i + n {
            assert(!ends_word(s[i + n]));
        }
    }
    lemma_plain_word_tokens(w);
    assert(!is_blank(s[i]));
}

/// `s[i..i + 3]` is a space, the operator character `op`, and a space.
pub open spec fn spaced_op_at(s: Seq<char>, i: int, op: char) -> bool {
    0 <= i && i + 3 <= s.len() && s[i] == ' ' && s[i + 1] == op && s[i + 2] == ' '
}

proof fn lemma_lex_spaced_op(s: Seq<char>, i: int, op: char)
    requires
        spaced_op_at(s, i, op),
        single_char_token(op) is Some,
    ensures
        lex_from(s, i) == prepend(seq![single_char_token(op).unwrap()], lex_from(s, i + 3)),
{
    assert(is_blank(s[i]));
    assert(is_blank(s[i + 2]));
    assert(lex_from(s, i) == lex_from(s, i + 1));
    assert(lex_from(s, i + 2) == lex_from(s, i + 3));
}

/// The text ` + w1 + w2 ...` for the words `ws`.
pub open spec fn and_rest_text(ws: Seq<Seq<char>>) -> Seq<char>
    decreases ws.len(),
{
    if ws.len() == 0 {
        seq![]
    } else {
        seq![' ', '+', ' '] + ws[0] + and_rest_text(ws.drop_first())
    }
}

/// The text `w0 + w1 + ...` of a non-empty list of words.
pub open spec fn and_chain_text(ws: Seq<Seq<char>>) -> Seq<char> {
    ws[0] + and_rest_text(ws.drop_first())
}

/// The text ` | g1 | g2 ...`, the words of each group joined by ` + `.
pub open spec fn or_rest_text(gs: Seq<Seq<Seq<char>>>) -> Seq<char>
    decreases gs.len(),
{
    if gs.len() == 0 {
        seq![]
    } else {
        seq![' ', '|', ' '] + and_chain_text(gs[0]) + or_rest_text(gs.drop_first())
    }
}

/// The query text `g0 | g1 | ...`, the words of each group joined by ` + `.
pub open spec fn sum_of_products_text(gs: Seq<Seq<Seq<char>>>) -> Seq<char> {
    and_chain_text(gs[0]) + or_rest_text(gs.drop_first())
}

pub open spec fn all_plain(ws: Seq<Seq<char>>) -> bool {
    ws.len() > 0 && forall|i: int| 0 <= i < ws.len() ==> plain_word(#[trigger] ws[i])
}

proof fn lemma_all_plain_rest(ws: Seq<Seq<char>>)
    requires
        ws.len() > 0,
        forall|i: int| 0 <= i < ws.len() ==> plain_word(#[trigger] ws[i]),
    ensures
        forall|i: int| 0 <= i < ws.drop_first().len() ==> plain_word(#[trigger] ws.drop_first()[i]),
{
    assert forall|i: int| 0 <= i < ws.drop_first().len() implies plain_word(
        #[trigger] ws.drop_first()[i],
    ) by {
        assert(ws.drop_first()[i] == ws[i + 1]);
    }
}

proof fn lemma_lex_and_rest(s: Seq<char>, i: int, ws: Seq<Seq<char>>, r: Seq<char>)
    requires
        0 <= i <= s.len(),
        forall|j: int| 0 <= j < ws.len() ==> plain_word(#[trigger] ws[j]),
        s.skip(i) == and_rest_text(ws) + r,
        r.len() == 0 || r[0] == ' ',
    ensures
        lex_from(s, i) == prepend(and_rest_tokens(ws), lex_from(s, i + and_rest_text(ws).len())),
    decreases ws.len(),
{
    if ws.len() == 0 {
        assert(and_rest_tokens(ws) =~= Seq::<TokenModel>::empty());
        assert(and_rest_text(ws) =~= Seq::<char>::empty());
        if let Some(x) = lex_from(s, i) {
            assert(Seq::<TokenModel>::empty() + x =~= x);
        }
    } else {
        let w = ws[0];
        let rest = ws.drop_first();
        lemma_all_plain_rest(ws);
        assert(plain_word(w));
        let a = and_rest_text(ws);
        let b = and_rest_text(rest);
        assert(a == seq![' ', '+', ' '] + w + b);
        let u = a + r;
        assert(s.skip(i) == u);
        assert(s.skip(i).len() == s.len() - i);
        assert(s[i] == u[0] && s[i + 1] == u[1] && s[i + 2] == u[2]);
        lemma_lex_spaced_op(s, i, '+');
        let j = i + 3;
        assert(s.subrange(j, j + w.len()) =~= w) by {
            assert forall|k: int| 0 <= k < w.len() implies s.subrange(j, j + w.len())[k] == w[k] by {
                assert(s[j + k] == u[3 + k]);
            }
        }
        let m = j + w.len();
        assert(s.skip(m) =~= b + r) by {
            assert forall|k: int| 0 <= k < s.skip(m).len() implies s.skip(m)[k] == (b + r)[k] by {
                assert(s[m + k] == u[3 + w.len() + k]);
            }
        }
        if m < s.len() {
            assert(s[m] == s.skip(m)[0]);
            if b.len() > 0 {
                assert(b == seq![' ', '+', ' '] + rest[0] + and_rest_text(rest.drop_first()));
                assert((b + r)[0] == ' ');
            } else {
                assert((b + r)[0] == r[0]);
            }
        }
        lemma_lex_plain_word(s, j, w);
        lemma_lex_and_rest(s, m, rest, r);
        lemma_prepend_push(seq![TokenModel::Word(w)], and_rest_tokens(rest), lex_from(s, m + b.len()));
        lemma_prepend_push(
            seq![TokenModel::And],
            seq![TokenModel::Word(w)] + and_rest_tokens(rest),
            lex_from(s, m + b.len()),
        );
        assert(seq![TokenModel::And] + (seq![TokenModel::Word(w)] + and_rest_tokens(rest))
            =~= and_rest_tokens(ws));
    }
}

proof fn lemma_lex_and_chain(s: Seq<char>, i: int, ws: Seq<Seq<char>>, r: Seq<char>)
    requires
        0 <= i <= s.len(),
        all_plain(ws),
        s.skip(i) == and_chain_text(ws) + r,
        r.len() == 0 || r[0] == ' ',
    ensures
        lex_from(s, i) == prepend(and_chain(ws), lex_from(s, i + and_chain_text(ws).len())),
{
    let w = ws[0];
    let rest = ws.drop_first();
    lemma_all_plain_rest(ws);
    assert(plain_word(w));
    let b = and_rest_text(rest);
    let u = w + b + r;
    assert(s.skip(i) =~= u);
    assert(s.skip(i).len() == s.len() - i);
    assert(s.subrange(i, i + w.len()) =~= w) by {
        assert forall|k: int| 0 <= k < w.len() implies s.subrange(i, i + w.len())[k] == w[k] by {
            assert(s[i + k] == u[k]);
        }
    }
    let m = i + w.len();
    assert(s.skip(m) =~= b + r) by {
        assert forall|k: int| 0 <= k < s.skip(m).len() implies s.skip(m)[k] == (b + r)[k] by {
            assert(s[m + k] == u[w.len() + k]);
        }
    }
    if m < s.len() {
        assert(s[m] == s.skip(m)[0]);
        if b.len() > 0 {
            assert(b == seq![' ', '+', ' '] + rest[0] + and_rest_text(rest.drop_first()));
            assert((b + r)[0] == ' ');
        } else {
            assert((b + r)[0] == r[0]);
        }
    }
    lemma_lex_plain_word(s, i, w);
    lemma_lex_and_rest(s, m, rest, r);
    lemma_prepend_push(seq![TokenModel::Word(w)], and_rest_tokens(rest), lex_from(s, m + b.len()));
}

proof fn lemma_or_text_starts(gs: Seq<Seq<Seq<char>>>)
    ensures
        or_rest_text(gs).len() == 0 || or_rest_text(gs)[0] == ' ',
{
    if gs.len() > 0 {
        let u = seq![' ', '|', ' '] + and_chain_text(gs[0]) + or_rest_text(gs.drop_first());
        assert(or_rest_text(gs) == u);
        assert(u[0] == ' ');
    }
}

proof fn lemma_lex_or_rest(s: Seq<char>, i: int, gs: Seq<Seq<Seq<char>>>)
    requires
        0 <= i <= s.len(),
        forall|j: int| 0 <= j < gs.len() ==> all_plain(#[trigger] gs[j]),
        s.skip(i) == or_rest_text(gs),
    ensures
        lex_from(s, i) == Some(or_rest_tokens(gs)),
    decreases gs.len(),
{
    if gs.len() == 0 {
        assert(or_rest_text(gs) =~= Seq::<char>::empty());
        assert(or_rest_tokens(gs) =~= Seq::<TokenModel>::empty());
        assert(s.skip(i).len() == 0);
    } else {
        let g = gs[0];
        let rest = gs.drop_first();
        assert(all_plain(g));
        assert forall|j: int| 0 <= j < rest.len() implies all_plain(#[trigger] rest[j]) by {
            assert(rest[j] == gs[j + 1]);
        }
        let c = and_chain_text(g);
        let b = or_rest_text(rest);
        let u = seq![' ', '|', ' '] + c + b;
        assert(s.skip(i) == u);
        assert(s.skip(i).len() == s.len() - i);
        assert(s[i] == u[0] && s[i + 1] == u[1] && s[i + 2] == u[2]);
        lemma_lex_spaced_op(s, i, '|');
        let j = i + 3;
        assert(s.skip(j) =~= c + b) by {
            assert forall|k: int| 0 <= k < s.skip(j).len() implies s.skip(j)[k] == (c + b)[k] by {
                assert(s[j + k] == u[3 + k]);
            }
        }
        lemma_or_text_starts(rest);
        lemma_lex_and_chain(s, j, g, b);
        let m = j + c.len();
        assert(s.skip(m) =~= b) by {
            assert forall|k: int| 0 <= k < s.skip(m).len() implies s.skip(m)[k] == b[k] by {
                assert(s[m + k] == u[3 + c.len() + k]);
            }
        }
        lemma_lex_or_rest(s, m, rest);
        assert(seq![TokenModel::Or] + (and_chain(g) + or_rest_tokens(rest)) =~= or_rest_tokens(gs));
    }
}

proof fn lemma_gs_rest(gs: Seq<Seq<Seq<char>>>)
    requires
        gs.len() > 0,
        forall|i: int| 0 <= i < gs.len() ==> all_plain(#[trigger] gs[i]),
    ensures
        all_plain(gs[0]),
        forall|j: int| 0 <= j < gs.drop_first().len() ==> all_plain(#[trigger] gs.drop_first()[j]),
{
    assert forall|j: int| 0 <= j < gs.drop_first().len() implies all_plain(
        #[trigger] gs.drop_first()[j],
    ) by {
        assert(gs.drop_first()[j] == gs[j + 1]);
    }
}

proof fn lemma_lex_sum_text(gs: Seq<Seq<Seq<char>>>)
    requires
        gs.len() > 0,
        forall|i: int| 0 <= i < gs.len() ==> all_plain(#[trigger] gs[i]),
    ensures
        lex(sum_of_products_text(gs)) == Some(sum_of_products_tokens(gs)),
{
    let s = sum_of_products_text(gs);
    let g = gs[0];
    let rest = gs.drop_first();
    lemma_gs_rest(gs);
    let c = and_chain_text(g);
    let b = or_rest_text(rest);
    assert(s.skip(0) =~= c + b);
    lemma_or_text_starts(rest);
    lemma_lex_and_chain(s, 0, g, b);
    assert(s.skip(c.len() as int) =~= b);
    lemma_lex_or_rest(s, c.len() as int, rest);
}

proof fn lemma_trim_sum_text(gs: Seq<Seq<Seq<char>>>)
    requires
        gs.len() > 0,
        forall|i: int| 0 <= i < gs.len() ==> all_plain(#[trigger] gs[i]),
    ensures
        trim(sum_of_products_text(gs)) == sum_of_products_text(gs),
{
    let s = sum_of_products_text(gs);
    let g = gs[0];
    lemma_gs_rest(gs);
    assert(plain_word(g[0]));
    let c = and_chain_text(g);
    assert(c == g[0] + and_rest_text(g.drop_first()));
    assert(s == c + or_rest_text(gs.drop_first()));
    assert(s[0] == g[0][0]);
    assert(!ends_word(g[0][0]));
    lemma_text_ends_plain(gs);
    assert(!is_space(s[0]));
}

/// A query text of plain words joined by ` + ` and ` | ` is read as those
/// words and operators, and parsed by precedence into the disjunction of
/// the groups' conjunctions, each grouped to the left: for plain words a,
/// b, c, `a | b + c` is a or (b and c). Searching it searches that tree.
pub proof fn lemma_sum_of_products_text(gs: Seq<Seq<Seq<char>>>)
    requires
        gs.len() > 0,
        forall|i: int| 0 <= i < gs.len() ==> all_plain(#[trigger] gs[i]),
    ensures
        trim(sum_of_products_text(gs)) == sum_of_products_text(gs),
        lex(sum_of_products_text(gs)) == Some(sum_of_products_tokens(gs)),
        query_model(sum_of_products_text(gs)) == sum_of_products_tree(gs),
{
    lemma_lex_sum_text(gs);
    lemma_trim_sum_text(gs);
    assert forall|i: int| 0 <= i < gs.len() implies (#[trigger] gs[i]).len() > 0 by {
        assert(all_plain(gs[i]));
    }
    lemma_sum_of_products(gs);
}

proof fn lemma_and_rest_ends(ws: Seq<Seq<char>>)
    requires
        forall|j: int| 0 <= j < ws.len() ==> plain_word(#[trigger] ws[j]),
    ensures
        ws.len() > 0 ==> and_rest_text(ws).len() > 0 && !is_space(and_rest_text(ws).last()),
    decreases ws.len(),
{
    if ws.len() > 0 {
        let w = ws[0];
        let rest = ws.drop_first();
        lemma_all_plain_rest(ws);
        lemma_and_rest_ends(rest);
        assert(plain_word(w));
        let b = and_rest_text(rest);
        let x = seq![' ', '+', ' '] + w + b;
        assert(and_rest_text(ws) == x);
        if b.len() > 0 {
            assert(x.last() == b.last());
        } else {
            assert(x.last() == w[w.len() - 1]);
            assert(!ends_word(w[w.len() - 1]));
        }
    }
}

proof fn lemma_and_chain_ends(ws: Seq<Seq<char>>)
    requires
        all_plain(ws),
    ensures
        and_chain_text(ws).len() > 0 && !is_space(and_chain_text(ws).last()),
{
    let w = ws[0];
    let rest = ws.drop_first();
    lemma_all_plain_rest(ws);
    lemma_and_rest_ends(rest);
    assert(plain_word(w));
    let b = and_rest_text(rest);
    let x = w + b;
    if b.len() > 0 {
        assert(x.last() == b.last());
    } else {
        assert(x.last() == w[w.len() - 1]);
        assert(!ends_word(w[w.len() - 1]));
    }
}

proof fn lemma_or_rest_ends(gs: Seq<Seq<Seq<char>>>)
    requires
        forall|j: int| 0 <= j < gs.len() ==> all_plain(#[trigger] gs[j]),
    ensures
        gs.len() > 0 ==> or_rest_text(gs).len() > 0 && !is_space(or_rest_text(gs).last()),
    decreases gs.len(),
{
    if gs.len() > 0 {
        let g = gs[0];
        let rest = gs.drop_first();
        assert(all_plain(g));
        assert forall|j: int| 0 <= j < rest.len() implies all_plain(#[trigger] rest[j]) by {
            assert(rest[j] == gs[j + 1]);
        }
        lemma_or_rest_ends(rest);
        lemma_and_chain_ends(g);
        let c = and_chain_text(g);
        let b = or_rest_text(rest);
        let x = seq![' ', '|', ' '] + c + b;
        assert(or_rest_text(gs) == x);
        if b.len() > 0 {
            assert(x.last() == b.last());
        } else {
            assert(x.last() == c.last());
        }
    }
}

proof fn lemma_text_ends_plain(gs: Seq<Seq<Seq<char>>>)
    requires
        gs.len() > 0,
        forall|i: int| 0 <= i < gs.len() ==> all_plain(#[trigger] gs[i]),
    ensures
        sum_of_products_text(gs).len() > 0,
        !is_space(sum_of_products_text(gs).last()),
{
    let g = gs[0];
    let rest = gs.drop_first();
    assert(all_plain(g));
    assert forall|j: int| 0 <= j < rest.len() implies all_plain(#[trigger] rest[j]) by {
        assert(rest[j] == gs[j + 1]);
    }
    lemma_and_chain_ends(g);
    lemma_or_rest_ends(rest);
    let c = and_chain_text(g);
    let b = or_rest_text(rest);
    let x = c + b;
    if b.len() > 0 {
        assert(x.last() == b.last());
    } else {
        assert(x.last() == c.last());
    }
}

/// For any plain words a, b, c, the query `a | b + c` is a or (b and c):
/// the `+ c` is part of the right operand of `|`, not dropped.
pub proof fn lemma_or_of_and_text(a: Seq<char>, b: Seq<char>, c: Seq<char>)
    requires
        plain_word(a),
        plain_word(b),
        plain_word(c),
    ensures
        query_model(a + seq![' ', '|', ' '] + b + seq![' ', '+', ' '] + c) == QueryModel::Or(
            Box::new(QueryModel::Term(a)),
            Box::new(QueryModel::And(Box::new(QueryModel::Term(b)), Box::new(QueryModel::Term(c)))),
        ),
{
    let g0 = seq![a];
    let g1 = seq![b, c];
    let gs = seq![g0, g1];
    assert(all_plain(g0));
    assert(all_plain(g1));
    assert forall|i: int| 0 <= i < gs.len() implies all_plain(#[trigger] gs[i]) by {}
    lemma_sum_of_products_text(gs);
    assert(g0.drop_first() =~= Seq::<Seq<char>>::empty());
    assert(and_rest_text(g0.drop_first()) =~= Seq::<char>::empty());
    assert(and_chain_text(g0) =~= a);
    let r1 = g1.drop_first();
    assert(r1 =~= seq![c]);
    assert(r1.drop_first() =~= Seq::<Seq<char>>::empty());
    assert(and_rest_text(r1.drop_first()) =~= Seq::<char>::empty());
    assert(and_rest_text(r1) =~= seq![' ', '+', ' '] + c);
    assert(and_chain_text(g1) =~= b + seq![' ', '+', ' '] + c);
    let rg = gs.drop_first();
    assert(rg =~= seq![g1]);
    assert(rg.drop_first() =~= Seq::<Seq<Seq<char>>>::empty());
    assert(or_rest_text(rg.drop_first()) =~= Seq::<char>::empty());
    assert(or_rest_text(rg) =~= seq![' ', '|', ' '] + b + seq![' ', '+', ' '] + c);
    assert(sum_of_products_text(gs) =~= a + seq![' ', '|', ' '] + b + seq![' ', '+', ' '] + c);
    lemma_plain_word_tokens(a);
    lemma_plain_word_tokens(b);
    lemma_plain_word_tokens(c);
    assert(and_tree(g0) == QueryModel::Term(a));
    assert(and_fold(QueryModel::And(Box::new(QueryModel::Term(b)), Box::new(QueryModel::Term(c))), r1.drop_first())
        == QueryModel::And(Box::new(QueryModel::Term(b)), Box::new(QueryModel::Term(c))));
    assert(and_tree(g1) == QueryModel::And(Box::new(QueryModel::Term(b)), Box::new(QueryModel::Term(c))));
    let o = QueryModel::Or(Box::new(QueryModel::Term(a)), Box::new(and_tree(g1)));
    assert(or_fold(o, rg.drop_first()) == o);
}

} // verus!
