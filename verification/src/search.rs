//! From a query to SQL: the FTS5 `MATCH` expression of a query tree, the
//! sura-name field filter, and the statement with its parameters. Running
//! the statement against the database is left to the caller.
use vstd::prelude::*;

use crate::db::SURA_NAMES;
use crate::normalize::{
    all_normal, article, expand_model, expand_prefix_chars, lemma_normalize_for_search_idempotent,
    lemma_normalized_shape, lemma_search_form_fixed, single_spaced,
    normalize_for_search_chars, normalize_for_search_model, strip_article_chars,
    strip_article_model,
};
use crate::parser::lexer::{lex, lexes_chars};
use crate::parser::{
    lemma_plain_word_is_term, parse_query_chars, plain_word, query_model, QueryModel, QueryNode,
};
use crate::roots::{
    find_lemmas_for_root, find_siblings_for_lemma, lemmas_for_root_model, siblings_model,
    RootIndex, RootIndexModel,
};
use crate::text::{
    chars_of, copy_chars, decimal, decimal_chars, has_char, join_chars, join_with, list_contains,
    push_all, same_chars, seqs_of, starts_with_chars, string_of, trim, trim_chars, views_of,
};

verus! {

/// A single search result (verse).
#[derive(Debug, Clone)]
pub struct SearchResult {
    pub sura_id: u32,
    pub aya_id: u32,
    pub sura_name: String,
    pub text: String,
}

// ---------------------------------------------------------------------
// FTS5 expressions
// ---------------------------------------------------------------------
/// `s` between double quotes.
pub open spec fn quoted(s: Seq<char>) -> Seq<char> {
    seq!['"'] + s + seq!['"']
}

pub open spec fn quote_all(ts: Seq<Seq<char>>) -> Seq<Seq<char>> {
    ts.map_values(|t: Seq<char>| quoted(t))
}

pub open spec fn or_sep() -> Seq<char> {
    seq![' ', 'O', 'R', ' ']
}

pub open spec fn and_sep() -> Seq<char> {
    seq![' ', 'A', 'N', 'D', ' ']
}

/// `("t1" OR "t2" OR ...)`
pub open spec fn or_group(ts: Seq<Seq<char>>) -> Seq<char> {
    seq!['('] + join_with(quote_all(ts), or_sep()) + seq![')']
}

/// `w` without the wildcard characters `*`, `?` and `؟`.
pub open spec fn remove_wildcards(w: Seq<char>) -> Seq<char>
    decreases w.len(),
{
    if w.len() == 0 {
        w
    } else if w.last() == '*' || w.last() == '?' || w.last() == '\u{061F}' {
        remove_wildcards(w.drop_last())
    } else {
        remove_wildcards(w.drop_last()).push(w.last())
    }
}

/// `n` with each ه replaced by ة.
pub open spec fn replace_heh(n: Seq<char>) -> Seq<char> {
    n.map_values(
        |c: char|
            if c == '\u{0647}' {
                '\u{0629}'
            } else {
                c
            },
    )
}

/// `s` with later repetitions of an element left out.
pub open spec fn dedup(s: Seq<Seq<char>>) -> Seq<Seq<char>>
    decreases s.len(),
{
    if s.len() == 0 {
        s
    } else {
        let d = dedup(s.drop_last());
        if d.contains(s.last()) {
            d
        } else {
            d.push(s.last())
        }
    }
}

/// Spelling variants of a word: its search form; with ه replaced by ة when
/// it holds ه; without its article when that differs; with the article
/// prefixed when it does not start with it. No variant occurs twice, and an
/// empty search form has no variants.
pub open spec fn spell_variants_model(word: Seq<char>) -> Seq<Seq<char>> {
    let n = normalize_for_search_model(word);
    if n.len() == 0 {
        seq![]
    } else {
        let v1 = seq![n];
        let v2 = if n.contains('\u{0647}') {
            v1.push(replace_heh(n))
        } else {
            v1
        };
        let s = strip_article_model(n);
        let v3 = if s != n {
            v2.push(s)
        } else {
            v2
        };
        let v4 = if !article().is_prefix_of(n) {
            v3.push(article() + n)
        } else {
            v3
        };
        dedup(v4)
    }
}

/// A word's expansion as an OR group, or the word's search form quoted when
/// there is no expansion.
pub open spec fn expansion_or_quoted(ls: Seq<Seq<char>>, t: Seq<char>) -> Seq<char> {
    if ls.len() == 0 {
        quoted(normalize_for_search_model(t))
    } else {
        or_group(ls)
    }
}

pub open spec fn is_not_node(m: QueryModel) -> bool {
    m is Not
}

/// The FTS5 MATCH expression of a query tree (empty where the tree has none).
pub open spec fn fts_model(n: QueryModel, ix: RootIndexModel) -> Seq<char>
    decreases n,
{
    match n {
        QueryModel::Term(t) => {
            let nt = normalize_for_search_model(t);
            if nt.len() == 0 {
                seq![]
            } else {
                let ex = expand_model(nt);
                if ex.len() > 1 {
                    or_group(ex)
                } else {
                    quoted(nt)
                }
            }
        },
        QueryModel::Phrase(p) => quoted(normalize_for_search_model(p)),
        QueryModel::Wildcard(w) => normalize_for_search_model(remove_wildcards(w)).push('*'),
        QueryModel::And(l, r) => {
            let a = fts_model(*l, ix);
            let b = fts_model(*r, ix);
            if a.len() == 0 {
                b
            } else if b.len() == 0 {
                a
            } else if is_not_node(*r) {
                seq!['('] + a + seq![' '] + b + seq![')']
            } else {
                seq!['('] + a + and_sep() + b + seq![')']
            }
        },
        QueryModel::Or(l, r) => {
            let a = fts_model(*l, ix);
            let b = fts_model(*r, ix);
            if a.len() == 0 {
                b
            } else if b.len() == 0 {
                a
            } else {
                seq!['('] + a + or_sep() + b + seq![')']
            }
        },
        QueryModel::Not(i) => {
            let x = fts_model(*i, ix);
            if x.len() == 0 {
                seq![]
            } else {
                seq!['N', 'O', 'T', ' '] + x
            }
        },
        QueryModel::Boost(i, _) => fts_model(*i, ix),
        QueryModel::SpellTolerant(t) => or_group(spell_variants_model(t)),
        QueryModel::Root(t) => expansion_or_quoted(lemmas_for_root_model(ix, t), t),
        QueryModel::Lemma(t) => expansion_or_quoted(siblings_model(ix, t), t),
        QueryModel::Synonym(t) => expansion_or_quoted(siblings_model(ix, t), t),
        QueryModel::Antonym(t) => expansion_or_quoted(siblings_model(ix, t), t),
        QueryModel::Field { .. } => seq![],
    }
}

fn push_quoted(out: &mut Vec<char>, t: &[char])
    ensures
        final(out)@ == old(out)@ + quoted(t@),
{
    out.push('"');
    push_all(out, t);
    out.push('"');
    assert(final(out)@ =~= old(out)@ + quoted(t@));
}

fn quoted_chars(t: &[char]) -> (r: Vec<char>)
    ensures
        r@ == quoted(t@),
{
    let mut r: Vec<char> = Vec::new();
    push_quoted(&mut r, t);
    assert(r@ =~= quoted(t@));
    r
}

fn or_group_chars(ts: &Vec<Vec<char>>) -> (r: Vec<char>)
    ensures
        r@ == or_group(seqs_of(ts@)),
{
    let ghost all = seqs_of(ts@);
    let mut q: Vec<Vec<char>> = Vec::new();
    let mut i: usize = 0;
    while i < ts.len()
        invariant
            i <= ts@.len(),
            all == seqs_of(ts@),
            seqs_of(q@) == quote_all(all.take(i as int)),
        decreases ts@.len() - i,
    {
        let t = quoted_chars(ts[i].as_slice());
        let ghost before = seqs_of(q@);
        q.push(t);
        assert(seqs_of(q@) =~= before.push(t@));
        i = i + 1;
        assert(quote_all(all.take(i as int)) =~= quote_all(all.take(i - 1)).push(
            quoted(all[i - 1]),
        ));
    }
    assert(all.take(i as int) =~= all);
    let sep = vec![' ', 'O', 'R', ' '];
    assert(sep@ =~= or_sep());
    let joined = join_chars(&q, sep.as_slice());
    let mut r: Vec<char> = Vec::new();
    r.push('(');
    push_all(&mut r, joined.as_slice());
    r.push(')');
    assert(r@ =~= or_group(all));
    r
}

/// The characters of each string.
fn chars_list(v: &Vec<String>) -> (r: Vec<Vec<char>>)
    ensures
        seqs_of(r@) == views_of(v@),
{
    let mut r: Vec<Vec<char>> = Vec::new();
    let mut i: usize = 0;
    while i < v.len()
        invariant
            i <= v@.len(),
            seqs_of(r@) == views_of(v@).take(i as int),
        decreases v@.len() - i,
    {
        let c = chars_of(v[i].as_str());
        let ghost before = seqs_of(r@);
        r.push(c);
        assert(seqs_of(r@) =~= before.push(c@));
        i = i + 1;
        assert(views_of(v@).take(i as int) =~= views_of(v@).take(i - 1).push(v@[i - 1]@));
    }
    assert(views_of(v@).take(i as int) =~= views_of(v@));
    r
}

fn remove_wildcards_chars(w: &[char]) -> (r: Vec<char>)
    ensures
        r@ == remove_wildcards(w@),
{
    let mut r: Vec<char> = Vec::new();
    let mut i: usize = 0;
    while i < w.len()
        invariant
            i <= w@.len(),
            r@ == remove_wildcards(w@.take(i as int)),
        decreases w@.len() - i,
    {
        assert(w@.take(i + 1).drop_last() =~= w@.take(i as int));
        let c = w[i];
        if !(c == '*' || c == '?' || c == '\u{061F}') {
            r.push(c);
        }
        i = i + 1;
    }
    assert(w@.take(i as int) =~= w@);
    r
}

fn replace_heh_chars(n: &[char]) -> (r: Vec<char>)
    ensures
        r@ == replace_heh(n@),
{
    let mut r: Vec<char> = Vec::new();
    let mut i: usize = 0;
    while i < n.len()
        invariant
            i <= n@.len(),
            r@ == replace_heh(n@.take(i as int)),
        decreases n@.len() - i,
    {
        if n[i] == '\u{0647}' {
            r.push('\u{0629}');
        } else {
            r.push(n[i]);
        }
        i = i + 1;
        assert(r@ =~= replace_heh(n@.take(i as int)));
    }
    assert(n@.take(i as int) =~= n@);
    r
}

fn dedup_chars(v: &Vec<Vec<char>>) -> (r: Vec<Vec<char>>)
    ensures
        seqs_of(r@) == dedup(seqs_of(v@)),
{
    let ghost all = seqs_of(v@);
    let mut r: Vec<Vec<char>> = Vec::new();
    let mut i: usize = 0;
    while i < v.len()
        invariant
            i <= v@.len(),
            all == seqs_of(v@),
            seqs_of(r@) == dedup(all.take(i as int)),
        decreases v@.len() - i,
    {
        assert(all.take(i + 1).drop_last() =~= all.take(i as int));
        assert(all.take(i + 1).last() == v@[i as int]@);
        if !list_contains(&r, v[i].as_slice()) {
            let ghost before = seqs_of(r@);
            let c = copy_chars(v[i].as_slice());
            r.push(c);
            assert(seqs_of(r@) =~= before.push(c@));
        }
        i = i + 1;
    }
    assert(all.take(i as int) =~= all);
    r
}

/// Generate common Arabic spelling variants for spell-tolerant search.
fn generate_spell_variants(word: &[char]) -> (r: Vec<Vec<char>>)
    ensures
        seqs_of(r@) == spell_variants_model(word@),
{
    let normalized = normalize_for_search_chars(word);
    let ghost n = normalized@;
    if normalized.len() == 0 {
        let r: Vec<Vec<char>> = Vec::new();
        assert(seqs_of(r@) =~= seq![]);
        return r;
    }
    let mut variants: Vec<Vec<char>> = Vec::new();
    variants.push(copy_chars(normalized.as_slice()));
    assert(seqs_of(variants@) =~= seq![n]);
    if has_char(normalized.as_slice(), '\u{0647}') {
        let ghost before = seqs_of(variants@);
        let h = replace_heh_chars(normalized.as_slice());
        variants.push(h);
        assert(seqs_of(variants@) =~= before.push(replace_heh(n)));
    }
    let stripped = strip_article_chars(normalized.as_slice());
    if !same_chars(stripped.as_slice(), normalized.as_slice()) {
        let ghost before = seqs_of(variants@);
        let ghost sv = stripped@;
        variants.push(stripped);
        assert(seqs_of(variants@) =~= before.push(sv));
    }
    let al = vec!['\u{0627}', '\u{0644}'];
    assert(al@ =~= article());
    if !starts_with_chars(normalized.as_slice(), al.as_slice()) {
        let mut with_al = copy_chars(al.as_slice());
        push_all(&mut with_al, normalized.as_slice());
        let ghost before = seqs_of(variants@);
        let ghost wv = with_al@;
        variants.push(with_al);
        assert(seqs_of(variants@) =~= before.push(wv));
    }
    dedup_chars(&variants)
}

fn expansion_chars(ls: &Vec<String>, t: &String) -> (r: Vec<char>)
    ensures
        r@ == expansion_or_quoted(views_of(ls@), t@),
{
    if ls.len() == 0 {
        let tc = chars_of(t.as_str());
        let n = normalize_for_search_chars(tc.as_slice());
        quoted_chars(n.as_slice())
    } else {
        let cl = chars_list(ls);
        or_group_chars(&cl)
    }
}

/// Convert AST to FTS5 MATCH expression.
fn ast_to_fts5(node: &QueryNode, index: &RootIndex) -> (r: Vec<char>)
    ensures
        r@ == fts_model(node@, index@),
    decreases node,
{
    match node {
        QueryNode::Term(t) => {
            let tc = chars_of(t.as_str());
            let normalized = normalize_for_search_chars(tc.as_slice());
            if normalized.len() == 0 {
                return Vec::new();
            }
            let expansions = expand_prefix_chars(normalized.as_slice());
            if expansions.len() > 1 {
                or_group_chars(&expansions)
            } else {
                quoted_chars(normalized.as_slice())
            }
        },
        QueryNode::Phrase(p) => {
            let pc = chars_of(p.as_str());
            let normalized = normalize_for_search_chars(pc.as_slice());
            quoted_chars(normalized.as_slice())
        },
        QueryNode::Wildcard(w) => {
            let wc = chars_of(w.as_str());
            let stripped = remove_wildcards_chars(wc.as_slice());
            let mut r = normalize_for_search_chars(stripped.as_slice());
            r.push('*');
            r
        },
        QueryNode::And(left, right) => {
            let l = ast_to_fts5(left, index);
            let r = ast_to_fts5(right, index);
            if l.len() == 0 {
                return r;
            }
            if r.len() == 0 {
                return l;
            }
            let right_is_not = match &**right {
                QueryNode::Not(_) => true,
                _ => false,
            };
            let mut out: Vec<char> = Vec::new();
            out.push('(');
            push_all(&mut out, l.as_slice());
            if right_is_not {
                out.push(' ');
            } else {
                let sep = vec![' ', 'A', 'N', 'D', ' '];
                push_all(&mut out, sep.as_slice());
            }
            push_all(&mut out, r.as_slice());
            out.push(')');
            assert(out@ =~= fts_model(node@, index@));
            out
        },
        QueryNode::Or(left, right) => {
            let l = ast_to_fts5(left, index);
            let r = ast_to_fts5(right, index);
            if l.len() == 0 {
                return r;
            }
            if r.len() == 0 {
                return l;
            }
            let mut out: Vec<char> = Vec::new();
            out.push('(');
            push_all(&mut out, l.as_slice());
            let sep = vec![' ', 'O', 'R', ' '];
            push_all(&mut out, sep.as_slice());
            push_all(&mut out, r.as_slice());
            out.push(')');
            assert(out@ =~= fts_model(node@, index@));
            out
        },
        QueryNode::Not(inner) => {
            let i = ast_to_fts5(inner, index);
            if i.len() == 0 {
                return Vec::new();
            }
            let mut out = vec!['N', 'O', 'T', ' '];
            push_all(&mut out, i.as_slice());
            assert(out@ =~= fts_model(node@, index@));
            out
        },
        QueryNode::Boost(inner, _weight) => ast_to_fts5(inner, index),
        QueryNode::SpellTolerant(t) => {
            let tc = chars_of(t.as_str());
            let variants = generate_spell_variants(tc.as_slice());
            or_group_chars(&variants)
        },
        QueryNode::Root(t) => {
            let lemmas = find_lemmas_for_root(index, t.as_str());
            expansion_chars(&lemmas, t)
        },
        QueryNode::Lemma(t) => {
            let siblings = find_siblings_for_lemma(index, t.as_str());
            expansion_chars(&siblings, t)
        },
        QueryNode::Synonym(t) => {
            let lemmas = find_siblings_for_lemma(index, t.as_str());
            expansion_chars(&lemmas, t)
        },
        QueryNode::Antonym(t) => {
            let lemmas = find_siblings_for_lemma(index, t.as_str());
            expansion_chars(&lemmas, t)
        },
        QueryNode::Field { .. } => Vec::new(),
    }
}

// ---------------------------------------------------------------------
// SQL
// ---------------------------------------------------------------------
/// A statement that selects nothing.
pub open spec fn empty_sql_model() -> Seq<char> {
    "SELECT 0, 0, '', '' WHERE 0"@
}

/// The verses of the sura whose id is parameter 1, in order, at most `limit`.
pub open spec fn sura_sql_model(limit: nat) -> Seq<char> {
    "SELECT a.sura_id, a.aya_id, a.sura_name, a.text FROM aya a WHERE a.sura_id = ?1 ORDER BY a.gid LIMIT "@
        + decimal(limit)
}

/// The verses matching the FTS5 expression in parameter 1, best ranked
/// first, at most `limit`.
pub open spec fn match_sql_model(limit: nat) -> Seq<char> {
    "SELECT a.sura_id, a.aya_id, a.sura_name, a.text FROM aya a JOIN aya_fts f ON a.gid = f.rowid WHERE aya_fts MATCH ?1 ORDER BY rank LIMIT "@
        + decimal(limit)
}

/// The field names that select a sura by name.
pub open spec fn is_sura_field_model(f: Seq<char>) -> bool {
    f == "سورة"@ || f == "sura"@ || f == "sura_name"@ || f == "sura_arabic"@
}

/// The first sura from `i` on whose search-form name equals `n` (or, with
/// `prefix`, starts with `n`); 0 when there is none.
pub open spec fn sura_match_from(n: Seq<char>, i: int, prefix: bool) -> int
    decreases 115 - i,
{
    if i < 0 || i >= 115 {
        0
    } else {
        let stored = normalize_for_search_model(SURA_NAMES@[i]@);
        if (prefix && n.is_prefix_of(stored)) || (!prefix && stored == n) {
            i
        } else {
            sura_match_from(n, i + 1, prefix)
        }
    }
}

/// The sura id for a name: the first sura whose name has the same search
/// form; failing that, for a search form of at least 3 characters, the first
/// sura whose name's search form starts with it; failing that, 0.
pub open spec fn sura_id_model(name: Seq<char>) -> int {
    let n = normalize_for_search_model(name);
    let e = sura_match_from(n, 1, false);
    if e != 0 {
        e
    } else if n.len() < 3 {
        0
    } else {
        sura_match_from(n, 1, true)
    }
}

/// The statement and parameters for the verses of the sura named `s`.
pub open spec fn sura_query_model(s: Seq<char>, limit: nat) -> (Seq<char>, Seq<Seq<char>>) {
    let id = sura_id_model(s);
    if id == 0 {
        (empty_sql_model(), seq![])
    } else {
        (sura_sql_model(limit), seq![decimal(id as nat)])
    }
}

/// The statement and parameters for a full-text query.
pub open spec fn fts_query_model(n: QueryModel, limit: nat, ix: RootIndexModel) -> (
    Seq<char>,
    Seq<Seq<char>>,
) {
    if n is Not {
        (empty_sql_model(), seq![])
    } else {
        let e = fts_model(n, ix);
        if e.len() == 0 {
            (empty_sql_model(), seq![])
        } else {
            (match_sql_model(limit), seq![e])
        }
    }
}

/// The statement and parameters for a query tree: a sura-name field selects
/// the sura's verses (or nothing for an unknown sura or a value that is not
/// a term or phrase); a lone negation selects nothing; anything else is a
/// full-text match.
pub open spec fn sql_model(n: QueryModel, limit: nat, ix: RootIndexModel) -> (
    Seq<char>,
    Seq<Seq<char>>,
) {
    match n {
        QueryModel::Field { field, value } => {
            if is_sura_field_model(field) {
                match *value {
                    QueryModel::Term(s) => sura_query_model(s, limit),
                    QueryModel::Phrase(s) => sura_query_model(s, limit),
                    _ => (empty_sql_model(), seq![]),
                }
            } else {
                fts_query_model(n, limit, ix)
            }
        },
        _ => fts_query_model(n, limit, ix),
    }
}

fn append_chars(s: &mut String, v: &[char])
    ensures
        final(s)@ == old(s)@ + v@,
{
    let mut i: usize = 0;
    while i < v.len()
        invariant
            i <= v@.len(),
            s@ == old(s)@ + v@.take(i as int),
        decreases v@.len() - i,
    {
        s.push(v[i]);
        i = i + 1;
        assert(v@.take(i as int) == v@.take(i - 1).push(v@[i - 1]));
        assert(s@ =~= old(s)@ + v@.take(i as int));
    }
    assert(v@.take(i as int) =~= v@);
}

fn empty_sql() -> (r: String)
    ensures
        r@ == empty_sql_model(),
{
    "SELECT 0, 0, '', '' WHERE 0".to_owned()
}

fn is_sura_field(field: &str) -> (r: bool)
    ensures
        r == is_sura_field_model(field@),
{
    let f = chars_of(field);
    let a = chars_of("سورة");
    let b = chars_of("sura");
    let c = chars_of("sura_name");
    let d = chars_of("sura_arabic");
    same_chars(f.as_slice(), a.as_slice()) || same_chars(f.as_slice(), b.as_slice()) || same_chars(
        f.as_slice(),
        c.as_slice(),
    ) || same_chars(f.as_slice(), d.as_slice())
}

fn find_sura_match(n: &[char], prefix: bool) -> (r: u32)
    ensures
        r == sura_match_from(n@, 1, prefix),
{
    let names = crate::db::sura_names();
    let mut i: usize = 1;
    while i < names.len()
        invariant
            1 <= i <= 115,
            names@ == SURA_NAMES@,
            sura_match_from(n@, 1, prefix) == sura_match_from(n@, i as int, prefix),
        decreases 115 - i,
    {
        let stored = chars_of(names[i]);
        let ns = normalize_for_search_chars(stored.as_slice());
        let hit = if prefix {
            starts_with_chars(ns.as_slice(), n)
        } else {
            same_chars(ns.as_slice(), n)
        };
        if hit {
            return i as u32;
        }
        i = i + 1;
    }
    0
}

/// Find sura ID by name, normalizing both stored names and input for comparison.
/// This handles cases where user types normalized alef but stored name uses alef-madda.
/// Prefers exact match; falls back to prefix match only for inputs >= 3 chars.
fn find_sura_id_by_name(name: &str) -> (r: u32)
    ensures
        r == sura_id_model(name@),
{
    let input = chars_of(name);
    let normalized_input = normalize_for_search_chars(input.as_slice());
    let e = find_sura_match(normalized_input.as_slice(), false);
    if e != 0 {
        return e;
    }
    if normalized_input.len() < 3 {
        return 0;
    }
    find_sura_match(normalized_input.as_slice(), true)
}

fn sura_query(s: &String, limit: usize) -> (r: (String, Vec<String>))
    ensures
        (r.0@, views_of(r.1@)) == sura_query_model(s@, limit as nat),
{
    let mut params: Vec<String> = Vec::new();
    let sura_id = find_sura_id_by_name(s.as_str());
    if sura_id == 0 {
        assert(views_of(params@) =~= seq![]);
        return (empty_sql(), params);
    }
    let mut sql = "SELECT a.sura_id, a.aya_id, a.sura_name, a.text FROM aya a WHERE a.sura_id = ?1 ORDER BY a.gid LIMIT ".to_owned();
    let digits = decimal_chars(limit as u64);
    append_chars(&mut sql, digits.as_slice());
    let id_digits = decimal_chars(sura_id as u64);
    params.push(string_of(id_digits.as_slice()));
    assert(views_of(params@) =~= seq![decimal(sura_id as nat)]);
    (sql, params)
}

fn fts_query(ast: &QueryNode, limit: usize, index: &RootIndex) -> (r: (String, Vec<String>))
    ensures
        (r.0@, views_of(r.1@)) == fts_query_model(ast@, limit as nat, index@),
{
    let mut params: Vec<String> = Vec::new();
    assert(views_of(params@) =~= seq![]);
    // Standalone NOT produces invalid FTS5 syntax (e.g. `NOT "word"`).
    // FTS5 requires NOT to follow another term. Return empty result instead.
    if let QueryNode::Not(_) = ast {
        return (empty_sql(), params);
    }
    let fts_expr = ast_to_fts5(ast, index);
    if fts_expr.len() == 0 {
        return (empty_sql(), params);
    }
    let mut sql = "SELECT a.sura_id, a.aya_id, a.sura_name, a.text FROM aya a JOIN aya_fts f ON a.gid = f.rowid WHERE aya_fts MATCH ?1 ORDER BY rank LIMIT ".to_owned();
    let digits = decimal_chars(limit as u64);
    append_chars(&mut sql, digits.as_slice());
    params.push(string_of(fts_expr.as_slice()));
    assert(views_of(params@) =~= seq![fts_expr@]);
    (sql, params)
}

/// Build SQL from the AST: the statement and its parameters.
pub fn build_sql(ast: &QueryNode, limit: usize, index: &RootIndex) -> (r: (String, Vec<String>))
    ensures
        (r.0@, views_of(r.1@)) == sql_model(ast@, limit as nat, index@),
{
    if let QueryNode::Field { field, value } = ast {
        if is_sura_field(field.as_str()) {
            let inner: &QueryNode = &**value;
            match inner {
                QueryNode::Term(s) => {
                    return sura_query(s, limit);
                },
                QueryNode::Phrase(s) => {
                    return sura_query(s, limit);
                },
                _ => {
                    assert(!(inner@ is Term) && !(inner@ is Phrase));
                    let params: Vec<String> = Vec::new();
                    assert(views_of(params@) =~= seq![]);
                    return (empty_sql(), params);
                },
            }
        }
    }
    fts_query(ast, limit, index)
}

/// Whether the lexer finishes on the trimmed query.
pub fn search_lexes(query: &str) -> (r: bool)
    ensures
        r == (lex(trim(query@)) is Some),
{
    let chars = chars_of(query);
    let trimmed = trim_chars(chars.as_slice());
    lexes_chars(trimmed.as_slice())
}

/// The statement and parameters that searching for `query` runs: none for
/// a query that is empty after trimming, else those of its parse tree.
pub fn plan_search(query: &str, limit: usize, index: &RootIndex) -> (r: Option<(String, Vec<String>)>)
    requires
        lex(trim(query@)) is Some,
    ensures
        trim(query@).len() == 0 ==> r is None,
        trim(query@).len() > 0 ==> match r {
            Some(plan) => (plan.0@, views_of(plan.1@)) == sql_model(
                query_model(trim(query@)),
                limit as nat,
                index@,
            ),
            None => false,
        },
{
    let chars = chars_of(query);
    let trimmed = trim_chars(chars.as_slice());
    if trimmed.len() == 0 {
        return None;
    }
    let ast = parse_query_chars(trimmed.as_slice());
    Some(build_sql(&ast, limit, index))
}

proof fn lemma_dedup_distinct(s: Seq<Seq<char>>)
    ensures
        dedup(s).no_duplicates(),
        forall|x: Seq<char>| dedup(s).contains(x) ==> s.contains(x),
    decreases s.len(),
{
    if s.len() > 0 {
        let d = dedup(s.drop_last());
        lemma_dedup_distinct(s.drop_last());
        assert forall|x: Seq<char>| dedup(s).contains(x) implies s.contains(x) by {
            if d.contains(x) {
                assert(s.drop_last().contains(x));
                let i = choose|i: int| 0 <= i < s.drop_last().len() && s.drop_last()[i] == x;
                assert(s[i] == x);
            } else {
                assert(x == s.last());
                assert(s[s.len() - 1] == x);
            }
        }
        if !d.contains(s.last()) {
            let e = d.push(s.last());
            assert forall|i: int, j: int|
                0 <= i < e.len() && 0 <= j < e.len() && i != j implies e[i] != e[j] by {
                if i < d.len() && j < d.len() {
                } else if i < d.len() {
                    assert(e[i] == d[i]);
                } else if j < d.len() {
                    assert(e[j] == d[j]);
                }
            }
        }
    }
}

/// No spelling variant is listed twice.
pub proof fn lemma_spell_variants_distinct(word: Seq<char>)
    ensures
        spell_variants_model(word).no_duplicates(),
{
    let n = normalize_for_search_model(word);
    if n.len() > 0 {
        let v1 = seq![n];
        let v2 = if n.contains('\u{0647}') {
            v1.push(replace_heh(n))
        } else {
            v1
        };
        let s = strip_article_model(n);
        let v3 = if s != n {
            v2.push(s)
        } else {
            v2
        };
        let v4 = if !article().is_prefix_of(n) {
            v3.push(article() + n)
        } else {
            v3
        };
        lemma_dedup_distinct(v4);
    }
}

proof fn lemma_sura_match_range(n: Seq<char>, i: int, prefix: bool)
    requires
        i >= 1,
    ensures
        sura_match_from(n, i, prefix) == 0 || (i <= sura_match_from(n, i, prefix) < 115),
    decreases 115 - i,
{
    if i < 115 {
        lemma_sura_match_range(n, i + 1, prefix);
    }
}

/// A sura name resolves to 0 (no sura) or to a sura number in 1..=114.
pub proof fn lemma_sura_id_in_range(name: Seq<char>)
    ensures
        sura_id_model(name) == 0 || 1 <= sura_id_model(name) <= 114,
{
    let n = normalize_for_search_model(name);
    lemma_sura_match_range(n, 1, false);
    lemma_sura_match_range(n, 1, true);
}

/// A query that is a lone negation selects nothing: FTS5 needs a term
/// before NOT.
pub proof fn lemma_lone_not_selects_nothing(inner: QueryModel, limit: nat, ix: RootIndexModel)
    ensures
        sql_model(QueryModel::Not(Box::new(inner)), limit, ix) == (
            empty_sql_model(),
            Seq::<Seq<char>>::empty(),
        ),
{
}

/// An empty or whitespace-only query runs no statement.
pub proof fn lemma_blank_search_runs_nothing(query: Seq<char>)
    requires
        forall|j: int| 0 <= j < query.len() ==> crate::text::is_space(#[trigger] query[j]),
    ensures
        trim(query).len() == 0,
    decreases query.len(),
{
    if query.len() > 0 {
        lemma_blank_search_runs_nothing(query.drop_first());
        assert(crate::text::is_space(query[0]));
        lemma_trim_start_all(query);
    }
}

proof fn lemma_trim_start_all(s: Seq<char>)
    requires
        forall|j: int| 0 <= j < s.len() ==> crate::text::is_space(#[trigger] s[j]),
    ensures
        crate::text::trim_start(s).len() == 0,
    decreases s.len(),
{
    if s.len() > 0 {
        assert(crate::text::is_space(s[0]));
        assert forall|j: int| 0 <= j < s.drop_first().len() implies crate::text::is_space(
            #[trigger] s.drop_first()[j],
        ) by {
            assert(s.drop_first()[j] == s[j + 1]);
        }
        lemma_trim_start_all(s.drop_first());
    }
}

/// A term or phrase is searched by its search form: writing it with
/// diacritics, tatweel, hamza/madda alef variants, taa marbuta, alef
/// maksura or extra whitespace gives the same full-text expression as
/// writing its normalized form.
pub proof fn lemma_search_by_normal_form(t: Seq<char>, ix: RootIndexModel)
    ensures
        fts_model(QueryModel::Term(t), ix) == fts_model(
            QueryModel::Term(normalize_for_search_model(t)),
            ix,
        ),
        fts_model(QueryModel::Phrase(t), ix) == fts_model(
            QueryModel::Phrase(normalize_for_search_model(t)),
            ix,
        ),
{
    lemma_normalize_for_search_idempotent(t);
}

/// An operand whose full-text expression is empty drops out: AND and OR
/// with the empty term give the other side, and NOT of the empty term is
/// empty. A boost weight does not change the expression.
pub proof fn lemma_fts_empty_operand_and_boost(x: QueryModel, w: Seq<char>, ix: RootIndexModel)
    ensures
        fts_model(QueryModel::And(Box::new(QueryModel::Term(Seq::empty())), Box::new(x)), ix)
            == fts_model(x, ix),
        fts_model(QueryModel::And(Box::new(x), Box::new(QueryModel::Term(Seq::empty()))), ix)
            == fts_model(x, ix),
        fts_model(QueryModel::Or(Box::new(QueryModel::Term(Seq::empty())), Box::new(x)), ix)
            == fts_model(x, ix),
        fts_model(QueryModel::Or(Box::new(x), Box::new(QueryModel::Term(Seq::empty()))), ix)
            == fts_model(x, ix),
        fts_model(QueryModel::Not(Box::new(QueryModel::Term(Seq::empty()))), ix) == Seq::<
            char,
        >::empty(),
        fts_model(QueryModel::Boost(Box::new(x), w), ix) == fts_model(x, ix),
{
    let e = Seq::<char>::empty();
    assert(crate::normalize::normalize_arabic_model(e) == e);
    assert(crate::normalize::words(e) =~= Seq::<Seq<char>>::empty());
    assert(normalize_for_search_model(e) =~= e);
    assert(fts_model(QueryModel::Term(e), ix) == e);
}

/// Every statement selects nothing, or ends in `LIMIT` followed by the
/// requested limit in decimal.
pub proof fn lemma_statement_limit(n: QueryModel, limit: nat, ix: RootIndexModel)
    ensures
        sql_model(n, limit, ix).0 == empty_sql_model() || sql_model(n, limit, ix).0
            == sura_sql_model(limit) || sql_model(n, limit, ix).0 == match_sql_model(limit),
{
}

/// Two terms (or two phrases) with the same search form give the same
/// statement and parameters.
pub proof fn lemma_equal_search_forms_plan_alike(
    t1: Seq<char>,
    t2: Seq<char>,
    limit: nat,
    ix: RootIndexModel,
)
    requires
        normalize_for_search_model(t1) == normalize_for_search_model(t2),
    ensures
        sql_model(QueryModel::Term(t1), limit, ix) == sql_model(QueryModel::Term(t2), limit, ix),
        sql_model(QueryModel::Phrase(t1), limit, ix) == sql_model(
            QueryModel::Phrase(t2),
            limit,
            ix,
        ),
{
}

/// Two one-word queries with the same search form (such as أمنوا and
/// آمنوا) can both be searched, and searching them runs the same statement
/// with the same parameters.
pub proof fn lemma_equal_word_queries_plan_alike(
    q1: Seq<char>,
    q2: Seq<char>,
    limit: nat,
    ix: RootIndexModel,
)
    requires
        plain_word(q1),
        plain_word(q2),
        normalize_for_search_model(q1) == normalize_for_search_model(q2),
    ensures
        lex(trim(q1)) is Some,
        lex(trim(q2)) is Some,
        trim(q1).len() > 0 && trim(q2).len() > 0,
        sql_model(query_model(trim(q1)), limit, ix) == sql_model(
            query_model(trim(q2)),
            limit,
            ix,
        ),
{
    lemma_plain_word_is_term(q1);
    lemma_plain_word_is_term(q2);
    lemma_equal_search_forms_plan_alike(q1, q2, limit, ix);
}

/// `w` holds none of the wildcard characters `*`, `?` and `؟`.
pub open spec fn no_wildcards(w: Seq<char>) -> bool {
    !w.contains('*') && !w.contains('?') && !w.contains('\u{061F}')
}

/// Removing wildcard characters leaves a text without them unchanged, and
/// drops a trailing `*`.
pub proof fn lemma_remove_wildcards_plain(v: Seq<char>)
    requires
        no_wildcards(v),
    ensures
        remove_wildcards(v) == v,
        remove_wildcards(v.push('*')) == v,
    decreases v.len(),
{
    if v.len() > 0 {
        let p = v.drop_last();
        assert(no_wildcards(p)) by {
            if p.contains('*') {
                let i = choose|i: int| 0 <= i < p.len() && p[i] == '*';
                assert(v[i] == '*');
            }
            if p.contains('?') {
                let i = choose|i: int| 0 <= i < p.len() && p[i] == '?';
                assert(v[i] == '?');
            }
            if p.contains('\u{061F}') {
                let i = choose|i: int| 0 <= i < p.len() && p[i] == '\u{061F}';
                assert(v[i] == '\u{061F}');
            }
        }
        lemma_remove_wildcards_plain(p);
        assert(v[v.len() - 1] == v.last());
        assert(p.push(v.last()) =~= v);
    }
    assert(v.push('*').drop_last() =~= v);
}

/// A wildcard pattern searches for the search form of its word with the
/// wildcard characters taken out, followed by `*`: the expression is a
/// prefix match whose prefix is normal text, single spaced. A pattern
/// written in search form with a trailing `*` (such as الرحم*) is searched
/// as written, its article and every letter kept.
pub proof fn lemma_wildcard_searches_prefix(w: Seq<char>, v: Seq<char>, ix: RootIndexModel)
    ensures
        fts_model(QueryModel::Wildcard(w), ix) == normalize_for_search_model(remove_wildcards(w)).push(
            '*',
        ),
        fts_model(QueryModel::Wildcard(w), ix).last() == '*',
        all_normal(fts_model(QueryModel::Wildcard(w), ix).drop_last()),
        single_spaced(fts_model(QueryModel::Wildcard(w), ix).drop_last()),
        all_normal(v) && single_spaced(v) && no_wildcards(v) ==> fts_model(
            QueryModel::Wildcard(v.push('*')),
            ix,
        ) == v.push('*'),
{
    lemma_normalized_shape(remove_wildcards(w));
    let e = fts_model(QueryModel::Wildcard(w), ix);
    assert(e.drop_last() =~= normalize_for_search_model(remove_wildcards(w)));
    if all_normal(v) && single_spaced(v) && no_wildcards(v) {
        lemma_remove_wildcards_plain(v);
        lemma_search_form_fixed(v);
    }
}

} // verus!
