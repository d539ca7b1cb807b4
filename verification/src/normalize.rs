//! Arabic text normalization: stripping diacritics (tashkeel) and tatweel,
//! folding letter variants, collapsing whitespace, stripping the definite
//! article and expanding attached prefixes.
use vstd::prelude::*;

use crate::text::{
    chars_of, copy_chars, is_space, is_whitespace, join_with, list_contains, push_all, seqs_of, starts_with_chars,
    same_chars, string_of, strings_of, sub_chars, trim, trim_chars, views_of,
};

verus! {

/// The tatweel (kashida) character `ـ`.
pub open spec fn tatweel() -> char {
    '\u{0640}'
}

/// Arabic diacritical marks (tashkeel).
pub open spec fn spec_is_tashkeel(c: char) -> bool {
    ||| ('\u{0610}' <= c && c <= '\u{061A}')
    ||| ('\u{064B}' <= c && c <= '\u{065F}')
    ||| c == '\u{0670}'
    ||| ('\u{06D6}' <= c && c <= '\u{06DC}')
    ||| ('\u{06DF}' <= c && c <= '\u{06E4}')
    ||| ('\u{06E7}' <= c && c <= '\u{06E8}')
    ||| ('\u{06EA}' <= c && c <= '\u{06ED}')
}

/// Check if a character is an Arabic diacritical mark (tashkeel).
pub(crate) fn is_tashkeel(c: char) -> (r: bool)
    ensures
        r == spec_is_tashkeel(c),
{
    ('\u{0610}' <= c && c <= '\u{061A}') || ('\u{064B}' <= c && c <= '\u{065F}') || c
        == '\u{0670}' || ('\u{06D6}' <= c && c <= '\u{06DC}') || ('\u{06DF}' <= c && c
        <= '\u{06E4}') || ('\u{06E7}' <= c && c <= '\u{06E8}') || ('\u{06EA}' <= c && c
        <= '\u{06ED}')
}

/// Letter folding: alef variants (أ إ آ ٱ) become ا, taa marbuta (ة) becomes
/// ه and alef maksura (ى) becomes ي; every other character is kept.
pub open spec fn fold_letter(c: char) -> char {
    if c == '\u{0623}' || c == '\u{0625}' || c == '\u{0622}' || c == '\u{0671}' {
        '\u{0627}'
    } else if c == '\u{0629}' {
        '\u{0647}'
    } else if c == '\u{0649}' {
        '\u{064A}'
    } else {
        c
    }
}

fn fold_char(c: char) -> (r: char)
    ensures
        r == fold_letter(c),
{
    if c == '\u{0623}' || c == '\u{0625}' || c == '\u{0622}' || c == '\u{0671}' {
        '\u{0627}'
    } else if c == '\u{0629}' {
        '\u{0647}'
    } else if c == '\u{0649}' {
        '\u{064A}'
    } else {
        c
    }
}

/// A character that normalization leaves as it is: no tashkeel, no tatweel,
/// no letter variant that folding would change.
pub open spec fn is_normal_char(c: char) -> bool {
    !spec_is_tashkeel(c) && c != tatweel() && fold_letter(c) == c
}

pub open spec fn all_normal(s: Seq<char>) -> bool {
    forall|i: int| 0 <= i < s.len() ==> is_normal_char(#[trigger] s[i])
}

/// `s` with its tashkeel removed.
pub open spec fn strip_tashkeel_model(s: Seq<char>) -> Seq<char>
    decreases s.len(),
{
    if s.len() == 0 {
        s
    } else if spec_is_tashkeel(s.last()) {
        strip_tashkeel_model(s.drop_last())
    } else {
        strip_tashkeel_model(s.drop_last()).push(s.last())
    }
}

/// `s` with tashkeel and tatweel removed and letter variants folded.
pub open spec fn normalize_arabic_model(s: Seq<char>) -> Seq<char>
    decreases s.len(),
{
    if s.len() == 0 {
        s
    } else if spec_is_tashkeel(s.last()) || s.last() == tatweel() {
        normalize_arabic_model(s.drop_last())
    } else {
        normalize_arabic_model(s.drop_last()).push(fold_letter(s.last()))
    }
}

/// The whitespace-separated words of `s`, as `str::split_whitespace` yields them.
pub open spec fn words(s: Seq<char>) -> Seq<Seq<char>>
    decreases s.len(),
{
    if s.len() == 0 {
        seq![]
    } else {
        let w = words(s.drop_last());
        let c = s.last();
        if is_space(c) {
            w
        } else if s.len() == 1 || is_space(s[s.len() - 2]) {
            w.push(seq![c])
        } else {
            w.update(w.len() - 1, w.last().push(c))
        }
    }
}

/// The words of `s` joined by single spaces.
pub open spec fn collapse_spaces(s: Seq<char>) -> Seq<char> {
    join_with(words(s), seq![' '])
}

/// The search form of a text: normalized, with whitespace runs collapsed to
/// one space and no leading or trailing whitespace.
pub open spec fn normalize_for_search_model(s: Seq<char>) -> Seq<char> {
    collapse_spaces(normalize_arabic_model(s))
}

/// Each whitespace character of `s` is a plain space between two
/// non-whitespace characters.
pub open spec fn single_spaced(s: Seq<char>) -> bool {
    forall|i: int|
        0 <= i < s.len() && is_space(#[trigger] s[i]) ==> s[i] == ' ' && 0 < i && i + 1 < s.len()
            && !is_space(s[i - 1]) && !is_space(s[i + 1])
}

// ---------------------------------------------------------------------
// Exec
// ---------------------------------------------------------------------
pub fn strip_tashkeel_chars(s: &[char]) -> (r: Vec<char>)
    ensures
        r@ == strip_tashkeel_model(s@),
{
    let mut r: Vec<char> = Vec::new();
    let mut i: usize = 0;
    while i < s.len()
        invariant
            i <= s@.len(),
            r@ == strip_tashkeel_model(s@.take(i as int)),
        decreases s@.len() - i,
    {
        assert(s@.take(i + 1).drop_last() =~= s@.take(i as int));
        if !is_tashkeel(s[i]) {
            r.push(s[i]);
        }
        i = i + 1;
    }
    assert(s@.take(i as int) =~= s@);
    r
}

/// Strip tashkeel (diacritical marks) from Arabic text.
pub fn strip_tashkeel(text: &str) -> (r: String)
    ensures
        r@ == strip_tashkeel_model(text@),
{
    let chars = chars_of(text);
    string_of(strip_tashkeel_chars(chars.as_slice()).as_slice())
}

proof fn lemma_normal_fold(c: char)
    requires
        !spec_is_tashkeel(c),
        c != tatweel(),
    ensures
        is_normal_char(fold_letter(c)),
{
}

pub fn normalize_arabic_chars(s: &[char]) -> (r: Vec<char>)
    ensures
        r@ == normalize_arabic_model(s@),
        all_normal(r@),
{
    let mut r: Vec<char> = Vec::new();
    let mut i: usize = 0;
    while i < s.len()
        invariant
            i <= s@.len(),
            r@ == normalize_arabic_model(s@.take(i as int)),
            all_normal(r@),
        decreases s@.len() - i,
    {
        assert(s@.take(i + 1).drop_last() =~= s@.take(i as int));
        let c = s[i];
        if !is_tashkeel(c) && c != '\u{0640}' {
            proof {
                lemma_normal_fold(c);
            }
            r.push(fold_char(c));
        }
        i = i + 1;
    }
    assert(s@.take(i as int) =~= s@);
    r
}

/// Normalize Arabic text: strip tashkeel, normalize character variants.
///
/// - Strips tashkeel (diacritics)
/// - Normalizes alef variants (أ إ آ ٱ) → ا
/// - Normalizes taa marbuta (ة) → ه
/// - Normalizes alef maksura (ى) → ي
/// - Removes tatweel/kashida (ـ)
pub fn normalize_arabic(text: &str) -> (r: String)
    ensures
        r@ == normalize_arabic_model(text@),
        all_normal(r@),
{
    let chars = chars_of(text);
    string_of(normalize_arabic_chars(chars.as_slice()).as_slice())
}

proof fn lemma_join_extend_last(w: Seq<Seq<char>>, sep: Seq<char>, c: char)
    requires
        w.len() > 0,
    ensures
        join_with(w.update(w.len() - 1, w.last().push(c)), sep) == join_with(w, sep).push(c),
{
    let u = w.update(w.len() - 1, w.last().push(c));
    if w.len() == 1 {
        assert(u.len() == 1);
    } else {
        assert(u.drop_last() =~= w.drop_last());
        assert(join_with(w, sep) + seq![c] =~= join_with(u.drop_last(), sep) + sep + u.last());
    }
}

proof fn lemma_words_nonempty(s: Seq<char>)
    requires
        s.len() > 0,
        !is_space(s.last()),
    ensures
        words(s).len() > 0,
    decreases s.len(),
{
    if s.len() > 1 && !is_space(s[s.len() - 2]) {
        lemma_words_nonempty(s.drop_last());
    }
}

/// The words of `s` joined by single spaces.
pub fn collapse_spaces_chars(s: &[char]) -> (r: Vec<char>)
    ensures
        r@ == collapse_spaces(s@),
{
    let mut r: Vec<char> = Vec::new();
    let mut any = false;
    let mut i: usize = 0;
    let ghost sep = seq![' '];
    while i < s.len()
        invariant
            i <= s@.len(),
            sep == seq![' '],
            r@ == join_with(words(s@.take(i as int)), sep),
            any == (words(s@.take(i as int)).len() > 0),
        decreases s@.len() - i,
    {
        let ghost prev = s@.take(i as int);
        let ghost w = words(prev);
        assert(s@.take(i + 1).drop_last() =~= prev);
        let c = s[i];
        if is_whitespace(c) {
        } else if i == 0 || is_whitespace(s[i - 1]) {
            if any {
                r.push(' ');
            }
            r.push(c);
            any = true;
            proof {
                let w2 = w.push(seq![c]);
                assert(w2.drop_last() =~= w);
                if w.len() == 0 {
                    assert(r@ =~= join_with(w2, sep));
                } else {
                    assert(r@ =~= join_with(w, sep) + sep + seq![c]);
                }
            }
        } else {
            proof {
                assert(prev.last() == s@[i - 1]);
                lemma_words_nonempty(prev);
                lemma_join_extend_last(w, sep, c);
            }
            r.push(c);
        }
        i = i + 1;
    }
    assert(s@.take(i as int) =~= s@);
    r
}

pub fn normalize_for_search_chars(s: &[char]) -> (r: Vec<char>)
    ensures
        r@ == normalize_for_search_model(s@),
{
    let n = normalize_arabic_chars(s);
    collapse_spaces_chars(n.as_slice())
}

/// Full normalization pipeline for search indexing and query processing.
///
/// Applies normalize_arabic and trims whitespace.
pub fn normalize_for_search(text: &str) -> (r: String)
    ensures
        r@ == normalize_for_search_model(text@),
        single_spaced(r@),
        all_normal(r@),
{
    let chars = chars_of(text);
    let r = normalize_for_search_chars(chars.as_slice());
    proof {
        lemma_normalized_shape(text@);
    }
    string_of(r.as_slice())
}

// ---------------------------------------------------------------------
// Shape of the search form, and idempotence
// ---------------------------------------------------------------------
/// Each word is non-empty and holds no whitespace.
pub open spec fn proper_words(w: Seq<Seq<char>>) -> bool {
    forall|k: int|
        0 <= k < w.len() ==> (#[trigger] w[k]).len() > 0 && forall|j: int|
            0 <= j < w[k].len() ==> !is_space(#[trigger] w[k][j])
}

proof fn lemma_words_proper(s: Seq<char>)
    ensures
        proper_words(words(s)),
        all_normal(s) ==> forall|k: int| 0 <= k < words(s).len() ==> all_normal(#[trigger] words(s)[k]),
    decreases s.len(),
{
    if s.len() > 0 {
        let p = s.drop_last();
        lemma_words_proper(p);
        if all_normal(s) {
            assert(all_normal(p)) by {
                assert forall|i: int| 0 <= i < p.len() implies is_normal_char(#[trigger] p[i]) by {
                    assert(p[i] == s[i]);
                }
            }
        }
        let w = words(p);
        let c = s.last();
        if !is_space(c) && !(s.len() == 1 || is_space(s[s.len() - 2])) {
            assert(p.last() == s[s.len() - 2]);
            lemma_words_nonempty(p);
            let u = w.update(w.len() - 1, w.last().push(c));
            assert forall|k: int| 0 <= k < u.len() implies (#[trigger] u[k]).len() > 0 && forall|
                j: int,
            | 0 <= j < u[k].len() ==> !is_space(#[trigger] u[k][j]) by {
                if k == w.len() - 1 {
                    assert forall|j: int| 0 <= j < u[k].len() implies !is_space(
                        #[trigger] u[k][j],
                    ) by {
                        if j < w.last().len() {
                            assert(u[k][j] == w[k][j]);
                        }
                    }
                }
            }
            if all_normal(s) {
                assert forall|k: int| 0 <= k < u.len() implies all_normal(#[trigger] u[k]) by {
                    if k == w.len() - 1 {
                        assert forall|j: int| 0 <= j < u[k].len() implies is_normal_char(
                            #[trigger] u[k][j],
                        ) by {
                            if j < w.last().len() {
                                assert(u[k][j] == w[k][j]);
                            } else {
                                assert(u[k][j] == s[s.len() - 1]);
                            }
                        }
                    }
                }
            }
        } else if !is_space(c) {
            let u = w.push(seq![c]);
            assert forall|k: int| 0 <= k < u.len() implies (#[trigger] u[k]).len() > 0 && forall|
                j: int,
            | 0 <= j < u[k].len() ==> !is_space(#[trigger] u[k][j]) by {
                if k < w.len() {
                    assert(u[k] == w[k]);
                }
            }
            if all_normal(s) {
                assert forall|k: int| 0 <= k < u.len() implies all_normal(#[trigger] u[k]) by {
                    if k < w.len() {
                        assert(u[k] == w[k]);
                    } else {
                        assert(u[k][0] == s[s.len() - 1]);
                    }
                }
            }
        }
    }
}

proof fn lemma_join_shape(w: Seq<Seq<char>>)
    requires
        proper_words(w),
    ensures
        single_spaced(join_with(w, seq![' '])),
        (forall|k: int| 0 <= k < w.len() ==> all_normal(#[trigger] w[k])) ==> all_normal(
            join_with(w, seq![' ']),
        ),
        w.len() > 0 ==> join_with(w, seq![' ']).len() > 0 && !is_space(
            join_with(w, seq![' ']).last(),
        ),
    decreases w.len(),
{
    if w.len() == 1 {
        assert(join_with(w, seq![' ']) == w[0]);
        assert(w[0].len() > 0);
        assert(!is_space(w[0][w[0].len() - 1]));
    } else if w.len() > 1 {
        let init = w.drop_last();
        assert(proper_words(init)) by {
            assert forall|k: int| 0 <= k < init.len() implies (#[trigger] init[k]).len() > 0
                && forall|j: int| 0 <= j < init[k].len() ==> !is_space(#[trigger] init[k][j]) by {
                assert(init[k] == w[k]);
            }
        }
        lemma_join_shape(init);
        let a = join_with(init, seq![' ']);
        let l = w.last();
        assert(l == w[w.len() - 1]);
        assert(l.len() > 0);
        let z = join_with(w, seq![' ']);
        assert(z == a + seq![' '] + l);
        assert forall|i: int| 0 <= i < z.len() && is_space(#[trigger] z[i]) implies z[i] == ' '
            && 0 < i && i + 1 < z.len() && !is_space(z[i - 1]) && !is_space(z[i + 1]) by {
            if i < a.len() {
                assert(z[i] == a[i]);
                if i + 1 < a.len() {
                    assert(z[i + 1] == a[i + 1]);
                }
                if i > 0 {
                    assert(z[i - 1] == a[i - 1]);
                }
            } else if i == a.len() {
                assert(z[i - 1] == a[a.len() - 1]);
                assert(z[i + 1] == l[0]);
                assert(!is_space(l[0]));
            } else {
                assert(z[i] == l[i - a.len() - 1]);
                assert(!is_space(l[i - a.len() - 1]));
            }
        }
        assert(z.last() == l[l.len() - 1]);
        assert(!is_space(l[l.len() - 1]));
        if forall|k: int| 0 <= k < w.len() ==> all_normal(#[trigger] w[k]) {
            assert forall|k: int| 0 <= k < init.len() implies all_normal(#[trigger] init[k]) by {
                assert(init[k] == w[k]);
            }
            assert(all_normal(l));
            assert forall|i: int| 0 <= i < z.len() implies is_normal_char(#[trigger] z[i]) by {
                if i < a.len() {
                    assert(z[i] == a[i]);
                } else if i > a.len() {
                    assert(z[i] == l[i - a.len() - 1]);
                }
            }
        }
    }
}

/// The search form of any text holds only normal characters (no tashkeel,
/// tatweel or foldable letter variant), and each whitespace character in it
/// is one plain space between two other characters.
pub proof fn lemma_normalized_shape(s: Seq<char>)
    ensures
        single_spaced(normalize_for_search_model(s)),
        all_normal(normalize_for_search_model(s)),
{
    lemma_normal_chars_of_model(s);
    let n = normalize_arabic_model(s);
    lemma_words_proper(n);
    lemma_join_shape(words(n));
}

proof fn lemma_normal_chars_of_model(s: Seq<char>)
    ensures
        all_normal(normalize_arabic_model(s)),
    decreases s.len(),
{
    if s.len() > 0 {
        lemma_normal_chars_of_model(s.drop_last());
        let c = s.last();
        if !(spec_is_tashkeel(c) || c == tatweel()) {
            lemma_normal_fold(c);
            let r = normalize_arabic_model(s.drop_last());
            assert forall|i: int| 0 <= i < r.push(fold_letter(c)).len() implies is_normal_char(
                #[trigger] r.push(fold_letter(c))[i],
            ) by {
                if i < r.len() {
                    assert(r.push(fold_letter(c))[i] == r[i]);
                }
            }
        }
    }
}

/// A text whose characters are all normal is its own normalization.
proof fn lemma_normalize_arabic_fixed(s: Seq<char>)
    requires
        all_normal(s),
    ensures
        normalize_arabic_model(s) == s,
    decreases s.len(),
{
    if s.len() > 0 {
        let p = s.drop_last();
        assert(all_normal(p)) by {
            assert forall|i: int| 0 <= i < p.len() implies is_normal_char(#[trigger] p[i]) by {
                assert(p[i] == s[i]);
            }
        }
        lemma_normalize_arabic_fixed(p);
        assert(is_normal_char(s[s.len() - 1]));
        assert(p.push(s.last()) =~= s);
    }
}

/// `words(z) is empty` exactly when `z` holds no non-whitespace character.
proof fn lemma_words_empty(z: Seq<char>)
    ensures
        (words(z).len() == 0) == (forall|i: int| 0 <= i < z.len() ==> is_space(#[trigger] z[i])),
    decreases z.len(),
{
    if z.len() > 0 {
        let p = z.drop_last();
        lemma_words_empty(p);
        if is_space(z.last()) {
            if words(z).len() == 0 {
                assert forall|i: int| 0 <= i < z.len() implies is_space(#[trigger] z[i]) by {
                    if i < p.len() {
                        assert(z[i] == p[i]);
                    }
                }
            } else {
                let i = choose|i: int| 0 <= i < p.len() && !is_space(#[trigger] p[i]);
                assert(z[i] == p[i]);
            }
        } else {
            lemma_words_nonempty(z);
            assert(!is_space(z[z.len() - 1]));
        }
    }
}

/// Collapsing a text in which every whitespace character is a plain space
/// with a non-whitespace character before it (and after it, unless it is
/// last) gives the text back, without a trailing space.
proof fn lemma_collapse_fixed(z: Seq<char>)
    requires
        forall|i: int|
            0 <= i < z.len() && is_space(#[trigger] z[i]) ==> z[i] == ' ' && 0 < i && !is_space(
                z[i - 1],
            ) && (i + 1 < z.len() ==> !is_space(z[i + 1])),
    ensures
        collapse_spaces(z) == if z.len() > 0 && is_space(z.last()) {
            z.drop_last()
        } else {
            z
        },
    decreases z.len(),
{
    let sep = seq![' '];
    if z.len() > 0 {
        let p = z.drop_last();
        assert forall|i: int|
            0 <= i < p.len() && is_space(#[trigger] p[i]) implies p[i] == ' ' && 0 < i
            && !is_space(p[i - 1]) && (i + 1 < p.len() ==> !is_space(p[i + 1])) by {
            assert(p[i] == z[i]);
            assert(p[i - 1] == z[i - 1]);
            if i + 1 < p.len() {
                assert(p[i + 1] == z[i + 1]);
            }
        }
        lemma_collapse_fixed(p);
        let c = z.last();
        let w = words(p);
        if is_space(c) {
            assert(z[z.len() - 1] == c);
            assert(p.len() > 0 && p.last() == z[z.len() - 2]);
        } else if z.len() == 1 || is_space(z[z.len() - 2]) {
            if z.len() == 1 {
                assert(p.len() == 0);
                assert(join_with(w.push(seq![c]), sep) =~= z);
            } else {
                assert(p.last() == z[z.len() - 2]);
                assert(p.last() == ' ');
                // p starts with a non-whitespace character
                assert(!is_space(p[0])) by {
                    if is_space(z[0]) {
                        assert(0 < 0);
                    }
                }
                lemma_words_empty(p);
                assert(w.len() > 0);
                let w2 = w.push(seq![c]);
                assert(w2.drop_last() =~= w);
                assert(join_with(w2, sep) == join_with(w, sep) + sep + seq![c]);
                assert(p.drop_last() + sep + seq![c] =~= z);
            }
        } else {
            assert(p.last() == z[z.len() - 2]);
            lemma_words_nonempty(p);
            lemma_join_extend_last(w, sep, c);
            assert(p.push(c) =~= z);
        }
    }
}

/// Normalizing a search form again gives it back.
pub proof fn lemma_normalize_for_search_idempotent(s: Seq<char>)
    ensures
        normalize_for_search_model(normalize_for_search_model(s)) == normalize_for_search_model(
            s,
        ),
{
    let z = normalize_for_search_model(s);
    lemma_normalized_shape(s);
    lemma_normalize_arabic_fixed(z);
    assert forall|i: int|
        0 <= i < z.len() && is_space(#[trigger] z[i]) implies z[i] == ' ' && 0 < i && !is_space(
        z[i - 1],
    ) && (i + 1 < z.len() ==> !is_space(z[i + 1])) by {}
    lemma_collapse_fixed(z);
    if z.len() > 0 {
        assert(!is_space(z[z.len() - 1])) by {
            if is_space(z[z.len() - 1]) {
                assert(z.len() - 1 + 1 < z.len());
            }
        }
    }
}

// ---------------------------------------------------------------------
// Definite article and prefixes
// ---------------------------------------------------------------------
/// The definite article `ال`.
pub open spec fn article() -> Seq<char> {
    seq!['\u{0627}', '\u{0644}']
}

/// `w` trimmed, without a leading `ال` when something follows it.
pub open spec fn strip_article_model(w: Seq<char>) -> Seq<char> {
    let t = trim(w);
    if article().is_prefix_of(t) && t.len() > 2 {
        t.skip(2)
    } else {
        t
    }
}

pub fn strip_article_chars(w: &[char]) -> (r: Vec<char>)
    ensures
        r@ == strip_article_model(w@),
{
    let t = trim_chars(w);
    if t.len() > 2 && t[0] == '\u{0627}' && t[1] == '\u{0644}' {
        assert(article().is_prefix_of(t@));
        sub_chars(t.as_slice(), 2, t.len())
    } else {
        proof {
            if article().is_prefix_of(t@) && t@.len() > 2 {
                assert(t@[0] == article()[0] && t@[1] == article()[1]);
            }
        }
        t
    }
}

/// Strip the Arabic definite article (ال) from the beginning of a word.
pub fn strip_definite_article(word: &str) -> (r: String)
    ensures
        r@ == strip_article_model(word@),
{
    let chars = chars_of(word);
    string_of(strip_article_chars(chars.as_slice()).as_slice())
}

/// Common Arabic prefixes that attach before the definite article or words,
/// in the order in which they are tried:
/// وال، فال، بال، كال، لل، و، ف، ب، ك، ل.
pub open spec fn prefix_at(k: int) -> Seq<char> {
    if k == 0 {
        seq!['\u{0648}', '\u{0627}', '\u{0644}']
    } else if k == 1 {
        seq!['\u{0641}', '\u{0627}', '\u{0644}']
    } else if k == 2 {
        seq!['\u{0628}', '\u{0627}', '\u{0644}']
    } else if k == 3 {
        seq!['\u{0643}', '\u{0627}', '\u{0644}']
    } else if k == 4 {
        seq!['\u{0644}', '\u{0644}']
    } else if k == 5 {
        seq!['\u{0648}']
    } else if k == 6 {
        seq!['\u{0641}']
    } else if k == 7 {
        seq!['\u{0628}']
    } else if k == 8 {
        seq!['\u{0643}']
    } else {
        seq!['\u{0644}']
    }
}

/// The number of prefixes.
pub open spec fn prefix_count() -> int {
    10
}

fn prefix_chars(k: usize) -> (r: Vec<char>)
    requires
        k < 10,
    ensures
        r@ == prefix_at(k as int),
{
    let r = if k == 0 {
        vec!['\u{0648}', '\u{0627}', '\u{0644}']
    } else if k == 1 {
        vec!['\u{0641}', '\u{0627}', '\u{0644}']
    } else if k == 2 {
        vec!['\u{0628}', '\u{0627}', '\u{0644}']
    } else if k == 3 {
        vec!['\u{0643}', '\u{0627}', '\u{0644}']
    } else if k == 4 {
        vec!['\u{0644}', '\u{0644}']
    } else if k == 5 {
        vec!['\u{0648}']
    } else if k == 6 {
        vec!['\u{0641}']
    } else if k == 7 {
        vec!['\u{0628}']
    } else if k == 8 {
        vec!['\u{0643}']
    } else {
        vec!['\u{0644}']
    };
    assert(r@ =~= prefix_at(k as int));
    r
}

/// The prefixes وال، فال، بال، كال: a conjunction or preposition followed
/// by the article.
pub open spec fn keeps_article(k: int) -> bool {
    0 <= k < 4
}

/// What removing a prefix adds to the candidates `c`, for the remainder `r`:
/// `r` unless already present, followed by `r` without its article when that
/// differs and is not present either.
pub open spec fn step_items(c: Seq<Seq<char>>, r: Seq<char>) -> Seq<Seq<char>> {
    if c.contains(r) {
        Seq::empty()
    } else {
        let wa = strip_article_model(r);
        if wa != r && !c.push(r).contains(wa) {
            seq![r, wa]
        } else {
            seq![r]
        }
    }
}

/// One prefix step: when `word` starts with `p` and is longer than it, the
/// items of its remainder are added. For a prefix that ends in the article,
/// the items of the remainder with the article kept (judged against the
/// candidates together with the remainder's own items) come first, and the
/// remainder's own items follow them.
pub open spec fn expand_step(c: Seq<Seq<char>>, word: Seq<char>, p: Seq<char>, with_article: bool) -> Seq<
    Seq<char>,
> {
    if p.is_prefix_of(word) && word.len() > p.len() {
        let rem = word.skip(p.len() as int);
        let own = step_items(c, rem);
        if with_article {
            c + step_items(c + own, article() + rem) + own
        } else {
            c + own
        }
    } else {
        c
    }
}

/// The candidates after trying the first `k` prefixes.
pub open spec fn expand_upto(word: Seq<char>, k: int) -> Seq<Seq<char>>
    decreases k,
{
    if k <= 0 {
        seq![word]
    } else {
        expand_step(expand_upto(word, k - 1), word, prefix_at(k - 1), keeps_article(k - 1))
    }
}

/// The search candidates of a word: the word itself, then for each attached
/// prefix the forms with it removed (keeping the article first, where the
/// prefix ends in it, then without it), then the word without its article.
pub open spec fn expand_model(word: Seq<char>) -> Seq<Seq<char>> {
    let c = expand_upto(word, prefix_count());
    let wa = strip_article_model(word);
    if wa != word && !c.contains(wa) {
        c.push(wa)
    } else {
        c
    }
}

proof fn lemma_push_fresh(c: Seq<Seq<char>>, x: Seq<char>)
    requires
        c.no_duplicates(),
        !c.contains(x),
    ensures
        c.push(x).no_duplicates(),
        forall|i: int| 0 <= i < c.len() ==> c.push(x)[i] == c[i],
{
    assert forall|i: int, j: int|
        0 <= i < c.push(x).len() && 0 <= j < c.push(x).len() && i != j implies c.push(x)[i]
        != c.push(x)[j] by {
        if i < c.len() && j < c.len() {
        } else if i < c.len() {
            assert(c.push(x)[i] == c[i]);
        } else if j < c.len() {
            assert(c.push(x)[j] == c[j]);
        }
    }
}

fn push_candidate(c: &mut Vec<Vec<char>>, x: Vec<char>)
    requires
        seqs_of(old(c)@).no_duplicates(),
        !seqs_of(old(c)@).contains(x@),
    ensures
        seqs_of(final(c)@) == seqs_of(old(c)@).push(x@),
        seqs_of(final(c)@).no_duplicates(),
{
    proof {
        lemma_push_fresh(seqs_of(c@), x@);
    }
    c.push(x);
    assert(seqs_of(c@) =~= seqs_of(old(c)@).push(x@));
}

proof fn lemma_concat_contains(a: Seq<Seq<char>>, b: Seq<Seq<char>>, x: Seq<char>)
    ensures
        (a + b).contains(x) <==> (a.contains(x) || b.contains(x)),
{
    if (a + b).contains(x) {
        let i = choose|i: int| 0 <= i < (a + b).len() && (a + b)[i] == x;
        if i < a.len() {
            assert(a[i] == x);
        } else {
            assert(b[i - a.len()] == x);
        }
    }
    if a.contains(x) {
        let i = choose|i: int| 0 <= i < a.len() && a[i] == x;
        assert((a + b)[i] == x);
    }
    if b.contains(x) {
        let i = choose|i: int| 0 <= i < b.len() && b[i] == x;
        assert((a + b)[a.len() + i] == x);
    }
}

proof fn lemma_step_items_fresh(c: Seq<Seq<char>>, r: Seq<char>)
    ensures
        step_items(c, r).no_duplicates(),
        forall|i: int| 0 <= i < step_items(c, r).len() ==> !c.contains(#[trigger] step_items(c, r)[i]),
{
    if !c.contains(r) {
        let wa = strip_article_model(r);
        if wa != r && !c.push(r).contains(wa) {
            assert(!c.contains(wa)) by {
                if c.contains(wa) {
                    let i = choose|i: int| 0 <= i < c.len() && c[i] == wa;
                    assert(c.push(r)[i] == wa);
                }
            }
        }
    }
}

fn step_items_of(c: &Vec<Vec<char>>, extra: &Vec<Vec<char>>, r: &[char]) -> (items: Vec<Vec<char>>)
    ensures
        seqs_of(items@) == step_items(seqs_of(c@) + seqs_of(extra@), r@),
{
    let ghost all = seqs_of(c@) + seqs_of(extra@);
    proof {
        lemma_concat_contains(seqs_of(c@), seqs_of(extra@), r@);
    }
    let mut items: Vec<Vec<char>> = Vec::new();
    if list_contains(c, r) || list_contains(extra, r) {
        assert(seqs_of(items@) =~= Seq::<Seq<char>>::empty());
        return items;
    }
    let without_al = strip_article_chars(r);
    let differs = !same_chars(without_al.as_slice(), r);
    let fresh = differs && !list_contains(c, without_al.as_slice()) && !list_contains(
        extra,
        without_al.as_slice(),
    );
    proof {
        lemma_concat_contains(seqs_of(c@), seqs_of(extra@), without_al@);
        lemma_concat_contains(all, seq![r@], without_al@);
        assert(all.push(r@) =~= all + seq![r@]);
        assert(seq![r@].contains(without_al@) ==> without_al@ == r@) by {
            if seq![r@].contains(without_al@) {
                let i = choose|i: int| 0 <= i < 1 && seq![r@][i] == without_al@;
            }
        }
        assert(without_al@ == r@ ==> seq![r@].contains(without_al@)) by {
            if without_al@ == r@ {
                assert(seq![r@][0] == without_al@);
            }
        }
    }
    items.push(copy_chars(r));
    if fresh {
        items.push(without_al);
        assert(seqs_of(items@) =~= seq![r@, strip_article_model(r@)]);
    } else {
        assert(seqs_of(items@) =~= seq![r@]);
    }
    items
}

fn push_items(c: &mut Vec<Vec<char>>, items: &Vec<Vec<char>>)
    requires
        seqs_of(old(c)@).no_duplicates(),
        seqs_of(items@).no_duplicates(),
        forall|i: int|
            0 <= i < items@.len() ==> !seqs_of(old(c)@).contains(#[trigger] seqs_of(items@)[i]),
    ensures
        seqs_of(final(c)@) == seqs_of(old(c)@) + seqs_of(items@),
        seqs_of(final(c)@).no_duplicates(),
{
    let ghost start = seqs_of(c@);
    let mut i: usize = 0;
    while i < items.len()
        invariant
            i <= items@.len(),
            seqs_of(c@) == start + seqs_of(items@).take(i as int),
            seqs_of(c@).no_duplicates(),
            start.no_duplicates(),
            seqs_of(items@).no_duplicates(),
            forall|j: int| 0 <= j < items@.len() ==> !start.contains(#[trigger] seqs_of(items@)[j]),
        decreases items@.len() - i,
    {
        let x = copy_chars(items[i].as_slice());
        let ghost done = seqs_of(items@).take(i as int);
        proof {
            assert(x@ == seqs_of(items@)[i as int]);
            lemma_concat_contains(start, done, x@);
            if done.contains(x@) {
                let j = choose|j: int| 0 <= j < done.len() && done[j] == x@;
                assert(seqs_of(items@)[j] == seqs_of(items@)[i as int]);
            }
        }
        push_candidate(c, x);
        i = i + 1;
        assert(seqs_of(items@).take(i as int) =~= done.push(x@));
        assert(seqs_of(c@) =~= start + seqs_of(items@).take(i as int));
    }
    assert(seqs_of(items@).take(i as int) =~= seqs_of(items@));
}

proof fn lemma_step_extends(c: Seq<Seq<char>>, word: Seq<char>, p: Seq<char>, with_article: bool)
    ensures
        expand_step(c, word, p, with_article).len() >= c.len(),
        forall|i: int| 0 <= i < c.len() ==> #[trigger] expand_step(c, word, p, with_article)[i] == c[i],
{
}

proof fn lemma_upto_extends(word: Seq<char>, j: int, k: int)
    requires
        0 <= j <= k,
    ensures
        expand_upto(word, k).len() >= expand_upto(word, j).len(),
        forall|i: int|
            0 <= i < expand_upto(word, j).len() ==> #[trigger] expand_upto(word, k)[i]
                == expand_upto(word, j)[i],
    decreases k - j,
{
    if j < k {
        lemma_upto_extends(word, j, k - 1);
        lemma_step_extends(expand_upto(word, k - 1), word, prefix_at(k - 1), keeps_article(k - 1));
    }
}

proof fn lemma_model_has_upto(word: Seq<char>, x: Seq<char>)
    requires
        expand_upto(word, prefix_count()).contains(x),
    ensures
        expand_model(word).contains(x),
{
    let c = expand_upto(word, prefix_count());
    let i = choose|i: int| 0 <= i < c.len() && c[i] == x;
    assert(expand_model(word)[i] == x);
}

/// After the step of prefix `k`, when the word starts with that prefix and
/// is longer, its remainder is a candidate, and so is the remainder with the
/// article kept for a prefix that ends in the article.
proof fn lemma_step_adds_remainder(word: Seq<char>, k: int)
    requires
        0 <= k < prefix_count(),
        prefix_at(k).is_prefix_of(word),
        word.len() > prefix_at(k).len(),
    ensures
        expand_model(word).contains(word.skip(prefix_at(k).len() as int)),
        keeps_article(k) ==> expand_model(word).contains(
            article() + word.skip(prefix_at(k).len() as int),
        ),
{
    let r = word.skip(prefix_at(k).len() as int);
    let c = expand_upto(word, k);
    let own = step_items(c, r);
    let after = expand_upto(word, k + 1);
    assert(after == expand_step(c, word, prefix_at(k), keeps_article(k)));
    let base = if keeps_article(k) {
        c + step_items(c + own, article() + r)
    } else {
        c
    };
    assert(after == base + own);
    lemma_upto_extends(word, k + 1, prefix_count());
    lemma_concat_contains(c, own, r);
    if c.contains(r) {
        let i = choose|i: int| 0 <= i < c.len() && c[i] == r;
        assert(after[i] == r);
        assert(expand_upto(word, prefix_count())[i] == r);
    } else {
        assert(own[0] == r);
        assert(after[base.len() as int] == r);
        assert(expand_upto(word, prefix_count())[base.len() as int] == r);
    }
    lemma_model_has_upto(word, r);
    if keeps_article(k) {
        let full = article() + r;
        let kept = step_items(c + own, full);
        lemma_concat_contains(c + own, kept, full);
        if (c + own).contains(full) {
            lemma_concat_contains(c, own, full);
            if c.contains(full) {
                let i = choose|i: int| 0 <= i < c.len() && c[i] == full;
                assert(after[i] == full);
                assert(expand_upto(word, prefix_count())[i] == full);
            } else {
                let i = choose|i: int| 0 <= i < own.len() && own[i] == full;
                assert(after[base.len() + i] == full);
                assert(expand_upto(word, prefix_count())[base.len() + i] == full);
            }
        } else {
            assert(kept[0] == full);
            assert(after[c.len() as int] == full);
            assert(expand_upto(word, prefix_count())[c.len() as int] == full);
        }
        lemma_model_has_upto(word, full);
    }
}

/// Every attached prefix is recognised: for each of و، ف، ب، ك، ل، لل and
/// وال، فال، بال، كال, a word made of the prefix and a non-empty remainder
/// has the remainder among its candidates (قال for وقال); for the prefixes
/// that end in the article, the remainder with the article kept is one too
/// (الصلاة for والصلاة).
pub proof fn lemma_prefix_remainder_is_candidate(p: Seq<char>, r: Seq<char>)
    requires
        r.len() > 0,
        p == seq!['\u{0648}'] || p == seq!['\u{0641}'] || p == seq!['\u{0628}'] || p == seq![
            '\u{0643}',
        ] || p == seq!['\u{0644}'] || p == seq!['\u{0644}', '\u{0644}'] || p == seq![
            '\u{0648}',
            '\u{0627}',
            '\u{0644}',
        ] || p == seq!['\u{0641}', '\u{0627}', '\u{0644}'] || p == seq![
            '\u{0628}',
            '\u{0627}',
            '\u{0644}',
        ] || p == seq!['\u{0643}', '\u{0627}', '\u{0644}'],
    ensures
        expand_model(p + r).contains(r),
        p.len() == 3 ==> expand_model(p + r).contains(seq!['\u{0627}', '\u{0644}'] + r),
{
    let word = p + r;
    let k: int = if p == seq!['\u{0648}', '\u{0627}', '\u{0644}'] {
        0
    } else if p == seq!['\u{0641}', '\u{0627}', '\u{0644}'] {
        1
    } else if p == seq!['\u{0628}', '\u{0627}', '\u{0644}'] {
        2
    } else if p == seq!['\u{0643}', '\u{0627}', '\u{0644}'] {
        3
    } else if p == seq!['\u{0644}', '\u{0644}'] {
        4
    } else if p == seq!['\u{0648}'] {
        5
    } else if p == seq!['\u{0641}'] {
        6
    } else if p == seq!['\u{0628}'] {
        7
    } else if p == seq!['\u{0643}'] {
        8
    } else {
        9
    };
    assert(prefix_at(k) =~= p);
    assert(p.is_prefix_of(word)) by {
        assert(word.subrange(0, p.len() as int) =~= p);
    }
    assert(word.skip(p.len() as int) =~= r);
    lemma_step_adds_remainder(word, k);
    assert(article() =~= seq!['\u{0627}', '\u{0644}']);
}

/// Expand common Arabic prefixes to generate search candidates.
///
/// The first candidate is the word itself and no candidate occurs twice.
pub fn expand_prefix_chars(word: &[char]) -> (r: Vec<Vec<char>>)
    ensures
        seqs_of(r@) == expand_model(word@),
        seqs_of(r@).no_duplicates(),
        seqs_of(r@).len() > 0 && seqs_of(r@)[0] == word@,
{
    let mut candidates: Vec<Vec<char>> = Vec::new();
    candidates.push(copy_chars(word));
    assert(seqs_of(candidates@) =~= seq![word@]);
    let mut k: usize = 0;
    while k < 10
        invariant
            k <= 10,
            seqs_of(candidates@) == expand_upto(word@, k as int),
            seqs_of(candidates@).no_duplicates(),
            seqs_of(candidates@).len() > 0 && seqs_of(candidates@)[0] == word@,
        decreases 10 - k,
    {
        let ghost before = seqs_of(candidates@);
        let prefix = prefix_chars(k);
        if starts_with_chars(word, prefix.as_slice()) && word.len() > prefix.len() {
            let remainder = sub_chars(word, prefix.len(), word.len());
            assert(remainder@ == word@.skip(prefix@.len() as int));
            let none: Vec<Vec<char>> = Vec::new();
            let own = step_items_of(&candidates, &none, remainder.as_slice());
            assert(before + seqs_of(none@) =~= before);
            proof {
                lemma_step_items_fresh(before, remainder@);
            }
            if k < 4 {
                let mut full = vec!['\u{0627}', '\u{0644}'];
                push_all(&mut full, remainder.as_slice());
                assert(full@ =~= article() + remainder@);
                let kept = step_items_of(&candidates, &own, full.as_slice());
                let ghost with_own = before + seqs_of(own@);
                proof {
                    lemma_step_items_fresh(with_own, full@);
                    assert forall|i: int| 0 <= i < kept@.len() implies !before.contains(
                        #[trigger] seqs_of(kept@)[i],
                    ) by {
                        lemma_concat_contains(before, seqs_of(own@), seqs_of(kept@)[i]);
                    }
                }
                push_items(&mut candidates, &kept);
                proof {
                    assert forall|i: int| 0 <= i < own@.len() implies !(before + seqs_of(
                        kept@,
                    )).contains(#[trigger] seqs_of(own@)[i]) by {
                        let x = seqs_of(own@)[i];
                        lemma_concat_contains(before, seqs_of(kept@), x);
                        if seqs_of(kept@).contains(x) {
                            let j = choose|j: int|
                                0 <= j < seqs_of(kept@).len() && seqs_of(kept@)[j] == x;
                            lemma_concat_contains(before, seqs_of(own@), x);
                            assert(seqs_of(own@)[i] == x);
                        }
                    }
                }
                push_items(&mut candidates, &own);
            } else {
                push_items(&mut candidates, &own);
            }
        }
        k = k + 1;
        assert(seqs_of(candidates@) == expand_step(before, word@, prefix_at(k - 1), keeps_article(k - 1)));
    }
    let without_al = strip_article_chars(word);
    if !same_chars(without_al.as_slice(), word) && !list_contains(&candidates, without_al.as_slice()) {
        push_candidate(&mut candidates, without_al);
    }
    candidates
}

/// Expand common Arabic prefixes to generate search candidates.
///
/// Given a prefixed word like "والصلاة", returns the base forms:
/// ["والصلاة", "الصلاة", "صلاة"]. The first candidate is the word and no
/// candidate occurs twice.
pub fn expand_prefixes(word: &str) -> (r: Vec<String>)
    ensures
        views_of(r@) == expand_model(word@),
        views_of(r@).no_duplicates(),
        r@.len() > 0 && r@[0]@ == word@,
{
    let chars = chars_of(word);
    let c = expand_prefix_chars(chars.as_slice());
    let r = strings_of(&c);
    assert(views_of(r@)[0] == r@[0]@);
    r
}

/// A text that is already in search form (only normal characters, single
/// spaces between words, none at either end) is its own search form.
pub proof fn lemma_search_form_fixed(v: Seq<char>)
    requires
        all_normal(v),
        single_spaced(v),
    ensures
        normalize_for_search_model(v) == v,
{
    lemma_normalize_arabic_fixed(v);
    assert forall|i: int|
        0 <= i < v.len() && is_space(#[trigger] v[i]) implies v[i] == ' ' && 0 < i && !is_space(
        v[i - 1],
    ) && (i + 1 < v.len() ==> !is_space(v[i + 1])) by {}
    lemma_collapse_fixed(v);
    if v.len() > 0 && is_space(v.last()) {
        assert(is_space(v[v.len() - 1]));
    }
}

/// Normalizing an already normalized text changes nothing.
pub proof fn lemma_normalize_arabic_idempotent(s: Seq<char>)
    ensures
        normalize_arabic_model(normalize_arabic_model(s)) == normalize_arabic_model(s),
{
    lemma_normal_chars_of_model(s);
    lemma_normalize_arabic_fixed(normalize_arabic_model(s));
}

proof fn lemma_expand_upto_unchanged(word: Seq<char>, k: int)
    requires
        0 <= k <= prefix_count(),
        forall|j: int|
            0 <= j < prefix_count() ==> !(#[trigger] prefix_at(j)).is_prefix_of(word) || word.len()
                <= prefix_at(j).len(),
    ensures
        expand_upto(word, k) == seq![word],
    decreases k,
{
    if k > 0 {
        lemma_expand_upto_unchanged(word, k - 1);
        assert(!prefix_at(k - 1).is_prefix_of(word) || word.len() <= prefix_at(k - 1).len());
    }
}

/// A word that starts with none of the prefixes (or is no longer than the
/// prefix it starts with) and has no article to strip is its only candidate.
pub proof fn lemma_expand_without_prefix(word: Seq<char>)
    requires
        forall|j: int|
            0 <= j < prefix_count() ==> !(#[trigger] prefix_at(j)).is_prefix_of(word) || word.len()
                <= prefix_at(j).len(),
        strip_article_model(word) == word,
    ensures
        expand_model(word) == seq![word],
{
    lemma_expand_upto_unchanged(word, prefix_count());
}

} // verus!
