//! Buckwalter transliteration and the root/lemma index of the Quranic
//! Arabic Corpus: which lemmas derive from a root, and which root a lemma
//! belongs to.
use vstd::prelude::*;

use crate::normalize::{
    normalize_for_search_chars, normalize_for_search_model, spec_is_tashkeel, strip_tashkeel_model,
    tatweel,
};
use crate::text::{chars_of, seqs_of, string_of, strings_of, views_of};

verus! {

/// Buckwalter transliteration → Arabic mapping, letters and diacritics.
pub open spec fn bw_to_ar(c: char) -> Option<char> {
    if c == '\'' { Some('\u{0621}') }
    else if c == '|' { Some('\u{0622}') }
    else if c == '>' { Some('\u{0623}') }
    else if c == '&' { Some('\u{0624}') }
    else if c == '<' { Some('\u{0625}') }
    else if c == '}' { Some('\u{0626}') }
    else if c == 'A' { Some('\u{0627}') }
    else if c == 'b' { Some('\u{0628}') }
    else if c == 'p' { Some('\u{0629}') }
    else if c == 't' { Some('\u{062A}') }
    else if c == 'v' { Some('\u{062B}') }
    else if c == 'j' { Some('\u{062C}') }
    else if c == 'H' { Some('\u{062D}') }
    else if c == 'x' { Some('\u{062E}') }
    else if c == 'd' { Some('\u{062F}') }
    else if c == '*' { Some('\u{0630}') }
    else if c == 'r' { Some('\u{0631}') }
    else if c == 'z' { Some('\u{0632}') }
    else if c == 's' { Some('\u{0633}') }
    else if c == '$' { Some('\u{0634}') }
    else if c == 'S' { Some('\u{0635}') }
    else if c == 'D' { Some('\u{0636}') }
    else if c == 'T' { Some('\u{0637}') }
    else if c == 'Z' { Some('\u{0638}') }
    else if c == 'E' { Some('\u{0639}') }
    else if c == 'g' { Some('\u{063A}') }
    else if c == 'f' { Some('\u{0641}') }
    else if c == 'q' { Some('\u{0642}') }
    else if c == 'k' { Some('\u{0643}') }
    else if c == 'l' { Some('\u{0644}') }
    else if c == 'm' { Some('\u{0645}') }
    else if c == 'n' { Some('\u{0646}') }
    else if c == 'h' { Some('\u{0647}') }
    else if c == 'w' { Some('\u{0648}') }
    else if c == 'Y' { Some('\u{0649}') }
    else if c == 'y' { Some('\u{064A}') }
    else if c == '~' { Some('\u{0651}') }
    else if c == '`' { Some('\u{0670}') }
    else if c == '{' { Some('\u{0671}') }
    else if c == 'o' { Some('\u{0652}') }
    else if c == 'a' { Some('\u{064E}') }
    else if c == 'u' { Some('\u{064F}') }
    else if c == 'i' { Some('\u{0650}') }
    else if c == 'F' { Some('\u{064B}') }
    else if c == 'N' { Some('\u{064C}') }
    else if c == 'K' { Some('\u{064D}') }
    else if c == '^' { Some('\u{0653}') }
    else if c == '#' { Some('\u{0654}') }
    else { None }
}

/// Arabic → Buckwalter for the letters of the table (not its diacritics);
/// any other character is kept.
pub open spec fn ar_to_bw(c: char) -> char {
    if c == '\u{0621}' { '\'' }
    else if c == '\u{0622}' { '|' }
    else if c == '\u{0623}' { '>' }
    else if c == '\u{0624}' { '&' }
    else if c == '\u{0625}' { '<' }
    else if c == '\u{0626}' { '}' }
    else if c == '\u{0627}' { 'A' }
    else if c == '\u{0628}' { 'b' }
    else if c == '\u{0629}' { 'p' }
    else if c == '\u{062A}' { 't' }
    else if c == '\u{062B}' { 'v' }
    else if c == '\u{062C}' { 'j' }
    else if c == '\u{062D}' { 'H' }
    else if c == '\u{062E}' { 'x' }
    else if c == '\u{062F}' { 'd' }
    else if c == '\u{0630}' { '*' }
    else if c == '\u{0631}' { 'r' }
    else if c == '\u{0632}' { 'z' }
    else if c == '\u{0633}' { 's' }
    else if c == '\u{0634}' { '$' }
    else if c == '\u{0635}' { 'S' }
    else if c == '\u{0636}' { 'D' }
    else if c == '\u{0637}' { 'T' }
    else if c == '\u{0638}' { 'Z' }
    else if c == '\u{0639}' { 'E' }
    else if c == '\u{063A}' { 'g' }
    else if c == '\u{0641}' { 'f' }
    else if c == '\u{0642}' { 'q' }
    else if c == '\u{0643}' { 'k' }
    else if c == '\u{0644}' { 'l' }
    else if c == '\u{0645}' { 'm' }
    else if c == '\u{0646}' { 'n' }
    else if c == '\u{0647}' { 'h' }
    else if c == '\u{0648}' { 'w' }
    else if c == '\u{0649}' { 'Y' }
    else if c == '\u{064A}' { 'y' }
    else if c == '\u{0671}' { '{' }
    else { c }
}

/// The Arabic letters that have a Buckwalter letter.
pub open spec fn is_table_letter(c: char) -> bool {
    ('\u{0621}' <= c && c <= '\u{063A}') || ('\u{0641}' <= c && c <= '\u{064A}') || c == '\u{0671}'
}

fn bw_to_ar_char(c: char) -> (r: Option<char>)
    ensures
        r == bw_to_ar(c),
{
    if c == '\'' { Some('\u{0621}') }
    else if c == '|' { Some('\u{0622}') }
    else if c == '>' { Some('\u{0623}') }
    else if c == '&' { Some('\u{0624}') }
    else if c == '<' { Some('\u{0625}') }
    else if c == '}' { Some('\u{0626}') }
    else if c == 'A' { Some('\u{0627}') }
    else if c == 'b' { Some('\u{0628}') }
    else if c == 'p' { Some('\u{0629}') }
    else if c == 't' { Some('\u{062A}') }
    else if c == 'v' { Some('\u{062B}') }
    else if c == 'j' { Some('\u{062C}') }
    else if c == 'H' { Some('\u{062D}') }
    else if c == 'x' { Some('\u{062E}') }
    else if c == 'd' { Some('\u{062F}') }
    else if c == '*' { Some('\u{0630}') }
    else if c == 'r' { Some('\u{0631}') }
    else if c == 'z' { Some('\u{0632}') }
    else if c == 's' { Some('\u{0633}') }
    else if c == '$' { Some('\u{0634}') }
    else if c == 'S' { Some('\u{0635}') }
    else if c == 'D' { Some('\u{0636}') }
    else if c == 'T' { Some('\u{0637}') }
    else if c == 'Z' { Some('\u{0638}') }
    else if c == 'E' { Some('\u{0639}') }
    else if c == 'g' { Some('\u{063A}') }
    else if c == 'f' { Some('\u{0641}') }
    else if c == 'q' { Some('\u{0642}') }
    else if c == 'k' { Some('\u{0643}') }
    else if c == 'l' { Some('\u{0644}') }
    else if c == 'm' { Some('\u{0645}') }
    else if c == 'n' { Some('\u{0646}') }
    else if c == 'h' { Some('\u{0647}') }
    else if c == 'w' { Some('\u{0648}') }
    else if c == 'Y' { Some('\u{0649}') }
    else if c == 'y' { Some('\u{064A}') }
    else if c == '~' { Some('\u{0651}') }
    else if c == '`' { Some('\u{0670}') }
    else if c == '{' { Some('\u{0671}') }
    else if c == 'o' { Some('\u{0652}') }
    else if c == 'a' { Some('\u{064E}') }
    else if c == 'u' { Some('\u{064F}') }
    else if c == 'i' { Some('\u{0650}') }
    else if c == 'F' { Some('\u{064B}') }
    else if c == 'N' { Some('\u{064C}') }
    else if c == 'K' { Some('\u{064D}') }
    else if c == '^' { Some('\u{0653}') }
    else if c == '#' { Some('\u{0654}') }
    else { None }
}

fn ar_to_bw_char(c: char) -> (r: char)
    ensures
        r == ar_to_bw(c),
{
    if c == '\u{0621}' { '\'' }
    else if c == '\u{0622}' { '|' }
    else if c == '\u{0623}' { '>' }
    else if c == '\u{0624}' { '&' }
    else if c == '\u{0625}' { '<' }
    else if c == '\u{0626}' { '}' }
    else if c == '\u{0627}' { 'A' }
    else if c == '\u{0628}' { 'b' }
    else if c == '\u{0629}' { 'p' }
    else if c == '\u{062A}' { 't' }
    else if c == '\u{062B}' { 'v' }
    else if c == '\u{062C}' { 'j' }
    else if c == '\u{062D}' { 'H' }
    else if c == '\u{062E}' { 'x' }
    else if c == '\u{062F}' { 'd' }
    else if c == '\u{0630}' { '*' }
    else if c == '\u{0631}' { 'r' }
    else if c == '\u{0632}' { 'z' }
    else if c == '\u{0633}' { 's' }
    else if c == '\u{0634}' { '$' }
    else if c == '\u{0635}' { 'S' }
    else if c == '\u{0636}' { 'D' }
    else if c == '\u{0637}' { 'T' }
    else if c == '\u{0638}' { 'Z' }
    else if c == '\u{0639}' { 'E' }
    else if c == '\u{063A}' { 'g' }
    else if c == '\u{0641}' { 'f' }
    else if c == '\u{0642}' { 'q' }
    else if c == '\u{0643}' { 'k' }
    else if c == '\u{0644}' { 'l' }
    else if c == '\u{0645}' { 'm' }
    else if c == '\u{0646}' { 'n' }
    else if c == '\u{0647}' { 'h' }
    else if c == '\u{0648}' { 'w' }
    else if c == '\u{0649}' { 'Y' }
    else if c == '\u{064A}' { 'y' }
    else if c == '\u{0671}' { '{' }
    else { c }
}

/// Arabic → Buckwalter: tashkeel and tatweel are dropped, table letters are
/// transliterated, other characters kept.
pub open spec fn arabic_to_buckwalter_model(s: Seq<char>) -> Seq<char>
    decreases s.len(),
{
    if s.len() == 0 {
        s
    } else if spec_is_tashkeel(s.last()) || s.last() == tatweel() {
        arabic_to_buckwalter_model(s.drop_last())
    } else {
        arabic_to_buckwalter_model(s.drop_last()).push(ar_to_bw(s.last()))
    }
}

/// Buckwalter → Arabic: characters outside the table are dropped.
pub open spec fn buckwalter_to_arabic_model(s: Seq<char>) -> Seq<char>
    decreases s.len(),
{
    if s.len() == 0 {
        s
    } else {
        match bw_to_ar(s.last()) {
            Some(a) => buckwalter_to_arabic_model(s.drop_last()).push(a),
            None => buckwalter_to_arabic_model(s.drop_last()),
        }
    }
}

fn arabic_to_buckwalter_chars(s: &[char]) -> (r: Vec<char>)
    ensures
        r@ == arabic_to_buckwalter_model(s@),
{
    let mut r: Vec<char> = Vec::new();
    let mut i: usize = 0;
    while i < s.len()
        invariant
            i <= s@.len(),
            r@ == arabic_to_buckwalter_model(s@.take(i as int)),
        decreases s@.len() - i,
    {
        assert(s@.take(i + 1).drop_last() =~= s@.take(i as int));
        let c = s[i];
        if !(crate::normalize::is_tashkeel(c) || c == '\u{0640}') {
            r.push(ar_to_bw_char(c));
        }
        i = i + 1;
    }
    assert(s@.take(i as int) =~= s@);
    r
}

/// Arabic → Buckwalter mapping (consonants only, strips diacritics).
pub fn arabic_to_buckwalter(arabic: &str) -> (r: String)
    ensures
        r@ == arabic_to_buckwalter_model(arabic@),
{
    let chars = chars_of(arabic);
    string_of(arabic_to_buckwalter_chars(chars.as_slice()).as_slice())
}

fn buckwalter_to_arabic_chars(s: &[char]) -> (r: Vec<char>)
    ensures
        r@ == buckwalter_to_arabic_model(s@),
{
    let mut r: Vec<char> = Vec::new();
    let mut i: usize = 0;
    while i < s.len()
        invariant
            i <= s@.len(),
            r@ == buckwalter_to_arabic_model(s@.take(i as int)),
        decreases s@.len() - i,
    {
        assert(s@.take(i + 1).drop_last() =~= s@.take(i as int));
        if let Some(a) = bw_to_ar_char(s[i]) {
            r.push(a);
        }
        i = i + 1;
    }
    assert(s@.take(i as int) =~= s@);
    r
}

/// Buckwalter → Arabic mapping.
pub fn buckwalter_to_arabic(bw: &str) -> (r: String)
    ensures
        r@ == buckwalter_to_arabic_model(bw@),
{
    let chars = chars_of(bw);
    string_of(buckwalter_to_arabic_chars(chars.as_slice()).as_slice())
}

/// Transliterating Arabic letters of the table to Buckwalter and back gives
/// the letters back.
pub proof fn lemma_buckwalter_round_trip(s: Seq<char>)
    requires
        forall|i: int| 0 <= i < s.len() ==> is_table_letter(#[trigger] s[i]),
    ensures
        buckwalter_to_arabic_model(arabic_to_buckwalter_model(s)) == s,
    decreases s.len(),
{
    if s.len() > 0 {
        let p = s.drop_last();
        assert forall|i: int| 0 <= i < p.len() implies is_table_letter(#[trigger] p[i]) by {
            assert(p[i] == s[i]);
        }
        lemma_buckwalter_round_trip(p);
        let c = s.last();
        assert(is_table_letter(s[s.len() - 1]));
        assert(!spec_is_tashkeel(c) && c != tatweel());
        assert(bw_to_ar(ar_to_bw(c)) == Some(c));
        assert(arabic_to_buckwalter_model(s) == arabic_to_buckwalter_model(p).push(ar_to_bw(c)));
        assert(arabic_to_buckwalter_model(s).drop_last() =~= arabic_to_buckwalter_model(p));
        assert(p.push(c) =~= s);
    }
}

// ---------------------------------------------------------------------
// The root/lemma index
// ---------------------------------------------------------------------
/// The value of the first entry with key `key`.
pub open spec fn lookup<V>(entries: Seq<(Seq<char>, V)>, key: Seq<char>) -> Option<V>
    decreases entries.len(),
{
    if entries.len() == 0 {
        None
    } else if entries[0].0 == key {
        Some(entries[0].1)
    } else {
        lookup(entries.drop_first(), key)
    }
}

/// Root data: Buckwalter root → Buckwalter lemmas, and Buckwalter lemma →
/// Buckwalter root.
pub struct RootIndex {
    roots: Vec<(String, Vec<String>)>,
    lemmas: Vec<(String, String)>,
}

pub struct RootIndexModel {
    pub roots: Seq<(Seq<char>, Seq<Seq<char>>)>,
    pub lemmas: Seq<(Seq<char>, Seq<char>)>,
}

pub open spec fn root_entries_view(v: Seq<(String, Vec<String>)>) -> Seq<(Seq<char>, Seq<Seq<char>>)> {
    v.map_values(|e: (String, Vec<String>)| (e.0@, views_of(e.1@)))
}

pub open spec fn lemma_entries_view(v: Seq<(String, String)>) -> Seq<(Seq<char>, Seq<char>)> {
    v.map_values(|e: (String, String)| (e.0@, e.1@))
}

impl View for RootIndex {
    type V = RootIndexModel;

    closed spec fn view(&self) -> RootIndexModel {
        RootIndexModel {
            roots: root_entries_view(self.roots@),
            lemmas: lemma_entries_view(self.lemmas@),
        }
    }
}

/// What `serde_json::from_str` reads from a JSON object of root → lemma
/// lists, as its entries in key order (`None` where the text is not such
/// an object).
pub uninterp spec fn json_root_table(text: Seq<char>) -> Option<Seq<(Seq<char>, Seq<Seq<char>>)>>;

/// What `serde_json::from_str` reads from a JSON object of lemma → root, as
/// its entries in key order (`None` where the text is not such an object).
pub uninterp spec fn json_lemma_table(text: Seq<char>) -> Option<Seq<(Seq<char>, Seq<char>)>>;

/// Calls `serde_json::from_str` for a map from strings to lists of strings
/// and lists its entries in key order. The contract names the result; it
/// states nothing of which texts parse.
#[verifier::external_body]
fn parse_root_table(text: &str) -> (r: Option<Vec<(String, Vec<String>)>>)
    ensures
        json_root_table(text@) == match r {
            Some(v) => Some(root_entries_view(v@)),
            None => None,
        },
{
    match serde_json::from_str::<std::collections::BTreeMap<String, Vec<String>>>(text) {
        Ok(m) => Some(m.into_iter().collect()),
        Err(_) => None,
    }
}

/// Calls `serde_json::from_str` for a map from strings to strings and lists
/// its entries in key order. The contract names the result; it states
/// nothing of which texts parse.
#[verifier::external_body]
fn parse_lemma_table(text: &str) -> (r: Option<Vec<(String, String)>>)
    ensures
        json_lemma_table(text@) == match r {
            Some(v) => Some(lemma_entries_view(v@)),
            None => None,
        },
{
    match serde_json::from_str::<std::collections::BTreeMap<String, String>>(text) {
        Ok(m) => Some(m.into_iter().collect()),
        Err(_) => None,
    }
}

impl RootIndex {
    /// An index with no roots and no lemmas.
    pub fn empty() -> (r: RootIndex)
        ensures
            r@.roots == Seq::<(Seq<char>, Seq<Seq<char>>)>::empty(),
            r@.lemmas == Seq::<(Seq<char>, Seq<char>)>::empty(),
    {
        let r = RootIndex { roots: Vec::new(), lemmas: Vec::new() };
        assert(root_entries_view(r.roots@) =~= Seq::<(Seq<char>, Seq<Seq<char>>)>::empty());
        assert(lemma_entries_view(r.lemmas@) =~= Seq::<(Seq<char>, Seq<char>)>::empty());
        r
    }

    /// The index read from the JSON texts of `roots.json` (root → lemmas)
    /// and `lemmas.json` (lemma → root). A text that does not parse gives
    /// an empty table.
    pub fn from_json(roots_json: &str, lemmas_json: &str) -> (r: RootIndex)
        ensures
            r@.roots == match json_root_table(roots_json@) {
                Some(t) => t,
                None => Seq::empty(),
            },
            r@.lemmas == match json_lemma_table(lemmas_json@) {
                Some(t) => t,
                None => Seq::empty(),
            },
    {
        let roots = match parse_root_table(roots_json) {
            Some(v) => v,
            None => Vec::new(),
        };
        let lemmas = match parse_lemma_table(lemmas_json) {
            Some(v) => v,
            None => Vec::new(),
        };
        let r = RootIndex { roots, lemmas };
        assert(root_entries_view(Seq::<(String, Vec<String>)>::empty()) =~= Seq::empty());
        assert(lemma_entries_view(Seq::<(String, String)>::empty()) =~= Seq::empty());
        r
    }

    /// The number of roots.
    pub fn roots_len(&self) -> (n: usize)
        ensures
            n == self@.roots.len(),
    {
        self.roots.len()
    }

    /// The number of lemmas.
    pub fn lemmas_len(&self) -> (n: usize)
        ensures
            n == self@.lemmas.len(),
    {
        self.lemmas.len()
    }

    /// The Buckwalter lemmas of a Buckwalter root.
    fn lemmas_of_root(&self, root: &String) -> (r: Option<&Vec<String>>)
        ensures
            match r {
                Some(v) => lookup(self@.roots, root@) == Some(views_of(v@)),
                None => lookup(self@.roots, root@) is None,
            },
    {
        let ghost all = self@.roots;
        assert(all.skip(0) =~= all);
        let mut i: usize = 0;
        while i < self.roots.len()
            invariant
                i <= self.roots@.len(),
                all == root_entries_view(self.roots@),
                lookup(all, root@) == lookup(all.skip(i as int), root@),
            decreases self.roots@.len() - i,
        {
            assert(all.skip(i as int)[0] == all[i as int]);
            assert(all.skip(i as int).drop_first() =~= all.skip(i + 1));
            if self.roots[i].0 == *root {
                return Some(&self.roots[i].1);
            }
            i = i + 1;
        }
        assert(all.skip(i as int).len() == 0);
        None
    }

    /// The Buckwalter root of a Buckwalter lemma.
    fn root_of_lemma(&self, lemma: &String) -> (r: Option<&String>)
        ensures
            match r {
                Some(v) => lookup(self@.lemmas, lemma@) == Some(v@),
                None => lookup(self@.lemmas, lemma@) is None,
            },
    {
        let ghost all = self@.lemmas;
        assert(all.skip(0) =~= all);
        let mut i: usize = 0;
        while i < self.lemmas.len()
            invariant
                i <= self.lemmas@.len(),
                all == lemma_entries_view(self.lemmas@),
                lookup(all, lemma@) == lookup(all.skip(i as int), lemma@),
            decreases self.lemmas@.len() - i,
        {
            assert(all.skip(i as int)[0] == all[i as int]);
            assert(all.skip(i as int).drop_first() =~= all.skip(i + 1));
            if self.lemmas[i].0 == *lemma {
                return Some(&self.lemmas[i].1);
            }
            i = i + 1;
        }
        assert(all.skip(i as int).len() == 0);
        None
    }
}

/// The search forms of Buckwalter lemmas: each transliterated to Arabic and
/// normalized, empty forms left out.
pub open spec fn lemma_forms(ls: Seq<Seq<char>>) -> Seq<Seq<char>>
    decreases ls.len(),
{
    if ls.len() == 0 {
        seq![]
    } else {
        let f = normalize_for_search_model(buckwalter_to_arabic_model(ls.last()));
        if f.len() > 0 {
            lemma_forms(ls.drop_last()).push(f)
        } else {
            lemma_forms(ls.drop_last())
        }
    }
}

fn forms_of(ls: &Vec<String>) -> (r: Vec<String>)
    ensures
        views_of(r@) == lemma_forms(views_of(ls@)),
{
    let ghost all = views_of(ls@);
    let mut out: Vec<Vec<char>> = Vec::new();
    let mut i: usize = 0;
    while i < ls.len()
        invariant
            i <= ls@.len(),
            all == views_of(ls@),
            seqs_of(out@) == lemma_forms(all.take(i as int)),
        decreases ls@.len() - i,
    {
        assert(all.take(i + 1).drop_last() =~= all.take(i as int));
        assert(all.take(i + 1).last() == ls@[i as int]@);
        let bw = chars_of(ls[i].as_str());
        let arabic = buckwalter_to_arabic_chars(bw.as_slice());
        let form = normalize_for_search_chars(arabic.as_slice());
        if form.len() > 0 {
            let ghost before = seqs_of(out@);
            out.push(form);
            assert(seqs_of(out@) =~= before.push(form@));
        }
        i = i + 1;
    }
    assert(all.take(i as int) =~= all);
    strings_of(&out)
}

/// The search forms of the lemmas of an Arabic root (empty when the root
/// is unknown).
pub open spec fn lemmas_for_root_model(ix: RootIndexModel, root: Seq<char>) -> Seq<Seq<char>> {
    match lookup(ix.roots, arabic_to_buckwalter_model(root)) {
        Some(ls) => lemma_forms(ls),
        None => seq![],
    }
}

/// The search forms of the lemmas that share a root with an Arabic word
/// (empty when the word is not a known lemma, or its root is unknown).
pub open spec fn siblings_model(ix: RootIndexModel, word: Seq<char>) -> Seq<Seq<char>> {
    match lookup(ix.lemmas, arabic_to_buckwalter_model(word)) {
        Some(root) => match lookup(ix.roots, root) {
            Some(ls) => lemma_forms(ls),
            None => seq![],
        },
        None => seq![],
    }
}

/// The root of an Arabic word, in Arabic, when the word is a known lemma.
pub open spec fn root_for_word_model(ix: RootIndexModel, word: Seq<char>) -> Option<Seq<char>> {
    match lookup(ix.lemmas, arabic_to_buckwalter_model(word)) {
        Some(root) => Some(buckwalter_to_arabic_model(root)),
        None => None,
    }
}

/// Given an Arabic root (e.g. "صلو"), find all lemmas derived from it.
/// Returns Arabic lemmas (normalized).
pub fn find_lemmas_for_root(index: &RootIndex, arabic_root: &str) -> (r: Vec<String>)
    ensures
        views_of(r@) == lemmas_for_root_model(index@, arabic_root@),
{
    let bw_root = arabic_to_buckwalter(arabic_root);
    match index.lemmas_of_root(&bw_root) {
        Some(lemmas) => forms_of(lemmas),
        None => {
            let r: Vec<String> = Vec::new();
            assert(views_of(r@) =~= seq![]);
            r
        },
    }
}

/// Given an Arabic word, find its root and all sibling lemmas.
/// This is used for the lemma (>) operator.
pub fn find_siblings_for_lemma(index: &RootIndex, arabic_word: &str) -> (r: Vec<String>)
    ensures
        views_of(r@) == siblings_model(index@, arabic_word@),
{
    let bw_word = arabic_to_buckwalter(arabic_word);
    if let Some(root) = index.root_of_lemma(&bw_word) {
        if let Some(sibling_lemmas) = index.lemmas_of_root(root) {
            return forms_of(sibling_lemmas);
        }
    }
    let r: Vec<String> = Vec::new();
    assert(views_of(r@) =~= seq![]);
    r
}

/// Given an Arabic word, try to find its trilateral root.
/// Returns the root in Arabic if found.
pub fn find_root_for_word(index: &RootIndex, arabic_word: &str) -> (r: Option<String>)
    ensures
        match r {
            Some(s) => root_for_word_model(index@, arabic_word@) == Some(s@),
            None => root_for_word_model(index@, arabic_word@) is None,
        },
{
    let bw_word = arabic_to_buckwalter(arabic_word);
    match index.root_of_lemma(&bw_word) {
        Some(root) => Some(buckwalter_to_arabic(root.as_str())),
        None => None,
    }
}

/// `s` without its tatweel characters.
pub open spec fn remove_tatweel(s: Seq<char>) -> Seq<char>
    decreases s.len(),
{
    if s.len() == 0 {
        s
    } else if s.last() == tatweel() {
        remove_tatweel(s.drop_last())
    } else {
        remove_tatweel(s.drop_last()).push(s.last())
    }
}

proof fn lemma_bw_ignores_marks(s: Seq<char>)
    ensures
        arabic_to_buckwalter_model(strip_tashkeel_model(s)) == arabic_to_buckwalter_model(s),
        arabic_to_buckwalter_model(remove_tatweel(s)) == arabic_to_buckwalter_model(s),
    decreases s.len(),
{
    if s.len() > 0 {
        let p = s.drop_last();
        let c = s.last();
        lemma_bw_ignores_marks(p);
        if !spec_is_tashkeel(c) {
            let q = strip_tashkeel_model(p).push(c);
            assert(q.drop_last() =~= strip_tashkeel_model(p));
            assert(q.last() == c);
        }
        if c != tatweel() {
            let q = remove_tatweel(p).push(c);
            assert(q.drop_last() =~= remove_tatweel(p));
            assert(q.last() == c);
        }
    }
}

/// Root and lemma lookups ignore tashkeel and tatweel in the Arabic word:
/// stripping them first gives the same results.
pub proof fn lemma_lookups_ignore_marks(ix: RootIndexModel, w: Seq<char>)
    ensures
        root_for_word_model(ix, strip_tashkeel_model(w)) == root_for_word_model(ix, w),
        root_for_word_model(ix, remove_tatweel(w)) == root_for_word_model(ix, w),
        siblings_model(ix, strip_tashkeel_model(w)) == siblings_model(ix, w),
        siblings_model(ix, remove_tatweel(w)) == siblings_model(ix, w),
        lemmas_for_root_model(ix, strip_tashkeel_model(w)) == lemmas_for_root_model(ix, w),
        lemmas_for_root_model(ix, remove_tatweel(w)) == lemmas_for_root_model(ix, w),
{
    lemma_bw_ignores_marks(w);
}

/// Transliterating an Arabic letter to Buckwalter inverts the Buckwalter
/// table: a Buckwalter letter that stands for an Arabic letter is what that
/// letter transliterates to.
pub proof fn lemma_ar_to_bw_inverts_table(b: char)
    requires
        bw_to_ar(b) is Some,
        is_table_letter(bw_to_ar(b).unwrap()),
    ensures
        ar_to_bw(bw_to_ar(b).unwrap()) == b,
{
}

/// A Buckwalter key made of letters, written in Arabic and transliterated
/// back, is the same key.
pub proof fn lemma_buckwalter_key_round_trip(k: Seq<char>)
    requires
        forall|i: int|
            0 <= i < k.len() ==> bw_to_ar(#[trigger] k[i]) is Some && is_table_letter(
                bw_to_ar(k[i]).unwrap(),
            ),
    ensures
        arabic_to_buckwalter_model(buckwalter_to_arabic_model(k)) == k,
    decreases k.len(),
{
    if k.len() > 0 {
        let p = k.drop_last();
        assert forall|i: int| 0 <= i < p.len() implies bw_to_ar(#[trigger] p[i]) is Some
            && is_table_letter(bw_to_ar(p[i]).unwrap()) by {
            assert(p[i] == k[i]);
        }
        lemma_buckwalter_key_round_trip(p);
        let b = k.last();
        assert(bw_to_ar(k[k.len() - 1]) is Some);
        let a = bw_to_ar(b).unwrap();
        lemma_ar_to_bw_inverts_table(b);
        let arab = buckwalter_to_arabic_model(p).push(a);
        assert(buckwalter_to_arabic_model(k) == arab);
        assert(!spec_is_tashkeel(a) && a != tatweel());
        assert(arab.drop_last() =~= buckwalter_to_arabic_model(p));
        assert(p.push(b) =~= k);
    }
}

/// The letters' Buckwalter transliterations, as the Quranic Corpus writes
/// its roots and lemmas.
pub proof fn lemma_buckwalter_letters()
    ensures
        ar_to_bw('\u{0621}') == '\'',
        ar_to_bw('\u{0622}') == '|',
        ar_to_bw('\u{0623}') == '>',
        ar_to_bw('\u{0624}') == '&',
        ar_to_bw('\u{0625}') == '<',
        ar_to_bw('\u{0626}') == '}',
        ar_to_bw('\u{0627}') == 'A',
        ar_to_bw('\u{0628}') == 'b',
        ar_to_bw('\u{0629}') == 'p',
        ar_to_bw('\u{062A}') == 't',
        ar_to_bw('\u{062B}') == 'v',
        ar_to_bw('\u{062C}') == 'j',
        ar_to_bw('\u{062D}') == 'H',
        ar_to_bw('\u{062E}') == 'x',
        ar_to_bw('\u{062F}') == 'd',
        ar_to_bw('\u{0630}') == '*',
        ar_to_bw('\u{0631}') == 'r',
        ar_to_bw('\u{0632}') == 'z',
        ar_to_bw('\u{0633}') == 's',
        ar_to_bw('\u{0634}') == '$',
        ar_to_bw('\u{0635}') == 'S',
        ar_to_bw('\u{0636}') == 'D',
        ar_to_bw('\u{0637}') == 'T',
        ar_to_bw('\u{0638}') == 'Z',
        ar_to_bw('\u{0639}') == 'E',
        ar_to_bw('\u{063A}') == 'g',
        ar_to_bw('\u{0641}') == 'f',
        ar_to_bw('\u{0642}') == 'q',
        ar_to_bw('\u{0643}') == 'k',
        ar_to_bw('\u{0644}') == 'l',
        ar_to_bw('\u{0645}') == 'm',
        ar_to_bw('\u{0646}') == 'n',
        ar_to_bw('\u{0647}') == 'h',
        ar_to_bw('\u{0648}') == 'w',
        ar_to_bw('\u{0649}') == 'Y',
        ar_to_bw('\u{064A}') == 'y',
        ar_to_bw('\u{0671}') == '{',
{
}

/// A root or lemma stored under a Buckwalter key of letters is found when
/// asked for by that key written in Arabic: the lemmas of the root, the
/// siblings of the lemma, and the lemma's root in Arabic.
pub proof fn lemma_lookups_by_arabic_key(ix: RootIndexModel, k: Seq<char>)
    requires
        forall|i: int|
            0 <= i < k.len() ==> bw_to_ar(#[trigger] k[i]) is Some && is_table_letter(
                bw_to_ar(k[i]).unwrap(),
            ),
    ensures
        lemmas_for_root_model(ix, buckwalter_to_arabic_model(k)) == match lookup(ix.roots, k) {
            Some(ls) => lemma_forms(ls),
            None => Seq::<Seq<char>>::empty(),
        },
        root_for_word_model(ix, buckwalter_to_arabic_model(k)) == match lookup(ix.lemmas, k) {
            Some(root) => Some(buckwalter_to_arabic_model(root)),
            None => None,
        },
        siblings_model(ix, buckwalter_to_arabic_model(k)) == match lookup(ix.lemmas, k) {
            Some(root) => match lookup(ix.roots, root) {
                Some(ls) => lemma_forms(ls),
                None => Seq::<Seq<char>>::empty(),
            },
            None => Seq::<Seq<char>>::empty(),
        },
{
    lemma_buckwalter_key_round_trip(k);
}

} // verus!
