//! The sura table and the loader's line format: `sura_id|aya_id|text`,
//! one verse per line.
use vstd::prelude::*;

use crate::normalize::{
    all_normal, lemma_normalized_shape, normalize_for_search_chars, normalize_for_search_model,
    single_spaced,
};
use crate::parser::lexer::{first_pos, lemma_first_pos_bounds};
use crate::text::{chars_of, string_of, sub_chars, trim, trim_chars};

verus! {

/// Sura name lookup (1-indexed, Arabic names; index 0 is empty).
pub const SURA_NAMES: [&'static str; 115] = [
    "", "الفاتحة", "البقرة", "آل عمران", "النساء", "المائدة", "الأنعام", "الأعراف", "الأنفال",
    "التوبة", "يونس", "هود", "يوسف", "الرعد", "إبراهيم", "الحجر", "النحل", "الإسراء", "الكهف",
    "مريم", "طه", "الأنبياء", "الحج", "المؤمنون", "النور", "الفرقان", "الشعراء", "النمل",
    "القصص", "العنكبوت", "الروم", "لقمان", "السجدة", "الأحزاب", "سبأ", "فاطر", "يس",
    "الصافات", "ص", "الزمر", "غافر", "فصلت", "الشورى", "الزخرف", "الدخان", "الجاثية",
    "الأحقاف", "محمد", "الفتح", "الحجرات", "ق", "الذاريات", "الطور", "النجم", "القمر",
    "الرحمن", "الواقعة", "الحديد", "المجادلة", "الحشر", "الممتحنة", "الصف", "الجمعة",
    "المنافقون", "التغابن", "الطلاق", "التحريم", "الملك", "القلم", "الحاقة", "المعارج", "نوح",
    "الجن", "المزمل", "المدثر", "القيامة", "الإنسان", "المرسلات", "النبأ", "النازعات", "عبس",
    "التكوير", "الانفطار", "المطففين", "الانشقاق", "البروج", "الطارق", "الأعلى", "الغاشية",
    "الفجر", "البلد", "الشمس", "الليل", "الضحى", "الشرح", "التين", "العلق", "القدر", "البينة",
    "الزلزلة", "العاديات", "القارعة", "التكاثر", "العصر", "الهمزة", "الفيل", "قريش",
    "الماعون", "الكوثر", "الكافرون", "النصر", "المسد", "الإخلاص", "الفلق", "الناس",
];

/// Get the Arabic sura name for a given sura number (1-based); the empty
/// name for a number outside the table.
pub fn sura_name(sura_id: u32) -> (r: &'static str)
    ensures
        (sura_id as int) < SURA_NAMES@.len() ==> r@ == SURA_NAMES@[sura_id as int]@,
        (sura_id as int) >= SURA_NAMES@.len() ==> r@ == Seq::<char>::empty(),
{
    if (sura_id as usize) < SURA_NAMES.len() {
        SURA_NAMES[sura_id as usize]
    } else {
        proof {
            reveal_strlit("");
        }
        ""
    }
}

/// Return the full list of sura names (index 0 is empty, 1-based).
pub fn sura_names() -> (r: &'static [&'static str])
    ensures
        r@ == SURA_NAMES@,
{
    &SURA_NAMES
}

// ---------------------------------------------------------------------
// The text format
// ---------------------------------------------------------------------
/// Why a number field did not parse, as `u32::from_str` reports it.
#[derive(Debug, Clone, Copy, PartialEq, Eq, Structural)]
pub enum NumberError {
    /// The field is empty.
    Empty,
    /// The field holds a character that is not a decimal digit.
    InvalidDigit,
    /// The number does not fit in a `u32`.
    PosOverflow,
}

/// Why a text could not be loaded. Line numbers count from 1.
#[derive(Debug, Clone, PartialEq)]
pub enum LoadError {
    /// A line with fewer than three `|`-separated fields; `preview` is its
    /// first 60 characters (trimmed).
    InvalidFormat { line: usize, preview: String },
    InvalidSuraId { line: usize, reason: NumberError },
    InvalidAyaId { line: usize, reason: NumberError },
    /// A sura number outside 1..=114.
    SuraOutOfRange { line: usize, sura_id: u32 },
    AyaIdZero { line: usize },
    /// No line held a verse.
    NoRows,
}

pub enum LoadErrorModel {
    InvalidFormat { line: int, preview: Seq<char> },
    InvalidSuraId { line: int, reason: NumberError },
    InvalidAyaId { line: int, reason: NumberError },
    SuraOutOfRange { line: int, sura_id: u32 },
    AyaIdZero { line: int },
    NoRows,
}

impl View for LoadError {
    type V = LoadErrorModel;

    open spec fn view(&self) -> LoadErrorModel {
        match self {
            LoadError::InvalidFormat { line, preview } => LoadErrorModel::InvalidFormat {
                line: *line as int,
                preview: preview@,
            },
            LoadError::InvalidSuraId { line, reason } => LoadErrorModel::InvalidSuraId {
                line: *line as int,
                reason: *reason,
            },
            LoadError::InvalidAyaId { line, reason } => LoadErrorModel::InvalidAyaId {
                line: *line as int,
                reason: *reason,
            },
            LoadError::SuraOutOfRange { line, sura_id } => LoadErrorModel::SuraOutOfRange {
                line: *line as int,
                sura_id: *sura_id,
            },
            LoadError::AyaIdZero { line } => LoadErrorModel::AyaIdZero { line: *line as int },
            LoadError::NoRows => LoadErrorModel::NoRows,
        }
    }
}

/// One verse, ready to be stored: `gid` numbers the verses of the text from 1.
#[derive(Debug, Clone)]
pub struct AyaRecord {
    pub gid: u64,
    pub sura_id: u32,
    pub aya_id: u32,
    pub text: String,
    pub sura_name: String,
    /// The text's search form, which the full-text index holds.
    pub normalized: String,
}

pub struct AyaModel {
    pub gid: int,
    pub sura_id: u32,
    pub aya_id: u32,
    pub text: Seq<char>,
    pub sura_name: Seq<char>,
    pub normalized: Seq<char>,
}

impl View for AyaRecord {
    type V = AyaModel;

    open spec fn view(&self) -> AyaModel {
        AyaModel {
            gid: self.gid as int,
            sura_id: self.sura_id,
            aya_id: self.aya_id,
            text: self.text@,
            sura_name: self.sura_name@,
            normalized: self.normalized@,
        }
    }
}

pub open spec fn records_view(v: Seq<AyaRecord>) -> Seq<AyaModel> {
    v.map_values(|r: AyaRecord| r@)
}

pub open spec fn is_digit_char(c: char) -> bool {
    '0' <= c && c <= '9'
}

/// The value of a run of decimal digits read left to right, or the first
/// problem met: a non-digit, or a value past `u32::MAX`.
pub open spec fn digits_value(s: Seq<char>) -> Result<nat, NumberError>
    decreases s.len(),
{
    if s.len() == 0 {
        Ok(0)
    } else {
        match digits_value(s.drop_last()) {
            Err(e) => Err(e),
            Ok(v) => {
                let c = s.last();
                if !is_digit_char(c) {
                    Err(NumberError::InvalidDigit)
                } else {
                    let nv = v * 10 + (c as int - '0' as int);
                    if nv > u32::MAX {
                        Err(NumberError::PosOverflow)
                    } else {
                        Ok(nv as nat)
                    }
                }
            },
        }
    }
}

/// What `u32::from_str` gives for `s`: an optional `+`, then decimal digits.
pub open spec fn parse_u32_model(s: Seq<char>) -> Result<u32, NumberError> {
    if s.len() == 0 {
        Err(NumberError::Empty)
    } else if (s[0] == '+' || s[0] == '-') && s.len() == 1 {
        Err(NumberError::InvalidDigit)
    } else {
        let digits = if s[0] == '+' {
            s.drop_first()
        } else {
            s
        };
        match digits_value(digits) {
            Ok(v) => Ok(v as u32),
            Err(e) => Err(e),
        }
    }
}

/// What one line of the text stands for.
pub enum LineModel {
    Skip,
    Bad(LoadErrorModel),
    Verse(u32, u32, Seq<char>),
}

/// The first 60 characters of `t`.
pub open spec fn preview_model(t: Seq<char>) -> Seq<char> {
    if t.len() <= 60 {
        t
    } else {
        t.take(60)
    }
}

/// A trimmed line that is empty or starts with `#` is skipped; otherwise it
/// must be `sura_id|aya_id|text` (the text may hold further `|`), with a
/// sura number in 1..=114 and an aya number above 0.
pub open spec fn line_model(l: Seq<char>, line: int) -> LineModel {
    let t = trim(l);
    if t.len() == 0 || t[0] == '#' {
        LineModel::Skip
    } else {
        let a = first_pos(t, '|', 0);
        let b = first_pos(t, '|', a + 1);
        if a >= t.len() || b >= t.len() {
            LineModel::Bad(LoadErrorModel::InvalidFormat { line, preview: preview_model(t) })
        } else {
            match parse_u32_model(t.subrange(0, a)) {
                Err(e) => LineModel::Bad(LoadErrorModel::InvalidSuraId { line, reason: e }),
                Ok(sura) => match parse_u32_model(t.subrange(a + 1, b)) {
                    Err(e) => LineModel::Bad(LoadErrorModel::InvalidAyaId { line, reason: e }),
                    Ok(aya) => {
                        if sura == 0 || sura >= 115 {
                            LineModel::Bad(LoadErrorModel::SuraOutOfRange { line, sura_id: sura })
                        } else if aya == 0 {
                            LineModel::Bad(LoadErrorModel::AyaIdZero { line })
                        } else {
                            LineModel::Verse(sura, aya, t.subrange(b + 1, t.len() as int))
                        }
                    },
                },
            }
        }
    }
}

/// The record of a verse numbered `gid`.
pub open spec fn record_model(gid: int, sura: u32, aya: u32, text: Seq<char>) -> AyaModel {
    AyaModel {
        gid,
        sura_id: sura,
        aya_id: aya,
        text,
        sura_name: SURA_NAMES@[sura as int]@,
        normalized: normalize_for_search_model(text),
    }
}

/// Reads the lines of `s` from position `i` (the start of line number
/// `line`), after the records `recs`. Lines end at `\n`; a final `\n` ends
/// the last line rather than starting an empty one.
pub open spec fn load_from(s: Seq<char>, i: int, line: int, recs: Seq<AyaModel>) -> Result<
    Seq<AyaModel>,
    LoadErrorModel,
>
    decreases s.len() - i,
{
    if i < 0 || i >= s.len() {
        Ok(recs)
    } else {
        let e = first_pos(s, '\n', i);
        proof {
            lemma_first_pos_bounds(s, '\n', i);
        }
        let next = if e < s.len() {
            e + 1
        } else {
            s.len() as int
        };
        match line_model(s.subrange(i, e), line) {
            LineModel::Skip => load_from(s, next, line + 1, recs),
            LineModel::Bad(err) => Err(err),
            LineModel::Verse(sura, aya, text) => load_from(
                s,
                next,
                line + 1,
                recs.push(record_model((recs.len() + 1) as int, sura, aya, text)),
            ),
        }
    }
}

/// The records of a whole text, or the first problem in it; a text without
/// any verse is refused.
pub open spec fn load_model(s: Seq<char>) -> Result<Seq<AyaModel>, LoadErrorModel> {
    match load_from(s, 0, 1, seq![]) {
        Ok(recs) => if recs.len() == 0 {
            Err(LoadErrorModel::NoRows)
        } else {
            Ok(recs)
        },
        Err(e) => Err(e),
    }
}

proof fn lemma_digits_error_sticks(s: Seq<char>, k: int)
    requires
        0 <= k <= s.len(),
        digits_value(s.take(k)) is Err,
    ensures
        digits_value(s) == digits_value(s.take(k)),
    decreases s.len() - k,
{
    if k < s.len() {
        assert(s.take(k + 1).drop_last() =~= s.take(k));
        lemma_digits_error_sticks(s, k + 1);
    } else {
        assert(s.take(k) =~= s);
    }
}

/// Parse a decimal `u32` as `u32::from_str` does.
pub fn parse_u32_chars(s: &[char]) -> (r: Result<u32, NumberError>)
    ensures
        r == parse_u32_model(s@),
{
    let n = s.len();
    if n == 0 {
        return Err(NumberError::Empty);
    }
    if (s[0] == '+' || s[0] == '-') && n == 1 {
        return Err(NumberError::InvalidDigit);
    }
    let start: usize = if s[0] == '+' {
        1
    } else {
        0
    };
    let ghost digits = s@.skip(start as int);
    assert(digits =~= if s@[0] == '+' {
        s@.drop_first()
    } else {
        s@
    });
    let mut acc: u32 = 0;
    let mut i: usize = start;
    assert(digits.take(0) =~= Seq::<char>::empty());
    while i < n
        invariant
            n == s@.len(),
            n > 0,
            !((s@[0] == '+' || s@[0] == '-') && n == 1),
            start == (if s@[0] == '+' {
                1int
            } else {
                0int
            }),
            start <= i <= n,
            digits == s@.skip(start as int),
            digits == if s@[0] == '+' {
                s@.drop_first()
            } else {
                s@
            },
            digits_value(digits.take(i - start)) == Ok::<nat, NumberError>(acc as nat),
        decreases n - i,
    {
        let ghost k = i - start;
        assert(digits.take(k + 1).drop_last() =~= digits.take(k));
        assert(digits.take(k + 1).last() == s@[i as int]);
        let c = s[i];
        if !(c >= '0' && c <= '9') {
            assert(digits_value(digits.take(k + 1)) == Err::<nat, NumberError>(
                NumberError::InvalidDigit,
            ));
            proof {
                lemma_digits_error_sticks(digits, k + 1);
            }
            return Err(NumberError::InvalidDigit);
        }
        let d: u32 = (c as u32) - ('0' as u32);
        assert(d as int == c as int - '0' as int);
        let nv: u64 = (acc as u64) * 10 + (d as u64);
        if nv > (u32::MAX as u64) {
            assert(digits_value(digits.take(k + 1)) == Err::<nat, NumberError>(
                NumberError::PosOverflow,
            ));
            proof {
                lemma_digits_error_sticks(digits, k + 1);
            }
            return Err(NumberError::PosOverflow);
        }
        acc = nv as u32;
        i = i + 1;
    }
    assert(digits.take(i - start) =~= digits);
    Ok(acc)
}

/// What one line stands for.
enum LineOutcome {
    Skip,
    Bad(LoadError),
    Verse(u32, u32, Vec<char>),
}

spec fn outcome_model(o: LineOutcome) -> LineModel {
    match o {
        LineOutcome::Skip => LineModel::Skip,
        LineOutcome::Bad(e) => LineModel::Bad(e@),
        LineOutcome::Verse(s, a, t) => LineModel::Verse(s, a, t@),
    }
}

fn find_from(s: &[char], c: char, from: usize) -> (r: usize)
    requires
        from <= s@.len(),
    ensures
        r == first_pos(s@, c, from as int),
        from <= r <= s@.len(),
{
    proof {
        lemma_first_pos_bounds(s@, c, from as int);
    }
    let mut i = from;
    while i < s.len() && s[i] != c
        invariant
            from <= i <= s@.len(),
            first_pos(s@, c, from as int) == first_pos(s@, c, i as int),
        decreases s@.len() - i,
    {
        i = i + 1;
    }
    i
}

fn classify_line(l: &[char], line: usize) -> (r: LineOutcome)
    ensures
        outcome_model(r) == line_model(l@, line as int),
{
    let t = trim_chars(l);
    let n = t.len();
    if n == 0 || t[0] == '#' {
        return LineOutcome::Skip;
    }
    let a = find_from(t.as_slice(), '|', 0);
    let b = if a < n {
        find_from(t.as_slice(), '|', a + 1)
    } else {
        n
    };
    if a >= n || b >= n {
        let keep = if n <= 60 {
            n
        } else {
            60
        };
        let head = sub_chars(t.as_slice(), 0, keep);
        assert(head@ =~= preview_model(t@));
        let preview = string_of(head.as_slice());
        return LineOutcome::Bad(LoadError::InvalidFormat { line, preview });
    }
    let sura_field = sub_chars(t.as_slice(), 0, a);
    let aya_field = sub_chars(t.as_slice(), a + 1, b);
    let sura_id = match parse_u32_chars(sura_field.as_slice()) {
        Ok(v) => v,
        Err(e) => {
            return LineOutcome::Bad(LoadError::InvalidSuraId { line, reason: e });
        },
    };
    let aya_id = match parse_u32_chars(aya_field.as_slice()) {
        Ok(v) => v,
        Err(e) => {
            return LineOutcome::Bad(LoadError::InvalidAyaId { line, reason: e });
        },
    };
    if sura_id == 0 || sura_id >= 115 {
        return LineOutcome::Bad(LoadError::SuraOutOfRange { line, sura_id });
    }
    if aya_id == 0 {
        return LineOutcome::Bad(LoadError::AyaIdZero { line });
    }
    LineOutcome::Verse(sura_id, aya_id, sub_chars(t.as_slice(), b + 1, n))
}

/// Reads a Quran text in the format `sura_id|aya_id|text`, one verse per
/// line. Empty lines and lines starting with `#` are skipped. Returns the
/// first problem met, and refuses a text that yields no verse, rather than
/// building a partial or empty index.
pub fn parse_quran_text(content: &str) -> (r: Result<Vec<AyaRecord>, LoadError>)
    ensures
        match r {
            Ok(v) => load_model(content@) == Ok::<Seq<AyaModel>, LoadErrorModel>(records_view(v@)),
            Err(e) => load_model(content@) == Err::<Seq<AyaModel>, LoadErrorModel>(e@),
        },
        r matches Ok(v) ==> v@.len() > 0 && forall|k: int|
            0 <= k < v@.len() ==> (#[trigger] v@[k]).gid == k + 1 && 1 <= v@[k].sura_id <= 114
                && v@[k].aya_id >= 1,
        r matches Ok(v) ==> forall|k: int|
            0 <= k < v@.len() ==> (#[trigger] v@[k]).normalized@ == normalize_for_search_model(
                v@[k].text@,
            ) && all_normal(v@[k].normalized@) && single_spaced(v@[k].normalized@),
{
    let chars = chars_of(content);
    let n = chars.len();
    let mut records: Vec<AyaRecord> = Vec::new();
    let mut start: usize = 0;
    let mut line_no: usize = 0;
    assert(records_view(records@) =~= seq![]);
    while start < n
        invariant
            n == chars@.len(),
            chars@ == content@,
            start <= n,
            line_no <= start,
            records@.len() <= start,
            load_from(chars@, 0, 1, seq![]) == load_from(
                chars@,
                start as int,
                line_no + 1,
                records_view(records@),
            ),
            forall|k: int|
                0 <= k < records@.len() ==> (#[trigger] records@[k]).gid == k + 1 && 1
                    <= records@[k].sura_id <= 114 && records@[k].aya_id >= 1,
            forall|k: int|
                0 <= k < records@.len() ==> (#[trigger] records@[k]).normalized@
                    == normalize_for_search_model(records@[k].text@) && all_normal(
                    records@[k].normalized@,
                ) && single_spaced(records@[k].normalized@),
        decreases n - start,
    {
        let e = find_from(chars.as_slice(), '\n', start);
        let l = sub_chars(chars.as_slice(), start, e);
        match classify_line(l.as_slice(), line_no + 1) {
            LineOutcome::Skip => {},
            LineOutcome::Bad(err) => {
                return Err(err);
            },
            LineOutcome::Verse(sura_id, aya_id, text) => {
                let gid: u64 = records.len() as u64 + 1;
                let name = sura_name(sura_id).to_owned();
                let normalized = string_of(normalize_for_search_chars(text.as_slice()).as_slice());
                let text_s = string_of(text.as_slice());
                let rec = AyaRecord {
                    gid,
                    sura_id,
                    aya_id,
                    text: text_s,
                    sura_name: name,
                    normalized,
                };
                let ghost before = records_view(records@);
                let ghost old_records = records@;
                records.push(rec);
                proof {
                    assert(records_view(records@) =~= before.push(
                        record_model((before.len() + 1) as int, sura_id, aya_id, text@),
                    ));
                    assert forall|k: int| 0 <= k < records@.len() implies (
                    #[trigger] records@[k]).gid == k + 1 && 1 <= records@[k].sura_id <= 114
                        && records@[k].aya_id >= 1 by {
                        if k < old_records.len() {
                            assert(records@[k] == old_records[k]);
                        }
                    }
                    lemma_normalized_shape(text@);
                    assert forall|k: int| 0 <= k < records@.len() implies (
                    #[trigger] records@[k]).normalized@ == normalize_for_search_model(
                        records@[k].text@,
                    ) && all_normal(records@[k].normalized@) && single_spaced(
                        records@[k].normalized@,
                    ) by {
                        if k < old_records.len() {
                            assert(records@[k] == old_records[k]);
                        }
                    }
                }
            },
        }
        start = if e < n {
            e + 1
        } else {
            n
        };
        line_no = line_no + 1;
    }
    if records.len() == 0 {
        return Err(LoadError::NoRows);
    }
    Ok(records)
}

} // verus!
