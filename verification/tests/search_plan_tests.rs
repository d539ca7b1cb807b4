use alfanous_core::parser::parse_query;
use alfanous_core::roots::RootIndex;
use alfanous_core::search::{build_sql, plan_search, search_lexes, SearchResult};

const SURA_SQL: &str = "SELECT a.sura_id, a.aya_id, a.sura_name, a.text FROM aya a WHERE a.sura_id = ?1 ORDER BY a.gid LIMIT ";
const MATCH_SQL: &str = "SELECT a.sura_id, a.aya_id, a.sura_name, a.text FROM aya a JOIN aya_fts f ON a.gid = f.rowid WHERE aya_fts MATCH ?1 ORDER BY rank LIMIT ";
const EMPTY_SQL: &str = "SELECT 0, 0, '', '' WHERE 0";

const ROOTS_JSON: &str = r#"{"rHm": ["r~aHoma`n", "r~aHiym", "raHomap"], "ktb": ["kataba", "kaAtib"]}"#;
const LEMMAS_JSON: &str = r#"{"ktb": "ktb", "kAtb": "ktb"}"#;

fn plan(q: &str, limit: usize) -> Option<(String, Vec<String>)> {
    let ix = RootIndex::from_json(ROOTS_JSON, LEMMAS_JSON);
    assert!(search_lexes(q));
    plan_search(q, limit, &ix)
}

fn fts(q: &str) -> String {
    let (sql, params) = plan(q, 10).expect("a statement");
    assert_eq!(sql, format!("{}10", MATCH_SQL));
    assert_eq!(params.len(), 1);
    params[0].clone()
}

#[test]
fn blank_queries_run_nothing() {
    assert!(plan("", 10).is_none());
    assert!(plan("   ", 10).is_none());
    assert!(plan(" \u{00A0}\t", 10).is_none());
}

#[test]
fn sura_field_selects_sura() {
    let (sql, params) = plan("سورة:البقرة", 300).unwrap();
    assert_eq!(sql, format!("{}300", SURA_SQL));
    assert_eq!(params, vec!["2".to_string()]);
    assert_eq!(plan("sura:الإخلاص", 10).unwrap().1, vec!["112".to_string()]);
    assert_eq!(plan("sura_name:الفاتحة", 10).unwrap().1, vec!["1".to_string()]);
}

#[test]
fn sura_field_normalizes_and_prefixes() {
    // "ال عمران" (typed without madda) matches "آل عمران"
    assert_eq!(plan("سورة:\"ال عمران\"", 10).unwrap().1, vec!["3".to_string()]);
    // prefix match for inputs of at least 3 characters
    assert_eq!(plan("سورة:البقر", 10).unwrap().1, vec!["2".to_string()]);
    // no prefix match for shorter inputs
    assert_eq!(plan("سورة:ال", 10).unwrap(), (EMPTY_SQL.to_string(), vec![]));
    // unknown sura
    assert_eq!(plan("سورة:زززز", 10).unwrap(), (EMPTY_SQL.to_string(), vec![]));
    // a field value that is not a term or phrase
    assert_eq!(plan("سورة:البقرة*", 10).unwrap(), (EMPTY_SQL.to_string(), vec![]));
    // a group is parsed to its content
    assert_eq!(plan("سورة:(البقرة)", 10).unwrap().1, vec!["2".to_string()]);
}

#[test]
fn other_fields_select_nothing() {
    assert_eq!(plan("foo:bar", 10).unwrap(), (EMPTY_SQL.to_string(), vec![]));
}

#[test]
fn lone_not_selects_nothing() {
    assert_eq!(plan("-النار", 10).unwrap(), (EMPTY_SQL.to_string(), vec![]));
    assert_eq!(plan("ليس النار", 10).unwrap(), (EMPTY_SQL.to_string(), vec![]));
}

#[test]
fn term_expands_prefixes() {
    assert_eq!(fts("الله"), "(\"الله\" OR \"له\")");
    assert_eq!(fts("حمد"), "\"حمد\"");
    assert_eq!(fts("الصَّلاةِ"), "(\"الصلاه\" OR \"صلاه\")");
}

#[test]
fn term_group_keeps_article_before_bare_word() {
    assert_eq!(fts("والصلاة"), "(\"والصلاه\" OR \"الصلاه\" OR \"صلاه\")");
    assert_eq!(fts("بالله"), "(\"بالله\" OR \"الله\" OR \"له\")");
}

#[test]
fn and_or_not_expressions() {
    assert_eq!(
        fts("الجنة + النار"),
        "((\"الجنه\" OR \"جنه\") AND (\"النار\" OR \"نار\"))"
    );
    assert_eq!(fts("حمد | نور"), "(\"حمد\" OR \"نور\")");
    assert_eq!(fts("حمد + -نور"), "(\"حمد\" NOT \"نور\")");
    assert_eq!(fts("حمد وليس نور"), "(\"حمد\" NOT \"نور\")");
}

#[test]
fn phrase_wildcard_boost() {
    assert_eq!(fts("\"بِسْمِ  اللَّهِ\""), "\"بسم الله\"");
    assert_eq!(fts("كتب*"), "كتب*");
    assert_eq!(fts("ك?ت؟ب"), "كتب*");
    assert_eq!(fts("حمد^2"), "\"حمد\"");
}

#[test]
fn spell_tolerant_variants() {
    assert_eq!(fts("%رحمه"), "(\"رحمه\" OR \"رحمة\" OR \"الرحمه\")");
    assert_eq!(fts("%الصلاة"), "(\"الصلاه\" OR \"الصلاة\" OR \"صلاه\")");
    assert_eq!(fts("%"), "()");
}

#[test]
fn root_and_lemma_expansion() {
    assert_eq!(fts(">>رحم"), "(\"رحمن\" OR \"رحيم\" OR \"رحمه\")");
    assert_eq!(fts(">>ققق"), "\"ققق\"");
    assert_eq!(fts(">كتب"), "(\"كتب\" OR \"كاتب\")");
    assert_eq!(fts("~كتب"), "(\"كتب\" OR \"كاتب\")");
    assert_eq!(fts("#نور"), "\"نور\"");
}

#[test]
fn empty_expression_selects_nothing() {
    // a term that normalizes to nothing
    assert_eq!(plan("َ", 10).unwrap(), (EMPTY_SQL.to_string(), vec![]));
    // AND with an empty side keeps the other side
    assert_eq!(fts("َ + حمد"), "\"حمد\"");
}

#[test]
fn limit_is_written_in_decimal() {
    assert_eq!(plan("حمد", 0).unwrap().0, format!("{}0", MATCH_SQL));
    assert_eq!(plan("حمد", 1234).unwrap().0, format!("{}1234", MATCH_SQL));
}

#[test]
fn build_sql_on_parsed_tree() {
    let ix = RootIndex::empty();
    let (sql, params) = build_sql(&parse_query("سورة:يس"), 5, &ix);
    assert_eq!(sql, format!("{}5", SURA_SQL));
    assert_eq!(params, vec!["36".to_string()]);
}

#[test]
fn search_lexes_on_trimmed_query() {
    assert!(search_lexes(" \u{00A0}الله\u{00A0}"));
    assert!(!search_lexes("الله\u{00A0}النار"));
}

#[test]
fn search_result_holds_fields() {
    let r = SearchResult { sura_id: 1, aya_id: 2, sura_name: "الفاتحة".into(), text: "t".into() };
    let c = r.clone();
    assert_eq!(c.sura_id, 1);
    assert_eq!(c.aya_id, 2);
    assert_eq!(c.sura_name, "الفاتحة");
}

#[test]
fn vocalized_and_plain_terms_search_alike() {
    assert_eq!(plan("أمنوا", 20), plan("آمنوا", 20));
    assert_eq!(plan("آمنوا", 20), plan("امنوا", 20));
    assert_eq!(plan("الصَّلاةِ", 10), plan("الصلاه", 10));
    assert_eq!(plan("\"بِسْمِ اللَّهِ\"", 10), plan("\"بسم الله\"", 10));
}
