use alfanous_core::db;
use alfanous_core::db::{parse_quran_text, parse_u32_chars, LoadError, NumberError};

#[test]
fn sura_name_function_boundary() {
    assert_eq!(db::sura_name(0), "");
    assert_eq!(db::sura_name(1), "الفاتحة");
    assert_eq!(db::sura_name(114), "الناس");
    assert_eq!(db::sura_name(115), "");
    assert_eq!(db::sura_name(999), "");
}

// --- Further tests ---

#[test]
fn sura_names_table() {
    let names = db::sura_names();
    assert_eq!(names.len(), 115);
    assert_eq!(names[0], "");
    assert_eq!(names[2], "البقرة");
    assert_eq!(names[3], "آل عمران");
    assert_eq!(names[112], "الإخلاص");
}

#[test]
fn parse_text_numbers_verses() {
    let text = "# comment\n1|1|بِسْمِ اللَّهِ الرَّحْمَٰنِ الرَّحِيمِ\n\n1|2|الحمد لله | رب\r\n2|1|الم";
    let recs = parse_quran_text(text).expect("valid text");
    assert_eq!(recs.len(), 3);
    assert_eq!(recs[0].gid, 1);
    assert_eq!(recs[1].gid, 2);
    assert_eq!(recs[2].gid, 3);
    assert_eq!(recs[0].sura_name, "الفاتحة");
    assert_eq!(recs[2].sura_name, "البقرة");
    assert_eq!(recs[0].normalized, "بسم الله الرحمن الرحيم");
    assert_eq!(recs[1].text, "الحمد لله | رب");
    assert_eq!(recs[1].aya_id, 2);
    assert_eq!(recs[2].text, "الم");
}

#[test]
fn parse_text_invalid_format() {
    let err = parse_quran_text("1|1|ok\n1 2 no pipes\n").unwrap_err();
    assert_eq!(
        err,
        LoadError::InvalidFormat { line: 2, preview: "1 2 no pipes".to_string() }
    );
}

#[test]
fn parse_text_invalid_format_preview_is_60_chars() {
    let long = "x".repeat(100);
    let err = parse_quran_text(&long).unwrap_err();
    assert_eq!(err, LoadError::InvalidFormat { line: 1, preview: "x".repeat(60) });
}

#[test]
fn parse_text_bad_numbers() {
    assert_eq!(
        parse_quran_text("a|1|t").unwrap_err(),
        LoadError::InvalidSuraId { line: 1, reason: NumberError::InvalidDigit }
    );
    assert_eq!(
        parse_quran_text("|1|t").unwrap_err(),
        LoadError::InvalidSuraId { line: 1, reason: NumberError::Empty }
    );
    assert_eq!(
        parse_quran_text("1|99999999999|t").unwrap_err(),
        LoadError::InvalidAyaId { line: 1, reason: NumberError::PosOverflow }
    );
    assert_eq!(
        parse_quran_text("+|1|t").unwrap_err(),
        LoadError::InvalidSuraId { line: 1, reason: NumberError::InvalidDigit }
    );
    // a leading + is accepted, as u32::from_str accepts it
    assert_eq!(parse_quran_text("+1|+7|t").unwrap()[0].aya_id, 7);
}

#[test]
fn parse_text_ranges() {
    assert_eq!(
        parse_quran_text("\n\n115|1|t").unwrap_err(),
        LoadError::SuraOutOfRange { line: 3, sura_id: 115 }
    );
    assert_eq!(
        parse_quran_text("0|1|t").unwrap_err(),
        LoadError::SuraOutOfRange { line: 1, sura_id: 0 }
    );
    assert_eq!(
        parse_quran_text("114|0|t").unwrap_err(),
        LoadError::AyaIdZero { line: 1 }
    );
}

#[test]
fn parse_text_without_verses_is_refused() {
    assert_eq!(parse_quran_text("").unwrap_err(), LoadError::NoRows);
    assert_eq!(parse_quran_text("# only\n   \n").unwrap_err(), LoadError::NoRows);
}

#[test]
fn parse_u32_like_from_str() {
    let c = |s: &str| s.chars().collect::<Vec<char>>();
    assert_eq!(parse_u32_chars(&c("4294967295")), Ok(4294967295));
    assert_eq!(parse_u32_chars(&c("4294967296")), Err(NumberError::PosOverflow));
    assert_eq!(parse_u32_chars(&c("-1")), Err(NumberError::InvalidDigit));
    assert_eq!(parse_u32_chars(&c("-")), Err(NumberError::InvalidDigit));
    assert_eq!(parse_u32_chars(&c("")), Err(NumberError::Empty));
    assert_eq!(parse_u32_chars(&c("007")), Ok(7));
    for s in ["0", "12", "+3", "4294967295", "4294967296", "1a", "", "+", "-2", " 1"] {
        assert_eq!(parse_u32_chars(&c(s)).ok(), s.parse::<u32>().ok(), "{}", s);
    }
}
