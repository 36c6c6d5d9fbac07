use offline_dict_cli::text::{contains_chinese, normalize_chinese, normalize_english};
use offline_dict_cli::{Clock, Dictionary, DictionaryEntry, SystemClock, Tag};

#[test]
fn english_normalization_collapses_whitespace_and_lowercases_ascii() {
    assert_eq!(normalize_english("  Give\t\u{3000}UP  "), "give up");
    assert_eq!(normalize_english("ÀPPLE Pie"), "Àpple pie");
    assert_eq!(normalize_english(" \n "), "");
}

#[test]
fn english_normalization_is_idempotent() {
    for text in ["  Give\t\u{3000}UP  ", "Search-Log", "a  B\r\nc", ""] {
        let once = normalize_english(text);
        assert_eq!(normalize_english(&once), once);
        assert_eq!(normalize_english(once.trim()), once);
    }
}

#[test]
fn chinese_normalization_removes_all_whitespace() {
    assert_eq!(normalize_chinese(" 放 \u{3000}弃 "), "放弃");
    assert_eq!(normalize_chinese("对 … 放弃希望"), "对…放弃希望");
}

#[test]
fn chinese_detection_looks_for_cjk_ideographs() {
    assert!(contains_chinese("abc放弃"));
    assert!(contains_chinese("\u{20000}"));
    assert!(contains_chinese("\u{F900}"));
    assert!(!contains_chinese("abandon"));
    assert!(!contains_chinese("，。"));
    assert!(!contains_chinese("日本語だ".trim_start_matches(|c: char| c != 'だ')));
}

#[test]
fn uppercase_and_lowercase_queries_find_the_same_entry() {
    let dictionary = Dictionary::from_entries(vec![DictionaryEntry {
        headword: "Focus".to_string(),
        definitions: vec!["焦点".to_string(), "集中".to_string()],
        tags: vec![Tag::Cet4],
    }]);
    let upper = dictionary.lookup("FOCUS", false).expect("upper");
    let lower = dictionary.lookup("focus", false).expect("lower");
    assert_eq!(upper.query, "FOCUS");
    assert_eq!(lower.query, "focus");
    assert_eq!(upper.displayed_query, lower.displayed_query);
    assert_eq!(upper.results, lower.results);
    assert_eq!(upper.display_tag, lower.display_tag);
    assert_eq!(upper.tags, lower.tags);
}

#[test]
fn system_clock_gives_a_plausible_date() {
    let today = SystemClock.today_local().expect("the system clock gives a date");
    assert!(today.year() >= 2024);
    assert!((1..=12).contains(&today.month()));
    assert!((1..=31).contains(&today.day()));
}
