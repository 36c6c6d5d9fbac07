use offline_dict_cli::{
    format_result, Dictionary, DictionaryEntry, LookupError, PersistedDictionary, QueryKind, Tag,
};

fn sample_dictionary() -> Dictionary {
    Dictionary::from_entries(vec![
        DictionaryEntry {
            headword: "abandon".to_string(),
            definitions: vec!["放弃".to_string(), "遗弃".to_string(), "沉湎于".to_string()],
            tags: vec![Tag::Cet4, Tag::Cet6],
        },
        DictionaryEntry {
            headword: "forsake".to_string(),
            definitions: vec!["放弃".to_string()],
            tags: vec![Tag::Tem4],
        },
        DictionaryEntry {
            headword: "quit".to_string(),
            definitions: vec!["放弃".to_string()],
            tags: vec![Tag::Common3500],
        },
        DictionaryEntry {
            headword: "renounce".to_string(),
            definitions: vec!["放弃".to_string()],
            tags: vec![Tag::Gre],
        },
        DictionaryEntry {
            headword: "relinquish".to_string(),
            definitions: vec!["放弃".to_string()],
            tags: vec![Tag::Tem8],
        },
        DictionaryEntry {
            headword: "surrender".to_string(),
            definitions: vec!["放弃".to_string()],
            tags: vec![Tag::Cet6],
        },
        DictionaryEntry {
            headword: "give up".to_string(),
            definitions: vec!["放弃".to_string()],
            tags: vec![],
        },
    ])
}

#[test]
fn english_lookup_is_case_insensitive_and_formats_tags() {
    let dictionary = sample_dictionary();

    let result = dictionary
        .lookup("Abandon", false)
        .expect("lookup should work");

    assert_eq!(result.kind, QueryKind::English);
    assert_eq!(result.displayed_query, "abandon");
    assert_eq!(result.tags, vec![Tag::Cet4, Tag::Cet6]);
    assert_eq!(result.display_tag, Some(Tag::Cet4));
    assert_eq!(
        result.results,
        vec!["放弃".to_string(), "遗弃".to_string(), "沉湎于".to_string()]
    );
    assert_eq!(result.total_results, 3);

    assert_eq!(
        format_result(&result, false),
        "abandon\ntags: CET4\n1. 放弃\n2. 遗弃\n3. 沉湎于"
    );
}

#[test]
fn english_phrase_lookup_is_exact() {
    let dictionary = sample_dictionary();

    let result = dictionary
        .lookup("give up", false)
        .expect("phrase should match");

    assert_eq!(result.kind, QueryKind::English);
    assert_eq!(result.displayed_query, "give up");
    assert_eq!(result.display_tag, None);
    assert!(result.tags.is_empty());
    assert_eq!(result.results, vec!["放弃".to_string()]);
}

#[test]
fn common_3500_is_the_lowest_display_tag() {
    let dictionary = sample_dictionary();

    let result = dictionary
        .lookup("quit", false)
        .expect("lookup should work");

    assert_eq!(result.tags, vec![Tag::Common3500]);
    assert_eq!(result.display_tag, Some(Tag::Common3500));
    assert_eq!(
        format_result(&result, false),
        "quit\ntags: COMMON_3500\n1. 放弃"
    );
}

#[test]
fn chinese_lookup_is_ranked_and_truncated_by_default() {
    let dictionary = sample_dictionary();

    let result = dictionary
        .lookup("放弃", false)
        .expect("reverse lookup should work");

    assert_eq!(result.kind, QueryKind::Chinese);
    assert_eq!(result.displayed_query, "放弃");
    assert_eq!(result.display_tag, None);
    assert!(result.tags.is_empty());
    assert_eq!(
        result.results,
        vec![
            "quit".to_string(),
            "abandon".to_string(),
            "surrender".to_string(),
            "forsake".to_string(),
            "relinquish".to_string()
        ]
    );
    assert_eq!(result.total_results, 7);

    assert_eq!(
        format_result(&result, false),
        "放弃\n1. quit\n2. abandon\n3. surrender\n4. forsake\n5. relinquish\n\n5 of 7 results, use --all to show more"
    );
}

#[test]
fn chinese_lookup_can_show_all_results() {
    let dictionary = sample_dictionary();

    let result = dictionary
        .lookup("放弃", true)
        .expect("reverse lookup should work");

    assert_eq!(
        result.results,
        vec![
            "quit".to_string(),
            "abandon".to_string(),
            "surrender".to_string(),
            "forsake".to_string(),
            "relinquish".to_string(),
            "renounce".to_string(),
            "give up".to_string()
        ]
    );

    assert_eq!(
        format_result(&result, true),
        "放弃\n1. quit\n2. abandon\n3. surrender\n4. forsake\n5. relinquish\n6. renounce\n7. give up"
    );
}

#[test]
fn missing_query_returns_not_found() {
    let dictionary = sample_dictionary();

    let error = dictionary
        .lookup("missing", false)
        .expect_err("should miss");

    assert_eq!(
        error,
        LookupError::NotFound {
            query: "missing".to_string()
        }
    );
}

#[test]
fn empty_or_blank_query_is_rejected() {
    let dictionary = sample_dictionary();
    assert_eq!(dictionary.lookup("", false), Err(LookupError::EmptyQuery));
    assert_eq!(dictionary.lookup(" \t\u{3000} ", true), Err(LookupError::EmptyQuery));
}

#[test]
fn english_lookup_collapses_whitespace_and_trims() {
    let dictionary = sample_dictionary();
    let result = dictionary
        .lookup("  GIVE \t  Up ", false)
        .expect("phrase should match");
    assert_eq!(result.query, "GIVE \t  Up");
    assert_eq!(result.displayed_query, "give up");
    assert!(dictionary.lookup("giveup", false).is_err());
    assert!(dictionary.lookup("abandons", false).is_err());
}

#[test]
fn chinese_lookup_ignores_inner_whitespace_and_reports_missing() {
    let dictionary = sample_dictionary();
    let result = dictionary.lookup(" 放 弃 ", false).expect("reverse lookup");
    assert_eq!(result.query, "放 弃");
    assert_eq!(result.total_results, 7);
    assert_eq!(
        dictionary.lookup("苹果", false),
        Err(LookupError::NotFound { query: "苹果".to_string() })
    );
}

#[test]
fn later_entry_wins_for_the_same_english_key_and_definitions_are_cleaned() {
    let dictionary = Dictionary::from_persisted(PersistedDictionary {
        entries: vec![
            DictionaryEntry {
                headword: "Apple".to_string(),
                definitions: vec!["苹果".to_string()],
                tags: vec![Tag::Gre],
            },
            DictionaryEntry {
                headword: "apple".to_string(),
                definitions: vec![" 苹果树 ".to_string(), "".to_string(), "苹果树".to_string()],
                tags: vec![Tag::Gre, Tag::Common3500, Tag::Gre],
            },
        ],
    });
    let result = dictionary.lookup("APPLE", false).expect("lookup");
    assert_eq!(result.displayed_query, "apple");
    assert_eq!(result.results, vec!["苹果树".to_string()]);
    assert_eq!(result.tags, vec![Tag::Common3500, Tag::Gre]);
    assert_eq!(result.display_tag, Some(Tag::Common3500));
    assert_eq!(format_result(&result, false), "apple\ntags: COMMON_3500\n1. 苹果树");
}

#[test]
fn reverse_lookup_ties_are_broken_by_headword_and_untagged_come_last() {
    let dictionary = Dictionary::from_entries(vec![
        DictionaryEntry {
            headword: "zeta".to_string(),
            definitions: vec!["词".to_string()],
            tags: vec![],
        },
        DictionaryEntry {
            headword: "Beta".to_string(),
            definitions: vec!["词".to_string()],
            tags: vec![Tag::Cet6],
        },
        DictionaryEntry {
            headword: "alpha".to_string(),
            definitions: vec!["词".to_string()],
            tags: vec![Tag::Cet6, Tag::Gre],
        },
    ]);
    let result = dictionary.lookup("词", true).expect("reverse lookup");
    assert_eq!(
        result.results,
        vec!["alpha".to_string(), "Beta".to_string(), "zeta".to_string()]
    );
    assert_eq!(format_result(&result, false), "词\n1. alpha\n2. Beta\n3. zeta");
}

#[test]
fn tag_labels_and_priorities_follow_the_display_chain() {
    let tags = [Tag::Common3500, Tag::Cet4, Tag::Cet6, Tag::Tem4, Tag::Tem8, Tag::Gre];
    let labels: Vec<&str> = tags.iter().map(|tag| tag.label()).collect();
    assert_eq!(labels, vec!["COMMON_3500", "CET4", "CET6", "TEM4", "TEM8", "GRE"]);
    let priorities: Vec<usize> = tags.iter().map(|tag| tag.priority()).collect();
    assert_eq!(priorities, vec![0, 1, 2, 3, 4, 5]);
}

#[test]
fn lookup_errors_describe_themselves() {
    assert_eq!(LookupError::EmptyQuery.message(), "empty query");
    assert_eq!(
        LookupError::NotFound { query: "missing".to_string() }.message(),
        "未找到精确匹配: missing"
    );
}
