use offline_dict_cli::importer::{
    build_persisted_dictionary, source_file_specs, summarize_source_documents,
    SourceDictionaryEntry, SourceDocument, SourcePhrase, SourceTranslation,
};
use offline_dict_cli::{DictionaryEntry, PersistedDictionary, Tag};

#[test]
fn importer_merges_duplicate_headwords_and_ignores_phrases() {
    let persisted = build_persisted_dictionary(&vec![
        SourceDocument {
            tag: Some(Tag::Cet4),
            entries: vec![SourceDictionaryEntry {
                word: "Abandon".to_string(),
                translations: vec![SourceTranslation {
                    translation: "放弃；遗弃".to_string(),
                    kind: Some("v".to_string()),
                }],
                phrases: vec![SourcePhrase {
                    phrase: "abandon ship".to_string(),
                    translation: "弃船".to_string(),
                }],
            }],
        },
        SourceDocument {
            tag: Some(Tag::Cet6),
            entries: vec![SourceDictionaryEntry {
                word: "abandon".to_string(),
                translations: vec![SourceTranslation {
                    translation: "遗弃；沉湎于".to_string(),
                    kind: Some("v".to_string()),
                }],
                phrases: Vec::new(),
            }],
        },
    ]);

    assert_eq!(
        persisted,
        PersistedDictionary {
            entries: vec![DictionaryEntry {
                headword: "abandon".to_string(),
                definitions: vec!["放弃".to_string(), "遗弃".to_string(), "沉湎于".to_string()],
                tags: vec![Tag::Cet4, Tag::Cet6],
            }]
        }
    );
}

#[test]
fn importer_strips_common_annotation_noise_from_translations() {
    let persisted = build_persisted_dictionary(&vec![SourceDocument {
        tag: Some(Tag::Common3500),
        entries: vec![SourceDictionaryEntry {
            word: "Access".to_string(),
            translations: vec![
                SourceTranslation {
                    translation: "[计] 访问；接近".to_string(),
                    kind: Some("v".to_string()),
                },
                SourceTranslation {
                    translation: "n. 入口；通道".to_string(),
                    kind: Some("n".to_string()),
                },
            ],
            phrases: Vec::new(),
        }],
    }]);

    assert_eq!(
        persisted,
        PersistedDictionary {
            entries: vec![DictionaryEntry {
                headword: "access".to_string(),
                definitions: vec![
                    "访问".to_string(),
                    "接近".to_string(),
                    "入口".to_string(),
                    "通道".to_string()
                ],
                tags: vec![Tag::Common3500],
            }]
        }
    );
}

#[test]
fn importer_summarizes_headword_and_phrase_counts_separately() {
    let summary = summarize_source_documents(&vec![
        SourceDocument {
            tag: Some(Tag::Cet4),
            entries: vec![
                SourceDictionaryEntry {
                    word: "Abandon".to_string(),
                    translations: vec![SourceTranslation {
                        translation: "放弃".to_string(),
                        kind: Some("v".to_string()),
                    }],
                    phrases: vec![SourcePhrase {
                        phrase: "abandon ship".to_string(),
                        translation: "弃船".to_string(),
                    }],
                },
                SourceDictionaryEntry {
                    word: "abandon".to_string(),
                    translations: vec![SourceTranslation {
                        translation: "遗弃".to_string(),
                        kind: Some("v".to_string()),
                    }],
                    phrases: vec![SourcePhrase {
                        phrase: "abandon ship".to_string(),
                        translation: "弃船".to_string(),
                    }],
                },
            ],
        },
        SourceDocument {
            tag: None,
            entries: vec![SourceDictionaryEntry {
                word: "give up".to_string(),
                translations: vec![SourceTranslation {
                    translation: "放弃".to_string(),
                    kind: Some("v".to_string()),
                }],
                phrases: vec![SourcePhrase {
                    phrase: "give up on".to_string(),
                    translation: "对…放弃希望".to_string(),
                }],
            }],
        },
    ]);

    assert_eq!(summary.unique_headwords, 1);
    assert_eq!(summary.ignored_unique_phrases, 2);
    assert_eq!(summary.ignored_multi_word_headwords, 1);
    assert_eq!(summary.total_exact_query_keys, 1);
}

#[test]
fn importer_summary_deduplicates_overlap_between_headwords_and_phrases() {
    let summary = summarize_source_documents(&vec![SourceDocument {
        tag: None,
        entries: vec![
            SourceDictionaryEntry {
                word: "give up".to_string(),
                translations: vec![SourceTranslation {
                    translation: "放弃".to_string(),
                    kind: Some("v".to_string()),
                }],
                phrases: Vec::new(),
            },
            SourceDictionaryEntry {
                word: "abandon".to_string(),
                translations: vec![SourceTranslation {
                    translation: "放弃".to_string(),
                    kind: Some("v".to_string()),
                }],
                phrases: vec![SourcePhrase {
                    phrase: "give up".to_string(),
                    translation: "放弃".to_string(),
                }],
            },
        ],
    }]);

    assert_eq!(summary.unique_headwords, 1);
    assert_eq!(summary.ignored_unique_phrases, 1);
    assert_eq!(summary.ignored_multi_word_headwords, 1);
    assert_eq!(summary.total_exact_query_keys, 1);
}

#[test]
fn importer_ignores_multi_word_headwords() {
    let persisted = build_persisted_dictionary(&vec![SourceDocument {
        tag: Some(Tag::Cet4),
        entries: vec![
            SourceDictionaryEntry {
                word: "abandon".to_string(),
                translations: vec![SourceTranslation {
                    translation: "放弃".to_string(),
                    kind: Some("v".to_string()),
                }],
                phrases: Vec::new(),
            },
            SourceDictionaryEntry {
                word: "abandon ship".to_string(),
                translations: vec![SourceTranslation {
                    translation: "弃船".to_string(),
                    kind: Some("v".to_string()),
                }],
                phrases: Vec::new(),
            },
        ],
    }]);

    assert_eq!(
        persisted,
        PersistedDictionary {
            entries: vec![DictionaryEntry {
                headword: "abandon".to_string(),
                definitions: vec!["放弃".to_string()],
                tags: vec![Tag::Cet4],
            }]
        }
    );
}

fn entry(word: &str, translations: &[&str], phrases: &[(&str, &str)]) -> SourceDictionaryEntry {
    SourceDictionaryEntry {
        word: word.to_string(),
        translations: translations
            .iter()
            .map(|t| SourceTranslation {
                translation: t.to_string(),
                kind: None,
            })
            .collect(),
        phrases: phrases
            .iter()
            .map(|(p, t)| SourcePhrase {
                phrase: p.to_string(),
                translation: t.to_string(),
            })
            .collect(),
    }
}

#[test]
fn importer_splits_on_every_separator_and_trims_edge_punctuation() {
    let persisted = build_persisted_dictionary(&vec![SourceDocument {
        tag: None,
        entries: vec![entry(
            "word",
            &["adj. 甲；乙;丙，丁,戊、己", "（旧）“庚”。", "vt. vi. 辛：", "[口] (俚) 壬", "n.", "   "],
            &[],
        )],
    }]);
    assert_eq!(
        persisted,
        PersistedDictionary {
            entries: vec![DictionaryEntry {
                headword: "word".to_string(),
                definitions: ["甲", "乙", "丙", "丁", "戊", "己", "庚", "辛", "壬"]
                    .iter()
                    .map(|d| d.to_string())
                    .collect(),
                tags: vec![],
            }]
        }
    );
}

#[test]
fn importer_keeps_unclosed_brackets_and_inner_markers() {
    let persisted = build_persisted_dictionary(&vec![SourceDocument {
        tag: Some(Tag::Cet6),
        entries: vec![entry("Word", &["[未闭合 甲", "乙 n. 丙"], &[])],
    }]);
    assert_eq!(
        persisted.entries[0].definitions,
        vec!["[未闭合 甲".to_string(), "乙 n. 丙".to_string()]
    );
    assert_eq!(persisted.entries[0].tags, vec![Tag::Cet6]);
}

#[test]
fn importer_sorts_headwords_and_merges_tags_across_lists() {
    let persisted = build_persisted_dictionary(&vec![
        SourceDocument {
            tag: Some(Tag::Cet6),
            entries: vec![entry("zoo", &["动物园"], &[]), entry("Apple", &["苹果"], &[])],
        },
        SourceDocument {
            tag: Some(Tag::Common3500),
            entries: vec![entry("apple", &["苹果；苹果树"], &[]), entry("  ", &["空"], &[])],
        },
        SourceDocument {
            tag: None,
            entries: vec![entry("Mango", &[], &[])],
        },
    ]);
    let headwords: Vec<&str> = persisted.entries.iter().map(|e| e.headword.as_str()).collect();
    assert_eq!(headwords, vec!["apple", "mango", "zoo"]);
    assert_eq!(
        persisted.entries[0].definitions,
        vec!["苹果".to_string(), "苹果树".to_string()]
    );
    assert_eq!(persisted.entries[0].tags, vec![Tag::Common3500, Tag::Cet6]);
    assert!(persisted.entries[1].definitions.is_empty());
    assert!(persisted.entries[1].tags.is_empty());
    assert_eq!(persisted.entries[2].tags, vec![Tag::Cet6]);
}

#[test]
fn importer_source_files_map_to_tags() {
    let specs = source_file_specs();
    let names: Vec<&str> = specs.iter().map(|(name, _)| name.as_str()).collect();
    assert_eq!(
        names,
        vec![
            "1-初中-顺序.json",
            "2-高中-顺序.json",
            "3-CET4-顺序.json",
            "4-CET6-顺序.json",
            "5-考研-顺序.json",
            "6-托福-顺序.json",
            "7-SAT-顺序.json"
        ]
    );
    let tags: Vec<Option<Tag>> = specs.iter().map(|(_, tag)| *tag).collect();
    assert_eq!(
        tags,
        vec![Some(Tag::Common3500), None, Some(Tag::Cet4), Some(Tag::Cet6), None, None, None]
    );
}

#[test]
fn importer_summary_of_nothing_is_zero() {
    let summary = summarize_source_documents(&Vec::new());
    assert_eq!(summary.unique_headwords, 0);
    assert_eq!(summary.ignored_unique_phrases, 0);
    assert_eq!(summary.ignored_multi_word_headwords, 0);
    assert_eq!(summary.total_exact_query_keys, 0);
}
