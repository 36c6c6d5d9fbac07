use offline_dict_cli::build_support::{dataset_for_embedding, dataset_has_entries, missing_dataset_message};
use offline_dict_cli::history::{
    default_range_ending, format_search_log, history_append, history_dates, history_file_name,
    history_store_from_config, parse_date, parse_history_words, resolve_history_dir,
    default_date_range, local_date_from_elapsed, resolve_search_log_range, CLOCK_SECONDS_LIMIT, resolve_search_log_range_at, HistoryDay,
    HistoryStore,
};
use offline_dict_cli::{search_log_output, Clock, Date, RuntimeConfig};

struct FixedClock(Option<Date>);

impl Clock for FixedClock {
    fn today_local(&self) -> Option<Date> {
        self.0
    }
}

fn date(y: i32, m: u32, d: u32) -> Date {
    Date::from_ymd(y, m, d).expect("valid date")
}

fn words(items: &[&str]) -> Vec<String> {
    items.iter().map(|item| item.to_string()).collect()
}

#[test]
fn history_reads_deduplicate_lines_and_skip_chinese() {
    assert_eq!(
        parse_history_words("abandon\napple\nabandon\n \n放弃\n"),
        words(&["abandon", "apple"])
    );
    assert_eq!(parse_history_words("focus\nfocus\n"), words(&["focus"]));
    assert_eq!(parse_history_words("  Give   UP \r\nlast"), words(&["give up", "last"]));
    assert_eq!(parse_history_words(""), Vec::<String>::new());
}

#[test]
fn history_records_each_word_once_per_day() {
    let existing = parse_history_words("");
    let line = history_append(&existing, "Abandon").expect("first lookup is recorded");
    assert_eq!(line, "abandon\n");
    let after = parse_history_words(&line);
    assert_eq!(after, words(&["abandon"]));
    assert_eq!(history_append(&after, "abandon"), None);
    assert_eq!(history_append(&after, "   "), None);
    assert_eq!(history_append(&after, "apple"), Some("apple\n".to_string()));
}

#[test]
fn default_search_log_range_is_the_last_seven_days() {
    let (from, to) = default_range_ending(date(2026, 4, 18)).expect("in range");
    assert_eq!(from, date(2026, 4, 12));
    assert_eq!(to, date(2026, 4, 18));
    let (from, _) = default_range_ending(date(2024, 3, 3)).expect("in range");
    assert_eq!(from, date(2024, 2, 26));
    let (from, _) = default_range_ending(date(2026, 1, 2)).expect("in range");
    assert_eq!(from, date(2025, 12, 27));
    assert!(default_range_ending(date(-262143, 1, 3)).is_none());
}

#[test]
fn history_dates_run_newest_first_and_inclusive() {
    let days = history_dates(date(2026, 4, 10), date(2026, 4, 11));
    assert_eq!(days, vec![date(2026, 4, 11), date(2026, 4, 10)]);
    let single = history_dates(date(2026, 4, 10), date(2026, 4, 10));
    assert_eq!(single, vec![date(2026, 4, 10)]);
    let across = history_dates(date(2023, 2, 27), date(2023, 3, 1));
    assert_eq!(across, vec![date(2023, 3, 1), date(2023, 2, 28), date(2023, 2, 27)]);
}

#[test]
fn search_log_output_lists_every_day() {
    let days = vec![
        HistoryDay { date: date(2026, 4, 18), words: words(&["abandon", "apple"]) },
        HistoryDay { date: date(2026, 4, 17), words: Vec::new() },
    ];
    assert_eq!(
        format_search_log(&days),
        "2026-04-18\n1. abandon\n2. apple\n\n2026-04-17\n(no queries)\n"
    );
    let output = search_log_output(&days);
    assert_eq!(output.exit_code, 0);
    assert_eq!(output.stderr, "");
    assert_eq!(
        format_search_log(&vec![
            HistoryDay { date: date(2026, 4, 11), words: words(&["beta"]) },
            HistoryDay { date: date(2026, 4, 10), words: words(&["alpha"]) },
        ]),
        "2026-04-11\n1. beta\n\n2026-04-10\n1. alpha\n"
    );
}

#[test]
fn dates_parse_and_render_as_iso() {
    assert_eq!(parse_date("2026-04-10"), Ok(date(2026, 4, 10)));
    assert_eq!(
        parse_date("2026-04-31"),
        Err("error: invalid date '2026-04-31', expected YYYY-MM-DD".to_string())
    );
    assert_eq!(history_file_name(&date(2026, 4, 18)), "2026-04-18.txt");
    assert_eq!(history_file_name(&date(987, 1, 2)), "0987-01-02.txt");
    assert_eq!(history_file_name(&date(-5, 12, 31)), "-0005-12-31.txt");
    assert_eq!(history_file_name(&date(12345, 6, 7)), "+12345-06-07.txt");
    assert!(Date::from_ymd(2023, 2, 29).is_none());
    assert!(Date::from_ymd(2024, 2, 29).is_some());
    assert!(Date::from_ymd(1900, 2, 29).is_none());
    assert!(Date::from_ymd(2000, 2, 29).is_some());
    assert_eq!(date(2024, 3, 1).pred(), Some(date(2024, 2, 29)));
    assert_eq!(date(-262143, 1, 1).pred(), None);
}

#[test]
fn search_log_ranges_are_checked() {
    let today = date(2026, 4, 18);
    assert_eq!(
        resolve_search_log_range_at(None, None, today),
        Ok((date(2026, 4, 12), today))
    );
    assert_eq!(
        resolve_search_log_range_at(Some("2026-04-10"), Some("2026-04-11"), today),
        Ok((date(2026, 4, 10), date(2026, 4, 11)))
    );
    assert_eq!(
        resolve_search_log_range_at(Some("2026-04-11"), Some("2026-04-10"), today),
        Err("error: from date must be on or before to date".to_string())
    );
    assert_eq!(
        resolve_search_log_range_at(Some("2026-04-31"), Some("2026-05-01"), today),
        Err("error: invalid date '2026-04-31', expected YYYY-MM-DD".to_string())
    );
    assert_eq!(
        resolve_search_log_range_at(Some("2026-04-10"), None, today),
        Err("error: --from and --to must be provided together".to_string())
    );
}

#[test]
fn system_clock_readings_become_local_dates() {
    assert_eq!(local_date_from_elapsed(None), None);
    assert_eq!(local_date_from_elapsed(Some((CLOCK_SECONDS_LIMIT + 1, 0))), None);
    let epoch = local_date_from_elapsed(Some((0, 0))).expect("the epoch has a local date");
    assert!(
        epoch == date(1969, 12, 31) || epoch == date(1970, 1, 1) || epoch == date(1970, 1, 2)
    );
    let noon = local_date_from_elapsed(Some((1_776_513_600, 0))).expect("2026-04-18 12:00 UTC");
    assert!(
        noon == date(2026, 4, 17) || noon == date(2026, 4, 18) || noon == date(2026, 4, 19)
    );
    assert!(local_date_from_elapsed(Some((CLOCK_SECONDS_LIMIT, 999_999_999))).is_some());
}

#[test]
fn default_range_follows_the_clock() {
    let clock = FixedClock(Some(date(2026, 3, 2)));
    assert_eq!(default_date_range(&clock), Some((date(2026, 2, 24), date(2026, 3, 2))));
    assert_eq!(
        resolve_search_log_range(None, None, &clock),
        Ok((date(2026, 2, 24), date(2026, 3, 2)))
    );
    assert_eq!(
        resolve_search_log_range(Some("2026-01-01"), Some("2026-01-02"), &clock),
        Ok((date(2026, 1, 1), date(2026, 1, 2)))
    );
    let early = FixedClock(Some(date(-262143, 1, 3)));
    assert_eq!(default_date_range(&early), None);
    let silent = FixedClock(None);
    assert_eq!(default_date_range(&silent), None);
    assert_eq!(
        resolve_search_log_range(None, None, &silent),
        Err("error: date out of range".to_string())
    );
}

#[test]
fn history_directory_is_resolved() {
    assert_eq!(resolve_history_dir(Some("/tmp/h"), Some("C:/x")), Ok(words(&["/tmp/h"])));
    assert_eq!(
        resolve_history_dir(None, Some("C:/Users/a/AppData/Local")),
        Ok(words(&["C:/Users/a/AppData/Local", "offline-dict-cli", "log"]))
    );
    assert_eq!(
        resolve_history_dir(None, None),
        Err("error: LOCALAPPDATA is unavailable and OFFLINE_DICT_HISTORY_DIR is not set".to_string())
    );
    let store = history_store_from_config(&RuntimeConfig {
        dataset_path: None,
        history_dir: None,
        local_app_data: Some("base".to_string()),
    })
    .expect("store");
    assert_eq!(store.directory_components(), &words(&["base", "offline-dict-cli", "log"]));
    let explicit = HistoryStore::new(words(&["dir"]));
    assert_eq!(explicit.directory_components(), &words(&["dir"]));
    assert!(history_store_from_config(&RuntimeConfig::default()).is_err());
}

#[test]
fn dataset_embedding_checks() {
    let message = missing_dataset_message("data/generated/dictionary.json");
    assert!(message.contains("generated dataset"));
    assert!(message.contains("missing or empty"));
    assert!(message.contains("cargo run --bin generate_dataset"));
    assert_eq!(dataset_for_embedding(None, "p", true), Ok("{\"entries\":[]}".to_string()));
    assert!(dataset_for_embedding(None, "p", false).is_err());
    let full = "{\"entries\":[{\"headword\":\"abandon\",\"definitions\":[\"放弃\"],\"tags\":[]}]}";
    assert_eq!(dataset_for_embedding(Some(full), "p", false), Ok(full.to_string()));
    assert!(dataset_for_embedding(Some("{\"entries\":[]}"), "p", false)
        .unwrap_err()
        .contains("missing or empty"));
    assert_eq!(
        dataset_for_embedding(Some("{\"entries\":[]}"), "p", true),
        Ok("{\"entries\":[]}".to_string())
    );
    assert_eq!(dataset_has_entries(full), Ok(true));
    assert_eq!(
        dataset_has_entries("{}"),
        Err("generated dataset must contain an 'entries' array".to_string())
    );
    assert!(dataset_has_entries("not json")
        .unwrap_err()
        .starts_with("failed to parse generated dataset: "));
}
