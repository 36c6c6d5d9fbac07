use offline_dict_cli::{
    help_output, help_text_for, history_headword, history_warning, lookup_output, parse_command,
    version_output, Command, Dictionary, DictionaryEntry, LookupError, Tag,
};

fn args(items: &[&str]) -> Vec<String> {
    items.iter().map(|item| item.to_string()).collect()
}

fn fixture() -> Dictionary {
    Dictionary::from_entries(vec![
        DictionaryEntry {
            headword: "abandon".to_string(),
            definitions: vec!["放弃".to_string(), "遗弃".to_string(), "沉湎于".to_string()],
            tags: vec![Tag::Cet4, Tag::Cet6],
        },
        DictionaryEntry {
            headword: "quit".to_string(),
            definitions: vec!["放弃".to_string()],
            tags: vec![Tag::Common3500],
        },
        DictionaryEntry {
            headword: "renounce".to_string(),
            definitions: vec!["放弃".to_string()],
            tags: vec![Tag::Gre],
        },
        DictionaryEntry {
            headword: "give up".to_string(),
            definitions: vec!["放弃".to_string()],
            tags: vec![],
        },
        DictionaryEntry {
            headword: "search-log".to_string(),
            definitions: vec!["日志搜索".to_string()],
            tags: vec![Tag::Gre],
        },
    ])
}

#[test]
fn no_arguments_ask_for_help() {
    assert_eq!(parse_command(args(&[])), Ok(Command::Help));
    let help = help_text_for("1.2.3");
    assert!(help.contains("Usage:"));
    assert!(help.contains("dict [--all] <query>"));
    assert!(help.contains("dict search-log"));
    assert!(help.ends_with("Version:\n  1.2.3\n"));
}

#[test]
fn help_and_version_win_wherever_they_stand() {
    assert_eq!(parse_command(args(&["search-log", "--bogus", "--help"])), Ok(Command::Help));
    assert_eq!(parse_command(args(&["abandon", "--version"])), Ok(Command::Version));
    assert_eq!(parse_command(args(&["--version", "--help"])), Ok(Command::Help));
}

#[test]
fn positionals_are_joined_into_one_query() {
    assert_eq!(
        parse_command(args(&["give", "up"])),
        Ok(Command::Lookup { query: "give up".to_string(), show_all: false })
    );
    assert_eq!(
        parse_command(args(&["--all", "放弃"])),
        Ok(Command::Lookup { query: "放弃".to_string(), show_all: true })
    );
}

#[test]
fn search_log_rejects_all_flag_and_extra_positionals() {
    assert_eq!(
        parse_command(args(&["search-log", "--all"])),
        Err("error: unexpected argument '--all' found".to_string())
    );
    assert_eq!(
        parse_command(args(&["search-log", "extra"])),
        Err("error: unexpected argument 'extra' found".to_string())
    );
    assert_eq!(
        parse_command(args(&["-x"])),
        Err("error: unexpected argument '-x' found".to_string())
    );
    assert_eq!(
        parse_command(args(&["--from", "2026-04-10"])),
        Err("error: unexpected argument '--from' found".to_string())
    );
}

#[test]
fn search_log_bounds_come_in_pairs() {
    assert_eq!(
        parse_command(args(&["search-log", "--from", "2026-04-10"])),
        Err("error: --from and --to must be provided together".to_string())
    );
    assert_eq!(
        parse_command(args(&["search-log", "--to"])),
        Err("error: missing value for '--to'".to_string())
    );
    assert_eq!(
        parse_command(args(&["search-log", "--from", "2026-04-10", "--to", "2026-04-11"])),
        Ok(Command::SearchLog {
            from: Some("2026-04-10".to_string()),
            to: Some("2026-04-11".to_string())
        })
    );
    assert_eq!(
        parse_command(args(&["search-log"])),
        Ok(Command::SearchLog { from: None, to: None })
    );
}

#[test]
fn search_log_after_a_word_or_all_is_a_literal_query() {
    assert_eq!(
        parse_command(args(&["--all", "search-log"])),
        Ok(Command::Lookup { query: "search-log".to_string(), show_all: true })
    );
    assert_eq!(
        parse_command(args(&["log", "search-log"])),
        Ok(Command::Lookup { query: "log search-log".to_string(), show_all: false })
    );
}

#[test]
fn lookup_outputs_match_the_outcome() {
    let dictionary = fixture();

    let found = dictionary.lookup("Abandon", false);
    let output = lookup_output(&found, "Abandon", false, "9.9.9");
    assert_eq!(output.stdout, "abandon\ntags: CET4\n1. 放弃\n2. 遗弃\n3. 沉湎于\n");
    assert_eq!(output.stderr, "");
    assert_eq!(output.exit_code, 0);
    assert_eq!(history_headword(&found), Some("abandon".to_string()));

    let all = dictionary.lookup("放弃", true);
    let output = lookup_output(&all, "放弃", true, "9.9.9");
    assert!(output.stdout.contains("1. quit"));
    assert!(output.stdout.contains("4. give up"));
    assert!(!output.stdout.contains("of 4"));
    assert_eq!(history_headword(&all), None);

    let missing = dictionary.lookup("missing", false);
    let output = lookup_output(&missing, "missing", false, "9.9.9");
    assert_eq!(output.stdout, "未找到精确匹配: missing\n");
    assert_eq!(output.exit_code, 1);
    assert_eq!(history_headword(&missing), None);

    let empty: Result<_, LookupError> = dictionary.lookup("  ", false);
    let output = lookup_output(&empty, "  ", false, "9.9.9");
    assert_eq!(output.stdout, help_text_for("9.9.9"));
    assert_eq!(output.exit_code, 0);

    let literal = dictionary.lookup("search-log", true);
    let output = lookup_output(&literal, "search-log", true, "9.9.9");
    assert!(output.stdout.contains("search-log"));
    assert!(output.stdout.contains("日志搜索"));
}

#[test]
fn help_version_and_warning_texts() {
    let help = help_output("0.1.0");
    assert_eq!(help.exit_code, 0);
    assert_eq!(help.stdout, help_text_for("0.1.0"));
    let version = version_output("0.1.0");
    assert_eq!(version.stdout, "0.1.0\n");
    assert_eq!(version.stderr, "");
    assert_eq!(
        history_warning("history path x is not a directory"),
        "warning: failed to record history: history path x is not a directory\n"
    );
}
