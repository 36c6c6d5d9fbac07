//! Command-line arguments, commands and the text that the commands print.

use vstd::prelude::*;

use crate::text::{chars_of, join, join_chars, push_all, push_str, string_of, views};
use crate::dictionary::{chars_eq, format_result, result_lines, LookupError, LookupResult, QueryKind};
use crate::history::{format_search_log, search_log_text, HistoryDay};

verus! {

/// What the program is asked to do.
#[derive(Debug, Clone, PartialEq, Eq)]
pub enum Command {
    Lookup { query: String, show_all: bool },
    SearchLog { from: Option<String>, to: Option<String> },
    Help,
    Version,
}

/// What a command prints and the exit code it ends with.
#[derive(Debug, Clone, PartialEq, Eq)]
pub struct CommandOutput {
    pub stdout: String,
    pub stderr: String,
    pub exit_code: u8,
}

/// Where the dataset and the history live, as the environment gives them:
/// `OFFLINE_DICT_DATASET`, `OFFLINE_DICT_HISTORY_DIR` and `LOCALAPPDATA`.
#[derive(Debug, Clone, Default, PartialEq, Eq)]
pub struct RuntimeConfig {
    pub dataset_path: Option<String>,
    pub history_dir: Option<String>,
    pub local_app_data: Option<String>,
}

/// A command, or the error message that refused the arguments, as text.
pub enum ParseModel {
    Lookup { query: Seq<char>, show_all: bool },
    SearchLog { from: Option<Seq<char>>, to: Option<Seq<char>> },
    Help,
    Version,
    Failure(Seq<char>),
}

/// The model of a parse result.
pub open spec fn parse_model(r: Result<Command, String>) -> ParseModel {
    match r {
        Ok(Command::Lookup { query, show_all }) => ParseModel::Lookup { query: query@, show_all },
        Ok(Command::SearchLog { from, to }) => ParseModel::SearchLog {
            from: match from {
                Some(f) => Some(f@),
                None => None,
            },
            to: match to {
                Some(t) => Some(t@),
                None => None,
            },
        },
        Ok(Command::Help) => ParseModel::Help,
        Ok(Command::Version) => ParseModel::Version,
        Err(e) => ParseModel::Failure(e@),
    }
}

/// The state of the argument scan: whether `--all` was seen, the words of
/// the query so far, whether `search-log` was seen and the date bounds.
pub struct ScanState {
    pub show_all: bool,
    pub positionals: Seq<Seq<char>>,
    pub search_log: bool,
    pub from: Option<Seq<char>>,
    pub to: Option<Seq<char>>,
}

/// The error message for an argument that is not accepted.
pub open spec fn unexpected_message(argument: Seq<char>) -> Seq<char> {
    "error: unexpected argument '"@ + argument + "' found"@
}

/// The error message for a `--from` or `--to` given alone.
pub open spec fn unpaired_bounds_message() -> Seq<char> {
    "error: --from and --to must be provided together"@
}

/// What the scan yields once every argument is read.
pub open spec fn finish_scan(st: ScanState) -> ParseModel {
    if st.search_log {
        if st.from.is_some() != st.to.is_some() {
            ParseModel::Failure(unpaired_bounds_message())
        } else {
            ParseModel::SearchLog { from: st.from, to: st.to }
        }
    } else if st.positionals.len() == 0 {
        ParseModel::Help
    } else {
        ParseModel::Lookup { query: join(st.positionals, " "@), show_all: st.show_all }
    }
}

/// Reads the arguments from position `i` on.
pub open spec fn scan(args: Seq<Seq<char>>, i: int, st: ScanState) -> ParseModel
    decreases args.len() - i,
{
    if i < 0 || i >= args.len() {
        finish_scan(st)
    } else {
        let a = args[i];
        if a == "--all"@ {
            if st.search_log {
                ParseModel::Failure(unexpected_message(a))
            } else {
                scan(args, i + 1, ScanState { show_all: true, ..st })
            }
        } else if a == "--from"@ {
            if !st.search_log {
                ParseModel::Failure(unexpected_message(a))
            } else if i + 1 >= args.len() {
                ParseModel::Failure("error: missing value for '--from'"@)
            } else {
                scan(args, i + 2, ScanState { from: Some(args[i + 1]), ..st })
            }
        } else if a == "--to"@ {
            if !st.search_log {
                ParseModel::Failure(unexpected_message(a))
            } else if i + 1 >= args.len() {
                ParseModel::Failure("error: missing value for '--to'"@)
            } else {
                scan(args, i + 2, ScanState { to: Some(args[i + 1]), ..st })
            }
        } else if a.len() > 0 && a[0] == '-' {
            ParseModel::Failure(unexpected_message(a))
        } else if a == "search-log"@ && st.positionals.len() == 0 && !st.show_all
            && !st.search_log {
            scan(args, i + 1, ScanState { search_log: true, ..st })
        } else if st.search_log {
            ParseModel::Failure(unexpected_message(a))
        } else {
            scan(args, i + 1, ScanState { positionals: st.positionals.push(a), ..st })
        }
    }
}

/// The command that the arguments (program name excluded) ask for: help or
/// the version wherever `--help` or `--version` stands, else a lookup of the
/// words given or a `search-log` with its bounds.
pub open spec fn parse_spec(args: Seq<Seq<char>>) -> ParseModel {
    if args.contains("--help"@) {
        ParseModel::Help
    } else if args.contains("--version"@) {
        ParseModel::Version
    } else {
        scan(
            args,
            0,
            ScanState {
                show_all: false,
                positionals: Seq::empty(),
                search_log: false,
                from: None,
                to: None,
            },
        )
    }
}

/// The error message for an argument that is not accepted.
pub fn unexpected_argument(argument: &Vec<char>) -> (r: String)
    ensures
        r@ == unexpected_message(argument@),
{
    let mut text = chars_of("error: unexpected argument '");
    push_all(&mut text, argument);
    push_str(&mut text, "' found");
    string_of(&text)
}

fn any_equal(args: &Vec<Vec<char>>, word: &str) -> (r: bool)
    ensures
        r == views(args@).contains(word@),
{
    let w = chars_of(word);
    let n = args.len();
    for i in 0..n
        invariant
            n == args@.len(),
            w@ == word@,
            forall|k: int| 0 <= k < i ==> views(args@)[k] != word@,
    {
        if chars_eq(&args[i], &w) {
            assert(views(args@)[i as int] == word@);
            return true;
        }
    }
    false
}

/// The text held by an optional character vector.
pub open spec fn opt_view(o: Option<Vec<char>>) -> Option<Seq<char>> {
    match o {
        Some(c) => Some(c@),
        None => None,
    }
}

fn opt_string(v: &Option<Vec<char>>) -> (r: Option<String>)
    ensures
        match (r, *v) {
            (Some(s), Some(c)) => s@ == c@,
            (None, None) => true,
            _ => false,
        },
{
    match v {
        Some(c) => Some(string_of(c)),
        None => None,
    }
}

/// Parses the arguments that follow the program name.
#[verifier::spinoff_prover]
pub fn parse_command(args: Vec<String>) -> (r: Result<Command, String>)
    ensures
        parse_model(r) == parse_spec(args.deep_view()),
{
    let ghost a = args.deep_view();
    let mut arguments: Vec<Vec<char>> = Vec::new();
    let total = args.len();
    for k in 0..total
        invariant
            total == args@.len(),
            a == args.deep_view(),
            views(arguments@) == a.take(k as int),
    {
        let ghost before = views(arguments@);
        arguments.push(chars_of(args[k].as_str()));
        assert(a[k as int] == args@[k as int]@);
        assert(views(arguments@) =~= before.push(a[k as int]));
        assert(a.take(k + 1) =~= a.take(k as int).push(a[k as int]));
    }
    assert(a.take(total as int) == a);
    if any_equal(&arguments, "--help") {
        return Ok(Command::Help);
    }
    if any_equal(&arguments, "--version") {
        return Ok(Command::Version);
    }
    let all = chars_of("--all");
    let from_flag = chars_of("--from");
    let to_flag = chars_of("--to");
    let search_log = chars_of("search-log");
    let mut show_all = false;
    let mut positionals: Vec<Vec<char>> = Vec::new();
    let mut search_log_mode = false;
    let mut from: Option<Vec<char>> = None;
    let mut to: Option<Vec<char>> = None;
    let mut index: usize = 0;
    let ghost start = ScanState {
        show_all: false,
        positionals: Seq::empty(),
        search_log: false,
        from: None,
        to: None,
    };
    assert(views(positionals@) =~= Seq::<Seq<char>>::empty());
    while index < total
        invariant
            total == arguments@.len(),
            index <= total,
            all@ == "--all"@,
            from_flag@ == "--from"@,
            to_flag@ == "--to"@,
            search_log@ == "search-log"@,
            !views(arguments@).contains("--help"@),
            !views(arguments@).contains("--version"@),
            a == views(arguments@),
            a == args.deep_view(),
            parse_spec(a) == scan(a, 0, start),
            scan(a, 0, start) == scan(
                a,
                index as int,
                ScanState {
                    show_all,
                    positionals: views(positionals@),
                    search_log: search_log_mode,
                    from: opt_view(from),
                    to: opt_view(to),
                },
            ),
        decreases total - index,
    {
        let argument = &arguments[index];
        let ghost st = ScanState {
            show_all,
            positionals: views(positionals@),
            search_log: search_log_mode,
            from: opt_view(from),
            to: opt_view(to),
        };
        assert(a[index as int] == argument@);
        if chars_eq(argument, &all) {
            if search_log_mode {
                return Err(unexpected_argument(argument));
            }
            show_all = true;
            index += 1;
        } else if chars_eq(argument, &from_flag) {
            if !search_log_mode {
                return Err(unexpected_argument(argument));
            }
            if index + 1 >= total {
                return Err(string_of(&chars_of("error: missing value for '--from'")));
            }
            assert(a[index + 1] == arguments@[index + 1]@);
            from = Some(arguments[index + 1].clone());
            index += 2;
        } else if chars_eq(argument, &to_flag) {
            if !search_log_mode {
                return Err(unexpected_argument(argument));
            }
            if index + 1 >= total {
                return Err(string_of(&chars_of("error: missing value for '--to'")));
            }
            assert(a[index + 1] == arguments@[index + 1]@);
            to = Some(arguments[index + 1].clone());
            index += 2;
        } else if argument.len() > 0 && argument[0] == '-' {
            return Err(unexpected_argument(argument));
        } else if chars_eq(argument, &search_log) && positionals.len() == 0 && !show_all
            && !search_log_mode {
            search_log_mode = true;
            index += 1;
        } else {
            if search_log_mode {
                return Err(unexpected_argument(argument));
            }
            let ghost before = views(positionals@);
            positionals.push(argument.clone());
            assert(views(positionals@) =~= before.push(argument@));
            index += 1;
        }
    }
    if search_log_mode {
        if from.is_some() != to.is_some() {
            return Err(string_of(&chars_of("error: --from and --to must be provided together")));
        }
        return Ok(Command::SearchLog { from: opt_string(&from), to: opt_string(&to) });
    }
    if positionals.len() == 0 {
        return Ok(Command::Help);
    }
    let sep = chars_of(" ");
    let query = join_chars(&positionals, &sep);
    Ok(Command::Lookup { query: string_of(&query), show_all })
}


/// The help text, naming the program's version.
pub open spec fn help_message(version: Seq<char>) -> Seq<char> {
    "Usage:\n  dict [--all] <query>\n  dict search-log\n  dict search-log --from YYYY-MM-DD --to YYYY-MM-DD\n  dict --help\n  dict --version\n\nVersion:\n  "@
        + version + seq!['\n']
}

/// The help text, naming the program's version.
pub fn help_text_for(version: &str) -> (r: String)
    ensures
        r@ == help_message(version@),
{
    let mut text = chars_of(
        "Usage:\n  dict [--all] <query>\n  dict search-log\n  dict search-log --from YYYY-MM-DD --to YYYY-MM-DD\n  dict --help\n  dict --version\n\nVersion:\n  ",
    );
    push_str(&mut text, version);
    text.push('\n');
    string_of(&text)
}

/// What `--help` prints.
pub fn help_output(version: &str) -> (r: CommandOutput)
    ensures
        r.stdout@ == help_message(version@),
        r.stderr@.len() == 0,
        r.exit_code == 0,
{
    CommandOutput { stdout: help_text_for(version), stderr: String::new(), exit_code: 0 }
}

/// What `--version` prints.
pub fn version_output(version: &str) -> (r: CommandOutput)
    ensures
        r.stdout@ == version@.push('\n'),
        r.stderr@.len() == 0,
        r.exit_code == 0,
{
    let mut text = chars_of(version);
    text.push('\n');
    CommandOutput { stdout: string_of(&text), stderr: String::new(), exit_code: 0 }
}

/// The line printed when a query has no exact match.
pub open spec fn not_found_message(query: Seq<char>) -> Seq<char> {
    "未找到精确匹配: "@ + query + seq!['\n']
}

/// What a lookup command prints for the outcome of looking `query` up: the
/// formatted result, the help text for an empty query, or the not-found line
/// with exit code 1.
pub fn lookup_output(
    outcome: &Result<LookupResult, LookupError>,
    query: &str,
    show_all: bool,
    version: &str,
) -> (r: CommandOutput)
    ensures
        r.stderr@.len() == 0,
        match *outcome {
            Ok(result) => r.stdout@ == join(result_lines(result, show_all), seq!['\n']).push('\n')
                && r.exit_code == 0,
            Err(LookupError::EmptyQuery) => r.stdout@ == help_message(version@) && r.exit_code
                == 0,
            Err(LookupError::NotFound { .. }) => r.stdout@ == not_found_message(query@)
                && r.exit_code == 1,
        },
{
    match outcome {
        Ok(result) => {
            let mut text = chars_of(format_result(result, show_all).as_str());
            text.push('\n');
            CommandOutput { stdout: string_of(&text), stderr: String::new(), exit_code: 0 }
        },
        Err(LookupError::EmptyQuery) => help_output(version),
        Err(LookupError::NotFound { .. }) => {
            let mut text = chars_of("未找到精确匹配: ");
            push_str(&mut text, query);
            text.push('\n');
            CommandOutput { stdout: string_of(&text), stderr: String::new(), exit_code: 1 }
        },
    }
}

/// The headword that a lookup records in history: that of a successful
/// English lookup; Chinese lookups and misses record nothing.
pub fn history_headword(outcome: &Result<LookupResult, LookupError>) -> (r: Option<String>)
    ensures
        match *outcome {
            Ok(result) if result.kind == QueryKind::English => r matches Some(h) && h@
                == result.displayed_query@,
            _ => r is None,
        },
{
    match outcome {
        Ok(result) => {
            if result.kind == QueryKind::English {
                Some(result.displayed_query.clone())
            } else {
                None
            }
        },
        Err(_) => None,
    }
}

/// The warning printed when history cannot be recorded.
pub fn history_warning(error: &str) -> (r: String)
    ensures
        r@ == "warning: failed to record history: "@ + error@ + seq!['\n'],
{
    let mut text = chars_of("warning: failed to record history: ");
    push_str(&mut text, error);
    text.push('\n');
    string_of(&text)
}

/// What `search-log` prints for the days read.
pub fn search_log_output(days: &Vec<HistoryDay>) -> (r: CommandOutput)
    ensures
        r.stdout@ == search_log_text(days@),
        r.stderr@.len() == 0,
        r.exit_code == 0,
{
    CommandOutput { stdout: format_search_log(days), stderr: String::new(), exit_code: 0 }
}

proof fn lemma_plain_word_is_no_flag(a: Seq<char>)
    requires
        !(a.len() > 0 && a[0] == '-'),
    ensures
        a != "--all"@,
        a != "--from"@,
        a != "--to"@,
        a != "--help"@,
        a != "--version"@,
{
    reveal_strlit("--all");
    reveal_strlit("--from");
    reveal_strlit("--to");
    reveal_strlit("--help");
    reveal_strlit("--version");
}

proof fn lemma_no_help_or_version(args: Seq<Seq<char>>)
    requires
        forall|k: int|
            0 <= k < args.len() ==> #[trigger] args[k] == "--all"@ || !(args[k].len() > 0
                && args[k][0] == '-'),
    ensures
        !args.contains("--help"@),
        !args.contains("--version"@),
{
    reveal_strlit("--all");
    reveal_strlit("--help");
    reveal_strlit("--version");
    if args.contains("--help"@) {
        let k = choose|k: int| 0 <= k < args.len() && args[k] == "--help"@;
        if args[k] != "--all"@ {
            lemma_plain_word_is_no_flag(args[k]);
        }
    }
    if args.contains("--version"@) {
        let k = choose|k: int| 0 <= k < args.len() && args[k] == "--version"@;
        if args[k] != "--all"@ {
            lemma_plain_word_is_no_flag(args[k]);
        }
    }
}

/// Outside `search-log` mode, words that are no options go into the query
/// one after another.
proof fn lemma_scan_words(args: Seq<Seq<char>>, i: int, j: int, st: ScanState)
    requires
        0 <= i <= j <= args.len(),
        !st.search_log,
        forall|k: int| i <= k < j ==> !(#[trigger] args[k].len() > 0 && args[k][0] == '-'),
        i < j && args[i] == "search-log"@ ==> st.positionals.len() > 0 || st.show_all,
    ensures
        scan(args, i, st) == scan(
            args,
            j,
            ScanState { positionals: st.positionals + args.subrange(i, j), ..st },
        ),
    decreases j - i,
{
    if i == j {
        assert(st.positionals + args.subrange(i, j) =~= st.positionals);
    } else {
        let a = args[i];
        lemma_plain_word_is_no_flag(a);
        let next = ScanState { positionals: st.positionals.push(a), ..st };
        assert(scan(args, i, st) == scan(args, i + 1, next));
        lemma_scan_words(args, i + 1, j, next);
        assert(next.positionals + args.subrange(i + 1, j) =~= st.positionals + args.subrange(
            i,
            j,
        ));
    }
}

/// Outside `search-log` mode `--all` may stand anywhere: words that are no
/// options, not starting with `search-log`, are looked up as one query, and
/// `--all` after them or before them asks for all results alike.
pub proof fn all_flag_may_stand_anywhere(args: Seq<Seq<char>>)
    requires
        args.len() > 0,
        forall|k: int| 0 <= k < args.len() ==> !(#[trigger] args[k].len() > 0 && args[k][0] == '-'),
        args[0] != "search-log"@,
    ensures
        parse_spec(args) == (ParseModel::Lookup { query: join(args, " "@), show_all: false }),
        parse_spec(args.push("--all"@)) == (ParseModel::Lookup {
            query: join(args, " "@),
            show_all: true,
        }),
        parse_spec(seq!["--all"@] + args) == (ParseModel::Lookup {
            query: join(args, " "@),
            show_all: true,
        }),
{
    let n = args.len() as int;
    let start = ScanState {
        show_all: false,
        positionals: Seq::empty(),
        search_log: false,
        from: None,
        to: None,
    };
    lemma_no_help_or_version(args);
    lemma_scan_words(args, 0, n, start);
    assert(Seq::<Seq<char>>::empty() + args.subrange(0, n) =~= args);

    let later = args.push("--all"@);
    assert forall|k: int| 0 <= k < later.len() implies #[trigger] later[k] == "--all"@ || !(
    later[k].len() > 0 && later[k][0] == '-') by {
        if k < n {
            assert(later[k] == args[k]);
        }
    }
    lemma_no_help_or_version(later);
    lemma_scan_words(later, 0, n, start);
    assert(Seq::<Seq<char>>::empty() + later.subrange(0, n) =~= args);
    let words = ScanState { positionals: args, ..start };
    assert(scan(later, n, words) == scan(later, n + 1, ScanState { show_all: true, ..words }));

    let earlier = seq!["--all"@] + args;
    assert forall|k: int| 0 <= k < earlier.len() implies #[trigger] earlier[k] == "--all"@ || !(
    earlier[k].len() > 0 && earlier[k][0] == '-') by {
        if k > 0 {
            assert(earlier[k] == args[k - 1]);
        }
    }
    lemma_no_help_or_version(earlier);
    let flagged = ScanState { show_all: true, ..start };
    assert(scan(earlier, 0, start) == scan(earlier, 1, flagged));
    lemma_scan_words(earlier, 1, n + 1, flagged);
    assert(Seq::<Seq<char>>::empty() + earlier.subrange(1, n + 1) =~= args);
}

} // verus!
