//! Query history: the days of a `search-log` range, the words kept for a
//! day, where history lives and how it is printed.

use chrono::Datelike;
use vstd::prelude::*;

use crate::date::{
    date_text, day_number, first_day_number, is_valid_ymd, ymd_before, Date, MIN_YEAR,
};
use crate::cli::{RuntimeConfig, unpaired_bounds_message};
use crate::dictionary::{chars_eq, contains_chars, numbered_line};
use crate::text::{
    chars_of, decimal_chars, has_cjk, has_cjk_chars, join, join_chars, english_key,
    normalize_english_chars, push_all, push_str, string_of, trim, trim_chars, views,
};

verus! {

/// A source of today's local date.
pub trait Clock {
    /// Today's date in the local time zone, or `None` where the clock cannot
    /// give one.
    fn today_local(&self) -> Option<Date>;
}

/// The clock of the machine.
pub struct SystemClock;

/// The largest number of seconds after the Unix epoch that the system clock
/// is turned into a date for (some hundred thousand years, well inside the
/// representable dates).
pub const CLOCK_SECONDS_LIMIT: u64 = 4_000_000_000_000;

/// The day number of 1970-01-01, the day of the Unix epoch.
pub open spec fn unix_epoch_day() -> int {
    day_number((1970int, 1int, 1int))
}

/// Seconds and subsecond nanoseconds since the Unix epoch, as
/// `std::time::UNIX_EPOCH.elapsed()` reports them; `None` where the system
/// clock stands before the epoch. The result depends on the time, so all that
/// is claimed of it is that the nanoseconds stay under a second.
#[verifier::external_body]
fn elapsed_since_epoch() -> (r: Option<(u64, u32)>)
    ensures
        r matches Some(t) ==> t.1 < 1_000_000_000,
{
    match std::time::UNIX_EPOCH.elapsed() {
        Ok(elapsed) => Some((elapsed.as_secs(), elapsed.subsec_nanos())),
        Err(_) => None,
    }
}

/// The local date at `secs` seconds and `nanos` nanoseconds after the Unix
/// epoch, as year, month and day: `chrono::DateTime::from_timestamp`, then
/// `with_timezone(&chrono::Local)` and `date_naive()`. Within the bound that
/// `requires` sets, `from_timestamp` always succeeds and the local date is a
/// valid one, at most a day away from the UTC date of that instant (a local
/// offset is less than a day). Which of those days it is depends on the time
/// zone of the machine and is not stated. Not stated either: chrono's lookup of
/// the local offset ends in an `unwrap`/`expect` that fails only where the
/// machine's time-zone data cannot place the instant.
#[verifier::external_body]
fn local_date_at(secs: i64, nanos: u32) -> (r: Option<(i32, u32, u32)>)
    requires
        0 <= secs <= CLOCK_SECONDS_LIMIT,
        nanos < 1_000_000_000,
    ensures
        r is Some,
        r matches Some(t) ==> {
            &&& is_valid_ymd(t.0 as int, t.1 as int, t.2 as int)
            &&& unix_epoch_day() + secs / 86400 - 1 <= day_number(
                (t.0 as int, t.1 as int, t.2 as int),
            ) <= unix_epoch_day() + secs / 86400 + 1
        },
{
    match chrono::DateTime::from_timestamp(secs, nanos) {
        Some(utc) => {
            let today = utc.with_timezone(&chrono::Local).date_naive();
            Some((today.year(), today.month(), today.day()))
        },
        None => None,
    }
}

/// The local date for a reading of the system clock. `elapsed` is the time
/// since the Unix epoch, as seconds and nanoseconds, or `None` where the clock
/// stands before the epoch. The result is `None` there and where the seconds
/// pass `CLOCK_SECONDS_LIMIT`; otherwise it is the local date of that instant,
/// at most a day away from its UTC date.
pub fn local_date_from_elapsed(elapsed: Option<(u64, u32)>) -> (r: Option<Date>)
    requires
        elapsed matches Some(t) ==> t.1 < 1_000_000_000,
    ensures
        r is Some <==> (elapsed matches Some(t) && t.0 <= CLOCK_SECONDS_LIMIT),
        r matches Some(d) ==> (elapsed matches Some(t) && unix_epoch_day() + t.0 / 86400 - 1
            <= day_number(d@) <= unix_epoch_day() + t.0 / 86400 + 1),
{
    match elapsed {
        Some((secs, nanos)) => {
            if secs <= CLOCK_SECONDS_LIMIT {
                let seconds: i64 = secs as i64;
                match local_date_at(seconds, nanos) {
                    Some((y, m, d)) => Some(Date::from_valid_ymd(y, m, d)),
                    None => None,
                }
            } else {
                None
            }
        },
        None => None,
    }
}

impl Clock for SystemClock {
    /// Today's local date from the system clock; `None` where the clock stands
    /// before the Unix epoch or past `CLOCK_SECONDS_LIMIT`.
    fn today_local(&self) -> (r: Option<Date>)
        ensures
            r matches Some(d) ==> unix_epoch_day() - 1 <= day_number(d@) <= unix_epoch_day()
                + CLOCK_SECONDS_LIMIT / 86400 + 1,
    {
        local_date_from_elapsed(elapsed_since_epoch())
    }
}

/// What `chrono::NaiveDate::parse_from_str(input, "%Y-%m-%d")` yields, as year,
/// month and day, or `None` where it fails.
pub uninterp spec fn chrono_parse_ymd(input: Seq<char>) -> Option<(i32, u32, u32)>;

/// Calls `chrono::NaiveDate::parse_from_str` with the format `%Y-%m-%d`; a
/// parsed date is a valid one.
#[verifier::external_body]
fn parse_ymd(input: &str) -> (r: Option<(i32, u32, u32)>)
    ensures
        r == chrono_parse_ymd(input@),
        r matches Some(t) ==> is_valid_ymd(t.0 as int, t.1 as int, t.2 as int),
{
    match chrono::NaiveDate::parse_from_str(input, "%Y-%m-%d") {
        Ok(date) => Some((date.year(), date.month(), date.day())),
        Err(_) => None,
    }
}

/// The error message for a date that does not parse.
pub open spec fn invalid_date_message(input: Seq<char>) -> Seq<char> {
    "error: invalid date '"@ + input + "', expected YYYY-MM-DD"@
}

/// Parses a `YYYY-MM-DD` date.
pub fn parse_date(input: &str) -> (r: Result<Date, String>)
    ensures
        match chrono_parse_ymd(input@) {
            Some(t) => r matches Ok(d) && d@ == (t.0 as int, t.1 as int, t.2 as int),
            None => r matches Err(e) && e@ == invalid_date_message(input@),
        },
{
    match parse_ymd(input) {
        Some((y, m, d)) => Ok(Date::from_valid_ymd(y, m, d)),
        None => {
            let mut text = chars_of("error: invalid date '");
            push_str(&mut text, input);
            push_str(&mut text, "', expected YYYY-MM-DD");
            Err(string_of(&text))
        },
    }
}

/// The date `n` days before `today`, if it is representable.
pub fn days_before(today: Date, n: usize) -> (r: Option<Date>)
    ensures
        r is None <==> day_number(today@) - n < first_day_number(),
        r matches Some(d) ==> day_number(d@) == day_number(today@) - n,
{
    let mut current = today;
    let mut k: usize = 0;
    while k < n
        invariant
            k <= n,
            day_number(current@) == day_number(today@) - k,
        decreases n - k,
    {
        proof {
            use_type_invariant(&current);
            current.lemma_valid();
            crate::date::lemma_first_day_is_first(current@);
        }
        match current.pred() {
            Some(p) => {
                current = p;
            },
            None => {
                return None;
            },
        }
        k += 1;
    }
    proof {
        use_type_invariant(&current);
        current.lemma_valid();
        crate::date::lemma_first_day_is_first(current@);
    }
    Some(current)
}

/// The default `search-log` range: the seven days that end with `today`.
pub fn default_range_ending(today: Date) -> (r: Option<(Date, Date)>)
    ensures
        r is None <==> day_number(today@) - 6 < first_day_number(),
        r matches Some(p) ==> p.1@ == today@ && day_number(p.0@) == day_number(today@) - 6,
{
    match days_before(today, 6) {
        Some(from) => Some((from, today)),
        None => None,
    }
}

/// The default `search-log` range: the seven days that end today. `None`
/// when the clock gives no date or one within six days of the first
/// representable date.
pub fn default_date_range<C: Clock>(clock: &C) -> (r: Option<(Date, Date)>)
    ensures
        r matches Some(p) ==> day_number(p.0@) == day_number(p.1@) - 6,
{
    match clock.today_local() {
        Some(today) => default_range_ending(today),
        None => None,
    }
}

/// The dates of the range from `from` to `to`, newest first, both included.
#[verifier::spinoff_prover]
pub fn history_dates(from: Date, to: Date) -> (r: Vec<Date>)
    requires
        !ymd_before(to@, from@),
    ensures
        r@.len() == day_number(to@) - day_number(from@) + 1,
        forall|i: int|
            0 <= i < r@.len() ==> day_number(#[trigger] r@[i]@) == day_number(to@) - i,
        r@.len() > 0 && r@[0]@ == to@ && r@.last()@ == from@,
{
    let mut days: Vec<Date> = Vec::new();
    let mut current = to;
    proof {
        use_type_invariant(&from);
            from.lemma_valid();
        use_type_invariant(&to);
            to.lemma_valid();
        if from@ != to@ {
            crate::date::lemma_before_day_number(from@, to@);
        }
    }
    loop
        invariant
            day_number(from@) <= day_number(current@) <= day_number(to@),
            days@.len() == day_number(to@) - day_number(current@),
            forall|i: int|
                0 <= i < days@.len() ==> day_number(#[trigger] days@[i]@) == day_number(to@) - i,
            days@.len() == 0 ==> current@ == to@,
            days@.len() > 0 ==> days@[0]@ == to@,
        decreases day_number(current@) - day_number(from@),
    {
        days.push(current);
        if current.same_day(&from) {
            return days;
        }
        proof {
            use_type_invariant(&from);
            from.lemma_valid();
            use_type_invariant(&current);
            current.lemma_valid();
            if day_number(current@) == day_number(from@) {
                crate::date::lemma_day_number_injective(current@, from@);
            }
            if current@ == (MIN_YEAR as int, 1int, 1int) {
                if ymd_before(from@, current@) {
                    crate::date::lemma_before_day_number(from@, current@);
                }
                assert(ymd_before(current@, from@));
                crate::date::lemma_before_day_number(current@, from@);
            }
        }
        match current.pred() {
            Some(p) => {
                current = p;
            },
            None => {
                return days;
            },
        }
    }
}


/// The pieces of `s` between newline characters: one more piece than there
/// are newlines. `str::lines` differs only in dropping the empty piece after
/// a final newline and a carriage return before each newline, which trimming
/// removes anyway.
pub open spec fn split_lines(s: Seq<char>) -> Seq<Seq<char>>
    decreases s.len(),
{
    if s.len() == 0 {
        seq![Seq::empty()]
    } else {
        let p = split_lines(s.drop_last());
        if s.last() == '\n' {
            p.push(Seq::empty())
        } else {
            p.update(p.len() - 1, p.last().push(s.last()))
        }
    }
}

/// The words recorded on the lines of a day file: each line trimmed and put
/// in canonical English form, empty lines and lines with CJK ideographs
/// dropped, each word kept at its first appearance.
pub open spec fn kept_words(lines: Seq<Seq<char>>) -> Seq<Seq<char>>
    decreases lines.len(),
{
    if lines.len() == 0 {
        Seq::empty()
    } else {
        let acc = kept_words(lines.drop_last());
        let w = english_key(trim(lines.last()));
        if w.len() == 0 || has_cjk(w) || acc.contains(w) {
            acc
        } else {
            acc.push(w)
        }
    }
}

/// The words that a day file with these contents holds.
pub open spec fn history_words(contents: Seq<char>) -> Seq<Seq<char>> {
    kept_words(split_lines(contents))
}

proof fn lemma_split_lines_nonempty(s: Seq<char>)
    ensures
        split_lines(s).len() >= 1,
    decreases s.len(),
{
    if s.len() > 0 {
        lemma_split_lines_nonempty(s.drop_last());
    }
}

fn keep_line(words: &mut Vec<Vec<char>>, line: &Vec<char>)
    ensures
        views(final(words)@) == ({
            let w = english_key(trim(line@));
            if w.len() == 0 || has_cjk(w) || views(old(words)@).contains(w) {
                views(old(words)@)
            } else {
                views(old(words)@).push(w)
            }
        }),
{
    let w = normalize_english_chars(&trim_chars(line));
    assert(views(words@) == words@.map_values(|v: Vec<char>| v@));
    if w.len() == 0 || has_cjk_chars(&w) || contains_chars(words, &w) {
        return ;
    }
    let ghost before = views(words@);
    words.push(w);
    assert(views(words@) =~= before.push(w@));
}

/// The words recorded in a day file with these contents.
#[verifier::spinoff_prover]
pub fn parse_history_words(contents: &str) -> (r: Vec<String>)
    ensures
        r.deep_view() == history_words(contents@),
{
    let chars = chars_of(contents);
    let n = chars.len();
    let mut words: Vec<Vec<char>> = Vec::new();
    let mut line: Vec<char> = Vec::new();
    for i in 0..n
        invariant
            n == chars@.len(),
            split_lines(chars@.take(i as int)).len() >= 1,
            views(words@) == kept_words(split_lines(chars@.take(i as int)).drop_last()),
            line@ == split_lines(chars@.take(i as int)).last(),
    {
        let c = chars[i];
        let ghost pre = chars@.take(i as int);
        let ghost cur = chars@.take(i + 1);
        assert(cur.drop_last() == pre);
        assert(cur.last() == c);
        if c == '\n' {
            keep_line(&mut words, &line);
            line = Vec::new();
            proof {
                let p = split_lines(pre);
                assert(split_lines(cur) == p.push(Seq::empty()));
                assert(split_lines(cur).drop_last() == p);
                assert(p.drop_last() == split_lines(pre).drop_last());
            }
        } else {
            line.push(c);
            proof {
                let p = split_lines(pre);
                assert(split_lines(cur).drop_last() == p.drop_last());
            }
        }
    }
    assert(chars@.take(n as int) == chars@);
    let ghost all = split_lines(chars@);
    keep_line(&mut words, &line);
    assert(all.drop_last().push(all.last()) == all);
    let mut r: Vec<String> = Vec::new();
    let m = words.len();
    for k in 0..m
        invariant
            m == words@.len(),
            r@.len() == k,
            forall|j: int| 0 <= j < k ==> #[trigger] r@[j]@ == words@[j]@,
    {
        r.push(string_of(&words[k]));
    }
    assert(r.deep_view() =~= views(words@));
    r
}

/// What recording a lookup of `headword` appends to a day file that holds
/// `existing` words: the canonical word and a newline, unless the word is
/// empty or already recorded that day.
pub open spec fn history_addition(existing: Seq<Seq<char>>, headword: Seq<char>) -> Option<
    Seq<char>,
> {
    let w = english_key(headword);
    if w.len() == 0 || existing.contains(w) {
        None
    } else {
        Some(w.push('\n'))
    }
}

/// The text to append to the day file of a successful English lookup of
/// `headword`, given the words the file holds already.
pub fn history_append(existing: &Vec<String>, headword: &str) -> (r: Option<String>)
    ensures
        match (r, history_addition(existing.deep_view(), headword@)) {
            (Some(line), Some(expected)) => line@ == expected,
            (None, None) => true,
            _ => false,
        },
{
    let w = normalize_english_chars(&chars_of(headword));
    if w.len() == 0 {
        return None;
    }
    let ghost ex = existing.deep_view();
    let n = existing.len();
    for i in 0..n
        invariant
            n == existing@.len(),
            ex == existing.deep_view(),
            w@ == english_key(headword@),
            forall|k: int| 0 <= k < i ==> ex[k] != w@,
    {
        if chars_eq(&chars_of(existing[i].as_str()), &w) {
            assert(ex[i as int] == w@);
            assert(ex.contains(w@));
            return None;
        }
    }
    let mut line = w;
    line.push('\n');
    Some(string_of(&line))
}

/// The name of the file that holds the history of a day: `YYYY-MM-DD.txt`.
pub fn history_file_name(date: &Date) -> (r: String)
    ensures
        r@ == date_text(date@) + ".txt"@,
{
    let mut name = date.format_ymd();
    push_str(&mut name, ".txt");
    string_of(&name)
}

/// The words looked up on one day.
#[derive(Debug, Clone, PartialEq, Eq)]
pub struct HistoryDay {
    pub date: Date,
    pub words: Vec<String>,
}

/// The lines that show one day: the date, then the numbered words or
/// `(no queries)`.
pub open spec fn day_lines(day: HistoryDay) -> Seq<Seq<char>> {
    let words = day.words.deep_view();
    seq![date_text(day.date@)] + if words.len() == 0 {
        seq!["(no queries)"@]
    } else {
        Seq::new(words.len(), |i: int| numbered_line(i, words[i]))
    }
}

/// The `search-log` output: the days in the order given, blank lines
/// between them, a newline at the end.
pub open spec fn search_log_text(days: Seq<HistoryDay>) -> Seq<char> {
    join(days.map_values(|d: HistoryDay| join(day_lines(d), seq!['\n'])), "\n\n"@) + seq!['\n']
}

fn day_block(day: &HistoryDay) -> (r: Vec<char>)
    ensures
        r@ == join(day_lines(*day), seq!['\n']),
{
    let mut lines: Vec<Vec<char>> = Vec::new();
    lines.push(day.date.format_ymd());
    let ghost words = day.words.deep_view();
    let n = day.words.len();
    if n == 0 {
        lines.push(chars_of("(no queries)"));
    } else {
        let ghost items = Seq::new(words.len(), |i: int| numbered_line(i, words[i]));
        for i in 0..n
            invariant
                n == day.words@.len(),
                words == day.words.deep_view(),
                items == Seq::new(words.len(), |i: int| numbered_line(i, words[i])),
                views(lines@) == seq![date_text(day.date@)] + items.take(i as int),
        {
            let mut line = decimal_chars(i + 1);
            push_str(&mut line, ". ");
            push_all(&mut line, &chars_of(day.words[i].as_str()));
            assert(line@ == items[i as int]);
            let ghost before = views(lines@);
            lines.push(line);
            assert(views(lines@) =~= before.push(items[i as int]));
            assert(items.take(i + 1) == items.take(i as int).push(items[i as int]));
        }
        assert(items.take(n as int) == items);
    }
    assert(views(lines@) =~= day_lines(*day));
    let sep: Vec<char> = vec!['\n'];
    assert(sep@ == seq!['\n']);
    join_chars(&lines, &sep)
}

/// Renders the days of a `search-log` range.
pub fn format_search_log(days: &Vec<HistoryDay>) -> (r: String)
    ensures
        r@ == search_log_text(days@),
{
    let ghost blocks = days@.map_values(|d: HistoryDay| join(day_lines(d), seq!['\n']));
    let mut parts: Vec<Vec<char>> = Vec::new();
    let n = days.len();
    for i in 0..n
        invariant
            n == days@.len(),
            blocks == days@.map_values(|d: HistoryDay| join(day_lines(d), seq!['\n'])),
            views(parts@) == blocks.take(i as int),
    {
        let block = day_block(&days[i]);
        let ghost before = views(parts@);
        parts.push(block);
        assert(views(parts@) =~= before.push(blocks[i as int]));
        assert(blocks.take(i + 1) == blocks.take(i as int).push(blocks[i as int]));
    }
    assert(blocks.take(n as int) == blocks);
    let sep = chars_of("\n\n");
    let mut text = join_chars(&parts, &sep);
    text.push('\n');
    string_of(&text)
}


/// Where query history is kept: the path components of its directory.
pub struct HistoryStore {
    directory: Vec<String>,
}

impl HistoryStore {
    /// A store for the directory with these path components.
    pub fn new(directory: Vec<String>) -> (r: Self)
        ensures
            r.directory().deep_view() == directory.deep_view(),
    {
        HistoryStore { directory }
    }

    /// The path components of the history directory.
    pub closed spec fn directory(&self) -> Vec<String> {
        self.directory
    }

    /// The path components of the history directory.
    pub fn directory_components(&self) -> (r: &Vec<String>)
        ensures
            r.deep_view() == self.directory().deep_view(),
    {
        &self.directory
    }
}

/// The error message when no history directory can be found.
pub open spec fn no_history_dir_message() -> Seq<char> {
    "error: LOCALAPPDATA is unavailable and OFFLINE_DICT_HISTORY_DIR is not set"@
}

/// The history directory, as path components: the explicit directory where
/// one is given, else `offline-dict-cli/log` under the local application
/// data directory.
pub fn resolve_history_dir(explicit_directory: Option<&str>, local_app_data: Option<&str>) -> (r:
    Result<Vec<String>, String>)
    ensures
        match explicit_directory {
            Some(dir) => r matches Ok(v) && v.deep_view() == seq![dir@],
            None => match local_app_data {
                Some(base) => r matches Ok(v) && v.deep_view() == seq![
                    base@,
                    "offline-dict-cli"@,
                    "log"@,
                ],
                None => r matches Err(e) && e@ == no_history_dir_message(),
            },
        },
{
    if let Some(directory) = explicit_directory {
        let mut v: Vec<String> = Vec::new();
        v.push(string_of(&chars_of(directory)));
        assert(v.deep_view() =~= seq![directory@]);
        return Ok(v);
    }
    match local_app_data {
        Some(base) => {
            let mut v: Vec<String> = Vec::new();
            v.push(string_of(&chars_of(base)));
            v.push(string_of(&chars_of("offline-dict-cli")));
            v.push(string_of(&chars_of("log")));
            assert(v.deep_view() =~= seq![base@, "offline-dict-cli"@, "log"@]);
            Ok(v)
        },
        None => Err(
            string_of(&chars_of("error: LOCALAPPDATA is unavailable and OFFLINE_DICT_HISTORY_DIR is not set")),
        ),
    }
}

fn as_str_opt(o: &Option<String>) -> (r: Option<&str>)
    ensures
        match (r, *o) {
            (Some(a), Some(b)) => a@ == b@,
            (None, None) => true,
            _ => false,
        },
{
    match o {
        Some(s) => Some(s.as_str()),
        None => None,
    }
}

/// The history store that the runtime configuration points to.
pub fn history_store_from_config(runtime: &RuntimeConfig) -> (r: Result<HistoryStore, String>)
    ensures
        match runtime.history_dir {
            Some(dir) => r matches Ok(h) && h.directory().deep_view() == seq![dir@],
            None => match runtime.local_app_data {
                Some(base) => r matches Ok(h) && h.directory().deep_view() == seq![
                    base@,
                    "offline-dict-cli"@,
                    "log"@,
                ],
                None => r matches Err(e) && e@ == no_history_dir_message(),
            },
        },
{
    let directory = resolve_history_dir(
        as_str_opt(&runtime.history_dir),
        as_str_opt(&runtime.local_app_data),
    )?;
    Ok(HistoryStore::new(directory))
}

/// The error message for a range whose start is after its end.
pub open spec fn reversed_range_message() -> Seq<char> {
    "error: from date must be on or before to date"@
}

/// The error message when the default range would start before the first
/// representable date.
pub open spec fn range_out_of_bounds_message() -> Seq<char> {
    "error: date out of range"@
}

/// The `search-log` range for the given bounds, with `today` for the
/// default range.
pub fn resolve_search_log_range_at(from: Option<&str>, to: Option<&str>, today: Date) -> (r: Result<
    (Date, Date),
    String,
>)
    ensures
        match (from, to) {
            (None, None) => match r {
                Ok(p) => p.1@ == today@ && day_number(p.0@) == day_number(today@) - 6,
                Err(e) => e@ == range_out_of_bounds_message() && day_number(today@) - 6
                    < first_day_number(),
            },
            (Some(f), Some(t)) => match (chrono_parse_ymd(f@), chrono_parse_ymd(t@)) {
                (None, _) => r matches Err(e) && e@ == invalid_date_message(f@),
                (Some(_), None) => r matches Err(e) && e@ == invalid_date_message(t@),
                (Some(a), Some(b)) => {
                    let fa = (a.0 as int, a.1 as int, a.2 as int);
                    let tb = (b.0 as int, b.1 as int, b.2 as int);
                    if ymd_before(tb, fa) {
                        r matches Err(e) && e@ == reversed_range_message()
                    } else {
                        r matches Ok(p) && p.0@ == fa && p.1@ == tb
                    }
                },
            },
            _ => r matches Err(e) && e@ == unpaired_bounds_message(),
        },
{
    match (from, to) {
        (None, None) => match default_range_ending(today) {
            Some(range) => Ok(range),
            None => Err(string_of(&chars_of("error: date out of range"))),
        },
        _ => explicit_range(from, to),
    }
}

fn explicit_range(from: Option<&str>, to: Option<&str>) -> (r: Result<(Date, Date), String>)
    requires
        !(from is None && to is None),
    ensures
        match (from, to) {
            (Some(f), Some(t)) => match (chrono_parse_ymd(f@), chrono_parse_ymd(t@)) {
                (None, _) => r matches Err(e) && e@ == invalid_date_message(f@),
                (Some(_), None) => r matches Err(e) && e@ == invalid_date_message(t@),
                (Some(a), Some(b)) => {
                    let fa = (a.0 as int, a.1 as int, a.2 as int);
                    let tb = (b.0 as int, b.1 as int, b.2 as int);
                    if ymd_before(tb, fa) {
                        r matches Err(e) && e@ == reversed_range_message()
                    } else {
                        r matches Ok(p) && p.0@ == fa && p.1@ == tb
                    }
                },
            },
            _ => r matches Err(e) && e@ == unpaired_bounds_message(),
        },
{
    match (from, to) {
        (Some(f), Some(t)) => {
            let from_date = parse_date(f)?;
            let to_date = parse_date(t)?;
            if to_date.is_before(&from_date) {
                return Err(string_of(&chars_of("error: from date must be on or before to date")));
            }
            Ok((from_date, to_date))
        },
        _ => Err(string_of(&chars_of("error: --from and --to must be provided together"))),
    }
}

/// The `search-log` range for the given bounds; the default range is the
/// seven days that end on the clock's date, and the out-of-range error where
/// the clock gives no date.
pub fn resolve_search_log_range<C: Clock>(from: Option<&str>, to: Option<&str>, clock: &C) -> (r:
    Result<(Date, Date), String>)
    ensures
        match (from, to) {
            (None, None) => match r {
                Ok(p) => day_number(p.0@) == day_number(p.1@) - 6,
                Err(e) => e@ == range_out_of_bounds_message(),
            },
            (Some(f), Some(t)) => match (chrono_parse_ymd(f@), chrono_parse_ymd(t@)) {
                (None, _) => r matches Err(e) && e@ == invalid_date_message(f@),
                (Some(_), None) => r matches Err(e) && e@ == invalid_date_message(t@),
                (Some(a), Some(b)) => {
                    let fa = (a.0 as int, a.1 as int, a.2 as int);
                    let tb = (b.0 as int, b.1 as int, b.2 as int);
                    if ymd_before(tb, fa) {
                        r matches Err(e) && e@ == reversed_range_message()
                    } else {
                        r matches Ok(p) && p.0@ == fa && p.1@ == tb
                    }
                },
            },
            _ => r matches Err(e) && e@ == unpaired_bounds_message(),
        },
{
    match (from, to) {
        (None, None) => match clock.today_local() {
            Some(today) => resolve_search_log_range_at(from, to, today),
            None => Err(string_of(&chars_of("error: date out of range"))),
        },
        _ => explicit_range(from, to),
    }
}


proof fn lemma_split_lines_append(c: Seq<char>, w: Seq<char>)
    requires
        c.len() == 0 || c.last() == '\n',
        !w.contains('\n'),
    ensures
        split_lines(c + w) == split_lines(c).drop_last().push(w),
    decreases w.len(),
{
    lemma_split_lines_nonempty(c);
    if w.len() == 0 {
        assert(w =~= Seq::<char>::empty());
        assert(c + w =~= c);
        if c.len() > 0 {
            lemma_split_lines_nonempty(c.drop_last());
        }
        assert(split_lines(c).last() =~= Seq::<char>::empty());
        assert(split_lines(c).drop_last().push(Seq::<char>::empty()) =~= split_lines(c));
    } else {
        let w1 = w.drop_last();
        assert(!w1.contains('\n')) by {
            if w1.contains('\n') {
                let k = choose|k: int| 0 <= k < w1.len() && w1[k] == '\n';
                assert(w[k] == '\n');
            }
        }
        assert(w[w.len() - 1] != '\n');
        lemma_split_lines_append(c, w1);
        assert((c + w).drop_last() == c + w1);
        assert((c + w).last() == w.last());
        assert(w1.push(w.last()) == w);
        let d = split_lines(c).drop_last();
        assert(split_lines(c + w) == split_lines(c + w1).update(
            split_lines(c + w1).len() - 1,
            split_lines(c + w1).last().push(w.last()),
        ));
        assert(d.push(w1).update(d.len() as int, w1.push(w.last())) =~= d.push(w));
    }
}

/// Recording a lookup and reading the day back: once the line for a new
/// word is appended to a day file that is empty or ends with a newline, the
/// file holds the words it held before followed by that word, and recording
/// the same headword again, or any headword with the same canonical form (such
/// as one that differs only in case), appends nothing.
#[verifier::spinoff_prover]
pub proof fn recorded_word_is_read_back_once(contents: Seq<char>, headword: Seq<char>)
    requires
        contents.len() == 0 || contents.last() == '\n',
        history_addition(history_words(contents), headword) is Some,
        !has_cjk(english_key(headword)),
    ensures
        history_words(contents + history_addition(history_words(contents), headword)->0) == history_words(
            contents,
        ).push(english_key(headword)),
        history_addition(
            history_words(contents + history_addition(history_words(contents), headword)->0),
            headword,
        ) is None,
        forall|other: Seq<char>|
            english_key(other) == english_key(headword) ==> (#[trigger] history_addition(
                history_words(contents + history_addition(history_words(contents), headword)->0),
                other,
            )) is None,
{
    let w = english_key(headword);
    let line = w.push('\n');
    assert(history_addition(history_words(contents), headword)->0 == line);
    crate::text::normalize_english_is_idempotent(headword);
    crate::text::lemma_words_are_words(headword);
    assert(!w.contains('\n')) by {
        if w.contains('\n') {
            let k = choose|k: int| 0 <= k < w.len() && w[k] == '\n';
            lemma_normalized_has_no_newline(headword, k);
        }
    }
    lemma_split_lines_append(contents, w);
    let d = split_lines(contents).drop_last();
    assert(contents + line == (contents + w).push('\n'));
    assert((contents + line).drop_last() == contents + w);
    assert(split_lines(contents + line) == d.push(w).push(Seq::empty()));
    lemma_split_lines_append(contents, Seq::empty());
    assert(contents + Seq::<char>::empty() == contents);
    assert(split_lines(contents) == d.push(Seq::empty()));
    assert(trim(Seq::<char>::empty()) =~= Seq::<char>::empty()) by {
        assert(crate::text::cut_start(Seq::<char>::empty(), false) == Seq::<char>::empty());
    }
    assert(crate::text::words(Seq::<char>::empty()) == Seq::<Seq<char>>::empty());
    assert(english_key(Seq::<char>::empty()).len() == 0);
    assert(d.push(Seq::empty()).drop_last() == d);
    assert(kept_words(split_lines(contents)) == kept_words(d));
    assert(d.push(w).drop_last() == d);
    assert(d.push(w).push(Seq::empty()).drop_last() == d.push(w));
    assert(kept_words(d.push(w)) == kept_words(d).push(w));
    assert(kept_words(d).push(w).contains(w)) by {
        assert(kept_words(d).push(w)[kept_words(d).len() as int] == w);
    }
}

proof fn lemma_normalized_has_no_newline(headword: Seq<char>, k: int)
    requires
        0 <= k < english_key(headword).len(),
    ensures
        english_key(headword)[k] != '\n',
{
    let ws = crate::text::words(headword);
    let j = join(ws, seq![' ']);
    crate::text::lemma_words_are_words(headword);
    lemma_join_no_ws_but_space(ws, k);
    assert(english_key(headword)[k] == crate::text::lower(j[k]));
}

proof fn lemma_join_no_ws_but_space(ws: Seq<Seq<char>>, k: int)
    requires
        forall|i: int| 0 <= i < ws.len() ==> crate::text::is_word(#[trigger] ws[i]),
        0 <= k < join(ws, seq![' ']).len(),
    ensures
        join(ws, seq![' '])[k] == ' ' || !crate::text::is_ws(join(ws, seq![' '])[k]),
    decreases ws.len(),
{
    if ws.len() == 1 {
        assert(crate::text::is_word(ws[0]));
    } else if ws.len() > 1 {
        let a = join(ws.drop_last(), seq![' ']);
        assert(crate::text::is_word(ws.last()));
        if k < a.len() {
            lemma_join_no_ws_but_space(ws.drop_last(), k);
        } else if k > a.len() {
            assert(join(ws, seq![' '])[k] == ws.last()[k - a.len() - 1]);
        }
    }
}

/// A day of the `search-log` output shows its date and then every word
/// recorded that day, numbered from one in the order recorded, or
/// `(no queries)` when none was.
pub proof fn every_recorded_word_is_shown(day: HistoryDay)
    ensures
        ({
            let lines = day_lines(day);
            let words = day.words.deep_view();
            &&& lines[0] == date_text(day.date@)
            &&& words.len() == 0 ==> lines == seq![date_text(day.date@), "(no queries)"@]
            &&& words.len() > 0 ==> lines.len() == words.len() + 1
            &&& forall|k: int|
                0 <= k < words.len() ==> #[trigger] lines[k + 1] == crate::text::decimal(
                    (k + 1) as nat,
                ) + ". "@ + words[k]
        }),
{
    let words = day.words.deep_view();
    let lines = day_lines(day);
    if words.len() > 0 {
        let items = Seq::new(words.len(), |i: int| numbered_line(i, words[i]));
        assert forall|k: int| 0 <= k < words.len() implies #[trigger] lines[k + 1]
            == crate::text::decimal((k + 1) as nat) + ". "@ + words[k] by {
            assert(lines[k + 1] == items[k]);
        }
    }
}

} // verus!
