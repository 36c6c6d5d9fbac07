//! The checks made before a generated dataset is embedded in the program.

use vstd::prelude::*;

use crate::text::{chars_of, push_str, string_of};

verus! {

/// The dataset embedded when an empty one is allowed.
pub const EMPTY_DATASET: &'static str = "{\"entries\":[]}";

/// What `serde_json` makes of a dataset text: its error message when the
/// text is not JSON, `None` when there is no `entries` array at its top
/// level, else the number of entries.
pub uninterp spec fn json_entries_len(contents: Seq<char>) -> Result<Option<usize>, Seq<char>>;

/// Parses the text with `serde_json::from_str` into a `serde_json::Value`
/// and reads the length of its `entries` array; a parse error is given as
/// its message.
#[verifier::external_body]
fn entries_array_len(contents: &str) -> (r: Result<Option<usize>, String>)
    ensures
        match (r, json_entries_len(contents@)) {
            (Ok(a), Ok(b)) => a == b,
            (Err(a), Err(b)) => a@ == b,
            _ => false,
        },
{
    match serde_json::from_str::<serde_json::Value>(contents) {
        Ok(value) => Ok(value.get("entries").and_then(serde_json::Value::as_array).map(Vec::len)),
        Err(error) => Err(error.to_string()),
    }
}

/// Whether a dataset text holds at least one entry, or why it cannot be
/// read.
pub open spec fn dataset_entries_verdict(contents: Seq<char>) -> Result<bool, Seq<char>> {
    match json_entries_len(contents) {
        Err(e) => Err("failed to parse generated dataset: "@ + e),
        Ok(None) => Err("generated dataset must contain an 'entries' array"@),
        Ok(Some(n)) => Ok(n > 0),
    }
}

/// Whether a dataset text holds at least one entry.
pub fn dataset_has_entries(contents: &str) -> (r: Result<bool, String>)
    ensures
        match (r, dataset_entries_verdict(contents@)) {
            (Ok(a), Ok(b)) => a == b,
            (Err(a), Err(b)) => a@ == b,
            _ => false,
        },
{
    match entries_array_len(contents) {
        Err(error) => {
            let mut text = chars_of("failed to parse generated dataset: ");
            push_str(&mut text, error.as_str());
            Err(string_of(&text))
        },
        Ok(None) => Err(string_of(&chars_of("generated dataset must contain an 'entries' array"))),
        Ok(Some(n)) => Ok(n > 0),
    }
}

/// The error message for a missing or empty dataset.
pub open spec fn missing_dataset_text(path: Seq<char>) -> Seq<char> {
    "generated dataset "@ + path
        + " is missing or empty; run `cargo run --bin generate_dataset -- <source-root>` before building, or set OFFLINE_DICT_ALLOW_EMPTY_DATASET=1 for development-only empty builds"@
}

/// The error message for a missing or empty dataset at `path`.
pub fn missing_dataset_message(path: &str) -> (r: String)
    ensures
        r@ == missing_dataset_text(path@),
{
    let mut text = chars_of("generated dataset ");
    push_str(&mut text, path);
    push_str(
        &mut text,
        " is missing or empty; run `cargo run --bin generate_dataset -- <source-root>` before building, or set OFFLINE_DICT_ALLOW_EMPTY_DATASET=1 for development-only empty builds",
    );
    string_of(&text)
}

/// The text to embed, given what reading the dataset file gave (`None` when
/// the file does not exist): the file when it holds entries or an empty
/// dataset is allowed, the empty dataset when the file is missing and that
/// is allowed, else an error.
pub fn dataset_for_embedding(contents: Option<&str>, path: &str, allow_empty: bool) -> (r: Result<
    String,
    String,
>)
    ensures
        match contents {
            None => if allow_empty {
                r matches Ok(t) && t@ == EMPTY_DATASET@
            } else {
                r matches Err(e) && e@ == missing_dataset_text(path@)
            },
            Some(c) => match dataset_entries_verdict(c@) {
                Err(m) => r matches Err(e) && e@ == m,
                Ok(has) => if has || allow_empty {
                    r matches Ok(t) && t@ == c@
                } else {
                    r matches Err(e) && e@ == missing_dataset_text(path@)
                },
            },
        },
{
    match contents {
        None => {
            if allow_empty {
                Ok(string_of(&chars_of(EMPTY_DATASET)))
            } else {
                Err(missing_dataset_message(path))
            }
        },
        Some(c) => {
            if dataset_has_entries(c)? || allow_empty {
                Ok(string_of(&chars_of(c)))
            } else {
                Err(missing_dataset_message(path))
            }
        },
    }
}

} // verus!
