//! Offline English/Chinese dictionary lookups, dataset import and query
//! history.

pub mod build_support;
pub mod cli;
pub mod date;
pub mod dictionary;
pub mod history;
pub mod importer;
pub mod text;

pub use cli::{
    help_output, help_text_for, history_headword, history_warning, lookup_output, parse_command,
    search_log_output, unexpected_argument, version_output, Command, CommandOutput, RuntimeConfig,
};
pub use date::Date;
pub use dictionary::{
    format_result, Dictionary, DictionaryEntry, LookupError, LookupResult, PersistedDictionary,
    QueryKind, Tag,
};
pub use history::{Clock, SystemClock};
