# offline_dict_cli

An offline English/Chinese dictionary for the terminal: exact,
case-insensitive English lookups with exam tags, Chinese reverse lookups
ranked by tag and headword, and a per-day history of English lookups.

## Layout

- `src/` — the library, verified with Verus:
  - `text.rs`: characters of strings, Unicode whitespace, trimming,
    whitespace collapsing, lowercasing, code point order, decimal digits.
  - `dictionary.rs`: tags, dataset entries, the dictionary, lookups and the
    rendering of lookup results.
  - `cli.rs`: argument parsing and the text each command prints.
  - `date.rs`: calendar dates, the previous day, `YYYY-MM-DD`.
  - `history.rs`: the clock, day files of query history, `search-log` ranges
    and output.
  - `importer.rs`: cleaning source translations and merging source lists into
    a dataset.
  - `build_support.rs`: the checks made before a dataset is embedded.
- `app/` — the programs: environment, files, JSON (serde) and exit codes.
  Run as `generate_dataset` it builds a dataset from source lists; under any
  other name it is the `dict` command.

  The crate has no build script, so `dict` embeds an empty dataset: every
  lookup misses until `OFFLINE_DICT_DATASET` names a dataset file, such as one
  written by `generate_dataset`.
- `tests/` — tests of the library.
