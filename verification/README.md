# subtitle_lint

A linter for SubRip (`.srt`) and WebVTT (`.vtt`) subtitle files, with its
logic verified by Verus.

- `src/text.rs` — character-level operations (trim, search, split, line
  splitting, decimal parsing and printing) specified over `Seq<char>`.
- `src/timestamp.rs` — SRT and WebVTT timestamps; `to_string` is proved to
  read back through `parse`; `timestamp/order.rs` orders them by milliseconds.
- `src/config.rs` — the `key = value` settings file.
- `src/parser.rs` — the line-fed block reader (proved to hand out exactly
  the maximal runs of non-blank lines) and reading a block as a cue.
- `src/linter.rs` — the lint rules, Levenshtein distance, and the streaming
  `Linter` state machine; `lint` runs it over a whole input.
- `src/json.rs` — JSON string escaping, proved to read back.
- `src/report.rs` — the text and JSON reports of a run's findings.
- `app/main.rs` — the command-line program: arguments, file and stdin
  reading, printing.
