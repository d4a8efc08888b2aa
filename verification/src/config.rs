//! Rule settings read from a plain `key = value` file.
use vstd::prelude::*;

use crate::text::{
    chars_of, find_char, find_char_in, lines_in, lines_of, parse_unsigned, parse_unsigned_in,
    push_decimal, push_quoted, push_quoted_str, push_str, range_eq_str, split_once_char, string_of, trim, trim_range,
    decimal,
};

verus! {

/// `std::io::Error`, carried through opaquely: nothing is assumed of what
/// it holds.
#[verifier::external_type_specification]
#[verifier::external_body]
pub struct ExIoError(std::io::Error);

/// Rule settings, loaded from a plain `key = value` config file or left at
/// their defaults. Kept separate from the linter so the file format can
/// change without touching the checks themselves.
#[derive(Debug, Clone, Copy)]
pub struct Config {
    pub max_line_length: usize,
    pub check_overlap: bool,
    pub check_duplicate_text: bool,
}

/// The settings used when no config file is given.
pub open spec fn default_config() -> Config {
    Config { max_line_length: 42, check_overlap: true, check_duplicate_text: true }
}

impl Default for Config {
    fn default() -> (c: Self)
        ensures
            c == default_config(),
    {
        Config { max_line_length: 42, check_overlap: true, check_duplicate_text: true }
    }
}

#[derive(Debug)]
pub enum ConfigError {
    Io(std::io::Error),
    Parse { line: usize, reason: String },
}

/// Calls `to_string` on an I/O error (its `Display` text). The text comes
/// from the operating system, so nothing is stated of it.
#[verifier::external_body]
pub(crate) fn io_error_text(e: &std::io::Error) -> String {
    e.to_string()
}

/// The text `line N: reason` of a parse error.
pub open spec fn parse_error_text(line: nat, reason: Seq<char>) -> Seq<char> {
    "line "@ + decimal(line) + ": "@ + reason
}

impl ConfigError {
    /// The error's message: the I/O error's own text, or `line N: reason`.
    pub fn to_string(&self) -> (s: String)
        ensures
            self matches ConfigError::Parse { line, reason } ==> s@ == parse_error_text(
                line as nat,
                reason@,
            ),
    {
        match self {
            ConfigError::Io(e) => io_error_text(e),
            ConfigError::Parse { line, reason } => {
                let mut s = String::new();
                push_str(&mut s, "line ");
                push_decimal(&mut s, *line as u64);
                push_str(&mut s, ": ");
                push_str(&mut s, reason.as_str());
                s
            },
        }
    }
}

/// The text of a line before its first `#`.
pub open spec fn before_comment(raw: Seq<char>) -> Seq<char> {
    match find_char(raw, '#') {
        Some(i) => raw.take(i),
        None => raw,
    }
}

/// `s` between double quotes.
pub open spec fn quoted(s: Seq<char>) -> Seq<char> {
    "\""@ + s + "\""@
}

/// The reason given for a boolean setting that is neither `true` nor `false`.
pub open spec fn bool_reason(value: Seq<char>) -> Seq<char> {
    "expected \"true\" or \"false\", found "@ + quoted(value)
}

/// The boolean that `value` names, if it is exactly `true` or `false`.
pub open spec fn bool_value(value: Seq<char>) -> Option<bool> {
    if value == "true"@ {
        Some(true)
    } else if value == "false"@ {
        Some(false)
    } else {
        None
    }
}

/// What one line of a config file does to `config`: a blank or comment-only
/// line leaves it as it is; `key = value` sets a known key; anything else is
/// refused with the reason given.
pub open spec fn apply_config_line(config: Config, raw: Seq<char>) -> Result<Config, Seq<char>> {
    let line = trim(before_comment(raw));
    if line.len() == 0 {
        Ok(config)
    } else {
        match split_once_char(line, '=') {
            None => Err("expected \"key = value\", found "@ + quoted(trim(raw))),
            Some((k, v)) => {
                let key = trim(k);
                let value = trim(v);
                if key == "max_line_length"@ {
                    match parse_unsigned(value, usize::MAX as nat) {
                        Some(n) => Ok(
                            Config {
                                max_line_length: n as usize,
                                check_overlap: config.check_overlap,
                                check_duplicate_text: config.check_duplicate_text,
                            },
                        ),
                        None => Err(
                            "max_line_length must be a positive integer, found "@ + quoted(value),
                        ),
                    }
                } else if key == "check_overlap"@ {
                    match bool_value(value) {
                        Some(b) => Ok(
                            Config {
                                max_line_length: config.max_line_length,
                                check_overlap: b,
                                check_duplicate_text: config.check_duplicate_text,
                            },
                        ),
                        None => Err(bool_reason(value)),
                    }
                } else if key == "check_duplicate_text"@ {
                    match bool_value(value) {
                        Some(b) => Ok(
                            Config {
                                max_line_length: config.max_line_length,
                                check_overlap: config.check_overlap,
                                check_duplicate_text: b,
                            },
                        ),
                        None => Err(bool_reason(value)),
                    }
                } else {
                    Err("unknown config key "@ + quoted(key))
                }
            },
        }
    }
}

/// The settings that the lines of a config file give, starting from the
/// defaults, or the first refused line (numbered from 1) and its reason.
pub open spec fn config_from_lines(lines: Seq<Seq<char>>) -> Result<Config, (nat, Seq<char>)>
    decreases lines.len(),
{
    if lines.len() == 0 {
        Ok(default_config())
    } else {
        match config_from_lines(lines.drop_last()) {
            Ok(c) => match apply_config_line(c, lines.last()) {
                Ok(c2) => Ok(c2),
                Err(reason) => Err((lines.len(), reason)),
            },
            Err(e) => Err(e),
        }
    }
}

/// The settings that a config file's text gives.
pub open spec fn config_from_text(contents: Seq<char>) -> Result<Config, (nat, Seq<char>)> {
    config_from_lines(lines_of(contents))
}

/// Reads `"true"` or `"false"`; anything else is refused on `line`.
pub fn parse_bool(value: &str, line: usize) -> (r: Result<bool, ConfigError>)
    ensures
        match bool_value(value@) {
            Some(b) => r == Ok::<bool, ConfigError>(b),
            None => r matches Err(ConfigError::Parse { line: l, reason }) && l == line && reason@
                == bool_reason(value@),
        },
{
    let v = chars_of(value);
    if range_eq_str(&v, 0, v.len(), "true") {
        assert(v@.subrange(0, v@.len() as int) == v@);
        Ok(true)
    } else if range_eq_str(&v, 0, v.len(), "false") {
        assert(v@.subrange(0, v@.len() as int) == v@);
        Ok(false)
    } else {
        assert(v@.subrange(0, v@.len() as int) == v@);
        let mut reason = String::new();
        push_str(&mut reason, "expected \"true\" or \"false\", found ");
        push_quoted_str(&mut reason, value);
        Err(ConfigError::Parse { line, reason })
    }
}

/// Applies one line `v[lo..hi]` of a config file to `config`; a refusal is
/// reported on `line_no`.
fn apply_line(config: Config, v: &[char], lo: usize, hi: usize, line_no: usize) -> (r: Result<
    Config,
    ConfigError,
>)
    requires
        lo <= hi <= v@.len(),
    ensures
        match apply_config_line(config, v@.subrange(lo as int, hi as int)) {
            Ok(c) => r matches Ok(rc) && rc == c,
            Err(reason) => r matches Err(ConfigError::Parse { line, reason: m }) && line == line_no
                && m@ == reason,
        },
{
    let ghost raw = v@.subrange(lo as int, hi as int);
    let end = match find_char_in(v, lo, hi, '#') {
        Some(h) => h,
        None => hi,
    };
    assert(before_comment(raw) == v@.subrange(lo as int, end as int));
    let (a, b) = trim_range(v, lo, end);
    if a == b {
        return Ok(config);
    }
    let ghost line = v@.subrange(a as int, b as int);
    let e = match find_char_in(v, a, b, '=') {
        Some(e) => e,
        None => {
            let (ra, rb) = trim_range(v, lo, hi);
            let mut reason = String::new();
            push_str(&mut reason, "expected \"key = value\", found ");
            push_quoted(&mut reason, v, ra, rb);
            return Err(ConfigError::Parse { line: line_no, reason });
        },
    };
    assert(line.take(e - a) == v@.subrange(a as int, e as int));
    assert(line.skip(e - a + 1) == v@.subrange(e + 1, b as int));
    let (ka, kb) = trim_range(v, a, e);
    let (va, vb) = trim_range(v, e + 1, b);
    if range_eq_str(v, ka, kb, "max_line_length") {
        match parse_unsigned_in(v, va, vb, usize::MAX as u64) {
            Some(n) => Ok(
                Config {
                    max_line_length: n as usize,
                    check_overlap: config.check_overlap,
                    check_duplicate_text: config.check_duplicate_text,
                },
            ),
            None => {
                let mut reason = String::new();
                push_str(&mut reason, "max_line_length must be a positive integer, found ");
                push_quoted(&mut reason, v, va, vb);
                Err(ConfigError::Parse { line: line_no, reason })
            },
        }
    } else if range_eq_str(v, ka, kb, "check_overlap") {
        let value = string_of(v, va, vb);
        match parse_bool(value.as_str(), line_no) {
            Ok(b) => Ok(
                Config {
                    max_line_length: config.max_line_length,
                    check_overlap: b,
                    check_duplicate_text: config.check_duplicate_text,
                },
            ),
            Err(e) => Err(e),
        }
    } else if range_eq_str(v, ka, kb, "check_duplicate_text") {
        let value = string_of(v, va, vb);
        match parse_bool(value.as_str(), line_no) {
            Ok(b) => Ok(
                Config {
                    max_line_length: config.max_line_length,
                    check_overlap: config.check_overlap,
                    check_duplicate_text: b,
                },
            ),
            Err(e) => Err(e),
        }
    } else {
        let mut reason = String::new();
        push_str(&mut reason, "unknown config key ");
        push_quoted(&mut reason, v, ka, kb);
        Err(ConfigError::Parse { line: line_no, reason })
    }
}

impl Config {
    /// Reads settings from the text of a config file: one `key = value` per
    /// line, `#` starting a comment, blank lines ignored; keys not set keep
    /// their defaults. The first line that is not understood is refused,
    /// with its number counted from 1.
    pub fn parse(contents: &str) -> (r: Result<Config, ConfigError>)
        ensures
            match config_from_text(contents@) {
                Ok(c) => r matches Ok(rc) && rc == c,
                Err((l, m)) => r matches Err(ConfigError::Parse { line, reason }) && line == l
                    && reason@ == m,
            },
    {
        let v = chars_of(contents);
        let ls = lines_in(&v);
        let ghost lines = lines_of(v@);
        let mut config = Config::default();
        let mut i: usize = 0;
        assert(lines.take(0) == Seq::<Seq<char>>::empty());
        while i < ls.len()
            invariant
                i <= ls@.len(),
                v@ == contents@,
                lines == lines_of(v@),
                ls@.len() == lines.len(),
                forall|k: int|
                    0 <= k < ls@.len() ==> {
                        &&& (#[trigger] ls@[k]).0 <= ls@[k].1 <= v@.len()
                        &&& v@.subrange(ls@[k].0 as int, ls@[k].1 as int) == lines[k]
                    },
                config_from_lines(lines.take(i as int)) == Ok::<Config, (nat, Seq<char>)>(config),
            decreases ls.len() - i,
        {
            let (lo, hi) = ls[i];
            assert(lines.take(i + 1).drop_last() == lines.take(i as int));
            assert(lines.take(i + 1).last() == lines[i as int]);
            match apply_line(config, &v, lo, hi, i + 1) {
                Ok(c) => {
                    config = c;
                },
                Err(e) => {
                    proof {
                        let reason = apply_config_line(config, lines[i as int])->Err_0;
                        assert(config_from_lines(lines.take(i + 1)) == Err::<Config, (nat, Seq<char>)>(
                            ((i + 1) as nat, reason),
                        ));
                        lemma_config_error_persists(lines, i + 1);
                    }
                    return Err(e);
                },
            }
            i = i + 1;
        }
        assert(lines.take(i as int) == lines);
        Ok(config)
    }
}

/// Once a line is refused, every longer file with the same beginning is
/// refused on that line.
proof fn lemma_config_error_persists(lines: Seq<Seq<char>>, n: int)
    requires
        0 <= n <= lines.len(),
        config_from_lines(lines.take(n)) is Err,
    ensures
        config_from_lines(lines) == config_from_lines(lines.take(n)),
    decreases lines.len() - n,
{
    if n < lines.len() {
        assert(lines.take(n + 1).drop_last() == lines.take(n));
        lemma_config_error_persists(lines, n + 1);
    } else {
        assert(lines.take(n) == lines);
    }
}

/// A line with no setting on it: blank, or only a comment.
pub open spec fn is_ignorable_line(raw: Seq<char>) -> bool {
    trim(before_comment(raw)).len() == 0
}

/// The lines of a config file that hold a setting.
pub open spec fn setting_lines(lines: Seq<Seq<char>>) -> Seq<Seq<char>> {
    lines.filter(|l: Seq<char>| !is_ignorable_line(l))
}

/// Blank lines and comments change nothing: a config file gives the same
/// settings as its setting lines alone, and is refused for the same reason
/// when it is refused (only the line number differs).
pub proof fn lemma_ignorable_lines_change_nothing(lines: Seq<Seq<char>>)
    ensures
        match (config_from_lines(lines), config_from_lines(setting_lines(lines))) {
            (Ok(a), Ok(b)) => a == b,
            (Err((_, r1)), Err((_, r2))) => r1 == r2,
            _ => false,
        },
    decreases lines.len(),
{
    if lines.len() > 0 {
        let prev = lines.drop_last();
        let x = lines.last();
        lemma_ignorable_lines_change_nothing(prev);
        reveal_with_fuel(Seq::<_>::filter, 1);
        let kept_prev = setting_lines(prev);
        assert(setting_lines(lines) == if is_ignorable_line(x) {
            kept_prev
        } else {
            kept_prev.push(x)
        });
        if !is_ignorable_line(x) {
            assert(kept_prev.push(x).drop_last() == kept_prev);
            assert(kept_prev.push(x).last() == x);
        }
    }
}

/// The key a config line names, if it holds a setting with an `=`.
pub open spec fn line_key(raw: Seq<char>) -> Option<Seq<char>> {
    match split_once_char(trim(before_comment(raw)), '=') {
        Some((k, _)) => Some(trim(k)),
        None => None,
    }
}

/// Whether some line of the file names `key`.
pub open spec fn names_key(lines: Seq<Seq<char>>, key: Seq<char>) -> bool {
    exists|i: int| 0 <= i < lines.len() && line_key(#[trigger] lines[i]) == Some(key)
}

/// A setting that no line names keeps its default value.
pub proof fn lemma_unnamed_settings_keep_defaults(lines: Seq<Seq<char>>)
    ensures
        config_from_lines(lines) matches Ok(c) ==> {
            &&& !names_key(lines, "max_line_length"@) ==> c.max_line_length
                == default_config().max_line_length
            &&& !names_key(lines, "check_overlap"@) ==> c.check_overlap
                == default_config().check_overlap
            &&& !names_key(lines, "check_duplicate_text"@) ==> c.check_duplicate_text
                == default_config().check_duplicate_text
        },
    decreases lines.len(),
{
    if lines.len() > 0 {
        let prev = lines.drop_last();
        lemma_unnamed_settings_keep_defaults(prev);
        assert forall|key: Seq<char>| names_key(prev, key) implies names_key(lines, key) by {
            let i = choose|i: int| 0 <= i < prev.len() && line_key(#[trigger] prev[i]) == Some(key);
            assert(lines[i] == prev[i]);
        }
        let last = lines.len() - 1;
        assert(lines[last] == lines.last());
        if line_key(lines.last()) is Some {
            assert(names_key(lines, line_key(lines.last())->0));
        }
    }
}

} // verus!
