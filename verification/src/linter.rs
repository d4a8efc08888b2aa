//! The lint rules, and the linter that runs them over a stream of lines.
use vstd::prelude::*;

use crate::config::{io_error_text, Config};
use crate::parser::{
    is_blank,
    blocks_of, reader_after,
    cue_of, is_skippable_vtt_block, is_webvtt_header_block, numbered_lines, reader_end,
    reader_line, BlockError, Format, RawBlock, ReaderState, Subtitle, SubtitleModel,
    SubtitleReader,
};
use crate::text::{char_is_whitespace, chars_of, decimal, is_whitespace, push_chars, push_decimal, push_str};
use crate::timestamp::{clock_text, Timestamp};

verus! {

#[derive(Debug, Clone, Copy, PartialEq, Eq, Structural)]
pub enum Severity {
    Error,
    Warning,
}

/// The word a severity is printed as.
pub open spec fn severity_text(s: Severity) -> Seq<char> {
    match s {
        Severity::Error => "error"@,
        Severity::Warning => "warning"@,
    }
}

impl Severity {
    /// The word this severity is printed as: `error` or `warning`.
    pub fn to_string(&self) -> (s: String)
        ensures
            s@ == severity_text(*self),
    {
        match self {
            Severity::Error => String::from_str("error"),
            Severity::Warning => String::from_str("warning"),
        }
    }
}

#[derive(Debug)]
pub struct Finding {
    pub line: usize,
    pub severity: Severity,
    pub message: String,
}

/// A finding as a value.
pub struct FindingModel {
    pub line: usize,
    pub severity: Severity,
    pub message: Seq<char>,
}

impl View for Finding {
    type V = FindingModel;

    open spec fn view(&self) -> FindingModel {
        FindingModel { line: self.line, severity: self.severity, message: self.message@ }
    }
}

/// Findings as values.
pub open spec fn findings_view(fs: Seq<Finding>) -> Seq<FindingModel> {
    fs.map_values(|f: Finding| f@)
}

/// The finding with the given parts.
pub open spec fn finding(line: usize, severity: Severity, message: Seq<char>) -> FindingModel {
    FindingModel { line, severity, message }
}

impl Finding {
    pub fn new(line: usize, severity: Severity, message: String) -> (f: Finding)
        ensures
            f@ == finding(line, severity, message@),
    {
        Finding { line, severity, message }
    }
}

/// Appends `f` to `findings`.
fn push_finding(findings: &mut Vec<Finding>, f: Finding)
    ensures
        findings_view(final(findings)@) == findings_view(old(findings)@).push(f@),
{
    findings.push(f);
    assert(findings_view(findings@) == findings_view(old(findings)@).push(f@));
}

// ---------------------------------------------------------------- timing rules

/// An error when the cue does not end after it starts.
pub open spec fn ordering_findings(sub: SubtitleModel) -> Seq<FindingModel> {
    if sub.end <= sub.start {
        seq![
            finding(
                sub.timing_line,
                Severity::Error,
                "end time "@ + clock_text(sub.end) + " is not after start time "@ + clock_text(
                    sub.start,
                ),
            ),
        ]
    } else {
        seq![]
    }
}

/// A warning when the cue starts before the previous cue ended.
pub open spec fn overlap_findings(sub: SubtitleModel, previous_end: Option<nat>) -> Seq<
    FindingModel,
> {
    match previous_end {
        Some(pe) => if sub.start < pe {
            seq![
                finding(
                    sub.timing_line,
                    Severity::Warning,
                    "cue starts at "@ + clock_text(sub.start) + " before the previous cue ends at "@
                        + clock_text(pe),
                ),
            ]
        } else {
            seq![]
        },
        None => seq![],
    }
}

pub fn check_ordering(subtitle: &Subtitle, findings: &mut Vec<Finding>)
    ensures
        findings_view(final(findings)@) == findings_view(old(findings)@) + ordering_findings(
            subtitle@,
        ),
{
    if subtitle.end <= subtitle.start {
        let mut m = String::new();
        push_str(&mut m, "end time ");
        push_str(&mut m, subtitle.end.to_string().as_str());
        push_str(&mut m, " is not after start time ");
        push_str(&mut m, subtitle.start.to_string().as_str());
        push_finding(findings, Finding::new(subtitle.timing_line, Severity::Error, m));
    } else {
        assert(findings_view(findings@) == findings_view(findings@) + Seq::<FindingModel>::empty());
    }
}

pub fn check_overlap(subtitle: &Subtitle, previous_end: Option<Timestamp>, findings: &mut Vec<Finding>)
    ensures
        findings_view(final(findings)@) == findings_view(old(findings)@) + overlap_findings(
            subtitle@,
            match previous_end {
                Some(t) => Some(t@),
                None => None,
            },
        ),
{
    if let Some(previous_end) = previous_end {
        if subtitle.start < previous_end {
            let mut m = String::new();
            push_str(&mut m, "cue starts at ");
            push_str(&mut m, subtitle.start.to_string().as_str());
            push_str(&mut m, " before the previous cue ends at ");
            push_str(&mut m, previous_end.to_string().as_str());
            push_finding(findings, Finding::new(subtitle.timing_line, Severity::Warning, m));
            return;
        }
    }
    assert(findings_view(findings@) == findings_view(findings@) + Seq::<FindingModel>::empty());
}

// ---------------------------------------------------------------- text rules

/// Below this normalized length, short cues ("Yes." / "No.") are too likely
/// to collide by chance to be worth flagging as near-duplicates.
pub const NEAR_DUPLICATE_MIN_LEN: usize = 8;

/// A warning for each text line longer than `max` characters.
pub open spec fn long_line_findings(text: Seq<(usize, Seq<char>)>, max: nat) -> Seq<FindingModel>
    decreases text.len(),
{
    if text.len() == 0 {
        seq![]
    } else {
        let prev = long_line_findings(text.drop_last(), max);
        let (n, t) = text.last();
        if t.len() > max {
            prev.push(
                finding(
                    n,
                    Severity::Warning,
                    "line is "@ + decimal(t.len()) + " characters, longer than the recommended "@
                        + decimal(max),
                ),
            )
        } else {
            prev
        }
    }
}

/// A warning for a cue without text, else one for each over-long line.
pub open spec fn text_findings(sub: SubtitleModel, max: nat) -> Seq<FindingModel> {
    if sub.text.len() == 0 {
        seq![finding(sub.timing_line, Severity::Warning, "cue has a timing line but no text"@)]
    } else {
        long_line_findings(sub.text, max)
    }
}

pub fn check_text(subtitle: &Subtitle, max_line_length: usize, findings: &mut Vec<Finding>)
    ensures
        findings_view(final(findings)@) == findings_view(old(findings)@) + text_findings(
            subtitle@,
            max_line_length as nat,
        ),
{
    if subtitle.text.len() == 0 {
        push_finding(
            findings,
            Finding::new(
                subtitle.timing_line,
                Severity::Warning,
                String::from_str("cue has a timing line but no text"),
            ),
        );
        return;
    }
    let ghost start = findings_view(findings@);
    let ghost text = subtitle@.text;
    let mut i: usize = 0;
    assert(text.take(0) == Seq::<(usize, Seq<char>)>::empty());
    while i < subtitle.text.len()
        invariant
            i <= subtitle.text@.len(),
            text == numbered_lines(subtitle.text@),
            findings_view(findings@) == start + long_line_findings(text.take(i as int), max_line_length as nat),
        decreases subtitle.text.len() - i,
    {
        let line = subtitle.text[i].0;
        let len = chars_of(subtitle.text[i].1.as_str()).len();
        assert(text.take(i + 1).drop_last() == text.take(i as int));
        assert(text.take(i + 1).last() == text[i as int]);
        if len > max_line_length {
            let mut m = String::new();
            push_str(&mut m, "line is ");
            push_decimal(&mut m, len as u64);
            push_str(&mut m, " characters, longer than the recommended ");
            push_decimal(&mut m, max_line_length as u64);
            push_finding(findings, Finding::new(line, Severity::Warning, m));
        }
        i = i + 1;
    }
    assert(text.take(i as int) == text);
}

/// The text lines of a cue joined by single spaces.
pub open spec fn joined_text(text: Seq<(usize, Seq<char>)>) -> Seq<char>
    decreases text.len(),
{
    if text.len() == 0 {
        seq![]
    } else if text.len() == 1 {
        text[0].1
    } else {
        joined_text(text.drop_last()) + seq![' '] + text.last().1
    }
}

pub fn joined_cue_text(subtitle: &Subtitle) -> (s: String)
    ensures
        s@ == joined_text(subtitle@.text),
{
    let ghost text = subtitle@.text;
    let mut s = String::new();
    let mut i: usize = 0;
    assert(text.take(0) == Seq::<(usize, Seq<char>)>::empty());
    while i < subtitle.text.len()
        invariant
            i <= subtitle.text@.len(),
            text == numbered_lines(subtitle.text@),
            s@ == joined_text(text.take(i as int)),
        decreases subtitle.text.len() - i,
    {
        assert(text.take(i + 1).drop_last() == text.take(i as int));
        assert(text.take(i + 1).last() == text[i as int]);
        if i > 0 {
            s.push(' ');
        }
        push_str(&mut s, subtitle.text[i].1.as_str());
        i = i + 1;
    }
    assert(text.take(i as int) == text);
    s
}

/// What `char::is_alphanumeric` answers (Unicode `Alphabetic` or `Numeric`).
pub uninterp spec fn char_is_alphanumeric(c: char) -> bool;

/// What `char::to_lowercase` yields (Unicode lowercase mapping).
pub uninterp spec fn char_lowercase(c: char) -> Seq<char>;

/// An ASCII letter or digit.
pub open spec fn is_ascii_alphanumeric(c: char) -> bool {
    ('0' <= c <= '9') || ('a' <= c <= 'z') || ('A' <= c <= 'Z')
}

/// The ASCII lowercase of an ASCII character.
pub open spec fn ascii_lowercase(c: char) -> char {
    if 'A' <= c <= 'Z' {
        ((c as u32) + 32) as char
    } else {
        c
    }
}

/// Calls `char::is_alphanumeric`; its answer is named `char_is_alphanumeric`.
/// For an ASCII character it is true exactly for letters and digits.
#[verifier::external_body]
fn is_alphanumeric(c: char) -> (b: bool)
    ensures
        b == char_is_alphanumeric(c),
        (c as u32) < 128 ==> (b == is_ascii_alphanumeric(c)),
{
    c.is_alphanumeric()
}

/// Collects what `char::to_lowercase` yields; it is named `char_lowercase`.
/// For an ASCII character it is the one ASCII lowercase character.
#[verifier::external_body]
fn to_lowercase(c: char) -> (v: Vec<char>)
    ensures
        v@ == char_lowercase(c),
        (c as u32) < 128 ==> v@ == seq![ascii_lowercase(c)],
{
    c.to_lowercase().collect()
}

/// Normalization of `s`, read left to right, given for each character
/// whether it is a letter or digit (`alnum`) and its lowercase form
/// (`lower`): the output so far, and whether whitespace has been seen since
/// its last letter or digit. Letters and digits are written lowercased, with
/// one space before them when whitespace came between them and earlier
/// output; everything else is dropped.
pub open spec fn normalize_with(s: Seq<char>, alnum: Seq<bool>, lower: Seq<Seq<char>>) -> (
    Seq<char>,
    bool,
)
    decreases s.len(),
{
    if s.len() == 0 {
        (seq![], false)
    } else {
        let (out, pending) = normalize_with(s.drop_last(), alnum.drop_last(), lower.drop_last());
        if alnum.last() {
            (
                (if pending && out.len() > 0 {
                    out.push(' ')
                } else {
                    out
                }) + lower.last(),
                false,
            )
        } else if char_is_whitespace(s.last()) {
            (out, true)
        } else {
            (out, pending)
        }
    }
}

/// `char::is_alphanumeric` for each character of `s`.
pub open spec fn alnum_answers(s: Seq<char>) -> Seq<bool> {
    Seq::new(s.len(), |i: int| char_is_alphanumeric(s[i]))
}

/// `char::to_lowercase` for each character of `s`.
pub open spec fn lowercase_answers(s: Seq<char>) -> Seq<Seq<char>> {
    Seq::new(s.len(), |i: int| char_lowercase(s[i]))
}

/// `s` lowercased, with everything but letters and digits dropped and runs
/// of whitespace between them made single spaces.
pub open spec fn normalized(s: Seq<char>) -> Seq<char> {
    normalize_with(s, alnum_answers(s), lowercase_answers(s)).0
}

/// Normalizes `chars` given, for each character, whether it is a letter or
/// digit (`alnum`) and its lowercase form (`lower`).
pub fn normalize_chars(chars: &[char], alnum: &[bool], lower: &Vec<Vec<char>>) -> (out: String)
    requires
        alnum@.len() == chars@.len(),
        lower@.len() == chars@.len(),
    ensures
        out@ == normalize_with(chars@, alnum@, lower@.map_values(|v: Vec<char>| v@)).0,
{
    let ghost lows = lower@.map_values(|v: Vec<char>| v@);
    let mut out = String::new();
    let mut pending_space = false;
    let mut i: usize = 0;
    assert(chars@.take(0) == Seq::<char>::empty());
    while i < chars.len()
        invariant
            i <= chars@.len(),
            alnum@.len() == chars@.len(),
            lower@.len() == chars@.len(),
            lows == lower@.map_values(|v: Vec<char>| v@),
            (out@, pending_space) == normalize_with(
                chars@.take(i as int),
                alnum@.take(i as int),
                lows.take(i as int),
            ),
        decreases chars.len() - i,
    {
        assert(chars@.take(i + 1).drop_last() == chars@.take(i as int));
        assert(alnum@.take(i + 1).drop_last() == alnum@.take(i as int));
        assert(lows.take(i + 1).drop_last() == lows.take(i as int));
        assert(chars@.take(i + 1).last() == chars@[i as int]);
        assert(alnum@.take(i + 1).last() == alnum@[i as int]);
        assert(lows.take(i + 1).last() == lower@[i as int]@);
        if alnum[i] {
            if pending_space && !out.as_str().is_empty() {
                out.push(' ');
            }
            pending_space = false;
            let l = &lower[i];
            push_chars(&mut out, l, 0, l.len());
            assert(l@.subrange(0, l@.len() as int) == l@);
        } else if is_whitespace(chars[i]) {
            pending_space = true;
        }
        i = i + 1;
    }
    assert(chars@.take(i as int) == chars@);
    assert(alnum@.take(i as int) == alnum@);
    assert(lows.take(i as int) == lows);
    out
}

/// Lowercases and strips everything but letters, digits, and single spaces
/// between them, so "Hello, world!" and "hello world" compare equal — the
/// kind of edit that leaves a cue's meaning unchanged but its text differs.
pub fn normalize_for_comparison(text: &str) -> (out: String)
    ensures
        out@ == normalized(text@),
        forall|i: int|
            0 <= i < text@.len() && (text@[i] as u32) < 128 ==> {
                &&& char_is_alphanumeric(#[trigger] text@[i]) == is_ascii_alphanumeric(text@[i])
                &&& char_lowercase(text@[i]) == seq![ascii_lowercase(text@[i])]
            },
        (forall|i: int| 0 <= i < text@.len() ==> (#[trigger] text@[i] as u32) < 128) ==> {
            &&& out@.len() > 0 ==> out@[0] != ' ' && out@.last() != ' '
            &&& forall|i: int| 0 <= i < out@.len() - 1 ==> !(#[trigger] out@[i] == ' ' && out@[i + 1] == ' ')
        },
{
    let v = chars_of(text);
    let mut alnum: Vec<bool> = Vec::new();
    let mut lower: Vec<Vec<char>> = Vec::new();
    let mut i: usize = 0;
    while i < v.len()
        invariant
            i <= v@.len(),
            alnum@ == alnum_answers(v@).take(i as int),
            lower@.map_values(|w: Vec<char>| w@) == lowercase_answers(v@).take(i as int),
            forall|k: int|
                0 <= k < i && (v@[k] as u32) < 128 ==> {
                    &&& char_is_alphanumeric(#[trigger] v@[k]) == is_ascii_alphanumeric(v@[k])
                    &&& char_lowercase(v@[k]) == seq![ascii_lowercase(v@[k])]
                },
        decreases v.len() - i,
    {
        let ghost before = lower@;
        alnum.push(is_alphanumeric(v[i]));
        let l = to_lowercase(v[i]);
        lower.push(l);
        assert(lower@.map_values(|w: Vec<char>| w@) == before.map_values(|w: Vec<char>| w@).push(
            l@,
        ));
        assert(alnum_answers(v@).take(i + 1) == alnum_answers(v@).take(i as int).push(
            char_is_alphanumeric(v@[i as int]),
        ));
        assert(lowercase_answers(v@).take(i + 1) == lowercase_answers(v@).take(i as int).push(
            char_lowercase(v@[i as int]),
        ));
        i = i + 1;
    }
    assert(alnum_answers(v@).take(i as int) == alnum_answers(v@));
    assert(lowercase_answers(v@).take(i as int) == lowercase_answers(v@));
    proof {
        if forall|k: int| 0 <= k < v@.len() ==> (#[trigger] v@[k] as u32) < 128 {
            let al = alnum_answers(v@);
            let lo = lowercase_answers(v@);
            assert forall|k: int| 0 <= k < v@.len() && #[trigger] al[k] implies lo[k].len() > 0
                && forall|j: int| 0 <= j < lo[k].len() ==> lo[k][j] != ' ' by {
                assert((v@[k] as u32) < 128);
                assert(lo[k] == seq![ascii_lowercase(v@[k])]);
                assert(is_ascii_alphanumeric(v@[k]));
            }
            lemma_normalized_spacing(v@, al, lo);
        }
    }
    normalize_chars(&v, &alnum, &lower)
}

/// Normalized text is spaced as promised — no space at either end and never
/// two spaces together — whenever the lowercase form of each letter or digit
/// is some characters none of which is a space.
pub proof fn lemma_normalized_spacing(s: Seq<char>, alnum: Seq<bool>, lower: Seq<Seq<char>>)
    requires
        alnum.len() == s.len(),
        lower.len() == s.len(),
        forall|i: int|
            0 <= i < s.len() && #[trigger] alnum[i] ==> lower[i].len() > 0 && forall|j: int|
                0 <= j < lower[i].len() ==> lower[i][j] != ' ',
    ensures
        ({
            let out = normalize_with(s, alnum, lower).0;
            &&& out.len() > 0 ==> out[0] != ' ' && out.last() != ' '
            &&& forall|i: int| 0 <= i < out.len() - 1 ==> !(#[trigger] out[i] == ' ' && out[i + 1] == ' ')
        }),
    decreases s.len(),
{
    if s.len() > 0 {
        let n = s.len() - 1;
        assert forall|i: int|
            0 <= i < s.drop_last().len() && #[trigger] alnum.drop_last()[i] implies lower.drop_last()[i].len()
            > 0 && forall|j: int|
            0 <= j < lower.drop_last()[i].len() ==> lower.drop_last()[i][j] != ' ' by {
            assert(alnum.drop_last()[i] == alnum[i]);
            assert(lower.drop_last()[i] == lower[i]);
        }
        lemma_normalized_spacing(s.drop_last(), alnum.drop_last(), lower.drop_last());
        let (out, pending) = normalize_with(s.drop_last(), alnum.drop_last(), lower.drop_last());
        if alnum.last() {
            assert(alnum[n]);
            let l = lower.last();
            assert(l == lower[n]);
            let base = if pending && out.len() > 0 {
                out.push(' ')
            } else {
                out
            };
            let res = base + l;
            assert(res.len() > 0 ==> res[0] != ' ') by {
                if base.len() > 0 {
                    assert(res[0] == base[0]);
                    assert(base[0] == out[0]);
                } else {
                    assert(res[0] == l[0]);
                }
            }
            assert(res.last() == l.last());
            assert forall|i: int| 0 <= i < res.len() - 1 implies !(#[trigger] res[i] == ' ' && res[i
                + 1] == ' ') by {
                if i + 1 < base.len() {
                    assert(res[i] == base[i] && res[i + 1] == base[i + 1]);
                    if i + 1 < out.len() {
                        assert(base[i] == out[i] && base[i + 1] == out[i + 1]);
                    }
                } else {
                    assert(res[i + 1] == l[i + 1 - base.len()]);
                }
            }
        }
    }
}

// ---------------------------------------------------------------- edit distance

/// The least of three numbers.
pub open spec fn min3(x: nat, y: nat, z: nat) -> nat {
    if x <= y && x <= z {
        x
    } else if y <= z {
        y
    } else {
        z
    }
}

/// The Levenshtein distance between `a` and `b`: the fewest single-character
/// insertions, deletions and substitutions that turn one into the other.
pub open spec fn edit_distance(a: Seq<char>, b: Seq<char>) -> nat
    decreases a.len() + b.len(),
{
    if a.len() == 0 {
        b.len()
    } else if b.len() == 0 {
        a.len()
    } else {
        min3(
            edit_distance(a.drop_last(), b) + 1,
            edit_distance(a, b.drop_last()) + 1,
            edit_distance(a.drop_last(), b.drop_last()) + (if a.last() == b.last() {
                0nat
            } else {
                1nat
            }),
        )
    }
}

/// The distance is at most the longer length.
pub proof fn lemma_edit_distance_bound(a: Seq<char>, b: Seq<char>)
    ensures
        edit_distance(a, b) <= if a.len() >= b.len() {
            a.len()
        } else {
            b.len()
        },
    decreases a.len() + b.len(),
{
    if a.len() > 0 && b.len() > 0 {
        lemma_edit_distance_bound(a.drop_last(), b.drop_last());
    }
}

/// The distance is at least the difference of the lengths.
pub proof fn lemma_edit_distance_lower_bound(a: Seq<char>, b: Seq<char>)
    ensures
        edit_distance(a, b) >= a.len() - b.len(),
        edit_distance(a, b) >= b.len() - a.len(),
    decreases a.len() + b.len(),
{
    if a.len() > 0 && b.len() > 0 {
        lemma_edit_distance_lower_bound(a.drop_last(), b);
        lemma_edit_distance_lower_bound(a, b.drop_last());
        lemma_edit_distance_lower_bound(a.drop_last(), b.drop_last());
    }
}

/// The distance does not depend on the order of the two texts.
pub proof fn lemma_edit_distance_symmetric(a: Seq<char>, b: Seq<char>)
    ensures
        edit_distance(a, b) == edit_distance(b, a),
    decreases a.len() + b.len(),
{
    if a.len() > 0 && b.len() > 0 {
        lemma_edit_distance_symmetric(a.drop_last(), b);
        lemma_edit_distance_symmetric(a, b.drop_last());
        lemma_edit_distance_symmetric(a.drop_last(), b.drop_last());
    }
}

/// The distance is 0 exactly when the texts are the same.
pub proof fn lemma_edit_distance_zero(a: Seq<char>, b: Seq<char>)
    ensures
        (edit_distance(a, b) == 0) == (a == b),
    decreases a.len() + b.len(),
{
    lemma_edit_distance_lower_bound(a, b);
    if a.len() > 0 && b.len() > 0 {
        lemma_edit_distance_zero(a.drop_last(), b.drop_last());
        lemma_edit_distance_lower_bound(a.drop_last(), b);
        lemma_edit_distance_lower_bound(a, b.drop_last());
        if a == b {
            assert(a.drop_last() == b.drop_last());
        }
        if edit_distance(a, b) == 0 {
            assert(a.drop_last() == b.drop_last());
            assert(a.last() == b.last());
            assert(a == a.drop_last().push(a.last()));
            assert(b == b.drop_last().push(b.last()));
        }
    } else if a.len() == 0 && b.len() == 0 {
        assert(a == b);
    }
}

/// The edit distance as a measure of difference: symmetric, 0 exactly for
/// equal texts, and between the difference of the lengths and the longer
/// length.
pub proof fn lemma_edit_distance_laws(a: Seq<char>, b: Seq<char>)
    ensures
        edit_distance(a, b) == edit_distance(b, a),
        (edit_distance(a, b) == 0) == (a == b),
        edit_distance(a, b) >= a.len() - b.len(),
        edit_distance(a, b) >= b.len() - a.len(),
        edit_distance(a, b) <= if a.len() >= b.len() {
            a.len()
        } else {
            b.len()
        },
{
    lemma_edit_distance_symmetric(a, b);
    lemma_edit_distance_zero(a, b);
    lemma_edit_distance_lower_bound(a, b);
    lemma_edit_distance_bound(a, b);
}

/// Edit distance between two strings, compared character by character.
/// Cue text is short (a couple of lines at most), so the O(n*m) table is
/// negligible even though it's computed once per cue.
pub fn levenshtein(a: &str, b: &str) -> (d: usize)
    ensures
        d == edit_distance(a@, b@),
{
    let a = chars_of(a);
    let b = chars_of(b);
    assert(a@.take(a@.len() as int) == a@);
    assert(b@.take(b@.len() as int) == b@);
    if a.len() == 0 {
        return b.len();
    }
    if b.len() == 0 {
        return a.len();
    }
    let n = b.len();
    // row[j] holds the distance between the first i characters of `a` and
    // the first j + 1 characters of `b`; the distance to no characters of
    // `b` is i itself.
    let mut row: Vec<usize> = Vec::new();
    let mut j: usize = 0;
    while j < n
        invariant
            j <= n == b@.len(),
            row@.len() == j,
            forall|k: int| 0 <= k < j ==> row@[k] == edit_distance(a@.take(0), b@.take(k + 1)),
        decreases n - j,
    {
        row.push(j + 1);
        proof {
            lemma_distance_from_empty(a@, b@.take(j + 1));
        }
        j = j + 1;
    }
    let mut i: usize = 0;
    while i < a.len()
        invariant
            i <= a@.len() <= usize::MAX,
            n == b@.len(),
            n > 0,
            row@.len() == n,
            forall|k: int| 0 <= k < n ==> row@[k] == edit_distance(a@.take(i as int), b@.take(k + 1)),
        decreases a.len() - i,
    {
        let ghost ai = a@.take(i as int);
        let ghost ai1 = a@.take(i + 1);
        assert(ai1.drop_last() == ai);
        assert(ai1.last() == a@[i as int]);
        let mut next: Vec<usize> = Vec::new();
        let mut left: usize = i + 1;
        let mut diag: usize = i;
        proof {
            assert(edit_distance(ai1, b@.take(0)) == i + 1);
            assert(edit_distance(ai, b@.take(0)) == i);
        }
        let mut j: usize = 0;
        while j < n
            invariant
                i < a@.len() <= usize::MAX,
                ai == a@.take(i as int),
                ai1 == a@.take(i + 1),
                ai1.drop_last() == ai,
                ai1.last() == a@[i as int],
                n == b@.len(),
                j <= n,
                row@.len() == n,
                forall|k: int| 0 <= k < n ==> row@[k] == edit_distance(ai, b@.take(k + 1)),
                next@.len() == j,
                forall|k: int| 0 <= k < j ==> next@[k] == edit_distance(ai1, b@.take(k + 1)),
                left == edit_distance(ai1, b@.take(j as int)),
                diag == edit_distance(ai, b@.take(j as int)),
            decreases n - j,
        {
            let ghost bj1 = b@.take(j + 1);
            assert(bj1.drop_last() == b@.take(j as int));
            assert(bj1.last() == b@[j as int]);
            let cost: u128 = if a[i] == b[j] {
                0
            } else {
                1
            };
            let up: u128 = row[j] as u128 + 1;
            let lf: u128 = left as u128 + 1;
            let dg: u128 = diag as u128 + cost;
            let mut val: u128 = up;
            if lf < val {
                val = lf;
            }
            if dg < val {
                val = dg;
            }
            proof {
                assert(val == edit_distance(ai1, bj1));
                lemma_edit_distance_bound(ai1, bj1);
                assert(ai1.len() == i + 1 && bj1.len() == j + 1);
                assert(val <= usize::MAX);
            }
            let v: usize = val as usize;
            next.push(v);
            diag = row[j];
            left = v;
            j = j + 1;
        }
        row = next;
        i = i + 1;
    }
    row[n - 1]
}

/// The distance from no characters to `b` is the length of `b`.
proof fn lemma_distance_from_empty(a: Seq<char>, b: Seq<char>)
    ensures
        edit_distance(a.take(0), b) == b.len(),
{
}

// ---------------------------------------------------------------- duplicate text

/// A warning when a cue's text repeats the previous cue's: identical text;
/// text identical after normalization; or, when the longer normalized text
/// has at least `NEAR_DUPLICATE_MIN_LEN` characters, normalized texts within
/// an edit distance of a fifth of that length.
pub open spec fn duplicate_findings(sub: SubtitleModel, previous: Option<(usize, Seq<char>)>) -> Seq<
    FindingModel,
> {
    if sub.text.len() == 0 {
        seq![]
    } else {
        match previous {
            None => seq![],
            Some((previous_line, previous_raw)) => {
                let current_raw = joined_text(sub.text);
                let report_line = sub.text[0].0;
                if current_raw == previous_raw {
                    seq![
                        finding(
                            report_line,
                            Severity::Warning,
                            "cue text is identical to the previous cue at line "@ + decimal(
                                previous_line as nat,
                            ),
                        ),
                    ]
                } else {
                    let current_norm = normalized(current_raw);
                    let previous_norm = normalized(previous_raw);
                    if current_norm.len() == 0 || previous_norm.len() == 0 {
                        seq![]
                    } else if current_norm == previous_norm {
                        seq![
                            finding(
                                report_line,
                                Severity::Warning,
                                "cue text is nearly identical to the previous cue at line "@
                                    + decimal(previous_line as nat)
                                    + " (differs only in case or punctuation)"@,
                            ),
                        ]
                    } else {
                        let max_len = if current_norm.len() >= previous_norm.len() {
                            current_norm.len()
                        } else {
                            previous_norm.len()
                        };
                        if max_len < NEAR_DUPLICATE_MIN_LEN {
                            seq![]
                        } else if edit_distance(current_norm, previous_norm) * 5 <= max_len {
                            seq![
                                finding(
                                    report_line,
                                    Severity::Warning,
                                    "cue text is nearly identical to the previous cue at line "@
                                        + decimal(previous_line as nat),
                                ),
                            ]
                        } else {
                            seq![]
                        }
                    }
                }
            },
        }
    }
}

/// An optional numbered text as a value.
pub open spec fn previous_view(previous: Option<&(usize, String)>) -> Option<(usize, Seq<char>)> {
    match previous {
        Some(p) => Some((p.0, p.1@)),
        None => None,
    }
}

/// "cue text is nearly identical to the previous cue at line N".
fn near_duplicate_message(previous_line: usize) -> (m: String)
    ensures
        m@ == "cue text is nearly identical to the previous cue at line "@ + decimal(
            previous_line as nat,
        ),
{
    let mut m = String::new();
    push_str(&mut m, "cue text is nearly identical to the previous cue at line ");
    push_decimal(&mut m, previous_line as u64);
    m
}

pub fn check_duplicate_text(subtitle: &Subtitle, previous: Option<&(usize, String)>, findings: &mut Vec<Finding>)
    ensures
        findings_view(final(findings)@) == findings_view(old(findings)@) + duplicate_findings(
            subtitle@,
            previous_view(previous),
        ),
{
    assert(findings_view(findings@) == findings_view(findings@) + Seq::<FindingModel>::empty());
    if subtitle.text.len() == 0 {
        return;
    }
    let (previous_line, previous_raw) = match previous {
        Some(p) => (p.0, &p.1),
        None => {
            return;
        },
    };
    let current_raw = joined_cue_text(subtitle);
    let report_line = subtitle.text[0].0;
    assert(subtitle@.text[0].0 == report_line);
    if current_raw == *previous_raw {
        let mut m = String::new();
        push_str(&mut m, "cue text is identical to the previous cue at line ");
        push_decimal(&mut m, previous_line as u64);
        push_finding(findings, Finding::new(report_line, Severity::Warning, m));
        return;
    }
    let current_norm = normalize_for_comparison(current_raw.as_str());
    let previous_norm = normalize_for_comparison(previous_raw.as_str());
    if current_norm.as_str().is_empty() || previous_norm.as_str().is_empty() {
        return;
    }
    if current_norm == previous_norm {
        let mut m = near_duplicate_message(previous_line);
        push_str(&mut m, " (differs only in case or punctuation)");
        push_finding(findings, Finding::new(report_line, Severity::Warning, m));
        return;
    }
    let current_len = chars_of(current_norm.as_str()).len();
    let previous_len = chars_of(previous_norm.as_str()).len();
    let max_len = if current_len >= previous_len {
        current_len
    } else {
        previous_len
    };
    if max_len < NEAR_DUPLICATE_MIN_LEN {
        return;
    }
    // Within roughly a 20% edit distance of each other counts as a near
    // duplicate — enough to catch a word swapped or a typo fixed between
    // two cues that should probably have been merged or left alone.
    let distance = levenshtein(current_norm.as_str(), previous_norm.as_str());
    assert((distance * 5 <= max_len) == (distance <= max_len / 5)) by (nonlinear_arith);
    if distance <= max_len / 5 {
        let m = near_duplicate_message(previous_line);
        push_finding(findings, Finding::new(report_line, Severity::Warning, m));
    }
}

// ---------------------------------------------------------------- the linter

/// What the linter has established so far: the format (once the first block
/// has been seen), the previous cue's end and text, the findings, and
/// whether the input is over.
pub struct LintState {
    pub format: Option<Format>,
    pub previous_end: Option<nat>,
    pub previous_text: Option<(usize, Seq<char>)>,
    pub findings: Seq<FindingModel>,
    pub done: bool,
}

/// The state before any input.
pub open spec fn initial_lint_state() -> LintState {
    LintState {
        format: None,
        previous_end: None,
        previous_text: None,
        findings: seq![],
        done: false,
    }
}

/// The findings for one cue, in the order the rules run: ordering, overlap
/// (when enabled), text, duplicate text (when enabled).
pub open spec fn cue_findings(
    config: Config,
    previous_end: Option<nat>,
    previous_text: Option<(usize, Seq<char>)>,
    sub: SubtitleModel,
) -> Seq<FindingModel> {
    ordering_findings(sub) + (if config.check_overlap {
        overlap_findings(sub, previous_end)
    } else {
        seq![]
    }) + text_findings(sub, config.max_line_length as nat) + (if config.check_duplicate_text {
        duplicate_findings(sub, previous_text)
    } else {
        seq![]
    })
}

/// The state after checking a block as a cue in `format`: a malformed block
/// gives one error and changes nothing else; a cue gives its findings and
/// becomes the previous cue (its text only if it has some).
pub open spec fn lint_cue(config: Config, st: LintState, block: Seq<(usize, Seq<char>)>, format: Format) -> LintState {
    match cue_of(block, format) {
        Err((l, m)) => LintState {
            format: st.format,
            previous_end: st.previous_end,
            previous_text: st.previous_text,
            findings: st.findings.push(finding(l, Severity::Error, m)),
            done: st.done,
        },
        Ok(sub) => LintState {
            format: st.format,
            previous_end: Some(sub.end),
            previous_text: if sub.text.len() > 0 {
                Some((sub.text[0].0, joined_text(sub.text)))
            } else {
                st.previous_text
            },
            findings: st.findings + cue_findings(config, st.previous_end, st.previous_text, sub),
            done: st.done,
        },
    }
}

/// The state after a block: the first block fixes the format (a `WEBVTT`
/// header makes it WebVTT and is not a cue; anything else makes it SRT);
/// WebVTT `NOTE`, `STYLE` and `REGION` blocks are skipped; every other
/// block is checked as a cue.
pub open spec fn lint_block(config: Config, st: LintState, block: Seq<(usize, Seq<char>)>) -> LintState {
    match st.format {
        None => if is_webvtt_header_block(block) {
            LintState {
                format: Some(Format::Vtt),
                previous_end: st.previous_end,
                previous_text: st.previous_text,
                findings: st.findings,
                done: st.done,
            }
        } else {
            lint_cue(
                config,
                LintState {
                    format: Some(Format::Srt),
                    previous_end: st.previous_end,
                    previous_text: st.previous_text,
                    findings: st.findings,
                    done: st.done,
                },
                block,
                Format::Srt,
            )
        },
        Some(f) => if f == Format::Vtt && is_skippable_vtt_block(block) {
            st
        } else {
            lint_cue(config, st, block, f)
        },
    }
}

/// The state after a block, if one came.
pub open spec fn lint_output(config: Config, st: LintState, out: Option<Seq<(usize, Seq<char>)>>) -> LintState {
    match out {
        Some(b) => lint_block(config, st, b),
        None => st,
    }
}

/// `st`, marked as over.
pub open spec fn finished(st: LintState) -> LintState {
    LintState {
        format: st.format,
        previous_end: st.previous_end,
        previous_text: st.previous_text,
        findings: st.findings,
        done: true,
    }
}

/// The state after a read error with the given text: one error on line 0,
/// `read error: ` and the text, and the input is over.
pub open spec fn read_failed(st: LintState, text: Seq<char>) -> LintState {
    LintState {
        format: st.format,
        previous_end: st.previous_end,
        previous_text: st.previous_text,
        findings: st.findings.push(finding(0, Severity::Error, "read error: "@ + text)),
        done: true,
    }
}

/// A linter as values: its settings, its reader and what it has found.
pub struct LinterModel {
    pub config: Config,
    pub reader: ReaderState,
    pub state: LintState,
}

/// Lints a subtitle stream, reading and checking one cue at a time so the
/// caller can hand this a multi-gigabyte file without it landing in memory.
///
/// The format (SRT or VTT) is sniffed from the stream itself rather than
/// passed in, since it's determined entirely by whether the first block is
/// a `WEBVTT` header — the caller (stdin included) doesn't need to know.
/// The caller reads the lines and hands each to `feed`.
pub struct Linter {
    config: Config,
    reader: SubtitleReader,
    format: Option<Format>,
    // Only the previous cue's end time and text are kept around, not the
    // cue itself — enough to catch back-to-back overlaps and duplicates
    // without holding more than one cue's worth of state at a time.
    previous_end: Option<Timestamp>,
    previous_text: Option<(usize, String)>,
    findings: Vec<Finding>,
    done: bool,
}

impl View for Linter {
    type V = LinterModel;

    closed spec fn view(&self) -> LinterModel {
        LinterModel {
            config: self.config,
            reader: self.reader@,
            state: LintState {
                format: self.format,
                previous_end: match self.previous_end {
                    Some(t) => Some(t@),
                    None => None,
                },
                previous_text: match self.previous_text {
                    Some(p) => Some((p.0, p.1@)),
                    None => None,
                },
                findings: findings_view(self.findings@),
                done: self.done,
            },
        }
    }
}

/// Runs every enabled rule on a cue, given the previous cue's end and text.
fn run_checks(
    config: &Config,
    previous_end: Option<Timestamp>,
    previous_text: &Option<(usize, String)>,
    subtitle: &Subtitle,
    findings: &mut Vec<Finding>,
)
    ensures
        findings_view(final(findings)@) == findings_view(old(findings)@) + cue_findings(
            *config,
            match previous_end {
                Some(t) => Some(t@),
                None => None,
            },
            match previous_text {
                Some(p) => Some((p.0, p.1@)),
                None => None,
            },
            subtitle@,
        ),
{
    let ghost start = findings_view(findings@);
    check_ordering(subtitle, findings);
    let ghost f1 = findings_view(findings@);
    if config.check_overlap {
        check_overlap(subtitle, previous_end, findings);
    } else {
        assert(f1 == f1 + Seq::<FindingModel>::empty());
    }
    let ghost f2 = findings_view(findings@);
    check_text(subtitle, config.max_line_length, findings);
    let ghost f3 = findings_view(findings@);
    if config.check_duplicate_text {
        match previous_text {
            Some(p) => check_duplicate_text(subtitle, Some(p), findings),
            None => check_duplicate_text(subtitle, None, findings),
        }
    } else {
        assert(f3 == f3 + Seq::<FindingModel>::empty());
    }
}

impl Linter {
    /// A linter with the given settings that has read nothing yet.
    pub fn new(config: Config) -> (r: Linter)
        ensures
            r@ == (LinterModel {
                config,
                reader: ReaderState { block: Seq::empty(), line_no: 0 },
                state: initial_lint_state(),
            }),
    {
        let r = Linter {
            config,
            reader: SubtitleReader::new(),
            format: None,
            previous_end: None,
            previous_text: None,
            findings: Vec::new(),
            done: false,
        };
        assert(findings_view(r.findings@) == Seq::<FindingModel>::empty());
        r
    }

    /// How many lines the linter has been given.
    pub fn lines_read(&self) -> (n: usize)
        ensures
            n as nat == self@.reader.line_no,
    {
        self.reader.lines_read()
    }

    /// Whether the input is over (its end or a read error has been fed).
    pub fn is_done(&self) -> (b: bool)
        ensures
            b == self@.state.done,
    {
        self.done
    }

    /// The findings so far, in the order they were found.
    pub fn into_findings(self) -> (fs: Vec<Finding>)
        ensures
            findings_view(fs@) == self@.state.findings,
    {
        self.findings
    }

    /// Checks a block as a cue in `format`.
    fn lint_cue(&mut self, raw: &RawBlock, format: Format)
        ensures
            final(self)@ == (LinterModel {
                config: old(self)@.config,
                reader: old(self)@.reader,
                state: lint_cue(old(self)@.config, old(self)@.state, raw@, format),
            }),
    {
        match Subtitle::from_raw(raw, format) {
            Err(BlockError::Malformed { line, reason }) => {
                push_finding(&mut self.findings, Finding::new(line, Severity::Error, reason));
            },
            Err(BlockError::Io(_)) => {
                // `from_raw` only reports malformed blocks
                proof {
                    assert(false);
                }
            },
            Ok(subtitle) => {
                run_checks(
                    &self.config,
                    self.previous_end,
                    &self.previous_text,
                    &subtitle,
                    &mut self.findings,
                );
                self.previous_end = Some(subtitle.end);
                if subtitle.text.len() > 0 {
                    let first_line = subtitle.text[0].0;
                    let joined = joined_cue_text(&subtitle);
                    self.previous_text = Some((first_line, joined));
                }
            },
        }
    }

    /// Handles a block that the reader completed.
    fn lint_block(&mut self, raw: RawBlock)
        ensures
            final(self)@ == (LinterModel {
                config: old(self)@.config,
                reader: old(self)@.reader,
                state: lint_block(old(self)@.config, old(self)@.state, raw@),
            }),
    {
        match self.format {
            None => {
                if raw.is_webvtt_header() {
                    // the header is not a cue
                    self.format = Some(Format::Vtt);
                } else {
                    self.format = Some(Format::Srt);
                    self.lint_cue(&raw, Format::Srt);
                }
            },
            Some(format) => {
                if format == Format::Vtt && raw.is_skippable_vtt_block() {
                    return;
                }
                self.lint_cue(&raw, format);
            },
        }
    }

    /// Takes the next item of the line stream: a line, a read error, or
    /// `None` at the end of the input. Once the input is over, further
    /// items are ignored. A read error ends the run with an error finding.
    pub fn feed(&mut self, item: Option<Result<String, std::io::Error>>)
        requires
            item matches Some(Ok(_)) ==> old(self)@.reader.line_no < usize::MAX,
        ensures
            final(self)@.config == old(self)@.config,
            old(self)@.state.done ==> final(self)@ == old(self)@,
            !old(self)@.state.done ==> match item {
                Some(Ok(line)) => {
                    let (r, out) = reader_line(old(self)@.reader, line@);
                    &&& final(self)@.reader == r
                    &&& final(self)@.state == lint_output(old(self)@.config, old(self)@.state, out)
                },
                None => {
                    let (r, out) = reader_end(old(self)@.reader);
                    &&& final(self)@.reader == r
                    &&& final(self)@.state == finished(
                        lint_output(old(self)@.config, old(self)@.state, out),
                    )
                },
                Some(Err(_)) => {
                    &&& final(self)@.reader == (ReaderState {
                        block: Seq::empty(),
                        line_no: old(self)@.reader.line_no,
                    })
                    &&& exists|text: Seq<char>| final(self)@.state == read_failed(old(self)@.state, text)
                },
            },
    {
        if self.done {
            return;
        }
        let at_end = item.is_none();
        match self.reader.next_block(item) {
            Some(Ok(raw)) => {
                self.lint_block(raw);
            },
            Some(Err(BlockError::Io(e))) => {
                let ghost before = self.findings@;
                let mut m = String::new();
                push_str(&mut m, "read error: ");
                let text = io_error_text(&e);
                push_str(&mut m, text.as_str());
                push_finding(&mut self.findings, Finding::new(0, Severity::Error, m));
                self.done = true;
                assert(self@.state == read_failed(old(self)@.state, text@));
                return;
            },
            Some(Err(BlockError::Malformed { .. })) => {
                // the reader only reports read errors
                proof {
                    assert(false);
                }
            },
            None => {},
        }
        if at_end {
            self.done = true;
        }
    }
}

/// The reader and linter states after the given lines, from the start.
pub open spec fn linter_after_lines(config: Config, lines: Seq<Seq<char>>) -> (ReaderState, LintState)
    decreases lines.len(),
{
    if lines.len() == 0 {
        (ReaderState { block: Seq::empty(), line_no: 0 }, initial_lint_state())
    } else {
        let (r, st) = linter_after_lines(config, lines.drop_last());
        let (r2, out) = reader_line(r, lines.last());
        (r2, lint_output(config, st, out))
    }
}

/// The findings for a whole input given as its lines.
pub open spec fn lint_lines(config: Config, lines: Seq<Seq<char>>) -> Seq<FindingModel> {
    let (r, st) = linter_after_lines(config, lines);
    let (r2, out) = reader_end(r);
    lint_output(config, st, out).findings
}

/// Lints an input given as its lines (as `BufRead::lines` gives them).
pub fn lint(lines: &Vec<String>, config: &Config) -> (fs: Vec<Finding>)
    ensures
        findings_view(fs@) == lint_lines(*config, lines@.map_values(|s: String| s@)),
{
    let ghost ls = lines@.map_values(|s: String| s@);
    let mut linter = Linter::new(*config);
    let mut i: usize = 0;
    assert(ls.take(0) == Seq::<Seq<char>>::empty());
    while i < lines.len()
        invariant
            i <= lines@.len(),
            ls == lines@.map_values(|s: String| s@),
            linter@.config == *config,
            !linter@.state.done,
            linter@.reader.line_no == i,
            (linter@.reader, linter@.state) == linter_after_lines(*config, ls.take(i as int)),
        decreases lines.len() - i,
    {
        assert(ls.take(i + 1).drop_last() == ls.take(i as int));
        assert(ls.take(i + 1).last() == lines@[i as int]@);
        let line = lines[i].clone();
        linter.feed(Some(Ok(line)));
        i = i + 1;
    }
    assert(ls.take(i as int) == ls);
    linter.feed(None);
    linter.into_findings()
}

/// Whether any finding is an error (warnings alone don't fail a run).
pub fn has_errors(findings: &Vec<Finding>) -> (b: bool)
    ensures
        b == exists|i: int| 0 <= i < findings@.len() && findings@[i].severity == Severity::Error,
{
    let mut i: usize = 0;
    while i < findings.len()
        invariant
            i <= findings@.len(),
            forall|k: int| 0 <= k < i ==> findings@[k].severity != Severity::Error,
        decreases findings.len() - i,
    {
        if findings[i].severity == Severity::Error {
            return true;
        }
        i = i + 1;
    }
    false
}

/// The linter's state after checking the given blocks in order, from the start.
pub open spec fn lint_blocks(config: Config, blocks: Seq<Seq<(usize, Seq<char>)>>) -> LintState
    decreases blocks.len(),
{
    if blocks.len() == 0 {
        initial_lint_state()
    } else {
        lint_block(config, lint_blocks(config, blocks.drop_last()), blocks.last())
    }
}

/// After any prefix of the input, the linter's reader is the reader after
/// that prefix, and its state is that of the blocks handed out so far.
proof fn lemma_linter_after_lines(config: Config, lines: Seq<Seq<char>>)
    ensures
        linter_after_lines(config, lines).0 == reader_after(lines).0,
        linter_after_lines(config, lines).1 == lint_blocks(config, reader_after(lines).1),
    decreases lines.len(),
{
    if lines.len() > 0 {
        lemma_linter_after_lines(config, lines.drop_last());
        let bs = reader_after(lines.drop_last()).1;
        let out = reader_line(reader_after(lines.drop_last()).0, lines.last()).1;
        if let Some(b) = out {
            assert(bs.push(b).drop_last() == bs);
        }
    }
}

/// The linter checks an input block by block: its findings are those of
/// checking, in order, exactly the blocks the reader hands out for the
/// input (the maximal runs of non-blank lines).
pub proof fn lemma_lint_is_per_block(config: Config, lines: Seq<Seq<char>>)
    ensures
        lint_lines(config, lines) == lint_blocks(config, blocks_of(lines)).findings,
{
    lemma_linter_after_lines(config, lines);
    let (st, bs) = reader_after(lines);
    if let Some(b) = reader_end(st).1 {
        assert(bs.push(b).drop_last() == bs);
    }
}

/// Non-blank lines after a prefix that ends in a blank line (or is empty)
/// only build up the reader's next block: nothing is checked for them.
proof fn lemma_unfinished_block_checks_nothing(config: Config, t: Seq<Seq<char>>, u: Seq<Seq<char>>)
    requires
        t.len() == 0 || is_blank(t.last()),
        forall|i: int| 0 <= i < u.len() ==> !is_blank(#[trigger] u[i]),
    ensures
        linter_after_lines(config, t + u).1 == linter_after_lines(config, t).1,
        linter_after_lines(config, t).0.block.len() == 0,
    decreases u.len(),
{
    if t.len() > 0 {
        assert(t.drop_last().push(t.last()) == t);
    }
    if u.len() > 0 {
        assert forall|i: int| 0 <= i < u.drop_last().len() implies !is_blank(
            #[trigger] u.drop_last()[i],
        ) by {
            assert(u.drop_last()[i] == u[i]);
        }
        lemma_unfinished_block_checks_nothing(config, t, u.drop_last());
        assert((t + u).drop_last() == t + u.drop_last());
        assert((t + u).last() == u[u.len() - 1]);
    } else {
        assert(t + u == t);
    }
}

/// A read error keeps what was completed and drops the rest: when the input
/// reads as the lines `t` (empty or ending in a blank line), then the
/// non-blank lines `u`, then fails, the findings are those of linting `t`
/// alone followed by one error on line 0 naming the failure; the unfinished
/// block of `u` is never checked, and the linter is done, so later items
/// add nothing.
pub proof fn lemma_read_error_keeps_completed_blocks(
    config: Config,
    t: Seq<Seq<char>>,
    u: Seq<Seq<char>>,
    text: Seq<char>,
)
    requires
        t.len() == 0 || is_blank(t.last()),
        forall|i: int| 0 <= i < u.len() ==> !is_blank(#[trigger] u[i]),
    ensures
        read_failed(linter_after_lines(config, t + u).1, text).findings == lint_lines(
            config,
            t,
        ).push(finding(0, Severity::Error, "read error: "@ + text)),
        read_failed(linter_after_lines(config, t + u).1, text).done,
{
    lemma_unfinished_block_checks_nothing(config, t, u);
}

// ---------------------------------------------------------------- what the rules report

/// The ordering rule reports exactly the cues that do not end after they
/// start, comparing whole millisecond counts: one error on the timing line
/// when the end is at or before the start, nothing otherwise.
pub proof fn lemma_ordering_reports_exactly_backwards_cues(sub: SubtitleModel)
    ensures
        ordering_findings(sub).len() <= 1,
        (ordering_findings(sub).len() == 1) == (sub.end <= sub.start),
        ordering_findings(sub).len() == 1 ==> ordering_findings(sub)[0].line == sub.timing_line
            && ordering_findings(sub)[0].severity == Severity::Error,
{
}

/// The overlap rule reports exactly the cues that start before the previous
/// cue ends, comparing whole millisecond counts: one warning on the timing
/// line when the start is earlier than the previous end, nothing otherwise,
/// and nothing for the first cue.
pub proof fn lemma_overlap_reports_exactly_early_starts(sub: SubtitleModel, previous_end: Option<nat>)
    ensures
        overlap_findings(sub, previous_end).len() <= 1,
        (overlap_findings(sub, previous_end).len() == 1) == (previous_end matches Some(pe)
            && sub.start < pe),
        overlap_findings(sub, previous_end).len() == 1 ==> overlap_findings(sub, previous_end)[0].line
            == sub.timing_line && overlap_findings(sub, previous_end)[0].severity
            == Severity::Warning,
{
}

/// Whether a text line is longer than `max` characters.
pub open spec fn is_long_line(p: (usize, Seq<char>), max: nat) -> bool {
    p.1.len() > max
}

/// The warning for one over-long text line: on its line, naming its length
/// and the limit.
pub open spec fn long_line_warning(p: (usize, Seq<char>), max: nat) -> FindingModel {
    FindingModel {
        line: p.0,
        severity: Severity::Warning,
        message: "line is "@ + decimal(p.1.len()) + " characters, longer than the recommended "@
            + decimal(max),
    }
}

/// The long-line warnings of a cue's text are one per over-long line, for
/// every over-long line, in the order of the lines.
pub proof fn lemma_long_lines_all_reported(text: Seq<(usize, Seq<char>)>, max: nat)
    ensures
        long_line_findings(text, max) == text.filter(|p: (usize, Seq<char>)| is_long_line(p, max)).map_values(
            |p: (usize, Seq<char>)| long_line_warning(p, max),
        ),
        forall|i: int|
            0 <= i < text.len() && is_long_line(#[trigger] text[i], max) ==> long_line_findings(
                text,
                max,
            ).contains(long_line_warning(text[i], max)),
        forall|j: int|
            0 <= j < long_line_findings(text, max).len() ==> exists|i: int|
                0 <= i < text.len() && is_long_line(text[i], max) && #[trigger] long_line_findings(
                    text,
                    max,
                )[j] == long_line_warning(text[i], max),
    decreases text.len(),
{
    let pred = |p: (usize, Seq<char>)| is_long_line(p, max);
    let warn = |p: (usize, Seq<char>)| long_line_warning(p, max);
    reveal_with_fuel(Seq::<_>::filter, 1);
    if text.len() > 0 {
        let prev = text.drop_last();
        lemma_long_lines_all_reported(prev, max);
        let x = text.last();
        let fs = long_line_findings(text, max);
        let pfs = long_line_findings(prev, max);
        if is_long_line(x, max) {
            assert(fs == pfs.push(warn(x)));
            assert(prev.filter(pred).push(x).map_values(warn) == prev.filter(pred).map_values(
                warn,
            ).push(warn(x)));
        } else {
            assert(fs == pfs);
        }
        assert forall|i: int|
            0 <= i < text.len() && is_long_line(#[trigger] text[i], max) implies fs.contains(
            warn(text[i]),
        ) by {
            if i < prev.len() {
                assert(text[i] == prev[i]);
                assert(pfs.contains(warn(prev[i])));
                let j = choose|j: int| 0 <= j < pfs.len() && pfs[j] == warn(prev[i]);
                assert(fs[j] == pfs[j]);
            } else {
                assert(text[i] == x);
                assert(fs[fs.len() - 1] == warn(x));
            }
        }
        assert forall|j: int| 0 <= j < fs.len() implies exists|i: int|
            0 <= i < text.len() && is_long_line(text[i], max) && #[trigger] fs[j] == warn(
                text[i],
            ) by {
            if j < pfs.len() {
                assert(fs[j] == pfs[j]);
                let i = choose|i: int|
                    0 <= i < prev.len() && is_long_line(prev[i], max) && #[trigger] pfs[j]
                        == warn(prev[i]);
                assert(text[i] == prev[i]);
            } else {
                assert(text[text.len() - 1] == x);
            }
        }
    } else {
        assert(text.filter(pred) == text);
        assert(text.map_values(warn) == Seq::<FindingModel>::empty());
    }
}

/// What the text rule reports: for a cue without text, one warning on its
/// timing line; for a cue with text, one warning per over-long line, for
/// every over-long line, in order.
pub proof fn lemma_text_rule(sub: SubtitleModel, max: nat)
    ensures
        sub.text.len() == 0 ==> text_findings(sub, max).len() == 1 && text_findings(sub, max)[0].line
            == sub.timing_line && text_findings(sub, max)[0].severity == Severity::Warning,
        sub.text.len() > 0 ==> text_findings(sub, max) == sub.text.filter(
            |p: (usize, Seq<char>)| is_long_line(p, max),
        ).map_values(|p: (usize, Seq<char>)| long_line_warning(p, max)),
        forall|i: int|
            0 <= i < sub.text.len() && is_long_line(#[trigger] sub.text[i], max) ==> text_findings(
                sub,
                max,
            ).contains(long_line_warning(sub.text[i], max)),
{
    lemma_long_lines_all_reported(sub.text, max);
}

/// Where text line `i` starts in a cue's joined text: after every earlier
/// line and one separating space for each of them.
pub open spec fn line_offset(text: Seq<(usize, Seq<char>)>, i: int) -> int
    decreases i,
{
    if i <= 0 {
        0
    } else {
        line_offset(text, i - 1) + text[i - 1].1.len() + 1
    }
}

/// Offsets of a line depend only on the lines before it.
proof fn lemma_line_offset_prefix(text: Seq<(usize, Seq<char>)>, i: int)
    requires
        0 <= i < text.len(),
    ensures
        line_offset(text.drop_last(), i) == line_offset(text, i),
        line_offset(text, i) >= 0,
    decreases i,
{
    if i > 0 {
        lemma_line_offset_prefix(text, i - 1);
        assert(text.drop_last()[i - 1] == text[i - 1]);
    }
}

/// The length of a cue's joined text.
proof fn lemma_joined_len(text: Seq<(usize, Seq<char>)>)
    ensures
        text.len() == 0 ==> joined_text(text).len() == 0,
        text.len() > 0 ==> joined_text(text).len() == line_offset(text, text.len() - 1)
            + text.last().1.len(),
    decreases text.len(),
{
    let k = text.len() as int;
    if k > 1 {
        let prev = text.drop_last();
        lemma_joined_len(prev);
        lemma_line_offset_prefix(text, k - 2);
        assert(prev.last() == text[k - 2]);
    }
}

/// Text line `i` stands at its offset in the joined text.
proof fn lemma_joined_line(text: Seq<(usize, Seq<char>)>, i: int)
    requires
        0 <= i < text.len(),
    ensures
        line_offset(text, i) >= 0,
        line_offset(text, i) + text[i].1.len() <= joined_text(text).len(),
        joined_text(text).subrange(line_offset(text, i), line_offset(text, i) + text[i].1.len())
            == text[i].1,
    decreases text.len(),
{
    let k = text.len() as int;
    lemma_joined_len(text);
    lemma_line_offset_prefix(text, i);
    if k == 1 {
        assert(joined_text(text).subrange(0, text[0].1.len() as int) == text[0].1);
    } else {
        let prev = text.drop_last();
        let jp = joined_text(prev);
        let j = joined_text(text);
        assert(j == jp + seq![' '] + text.last().1);
        lemma_joined_len(prev);
        lemma_line_offset_prefix(text, k - 1);
        lemma_line_offset_prefix(text, k - 2);
        assert(prev.last() == text[k - 2]);
        if i < k - 1 {
            lemma_joined_line(prev, i);
            assert(prev[i] == text[i]);
            assert(j.subrange(line_offset(text, i), line_offset(text, i) + text[i].1.len())
                == jp.subrange(line_offset(text, i), line_offset(text, i) + text[i].1.len()));
        } else {
            assert(j.subrange(line_offset(text, i), line_offset(text, i) + text[i].1.len())
                == text.last().1);
        }
    }
}

/// A space stands just before every text line but the first.
proof fn lemma_joined_separator(text: Seq<(usize, Seq<char>)>, i: int)
    requires
        0 < i < text.len(),
    ensures
        line_offset(text, i) >= 1,
        line_offset(text, i) - 1 < joined_text(text).len(),
        joined_text(text)[line_offset(text, i) - 1] == ' ',
    decreases text.len(),
{
    let k = text.len() as int;
    let prev = text.drop_last();
    let jp = joined_text(prev);
    let j = joined_text(text);
    assert(j == jp + seq![' '] + text.last().1);
    lemma_joined_len(prev);
    lemma_joined_len(text);
    lemma_line_offset_prefix(text, i);
    lemma_line_offset_prefix(text, i - 1);
    lemma_line_offset_prefix(text, k - 1);
    lemma_line_offset_prefix(text, k - 2);
    assert(prev.last() == text[k - 2]);
    if i < k - 1 {
        lemma_joined_separator(prev, i);
        assert(j[line_offset(text, i) - 1] == jp[line_offset(text, i) - 1]);
    }
}

/// The joined text of a cue holds all its text lines, in order, separated by
/// single spaces: line `i` stands at `line_offset(text, i)`, a space stands
/// just before every line but the first, and nothing else is in it (its
/// length is the sum of the line lengths plus one per separator).
pub proof fn lemma_joined_text_layout(text: Seq<(usize, Seq<char>)>)
    ensures
        text.len() == 0 ==> joined_text(text).len() == 0,
        text.len() > 0 ==> joined_text(text).len() == line_offset(text, text.len() - 1)
            + text.last().1.len(),
        forall|i: int|
            0 <= i < text.len() ==> line_offset(text, i) >= 0 && line_offset(text, i)
                + (#[trigger] text[i]).1.len() <= joined_text(text).len() && joined_text(
                text,
            ).subrange(line_offset(text, i), line_offset(text, i) + text[i].1.len()) == text[i].1,
        forall|i: int|
            0 < i < text.len() ==> joined_text(text)[#[trigger] line_offset(text, i) - 1] == ' ',
{
    lemma_joined_len(text);
    assert forall|i: int| 0 <= i < text.len() implies line_offset(text, i) >= 0 && line_offset(
        text,
        i,
    ) + (#[trigger] text[i]).1.len() <= joined_text(text).len() && joined_text(text).subrange(
        line_offset(text, i),
        line_offset(text, i) + text[i].1.len(),
    ) == text[i].1 by {
        lemma_joined_line(text, i);
    }
    assert forall|i: int| 0 < i < text.len() implies joined_text(text)[#[trigger] line_offset(
        text,
        i,
    ) - 1] == ' ' by {
        lemma_joined_separator(text, i);
    }
}

} // verus!
