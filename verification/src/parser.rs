//! Splitting a subtitle stream into blocks, and reading a block as a cue.
use vstd::prelude::*;

use crate::config::quoted;
use crate::text::{
    chars_of, find_seq, find_seq_in, first_ws_index, first_ws_index_in, parse_unsigned, parse_unsigned_in, push_quoted, push_str,
    range_eq_str, range_starts_with, skip_leading, skip_leading_index, split_once_seq, starts_with,
    string_of, trim, trim_range, trim_start, trim_start_index,
};
use crate::timestamp::{srt_value, vtt_value, Timestamp};

verus! {

/// Which subtitle format a stream is being read as. Detected once, from the
/// first block of the file, and then applied to every cue after it.
#[derive(Debug, Clone, Copy, PartialEq, Eq, Structural)]
pub enum Format {
    Srt,
    Vtt,
}

/// A numbered line of a subtitle file, as a value.
pub open spec fn numbered_line(p: (usize, String)) -> (usize, Seq<char>) {
    (p.0, p.1@)
}

/// Numbered lines as values.
pub open spec fn numbered_lines(lines: Seq<(usize, String)>) -> Seq<(usize, Seq<char>)> {
    lines.map_values(|p: (usize, String)| numbered_line(p))
}

/// A single cue's worth of raw lines, still tagged with their original
/// line numbers so later stages can report accurate positions.
pub struct RawBlock {
    pub lines: Vec<(usize, String)>,
}

impl View for RawBlock {
    type V = Seq<(usize, Seq<char>)>;

    open spec fn view(&self) -> Seq<(usize, Seq<char>)> {
        numbered_lines(self.lines@)
    }
}

/// A first line that opens a WebVTT file: after any byte order marks, the
/// word `WEBVTT` alone or followed by a space or tab and free text.
pub open spec fn is_webvtt_header_line(line: Seq<char>) -> bool {
    let t = skip_leading(line, '\u{feff}');
    t == "WEBVTT"@ || starts_with(t, "WEBVTT "@) || starts_with(t, "WEBVTT\t"@)
}

/// A first line that opens a WebVTT `NOTE`, `STYLE` or `REGION` block.
pub open spec fn is_skippable_vtt_line(line: Seq<char>) -> bool {
    let t = trim_start(line);
    starts_with(t, "NOTE"@) || starts_with(t, "STYLE"@) || starts_with(t, "REGION"@)
}

/// The block is a WebVTT file header.
pub open spec fn is_webvtt_header_block(block: Seq<(usize, Seq<char>)>) -> bool {
    block.len() > 0 && is_webvtt_header_line(block[0].1)
}

/// The block is a WebVTT `NOTE`, `STYLE` or `REGION` block.
pub open spec fn is_skippable_vtt_block(block: Seq<(usize, Seq<char>)>) -> bool {
    block.len() > 0 && is_skippable_vtt_line(block[0].1)
}

impl RawBlock {
    /// True for the file's leading `WEBVTT` header block, which carries no
    /// timing of its own and is optionally followed by free-text metadata
    /// on the same line.
    pub fn is_webvtt_header(&self) -> (b: bool)
        ensures
            b == is_webvtt_header_block(self@),
    {
        if self.lines.len() == 0 {
            return false;
        }
        let v = chars_of(self.lines[0].1.as_str());
        let i = skip_leading_index(&v, 0, v.len(), '\u{feff}');
        assert(v@.subrange(0, v@.len() as int) == v@);
        range_eq_str(&v, i, v.len(), "WEBVTT") || range_starts_with(&v, i, v.len(), "WEBVTT ")
            || range_starts_with(&v, i, v.len(), "WEBVTT\t")
    }

    /// True for WebVTT `NOTE`, `STYLE`, and `REGION` blocks, none of which
    /// are cues and all of which should be skipped rather than parsed.
    pub fn is_skippable_vtt_block(&self) -> (b: bool)
        ensures
            b == is_skippable_vtt_block(self@),
    {
        if self.lines.len() == 0 {
            return false;
        }
        let v = chars_of(self.lines[0].1.as_str());
        let i = trim_start_index(&v, 0, v.len());
        assert(v@.subrange(0, v@.len() as int) == v@);
        range_starts_with(&v, i, v.len(), "NOTE") || range_starts_with(&v, i, v.len(), "STYLE")
            || range_starts_with(&v, i, v.len(), "REGION")
    }
}

pub enum BlockError {
    Io(std::io::Error),
    Malformed { line: usize, reason: String },
}

/// What a `SubtitleReader` holds: the lines of the block being assembled and
/// how many lines it has read.
pub struct ReaderState {
    pub block: Seq<(usize, Seq<char>)>,
    pub line_no: nat,
}

/// A line with nothing but whitespace on it; such lines separate blocks.
pub open spec fn is_blank(line: Seq<char>) -> bool {
    trim(line).len() == 0
}

/// The reader's state and the block it hands out after reading `line`:
/// a blank line ends a block that has lines (and is skipped otherwise); any
/// other line joins the block under its 1-based line number.
pub open spec fn reader_line(state: ReaderState, line: Seq<char>) -> (ReaderState, Option<
    Seq<(usize, Seq<char>)>,
>) {
    let n = state.line_no + 1;
    if is_blank(line) {
        if state.block.len() == 0 {
            (ReaderState { block: state.block, line_no: n }, None)
        } else {
            (ReaderState { block: Seq::empty(), line_no: n }, Some(state.block))
        }
    } else {
        (ReaderState { block: state.block.push((n as usize, line)), line_no: n }, None)
    }
}

/// The reader's state and the block it hands out at the end of the input:
/// the block being assembled, if it has lines.
pub open spec fn reader_end(state: ReaderState) -> (ReaderState, Option<Seq<(usize, Seq<char>)>>) {
    if state.block.len() == 0 {
        (state, None)
    } else {
        (ReaderState { block: Seq::empty(), line_no: state.line_no }, Some(state.block))
    }
}

/// Assembles one subtitle block at a time from a stream of lines.
///
/// The reader only ever holds the lines of the block currently being
/// assembled — once a block is handed to the caller and dropped, that
/// memory is freed. A multi-hour, multi-thousand-cue file costs the same
/// few hundred bytes of state as a five-line one. The caller reads the
/// lines and hands each to `next_block`.
pub struct SubtitleReader {
    block_lines: Vec<(usize, String)>,
    line_no: usize,
}

impl View for SubtitleReader {
    type V = ReaderState;

    closed spec fn view(&self) -> ReaderState {
        ReaderState { block: numbered_lines(self.block_lines@), line_no: self.line_no as nat }
    }
}

impl SubtitleReader {
    /// A reader that has read nothing yet.
    pub fn new() -> (r: Self)
        ensures
            r@ == (ReaderState { block: Seq::empty(), line_no: 0 }),
    {
        let r = SubtitleReader { block_lines: Vec::new(), line_no: 0 };
        assert(r@.block == Seq::<(usize, Seq<char>)>::empty());
        r
    }

    /// How many lines the reader has been given.
    pub fn lines_read(&self) -> (n: usize)
        ensures
            n as nat == self@.line_no,
    {
        self.line_no
    }

    /// Takes the next item of the line stream — a line, a read error, or
    /// `None` at the end of the input — and returns the block that it
    /// completes, if any. Blank lines between blocks are consumed here; a
    /// read error is handed back and the half-read block is dropped.
    pub fn next_block(&mut self, item: Option<Result<String, std::io::Error>>) -> (r: Option<
        Result<RawBlock, BlockError>,
    >)
        requires
            item matches Some(Ok(_)) ==> old(self)@.line_no < usize::MAX,
        ensures
            match item {
                Some(Ok(line)) => {
                    let (st, out) = reader_line(old(self)@, line@);
                    &&& final(self)@ == st
                    &&& match out {
                        Some(b) => r matches Some(Ok(rb)) && rb@ == b,
                        None => r is None,
                    }
                },
                None => {
                    let (st, out) = reader_end(old(self)@);
                    &&& final(self)@ == st
                    &&& match out {
                        Some(b) => r matches Some(Ok(rb)) && rb@ == b,
                        None => r is None,
                    }
                },
                Some(Err(e)) => {
                    &&& r matches Some(Err(BlockError::Io(re))) && re == e
                    &&& final(self)@ == (ReaderState {
                        block: Seq::empty(),
                        line_no: old(self)@.line_no,
                    })
                },
            },
    {
        match item {
            None => {
                if self.block_lines.len() == 0 {
                    None
                } else {
                    let mut block: Vec<(usize, String)> = Vec::new();
                    std::mem::swap(&mut block, &mut self.block_lines);
                    assert(self@.block == Seq::<(usize, Seq<char>)>::empty());
                    Some(Ok(RawBlock { lines: block }))
                }
            },
            Some(Err(e)) => {
                self.block_lines = Vec::new();
                assert(self@.block == Seq::<(usize, Seq<char>)>::empty());
                Some(Err(BlockError::Io(e)))
            },
            Some(Ok(line)) => {
                self.line_no = self.line_no + 1;
                let v = chars_of(line.as_str());
                let (a, b) = trim_range(&v, 0, v.len());
                assert(v@.subrange(0, v@.len() as int) == v@);
                if a == b {
                    if self.block_lines.len() == 0 {
                        None
                    } else {
                        let mut block: Vec<(usize, String)> = Vec::new();
                        std::mem::swap(&mut block, &mut self.block_lines);
                        assert(self@.block == Seq::<(usize, Seq<char>)>::empty());
                        Some(Ok(RawBlock { lines: block }))
                    }
                } else {
                    let ghost old_lines = self.block_lines@;
                    self.block_lines.push((self.line_no, line));
                    assert(numbered_lines(self.block_lines@) == numbered_lines(old_lines).push(
                        (self.line_no, v@),
                    ));
                    None
                }
            },
        }
    }
}

/// A cue as values: where its timing line is, its start and end in
/// milliseconds, and its numbered text lines.
pub struct SubtitleModel {
    pub timing_line: usize,
    pub start: nat,
    pub end: nat,
    pub text: Seq<(usize, Seq<char>)>,
}

pub struct Subtitle {
    pub timing_line: usize,
    pub start: Timestamp,
    pub end: Timestamp,
    pub text: Vec<(usize, String)>,
}

impl View for Subtitle {
    type V = SubtitleModel;

    open spec fn view(&self) -> SubtitleModel {
        SubtitleModel {
            timing_line: self.timing_line,
            start: self.start@,
            end: self.end@,
            text: numbered_lines(self.text@),
        }
    }
}

/// A timestamp read in the given format.
pub open spec fn timestamp_in(raw: Seq<char>, format: Format) -> Option<nat> {
    match format {
        Format::Srt => srt_value(raw),
        Format::Vtt => vtt_value(raw),
    }
}

/// What follows `-->` on a WebVTT timing line, up to the cue settings: the
/// first word after the leading whitespace, or all of it when there is no
/// word.
pub open spec fn vtt_end_field(rest: Seq<char>) -> Seq<char> {
    let t = trim_start(rest);
    if t.len() == 0 {
        rest
    } else {
        t.take(first_ws_index(t))
    }
}

/// Which line of a block holds the timing, or why there is none: SRT blocks
/// start with a numeric cue index (a `u32` after trimming) and time on their
/// second line; a WebVTT block times on its first line if that holds `-->`,
/// else on its second (the first being the cue identifier).
pub open spec fn timing_index(lines: Seq<(usize, Seq<char>)>, format: Format) -> Result<
    int,
    (usize, Seq<char>),
> {
    let (first_line, first_text) = lines[0];
    match format {
        Format::Srt => if parse_unsigned(trim(first_text), u32::MAX as nat) is None {
            Err((first_line, "expected a numeric cue index, found "@ + quoted(trim(first_text))))
        } else {
            Ok(1)
        },
        Format::Vtt => if find_seq(first_text, "-->"@) is Some {
            Ok(0)
        } else {
            Ok(1)
        },
    }
}

/// The start and end (in milliseconds) that a timing line `tt`, on line
/// `tl`, gives, or why it gives none: it needs `start --> end` (WebVTT cue
/// settings after the end are ignored) with both timestamps readable.
pub open spec fn timing_of(tl: usize, tt: Seq<char>, format: Format) -> Result<
    (nat, nat),
    (usize, Seq<char>),
> {
    match split_once_seq(tt, "-->"@) {
        None => Err((tl, "timing line has no \"-->\": "@ + quoted(tt))),
        Some((start_raw, rest)) => {
            let end_raw = match format {
                Format::Srt => rest,
                Format::Vtt => vtt_end_field(rest),
            };
            match timestamp_in(start_raw, format) {
                None => Err((tl, "could not parse start time "@ + quoted(trim(start_raw)))),
                Some(start) => match timestamp_in(end_raw, format) {
                    None => Err((tl, "could not parse end time "@ + quoted(trim(end_raw)))),
                    Some(end) => Ok((start, end)),
                },
            }
        },
    }
}

/// A raw block read as a cue in the given format, or the line and reason
/// for which it is malformed: the block needs a timing line (see
/// `timing_index` and `timing_of`); the lines after it are the cue's text.
pub open spec fn cue_of(lines: Seq<(usize, Seq<char>)>, format: Format) -> Result<
    SubtitleModel,
    (usize, Seq<char>),
> {
    if lines.len() == 0 {
        Err((0, "empty block"@))
    } else {
        match timing_index(lines, format) {
            Err(e) => Err(e),
            Ok(idx) => if idx >= lines.len() {
                Err((lines[0].0, "block is missing a timing line"@))
            } else {
                let (tl, tt) = lines[idx];
                match timing_of(tl, tt, format) {
                    Err(e) => Err(e),
                    Ok((start, end)) => Ok(
                        SubtitleModel { timing_line: tl, start, end, text: lines.skip(idx + 1) },
                    ),
                }
            },
        }
    }
}

/// A `Malformed` error on `line` with `reason`.
fn malformed(line: usize, reason: String) -> (e: BlockError)
    ensures
        e matches BlockError::Malformed { line: l, reason: r } && l == line && r == reason,
{
    BlockError::Malformed { line, reason }
}

/// Reads a timestamp from `v[lo..hi]` in the given format.
fn parse_timestamp_in(v: &[char], lo: usize, hi: usize, format: Format) -> (r: Option<Timestamp>)
    requires
        lo <= hi <= v@.len(),
    ensures
        match timestamp_in(v@.subrange(lo as int, hi as int), format) {
            Some(n) => r matches Some(t) && t@ == n,
            None => r is None,
        },
{
    let s = string_of(v, lo, hi);
    match format {
        Format::Srt => Timestamp::parse(s.as_str()),
        Format::Vtt => Timestamp::parse_vtt(s.as_str()),
    }
}

/// The line of the block that holds the timing (see `timing_index`).
fn find_timing_index(first_line: usize, first: &[char], format: Format) -> (r: Result<
    usize,
    BlockError,
>)
    ensures
        match timing_index(seq![(first_line, first@)], format) {
            Ok(i) => r matches Ok(ri) && ri == i,
            Err((l, m)) => r matches Err(BlockError::Malformed { line, reason }) && line == l
                && reason@ == m,
        },
{
    assert(first@.subrange(0, first@.len() as int) == first@);
    match format {
        Format::Srt => {
            let (a, b) = trim_range(first, 0, first.len());
            if parse_unsigned_in(first, a, b, 0xffff_ffff).is_none() {
                let mut reason = String::new();
                push_str(&mut reason, "expected a numeric cue index, found ");
                push_quoted(&mut reason, first, a, b);
                return Err(malformed(first_line, reason));
            }
            Ok(1)
        },
        Format::Vtt => {
            let arrow = chars_of("-->");
            proof {
                reveal_strlit("-->");
            }
            if find_seq_in(first, 0, first.len(), &arrow).is_some() {
                Ok(0)
            } else {
                Ok(1)
            }
        },
    }
}

/// Copies the numbered lines `lines[from..]`.
fn copy_lines_from(lines: &Vec<(usize, String)>, from: usize) -> (r: Vec<(usize, String)>)
    requires
        from <= lines@.len(),
    ensures
        numbered_lines(r@) == numbered_lines(lines@).skip(from as int),
{
    let mut r: Vec<(usize, String)> = Vec::new();
    let mut i: usize = from;
    while i < lines.len()
        invariant
            from <= i <= lines@.len(),
            numbered_lines(r@) == numbered_lines(lines@).subrange(from as int, i as int),
        decreases lines.len() - i,
    {
        let ghost before = r@;
        let n = lines[i].0;
        let t = lines[i].1.clone();
        r.push((n, t));
        assert(numbered_lines(r@) == numbered_lines(before).push((n, t@)));
        assert(numbered_lines(lines@).subrange(from as int, i + 1) == numbered_lines(
            lines@,
        ).subrange(from as int, i as int).push(numbered_lines(lines@)[i as int]));
        i = i + 1;
    }
    r
}

/// Bounds in `tv` of the end timestamp's text, given that `tv[rest_lo..]`
/// follows the `-->`.
fn end_field(tv: &[char], rest_lo: usize, format: Format) -> (r: (usize, usize))
    requires
        rest_lo <= tv@.len(),
    ensures
        rest_lo <= r.0 <= r.1 <= tv@.len(),
        tv@.subrange(r.0 as int, r.1 as int) == (match format {
            Format::Srt => tv@.subrange(rest_lo as int, tv@.len() as int),
            Format::Vtt => vtt_end_field(tv@.subrange(rest_lo as int, tv@.len() as int)),
        }),
{
    match format {
        Format::Srt => (rest_lo, tv.len()),
        Format::Vtt => {
            let t = trim_start_index(tv, rest_lo, tv.len());
            if t == tv.len() {
                (rest_lo, tv.len())
            } else {
                let w = first_ws_index_in(tv, t, tv.len());
                proof {
                    let ts = tv@.subrange(t as int, tv@.len() as int);
                    assert(ts.take(first_ws_index(ts)) == tv@.subrange(t as int, w as int));
                }
                (t, w)
            }
        },
    }
}

/// Reads the timing line `tv` (line `tl`) as `start --> end`.
#[verifier::rlimit(50)]
fn parse_timing(tl: usize, tv: &[char], format: Format) -> (r: Result<(Timestamp, Timestamp), BlockError>)
    ensures
        match timing_of(tl, tv@, format) {
            Ok((s, e)) => r matches Ok((rs, re)) && rs@ == s && re@ == e,
            Err((l, m)) => r matches Err(BlockError::Malformed { line, reason }) && line == l
                && reason@ == m,
        },
{
    let arrow = chars_of("-->");
    proof {
        reveal_strlit("-->");
    }
    assert(tv@.subrange(0, tv@.len() as int) == tv@);
    let k = match find_seq_in(tv, 0, tv.len(), &arrow) {
        Some(k) => k,
        None => {
            let mut reason = String::new();
            push_str(&mut reason, "timing line has no \"-->\": ");
            push_quoted(&mut reason, tv, 0, tv.len());
            return Err(malformed(tl, reason));
        },
    };
    assert(tv@.take(k as int) == tv@.subrange(0, k as int));
    assert(tv@.skip(k + 3) == tv@.subrange(k + 3, tv@.len() as int));
    let (end_lo, end_hi) = end_field(tv, k + 3, format);
    let start = match parse_timestamp_in(tv, 0, k, format) {
        Some(t) => t,
        None => {
            let (a, b) = trim_range(tv, 0, k);
            let mut reason = String::new();
            push_str(&mut reason, "could not parse start time ");
            push_quoted(&mut reason, tv, a, b);
            return Err(malformed(tl, reason));
        },
    };
    let end = match parse_timestamp_in(tv, end_lo, end_hi, format) {
        Some(t) => t,
        None => {
            let (a, b) = trim_range(tv, end_lo, end_hi);
            let mut reason = String::new();
            push_str(&mut reason, "could not parse end time ");
            push_quoted(&mut reason, tv, a, b);
            return Err(malformed(tl, reason));
        },
    };
    Ok((start, end))
}

impl Subtitle {
    /// Parses a raw block according to `format`. SRT blocks are always
    /// `index, timing, text...`. VTT blocks are `[identifier], timing,
    /// text...` — the identifier is optional, so a VTT block's timing line
    /// is whichever of the first two lines contains "-->". VTT timing lines
    /// may also carry cue settings (e.g. "align:start line:0") after the
    /// end timestamp, which are accepted but ignored.
    pub fn from_raw(raw: &RawBlock, format: Format) -> (r: Result<Subtitle, BlockError>)
        ensures
            match cue_of(raw@, format) {
                Ok(m) => r matches Ok(sub) && sub@ == m,
                Err((l, m)) => r matches Err(BlockError::Malformed { line, reason }) && line == l
                    && reason@ == m,
            },
    {
        let lines = &raw.lines;
        if lines.len() == 0 {
            return Err(malformed(0, String::from_str("empty block")));
        }
        let first_line = lines[0].0;
        let first = chars_of(lines[0].1.as_str());
        assert(raw@[0] == (first_line, first@));
        let timing_idx = match find_timing_index(first_line, &first, format) {
            Ok(i) => i,
            Err(e) => {
                return Err(e);
            },
        };
        if timing_idx >= lines.len() {
            return Err(malformed(first_line, String::from_str("block is missing a timing line")));
        }
        let timing_line = lines[timing_idx].0;
        let tv = chars_of(lines[timing_idx].1.as_str());
        assert(raw@[timing_idx as int] == (timing_line, tv@));
        let (start, end) = match parse_timing(timing_line, &tv, format) {
            Ok(p) => p,
            Err(e) => {
                return Err(e);
            },
        };
        let text = copy_lines_from(lines, timing_idx + 1);
        Ok(Subtitle { timing_line, start, end, text })
    }
}

// ---------------------------------------------------------------- blocks of a whole input

/// The reader's state and the blocks handed out after reading `lines` from
/// the start.
pub open spec fn reader_after(lines: Seq<Seq<char>>) -> (ReaderState, Seq<Seq<(usize, Seq<char>)>>)
    decreases lines.len(),
{
    if lines.len() == 0 {
        (ReaderState { block: Seq::empty(), line_no: 0 }, seq![])
    } else {
        let (st, bs) = reader_after(lines.drop_last());
        let (st2, out) = reader_line(st, lines.last());
        (
            st2,
            match out {
                Some(b) => bs.push(b),
                None => bs,
            },
        )
    }
}

/// Every block the reader hands out for an input given by its lines, the
/// one completed by the end of the input included.
pub open spec fn blocks_of(lines: Seq<Seq<char>>) -> Seq<Seq<(usize, Seq<char>)>> {
    let (st, bs) = reader_after(lines);
    match reader_end(st).1 {
        Some(b) => bs.push(b),
        None => bs,
    }
}

/// The lines of `b` are lines of the input, under their 1-based numbers,
/// none blank, with consecutive numbers.
pub open spec fn numbered_from(lines: Seq<Seq<char>>, b: Seq<(usize, Seq<char>)>) -> bool {
    forall|k: int|
        0 <= k < b.len() ==> {
            &&& 1 <= (#[trigger] b[k]).0 <= lines.len()
            &&& b[k].1 == lines[b[k].0 - 1]
            &&& !is_blank(b[k].1)
            &&& (k + 1 < b.len() ==> b[k + 1].0 == b[k].0 + 1)
        }
}

/// `b` is a maximal run of non-blank lines of the input: non-empty, its
/// lines consecutive, with the input's start or a blank line just before it
/// and the input's end or a blank line just after it.
pub open spec fn is_run(lines: Seq<Seq<char>>, b: Seq<(usize, Seq<char>)>) -> bool {
    &&& b.len() > 0
    &&& numbered_from(lines, b)
    &&& (b[0].0 == 1 || is_blank(lines[b[0].0 - 2]))
    &&& (b.last().0 == lines.len() || is_blank(lines[b.last().0 as int]))
}

/// Line `k` (0-based) of the input is in block `b`.
pub open spec fn holds_line(b: Seq<(usize, Seq<char>)>, k: int) -> bool {
    exists|j: int| 0 <= j < b.len() && b[j].0 == k + 1
}

/// What holds of the reader after any prefix of the input.
pub open spec fn reader_invariant(lines: Seq<Seq<char>>, st: ReaderState, bs: Seq<Seq<(usize, Seq<char>)>>) -> bool {
    &&& st.line_no == lines.len()
    &&& forall|i: int| 0 <= i < bs.len() ==> is_run(lines, #[trigger] bs[i])
    &&& forall|i: int| 0 <= i < bs.len() ==> (#[trigger] bs[i]).last().0 < lines.len()
    &&& forall|i: int, j: int| 0 <= i < j < bs.len() ==> (#[trigger] bs[i]).last().0 < (
        #[trigger] bs[j])[0].0
    &&& numbered_from(lines, st.block)
    &&& st.block.len() > 0 ==> {
        &&& st.block.last().0 == lines.len()
        &&& (st.block[0].0 == 1 || is_blank(lines[st.block[0].0 - 2]))
        &&& forall|i: int| 0 <= i < bs.len() ==> (#[trigger] bs[i]).last().0 < st.block[0].0
    }
    &&& (st.block.len() == 0 && lines.len() > 0) ==> is_blank(lines.last())
    &&& forall|k: int|
        0 <= k < lines.len() && !is_blank(#[trigger] lines[k]) ==> holds_line(st.block, k) || exists|
            i: int,
        | 0 <= i < bs.len() && holds_line(#[trigger] bs[i], k)
}

/// Numbering against the input stays true when the input grows.
proof fn lemma_numbered_grows(lines: Seq<Seq<char>>, x: Seq<char>, b: Seq<(usize, Seq<char>)>)
    requires
        numbered_from(lines, b),
    ensures
        numbered_from(lines.push(x), b),
{
    assert forall|k: int| 0 <= k < b.len() implies lines.push(x)[(#[trigger] b[k]).0 - 1]
        == lines[b[k].0 - 1] by {}
}

/// The reader invariant holds after every prefix of the input.
proof fn lemma_reader_invariant(lines: Seq<Seq<char>>)
    requires
        lines.len() <= usize::MAX,
    ensures
        reader_invariant(lines, reader_after(lines).0, reader_after(lines).1),
    decreases lines.len(),
{
    if lines.len() > 0 {
        let prev = lines.drop_last();
        let x = lines.last();
        lemma_reader_invariant(prev);
        let (st, bs) = reader_after(prev);
        let n = lines.len();
        assert(prev.push(x) == lines);
        assert forall|k: int| 0 <= k < prev.len() implies lines[k] == prev[k] by {}
        lemma_numbered_grows(prev, x, st.block);
        assert forall|i: int| 0 <= i < bs.len() implies is_run(lines, #[trigger] bs[i]) by {
            lemma_numbered_grows(prev, x, bs[i]);
            assert(bs[i].last().0 < prev.len());
        }
        let (st2, bs2) = reader_after(lines);
        if is_blank(x) {
            if st.block.len() == 0 {
                assert(bs2 == bs);
            } else {
                let b = st.block;
                assert(bs2 == bs.push(b));
                assert(is_run(lines, b));
                assert forall|k: int|
                    0 <= k < lines.len() && !is_blank(#[trigger] lines[k]) implies holds_line(
                    st2.block,
                    k,
                ) || exists|i: int| 0 <= i < bs2.len() && holds_line(#[trigger] bs2[i], k) by {
                    assert(k < prev.len());
                    assert(lines[k] == prev[k]);
                    if holds_line(b, k) {
                        assert(bs2[bs.len() as int] == b);
                        assert(holds_line(bs2[bs.len() as int], k));
                    } else {
                        let i = choose|i: int| 0 <= i < bs.len() && holds_line(#[trigger] bs[i], k);
                        assert(bs2[i] == bs[i]);
                    }
                }
            }
        } else {
            let b2 = st.block.push((n as usize, x));
            assert(st2.block == b2);
            assert(bs2 == bs);
            assert(numbered_from(lines, b2)) by {
                assert forall|k: int| 0 <= k < b2.len() implies {
                    &&& 1 <= (#[trigger] b2[k]).0 <= lines.len()
                    &&& b2[k].1 == lines[b2[k].0 - 1]
                    &&& !is_blank(b2[k].1)
                    &&& (k + 1 < b2.len() ==> b2[k + 1].0 == b2[k].0 + 1)
                } by {
                    if k < st.block.len() {
                        assert(b2[k] == st.block[k]);
                        if k + 1 == st.block.len() {
                            assert(st.block.last().0 == prev.len());
                        }
                    }
                }
            }
            assert forall|k: int|
                0 <= k < lines.len() && !is_blank(#[trigger] lines[k]) implies holds_line(
                st2.block,
                k,
            ) || exists|i: int| 0 <= i < bs2.len() && holds_line(#[trigger] bs2[i], k) by {
                if k == n - 1 {
                    assert(b2[b2.len() - 1].0 == k + 1);
                } else {
                    assert(lines[k] == prev[k]);
                    if holds_line(st.block, k) {
                        let j = choose|j: int| 0 <= j < st.block.len() && st.block[j].0 == k + 1;
                        assert(b2[j] == st.block[j]);
                    }
                }
            }
        }
    }
}

/// What the reader gives back: for an input given by its lines, the blocks
/// handed out (the end of the input included) are exactly its maximal runs
/// of non-blank lines, in order, each line under its 1-based number.
pub proof fn lemma_blocks_are_runs(lines: Seq<Seq<char>>)
    requires
        lines.len() <= usize::MAX,
    ensures
        forall|i: int| 0 <= i < blocks_of(lines).len() ==> is_run(lines, #[trigger] blocks_of(lines)[i]),
        forall|i: int, j: int|
            0 <= i < j < blocks_of(lines).len() ==> (#[trigger] blocks_of(lines)[i]).last().0 < (
            #[trigger] blocks_of(lines)[j])[0].0,
        forall|k: int|
            0 <= k < lines.len() && !is_blank(#[trigger] lines[k]) ==> exists|i: int|
                0 <= i < blocks_of(lines).len() && holds_line(#[trigger] blocks_of(lines)[i], k),
{
    lemma_reader_invariant(lines);
    let (st, bs) = reader_after(lines);
    let blocks = blocks_of(lines);
    if st.block.len() > 0 {
        assert(blocks == bs.push(st.block));
        assert forall|k: int|
            0 <= k < lines.len() && !is_blank(#[trigger] lines[k]) implies exists|i: int|
                0 <= i < blocks.len() && holds_line(#[trigger] blocks[i], k) by {
            if holds_line(st.block, k) {
                assert(blocks[bs.len() as int] == st.block);
            } else {
                let i = choose|i: int| 0 <= i < bs.len() && holds_line(#[trigger] bs[i], k);
                assert(blocks[i] == bs[i]);
            }
        }
    } else {
        assert(blocks == bs);
        assert forall|k: int|
            0 <= k < lines.len() && !is_blank(#[trigger] lines[k]) implies exists|i: int|
                0 <= i < blocks.len() && holds_line(#[trigger] blocks[i], k) by {
            assert(!holds_line(st.block, k));
        }
    }
}

/// The reader holds no more than the cue it is assembling: after any prefix
/// of the input, its block is empty (when the prefix is empty or ends in a
/// blank line) or is the run of non-blank lines that ends the prefix.
pub proof fn lemma_reader_holds_current_run(lines: Seq<Seq<char>>)
    requires
        lines.len() <= usize::MAX,
    ensures
        ({
            let b = reader_after(lines).0.block;
            b.len() == 0 ==> (lines.len() == 0 || is_blank(lines.last()))
        }),
        ({
            let b = reader_after(lines).0.block;
            b.len() > 0 ==> {
                &&& numbered_from(lines, b)
                &&& b.last().0 == lines.len()
                &&& (b[0].0 == 1 || is_blank(lines[b[0].0 - 2]))
            }
        }),
{
    lemma_reader_invariant(lines);
}

/// The non-blank lines of an input, in order, each under its 1-based number.
pub open spec fn nonblank_lines(lines: Seq<Seq<char>>) -> Seq<(usize, Seq<char>)>
    decreases lines.len(),
{
    if lines.len() == 0 {
        seq![]
    } else if is_blank(lines.last()) {
        nonblank_lines(lines.drop_last())
    } else {
        nonblank_lines(lines.drop_last()).push((lines.len() as usize, lines.last()))
    }
}

/// The lines of the given blocks, one block after another.
pub open spec fn concat_blocks(blocks: Seq<Seq<(usize, Seq<char>)>>) -> Seq<(usize, Seq<char>)>
    decreases blocks.len(),
{
    if blocks.len() == 0 {
        seq![]
    } else {
        concat_blocks(blocks.drop_last()) + blocks.last()
    }
}

/// After any prefix, the blocks handed out and the block being assembled
/// hold the prefix's non-blank lines.
proof fn lemma_reader_after_concat(lines: Seq<Seq<char>>)
    ensures
        concat_blocks(reader_after(lines).1) + reader_after(lines).0.block == nonblank_lines(lines),
        reader_after(lines).0.line_no == lines.len(),
    decreases lines.len(),
{
    if lines.len() > 0 {
        let prev = lines.drop_last();
        lemma_reader_after_concat(prev);
        let (st, bs) = reader_after(prev);
        let x = lines.last();
        if is_blank(x) && st.block.len() > 0 {
            assert(bs.push(st.block).drop_last() == bs);
            assert(concat_blocks(bs.push(st.block)) + Seq::<(usize, Seq<char>)>::empty()
                == concat_blocks(bs) + st.block);
        } else if is_blank(x) {
            assert(st.block == Seq::<(usize, Seq<char>)>::empty());
        } else {
            assert(concat_blocks(bs) + st.block.push((lines.len() as usize, x)) == (
            concat_blocks(bs) + st.block).push((lines.len() as usize, x)));
        }
    }
}

/// What the reader gives back, line by line: the blocks handed out for an
/// input (the end of the input included), one after another, are exactly
/// its non-blank lines in order, each under its 1-based number.
pub proof fn lemma_blocks_hold_nonblank_lines(lines: Seq<Seq<char>>)
    ensures
        concat_blocks(blocks_of(lines)) == nonblank_lines(lines),
{
    lemma_reader_after_concat(lines);
    let (st, bs) = reader_after(lines);
    if st.block.len() > 0 {
        assert(bs.push(st.block).drop_last() == bs);
    } else {
        assert(concat_blocks(bs) + st.block == concat_blocks(bs));
    }
}

/// An item of the line stream: a line, or `None` for the end of the input.
pub open spec fn reader_item(state: ReaderState, item: Option<Seq<char>>) -> (ReaderState, Option<
    Seq<(usize, Seq<char>)>,
>) {
    match item {
        Some(line) => reader_line(state, line),
        None => reader_end(state),
    }
}

/// The reader's state after the given items, and whether any of them
/// completed a block.
pub open spec fn reader_items(state: ReaderState, items: Seq<Option<Seq<char>>>) -> (ReaderState, bool)
    decreases items.len(),
{
    if items.len() == 0 {
        (state, false)
    } else {
        let (st, any) = reader_items(state, items.drop_last());
        let (st2, out) = reader_item(st, items.last());
        (st2, any || out is Some)
    }
}

/// Blank lines and ends of input complete nothing: from a reader with no
/// block under way (as after any block is handed out, and after the end of
/// the input), every further item that is a blank line or the end gives no
/// block, and the reader stays with no block under way.
pub proof fn lemma_blank_rest_gives_nothing(state: ReaderState, items: Seq<Option<Seq<char>>>)
    requires
        state.block.len() == 0,
        forall|i: int| 0 <= i < items.len() ==> (#[trigger] items[i] matches Some(l) ==> is_blank(l)),
    ensures
        !reader_items(state, items).1,
        reader_items(state, items).0.block.len() == 0,
    decreases items.len(),
{
    if items.len() > 0 {
        assert forall|i: int| 0 <= i < items.drop_last().len() implies (
        #[trigger] items.drop_last()[i] matches Some(l) ==> is_blank(l)) by {
            assert(items.drop_last()[i] == items[i]);
        }
        lemma_blank_rest_gives_nothing(state, items.drop_last());
        assert(items[items.len() - 1] == items.last());
    }
}

/// The end of the input always leaves the reader with no block under way.
pub proof fn lemma_end_empties_reader(state: ReaderState)
    ensures
        reader_end(state).0.block.len() == 0,
        reader_end(state).0.line_no == state.line_no,
{
}

} // verus!
