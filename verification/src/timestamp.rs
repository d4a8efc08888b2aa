//! SubRip and WebVTT timestamps.
use vstd::prelude::*;

use crate::text::{
    all_digits, char_is_whitespace, chars_of, digits_value, find_char_in, is_digit, lemma_decimal,
    lemma_digits_parse, lemma_find_char_at, lemma_split_char_append, lemma_split_char_none, lemma_trim_same_shape,
    lemma_zero_padded, parse_unsigned, parse_unsigned_in, push_zero_padded, split_char,
    split_char_in, split_once_char, trim, trim_end, trim_range, trim_start, unsigned_value,
    ws_prefix_len, ws_trimmed_end, zero_padded,
};

pub mod order;

verus! {

/// A subtitle timestamp, stored as milliseconds since 00:00:00,000.
///
/// Keeping this as a single integer instead of four separate fields makes
/// ordering and duration arithmetic trivial and free of edge cases.
#[derive(Debug, Clone, Copy, PartialEq, Eq, Structural, Ord, Hash)]
pub struct Timestamp {
    millis: u32,
}

impl View for Timestamp {
    type V = nat;

    /// The number of milliseconds since 00:00:00,000.
    closed spec fn view(&self) -> nat {
        self.millis as nat
    }
}

/// The millisecond value of a clock reading `hours:minutes:seconds` plus
/// `millis`, when every part is in range and the total fits in a `u32`.
pub open spec fn clock_value(hours: Option<nat>, minutes: Option<nat>, seconds: Option<nat>, millis: nat) -> Option<nat> {
    match (hours, minutes, seconds) {
        (Some(h), Some(m), Some(s)) => {
            let total = (h * 3600 + m * 60 + s) * 1000 + millis;
            if m < 60 && s < 60 && total <= u32::MAX {
                Some(total)
            } else {
                None
            }
        },
        _ => None,
    }
}

/// A field of a clock reading, read as `u32` by `str::parse`.
pub open spec fn clock_field(s: Seq<char>) -> Option<nat> {
    parse_unsigned(s, u32::MAX as nat)
}

/// The clock fields of `time_part` split at `:`: hours, minutes and seconds
/// as `str::parse` reads them as `u32`. With three fields all are given; with
/// two and `hours_optional`, the hours are 0; otherwise there is no reading.
pub open spec fn clock_fields(time_part: Seq<char>, hours_optional: bool) -> Option<
    (Option<nat>, Option<nat>, Option<nat>),
> {
    let fields = split_char(time_part, ':');
    if fields.len() == 3 {
        Some((clock_field(fields[0]), clock_field(fields[1]), clock_field(fields[2])))
    } else if hours_optional && fields.len() == 2 {
        Some((Some(0), clock_field(fields[0]), clock_field(fields[1])))
    } else {
        None
    }
}

/// The value of a timestamp written `H:M:S<sep>mmm` after trimming, where the
/// hours may be left out (`M:S<sep>mmm`) when `hours_optional` holds.
/// `mmm` is exactly three ASCII digits; each clock field is what `str::parse`
/// accepts as a `u32`; minutes and seconds are below 60; the total is at most
/// `u32::MAX` milliseconds.
pub open spec fn timestamp_value(raw: Seq<char>, sep: char, hours_optional: bool) -> Option<nat> {
    match split_once_char(trim(raw), sep) {
        None => None,
        Some((time_part, ms_part)) => {
            if ms_part.len() == 3 && all_digits(ms_part) {
                match clock_fields(time_part, hours_optional) {
                    Some((h, m, s)) => clock_value(h, m, s, digits_value(ms_part)),
                    None => None,
                }
            } else {
                None
            }
        },
    }
}

/// An optional machine integer as an optional natural number.
pub open spec fn opt_nat(o: Option<u64>) -> Option<nat> {
    match o {
        Some(n) => Some(n as nat),
        None => None,
    }
}

/// The SubRip reading `HH:MM:SS,mmm`.
pub open spec fn srt_value(raw: Seq<char>) -> Option<nat> {
    timestamp_value(raw, ',', false)
}

/// The WebVTT reading `HH:MM:SS.mmm` or `MM:SS.mmm`.
pub open spec fn vtt_value(raw: Seq<char>) -> Option<nat> {
    timestamp_value(raw, '.', true)
}

/// The SubRip text of a millisecond count: `HH:MM:SS,mmm`, each field
/// zero-padded to its width (hours may take more than two digits).
pub open spec fn clock_text(millis: nat) -> Seq<char> {
    let ms = millis % 1000;
    let total_secs = millis / 1000;
    let s = total_secs % 60;
    let total_mins = total_secs / 60;
    let m = total_mins % 60;
    let h = total_mins / 60;
    zero_padded(h, 2) + seq![':'] + zero_padded(m, 2) + seq![':'] + zero_padded(s, 2) + seq![',']
        + zero_padded(ms, 3)
}

/// Three ASCII digits never make more than 999.
proof fn lemma_three_digits(d: Seq<char>)
    requires
        d.len() == 3,
        all_digits(d),
    ensures
        digits_value(d) <= 999,
        unsigned_value(d) == Some(digits_value(d)),
{
    let d2 = d.drop_last();
    let d1 = d2.drop_last();
    let d0 = d1.drop_last();
    assert(d0.len() == 0);
    assert(d1.last() == d[0]);
    assert(d2.last() == d[1]);
    assert(is_digit(d[0]) && is_digit(d[1]) && is_digit(d[2]));
    assert(d[0] as nat <= '9' as nat);
    assert(digits_value(d0) == 0);
    assert(digits_value(d1) <= 9);
    assert(digits_value(d2) <= 99);
}

/// Reads the clock fields of `v[lo..hi]`.
fn read_clock_fields(v: &[char], lo: usize, hi: usize, hours_optional: bool) -> (r: Option<
    (Option<u64>, Option<u64>, Option<u64>),
>)
    requires
        lo <= hi <= v@.len(),
    ensures
        match clock_fields(v@.subrange(lo as int, hi as int), hours_optional) {
            Some((h, m, s)) => r matches Some((rh, rm, rs)) && opt_nat(rh) == h && opt_nat(rm) == m
                && opt_nat(rs) == s,
            None => r is None,
        },
{
    let fields = split_char_in(v, lo, hi, ':');
    let ghost fs = split_char(v@.subrange(lo as int, hi as int), ':');
    if fields.len() == 3 {
        assert(v@.subrange(fields[0].0 as int, fields[0].1 as int) == fs[0]);
        assert(v@.subrange(fields[1].0 as int, fields[1].1 as int) == fs[1]);
        assert(v@.subrange(fields[2].0 as int, fields[2].1 as int) == fs[2]);
        Some(
            (
                parse_unsigned_in(v, fields[0].0, fields[0].1, 0xffff_ffff),
                parse_unsigned_in(v, fields[1].0, fields[1].1, 0xffff_ffff),
                parse_unsigned_in(v, fields[2].0, fields[2].1, 0xffff_ffff),
            ),
        )
    } else if hours_optional && fields.len() == 2 {
        assert(v@.subrange(fields[0].0 as int, fields[0].1 as int) == fs[0]);
        assert(v@.subrange(fields[1].0 as int, fields[1].1 as int) == fs[1]);
        Some(
            (
                Some(0),
                parse_unsigned_in(v, fields[0].0, fields[0].1, 0xffff_ffff),
                parse_unsigned_in(v, fields[1].0, fields[1].1, 0xffff_ffff),
            ),
        )
    } else {
        None
    }
}

/// The timestamp for a clock reading, when it is in range.
fn clock_timestamp(h: Option<u64>, m: Option<u64>, s: Option<u64>, millis: u64) -> (r: Option<
    Timestamp,
>)
    requires
        h matches Some(h) ==> h <= u32::MAX,
        m matches Some(m) ==> m <= u32::MAX,
        s matches Some(s) ==> s <= u32::MAX,
        millis <= 999,
    ensures
        match clock_value(opt_nat(h), opt_nat(m), opt_nat(s), millis as nat) {
            Some(n) => r matches Some(t) && t@ == n,
            None => r is None,
        },
{
    match (h, m, s) {
        (Some(h), Some(m), Some(s)) => {
            if m >= 60 || s >= 60 {
                return None;
            }
            assert(h * 3600 + m * 60 + s <= 0xffff_ffff * 3600 + 59 * 60 + 59) by (nonlinear_arith)
                requires
                    h <= 0xffff_ffff,
                    m < 60,
                    s < 60,
            ;
            let total: u64 = (h * 3600 + m * 60 + s) * 1000 + millis;
            if total > 0xffff_ffff {
                return None;
            }
            Some(Timestamp { millis: total as u32 })
        },
        _ => None,
    }
}

/// Parses `v` as a timestamp `H:M:S<sep>mmm` (or `M:S<sep>mmm` when
/// `hours_optional`).
#[verifier::rlimit(40)]
fn parse_clock(v: &[char], sep: char, hours_optional: bool) -> (r: Option<Timestamp>)
    ensures
        match r {
            Some(t) => timestamp_value(v@, sep, hours_optional) == Some(t@),
            None => timestamp_value(v@, sep, hours_optional) is None,
        },
{
    let (a, b) = trim_range(v, 0, v.len());
    assert(v@.subrange(0, v@.len() as int) == v@);
    let ghost t = v@.subrange(a as int, b as int);
    let k = match find_char_in(v, a, b, sep) {
        Some(k) => k,
        None => {
            return None;
        },
    };
    assert(t.take(k - a) == v@.subrange(a as int, k as int));
    assert(t.skip(k - a + 1) == v@.subrange(k + 1, b as int));
    let ghost ms_part = v@.subrange(k + 1, b as int);
    let ghost time_part = v@.subrange(a as int, k as int);
    assert(split_once_char(trim(v@), sep) == Some((time_part, ms_part)));
    if b - (k + 1) != 3 {
        return None;
    }
    if !(v[k + 1] >= '0' && v[k + 1] <= '9' && v[k + 2] >= '0' && v[k + 2] <= '9' && v[k + 3]
        >= '0' && v[k + 3] <= '9') {
        assert(!is_digit(ms_part[0]) || !is_digit(ms_part[1]) || !is_digit(ms_part[2]));
        return None;
    }
    assert(all_digits(ms_part)) by {
        assert(ms_part[0] == v@[k + 1] && ms_part[1] == v@[k + 2] && ms_part[2] == v@[k + 3]);
    }
    proof {
        lemma_three_digits(ms_part);
    }
    let millis = match parse_unsigned_in(v, k + 1, b, 999) {
        Some(n) => n,
        None => {
            return None;
        },
    };
    match read_clock_fields(v, a, k, hours_optional) {
        Some((h, m, s)) => clock_timestamp(h, m, s, millis),
        None => None,
    }
}

impl Timestamp {
    /// Parses "HH:MM:SS,mmm". Returns None for anything else, including the
    /// "HH:MM:SS.mmm" variant some tools emit — that's a distinct lint
    /// finding, not a silently-accepted format.
    pub fn parse(raw: &str) -> (r: Option<Timestamp>)
        ensures
            match r {
                Some(t) => srt_value(raw@) == Some(t@),
                None => srt_value(raw@) is None,
            },
    {
        let v = chars_of(raw);
        parse_clock(&v, ',', false)
    }

    /// Parses a WebVTT timestamp: "HH:MM:SS.mmm" or, since WebVTT allows the
    /// hours field to be dropped for cues under an hour, "MM:SS.mmm".
    pub fn parse_vtt(raw: &str) -> (r: Option<Timestamp>)
        ensures
            match r {
                Some(t) => vtt_value(raw@) == Some(t@),
                None => vtt_value(raw@) is None,
            },
    {
        let v = chars_of(raw);
        parse_clock(&v, '.', true)
    }

    /// The number of milliseconds since 00:00:00,000.
    pub fn as_millis(&self) -> (ms: u32)
        ensures
            ms as nat == self@,
    {
        self.millis
    }

    /// The SubRip text of this timestamp, "HH:MM:SS,mmm".
    pub fn to_string(&self) -> (s: String)
        ensures
            s@ == clock_text(self@),
    {
        let mut s = String::new();
        let ms = self.millis % 1000;
        let total_secs = self.millis / 1000;
        let sec = total_secs % 60;
        let total_mins = total_secs / 60;
        let min = total_mins % 60;
        let h = total_mins / 60;
        push_zero_padded(&mut s, h as u64, 2);
        s.push(':');
        push_zero_padded(&mut s, min as u64, 2);
        s.push(':');
        push_zero_padded(&mut s, sec as u64, 2);
        s.push(',');
        push_zero_padded(&mut s, ms as u64, 3);
        s
    }
}

/// Text made of ASCII digits and the separators `:` `,` `.` has nothing for
/// `trim` to remove, as long as it starts and ends with a digit.
proof fn lemma_trim_digit_ends(t: Seq<char>)
    requires
        t.len() >= 1,
        is_digit(t[0]),
        is_digit(t.last()),
    ensures
        trim(t) == t,
{
    reveal(ws_prefix_len);
    reveal(ws_trimmed_end);
    assert(!char_is_whitespace(t[0]));
    let i = choose|i: int|
        0 <= i < t.len() && !char_is_whitespace(t[i]) && forall|k: int|
            0 <= k < i ==> char_is_whitespace(#[trigger] t[k]);
    assert(i == 0) by {
        if i > 0 {
            assert(char_is_whitespace(t[0]));
        }
    }
    assert(trim_start(t) == t);
    let last = t.len() - 1;
    assert(!char_is_whitespace(t[last]));
    let j = choose|j: int|
        0 <= j < t.len() && !char_is_whitespace(t[j]) && forall|k: int|
            j < k < t.len() ==> char_is_whitespace(#[trigger] t[k]);
    assert(j == last) by {
        if j < last {
            assert(char_is_whitespace(t[last]));
        }
    }
    assert(trim_end(t) == t);
}

/// The clock arithmetic of `clock_text` puts the fields back together.
proof fn lemma_clock_arithmetic(n: nat)
    ensures
        ((n / 1000 / 60 / 60) * 3600 + (n / 1000 / 60 % 60) * 60 + n / 1000 % 60) * 1000 + n % 1000
            == n,
        n / 1000 / 60 / 60 <= n,
{
    let q1 = n / 1000;
    let q2 = q1 / 60;
    let h = q2 / 60;
    assert(n == q1 * 1000 + n % 1000);
    assert(q1 == q2 * 60 + q1 % 60);
    assert(q2 == h * 60 + q2 % 60);
    assert((h * 3600 + (q2 % 60) * 60 + q1 % 60) * 1000 + n % 1000 == n) by (nonlinear_arith)
        requires
            n == q1 * 1000 + n % 1000,
            q1 == q2 * 60 + q1 % 60,
            q2 == h * 60 + q2 % 60,
    ;
    assert(h <= n) by (nonlinear_arith)
        requires
            n == q1 * 1000 + n % 1000,
            q1 == q2 * 60 + q1 % 60,
            q2 == h * 60 + q2 % 60,
            n % 1000 >= 0,
            q1 % 60 >= 0,
            q2 % 60 >= 0,
            h >= 0,
    ;
}

/// Reading back the text that `to_string` writes gives the same timestamp:
/// for every timestamp, the SubRip reading of `HH:MM:SS,mmm` as written is
/// the timestamp's own millisecond count.
pub proof fn lemma_display_reads_back(t: Timestamp)
    ensures
        srt_value(clock_text(t@)) == Some(t@),
{
    let n = t@;
    let ms = n % 1000;
    let total_secs = n / 1000;
    let s = total_secs % 60;
    let total_mins = total_secs / 60;
    let m = total_mins % 60;
    let h = total_mins / 60;
    let hh = zero_padded(h, 2);
    let mm = zero_padded(m, 2);
    let ss = zero_padded(s, 2);
    let mmm = zero_padded(ms, 3);
    lemma_zero_padded(h, 2);
    lemma_zero_padded(m, 2);
    lemma_zero_padded(s, 2);
    lemma_zero_padded(ms, 3);
    lemma_decimal(ms);
    lemma_clock_arithmetic(n);
    let time = hh + seq![':'] + mm + seq![':'] + ss;
    let text = time + seq![','] + mmm;
    assert(clock_text(n) == text);
    // nothing to trim
    assert(text[0] == hh[0]);
    assert(text.last() == mmm.last());
    assert(is_digit(hh[0]) && is_digit(mmm[mmm.len() - 1]));
    lemma_trim_digit_ends(text);
    // the comma comes right after the seconds
    assert forall|k: int| 0 <= k < time.len() implies text[k] != ',' by {
        assert(text[k] == time[k]);
        if k < hh.len() {
            assert(time[k] == hh[k] && is_digit(hh[k]));
        } else if k == hh.len() {
        } else if k < hh.len() + 1 + mm.len() {
            assert(time[k] == mm[k - hh.len() - 1] && is_digit(mm[k - hh.len() - 1]));
        } else if k == hh.len() + 1 + mm.len() {
        } else {
            assert(time[k] == ss[k - hh.len() - 2 - mm.len()] && is_digit(
                ss[k - hh.len() - 2 - mm.len()],
            ));
        }
    }
    lemma_find_char_at(text, ',', time.len() as int);
    assert(text.take(time.len() as int) == time);
    assert(text.skip(time.len() as int + 1) == mmm);
    // the clock fields are the three padded numbers
    assert forall|i: int| 0 <= i < hh.len() implies hh[i] != ':' by {
        assert(is_digit(hh[i]));
    }
    assert forall|i: int| 0 <= i < mm.len() implies mm[i] != ':' by {
        assert(is_digit(mm[i]));
    }
    assert forall|i: int| 0 <= i < ss.len() implies ss[i] != ':' by {
        assert(is_digit(ss[i]));
    }
    lemma_split_char_none(hh, ':');
    lemma_split_char_append(hh, mm, ':');
    lemma_split_char_append(hh + seq![':'] + mm, ss, ':');
    assert(split_char(time, ':') == seq![hh, mm, ss]);
    lemma_digits_parse(hh, u32::MAX as nat);
    lemma_digits_parse(mm, u32::MAX as nat);
    lemma_digits_parse(ss, u32::MAX as nat);
    assert(clock_fields(time, false) == Some((Some(h), Some(m), Some(s))));
}

/// Two timestamps are equal exactly when their millisecond counts are.
pub proof fn lemma_equality_by_millis(t1: Timestamp, t2: Timestamp)
    ensures
        (t1 == t2) == (t1@ == t2@),
{
}

/// `c` does not occur in `s`.
pub open spec fn lacks(s: Seq<char>, c: char) -> bool {
    forall|i: int| 0 <= i < s.len() ==> s[i] != c
}

/// A WebVTT reading with all three fields is the SubRip reading with the
/// comma before the milliseconds written as a dot: for any fields `h`, `m`,
/// `sec` and `f` holding no `:`, `,` or `.`, `h:m:sec.f` read as WebVTT gives
/// what `h:m:sec,f` read as SubRip gives.
pub proof fn lemma_vtt_is_srt_with_dot(h: Seq<char>, m: Seq<char>, sec: Seq<char>, f: Seq<char>)
    requires
        lacks(h, ':') && lacks(h, ',') && lacks(h, '.'),
        lacks(m, ':') && lacks(m, ',') && lacks(m, '.'),
        lacks(sec, ':') && lacks(sec, ',') && lacks(sec, '.'),
        lacks(f, ':') && lacks(f, ',') && lacks(f, '.'),
    ensures
        vtt_value(h + seq![':'] + m + seq![':'] + sec + seq!['.'] + f) == srt_value(
            h + seq![':'] + m + seq![':'] + sec + seq![','] + f,
        ),
{
    let t = h + seq![':'] + m + seq![':'] + sec;
    let s1 = t + seq![','] + f;
    let s2 = t + seq!['.'] + f;
    let n = t.len() as int;
    assert(h + seq![':'] + m + seq![':'] + sec + seq![','] + f == s1);
    assert(h + seq![':'] + m + seq![':'] + sec + seq!['.'] + f == s2);
    assert forall|k: int| 0 <= k < s1.len() implies char_is_whitespace(#[trigger] s1[k])
        == char_is_whitespace(s2[k]) by {
        if k != n {
            assert(s1[k] == s2[k]);
        }
    }
    let (p, q) = lemma_trim_same_shape(s1, s2);
    assert(s1[h.len() as int] == ':');
    assert(p <= h.len()) by {
        if p > h.len() {
            assert(char_is_whitespace(s1[h.len() as int]));
        }
    }
    assert(s1[n] == ',');
    assert(q > n) by {
        if q <= n {
            assert(char_is_whitespace(s1[n]));
        }
    }
    // the separator before the milliseconds is the first one in each text
    let r1 = s1.subrange(p, q);
    let r2 = s2.subrange(p, q);
    assert forall|k: int| 0 <= k < n - p implies r1[k] != ',' && r2[k] != '.' by {
        assert(r1[k] == t[k + p] && r2[k] == t[k + p]);
        let j = k + p;
        if j < h.len() {
            assert(t[j] == h[j]);
        } else if j == h.len() {
        } else if j < h.len() + 1 + m.len() {
            assert(t[j] == m[j - h.len() - 1]);
        } else if j == h.len() + 1 + m.len() {
        } else {
            assert(t[j] == sec[j - h.len() - 2 - m.len()]);
        }
    }
    assert(r1[n - p] == ',' && r2[n - p] == '.');
    lemma_find_char_at(r1, ',', n - p);
    lemma_find_char_at(r2, '.', n - p);
    let time_part = t.subrange(p, n);
    assert(r1.take(n - p) == time_part);
    assert(r2.take(n - p) == time_part);
    assert(r1.skip(n - p + 1) == r2.skip(n - p + 1));
    // three clock fields, so the optional hours of WebVTT play no part
    let hh = h.skip(p);
    assert(time_part == hh + seq![':'] + m + seq![':'] + sec);
    assert forall|i: int| 0 <= i < hh.len() implies hh[i] != ':' by {
        assert(hh[i] == h[i + p]);
    }
    lemma_split_char_none(hh, ':');
    lemma_split_char_append(hh, m, ':');
    lemma_split_char_append(hh + seq![':'] + m, sec, ':');
    assert(split_char(time_part, ':').len() == 3);
}

} // verus!
