//! Character-level text operations shared by the parsers: whitespace
//! trimming, searching, splitting, decimal parsing and decimal printing.
//! Everything works on `Seq<char>` in specifications and on `&[char]`
//! ranges in executable code.
use vstd::prelude::*;

verus! {

/// `String::push` appends one character: the string's characters afterwards
/// are the old ones followed by `ch`.
pub assume_specification[ String::push ](s: &mut String, ch: char)
    ensures
        final(s)@ == old(s)@.push(ch),
;

/// The Unicode `White_Space` property (PropList.txt), which is what
/// `char::is_whitespace` tests: the ASCII tab, line feed, vertical tab,
/// form feed, carriage return and space, plus the listed non-ASCII points.
pub open spec fn char_is_whitespace(c: char) -> bool {
    let n = c as u32;
    ||| 0x09 <= n <= 0x0D
    ||| n == 0x20
    ||| n == 0x85
    ||| n == 0xA0
    ||| n == 0x1680
    ||| 0x2000 <= n <= 0x200A
    ||| n == 0x2028
    ||| n == 0x2029
    ||| n == 0x202F
    ||| n == 0x205F
    ||| n == 0x3000
}

/// Calls `char::is_whitespace`, which answers whether `c` has the Unicode
/// `White_Space` property; the contract spells that property out.
#[verifier::external_body]
pub(crate) fn is_whitespace(c: char) -> (b: bool)
    ensures
        b == char_is_whitespace(c),
{
    c.is_whitespace()
}

/// Collects the characters of a string slice.
pub fn chars_of(s: &str) -> (v: Vec<char>)
    ensures
        v@ == s@,
{
    let mut v: Vec<char> = Vec::new();
    for c in it: s.chars()
        invariant
            v@ == it.seq().take(it.index() as int),
    {
        v.push(c);
    }
    v
}

/// Builds a `String` from the characters `v[lo..hi]`.
pub fn string_of(v: &[char], lo: usize, hi: usize) -> (s: String)
    requires
        lo <= hi <= v@.len(),
    ensures
        s@ == v@.subrange(lo as int, hi as int),
{
    let mut s = String::new();
    let mut i: usize = lo;
    while i < hi
        invariant
            lo <= i <= hi <= v@.len(),
            s@ == v@.subrange(lo as int, i as int),
        decreases hi - i,
    {
        s.push(v[i]);
        assert(v@.subrange(lo as int, i + 1) == v@.subrange(lo as int, i as int).push(v@[i as int]));
        i = i + 1;
    }
    s
}

/// Appends the characters of `t` to `s`.
pub fn push_str(s: &mut String, t: &str)
    ensures
        final(s)@ == old(s)@ + t@,
{
    let v = chars_of(t);
    push_chars(s, &v, 0, v.len());
}

/// Appends the characters `v[lo..hi]` to `s`.
pub fn push_chars(s: &mut String, v: &[char], lo: usize, hi: usize)
    requires
        lo <= hi <= v@.len(),
    ensures
        final(s)@ == old(s)@ + v@.subrange(lo as int, hi as int),
{
    let ghost start = s@;
    let mut i: usize = lo;
    while i < hi
        invariant
            lo <= i <= hi <= v@.len(),
            s@ == start + v@.subrange(lo as int, i as int),
        decreases hi - i,
    {
        s.push(v[i]);
        assert(v@.subrange(lo as int, i + 1) == v@.subrange(lo as int, i as int).push(v@[i as int]));
        i = i + 1;
    }
}

// ---------------------------------------------------------------- trimming

/// Index of the first character of `s` that is not whitespace, or the
/// length of `s` when there is none.
#[verifier::opaque]
pub open spec fn ws_prefix_len(s: Seq<char>) -> int {
    if exists|i: int| 0 <= i < s.len() && !char_is_whitespace(#[trigger] s[i]) {
        choose|i: int|
            0 <= i < s.len() && !char_is_whitespace(s[i]) && forall|k: int|
                0 <= k < i ==> char_is_whitespace(#[trigger] s[k])
    } else {
        s.len() as int
    }
}

/// One past the index of the last character of `s` that is not whitespace,
/// or 0 when there is none.
#[verifier::opaque]
pub open spec fn ws_trimmed_end(s: Seq<char>) -> int {
    if exists|i: int| 0 <= i < s.len() && !char_is_whitespace(#[trigger] s[i]) {
        1 + choose|j: int|
            0 <= j < s.len() && !char_is_whitespace(s[j]) && forall|k: int|
                j < k < s.len() ==> char_is_whitespace(#[trigger] s[k])
    } else {
        0
    }
}

/// `str::trim_start`: `s` without its leading whitespace.
pub open spec fn trim_start(s: Seq<char>) -> Seq<char> {
    s.skip(ws_prefix_len(s))
}

/// `str::trim_end`: `s` without its trailing whitespace.
pub open spec fn trim_end(s: Seq<char>) -> Seq<char> {
    s.take(ws_trimmed_end(s))
}

/// `str::trim`: `s` without leading and trailing whitespace.
pub open spec fn trim(s: Seq<char>) -> Seq<char> {
    trim_end(trim_start(s))
}

/// Start of `trim_start(v[lo..hi])`, as an index into `v`.
pub fn trim_start_index(v: &[char], lo: usize, hi: usize) -> (i: usize)
    requires
        lo <= hi <= v@.len(),
    ensures
        lo <= i <= hi,
        v@.subrange(i as int, hi as int) == trim_start(v@.subrange(lo as int, hi as int)),
{
    let ghost s = v@.subrange(lo as int, hi as int);
    let mut i: usize = lo;
    while i < hi
        invariant
            lo <= i <= hi <= v@.len(),
            s == v@.subrange(lo as int, hi as int),
            forall|k: int| 0 <= k < i - lo ==> char_is_whitespace(#[trigger] s[k]),
        ensures
            lo <= i <= hi,
            forall|k: int| 0 <= k < i - lo ==> char_is_whitespace(#[trigger] s[k]),
            i < hi ==> !char_is_whitespace(v@[i as int]),
        decreases hi - i,
    {
        if !is_whitespace(v[i]) {
            break;
        }
        i = i + 1;
    }
    proof {
        reveal(ws_prefix_len);
        let n = (i - lo) as int;
        if i < hi {
            assert(!char_is_whitespace(s[n]));
            let c = choose|c: int|
                0 <= c < s.len() && !char_is_whitespace(s[c]) && forall|k: int|
                    0 <= k < c ==> char_is_whitespace(#[trigger] s[k]);
            assert(c == n) by {
                if c < n {
                    assert(char_is_whitespace(s[c]));
                } else if c > n {
                    assert(char_is_whitespace(s[n]));
                }
            }
        } else {
            assert(!exists|j: int| 0 <= j < s.len() && !char_is_whitespace(#[trigger] s[j]));
        }
        assert(ws_prefix_len(s) == n);
        assert(v@.subrange(i as int, hi as int) == s.skip(n));
    }
    i
}

/// End of `trim_end(v[lo..hi])`, as an index into `v`.
pub fn trim_end_index(v: &[char], lo: usize, hi: usize) -> (j: usize)
    requires
        lo <= hi <= v@.len(),
    ensures
        lo <= j <= hi,
        v@.subrange(lo as int, j as int) == trim_end(v@.subrange(lo as int, hi as int)),
{
    let ghost s = v@.subrange(lo as int, hi as int);
    let mut j: usize = hi;
    while j > lo
        invariant
            lo <= j <= hi <= v@.len(),
            s == v@.subrange(lo as int, hi as int),
            forall|k: int| j - lo <= k < s.len() ==> char_is_whitespace(#[trigger] s[k]),
        ensures
            lo <= j <= hi,
            forall|k: int| j - lo <= k < s.len() ==> char_is_whitespace(#[trigger] s[k]),
            j > lo ==> !char_is_whitespace(v@[j - 1]),
        decreases j - lo,
    {
        if !is_whitespace(v[j - 1]) {
            break;
        }
        j = j - 1;
    }
    proof {
        reveal(ws_trimmed_end);
        let n = (j - lo) as int;
        if j > lo {
            assert(!char_is_whitespace(s[n - 1]));
            let c = choose|c: int|
                0 <= c < s.len() && !char_is_whitespace(s[c]) && forall|k: int|
                    c < k < s.len() ==> char_is_whitespace(#[trigger] s[k]);
            assert(c == n - 1) by {
                if c < n - 1 {
                    assert(char_is_whitespace(s[n - 1]));
                } else if c > n - 1 {
                    assert(char_is_whitespace(s[c]));
                }
            }
        } else {
            assert(!exists|i: int| 0 <= i < s.len() && !char_is_whitespace(#[trigger] s[i]));
        }
        assert(ws_trimmed_end(s) == n);
        assert(v@.subrange(lo as int, j as int) == s.take(n));
    }
    j
}

/// Bounds of `trim(v[lo..hi])`, as indices into `v`.
pub fn trim_range(v: &[char], lo: usize, hi: usize) -> (r: (usize, usize))
    requires
        lo <= hi <= v@.len(),
    ensures
        lo <= r.0 <= r.1 <= hi,
        v@.subrange(r.0 as int, r.1 as int) == trim(v@.subrange(lo as int, hi as int)),
{
    let i = trim_start_index(v, lo, hi);
    let j = trim_end_index(v, i, hi);
    (i, j)
}


// ---------------------------------------------------------------- searching

/// Index of the first occurrence of `c` in `s`.
pub open spec fn find_char(s: Seq<char>, c: char) -> Option<int>
    decreases s.len(),
{
    if s.len() == 0 {
        None
    } else if s[0] == c {
        Some(0)
    } else {
        match find_char(s.drop_first(), c) {
            Some(i) => Some(i + 1),
            None => None,
        }
    }
}

/// `find_char` is the first occurrence, and `None` exactly when there is none.
pub proof fn lemma_find_char(s: Seq<char>, c: char)
    ensures
        match find_char(s, c) {
            Some(i) => 0 <= i < s.len() && s[i] == c && forall|k: int| 0 <= k < i ==> s[k] != c,
            None => forall|k: int| 0 <= k < s.len() ==> s[k] != c,
        },
    decreases s.len(),
{
    if s.len() > 0 && s[0] != c {
        lemma_find_char(s.drop_first(), c);
        match find_char(s.drop_first(), c) {
            Some(i) => {
                assert forall|k: int| 0 <= k < i + 1 implies s[k] != c by {
                    if k > 0 {
                        assert(s[k] == s.drop_first()[k - 1]);
                    }
                }
            },
            None => {
                assert forall|k: int| 0 <= k < s.len() implies s[k] != c by {
                    if k > 0 {
                        assert(s[k] == s.drop_first()[k - 1]);
                    }
                }
            },
        }
    }
}

/// A first occurrence found by a scan is what `find_char` names.
pub proof fn lemma_find_char_at(s: Seq<char>, c: char, i: int)
    requires
        0 <= i <= s.len(),
        forall|k: int| 0 <= k < i ==> s[k] != c,
        i < s.len() ==> s[i] == c,
    ensures
        find_char(s, c) == (if i < s.len() { Some(i) } else { None::<int> }),
{
    lemma_find_char(s, c);
}

/// `str::split_once` on a character: the text before and after the first `c`.
pub open spec fn split_once_char(s: Seq<char>, c: char) -> Option<(Seq<char>, Seq<char>)> {
    match find_char(s, c) {
        Some(i) => Some((s.take(i), s.skip(i + 1))),
        None => None,
    }
}

/// Index into `v` of the first `c` in `v[lo..hi]`.
pub fn find_char_in(v: &[char], lo: usize, hi: usize, c: char) -> (r: Option<usize>)
    requires
        lo <= hi <= v@.len(),
    ensures
        match r {
            Some(i) => lo <= i < hi && find_char(v@.subrange(lo as int, hi as int), c) == Some(
                i - lo,
            ),
            None => find_char(v@.subrange(lo as int, hi as int), c) is None,
        },
{
    let ghost s = v@.subrange(lo as int, hi as int);
    let mut i: usize = lo;
    while i < hi
        invariant
            lo <= i <= hi <= v@.len(),
            s == v@.subrange(lo as int, hi as int),
            forall|k: int| 0 <= k < i - lo ==> s[k] != c,
        decreases hi - i,
    {
        if v[i] == c {
            proof {
                lemma_find_char_at(s, c, i - lo);
            }
            return Some(i);
        }
        i = i + 1;
    }
    proof {
        lemma_find_char_at(s, c, s.len() as int);
    }
    None
}

/// Whether `p` occurs in `s` at position `i`.
pub open spec fn occurs_at(s: Seq<char>, p: Seq<char>, i: int) -> bool {
    0 <= i && i + p.len() <= s.len() && s.subrange(i, i + p.len()) == p
}

/// Index of the first occurrence of the pattern `p` in `s`.
pub open spec fn find_seq(s: Seq<char>, p: Seq<char>) -> Option<int> {
    if exists|i: int| occurs_at(s, p, i) {
        Some(choose|i: int| occurs_at(s, p, i) && forall|k: int| 0 <= k < i ==> !occurs_at(s, p, k))
    } else {
        None
    }
}

/// `str::split_once` on a pattern: the text before and after the first `p`.
pub open spec fn split_once_seq(s: Seq<char>, p: Seq<char>) -> Option<(Seq<char>, Seq<char>)> {
    match find_seq(s, p) {
        Some(i) => Some((s.take(i), s.skip(i + p.len()))),
        None => None,
    }
}

/// Whether `p` occurs in `v[lo..hi]` at index `i` of `v`.
fn matches_at(v: &[char], i: usize, hi: usize, p: &[char]) -> (b: bool)
    requires
        i <= hi <= v@.len(),
    ensures
        b == (i + p@.len() <= hi && v@.subrange(i as int, i + p@.len()) == p@),
{
    if p.len() > hi - i {
        return false;
    }
    let mut k: usize = 0;
    while k < p.len()
        invariant
            i + p@.len() <= hi <= v@.len(),
            k <= p@.len(),
            forall|m: int| 0 <= m < k ==> v@[i + m] == p@[m],
        decreases p.len() - k,
    {
        if v[i + k] != p[k] {
            assert(v@.subrange(i as int, i + p@.len())[k as int] != p@[k as int]);
            return false;
        }
        k = k + 1;
    }
    assert(v@.subrange(i as int, i + p@.len()) == p@);
    true
}

/// Index into `v` of the first occurrence of `p` in `v[lo..hi]`.
pub fn find_seq_in(v: &[char], lo: usize, hi: usize, p: &[char]) -> (r: Option<usize>)
    requires
        lo <= hi <= v@.len(),
        p@.len() > 0,
    ensures
        match r {
            Some(i) => lo <= i && i + p@.len() <= hi && find_seq(
                v@.subrange(lo as int, hi as int),
                p@,
            ) == Some(i - lo),
            None => find_seq(v@.subrange(lo as int, hi as int), p@) is None,
        },
{
    let ghost s = v@.subrange(lo as int, hi as int);
    let mut i: usize = lo;
    while p.len() <= hi - i
        invariant
            lo <= i <= hi <= v@.len(),
            p@.len() > 0,
            s == v@.subrange(lo as int, hi as int),
            forall|k: int| 0 <= k < i - lo ==> !occurs_at(s, p@, k),
        decreases hi - i,
    {
        if matches_at(v, i, hi, p) {
            let ghost n = i - lo;
            assert(s.subrange(n, n + p@.len()) == v@.subrange(i as int, i + p@.len()));
            assert(occurs_at(s, p@, n));
            let ghost c = choose|c: int|
                occurs_at(s, p@, c) && forall|k: int| 0 <= k < c ==> !occurs_at(s, p@, k);
            assert(c == n) by {
                if c < n {
                    assert(!occurs_at(s, p@, c));
                } else if c > n {
                    assert(!occurs_at(s, p@, n));
                }
            }
            return Some(i);
        }
        proof {
            let n = i - lo;
            if occurs_at(s, p@, n) {
                assert(s.subrange(n, n + p@.len()) == v@.subrange(i as int, i + p@.len()));
            }
        }
        i = i + 1;
    }
    assert forall|k: int| !occurs_at(s, p@, k) by {
        if 0 <= k && k + p@.len() <= s.len() {
            assert(k < i - lo);
        }
    }
    None
}

// ---------------------------------------------------------------- splitting

/// `str::split` on a character: the pieces of `s` between occurrences of `c`
/// (always at least one piece).
pub open spec fn split_char(s: Seq<char>, c: char) -> Seq<Seq<char>>
    decreases s.len(),
{
    if s.len() == 0 {
        seq![Seq::empty()]
    } else {
        let init = split_char(s.drop_last(), c);
        if s.last() == c {
            init.push(Seq::empty())
        } else {
            init.update(init.len() - 1, init.last().push(s.last()))
        }
    }
}

/// `split_char` has at least one piece.
pub proof fn lemma_split_char_nonempty(s: Seq<char>, c: char)
    ensures
        split_char(s, c).len() >= 1,
    decreases s.len(),
{
    if s.len() > 0 {
        lemma_split_char_nonempty(s.drop_last(), c);
    }
}

/// The pieces of `v[lo..hi]` split at `c`, as index ranges into `v`.
pub fn split_char_in(v: &[char], lo: usize, hi: usize, c: char) -> (r: Vec<(usize, usize)>)
    requires
        lo <= hi <= v@.len(),
    ensures
        r@.len() == split_char(v@.subrange(lo as int, hi as int), c).len(),
        forall|k: int|
            0 <= k < r@.len() ==> {
                &&& lo <= (#[trigger] r@[k]).0 <= r@[k].1 <= hi
                &&& v@.subrange(r@[k].0 as int, r@[k].1 as int) == split_char(
                    v@.subrange(lo as int, hi as int),
                    c,
                )[k]
            },
{
    let mut r: Vec<(usize, usize)> = Vec::new();
    let mut start: usize = lo;
    let mut i: usize = lo;
    while i < hi
        invariant
            lo <= start <= i <= hi <= v@.len(),
            r@.len() + 1 == split_char(v@.subrange(lo as int, i as int), c).len(),
            forall|k: int|
                0 <= k < r@.len() ==> {
                    &&& lo <= (#[trigger] r@[k]).0 <= r@[k].1 <= i
                    &&& v@.subrange(r@[k].0 as int, r@[k].1 as int) == split_char(
                        v@.subrange(lo as int, i as int),
                        c,
                    )[k]
                },
            v@.subrange(start as int, i as int) == split_char(
                v@.subrange(lo as int, i as int),
                c,
            ).last(),
        decreases hi - i,
    {
        let ghost prev = v@.subrange(lo as int, i as int);
        let ghost next = v@.subrange(lo as int, i + 1);
        assert(next.drop_last() == prev);
        assert(next.last() == v@[i as int]);
        proof {
            lemma_split_char_nonempty(prev, c);
        }
        if v[i] == c {
            r.push((start, i));
            start = i + 1;
        } else {
            assert(v@.subrange(start as int, i + 1) == v@.subrange(start as int, i as int).push(
                v@[i as int],
            ));
        }
        i = i + 1;
    }
    r.push((start, hi));
    r
}

// ---------------------------------------------------------------- decimal numbers

/// An ASCII decimal digit.
pub open spec fn is_digit(c: char) -> bool {
    '0' <= c <= '9'
}

/// Every character of `d` is an ASCII decimal digit.
pub open spec fn all_digits(d: Seq<char>) -> bool {
    forall|i: int| 0 <= i < d.len() ==> is_digit(#[trigger] d[i])
}

/// The value of a string of ASCII decimal digits.
pub open spec fn digits_value(d: Seq<char>) -> nat
    decreases d.len(),
{
    if d.len() == 0 {
        0
    } else {
        digits_value(d.drop_last()) * 10 + (d.last() as nat - '0' as nat) as nat
    }
}

/// What `str::parse` gives for an unsigned integer, before the range check:
/// an optional `+` followed by one or more ASCII digits.
pub open spec fn unsigned_value(s: Seq<char>) -> Option<nat> {
    let d = if s.len() > 0 && s[0] == '+' {
        s.drop_first()
    } else {
        s
    };
    if d.len() > 0 && all_digits(d) {
        Some(digits_value(d))
    } else {
        None
    }
}

/// What `str::parse` gives for an unsigned integer type whose largest value
/// is `limit`.
pub open spec fn parse_unsigned(s: Seq<char>, limit: nat) -> Option<nat> {
    match unsigned_value(s) {
        Some(n) => if n <= limit {
            Some(n)
        } else {
            None
        },
        None => None,
    }
}

/// A longer run of digits never has a smaller value.
pub proof fn lemma_digits_value_prefix(d: Seq<char>, i: int)
    requires
        0 <= i <= d.len(),
        all_digits(d),
    ensures
        digits_value(d.take(i)) <= digits_value(d),
    decreases d.len(),
{
    if i < d.len() {
        assert(d.take(i) == d.drop_last().take(i));
        assert(all_digits(d.drop_last())) by {
            assert forall|k: int| 0 <= k < d.drop_last().len() implies is_digit(
                #[trigger] d.drop_last()[k],
            ) by {
                assert(d.drop_last()[k] == d[k]);
            }
        }
        lemma_digits_value_prefix(d.drop_last(), i);
    } else {
        assert(d.take(i) == d);
    }
}

/// Parses `v[lo..hi]` as `str::parse` does for an unsigned integer type
/// whose largest value is `limit`.
pub fn parse_unsigned_in(v: &[char], lo: usize, hi: usize, limit: u64) -> (r: Option<u64>)
    requires
        lo <= hi <= v@.len(),
    ensures
        match r {
            Some(n) => parse_unsigned(v@.subrange(lo as int, hi as int), limit as nat) == Some(
                n as nat,
            ),
            None => parse_unsigned(v@.subrange(lo as int, hi as int), limit as nat) is None,
        },
{
    let ghost s = v@.subrange(lo as int, hi as int);
    let start: usize = if lo < hi && v[lo] == '+' {
        lo + 1
    } else {
        lo
    };
    let ghost d = v@.subrange(start as int, hi as int);
    assert(d == (if s.len() > 0 && s[0] == '+' {
        s.drop_first()
    } else {
        s
    }));
    if start == hi {
        assert(unsigned_value(s) is None);
        return None;
    }
    // every character must be a digit
    let mut i: usize = start;
    while i < hi
        invariant
            start <= i <= hi <= v@.len(),
            d == v@.subrange(start as int, hi as int),
            s == v@.subrange(lo as int, hi as int),
            d == (if s.len() > 0 && s[0] == '+' {
                s.drop_first()
            } else {
                s
            }),
            forall|k: int| 0 <= k < i - start ==> is_digit(#[trigger] d[k]),
        decreases hi - i,
    {
        if !(v[i] >= '0' && v[i] <= '9') {
            assert(!is_digit(d[i - start]));
            assert(unsigned_value(s) is None);
            return None;
        }
        i = i + 1;
    }
    assert(all_digits(d));
    let mut acc: u64 = 0;
    let mut i: usize = start;
    while i < hi
        invariant
            start <= i <= hi <= v@.len(),
            d == v@.subrange(start as int, hi as int),
            s == v@.subrange(lo as int, hi as int),
            d == (if s.len() > 0 && s[0] == '+' {
                s.drop_first()
            } else {
                s
            }),
            all_digits(d),
            acc as nat == digits_value(d.take(i - start)),
            acc <= limit,
        decreases hi - i,
    {
        let c: char = v[i];
        assert(is_digit(d[i - start]));
        assert(c as u32 >= '0' as u32);
        let digit: u64 = ((c as u32) - ('0' as u32)) as u64;
        assert(d.take(i - start + 1).drop_last() == d.take(i - start));
        assert(d.take(i - start + 1).last() == d[i - start]);
        assert(is_digit(d[i - start]));
        if digit > limit || acc > (limit - digit) / 10 {
            proof {
                if digit <= limit {
                    assert(acc * 10 + digit > limit) by (nonlinear_arith)
                        requires
                            acc > (limit - digit) / 10,
                            digit <= limit,
                    ;
                }
                lemma_digits_value_prefix(d, i - start + 1);
                assert(digits_value(d.take(i - start + 1)) == acc * 10 + digit);
                assert(unsigned_value(s) == Some(digits_value(d)));
            }
            return None;
        }
        acc = acc * 10 + digit;
        i = i + 1;
    }
    assert(d.take(i - start) == d);
    Some(acc)
}

/// The decimal digits of `n`, without leading zeros.
pub open spec fn decimal(n: nat) -> Seq<char>
    decreases n,
{
    if n < 10 {
        seq![digit_char(n)]
    } else {
        decimal(n / 10).push(digit_char(n % 10))
    }
}

/// The ASCII digit for `d < 10`.
pub open spec fn digit_char(d: nat) -> char {
    ('0' as nat + d) as char
}

/// The decimal digits of `n`, padded with leading zeros to at least
/// `width` characters (the `{:0width}` format).
pub open spec fn zero_padded(n: nat, width: nat) -> Seq<char> {
    let digits = decimal(n);
    if digits.len() < width {
        Seq::new((width - digits.len()) as nat, |i: int| '0') + digits
    } else {
        digits
    }
}

/// Appends the decimal digits of `n` to `s`.
pub fn push_decimal(s: &mut String, n: u64)
    ensures
        final(s)@ == old(s)@ + decimal(n as nat),
    decreases n,
{
    if n >= 10 {
        push_decimal(s, n / 10);
    }
    let d: u8 = (n % 10) as u8;
    let c: char = (('0' as u8) + d) as char;
    assert(c == digit_char((n % 10) as nat));
    s.push(c);
}

/// Appends `zero_padded(n, width)` to `s`.
pub fn push_zero_padded(s: &mut String, n: u64, width: usize)
    ensures
        final(s)@ == old(s)@ + zero_padded(n as nat, width as nat),
{
    let mut digits = String::new();
    push_decimal(&mut digits, n);
    let dv = chars_of(digits.as_str());
    let ghost start = s@;
    let mut k: usize = dv.len();
    while k < width
        invariant
            dv@ == decimal(n as nat),
            dv@.len() <= k,
            k <= width || k == dv@.len(),
            s@ == start + Seq::new((k - dv@.len()) as nat, |i: int| '0'),
        decreases width - k,
    {
        s.push('0');
        assert(Seq::new((k + 1 - dv@.len()) as nat, |i: int| '0') == Seq::new(
            (k - dv@.len()) as nat,
            |i: int| '0',
        ).push('0'));
        k = k + 1;
    }
    push_chars(s, &dv, 0, dv.len());
    assert(dv@.subrange(0, dv@.len() as int) == dv@);
    if dv.len() >= width {
        assert(Seq::new((k - dv@.len()) as nat, |i: int| '0') == Seq::<char>::empty());
        assert(s@ == start + dv@);
    }
}

// ---------------------------------------------------------------- comparing

/// Whether `v[lo..hi]` holds exactly the characters of `w`.
pub fn range_eq(v: &[char], lo: usize, hi: usize, w: &[char]) -> (b: bool)
    requires
        lo <= hi <= v@.len(),
    ensures
        b == (v@.subrange(lo as int, hi as int) == w@),
{
    if hi - lo != w.len() {
        return false;
    }
    let mut k: usize = 0;
    while k < w.len()
        invariant
            hi - lo == w@.len(),
            lo <= hi <= v@.len(),
            k <= w@.len(),
            forall|m: int| 0 <= m < k ==> v@[lo + m] == w@[m],
        decreases w.len() - k,
    {
        if v[lo + k] != w[k] {
            assert(v@.subrange(lo as int, hi as int)[k as int] != w@[k as int]);
            return false;
        }
        k = k + 1;
    }
    assert(v@.subrange(lo as int, hi as int) == w@);
    true
}

/// Whether `v[lo..hi]` holds exactly the characters of `w`.
pub fn range_eq_str(v: &[char], lo: usize, hi: usize, w: &str) -> (b: bool)
    requires
        lo <= hi <= v@.len(),
    ensures
        b == (v@.subrange(lo as int, hi as int) == w@),
{
    let wv = chars_of(w);
    range_eq(v, lo, hi, &wv)
}

/// Whether `s` begins with `p`.
pub open spec fn starts_with(s: Seq<char>, p: Seq<char>) -> bool {
    p.len() <= s.len() && s.take(p.len() as int) == p
}

/// Whether `v[lo..hi]` begins with the characters of `p`.
pub fn range_starts_with(v: &[char], lo: usize, hi: usize, p: &str) -> (b: bool)
    requires
        lo <= hi <= v@.len(),
    ensures
        b == starts_with(v@.subrange(lo as int, hi as int), p@),
{
    let pv = chars_of(p);
    if pv.len() > hi - lo {
        return false;
    }
    let b = range_eq(v, lo, lo + pv.len(), &pv);
    assert(v@.subrange(lo as int, hi as int).take(pv@.len() as int) == v@.subrange(
        lo as int,
        lo + pv@.len(),
    ));
    b
}

// ---------------------------------------------------------------- lines

/// `s` without one trailing carriage return.
pub open spec fn strip_cr(s: Seq<char>) -> Seq<char> {
    if s.len() > 0 && s.last() == '\r' {
        s.drop_last()
    } else {
        s
    }
}

/// `str::lines`: the lines of `s`, split at `\n`; a line that ended in
/// `\r\n` loses the `\r`; a final line ending adds no empty line.
pub open spec fn lines_of(s: Seq<char>) -> Seq<Seq<char>> {
    let pieces = split_char(s, '\n');
    let n = pieces.len() as int;
    if pieces.last().len() == 0 {
        Seq::new((n - 1) as nat, |i: int| strip_cr(pieces[i]))
    } else {
        Seq::new(n as nat, |i: int| if i < n - 1 { strip_cr(pieces[i]) } else { pieces[i] })
    }
}

/// The lines of `v` (as `lines_of`), as index ranges into `v`.
pub fn lines_in(v: &[char]) -> (r: Vec<(usize, usize)>)
    ensures
        r@.len() == lines_of(v@).len(),
        forall|k: int|
            0 <= k < r@.len() ==> {
                &&& (#[trigger] r@[k]).0 <= r@[k].1 <= v@.len()
                &&& v@.subrange(r@[k].0 as int, r@[k].1 as int) == lines_of(v@)[k]
            },
{
    let pieces = split_char_in(v, 0, v.len(), '\n');
    assert(v@.subrange(0, v@.len() as int) == v@);
    let ghost ps = split_char(v@, '\n');
    proof {
        lemma_split_char_nonempty(v@, '\n');
    }
    let n = pieces.len();
    let last = pieces[n - 1];
    let count = if last.0 == last.1 {
        n - 1
    } else {
        n
    };
    assert(ps.last() == ps[n - 1]);
    assert((last.0 == last.1) == (ps.last().len() == 0));
    let mut r: Vec<(usize, usize)> = Vec::new();
    let mut i: usize = 0;
    while i < count
        invariant
            i <= count <= n,
            n == pieces@.len(),
            n == ps.len(),
            ps == split_char(v@, '\n'),
            count == lines_of(v@).len(),
            count == (if ps.last().len() == 0 { n - 1 } else { n as int }),
            forall|k: int|
                0 <= k < n ==> {
                    &&& (#[trigger] pieces@[k]).0 <= pieces@[k].1 <= v@.len()
                    &&& v@.subrange(pieces@[k].0 as int, pieces@[k].1 as int) == ps[k]
                },
            r@.len() == i,
            forall|k: int|
                0 <= k < i ==> {
                    &&& (#[trigger] r@[k]).0 <= r@[k].1 <= v@.len()
                    &&& v@.subrange(r@[k].0 as int, r@[k].1 as int) == lines_of(v@)[k]
                },
        decreases count - i,
    {
        let (lo, hi) = pieces[i];
        let piece_hi = if i + 1 < n && lo < hi && v[hi - 1] == '\r' {
            hi - 1
        } else {
            hi
        };
        proof {
            let p = ps[i as int];
            assert(p == v@.subrange(lo as int, hi as int));
            if lo < hi {
                assert(p.last() == v@[hi - 1]);
            }
            if i + 1 < n && lo < hi && v@[hi - 1] == '\r' {
                assert(p.drop_last() == v@.subrange(lo as int, hi - 1));
            }
        }
        r.push((lo, piece_hi));
        i = i + 1;
    }
    r
}

// ---------------------------------------------------------------- quoting

/// Appends `"`, the characters `v[lo..hi]` and `"` to `s`.
pub fn push_quoted(s: &mut String, v: &[char], lo: usize, hi: usize)
    requires
        lo <= hi <= v@.len(),
    ensures
        final(s)@ == old(s)@ + "\""@ + v@.subrange(lo as int, hi as int) + "\""@,
{
    push_str(s, "\"");
    push_chars(s, v, lo, hi);
    push_str(s, "\"");
}

/// Appends `"`, the characters of `t` and `"` to `s`.
pub fn push_quoted_str(s: &mut String, t: &str)
    ensures
        final(s)@ == old(s)@ + "\""@ + t@ + "\""@,
{
    push_str(s, "\"");
    push_str(s, t);
    push_str(s, "\"");
}

// ---------------------------------------------------------------- prefixes and words

/// `str::trim_start_matches(c)`: `s` without any copies of `c` at its start.
pub open spec fn skip_leading(s: Seq<char>, c: char) -> Seq<char>
    decreases s.len(),
{
    if s.len() > 0 && s[0] == c {
        skip_leading(s.drop_first(), c)
    } else {
        s
    }
}

/// Start of `skip_leading(v[lo..hi], c)`, as an index into `v`.
pub fn skip_leading_index(v: &[char], lo: usize, hi: usize, c: char) -> (i: usize)
    requires
        lo <= hi <= v@.len(),
    ensures
        lo <= i <= hi,
        v@.subrange(i as int, hi as int) == skip_leading(v@.subrange(lo as int, hi as int), c),
{
    let mut i: usize = lo;
    while i < hi && v[i] == c
        invariant
            lo <= i <= hi <= v@.len(),
            skip_leading(v@.subrange(lo as int, hi as int), c) == skip_leading(
                v@.subrange(i as int, hi as int),
                c,
            ),
        decreases hi - i,
    {
        assert(v@.subrange(i as int, hi as int).drop_first() == v@.subrange(i + 1, hi as int));
        i = i + 1;
    }
    i
}

/// Index of the first whitespace character of `s`, or its length.
pub open spec fn first_ws_index(s: Seq<char>) -> int
    decreases s.len(),
{
    if s.len() == 0 {
        0
    } else if char_is_whitespace(s[0]) {
        0
    } else {
        1 + first_ws_index(s.drop_first())
    }
}

/// Index into `v` of the first whitespace character of `v[lo..hi]`, or `hi`.
pub fn first_ws_index_in(v: &[char], lo: usize, hi: usize) -> (i: usize)
    requires
        lo <= hi <= v@.len(),
    ensures
        lo <= i <= hi,
        i - lo == first_ws_index(v@.subrange(lo as int, hi as int)),
{
    let mut i: usize = lo;
    while i < hi && !is_whitespace(v[i])
        invariant
            lo <= i <= hi <= v@.len(),
            first_ws_index(v@.subrange(lo as int, hi as int)) == (i - lo) + first_ws_index(
                v@.subrange(i as int, hi as int),
            ),
        decreases hi - i,
    {
        assert(v@.subrange(i as int, hi as int).drop_first() == v@.subrange(i + 1, hi as int));
        i = i + 1;
    }
    i
}

// ---------------------------------------------------------------- facts about decimal text

/// The digit written for `d < 10` is an ASCII digit of value `d`.
pub proof fn lemma_digit_char(d: nat)
    requires
        d < 10,
    ensures
        is_digit(digit_char(d)),
        (digit_char(d) as nat - '0' as nat) as nat == d,
        digit_char(d) as nat == '0' as nat + d,
{
}

/// Decimal digits are ASCII digits, read back as `n`.
pub proof fn lemma_decimal(n: nat)
    ensures
        decimal(n).len() >= 1,
        all_digits(decimal(n)),
        digits_value(decimal(n)) == n,
        n < 10 ==> decimal(n).len() == 1,
        n < 100 ==> decimal(n).len() <= 2,
        n < 1000 ==> decimal(n).len() <= 3,
    decreases n,
{
    if n < 10 {
        lemma_digit_char(n);
        let d = decimal(n);
        assert(d.drop_last() == Seq::<char>::empty());
        assert(d.last() == digit_char(n));
        assert(digits_value(d) == digits_value(d.drop_last()) * 10 + (d.last() as nat
            - '0' as nat) as nat);
    } else {
        lemma_decimal(n / 10);
        lemma_digit_char(n % 10);
        let d = decimal(n);
        assert(d.drop_last() == decimal(n / 10));
        assert(d.last() == digit_char(n % 10));
        assert(digits_value(d) == (n / 10) * 10 + n % 10);
        assert forall|i: int| 0 <= i < d.len() implies is_digit(#[trigger] d[i]) by {
            if i < d.len() - 1 {
                assert(d[i] == decimal(n / 10)[i]);
            }
        }
    }
}

/// A run of `k` zeros.
pub open spec fn zeros(k: nat) -> Seq<char> {
    Seq::new(k, |i: int| '0')
}

/// Leading zeros do not change the value of a run of digits.
pub proof fn lemma_leading_zeros_value(k: nat, d: Seq<char>)
    requires
        all_digits(d),
    ensures
        all_digits(zeros(k) + d),
        digits_value(zeros(k) + d) == digits_value(d),
    decreases d.len(),
{
    let z = zeros(k);
    assert forall|i: int| 0 <= i < (z + d).len() implies is_digit(#[trigger] (z + d)[i]) by {
        if i >= z.len() {
            assert((z + d)[i] == d[i - z.len()]);
        }
    }
    if d.len() == 0 {
        assert(z + d == z);
        lemma_zeros_value(k);
    } else {
        assert((z + d).drop_last() == z + d.drop_last());
        assert(all_digits(d.drop_last())) by {
            assert forall|i: int| 0 <= i < d.drop_last().len() implies is_digit(
                #[trigger] d.drop_last()[i],
            ) by {
                assert(d.drop_last()[i] == d[i]);
            }
        }
        lemma_leading_zeros_value(k, d.drop_last());
    }
}

/// A run of zeros is worth 0.
pub proof fn lemma_zeros_value(k: nat)
    ensures
        digits_value(zeros(k)) == 0,
    decreases k,
{
    if k > 0 {
        assert(zeros(k).drop_last() == zeros((k - 1) as nat));
        lemma_zeros_value((k - 1) as nat);
    }
}

/// Zero-padded decimal text is a run of ASCII digits worth `n`, exactly
/// `width` long when `n` has no more digits than that.
pub proof fn lemma_zero_padded(n: nat, width: nat)
    ensures
        zero_padded(n, width).len() >= 1,
        all_digits(zero_padded(n, width)),
        digits_value(zero_padded(n, width)) == n,
        zero_padded(n, width).len() >= width,
        decimal(n).len() <= width ==> zero_padded(n, width).len() == width,
{
    lemma_decimal(n);
    let digits = decimal(n);
    if digits.len() < width {
        let k = (width - digits.len()) as nat;
        assert(Seq::new(k, |i: int| '0') == zeros(k));
        lemma_leading_zeros_value(k, digits);
    }
}

/// The value of a run of digits, read as an unsigned integer.
pub proof fn lemma_digits_parse(d: Seq<char>, limit: nat)
    requires
        d.len() >= 1,
        all_digits(d),
        digits_value(d) <= limit,
    ensures
        parse_unsigned(d, limit) == Some(digits_value(d)),
{
    assert(is_digit(d[0]));
}

/// Splitting text that holds no separator gives the text itself.
pub proof fn lemma_split_char_none(s: Seq<char>, c: char)
    requires
        forall|i: int| 0 <= i < s.len() ==> s[i] != c,
    ensures
        split_char(s, c) == seq![s],
    decreases s.len(),
{
    if s.len() > 0 {
        assert forall|i: int| 0 <= i < s.drop_last().len() implies s.drop_last()[i] != c by {
            assert(s.drop_last()[i] == s[i]);
        }
        lemma_split_char_none(s.drop_last(), c);
        assert(s.last() != c);
        assert(s.drop_last().push(s.last()) == s);
        assert(seq![s.drop_last()].update(0, s.drop_last().push(s.last())) == seq![s]);
    } else {
        assert(s == Seq::<char>::empty());
    }
}

/// Splitting `a`, a separator, then `b` (which holds no separator) gives the
/// pieces of `a` followed by `b`.
pub proof fn lemma_split_char_append(a: Seq<char>, b: Seq<char>, c: char)
    requires
        forall|i: int| 0 <= i < b.len() ==> b[i] != c,
    ensures
        split_char(a + seq![c] + b, c) == split_char(a, c).push(b),
    decreases b.len(),
{
    let s = a + seq![c] + b;
    if b.len() == 0 {
        assert(s == a + seq![c]);
        assert(s.drop_last() == a);
        assert(b == Seq::<char>::empty());
    } else {
        assert(s.drop_last() == a + seq![c] + b.drop_last());
        assert forall|i: int| 0 <= i < b.drop_last().len() implies b.drop_last()[i] != c by {
            assert(b.drop_last()[i] == b[i]);
        }
        lemma_split_char_append(a, b.drop_last(), c);
        lemma_split_char_nonempty(a, c);
        let init = split_char(s.drop_last(), c);
        assert(init == split_char(a, c).push(b.drop_last()));
        assert(s.last() == b.last());
        assert(init.last().push(s.last()) == b);
        assert(init.update(init.len() - 1, b) == split_char(a, c).push(b));
    }
}

// ---------------------------------------------------------------- where trimming cuts

/// The first index at or after `from` that is not whitespace, or the length.
proof fn lemma_scan_forward(s: Seq<char>, from: int) -> (r: int)
    requires
        0 <= from <= s.len(),
    ensures
        from <= r <= s.len(),
        forall|k: int| from <= k < r ==> char_is_whitespace(#[trigger] s[k]),
        r < s.len() ==> !char_is_whitespace(s[r]),
    decreases s.len() - from,
{
    if from == s.len() || !char_is_whitespace(s[from]) {
        from
    } else {
        lemma_scan_forward(s, from + 1)
    }
}

/// One past the last index before `to` that is not whitespace, or 0.
proof fn lemma_scan_backward(s: Seq<char>, to: int) -> (r: int)
    requires
        0 <= to <= s.len(),
    ensures
        0 <= r <= to,
        forall|k: int| r <= k < to ==> char_is_whitespace(#[trigger] s[k]),
        r > 0 ==> !char_is_whitespace(s[r - 1]),
    decreases to,
{
    if to == 0 || !char_is_whitespace(s[to - 1]) {
        to
    } else {
        lemma_scan_backward(s, to - 1)
    }
}

/// Where `trim` cuts `s`: it keeps `s[p..q]`, where `p` is the first
/// non-whitespace index (or the length) and `q` is one past the last
/// (or `p` when there is none).
pub proof fn lemma_trim_bounds(s: Seq<char>) -> (r: (int, int))
    ensures
        0 <= r.0 <= r.1 <= s.len(),
        trim(s) == s.subrange(r.0, r.1),
        forall|k: int| 0 <= k < r.0 ==> char_is_whitespace(#[trigger] s[k]),
        r.0 < s.len() ==> !char_is_whitespace(s[r.0]),
        forall|k: int| r.1 <= k < s.len() ==> char_is_whitespace(#[trigger] s[k]),
        r.1 > r.0 ==> !char_is_whitespace(s[r.1 - 1]),
        r.0 == s.len() ==> r.1 == r.0,
{
    reveal(ws_prefix_len);
    reveal(ws_trimmed_end);
    let p = lemma_scan_forward(s, 0);
    let b = lemma_scan_backward(s, s.len() as int);
    if p < s.len() {
        let c = choose|c: int|
            0 <= c < s.len() && !char_is_whitespace(s[c]) && forall|k: int|
                0 <= k < c ==> char_is_whitespace(#[trigger] s[k]);
        assert(c == p) by {
            if c < p {
                assert(char_is_whitespace(s[c]));
            } else if c > p {
                assert(char_is_whitespace(s[p]));
            }
        }
    } else {
        assert(!exists|i: int| 0 <= i < s.len() && !char_is_whitespace(#[trigger] s[i]));
    }
    assert(ws_prefix_len(s) == p);
    let t = s.skip(p);
    assert(trim_start(s) == t);
    if p < s.len() {
        assert(b > p) by {
            if b <= p {
                assert(char_is_whitespace(s[p]));
            }
        }
        let j = b - 1 - p;
        assert(!char_is_whitespace(t[j]));
        let c = choose|c: int|
            0 <= c < t.len() && !char_is_whitespace(t[c]) && forall|k: int|
                c < k < t.len() ==> char_is_whitespace(#[trigger] t[k]);
        assert(c == j) by {
            if c < j {
                assert(char_is_whitespace(t[j]));
            } else if c > j {
                assert(t[c] == s[c + p]);
                assert(char_is_whitespace(s[c + p]));
            }
        }
        assert(ws_trimmed_end(t) == b - p);
        assert(trim_end(t) == s.subrange(p, b));
        (p, b)
    } else {
        assert(!exists|i: int| 0 <= i < t.len() && !char_is_whitespace(#[trigger] t[i]));
        assert(ws_trimmed_end(t) == 0);
        assert(trim_end(t) == s.subrange(p, p));
        (p, p)
    }
}

/// `trim` cuts two texts of the same length at the same places when their
/// characters are whitespace at the same positions.
pub proof fn lemma_trim_same_shape(s: Seq<char>, s2: Seq<char>) -> (r: (int, int))
    requires
        s.len() == s2.len(),
        forall|k: int| 0 <= k < s.len() ==> char_is_whitespace(#[trigger] s[k]) == char_is_whitespace(s2[k]),
    ensures
        0 <= r.0 <= r.1 <= s.len(),
        trim(s) == s.subrange(r.0, r.1),
        trim(s2) == s2.subrange(r.0, r.1),
        forall|k: int| 0 <= k < r.0 ==> char_is_whitespace(#[trigger] s[k]),
        forall|k: int| r.1 <= k < s.len() ==> char_is_whitespace(#[trigger] s[k]),
{
    let r1 = lemma_trim_bounds(s);
    let r2 = lemma_trim_bounds(s2);
    assert(r1.0 == r2.0) by {
        if r1.0 < r2.0 {
            assert(char_is_whitespace(s2[r1.0]));
        } else if r2.0 < r1.0 {
            assert(char_is_whitespace(s[r2.0]));
        }
    }
    assert(r1.1 == r2.1) by {
        if r1.1 < r2.1 {
            assert(char_is_whitespace(s[r2.1 - 1]));
        } else if r2.1 < r1.1 {
            assert(char_is_whitespace(s2[r1.1 - 1]));
        }
    }
    r1
}

} // verus!
