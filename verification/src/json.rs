//! Escaping text for JSON string literals.
use vstd::prelude::*;

use crate::text::chars_of;

verus! {

/// The lowercase hexadecimal digit for `d < 16`.
pub open spec fn hex_digit(d: nat) -> char {
    if d < 10 {
        ('0' as nat + d) as char
    } else {
        ('a' as nat + (d - 10)) as char
    }
}

/// How one character is written inside a JSON string literal: quote and
/// backslash escaped, newline, carriage return and tab as `\n`, `\r`, `\t`,
/// other control characters as `\u00XX`, everything else as itself.
pub open spec fn escaped_char(c: char) -> Seq<char> {
    let n = c as u32;
    if c == '"' {
        seq!['\\', '"']
    } else if c == '\\' {
        seq!['\\', '\\']
    } else if c == '\n' {
        seq!['\\', 'n']
    } else if c == '\r' {
        seq!['\\', 'r']
    } else if c == '\t' {
        seq!['\\', 't']
    } else if n < 0x20 {
        seq!['\\', 'u', '0', '0', hex_digit((n / 16) as nat), hex_digit((n % 16) as nat)]
    } else {
        seq![c]
    }
}

/// A text written inside a JSON string literal, character by character.
pub open spec fn json_escaped(s: Seq<char>) -> Seq<char>
    decreases s.len(),
{
    if s.len() == 0 {
        seq![]
    } else {
        json_escaped(s.drop_last()) + escaped_char(s.last())
    }
}

/// The hexadecimal digit for `d < 16`.
fn hex_char(d: u32) -> (c: char)
    requires
        d < 16,
    ensures
        c == hex_digit(d as nat),
{
    if d < 10 {
        ((('0' as u32) + d) as u8) as char
    } else {
        ((('a' as u32) + (d - 10)) as u8) as char
    }
}

/// Escapes a string for use inside a JSON string literal. Subtitle text and
/// file paths are the only untrusted input that ends up in JSON output, and
/// neither is expected to contain anything past the control-character range.
pub fn json_escape(s: &str) -> (out: String)
    ensures
        out@ == json_escaped(s@),
{
    let v = chars_of(s);
    let mut out = String::new();
    let mut i: usize = 0;
    assert(v@.take(0) == Seq::<char>::empty());
    while i < v.len()
        invariant
            i <= v@.len(),
            out@ == json_escaped(v@.take(i as int)),
        decreases v.len() - i,
    {
        let c = v[i];
        assert(v@.take(i + 1).drop_last() == v@.take(i as int));
        assert(v@.take(i + 1).last() == c);
        let ghost before = out@;
        if c == '"' {
            out.push('\\');
            out.push('"');
        } else if c == '\\' {
            out.push('\\');
            out.push('\\');
        } else if c == '\n' {
            out.push('\\');
            out.push('n');
        } else if c == '\r' {
            out.push('\\');
            out.push('r');
        } else if c == '\t' {
            out.push('\\');
            out.push('t');
        } else if (c as u32) < 0x20 {
            let n = c as u32;
            out.push('\\');
            out.push('u');
            out.push('0');
            out.push('0');
            out.push(hex_char(n / 16));
            out.push(hex_char(n % 16));
        } else {
            out.push(c);
        }
        assert(out@ == before + escaped_char(c));
        i = i + 1;
    }
    assert(v@.take(i as int) == v@);
    out
}

// ---------------------------------------------------------------- reading escaped text back

/// The value of a hexadecimal digit.
pub open spec fn hex_value(c: char) -> Option<nat> {
    if '0' <= c <= '9' {
        Some((c as nat - '0' as nat) as nat)
    } else if 'a' <= c <= 'f' {
        Some((c as nat - 'a' as nat + 10) as nat)
    } else if 'A' <= c <= 'F' {
        Some((c as nat - 'A' as nat + 10) as nat)
    } else {
        None
    }
}

/// `c` followed by the text `rest` reads as, if `rest` reads as anything.
pub open spec fn prepend(c: char, rest: Option<Seq<char>>) -> Option<Seq<char>> {
    match rest {
        Some(r) => Some(seq![c] + r),
        None => None,
    }
}

/// The character a two-character JSON escape `\x` stands for.
pub open spec fn short_escape(x: char) -> Option<char> {
    if x == '"' {
        Some('"')
    } else if x == '\\' {
        Some('\\')
    } else if x == '/' {
        Some('/')
    } else if x == 'b' {
        Some('\x08')
    } else if x == 'f' {
        Some('\x0c')
    } else if x == 'n' {
        Some('\n')
    } else if x == 'r' {
        Some('\r')
    } else if x == 't' {
        Some('\t')
    } else {
        None
    }
}

/// The text that the body `t` of a JSON string literal stands for, read by
/// JSON's escape rules (`\uXXXX` taken for characters outside the surrogate
/// range), or `None` when `t` is not a valid body: a bare `"` or control
/// character, or a broken escape.
pub open spec fn json_unescaped(t: Seq<char>) -> Option<Seq<char>>
    decreases t.len(),
{
    if t.len() == 0 {
        Some(seq![])
    } else if t[0] == '\\' {
        if t.len() >= 6 && t[1] == 'u' {
            match (hex_value(t[2]), hex_value(t[3]), hex_value(t[4]), hex_value(t[5])) {
                (Some(a), Some(b), Some(c), Some(d)) => {
                    let v = ((a * 16 + b) * 16 + c) * 16 + d;
                    if v < 0xD800 || v > 0xDFFF {
                        prepend(v as char, json_unescaped(t.skip(6)))
                    } else {
                        None
                    }
                },
                _ => None,
            }
        } else if t.len() >= 2 && t[1] != 'u' {
            match short_escape(t[1]) {
                Some(c) => prepend(c, json_unescaped(t.skip(2))),
                None => None,
            }
        } else {
            None
        }
    } else if t[0] == '"' || (t[0] as u32) < 0x20 {
        None
    } else {
        prepend(t[0], json_unescaped(t.skip(1)))
    }
}

/// Escaping works character by character from the front too.
proof fn lemma_escaped_front(s: Seq<char>)
    requires
        s.len() > 0,
    ensures
        json_escaped(s) == escaped_char(s[0]) + json_escaped(s.drop_first()),
    decreases s.len(),
{
    if s.len() == 1 {
        assert(s.drop_last() == Seq::<char>::empty());
        assert(s.drop_first() == Seq::<char>::empty());
        assert(s.last() == s[0]);
    } else {
        lemma_escaped_front(s.drop_last());
        assert(s.drop_last().drop_first() == s.drop_first().drop_last());
        assert(s.drop_first().last() == s.last());
        assert(s.drop_last()[0] == s[0]);
    }
}

/// An escaped character reads back as itself.
proof fn lemma_unescape_char(c: char, rest: Seq<char>)
    ensures
        json_unescaped(escaped_char(c) + rest) == prepend(c, json_unescaped(rest)),
{
    let t = escaped_char(c) + rest;
    let n = c as u32;
    if c == '"' || c == '\\' || c == '\n' || c == '\r' || c == '\t' {
        assert(t.skip(2) == rest);
    } else if n < 0x20 {
        let hi = (n / 16) as nat;
        let lo = (n % 16) as nat;
        assert(t[2] == '0' && t[3] == '0' && t[4] == hex_digit(hi) && t[5] == hex_digit(lo));
        assert(hex_value(hex_digit(hi)) == Some(hi));
        assert(hex_value(hex_digit(lo)) == Some(lo));
        assert(((0 * 16 + 0) * 16 + hi) * 16 + lo == n);
        assert((n as nat) as char == c);
        assert(t.skip(6) == rest);
    } else {
        assert(t[0] == c);
        assert(t.skip(1) == rest);
    }
}

/// What escaping is for: the escaped text, read as the body of a JSON string
/// literal, stands for exactly the original text.
pub proof fn lemma_escape_reads_back(s: Seq<char>)
    ensures
        json_unescaped(json_escaped(s)) == Some(s),
    decreases s.len(),
{
    if s.len() > 0 {
        lemma_escaped_front(s);
        lemma_escape_reads_back(s.drop_first());
        lemma_unescape_char(s[0], json_escaped(s.drop_first()));
        assert(seq![s[0]] + s.drop_first() == s);
    }
}

} // verus!
