//! The printed forms of a run's findings: one text line per finding, or a
//! JSON array of objects.
use vstd::prelude::*;

use crate::json::{json_escape, json_escaped};
use crate::linter::{findings_view, severity_text, Finding, FindingModel};
use crate::text::{decimal, push_decimal, push_str};

verus! {

/// `path:line: severity: message` and a line ending, for one finding.
pub open spec fn text_line(path: Seq<char>, f: FindingModel) -> Seq<char> {
    path + ":"@ + decimal(f.line as nat) + ": "@ + severity_text(f.severity) + ": "@ + f.message
        + "\n"@
}

/// The text report of the first `n` findings.
pub open spec fn text_lines(path: Seq<char>, fs: Seq<FindingModel>, n: nat) -> Seq<char>
    decreases n,
{
    if n == 0 {
        seq![]
    } else {
        text_lines(path, fs, (n - 1) as nat) + text_line(path, fs[n - 1])
    }
}

/// The text report: one line per finding, in order.
pub open spec fn text_report(path: Seq<char>, fs: Seq<FindingModel>) -> Seq<char> {
    text_lines(path, fs, fs.len())
}

/// One finding as a JSON object with the file, line, severity and message.
pub open spec fn json_object(path: Seq<char>, f: FindingModel) -> Seq<char> {
    "  {\"file\": \""@ + json_escaped(path) + "\", \"line\": "@ + decimal(f.line as nat)
        + ", \"severity\": \""@ + severity_text(f.severity) + "\", \"message\": \""@
        + json_escaped(f.message) + "\"}"@
}

/// One finding as a line of the JSON array: its object, followed by a comma
/// unless it is the last.
pub open spec fn json_entry(path: Seq<char>, f: FindingModel, last: bool) -> Seq<char> {
    json_object(path, f) + (if last {
        Seq::empty()
    } else {
        ","@
    }) + "\n"@
}

/// The JSON lines of the first `n` of the findings `fs`.
pub open spec fn json_entries(path: Seq<char>, fs: Seq<FindingModel>, n: nat) -> Seq<char>
    decreases n,
{
    if n == 0 {
        seq![]
    } else {
        json_entries(path, fs, (n - 1) as nat) + json_entry(path, fs[n - 1], n == fs.len())
    }
}

/// The JSON report: `[`, one object per finding, `]`, each on its own line.
pub open spec fn json_report(path: Seq<char>, fs: Seq<FindingModel>) -> Seq<char> {
    "[\n"@ + json_entries(path, fs, fs.len()) + "]\n"@
}

/// Appends `text_line(path, f)` to `s`.
fn push_text_line(s: &mut String, path: &str, f: &Finding)
    ensures
        final(s)@ == old(s)@ + text_line(path@, f@),
{
    push_str(s, path);
    push_str(s, ":");
    push_decimal(s, f.line as u64);
    push_str(s, ": ");
    push_str(s, f.severity.to_string().as_str());
    push_str(s, ": ");
    push_str(s, f.message.as_str());
    push_str(s, "\n");
}

/// The findings as text, one `path:line: severity: message` line each.
pub fn render_text(path: &str, findings: &Vec<Finding>) -> (s: String)
    ensures
        s@ == text_report(path@, findings_view(findings@)),
{
    let ghost fs = findings_view(findings@);
    let mut s = String::new();
    let mut i: usize = 0;
    while i < findings.len()
        invariant
            i <= findings@.len(),
            fs == findings_view(findings@),
            s@ == text_lines(path@, fs, i as nat),
        decreases findings.len() - i,
    {
        push_text_line(&mut s, path, &findings[i]);
        assert(fs[i as int] == findings@[i as int]@);
        i = i + 1;
    }
    s
}

/// Appends `json_entry(path, f, last)` to `s`.
fn push_json_entry(s: &mut String, path: &str, f: &Finding, last: bool)
    ensures
        final(s)@ == old(s)@ + json_entry(path@, f@, last),
{
    push_str(s, "  {\"file\": \"");
    push_str(s, json_escape(path).as_str());
    push_str(s, "\", \"line\": ");
    push_decimal(s, f.line as u64);
    push_str(s, ", \"severity\": \"");
    push_str(s, f.severity.to_string().as_str());
    push_str(s, "\", \"message\": \"");
    push_str(s, json_escape(f.message.as_str()).as_str());
    push_str(s, "\"}");
    if !last {
        push_str(s, ",");
    } else {
        assert(s@ == s@ + Seq::<char>::empty());
    }
    push_str(s, "\n");
}

/// The findings as a JSON array, one object per line, so a CI step can
/// parse results instead of scraping the text format's colon-separated
/// columns.
pub fn render_json(path: &str, findings: &Vec<Finding>) -> (s: String)
    ensures
        s@ == json_report(path@, findings_view(findings@)),
{
    let ghost fs = findings_view(findings@);
    let mut s = String::new();
    push_str(&mut s, "[\n");
    let ghost start = s@;
    let mut i: usize = 0;
    while i < findings.len()
        invariant
            i <= findings@.len(),
            fs == findings_view(findings@),
            s@ == start + json_entries(path@, fs, i as nat),
        decreases findings.len() - i,
    {
        let last = i + 1 == findings.len();
        push_json_entry(&mut s, path, &findings[i], last);
        assert(fs[i as int] == findings@[i as int]@);
        i = i + 1;
    }
    push_str(&mut s, "]\n");
    s
}

/// Texts joined with `sep` between consecutive ones.
pub open spec fn joined_by(items: Seq<Seq<char>>, sep: Seq<char>) -> Seq<char>
    decreases items.len(),
{
    if items.len() == 0 {
        seq![]
    } else if items.len() == 1 {
        items[0]
    } else {
        joined_by(items.drop_last(), sep) + sep + items.last()
    }
}

/// The JSON objects of the findings, in order.
pub open spec fn json_objects(path: Seq<char>, fs: Seq<FindingModel>) -> Seq<Seq<char>> {
    Seq::new(fs.len(), |i: int| json_object(path, fs[i]))
}

/// The first `n` JSON lines are the first `n` objects joined by a comma and a
/// line ending, then a comma too unless the `n`-th object is the last.
proof fn lemma_json_entries(path: Seq<char>, fs: Seq<FindingModel>, n: nat)
    requires
        0 < n <= fs.len(),
    ensures
        json_entries(path, fs, n) == joined_by(json_objects(path, fs).take(n as int), ",\n"@) + (
        if n == fs.len() {
            "\n"@
        } else {
            ",\n"@
        }),
    decreases n,
{
    let objs = json_objects(path, fs);
    assert(","@ + "\n"@ == ",\n"@) by {
        reveal_strlit(",");
        reveal_strlit("\n");
        reveal_strlit(",\n");
    }
    if n == 1 {
        assert(objs.take(1).len() == 1);
        assert(objs.take(1)[0] == json_object(path, fs[0]));
        assert(json_entries(path, fs, 0) == Seq::<char>::empty());
    } else {
        lemma_json_entries(path, fs, (n - 1) as nat);
        assert(objs.take(n as int).drop_last() == objs.take(n - 1));
        assert(objs.take(n as int).last() == json_object(path, fs[n - 1]));
    }
}

/// The JSON report is a well-formed array of one object per finding, in
/// order: `[`, the objects separated by a comma and a line ending (a comma
/// after every object but the last), a line ending after the last, and `]`.
pub proof fn lemma_json_report_is_array(path: Seq<char>, fs: Seq<FindingModel>)
    ensures
        json_report(path, fs) == "[\n"@ + joined_by(json_objects(path, fs), ",\n"@) + (if fs.len()
            > 0 {
            "\n"@
        } else {
            Seq::empty()
        }) + "]\n"@,
{
    let objs = json_objects(path, fs);
    if fs.len() > 0 {
        lemma_json_entries(path, fs, fs.len());
        assert(objs.take(fs.len() as int) == objs);
    } else {
        assert(joined_by(objs, ",\n"@) == Seq::<char>::empty());
    }
}

} // verus!
