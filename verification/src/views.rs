//! The texts that the front ends show: titles, summaries, file tree rows,
//! diff lines and finding cards.
use vstd::prelude::*;

use crate::analysis::syntax::text_is;
use crate::analysis::types::FlowNodeType;
use crate::engine::{DiffLine, FileChange, Finding};
use crate::file_tree::{indent, indent_text, FileTreeRow};
use crate::text::{concat, decimal, decimal_string};
use crate::tui::FocusPane;

verus! {

/// `n` followed by a word, as `"{n} files"`.
pub open spec fn count_text(n: nat, noun: Seq<char>) -> Seq<char> {
    decimal(n) + " "@ + noun
}

pub fn count_label(n: usize, noun: &str) -> (r: String)
    ensures
        r@ == count_text(n as nat, noun@),
{
    let d = decimal_string(n);
    let a = concat(d.as_str(), " ");
    concat(a.as_str(), noun)
}

/// `+{additions} -{deletions}`
pub open spec fn stats_text(additions: nat, deletions: nat) -> Seq<char> {
    "+"@ + decimal(additions) + " -"@ + decimal(deletions)
}

pub fn stats_label(additions: usize, deletions: usize) -> (r: String)
    ensures
        r@ == stats_text(additions as nat, deletions as nat),
{
    let a = decimal_string(additions);
    let d = decimal_string(deletions);
    let x = concat("+", a.as_str());
    let y = concat(x.as_str(), " -");
    concat(y.as_str(), d.as_str())
}

/// `{title} ({count})`, as the terminal pane titles show counts.
pub open spec fn titled_count(title: Seq<char>, n: nat) -> Seq<char> {
    title + " ("@ + decimal(n) + ")"@
}

pub fn titled_count_label(title: &str, n: usize) -> (r: String)
    ensures
        r@ == titled_count(title@, n as nat),
{
    let d = decimal_string(n);
    let a = concat(title, " (");
    let b = concat(a.as_str(), d.as_str());
    concat(b.as_str(), ")")
}

/// `{label}: {value}`
pub open spec fn pill_text(label: Seq<char>, value: Seq<char>) -> Seq<char> {
    label + ": "@ + value
}

pub fn pill_label(label: &str, value: &str) -> (r: String)
    ensures
        r@ == pill_text(label@, value@),
{
    let a = concat(label, ": ");
    concat(a.as_str(), value)
}

/// The name of the pane that has the focus, as the footer shows it.
pub open spec fn focus_text(focus: FocusPane) -> Seq<char> {
    match focus {
        FocusPane::Files => "files"@,
        FocusPane::Diff => "diff"@,
        FocusPane::Findings => "review"@,
    }
}

pub fn focus_label(focus: FocusPane) -> (r: String)
    ensures
        r@ == focus_text(focus),
{
    match focus {
        FocusPane::Files => "files".to_owned(),
        FocusPane::Diff => "diff".to_owned(),
        FocusPane::Findings => "review".to_owned(),
    }
}

/// The title of the terminal diff pane: the selected file's path (`diff`
/// when there is none), followed by the position of the selected block of
/// changes among all of them when there is one.
pub open spec fn diff_title_text(path: Option<Seq<char>>, position: Option<(usize, usize)>) -> Seq<char> {
    let title = match path {
        Some(p) => p,
        None => "diff"@,
    };
    match position {
        Some((p, t)) => title + "  "@ + decimal(p as nat) + "/"@ + decimal(t as nat),
        None => title,
    }
}

pub fn diff_title(selected: Option<&FileChange>, position: Option<(usize, usize)>) -> (r: String)
    ensures
        r@ == diff_title_text(
            match selected {
                Some(f) => Some(f.path@),
                None => None,
            },
            position,
        ),
{
    let title = match selected {
        Some(f) => f.path.clone(),
        None => "diff".to_owned(),
    };
    match position {
        Some((p, t)) => {
            let a = concat(title.as_str(), "  ");
            let pd = decimal_string(p);
            let b = concat(a.as_str(), pd.as_str());
            let c = concat(b.as_str(), "/");
            let td = decimal_string(t);
            concat(c.as_str(), td.as_str())
        },
        None => title,
    }
}

/// The line above the terminal diff: the selected file's status and line
/// counts.
pub open spec fn file_summary_text(file: Option<FileChange>) -> Seq<char> {
    match file {
        Some(f) => f.status@ + "  "@ + stats_text(f.additions as nat, f.deletions as nat),
        None => "no changed file selected"@,
    }
}

pub fn file_summary(selected: Option<&FileChange>) -> (r: String)
    ensures
        r@ == file_summary_text(
            match selected {
                Some(f) => Some(*f),
                None => None,
            },
        ),
{
    match selected {
        Some(f) => {
            let a = concat(f.status.as_str(), "  ");
            let s = stats_label(f.additions, f.deletions);
            concat(a.as_str(), s.as_str())
        },
        None => "no changed file selected".to_owned(),
    }
}

/// `s` padded with spaces on the right to `width` characters.
pub open spec fn pad_right_text(s: Seq<char>, width: nat) -> Seq<char> {
    if s.len() >= width {
        s
    } else {
        s + Seq::new((width - s.len()) as nat, |i: int| ' ')
    }
}

/// `s` padded with spaces on the left to `width` characters.
pub open spec fn pad_left_text(s: Seq<char>, width: nat) -> Seq<char> {
    if s.len() >= width {
        s
    } else {
        Seq::new((width - s.len()) as nat, |i: int| ' ') + s
    }
}

fn spaces(n: usize) -> (r: Vec<char>)
    ensures
        r@ == Seq::new(n as nat, |i: int| ' '),
{
    let mut v: Vec<char> = Vec::new();
    let mut i: usize = 0;
    while i < n
        invariant
            i <= n,
            v@ == Seq::new(i as nat, |j: int| ' '),
        decreases n - i,
    {
        v.push(' ');
        assert(v@ =~= Seq::new((i + 1) as nat, |j: int| ' '));
        i = i + 1;
    }
    v
}

pub fn pad_right(s: &str, width: usize) -> (r: String)
    ensures
        r@ == pad_right_text(s@, width as nat),
{
    let cs = crate::text::chars_of(s);
    if cs.len() >= width {
        s.to_owned()
    } else {
        let pad = spaces(width - cs.len());
        let p = crate::text::string_from_chars(pad.as_slice());
        concat(s, p.as_str())
    }
}

pub fn pad_left(s: &str, width: usize) -> (r: String)
    ensures
        r@ == pad_left_text(s@, width as nat),
{
    let cs = crate::text::chars_of(s);
    if cs.len() >= width {
        s.to_owned()
    } else {
        let pad = spaces(width - cs.len());
        let p = crate::text::string_from_chars(pad.as_slice());
        concat(p.as_str(), s)
    }
}

/// A terminal diff line: a `>` marker on the selected block of changes,
/// the prefix padded to two characters, the number right-aligned in four,
/// and the content.
pub open spec fn diff_line_text(prefix: Seq<char>, number: Seq<char>, content: Seq<char>, selected: bool) -> Seq<char> {
    (if selected {
        ">"@
    } else {
        " "@
    }) + " "@ + pad_right_text(prefix, 2) + " "@ + pad_left_text(number, 4) + " "@ + content
}

pub fn diff_line_label(line: &DiffLine, selected: bool) -> (r: String)
    ensures
        r@ == diff_line_text(line.prefix@, line.number@, line.content@, selected),
{
    let marker = if selected {
        ">"
    } else {
        " "
    };
    let a = concat(marker, " ");
    let p = pad_right(line.prefix.as_str(), 2);
    let b = concat(a.as_str(), p.as_str());
    let c = concat(b.as_str(), " ");
    let n = pad_left(line.number.as_str(), 4);
    let d = concat(c.as_str(), n.as_str());
    let e = concat(d.as_str(), " ");
    let r = concat(e.as_str(), line.content.as_str());
    proof {
        let m = if selected {
            ">"@
        } else {
            " "@
        };
        assert(r@ =~= diff_line_text(line.prefix@, line.number@, line.content@, selected));
    }
    r
}

/// The pieces of a terminal file tree row: its indentation, its marker
/// (`[-] ` or `[+] ` for a directory or section, the status and a space for
/// a file), its name and its counts.
pub struct RowText {
    pub indent: String,
    pub marker: String,
    pub name: String,
    pub counts: String,
}

pub open spec fn dir_counts_text(file_count: nat, additions: nat, deletions: nat) -> Seq<char> {
    "  "@ + decimal(file_count) + " files  "@ + stats_text(additions, deletions)
}

/// The heading of the files still to review or of the reviewed files.
pub open spec fn section_title(reviewed: bool) -> Seq<char> {
    if reviewed {
        "reviewed"@
    } else {
        "to review"@
    }
}

/// The texts of a file tree row; a file row reads its status and counts
/// from `files`.
pub fn row_text(row: &FileTreeRow, files: &[FileChange]) -> (r: RowText)
    requires
        row matches FileTreeRow::File { index, .. } ==> index < files@.len(),
    ensures
        match row {
            FileTreeRow::Directory { name, depth, expanded, file_count, additions, deletions, .. } => {
                &&& r.indent@ == indent_text(*depth as nat)
                &&& r.marker@ == (if *expanded {
                    "[-]"@
                } else {
                    "[+]"@
                }) + " "@
                &&& r.name@ == name@
                &&& r.counts@ == dir_counts_text(*file_count as nat, *additions as nat, *deletions as nat)
            },
            FileTreeRow::File { index, name, depth, .. } => {
                let f = files@[*index as int];
                &&& r.indent@ == indent_text(*depth as nat)
                &&& r.marker@ == f.status@ + " "@
                &&& r.name@ == name@
                &&& r.counts@ == "  "@ + stats_text(f.additions as nat, f.deletions as nat)
            },
            FileTreeRow::Section { reviewed, expanded, file_count } => {
                &&& r.indent@ == Seq::<char>::empty()
                &&& r.marker@ == (if *expanded {
                    "[-]"@
                } else {
                    "[+]"@
                }) + " "@
                &&& r.name@ == section_title(*reviewed)
                &&& r.counts@ == "  "@ + decimal(*file_count as nat) + " files"@
            },
        },
{
    match row {
        FileTreeRow::Directory { name, depth, expanded, file_count, additions, deletions, .. } => {
            let marker = if *expanded {
                "[-]"
            } else {
                "[+]"
            };
            let c = decimal_string(*file_count);
            let a = concat("  ", c.as_str());
            let b = concat(a.as_str(), " files  ");
            let s = stats_label(*additions, *deletions);
            RowText {
                indent: indent(*depth),
                marker: concat(marker, " "),
                name: name.clone(),
                counts: concat(b.as_str(), s.as_str()),
            }
        },
        FileTreeRow::File { index, name, depth, .. } => {
            let f = &files[*index];
            let s = stats_label(f.additions, f.deletions);
            RowText {
                indent: indent(*depth),
                marker: concat(f.status.as_str(), " "),
                name: name.clone(),
                counts: concat("  ", s.as_str()),
            }
        },
        FileTreeRow::Section { reviewed, expanded, file_count } => {
            let marker = if *expanded {
                "[-]"
            } else {
                "[+]"
            };
            let c = decimal_string(*file_count);
            let a = concat("  ", c.as_str());
            RowText {
                indent: String::new(),
                marker: concat(marker, " "),
                name: if *reviewed {
                    "reviewed".to_owned()
                } else {
                    "to review".to_owned()
                },
                counts: concat(a.as_str(), " files"),
            }
        },
    }
}

/// The context line of the desktop diff pane.
pub open spec fn diff_context_text(file: Option<FileChange>) -> Seq<char> {
    match file {
        Some(f) => "Git diff for "@ + f.status@ + " ("@ + decimal(f.additions as nat) + " additions, "@
            + decimal(f.deletions as nat) + " deletions)"@,
        None => "No changed file is selected."@,
    }
}

pub fn diff_context(selected: Option<&FileChange>) -> (r: String)
    ensures
        r@ == diff_context_text(
            match selected {
                Some(f) => Some(*f),
                None => None,
            },
        ),
{
    match selected {
        Some(f) => {
            let a = concat("Git diff for ", f.status.as_str());
            let b = concat(a.as_str(), " (");
            let ad = decimal_string(f.additions);
            let c = concat(b.as_str(), ad.as_str());
            let d = concat(c.as_str(), " additions, ");
            let dd = decimal_string(f.deletions);
            let e = concat(d.as_str(), dd.as_str());
            concat(e.as_str(), " deletions)")
        },
        None => "No changed file is selected.".to_owned(),
    }
}

/// The subtitle of a diff pane: the selected file's path.
pub open spec fn diff_subtitle_text(path: Option<Seq<char>>) -> Seq<char> {
    match path {
        Some(p) => p,
        None => "No file selected"@,
    }
}

pub fn diff_subtitle(selected: Option<&FileChange>) -> (r: String)
    ensures
        r@ == diff_subtitle_text(
            match selected {
                Some(f) => Some(f.path@),
                None => None,
            },
        ),
{
    match selected {
        Some(f) => f.path.clone(),
        None => "No file selected".to_owned(),
    }
}

/// The card of the selected finding in the desktop review pane.
pub struct FindingCard {
    pub title: String,
    pub severity: String,
    pub summary: String,
    pub next_step: String,
}

pub open spec fn no_finding_summary() -> Seq<char> {
    "No AI findings yet. The real Git diff is loaded, but a review backend is not configured."@
}

pub open spec fn no_finding_next_step() -> Seq<char> {
    "Suggested next step: wire an AI review backend that consumes the selected file diff."@
}

/// The texts of the finding card: the finding's title, severity and summary
/// and a next step that points at its line, or placeholders.
pub fn finding_card(finding: Option<&Finding>) -> (r: FindingCard)
    ensures
        match finding {
            Some(f) => {
                &&& r.title@ == f.title@
                &&& r.severity@ == f.severity@
                &&& r.summary@ == f.summary@
                &&& r.next_step@ == "Suggested next step: inspect "@ + f.line@
                    + " and decide whether to comment on the active hunk."@
            },
            None => {
                &&& r.title@ == "No finding selected"@
                &&& r.severity@ == "none"@
                &&& r.summary@ == no_finding_summary()
                &&& r.next_step@ == no_finding_next_step()
            },
        },
{
    match finding {
        Some(f) => {
            let a = concat("Suggested next step: inspect ", f.line.as_str());
            FindingCard {
                title: f.title.clone(),
                severity: f.severity.clone(),
                summary: f.summary.clone(),
                next_step: concat(a.as_str(), " and decide whether to comment on the active hunk."),
            }
        },
        None => FindingCard {
            title: "No finding selected".to_owned(),
            severity: "none".to_owned(),
            summary: "No AI findings yet. The real Git diff is loaded, but a review backend is not configured.".to_owned(),
            next_step: "Suggested next step: wire an AI review backend that consumes the selected file diff.".to_owned(),
        },
    }
}

/// The colour (`0xRRGGBB`) of a status in the desktop review window.
pub open spec fn status_rgb_of(status: Seq<char>) -> u32 {
    if status == "A"@ {
        0x7ee787
    } else if status == "M"@ {
        0x79c0ff
    } else if status == "D"@ {
        0xff7b72
    } else {
        0xb7c6df
    }
}

pub fn status_rgb(status: &str) -> (r: u32)
    ensures
        r == status_rgb_of(status@),
{
    if text_is(status, "A") {
        0x7ee787
    } else if text_is(status, "M") {
        0x79c0ff
    } else if text_is(status, "D") {
        0xff7b72
    } else {
        0xb7c6df
    }
}

/// The colour (`0xRRGGBB`) of a status in the snapshot window's file tree,
/// which also tells renames and conflicts apart.
pub open spec fn tree_status_rgb_of(status: Seq<char>) -> u32 {
    if status == "R"@ {
        0xc297ff
    } else if status == "U"@ {
        0xf2cc60
    } else {
        status_rgb_of(status)
    }
}

pub fn tree_status_rgb(status: &str) -> (r: u32)
    ensures
        r == tree_status_rgb_of(status@),
{
    if text_is(status, "R") {
        0xc297ff
    } else if text_is(status, "U") {
        0xf2cc60
    } else {
        status_rgb(status)
    }
}

/// The colour (`0xRRGGBB`) of a finding's severity.
pub open spec fn severity_rgb_of(severity: Seq<char>) -> u32 {
    if severity == "high"@ {
        0xff7b72
    } else if severity == "medium"@ {
        0xf2cc60
    } else if severity == "low"@ {
        0x79c0ff
    } else {
        0xb7c6df
    }
}

pub fn severity_rgb(severity: &str) -> (r: u32)
    ensures
        r == severity_rgb_of(severity@),
{
    if text_is(severity, "high") {
        0xff7b72
    } else if text_is(severity, "medium") {
        0xf2cc60
    } else if text_is(severity, "low") {
        0x79c0ff
    } else {
        0xb7c6df
    }
}

/// The border and background colours (`0xRRGGBB`) of a data-flow node.
pub fn node_rgb(node_type: FlowNodeType) -> (r: (u32, u32))
    ensures
        r == match node_type {
            FlowNodeType::Function => (0x79c0ffu32, 0x0f2238u32),
            FlowNodeType::Variable => (0x7ee787u32, 0x12261au32),
            FlowNodeType::Input => (0xf2cc60u32, 0x2a2410u32),
            FlowNodeType::Output => (0xc297ffu32, 0x1a1030u32),
        },
{
    match node_type {
        FlowNodeType::Function => (0x79c0ff, 0x0f2238),
        FlowNodeType::Variable => (0x7ee787, 0x12261a),
        FlowNodeType::Input => (0xf2cc60, 0x2a2410),
        FlowNodeType::Output => (0xc297ff, 0x1a1030),
    }
}

/// The text, background and left-border colours (`0xRRGGBB`) of a diff
/// line in the desktop review window; the selected block of changes is
/// highlighted.
pub open spec fn diff_line_rgb_of(prefix: Seq<char>, selected: bool) -> (u32, u32, u32) {
    let text: u32 = if prefix == "+"@ {
        0x7ee787
    } else if prefix == "-"@ {
        0xff7b72
    } else if prefix == "@@"@ {
        0x79c0ff
    } else {
        0xe5eefc
    };
    let background: u32 = if selected {
        0x172544
    } else if prefix == "+"@ {
        0x12261a
    } else if prefix == "-"@ {
        0x2a1417
    } else if prefix == "@@"@ {
        0x0f2238
    } else {
        0x0f1728
    };
    (text, background, if selected { 0x4f8cffu32 } else { background })
}

pub fn diff_line_rgb(prefix: &str, selected: bool) -> (r: (u32, u32, u32))
    ensures
        r == diff_line_rgb_of(prefix@, selected),
{
    let plus = text_is(prefix, "+");
    let minus = text_is(prefix, "-");
    let hunk = text_is(prefix, "@@");
    let text: u32 = if plus {
        0x7ee787
    } else if minus {
        0xff7b72
    } else if hunk {
        0x79c0ff
    } else {
        0xe5eefc
    };
    let background: u32 = if selected {
        0x172544
    } else if plus {
        0x12261a
    } else if minus {
        0x2a1417
    } else if hunk {
        0x0f2238
    } else {
        0x0f1728
    };
    (text, background, if selected { 0x4f8cff } else { background })
}

/// The text and background colours (`0xRRGGBB`) of a diff line in the
/// snapshot window, where notes are marked with `>`.
pub open spec fn snapshot_line_rgb_of(prefix: Seq<char>) -> (u32, u32) {
    if prefix == "+"@ {
        (0x7ee787, 0x12261a)
    } else if prefix == "-"@ {
        (0xff7b72, 0x2a1417)
    } else if prefix == "@@"@ {
        (0x79c0ff, 0x0f2238)
    } else if prefix == ">"@ {
        (0xb7c6df, 0x121c31)
    } else {
        (0xe5eefc, 0x0f1728)
    }
}

pub fn snapshot_line_rgb(prefix: &str) -> (r: (u32, u32))
    ensures
        r == snapshot_line_rgb_of(prefix@),
{
    if text_is(prefix, "+") {
        (0x7ee787, 0x12261a)
    } else if text_is(prefix, "-") {
        (0xff7b72, 0x2a1417)
    } else if text_is(prefix, "@@") {
        (0x79c0ff, 0x0f2238)
    } else if text_is(prefix, ">") {
        (0xb7c6df, 0x121c31)
    } else {
        (0xe5eefc, 0x0f1728)
    }
}

} // verus!
