use review_tool::cli::{display_variable_to_clear, requested_repo_path_and_backend, DisplayBackend};
use review_tool::engine::{DiffLine, FileChange, Finding};
use review_tool::file_tree::FileTreeRow;
use review_tool::git::diff;
use review_tool::git::snapshot;
use review_tool::nav_tree::{build_file_tree, directory_id, FileTreeNode};
use review_tool::snapshot_view::{
    error_diff, focus_toggle_label, is_rust_source, needs_diff, snapshot_diff_view, DiffBody,
    SnapshotView,
};
use review_tool::tui::FocusPane;
use review_tool::views::{
    count_label, diff_context, diff_line_label, diff_subtitle, diff_title, file_summary,
    finding_card, focus_label, node_rgb, pad_left, pad_right, pill_label, row_text,
    severity_rgb, snapshot_line_rgb, diff_line_rgb, stats_label, status_rgb, titled_count_label, tree_status_rgb,
};
use review_tool::analysis::types::FlowNodeType;

fn file(path: &str, status: &str, additions: usize, deletions: usize) -> FileChange {
    FileChange { path: path.to_owned(), status: status.to_owned(), additions, deletions }
}

fn gline(prefix: &str, number: &str, content: &str) -> diff::DiffLine {
    diff::DiffLine { prefix: prefix.to_owned(), number: number.to_owned(), content: content.to_owned() }
}

fn snap(path: &str, diff_lines: Option<Vec<diff::DiffLine>>) -> snapshot::FileChange {
    snapshot::FileChange {
        path: path.to_owned(),
        status: "M".to_owned(),
        additions: 4,
        deletions: 2,
        untracked: false,
        diff_lines,
    }
}

fn line(prefix: &str, number: &str, content: &str) -> DiffLine {
    DiffLine { prefix: prefix.to_owned(), number: number.to_owned(), content: content.to_owned() }
}

fn args(v: &[&str]) -> Vec<String> {
    v.iter().map(|s| s.to_string()).collect()
}

#[test]
fn labels_format_counts() {
    assert_eq!(count_label(3, "files"), "3 files");
    assert_eq!(count_label(0, "findings"), "0 findings");
    assert_eq!(stats_label(12, 0), "+12 -0");
    assert_eq!(titled_count_label("files", 7), "files (7)");
    assert_eq!(pill_label("repo", "review_tool"), "repo: review_tool");
}

#[test]
fn focus_labels_name_the_panes() {
    assert_eq!(focus_label(FocusPane::Files), "files");
    assert_eq!(focus_label(FocusPane::Diff), "diff");
    assert_eq!(focus_label(FocusPane::Findings), "review");
}

#[test]
fn diff_title_shows_path_and_change_position() {
    let f = file("src/a.rs", "M", 1, 2);
    assert_eq!(diff_title(Some(&f), Some((2, 5))), "src/a.rs  2/5");
    assert_eq!(diff_title(Some(&f), None), "src/a.rs");
    assert_eq!(diff_title(None, Some((1, 1))), "diff  1/1");
    assert_eq!(diff_title(None, None), "diff");
}

#[test]
fn file_texts_read_status_and_counts() {
    let f = file("src/a.rs", "A", 10, 3);
    assert_eq!(file_summary(Some(&f)), "A  +10 -3");
    assert_eq!(file_summary(None), "no changed file selected");
    assert_eq!(diff_context(Some(&f)), "Git diff for A (10 additions, 3 deletions)");
    assert_eq!(diff_context(None), "No changed file is selected.");
    assert_eq!(diff_subtitle(Some(&f)), "src/a.rs");
    assert_eq!(diff_subtitle(None), "No file selected");
}

#[test]
fn padding_fills_to_width_and_never_cuts() {
    assert_eq!(pad_right("+", 2), "+ ");
    assert_eq!(pad_left("7", 4), "   7");
    assert_eq!(pad_left("12345", 4), "12345");
    assert_eq!(pad_right("abc", 0), "abc");
    assert_eq!(pad_left("é", 3), "  é");
}

#[test]
fn diff_lines_are_marked_and_aligned() {
    assert_eq!(diff_line_label(&line("+", "12", "let x = 1;"), true), "> +    12 let x = 1;");
    assert_eq!(diff_line_label(&line("@@", "", "@@ -1 +1 @@"), false), "  @@      @@ -1 +1 @@");
}

#[test]
fn tree_rows_render_markers_and_counts() {
    let files = vec![file("src/a.rs", "M", 2, 1)];
    let dir = FileTreeRow::Directory {
        path: "src".to_owned(),
        name: "src".to_owned(),
        depth: 1,
        expanded: true,
        file_count: 1,
        additions: 2,
        deletions: 1,
    };
    let t = row_text(&dir, &files);
    assert_eq!((t.indent.as_str(), t.marker.as_str(), t.name.as_str()), ("  ", "[-] ", "src"));
    assert_eq!(t.counts, "  1 files  +2 -1");
    let collapsed = FileTreeRow::Directory {
        path: "src".to_owned(),
        name: "src".to_owned(),
        depth: 0,
        expanded: false,
        file_count: 1,
        additions: 2,
        deletions: 1,
    };
    assert_eq!(row_text(&collapsed, &files).marker, "[+] ");
    let f = FileTreeRow::File { index: 0, path: "src/a.rs".to_owned(), name: "a.rs".to_owned(), depth: 2 };
    let t = row_text(&f, &files);
    assert_eq!((t.indent.as_str(), t.marker.as_str(), t.name.as_str()), ("    ", "M ", "a.rs"));
    assert_eq!(t.counts, "  +2 -1");
}

#[test]
fn finding_card_points_at_the_line() {
    let finding = Finding {
        severity: "high".to_owned(),
        title: "Unchecked index".to_owned(),
        summary: "May panic".to_owned(),
        line: "src/a.rs:12".to_owned(),
    };
    let card = finding_card(Some(&finding));
    assert_eq!(card.title, "Unchecked index");
    assert_eq!(card.severity, "high");
    assert_eq!(card.summary, "May panic");
    assert_eq!(
        card.next_step,
        "Suggested next step: inspect src/a.rs:12 and decide whether to comment on the active hunk."
    );
    let empty = finding_card(None);
    assert_eq!(empty.title, "No finding selected");
    assert_eq!(empty.severity, "none");
}

fn show(n: &FileTreeNode) -> String {
    let kids: Vec<String> = n.children.iter().map(show).collect();
    format!("{}|{}|{:?}[{}]", n.name, n.full_path, n.file_index, kids.join(","))
}

#[test]
fn snapshot_tree_puts_directories_first_and_sorts_by_name() {
    let files = vec![
        snap("src/main.rs", None),
        snap("b.txt", None),
        snap("src/a/x.rs", None),
        snap("a.txt", None),
    ];
    let roots = build_file_tree(&files);
    let shown: Vec<String> = roots.iter().map(show).collect();
    assert_eq!(
        shown,
        vec![
            "src|src|None[a|src/a|None[x.rs|src/a/x.rs|Some(2)[]],main.rs|src/main.rs|Some(0)[]]".to_owned(),
            "a.txt|a.txt|Some(3)[]".to_owned(),
            "b.txt|b.txt|Some(1)[]".to_owned(),
        ]
    );
}

#[test]
fn directory_ids_hash_the_path_bytes() {
    assert_eq!(directory_id(""), 1469598103934665603);
    assert_eq!(directory_id("a"), 4953267810257967366);
    assert_eq!(directory_id("src/a"), 18316651352577216707);
    assert_ne!(directory_id("src"), directory_id("src/a"));
}

#[test]
fn command_line_picks_path_and_last_backend() {
    assert_eq!(requested_repo_path_and_backend(&args(&[])), (None, None));
    assert_eq!(
        requested_repo_path_and_backend(&args(&["--x11", "repo", "other", "--verbose", "--wayland"])),
        (Some("repo".to_owned()), Some(DisplayBackend::Wayland))
    );
    assert_eq!(
        requested_repo_path_and_backend(&args(&["--flag", "--x11"])),
        (None, Some(DisplayBackend::X11))
    );
}

#[test]
fn backend_clears_the_other_display_variable() {
    assert_eq!(display_variable_to_clear(Some(DisplayBackend::X11)), Some("WAYLAND_DISPLAY".to_owned()));
    assert_eq!(display_variable_to_clear(Some(DisplayBackend::Wayland)), Some("DISPLAY".to_owned()));
    assert_eq!(display_variable_to_clear(None), None);
}

#[test]
fn snapshot_diff_pane_texts() {
    let with_lines = snap("src/a.rs", Some(vec![gline("+", "1", "x")]));
    let v = snapshot_diff_view(&None, Some(&with_lines));
    assert_eq!(v.subtitle, "src/a.rs");
    assert_eq!(v.summary, "M  +4  -2");
    assert!(matches!(v.body, DiffBody::Lines));

    let binary = snap("img.png", Some(Vec::new()));
    match snapshot_diff_view(&None, Some(&binary)).body {
        DiffBody::Empty { title, text } => {
            assert_eq!(title, "No textual diff available");
            assert_eq!(text, "This file may be binary or only have metadata changes.");
        }
        DiffBody::Lines => panic!("expected a note"),
    }

    let failed = snapshot_diff_view(&Some("not a git repository".to_owned()), None);
    assert_eq!(failed.subtitle, "No file selected");
    assert_eq!(failed.summary, "not a git repository");
    match failed.body {
        DiffBody::Empty { title, text } => {
            assert_eq!(title, "Unable to load repository");
            assert_eq!(text, "not a git repository");
        }
        DiffBody::Lines => panic!("expected a note"),
    }

    let none = snapshot_diff_view(&None, None);
    assert_eq!(none.summary, "No diff selected");
    match none.body {
        DiffBody::Empty { title, .. } => assert_eq!(title, "No diff selected"),
        DiffBody::Lines => panic!("expected a note"),
    }
}

#[test]
fn snapshot_helpers() {
    assert_eq!(focus_toggle_label(true), "Restore Layout");
    assert_eq!(focus_toggle_label(false), "Focus Diff");
    assert!(is_rust_source("src/lib.rs"));
    assert!(is_rust_source(".rs"));
    assert!(!is_rust_source("rs"));
    assert!(!is_rust_source("notes.rst"));
    let d = error_diff("boom".to_owned());
    assert_eq!(d.len(), 1);
    assert_eq!((d[0].prefix.as_str(), d[0].number.as_str(), d[0].content.as_str()), (">", "", "boom"));
    let files = vec![snap("a.rs", None), snap("b.rs", Some(Vec::new()))];
    assert!(needs_diff(&files, 0));
    assert!(!needs_diff(&files, 1));
    assert!(!needs_diff(&files, 2));
}

#[test]
fn snapshot_view_state_changes() {
    let mut v = SnapshotView::new();
    assert_eq!(v.selected_file(), 0);
    assert!(!v.diff_focus_mode());
    assert!(!v.show_data_flow());
    assert!(v.set_selected_file(2, 3));
    assert_eq!(v.selected_file(), 2);
    assert!(!v.set_selected_file(3, 3));
    assert_eq!(v.selected_file(), 2);
    v.toggle_diff_focus_mode();
    assert!(v.diff_focus_mode());
    v.toggle_data_flow();
    assert!(v.show_data_flow());
    v.show_diff();
    assert!(!v.show_data_flow());
    let src = "src".to_owned();
    assert!(!v.is_collapsed(&src));
    v.toggle_directory(src.clone());
    assert!(v.is_collapsed(&src));
    v.toggle_directory(src.clone());
    assert!(!v.is_collapsed(&src));
}

#[test]
fn colours_follow_status_severity_and_node_kind() {
    assert_eq!(status_rgb("A"), 0x7ee787);
    assert_eq!(status_rgb("M"), 0x79c0ff);
    assert_eq!(status_rgb("D"), 0xff7b72);
    assert_eq!(status_rgb("R"), 0xb7c6df);
    assert_eq!(tree_status_rgb("R"), 0xc297ff);
    assert_eq!(tree_status_rgb("U"), 0xf2cc60);
    assert_eq!(tree_status_rgb("A"), 0x7ee787);
    assert_eq!(tree_status_rgb("??"), 0xb7c6df);
    assert_eq!(severity_rgb("high"), 0xff7b72);
    assert_eq!(severity_rgb("medium"), 0xf2cc60);
    assert_eq!(severity_rgb("low"), 0x79c0ff);
    assert_eq!(severity_rgb("HIGH"), 0xb7c6df);
    assert_eq!(node_rgb(FlowNodeType::Function), (0x79c0ff, 0x0f2238));
    assert_eq!(node_rgb(FlowNodeType::Output), (0xc297ff, 0x1a1030));
}

#[test]
fn diff_line_colours_mark_the_selected_block() {
    assert_eq!(diff_line_rgb("+", false), (0x7ee787, 0x12261a, 0x12261a));
    assert_eq!(diff_line_rgb("-", true), (0xff7b72, 0x172544, 0x4f8cff));
    assert_eq!(diff_line_rgb("@@", false), (0x79c0ff, 0x0f2238, 0x0f2238));
    assert_eq!(diff_line_rgb(" ", false), (0xe5eefc, 0x0f1728, 0x0f1728));
    assert_eq!(snapshot_line_rgb(">"), (0xb7c6df, 0x121c31));
    assert_eq!(snapshot_line_rgb("+"), (0x7ee787, 0x12261a));
    assert_eq!(snapshot_line_rgb(""), (0xe5eefc, 0x0f1728));
}

#[test]
fn section_rows_name_the_review_state() {
    let heading = FileTreeRow::Section { reviewed: false, expanded: true, file_count: 3 };
    let t = row_text(&heading, &[]);
    assert_eq!((t.indent.as_str(), t.marker.as_str(), t.name.as_str()), ("", "[-] ", "to review"));
    assert_eq!(t.counts, "  3 files");
    let closed = FileTreeRow::Section { reviewed: true, expanded: false, file_count: 0 };
    let t = row_text(&closed, &[]);
    assert_eq!((t.marker.as_str(), t.name.as_str(), t.counts.as_str()), ("[+] ", "reviewed", "  0 files"));
}
