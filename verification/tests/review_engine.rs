use review_tool::engine::{
    combined_diff, diff_change_indices, diff_hash, diff_stats, display_status, first_diff_change_index,
    git_failure_message, git_status_entries, is_changed_line, parse_unified_diff, plain_diff_line,
    review_key, review_label, selected_diff_change_range, tracked_file_diff, unified_diff_fits,
    untracked_file_diff, DiffLine, FileChange, Finding, ReviewAction, ReviewSession, StatusEntry,
};
use review_tool::git::{git_error_text, git_stdout_text};
use review_tool::session::{build_file_changes, diff_hashes, reviewed_flags};
use review_tool::engine::is_untracked_status;

fn line(prefix: &str, number: &str, content: &str) -> DiffLine {
    DiffLine { prefix: prefix.to_owned(), number: number.to_owned(), content: content.to_owned() }
}

fn file(path: &str, status: &str, additions: usize, deletions: usize) -> FileChange {
    FileChange { path: path.to_owned(), status: status.to_owned(), additions, deletions }
}

fn triples(lines: &[DiffLine]) -> Vec<(String, String, String)> {
    lines.iter().map(|l| (l.prefix.clone(), l.number.clone(), l.content.clone())).collect()
}

fn t(a: &str, b: &str, c: &str) -> (String, String, String) {
    (a.to_owned(), b.to_owned(), c.to_owned())
}

fn finding(title: &str) -> Finding {
    Finding {
        severity: "low".to_owned(),
        title: title.to_owned(),
        summary: "s".to_owned(),
        line: "l".to_owned(),
    }
}

#[test]
fn status_records_skip_ignored_and_pair_renames() {
    let out = b"?? new.rs\0 M src/lib.rs\0!! target/x\0R  moved.rs\0old.rs\0ab\0D  gone.rs\0";
    let entries = git_status_entries(out);
    let seen: Vec<(String, String)> = entries.iter().map(|e| (e.status.clone(), e.path.clone())).collect();
    assert_eq!(
        seen,
        vec![
            ("??".to_owned(), "new.rs".to_owned()),
            (" M".to_owned(), "src/lib.rs".to_owned()),
            ("R ".to_owned(), "moved.rs".to_owned()),
            ("D ".to_owned(), "gone.rs".to_owned()),
        ]
    );
}

#[test]
fn status_records_decode_invalid_bytes_lossily() {
    let entries = git_status_entries(b"?? caf\xff.txt\0");
    assert_eq!(entries.len(), 1);
    assert_eq!(entries[0].path, "caf\u{FFFD}.txt");
}

#[test]
fn display_status_picks_one_letter() {
    assert_eq!(display_status("??"), "A");
    assert_eq!(display_status("AM"), "A");
    assert_eq!(display_status(" D"), "D");
    assert_eq!(display_status("R "), "R");
    assert_eq!(display_status("C "), "C");
    assert_eq!(display_status("UU"), "U");
    assert_eq!(display_status(" M"), "M");
    assert_eq!(display_status(" T"), "T");
}

#[test]
fn untracked_text_file_is_all_added() {
    let diff = untracked_file_diff("notes.txt", Some(b"one\ntwo\n"));
    assert_eq!(
        triples(&diff),
        vec![
            t(" ", "", "diff --git a/notes.txt b/notes.txt"),
            t(" ", "", "new file"),
            t(" ", "", "--- /dev/null"),
            t(" ", "", "+++ b/notes.txt"),
            t("@@", "1", "@@ -0,0 +1,2 @@"),
            t("+", "1", "one"),
            t("+", "2", "two"),
        ]
    );
    assert_eq!(diff_stats(&diff), (2, 0));
}

#[test]
fn untracked_file_notes_when_it_cannot_be_shown() {
    assert_eq!(triples(&untracked_file_diff("x", None)), vec![t(" ", "", "Unable to read untracked file.")]);
    assert_eq!(
        triples(&untracked_file_diff("x.bin", Some(b"a\0b"))),
        vec![t(" ", "", "diff --git a/x.bin b/x.bin"), t(" ", "", "new binary file; content omitted")]
    );
    assert_eq!(
        triples(&untracked_file_diff("x.dat", Some(b"a\xffb"))),
        vec![t(" ", "", "diff --git a/x.dat b/x.dat"), t(" ", "", "new non-UTF-8 file; content omitted")]
    );
}

#[test]
fn tracked_diff_joins_staged_and_unstaged_text() {
    let cached = "@@ -1 +1 @@\n-a\n+b";
    let working = "@@ -5 +5 @@\n-c\n+d\n";
    assert_eq!(combined_diff(cached, working), "@@ -1 +1 @@\n-a\n+b\n@@ -5 +5 @@\n-c\n+d\n");
    assert_eq!(combined_diff("  \n", working), working);
    assert!(unified_diff_fits(&combined_diff(cached, working)));
    let diff = tracked_file_diff(cached, working);
    assert_eq!(diff_stats(&diff), (2, 2));
    assert_eq!(diff[4].number, "5");
    assert_eq!(triples(&tracked_file_diff(" ", "\n")), vec![t(" ", "", "No textual diff available for this file.")]);
}

#[test]
fn empty_diff_text_reads_as_a_note() {
    assert_eq!(triples(&parse_unified_diff("")), vec![t(" ", "", "No textual diff available for this file.")]);
    assert_eq!(triples(&parse_unified_diff("+++ b/x\n--- a/x")), vec![t(" ", "", "+++ b/x"), t(" ", "", "--- a/x")]);
}

#[test]
fn labels_and_keys_follow_the_branch() {
    assert_eq!(review_label(Some("main\n")), "main working tree");
    assert_eq!(review_label(Some("  \n")), "working tree");
    assert_eq!(review_label(None), "working tree");
    assert_eq!(review_key(Some("main\n"), Some("abc\n")), "branch:main");
    assert_eq!(review_key(Some(""), Some("abc123\n")), "detached:abc123");
    assert_eq!(review_key(None, None), "working-tree");
}

#[test]
fn git_errors_read_the_clearest_output() {
    assert_eq!(git_failure_message("git status", "  fatal: nope \n"), "git command failed: git status: fatal: nope");
    assert_eq!(git_failure_message("git status", " \n"), "git command failed: git status");
    assert_eq!(git_error_text(" bad \n", "out", "/r"), "bad");
    assert_eq!(git_error_text("", " out \n", "/r"), "out");
    assert_eq!(git_error_text("", "", "/r"), "git command failed for /r");
    assert_eq!(git_stdout_text("  main \n\n"), "  main");
}

#[test]
fn change_blocks_start_after_unchanged_lines() {
    let d = vec![
        line("@@", "1", "@@"),
        line("+", "1", "a"),
        line("-", "2", "b"),
        line(" ", "3", "c"),
        line("-", "4", "d"),
    ];
    assert_eq!(diff_change_indices(&d), vec![1, 4]);
    assert_eq!(first_diff_change_index(&d), Some(1));
    assert_eq!(first_diff_change_index(&d[..1]), None);
    assert_eq!(selected_diff_change_range(&d, 2), Some(1..3));
    assert_eq!(selected_diff_change_range(&d, 4), Some(4..5));
    assert_eq!(selected_diff_change_range(&d, 3), None);
    assert_eq!(selected_diff_change_range(&d, 9), None);
    assert!(is_changed_line(&d[1]) && !is_changed_line(&d[0]));
    assert_eq!(diff_stats(&d), (1, 2));
}

#[test]
fn diff_hash_is_fnv1a_of_the_lines() {
    assert_eq!(diff_hash(&[]), "cbf29ce484222325");
    let d = vec![line("@@", "1", "@@ -1 +1 @@"), line("+", "1", "new")];
    assert_eq!(diff_hash(&d), "bcef8a89a48eea24");
    assert_ne!(diff_hash(&d), diff_hash(&d[..1]));
    assert_eq!(diff_hashes(&vec![d.clone(), Vec::new()]), vec!["bcef8a89a48eea24".to_owned(), "cbf29ce484222325".to_owned()]);
    assert_eq!(plain_diff_line("x".to_owned()), line(" ", "", "x"));
}

#[test]
fn file_changes_count_their_diff_lines() {
    let entries = vec![
        StatusEntry { status: " M".to_owned(), path: "a.rs".to_owned() },
        StatusEntry { status: "??".to_owned(), path: "b.rs".to_owned() },
    ];
    let diffs = vec![
        vec![line("+", "1", "x"), line("-", "1", "y"), line("-", "2", "z")],
        vec![line("+", "1", "n")],
    ];
    let files = build_file_changes(entries, &diffs);
    assert_eq!(files, vec![file("a.rs", "M", 1, 2), file("b.rs", "A", 1, 0)]);
}

fn stored_session(reviewed: Vec<bool>) -> ReviewSession {
    ReviewSession::from_repository(
        "repo".to_owned(),
        "main working tree".to_owned(),
        "branch:main".to_owned(),
        vec![file("a.rs", "M", 1, 0), file("b.rs", "A", 1, 0)],
        vec![vec![line(" ", "1", "ctx"), line("+", "2", "x")], vec![line("+", "1", "n")]],
        reviewed,
    )
}

#[test]
fn repository_session_starts_on_first_change_with_stored_marks() {
    let session = stored_session(vec![false, true]);
    assert_eq!(session.backend_label(), "not configured");
    assert_eq!(session.review_summary(), "Loaded 2 changed files from Git. AI findings are not wired yet.");
    assert_eq!(session.selected_diff_line_index(), Some(1));
    assert!(!session.is_file_reviewed(0));
    assert!(session.is_file_reviewed(1));
    assert!(!session.is_file_reviewed(5));
    assert_eq!((session.reviewed_file_count(), session.pending_file_count()), (1, 1));
    assert!(session.findings().is_empty());
    assert!(session.selected_finding().is_none());
}

#[test]
fn empty_repository_session_says_the_tree_is_clean() {
    let session = ReviewSession::from_repository(
        "repo".to_owned(),
        "working tree".to_owned(),
        "working-tree".to_owned(),
        Vec::new(),
        Vec::new(),
        Vec::new(),
    );
    assert_eq!(session.review_summary(), "Working tree is clean. No changed files to review.");
    assert!(session.selected_file().is_none());
    assert!(session.diff_lines().is_empty());
    assert_eq!(session.selected_diff_line_index(), None);
    assert_eq!(session.selected_diff_change_position(), None);
}

#[test]
fn stored_toggle_waits_for_the_outcome() {
    let mut session = stored_session(vec![false, false]);
    let request = session.apply(ReviewAction::ToggleSelectedFileReviewed).expect("a change to store");
    assert_eq!(request.review_key, "branch:main");
    assert_eq!(request.path, "a.rs");
    assert_eq!(request.diff_hash, diff_hash(&[line(" ", "1", "ctx"), line("+", "2", "x")]));
    assert!(request.reviewed);
    assert!(!session.is_file_reviewed(0));

    session.finish_persist(&request, Err("disk full".to_owned()));
    assert!(!session.is_file_reviewed(0));
    assert_eq!(session.review_summary(), "Failed to persist reviewed state: disk full");

    session.finish_persist(&request, Ok(()));
    assert!(session.is_file_reviewed(0));
    let undo = session.apply(ReviewAction::ToggleSelectedFileReviewed).expect("a change to store");
    assert!(!undo.reviewed);
    session.finish_persist(&undo, Ok(()));
    assert!(!session.is_file_reviewed(0));
}

#[test]
fn finding_navigation_wraps_and_ignores_missing_indices() {
    let mut session = ReviewSession::from_parts(
        "repo".to_owned(),
        "tree".to_owned(),
        "not configured".to_owned(),
        "s".to_owned(),
        Vec::new(),
        Vec::new(),
        vec![finding("one"), finding("two")],
        Vec::new(),
        None,
    );
    session.apply(ReviewAction::PreviousFinding);
    assert_eq!(session.selected_finding_index(), 1);
    session.apply(ReviewAction::NextFinding);
    assert_eq!(session.selected_finding_index(), 0);
    session.apply(ReviewAction::SelectFinding(7));
    assert_eq!(session.selected_finding_index(), 0);
    session.apply(ReviewAction::SelectFinding(1));
    assert_eq!(session.selected_finding().map(|f| f.title.as_str()), Some("two"));
    session.apply(ReviewAction::NextFile);
    assert_eq!(session.selected_file_index(), 0);
    assert!(session.apply(ReviewAction::ToggleSelectedFileReviewed).is_none());
}

#[test]
fn error_session_has_nothing_to_review() {
    let session = ReviewSession::from_error("not a git repository".to_owned());
    assert_eq!(session.repo_label(), "unknown repo");
    assert_eq!(session.review_label(), "load error");
    assert_eq!(session.backend_label(), "not configured");
    assert_eq!(session.review_summary(), "not a git repository");
    assert!(session.files().is_empty());
    assert_eq!((session.reviewed_file_count(), session.pending_file_count()), (0, 0));
    assert_eq!(session.selected_diff_change_range(), None);
}

fn row(key: &str, path: &str, hash: &str) -> (String, String, String) {
    (key.to_owned(), path.to_owned(), hash.to_owned())
}

#[test]
fn stored_rows_mark_files_whose_diff_is_unchanged() {
    let files = vec![file("a.rs", "M", 1, 0), file("b.rs", "M", 1, 0), file("c.rs", "A", 1, 0)];
    let hashes = vec!["h1".to_owned(), "h2".to_owned(), "h3".to_owned()];
    let rows = vec![
        row("branch:main", "a.rs", "h1"),
        row("branch:main", "b.rs", "old"),
        row("branch:other", "c.rs", "h3"),
    ];
    assert_eq!(reviewed_flags("branch:main", &files, &hashes, &rows), vec![true, false, false]);
    assert_eq!(reviewed_flags("branch:other", &files, &hashes, &rows), vec![false, false, true]);
    assert!(reviewed_flags("branch:main", &[], &[], &rows).is_empty());
}

#[test]
fn only_question_marks_mean_untracked() {
    assert!(is_untracked_status("??"));
    assert!(!is_untracked_status("A "));
    assert!(!is_untracked_status("?"));
}

#[test]
fn shown_diff_follows_the_selected_file_through_any_events() {
    let loaded_a = vec![line(" ", "1", "ctx"), line("+", "2", "x")];
    let loaded_b = vec![line("+", "1", "n")];
    let mut session = stored_session(vec![false, false]);
    assert_eq!(session.diff_lines(), loaded_a.as_slice());
    session.apply(ReviewAction::NextFile);
    assert_eq!(session.diff_lines(), loaded_b.as_slice());
    let request = session.apply(ReviewAction::ToggleSelectedFileReviewed).expect("a change to store");
    session.finish_persist(&request, Err("locked".to_owned()));
    assert_eq!(session.diff_lines(), loaded_b.as_slice());
    session.finish_persist(&request, Ok(()));
    session.apply(ReviewAction::NextDiffChange);
    session.apply(ReviewAction::SelectFile(7));
    assert_eq!(session.selected_file_index(), 1);
    assert_eq!(session.diff_lines(), loaded_b.as_slice());
    session.apply(ReviewAction::PreviousFile);
    session.apply(ReviewAction::NextFinding);
    assert_eq!(session.diff_lines(), loaded_a.as_slice());
    assert!(!session.diff_lines().is_empty());
}
