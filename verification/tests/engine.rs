use review_tool::engine::{
    parse_hunk_header, parse_unified_diff, DiffLine, FileChange, ReviewAction, ReviewSession,
};

fn line(prefix: &str, number: &str, content: &str) -> DiffLine {
    DiffLine {
        prefix: prefix.to_owned(),
        number: number.to_owned(),
        content: content.to_owned(),
    }
}

fn test_session() -> ReviewSession {
    ReviewSession::from_parts(
        "repo".to_owned(),
        "working tree".to_owned(),
        "not configured".to_owned(),
        "test".to_owned(),
        vec![
            FileChange {
                path: "a.rs".to_owned(),
                status: "M".to_owned(),
                additions: 1,
                deletions: 0,
            },
            FileChange {
                path: "b.rs".to_owned(),
                status: "M".to_owned(),
                additions: 1,
                deletions: 0,
            },
        ],
        vec![
            vec![
                line("@@", "1", "@@ -1,2 +1,3 @@"),
                line("+", "1", "a"),
                line(" ", "2", "context"),
                line("-", "3", "old"),
                line("+", "3", "new"),
            ],
            vec![
                line("@@", "1", "@@ -1,1 +1,1 @@"),
                line(" ", "1", "context"),
                line("+", "2", "b"),
            ],
        ],
        Vec::new(),
        Vec::new(),
        None,
    )
}

#[test]
fn selecting_file_resets_finding_selection() {
    let mut session = test_session();

    session.apply(ReviewAction::SelectFinding(2));
    session.apply(ReviewAction::SelectFile(1));

    assert_eq!(session.selected_file_index(), 1);
    assert_eq!(session.selected_finding_index(), 0);
    assert_eq!(session.selected_diff_line_index(), Some(2));
}

#[test]
fn navigation_wraps() {
    let mut session = test_session();

    session.apply(ReviewAction::PreviousFile);
    assert_eq!(session.selected_file_index(), session.files().len() - 1);

    session.apply(ReviewAction::NextFile);
    assert_eq!(session.selected_file_index(), 0);
}

#[test]
fn parses_hunk_line_numbers() {
    assert_eq!(
        parse_hunk_header("@@ -12,2 +20,3 @@ fn main()"),
        Some((12, 20))
    );
}

#[test]
fn parses_diff_line_kinds_and_numbers() {
    let diff = parse_unified_diff(
        "diff --git a/a.rs b/a.rs\n@@ -3,2 +3,2 @@\n old\n-removed\n+added\n",
    );

    assert_eq!(diff[1].prefix, "@@");
    assert_eq!(diff[2].number, "3");
    assert_eq!(diff[3].prefix, "-");
    assert_eq!(diff[3].number, "4");
    assert_eq!(diff[4].prefix, "+");
    assert_eq!(diff[4].number, "4");
}

#[test]
fn diff_change_navigation_wraps_between_change_blocks() {
    let mut session = test_session();

    assert_eq!(session.selected_diff_line_index(), Some(1));
    assert_eq!(session.selected_diff_change_position(), Some((1, 2)));
    assert_eq!(session.selected_diff_change_range(), Some(1..2));

    session.apply(ReviewAction::NextDiffChange);
    assert_eq!(session.selected_diff_line_index(), Some(3));
    assert_eq!(session.selected_diff_change_position(), Some((2, 2)));
    assert_eq!(session.selected_diff_change_range(), Some(3..5));

    session.apply(ReviewAction::NextDiffChange);
    assert_eq!(session.selected_diff_line_index(), Some(1));

    session.apply(ReviewAction::PreviousDiffChange);
    assert_eq!(session.selected_diff_line_index(), Some(3));
}

#[test]
fn toggles_selected_file_reviewed_state() {
    let mut session = test_session();

    assert_eq!(session.pending_file_count(), 2);
    assert_eq!(session.reviewed_file_count(), 0);
    assert!(!session.is_file_reviewed(0));

    session.apply(ReviewAction::ToggleSelectedFileReviewed);
    assert!(session.is_file_reviewed(0));
    assert_eq!(session.pending_file_count(), 1);
    assert_eq!(session.reviewed_file_count(), 1);

    session.apply(ReviewAction::ToggleSelectedFileReviewed);
    assert!(!session.is_file_reviewed(0));
    assert_eq!(session.pending_file_count(), 2);
    assert_eq!(session.reviewed_file_count(), 0);
}
