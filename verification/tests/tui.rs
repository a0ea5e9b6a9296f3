use review_tool::engine::{DiffLine, FileChange, ReviewSession};
use review_tool::file_tree::{
    directory_paths, files_totals_fit, indent, parent_dir_path, visible_file_rows, FileTreeRow,
};
use review_tool::tui::{
    next_focus, previous_focus, FocusPane, Key, KeyOutcome, Mouse, Separator, TreeMode, TuiState,
};

fn file(path: &str, status: &str, additions: usize, deletions: usize) -> FileChange {
    FileChange { path: path.to_owned(), status: status.to_owned(), additions, deletions }
}

fn sample_files() -> Vec<FileChange> {
    vec![
        file("src/main.rs", "M", 3, 1),
        file("README.md", "A", 2, 0),
        file("src/ui/view.rs", "M", 1, 1),
        file("src/lib.rs", "D", 0, 5),
    ]
}

fn line(prefix: &str, number: &str, content: &str) -> DiffLine {
    DiffLine { prefix: prefix.to_owned(), number: number.to_owned(), content: content.to_owned() }
}

fn long_diff() -> Vec<DiffLine> {
    let mut d = vec![line("@@", "1", "@@ -1,6 +1,7 @@")];
    for n in 1..6 {
        d.push(line(" ", &n.to_string(), "same"));
    }
    d.push(line("+", "6", "added"));
    d.push(line(" ", "7", "same"));
    d
}

fn sample_session() -> ReviewSession {
    let files = sample_files();
    let diffs = vec![long_diff(), vec![line("+", "1", "readme")], Vec::new(), vec![line("-", "1", "gone")]];
    ReviewSession::from_parts(
        "repo".to_owned(),
        "working tree".to_owned(),
        "not configured".to_owned(),
        "summary".to_owned(),
        files,
        diffs,
        Vec::new(),
        Vec::new(),
        None,
    )
}

fn describe(rows: &[FileTreeRow]) -> Vec<String> {
    rows.iter()
        .map(|row| match row {
            FileTreeRow::Directory { path, name, depth, expanded, file_count, additions, deletions } => {
                format!("dir {path} {name} {depth} {expanded} {file_count} {additions} {deletions}")
            }
            FileTreeRow::File { index, path, name, depth } => format!("file {index} {path} {name} {depth}"),
            FileTreeRow::Section { reviewed, expanded, file_count } => {
                format!("section {reviewed} {expanded} {file_count}")
            }
        })
        .collect()
}

fn strings(v: &[&str]) -> Vec<String> {
    v.iter().map(|s| s.to_string()).collect()
}

#[test]
fn collapsed_tree_shows_top_level_only() {
    let rows = visible_file_rows(&sample_files(), &Vec::new());
    assert_eq!(
        describe(&rows),
        strings(&["dir src src 0 false 3 4 7", "file 1 README.md README.md 0"])
    );
}

#[test]
fn expanded_directories_list_subdirectories_then_files_by_path() {
    let rows = visible_file_rows(&sample_files(), &vec!["src".to_owned()]);
    assert_eq!(
        describe(&rows),
        strings(&[
            "dir src src 0 true 3 4 7",
            "dir src/ui ui 1 false 1 1 1",
            "file 3 src/lib.rs lib.rs 1",
            "file 0 src/main.rs main.rs 1",
            "file 1 README.md README.md 0",
        ])
    );
}

#[test]
fn nested_directory_shows_only_under_expanded_parent() {
    let rows = visible_file_rows(&sample_files(), &vec!["src/ui".to_owned()]);
    assert_eq!(
        describe(&rows),
        strings(&["dir src src 0 false 3 4 7", "file 1 README.md README.md 0"])
    );
}

#[test]
fn fully_expanded_tree_shows_every_file() {
    let files = sample_files();
    let dirs = directory_paths(&files);
    let rows = visible_file_rows(&files, &dirs);
    let mut shown: Vec<usize> = rows
        .iter()
        .filter_map(|r| match r {
            FileTreeRow::File { index, .. } => Some(*index),
            _ => None,
        })
        .collect();
    shown.sort();
    assert_eq!(shown, vec![0, 1, 2, 3]);
}

#[test]
fn directory_paths_lists_each_level_once() {
    let mut dirs = directory_paths(&sample_files());
    dirs.sort();
    assert_eq!(dirs, strings(&["src", "src/ui"]));
    assert!(directory_paths(&[file("top.rs", "M", 0, 0)]).is_empty());
}

#[test]
fn parent_dir_splits_at_last_slash() {
    assert_eq!(parent_dir_path("src/ui/view.rs"), Some("src/ui".to_owned()));
    assert_eq!(parent_dir_path("src"), None);
    assert_eq!(parent_dir_path("/root.rs"), Some(String::new()));
}

#[test]
fn indent_is_two_spaces_per_level() {
    assert_eq!(indent(0), "");
    assert_eq!(indent(3), "      ");
}

#[test]
fn totals_fit_detects_overflowing_line_counts() {
    assert!(files_totals_fit(&sample_files()));
    assert!(!files_totals_fit(&[file("a", "M", usize::MAX, 0), file("b", "M", 1, 0)]));
    assert!(!files_totals_fit(&[file("a", "M", 0, usize::MAX), file("b", "M", 0, 1)]));
}

#[test]
fn focus_cycles_through_three_panes() {
    assert_eq!(next_focus(FocusPane::Files), FocusPane::Diff);
    assert_eq!(next_focus(FocusPane::Diff), FocusPane::Findings);
    assert_eq!(next_focus(FocusPane::Findings), FocusPane::Files);
    for f in [FocusPane::Files, FocusPane::Diff, FocusPane::Findings] {
        assert_eq!(previous_focus(next_focus(f)), f);
        assert_eq!(next_focus(next_focus(next_focus(f))), f);
    }
}

#[test]
fn new_state_expands_everything_and_points_at_selected_file() {
    let session = sample_session();
    let state = TuiState::new(&session);
    assert_eq!(state.focus(), FocusPane::Files);
    assert_eq!(state.diff_scroll(), 0);
    // rows: src, src/ui, view.rs, lib.rs, main.rs, README.md
    assert_eq!(state.file_cursor(), 4);
    let mut dirs = state.expanded_dirs().clone();
    dirs.sort();
    assert_eq!(dirs, strings(&["src", "src/ui"]));
}

#[test]
fn keys_move_the_cursor_and_select_files() {
    let mut session = sample_session();
    let mut state = TuiState::new(&session);
    assert!(matches!(state.handle_key(&mut session, Key::Down), KeyOutcome::Continue));
    assert_eq!(state.file_cursor(), 5);
    assert_eq!(session.selected_file_index(), 1);
    assert!(matches!(state.handle_key(&mut session, Key::Down), KeyOutcome::Continue));
    assert_eq!(state.file_cursor(), 5);
    state.handle_key(&mut session, Key::Up);
    state.handle_key(&mut session, Key::Up);
    assert_eq!(state.file_cursor(), 3);
    assert_eq!(session.selected_file_index(), 3);
    state.handle_key(&mut session, Key::Up);
    assert_eq!(session.selected_file_index(), 2);
    // A directory row selects nothing.
    state.handle_key(&mut session, Key::Up);
    assert_eq!(state.file_cursor(), 1);
    assert_eq!(session.selected_file_index(), 2);
}

#[test]
fn left_on_a_file_collapses_its_directory_and_moves_to_it() {
    let mut session = sample_session();
    let mut state = TuiState::new(&session);
    state.handle_key(&mut session, Key::Up); // lib.rs
    assert!(matches!(state.handle_key(&mut session, Key::Left), KeyOutcome::Continue));
    assert_eq!(state.file_cursor(), 0);
    assert_eq!(state.expanded_dirs().clone(), strings(&["src/ui"]));
    // Right expands it again, Enter collapses it.
    state.handle_key(&mut session, Key::Right);
    let mut dirs = state.expanded_dirs().clone();
    dirs.sort();
    assert_eq!(dirs, strings(&["src", "src/ui"]));
    state.handle_key(&mut session, Key::Activate);
    assert_eq!(state.expanded_dirs().clone(), strings(&["src/ui"]));
    assert_eq!(state.file_cursor(), 0);
}

#[test]
fn tab_and_arrows_move_focus_outside_the_file_pane() {
    let mut session = sample_session();
    let mut state = TuiState::new(&session);
    state.handle_key(&mut session, Key::Tab);
    assert_eq!(state.focus(), FocusPane::Diff);
    state.handle_key(&mut session, Key::Right);
    assert_eq!(state.focus(), FocusPane::Findings);
    state.handle_key(&mut session, Key::Left);
    assert_eq!(state.focus(), FocusPane::Diff);
    state.handle_key(&mut session, Key::Left);
    assert_eq!(state.focus(), FocusPane::Files);
    // Activate does nothing outside the file pane.
    state.handle_key(&mut session, Key::Tab);
    let before = state.expanded_dirs().clone();
    state.handle_key(&mut session, Key::Activate);
    assert_eq!(state.expanded_dirs().clone(), before);
    assert!(matches!(state.handle_key(&mut session, Key::Other), KeyOutcome::Continue));
    assert!(matches!(state.handle_key(&mut session, Key::Quit), KeyOutcome::Quit));
}

#[test]
fn change_keys_move_focus_to_the_diff() {
    let mut session = sample_session();
    let mut state = TuiState::new(&session);
    assert_eq!(session.selected_diff_line_index(), Some(6));
    state.handle_key(&mut session, Key::NextChange);
    assert_eq!(state.focus(), FocusPane::Diff);
    state.handle_key(&mut session, Key::PreviousChange);
    assert_eq!(state.focus(), FocusPane::Diff);
    assert_eq!(session.selected_diff_line_index(), Some(6));
}

#[test]
fn diff_scrolls_to_keep_the_selected_line_visible() {
    let session = sample_session();
    let mut state = TuiState::new(&session);
    state.ensure_selected_diff_visible(5, &session);
    assert_eq!(state.diff_scroll(), 5);
    state.ensure_selected_diff_visible(5, &session);
    assert_eq!(state.diff_scroll(), 5);
    state.ensure_selected_diff_visible(1, &session);
    assert_eq!(state.diff_scroll(), 5);
    state.ensure_selected_diff_visible(40, &session);
    assert_eq!(state.diff_scroll(), 5);
    let mut fresh = TuiState::new(&session);
    fresh.ensure_selected_diff_visible(40, &session);
    assert_eq!(fresh.diff_scroll(), 0);
}

#[test]
fn empty_diff_resets_the_scroll() {
    let mut session = sample_session();
    let mut state = TuiState::new(&session);
    state.ensure_selected_diff_visible(5, &session);
    assert_eq!(state.diff_scroll(), 5);
    // view.rs has no diff lines.
    state.handle_key(&mut session, Key::Up);
    state.handle_key(&mut session, Key::Up);
    assert_eq!(session.selected_file_index(), 2);
    state.ensure_selected_diff_visible(5, &session);
    assert_eq!(state.diff_scroll(), 0);
}

#[test]
fn clamp_keeps_the_cursor_on_a_row() {
    let session = sample_session();
    let mut state = TuiState::new(&session);
    state.clamp_file_cursor(2);
    assert_eq!(state.file_cursor(), 1);
    state.clamp_file_cursor(0);
    assert_eq!(state.file_cursor(), 0);
}

#[test]
fn reviewed_key_toggles_without_storage() {
    let mut session = sample_session();
    let mut state = TuiState::new(&session);
    assert!(!session.is_file_reviewed(0));
    assert!(matches!(state.handle_key(&mut session, Key::ToggleReviewed), KeyOutcome::Continue));
    assert!(session.is_file_reviewed(0));
    assert_eq!(session.reviewed_file_count(), 1);
    state.handle_key(&mut session, Key::ToggleReviewed);
    assert!(!session.is_file_reviewed(0));
}

#[test]
fn reviewed_key_asks_to_store_when_the_session_persists() {
    let files = vec![file("a.rs", "M", 1, 0)];
    let diffs = vec![vec![line("+", "1", "x")]];
    let mut session = ReviewSession::from_repository(
        "repo".to_owned(),
        "main working tree".to_owned(),
        "branch:main".to_owned(),
        files,
        diffs,
        vec![false],
    );
    let mut state = TuiState::new(&session);
    match state.handle_key(&mut session, Key::ToggleReviewed) {
        KeyOutcome::Store(request) => {
            assert_eq!(request.path, "a.rs");
            assert_eq!(request.review_key, "branch:main");
            assert!(request.reviewed);
            assert!(!session.is_file_reviewed(0));
            session.finish_persist(&request, Ok(()));
            assert!(session.is_file_reviewed(0));
        }
        _ => panic!("expected a change to store"),
    }
}

#[test]
fn pane_keys_hide_and_show_panes() {
    let mut session = sample_session();
    let mut state = TuiState::new(&session);
    assert!(state.files_pane_shown() && state.review_pane_shown());
    state.handle_key(&mut session, Key::ToggleFilesPane);
    assert!(!state.files_pane_shown());
    assert!(state.review_pane_shown());
    state.handle_key(&mut session, Key::ToggleReviewPane);
    assert!(!state.review_pane_shown());
    state.handle_key(&mut session, Key::ToggleFilesPane);
    state.handle_key(&mut session, Key::ToggleReviewPane);
    assert!(state.files_pane_shown() && state.review_pane_shown());
}

#[test]
fn edit_key_names_the_file_under_the_cursor() {
    let mut session = sample_session();
    let mut state = TuiState::new(&session);
    match state.handle_key(&mut session, Key::Edit) {
        KeyOutcome::Edit(path) => assert_eq!(path, "src/main.rs"),
        _ => panic!("expected a file to edit"),
    }
    state.handle_key(&mut session, Key::Up);
    state.handle_key(&mut session, Key::Up);
    state.handle_key(&mut session, Key::Up);
    assert_eq!(state.file_cursor(), 1);
    assert!(matches!(state.handle_key(&mut session, Key::Edit), KeyOutcome::Continue));
}

#[test]
fn review_tree_lists_files_to_review_then_reviewed_files() {
    let mut session = sample_session();
    let mut state = TuiState::new(&session);
    state.handle_key(&mut session, Key::ToggleReviewed);
    assert!(session.is_file_reviewed(0));
    state.handle_key(&mut session, Key::ReviewTree);
    assert_eq!(state.mode(), TreeMode::ByReview);
    assert_eq!(
        describe(&state.pane_rows(&session)),
        strings(&[
            "section false true 3",
            "dir src src 0 true 2 1 6",
            "dir src/ui ui 1 true 1 1 1",
            "file 2 src/ui/view.rs view.rs 2",
            "file 3 src/lib.rs lib.rs 1",
            "file 1 README.md README.md 0",
            "section true true 1",
            "dir src src 0 true 1 3 1",
            "file 0 src/main.rs main.rs 1",
        ])
    );
    assert_eq!(state.file_cursor(), 4);
}

#[test]
fn left_in_a_section_stays_in_that_section() {
    let mut session = sample_session();
    let mut state = TuiState::new(&session);
    state.handle_key(&mut session, Key::ToggleReviewed);
    state.handle_key(&mut session, Key::ReviewTree);
    // On src/lib.rs among the files to review: its directory closes.
    state.handle_key(&mut session, Key::Left);
    assert_eq!(state.file_cursor(), 1);
    assert_eq!(
        describe(&state.pane_rows(&session)),
        strings(&[
            "section false true 3",
            "dir src src 0 false 2 1 6",
            "file 1 README.md README.md 0",
            "section true true 1",
            "dir src src 0 false 1 3 1",
        ])
    );
    state.handle_key(&mut session, Key::Down);
    assert_eq!(session.selected_file_index(), 1);
    state.handle_key(&mut session, Key::Down);
    state.handle_key(&mut session, Key::Down);
    assert_eq!(state.file_cursor(), 4);
    assert_eq!(session.selected_file_index(), 1);
    // A closed top-level directory closes its section.
    state.handle_key(&mut session, Key::Left);
    assert_eq!(state.file_cursor(), 3);
    assert_eq!(
        describe(&state.pane_rows(&session)),
        strings(&[
            "section false true 3",
            "dir src src 0 false 2 1 6",
            "file 1 README.md README.md 0",
            "section true false 1",
        ])
    );
    state.handle_key(&mut session, Key::Activate);
    assert_eq!(state.pane_rows(&session).len(), 5);
    state.handle_key(&mut session, Key::Left);
    assert_eq!(state.pane_rows(&session).len(), 4);
    state.handle_key(&mut session, Key::Right);
    assert_eq!(state.pane_rows(&session).len(), 5);
    state.handle_key(&mut session, Key::FullTree);
    assert_eq!(state.mode(), TreeMode::Full);
    assert_eq!(
        describe(&state.pane_rows(&session)),
        strings(&["dir src src 0 false 3 4 7", "file 1 README.md README.md 0"])
    );
    assert_eq!(state.file_cursor(), 1);
}

#[test]
fn reviewing_a_file_moves_it_between_sections() {
    let mut session = sample_session();
    let mut state = TuiState::new(&session);
    state.handle_key(&mut session, Key::ReviewTree);
    let rows = describe(&state.pane_rows(&session));
    assert_eq!(rows.first().unwrap(), "section false true 4");
    assert_eq!(rows.last().unwrap(), "section true true 0");
    state.handle_key(&mut session, Key::ToggleReviewed);
    let rows = describe(&state.pane_rows(&session));
    assert_eq!(rows[0], "section false true 3");
    assert!(rows.contains(&"section true true 1".to_owned()));
    assert_eq!(rows.last().unwrap(), "file 0 src/main.rs main.rs 1");
}

#[test]
fn panes_start_at_their_widths_and_keep_the_diff_pane_wide() {
    let session = sample_session();
    let state = TuiState::new(&session);
    assert_eq!((state.files_width(), state.review_width()), (28, 34));
    assert_eq!(state.dragging(), None);
    assert_eq!(state.pane_widths(120), (28, 58, 34));
    assert_eq!(state.pane_widths(80), (28, 42, 10));
    assert_eq!(state.pane_widths(30), (0, 30, 0));
}

#[test]
fn dragging_the_files_separator_resizes_the_files_pane() {
    let session = sample_session();
    let mut state = TuiState::new(&session);
    state.handle_mouse(Mouse::Press(27), 120);
    assert_eq!(state.dragging(), Some(Separator::FilesDiff));
    state.handle_mouse(Mouse::Drag(39), 120);
    assert_eq!(state.files_width(), 40);
    assert_eq!(state.pane_widths(120), (40, 46, 34));
    state.handle_mouse(Mouse::Drag(2), 120);
    assert_eq!(state.files_width(), 12);
    state.handle_mouse(Mouse::Drag(100), 120);
    assert_eq!(state.files_width(), 44);
    assert_eq!(state.pane_widths(120), (44, 42, 34));
    state.handle_mouse(Mouse::Release, 120);
    assert_eq!(state.dragging(), None);
    state.handle_mouse(Mouse::Drag(20), 120);
    assert_eq!(state.files_width(), 44);
}

#[test]
fn dragging_the_review_separator_resizes_the_review_pane() {
    let session = sample_session();
    let mut state = TuiState::new(&session);
    state.handle_mouse(Mouse::Press(86), 120);
    assert_eq!(state.dragging(), Some(Separator::DiffReview));
    state.handle_mouse(Mouse::Drag(70), 120);
    assert_eq!(state.review_width(), 50);
    assert_eq!(state.pane_widths(120), (28, 42, 50));
    state.handle_mouse(Mouse::Drag(110), 120);
    assert_eq!(state.review_width(), 12);
    state.handle_mouse(Mouse::Press(60), 120);
    assert_eq!(state.dragging(), None);
}

#[test]
fn a_hidden_pane_has_no_separator_to_drag() {
    let mut session = sample_session();
    let mut state = TuiState::new(&session);
    state.handle_key(&mut session, Key::ToggleFilesPane);
    assert_eq!(state.pane_widths(120), (0, 86, 34));
    state.handle_mouse(Mouse::Press(27), 120);
    assert_eq!(state.dragging(), None);
    state.handle_mouse(Mouse::Press(85), 120);
    assert_eq!(state.dragging(), Some(Separator::DiffReview));
}
