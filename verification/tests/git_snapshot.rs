use review_tool::git::diff::{
    build_untracked_diff, fallback_diff_for_status, parse_unified_diff, unified_diff_readable,
    DiffLine,
};
use review_tool::git::snapshot::{
    count_untracked_file_stats, diff_lines_from_output, diff_source, last_commit_changes,
    last_commit_numstat_args, parse_numstat_output, porcelain_entries, snapshot_kind,
    worktree_changes, worktree_numstat_args, commit_count, DiffSource, NumStat, ReviewMode,
    SnapshotKind,
};
use review_tool::git::status::{parse_name_status, parse_porcelain_status, summarize_status, StatusEntry};

fn texts(lines: &[DiffLine]) -> Vec<(String, String, String)> {
    lines
        .iter()
        .map(|l| (l.prefix.clone(), l.number.clone(), l.content.clone()))
        .collect()
}

fn t(a: &str, b: &str, c: &str) -> (String, String, String) {
    (a.to_owned(), b.to_owned(), c.to_owned())
}

fn entry(path: &str, status: &str, untracked: bool) -> StatusEntry {
    StatusEntry { path: path.to_owned(), status: status.to_owned(), untracked }
}

#[test]
fn summarizes_status_codes() {
    assert_eq!(summarize_status("??"), "A");
    assert_eq!(summarize_status(" M"), "M");
    assert_eq!(summarize_status("D "), "D");
    assert_eq!(summarize_status("R "), "R");
    assert_eq!(summarize_status("C "), "R");
    assert_eq!(summarize_status("UU"), "U");
    assert_eq!(summarize_status("  "), "M");
    assert_eq!(summarize_status(" A"), "A");
}

#[test]
fn reads_porcelain_lines() {
    let e = parse_porcelain_status(" M src/main.rs").unwrap();
    assert_eq!(e.path, "src/main.rs");
    assert_eq!(e.status, "M");
    assert!(!e.untracked);

    let e = parse_porcelain_status("?? notes.txt").unwrap();
    assert_eq!(e.status, "A");
    assert!(e.untracked);

    let e = parse_porcelain_status("R  old.rs -> new.rs").unwrap();
    assert_eq!(e.path, "new.rs");
    assert_eq!(e.status, "R");

    assert!(parse_porcelain_status("!! target").is_none());
    assert!(parse_porcelain_status("M").is_none());
}

#[test]
fn reads_name_status_lines() {
    let e = parse_name_status("M\tsrc/lib.rs").unwrap();
    assert_eq!(e.path, "src/lib.rs");
    assert_eq!(e.status, "M");
    let e = parse_name_status("R100\told.rs\tnew.rs").unwrap();
    assert_eq!(e.path, "new.rs");
    assert_eq!(e.status, "R");
    assert!(parse_name_status("no tab here").is_none());
}

#[test]
fn porcelain_output_gives_entries_in_order() {
    let entries = porcelain_entries(" M b.rs\n?? a.txt\n!! ignored\nx\n").unwrap();
    assert_eq!(entries.len(), 2);
    assert_eq!(entries[0].path, "b.rs");
    assert_eq!(entries[1].path, "a.txt");
    assert!(entries[1].untracked);
}

#[test]
fn porcelain_output_refuses_lines_it_cannot_cut() {
    assert!(porcelain_entries("aé file").is_none());
}

#[test]
fn numstat_sums_counts_per_path() {
    let stats = parse_numstat_output("3\t1\tsrc/a.rs\n-\t-\timage.png\n2\t0\told.rs -> src/b.rs\n1\t1\tsrc/a.rs\n\t\t\n").unwrap();
    assert_eq!(stats.len(), 3);
    let a = stats.iter().find(|s| s.path == "src/a.rs").unwrap();
    assert_eq!((a.additions, a.deletions), (4, 2));
    let img = stats.iter().find(|s| s.path == "image.png").unwrap();
    assert_eq!((img.additions, img.deletions), (0, 0));
    let b = stats.iter().find(|s| s.path == "src/b.rs").unwrap();
    assert_eq!((b.additions, b.deletions), (2, 0));
}

#[test]
fn numstat_overflow_is_refused() {
    let big = usize::MAX.to_string();
    let text = format!("{big}\t0\ta.rs\n1\t0\ta.rs\n");
    assert!(parse_numstat_output(&text).is_none());
}

#[test]
fn untracked_file_counts_its_lines() {
    assert_eq!(count_untracked_file_stats(Some(b"one\ntwo\nthree".to_vec())), (3, 0));
    assert_eq!(count_untracked_file_stats(Some(b"bin\0ary".to_vec())), (0, 0));
    assert_eq!(count_untracked_file_stats(None), (0, 0));
    assert_eq!(count_untracked_file_stats(Some(Vec::new())), (0, 0));
}

#[test]
fn worktree_changes_take_stats_once_and_sort_by_path() {
    let entries = vec![
        entry("z.rs", "M", false),
        entry("new.txt", "A", true),
        entry("z.rs", "M", false),
        entry("a.rs", "D", false),
    ];
    let stats = vec![
        NumStat { path: "z.rs".to_owned(), additions: 5, deletions: 2 },
        NumStat { path: "a.rs".to_owned(), additions: 0, deletions: 7 },
    ];
    let counts = vec![(0, 0), (4, 0), (0, 0), (0, 0)];
    let files = worktree_changes(&entries, &stats, &counts);
    let rows: Vec<(String, usize, usize, bool)> =
        files.iter().map(|f| (f.path.clone(), f.additions, f.deletions, f.untracked)).collect();
    assert_eq!(
        rows,
        vec![
            ("a.rs".to_owned(), 0, 7, false),
            ("new.txt".to_owned(), 4, 0, true),
            ("z.rs".to_owned(), 5, 2, false),
            ("z.rs".to_owned(), 0, 0, false),
        ]
    );
    assert!(files.iter().all(|f| f.diff_lines.is_none()));
}

#[test]
fn last_commit_changes_read_name_status() {
    let stats = vec![NumStat { path: "b.rs".to_owned(), additions: 2, deletions: 1 }];
    let files = last_commit_changes("M\tb.rs\nA\ta.rs\n\n", &stats);
    assert_eq!(files.len(), 2);
    assert_eq!(files[0].path, "a.rs");
    assert_eq!((files[0].additions, files[0].deletions), (0, 0));
    assert_eq!(files[1].path, "b.rs");
    assert_eq!((files[1].additions, files[1].deletions), (2, 1));
    assert_eq!(files[1].status, "M");
}

#[test]
fn snapshot_kind_and_commit_count() {
    assert_eq!(snapshot_kind(" M a.rs\n", true), SnapshotKind::WorkingTree);
    assert_eq!(snapshot_kind("  \n", true), SnapshotKind::LastCommit);
    assert_eq!(snapshot_kind("", false), SnapshotKind::Empty);
    assert_eq!(commit_count(" 12\n"), 12);
    assert_eq!(commit_count("x"), 1);
}

#[test]
fn numstat_arguments_follow_the_review_mode() {
    assert_eq!(
        worktree_numstat_args(true),
        vec!["diff", "--no-ext-diff", "--find-renames", "--numstat", "HEAD"]
    );
    assert_eq!(
        worktree_numstat_args(false),
        vec!["diff", "--no-ext-diff", "--find-renames", "--cached", "--numstat"]
    );
    assert_eq!(last_commit_numstat_args(false), vec!["show", "--format=", "--numstat", "--root", "HEAD"]);
}

#[test]
fn diff_source_follows_the_review_mode() {
    match diff_source(ReviewMode::WorkingTree { has_head: true }, "src/a.rs", false) {
        DiffSource::Git { args, retry } => {
            assert_eq!(args, vec!["diff", "--no-ext-diff", "--find-renames", "--unified=3", "HEAD", "--", "src/a.rs"]);
            assert_eq!(
                retry.unwrap(),
                vec!["diff", "--no-ext-diff", "--find-renames", "--cached", "--unified=3", "--", "src/a.rs"]
            );
        }
        _ => panic!("expected a git diff"),
    }
    match diff_source(ReviewMode::LastCommit { has_parent: false }, "a", false) {
        DiffSource::Git { args, retry } => {
            assert_eq!(args, vec!["show", "--format=", "--unified=3", "--root", "HEAD", "--", "a"]);
            assert!(retry.is_none());
        }
        _ => panic!("expected a git diff"),
    }
    assert!(matches!(diff_source(ReviewMode::Empty, "a", false), DiffSource::NoDiff));
    assert!(matches!(diff_source(ReviewMode::Empty, "a", true), DiffSource::UntrackedFile));
}

#[test]
fn snapshot_diff_numbers_both_sides() {
    let text = "diff --git a/x b/x\n@@ -3,2 +5,3 @@ fn f()\n context\n-old\n+new\n+more\nplain";
    assert!(unified_diff_readable(text));
    let lines = parse_unified_diff(text);
    assert_eq!(
        texts(&lines),
        vec![
            t(">", "", "diff --git a/x b/x"),
            t("@@", "3:5", "@@ -3,2 +5,3 @@ fn f()"),
            t(" ", "3:5", "context"),
            t("-", "4", "old"),
            t("+", "6", "new"),
            t("+", "7", "more"),
            t(">", "", "plain"),
        ]
    );
}

#[test]
fn unreadable_hunk_header_is_reported() {
    assert!(!unified_diff_readable("@@ é1,2 +1 @@"));
}

#[test]
fn untracked_diff_shows_every_line() {
    let lines = build_untracked_diff("notes.txt", Ok(b"a\nb\n".to_vec()));
    assert_eq!(
        texts(&lines),
        vec![
            t(">", "", "diff --git a/notes.txt b/notes.txt"),
            t(">", "", "new file mode 100644"),
            t(">", "", "--- /dev/null"),
            t(">", "", "+++ b/notes.txt"),
            t("@@", "1", "@@ -0,0 +1,2 @@"),
            t("+", "1", "a"),
            t("+", "2", "b"),
        ]
    );
    let empty = build_untracked_diff("e", Ok(Vec::new()));
    assert_eq!(texts(&empty)[4], t("@@", "", "@@ -0,0 +1,0 @@"));
    assert_eq!(texts(&empty)[5], t(">", "", "Empty file"));
    let binary = build_untracked_diff("b", Ok(vec![1, 0, 2]));
    assert_eq!(texts(&binary)[4], t(">", "", "Binary or non-text file preview unavailable."));
    let failed = build_untracked_diff("gone", Err("not found".to_owned()));
    assert_eq!(texts(&failed), vec![t(">", "", "Unable to read gone: not found")]);
}

#[test]
fn fallback_diffs_by_status() {
    let deleted = fallback_diff_for_status(&entry("old.rs", "D", false), None);
    assert_eq!(
        texts(&deleted),
        vec![t(">", "", "diff --git a/old.rs b/old.rs"), t(">", "", "deleted file old.rs")]
    );
    let other = fallback_diff_for_status(&entry("m.rs", "M", false), None);
    assert_eq!(texts(&other), vec![t(">", "", "No textual diff available for this change.")]);
    let added = fallback_diff_for_status(&entry("n.rs", "A", false), Some(Ok(b"x".to_vec())));
    assert_eq!(texts(&added).len(), 6);
}

#[test]
fn blank_diff_output_falls_back() {
    let lines = diff_lines_from_output(&entry("m.rs", "M", false), "  \n", None);
    assert_eq!(texts(&lines), vec![t(">", "", "No textual diff available for this change.")]);
    let lines = diff_lines_from_output(&entry("m.rs", "M", false), "+x", None);
    assert_eq!(texts(&lines), vec![t("+", "0", "x")]);
}
