use lgit::error::CommitGenError;
use lgit::patch::{create_patch_for_changes, extract_file_diff, extract_hunks_for_file,
    normalize_hunk_header, stage_group_changes};
use lgit::types::{ChangeGroup, FileChange};

fn full_diff() -> Vec<u8> {
    let mut text = String::new();
    text.push_str("diff --git a/a.txt b/a.txt\nindex 1111111..2222222 100644\n");
    text.push_str("--- a/a.txt\n+++ b/a.txt\n@@ -1,2 +1,3 @@ top\n line1\n+line2\n line3\n");
    text.push_str("diff --git a/b.txt b/b.txt\nindex 3333333..4444444 100644\n");
    text.push_str("--- a/b.txt\n+++ b/b.txt\n@@ -5,2 +5,2 @@ other\n-x\n+y\n");
    text.into_bytes()
}

fn a_section() -> String {
    let mut text = String::new();
    text.push_str("diff --git a/a.txt b/a.txt\nindex 1111111..2222222 100644\n");
    text.push_str("--- a/a.txt\n+++ b/a.txt\n@@ -1,2 +1,3 @@ top\n line1\n+line2\n line3\n");
    text
}

#[test]
fn normalize_keeps_ranges_only() {
    let r = normalize_hunk_header(b"@@ -1,5 +1,6 @@ fn main()");
    assert_eq!(r, b"-1,5+1,6".to_vec());
}

#[test]
fn normalize_ignores_surrounding_whitespace() {
    let bare = normalize_hunk_header(b"@@ -1,5 +1,6 @@");
    let padded = normalize_hunk_header(b"   @@ -1,5 +1,6 @@   ");
    assert_eq!(bare, padded);
}

#[test]
fn normalize_ignores_trailing_context() {
    let one = normalize_hunk_header(b"@@ -1,5 +1,6 @@ impl Foo");
    let two = normalize_hunk_header(b"@@ -1,5 +1,6 @@ impl Bar (changed)");
    assert_eq!(one, two);
}

#[test]
fn normalize_drops_digits_in_context() {
    // a digit inside the trailing context must not leak into the form
    let r = normalize_hunk_header(b"@@ -1,5 +1,6 @@ fn foo2()");
    assert_eq!(r, b"-1,5+1,6".to_vec());
}

#[test]
fn normalize_distinguishes_numeric_drift() {
    let one = normalize_hunk_header(b"@@ -1,5 +1,6 @@ ctx");
    let two = normalize_hunk_header(b"@@ -1,5 +2,6 @@ ctx");
    assert_ne!(one, two);
}

#[test]
fn normalize_without_marker_filters_whole_text() {
    let r = normalize_hunk_header(b"stale -3,4 ref");
    assert_eq!(r, b"-3,4".to_vec());
}

#[test]
fn extract_finds_section() {
    let d = full_diff();
    let r = extract_file_diff(&d, b"a.txt").unwrap();
    assert_eq!(String::from_utf8(r).unwrap(), a_section());
}

#[test]
fn extract_missing_path_is_not_found() {
    let d = full_diff();
    match extract_file_diff(&d, b"missing.txt") {
        Err(CommitGenError::NotFound { path }) => assert_eq!(path, b"missing.txt".to_vec()),
        _ => panic!("expected a not-found error"),
    }
}

#[test]
fn extract_is_idempotent() {
    let d = full_diff();
    let once = extract_file_diff(&d, b"a.txt").unwrap();
    let twice = extract_file_diff(&once, b"a.txt").unwrap();
    assert_eq!(once, twice);
}

#[test]
fn whole_file_selection_takes_one_section_only() {
    let d = full_diff();
    let r = extract_hunks_for_file(&d, b"a.txt", &vec![b"ALL".to_vec()]).unwrap();
    let text = String::from_utf8(r).unwrap();
    assert_eq!(text, a_section());
    assert!(!text.contains("b.txt"));
    assert!(!text.contains("other"));
}

fn x_diff() -> Vec<u8> {
    let mut text = String::new();
    text.push_str("diff --git a/x.rs b/x.rs\n--- a/x.rs\n+++ b/x.rs\n");
    text.push_str("@@ -1,5 +1,6 @@ alpha\n+first\n@@ -20,3 +21,4 @@ beta\n+second\n");
    text.into_bytes()
}

#[test]
fn selecting_one_hunk_keeps_exactly_that_block() {
    let d = x_diff();
    let r = extract_hunks_for_file(&d, b"x.rs", &vec![b"@@ -1,5 +1,6 @@".to_vec()]).unwrap();
    let text = String::from_utf8(r).unwrap();
    assert_eq!(
        text,
        "diff --git a/x.rs b/x.rs\n--- a/x.rs\n+++ b/x.rs\n@@ -1,5 +1,6 @@ alpha\n+first\n"
    );
    assert!(text.contains("+first"));
    assert!(!text.contains("+second"));
    assert!(!text.contains("-20,3"));
}

#[test]
fn stale_hunk_reference_fails_with_unmatched_list() {
    let d = x_diff();
    let r = extract_hunks_for_file(&d, b"x.rs", &vec![b"@@ -9,9 +9,9 @@".to_vec()]);
    match r {
        Err(CommitGenError::ValidationError { path, unmatched_hunks }) => {
            assert_eq!(path, b"x.rs".to_vec());
            assert_eq!(unmatched_hunks, vec![b"@@ -9,9 +9,9 @@".to_vec()]);
        },
        _ => panic!("expected a validation error"),
    }
}

#[test]
fn composition_is_all_or_nothing() {
    // one good change and one with only a stale hunk: the whole
    // composition fails and no staging plan is produced
    let d = full_diff();
    let changes = vec![
        FileChange { path: b"a.txt".to_vec(), hunks: vec![b"ALL".to_vec()] },
        FileChange { path: b"b.txt".to_vec(), hunks: vec![b"@@ -99,1 +99,1 @@".to_vec()] },
    ];
    assert!(create_patch_for_changes(&d, &changes).is_err());
    let group = ChangeGroup { changes };
    assert!(stage_group_changes(&group, &d).is_err());
}

#[test]
fn multi_file_composition_concatenates_in_order() {
    let d = full_diff();
    let changes = vec![
        FileChange { path: b"b.txt".to_vec(), hunks: vec![b"@@ -5,2 +5,2 @@".to_vec()] },
        FileChange { path: b"a.txt".to_vec(), hunks: vec![b"ALL".to_vec()] },
    ];
    let patch = String::from_utf8(create_patch_for_changes(&d, &changes).unwrap()).unwrap();
    let b_at = patch.find("b/b.txt").unwrap();
    let a_at = patch.find("b/a.txt").unwrap();
    assert!(b_at < a_at);
    assert!(patch.contains("+y"));
    assert!(patch.contains("+line2"));
}

#[test]
fn staging_plan_sorts_and_dedups_whole_files() {
    let d = full_diff();
    let group = ChangeGroup {
        changes: vec![
            FileChange { path: b"b.txt".to_vec(), hunks: vec![b"ALL".to_vec()] },
            FileChange { path: b"a.txt".to_vec(), hunks: vec![b"ALL".to_vec()] },
            FileChange { path: b"a.txt".to_vec(), hunks: vec![b"ALL".to_vec()] },
        ],
    };
    let plan = stage_group_changes(&group, &d).unwrap();
    assert_eq!(plan.files_to_stage, vec![b"a.txt".to_vec(), b"b.txt".to_vec()]);
    assert!(plan.patch.is_none());
}

#[test]
fn staging_plan_mixes_whole_files_and_patch() {
    let d = full_diff();
    let group = ChangeGroup {
        changes: vec![
            FileChange { path: b"a.txt".to_vec(), hunks: vec![b"ALL".to_vec()] },
            FileChange { path: b"b.txt".to_vec(), hunks: vec![b"@@ -5,2 +5,2 @@".to_vec()] },
        ],
    };
    let plan = stage_group_changes(&group, &d).unwrap();
    assert_eq!(plan.files_to_stage, vec![b"a.txt".to_vec()]);
    let patch = String::from_utf8(plan.patch.unwrap()).unwrap();
    assert!(patch.contains("b/b.txt"));
    assert!(patch.contains("+y"));
    assert!(!patch.contains("a.txt"));
}

#[test]
fn empty_group_stages_nothing() {
    let d = full_diff();
    let group = ChangeGroup { changes: vec![] };
    let plan = stage_group_changes(&group, &d).unwrap();
    assert!(plan.files_to_stage.is_empty());
    assert!(plan.patch.is_none());
}

#[test]
fn composition_fails_on_missing_path() {
    let d = full_diff();
    let changes = vec![FileChange { path: b"missing.txt".to_vec(), hunks: vec![b"ALL".to_vec()] }];
    match create_patch_for_changes(&d, &changes) {
        Err(CommitGenError::NotFound { path }) => assert_eq!(path, b"missing.txt".to_vec()),
        _ => panic!("expected a not-found error"),
    }
}

#[test]
fn two_partial_changes_compose_in_caller_order() {
    let d = x_diff();
    let changes = vec![
        FileChange { path: b"x.rs".to_vec(), hunks: vec![b"@@ -20,3 +21,4 @@".to_vec()] },
        FileChange { path: b"x.rs".to_vec(), hunks: vec![b"@@ -1,5 +1,6 @@".to_vec()] },
    ];
    let patch = String::from_utf8(create_patch_for_changes(&d, &changes).unwrap()).unwrap();
    let second_at = patch.find("+second").unwrap();
    let first_at = patch.find("+first").unwrap();
    assert!(second_at < first_at);
}

#[test]
fn git_error_constructor_keeps_message() {
    match CommitGenError::git("boom".to_string()) {
        CommitGenError::GitError { message } => assert_eq!(message, "boom"),
        _ => panic!("expected a git error"),
    }
}
