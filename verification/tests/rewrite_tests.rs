use lgit::error::CommitGenError;
use lgit::rewrite::{apply_preview_limit, check_rewrite_preconditions, collect_generation_results,
    plan_rewrite, GenerationOutcome, RewritePlan};
use lgit::types::CommitMetadata;

fn commit(i: usize) -> CommitMetadata {
    CommitMetadata { hash: format!("hash{i:04}"), message: format!("old message {i}") }
}

#[test]
fn plan_follows_flags() {
    assert_eq!(plan_rewrite(true, Some(5)), RewritePlan::ListOnly);
    assert_eq!(plan_rewrite(true, None), RewritePlan::GenerateOnly);
    assert_eq!(plan_rewrite(false, Some(5)), RewritePlan::GenerateOnly);
    assert_eq!(plan_rewrite(false, None), RewritePlan::GenerateAndRewrite);
}

#[test]
fn dirty_tree_is_refused_only_for_mutating_runs() {
    assert!(check_rewrite_preconditions(false, None, true).is_ok());
    assert!(check_rewrite_preconditions(true, None, false).is_ok());
    assert!(check_rewrite_preconditions(false, Some(3), false).is_ok());
    match check_rewrite_preconditions(false, None, false) {
        Err(CommitGenError::Other { message }) => {
            assert_eq!(message, "Working directory not clean. Commit or stash changes first.");
        },
        _ => panic!("expected a refusal"),
    }
}

#[test]
fn preview_limit_truncates_before_details_are_fetched() {
    let mut hashes = vec!["a".to_string(), "b".to_string(), "c".to_string()];
    apply_preview_limit(&mut hashes, Some(2));
    assert_eq!(hashes, vec!["a".to_string(), "b".to_string()]);

    let mut hashes = vec!["a".to_string(), "b".to_string()];
    apply_preview_limit(&mut hashes, None);
    assert_eq!(hashes.len(), 2);

    let mut hashes = vec!["a".to_string()];
    apply_preview_limit(&mut hashes, Some(9));
    assert_eq!(hashes.len(), 1);
}

#[test]
fn completion_order_never_moves_a_slot() {
    // three tasks complete out of order; slots stay put
    let commits: Vec<CommitMetadata> = (0..3).map(commit).collect();
    let outcomes = vec![
        GenerationOutcome { index: 2, result: Ok("feat: two".to_string()) },
        GenerationOutcome { index: 0, result: Ok("feat: zero".to_string()) },
        GenerationOutcome { index: 1, result: Ok("feat: one".to_string()) },
    ];
    let (messages, failures) = collect_generation_results(&commits, &outcomes);
    assert_eq!(
        messages,
        vec!["feat: zero".to_string(), "feat: one".to_string(), "feat: two".to_string()]
    );
    assert!(failures.is_empty());
}

#[test]
fn failed_slot_falls_back_to_original_message() {
    // ten commits, one bounded-concurrency batch, the task for commit
    // index 3 fails: the list keeps its length, slot 3 keeps the old
    // message, every other slot holds the generated text
    let commits: Vec<CommitMetadata> = (0..10).map(commit).collect();
    let mut outcomes: Vec<GenerationOutcome> = Vec::new();
    // completion order interleaved as a three-wide window might yield it
    for &i in &[1usize, 0, 3, 2, 5, 4, 7, 8, 6, 9] {
        if i == 3 {
            outcomes.push(GenerationOutcome { index: i, result: Err("network down".to_string()) });
        } else {
            outcomes.push(GenerationOutcome { index: i, result: Ok(format!("feat: change {i}")) });
        }
    }
    let (messages, failures) = collect_generation_results(&commits, &outcomes);
    assert_eq!(messages.len(), 10);
    for i in 0..10 {
        if i == 3 {
            assert_eq!(messages[i], "old message 3");
        } else {
            assert_eq!(messages[i], format!("feat: change {i}"));
        }
    }
    assert_eq!(failures, vec![(3usize, "network down".to_string())]);
}

#[test]
fn all_failures_keep_every_original_message() {
    let commits: Vec<CommitMetadata> = (0..4).map(commit).collect();
    let outcomes: Vec<GenerationOutcome> = (0..4)
        .map(|i| GenerationOutcome { index: i, result: Err(format!("err {i}")) })
        .collect();
    let (messages, failures) = collect_generation_results(&commits, &outcomes);
    for i in 0..4 {
        assert_eq!(messages[i], format!("old message {i}"));
    }
    assert_eq!(failures.len(), 4);
    assert_eq!(failures[0], (0usize, "err 0".to_string()));
}
