use vstd::prelude::*;
use vstd::pervasive::VecAdditionalExecFns;

use crate::error::CommitGenError;
use crate::types::CommitMetadata;

verus! {

/// What the history-rewrite pipeline does after the commit metadata is in
/// hand, as decided by the dry-run flag and the preview count.
#[derive(Debug, PartialEq, Eq, Structural)]
pub enum RewritePlan {
    /// Dry run with a preview count: list the existing messages; no
    /// generation and no mutation.
    ListOnly,
    /// Dry run or preview alone: generate and show the results, then
    /// stop; no mutation.
    GenerateOnly,
    /// Generate, create the backup reference, and rewrite history.
    GenerateAndRewrite,
}

/// The plan the flags call for.
pub open spec fn spec_rewrite_plan(dry_run: bool, preview_given: bool) -> RewritePlan {
    if dry_run && preview_given {
        RewritePlan::ListOnly
    } else if dry_run || preview_given {
        RewritePlan::GenerateOnly
    } else {
        RewritePlan::GenerateAndRewrite
    }
}

/// Decide what the run does from the dry-run flag and the preview count.
pub fn plan_rewrite(dry_run: bool, preview: Option<usize>) -> (p: RewritePlan)
    ensures
        p == spec_rewrite_plan(dry_run, preview is Some),
{
    if dry_run && preview.is_some() {
        RewritePlan::ListOnly
    } else if dry_run || preview.is_some() {
        RewritePlan::GenerateOnly
    } else {
        RewritePlan::GenerateAndRewrite
    }
}

/// The refusal printed when the working tree is dirty and the run would
/// mutate history.
pub open spec fn dirty_tree_note() -> Seq<char> {
    "Working directory not clean. Commit or stash changes first."@
}

/// Reject a mutating run on a dirty working tree.
///
/// Every plan but the mutating one goes ahead whatever the tree holds;
/// the mutating plan demands a clean tree and is refused otherwise.
pub fn check_rewrite_preconditions(dry_run: bool, preview: Option<usize>, tree_clean: bool) -> (r:
    Result<(), CommitGenError>)
    ensures
        r is Ok <==> (dry_run || preview is Some || tree_clean),
        r matches Err(e) ==> e matches CommitGenError::Other { message } && message@
            == dirty_tree_note(),
{
    if dry_run || preview.is_some() || tree_clean {
        Ok(())
    } else {
        Err(
            CommitGenError::Other {
                message: String::from_str(
                    "Working directory not clean. Commit or stash changes first.",
                ),
            },
        )
    }
}

/// Truncate the commit list to the first `n` entries when a preview count
/// `n` is given; an absent count, or one past the end, keeps the list.
pub fn apply_preview_limit(hashes: &mut Vec<String>, preview: Option<usize>)
    ensures
        match preview {
            Some(n) => {
                &&& n <= old(hashes)@.len() ==> final(hashes)@ == old(hashes)@.subrange(
                    0,
                    n as int,
                )
                &&& n > old(hashes)@.len() ==> final(hashes)@ == old(hashes)@
            },
            None => final(hashes)@ == old(hashes)@,
        },
{
    match preview {
        Some(n) => hashes.truncate(n),
        None => {},
    }
}

/// One generation task's outcome: the commit's original index, and either
/// the newly generated message or the generator's diagnostic text.
pub struct GenerationOutcome {
    pub index: usize,
    pub result: Result<String, String>,
}

/// The failure records of `outs` in arrival order: each failed outcome's
/// index and diagnostic text.
pub open spec fn spec_failures(outs: Seq<GenerationOutcome>) -> Seq<(int, Seq<char>)>
    decreases outs.len(),
{
    if outs.len() == 0 {
        Seq::empty()
    } else {
        let rest = spec_failures(outs.drop_first());
        match outs[0].result {
            Ok(_) => rest,
            Err(e) => seq![(outs[0].index as int, e@)] + rest,
        }
    }
}

/// Collect per-commit generation outcomes, arriving in any completion
/// order, into the ordered replacement-message list.
///
/// Slot `i` of the result holds the message generated for commit `i`, or
/// commit `i`'s original message when that task failed — a message is
/// never blanked and slots never shift, whatever order the outcomes come
/// in. The second list records the failures, in arrival order, for the
/// end-of-run summary. The result always has exactly one message per
/// commit.
pub fn collect_generation_results(
    commits: &Vec<CommitMetadata>,
    outcomes: &Vec<GenerationOutcome>,
) -> (r: (Vec<String>, Vec<(usize, String)>))
    requires
        outcomes@.len() == commits@.len(),
        forall|k: int|
            0 <= k < outcomes@.len() ==> (#[trigger] outcomes@[k].index) < commits@.len(),
        forall|k1: int, k2: int|
            0 <= k1 < k2 < outcomes@.len() ==> #[trigger] outcomes@[k1].index != #[trigger]
                outcomes@[k2].index,
    ensures
        r.0@.len() == commits@.len(),
        forall|k: int|
            0 <= k < outcomes@.len() ==> r.0@[#[trigger] outcomes@[k].index as int]@ == (
            match outcomes@[k].result {
                Ok(m) => m@,
                Err(_) => commits@[outcomes@[k].index as int].message@,
            }),
        forall|i: int|
            0 <= i < commits@.len() ==> ((#[trigger] r.0@[i])@ == commits@[i].message@ || exists|
                k: int,
            |
                0 <= k < outcomes@.len() && (#[trigger] outcomes@[k].index) == i
                    && outcomes@[k].result is Ok && r.0@[i]@ == outcomes@[k].result->Ok_0@),
        r.1@.map_values(|p: (usize, String)| (p.0 as int, p.1@)) == spec_failures(outcomes@),
{
    let n = commits.len();
    let mut results: Vec<String> = Vec::new();
    let mut i: usize = 0;
    while i < n
        invariant
            i <= n,
            n == commits@.len(),
            results@.len() == i,
            forall|t: int| 0 <= t < i ==> (#[trigger] results@[t])@ == commits@[t].message@,
        decreases n - i,
    {
        results.push(commits[i].message.clone());
        i += 1;
    }
    let mut failures: Vec<(usize, String)> = Vec::new();
    let mut k: usize = 0;
    proof {
        assert(outcomes@.subrange(0, outcomes@.len() as int) =~= outcomes@);
        assert(Seq::<(int, Seq<char>)>::empty() + spec_failures(outcomes@) =~= spec_failures(
            outcomes@,
        ));
    }
    while k < outcomes.len()
        invariant
            k <= outcomes@.len(),
            outcomes@.len() == commits@.len(),
            results@.len() == commits@.len(),
            forall|t: int|
                0 <= t < outcomes@.len() ==> (#[trigger] outcomes@[t].index) < commits@.len(),
            forall|k1: int, k2: int|
                0 <= k1 < k2 < outcomes@.len() ==> #[trigger] outcomes@[k1].index != #[trigger]
                    outcomes@[k2].index,
            forall|j: int|
                0 <= j < k ==> results@[#[trigger] outcomes@[j].index as int]@ == (
                match outcomes@[j].result {
                    Ok(m) => m@,
                    Err(_) => commits@[outcomes@[j].index as int].message@,
                }),
            forall|i: int|
                0 <= i < commits@.len() && (forall|j: int|
                    0 <= j < k ==> (#[trigger] outcomes@[j].index) != i) ==> (
                #[trigger] results@[i])@ == commits@[i].message@,
            forall|i: int|
                0 <= i < commits@.len() ==> ((#[trigger] results@[i])@ == commits@[i].message@
                    || exists|j: int|
                    0 <= j < k && (#[trigger] outcomes@[j].index) == i && outcomes@[j].result is Ok
                        && results@[i]@ == outcomes@[j].result->Ok_0@),
            spec_failures(outcomes@) == failures@.map_values(|p: (usize, String)| (p.0 as int, p.1@))
                + spec_failures(outcomes@.subrange(k as int, outcomes@.len() as int)),
        decreases outcomes@.len() - k,
    {
        proof {
            let suf = outcomes@.subrange(k as int, outcomes@.len() as int);
            assert(suf[0] == outcomes@[k as int]);
            assert(suf.drop_first() =~= outcomes@.subrange(k as int + 1, outcomes@.len() as int));
        }
        let idx = outcomes[k].index;
        match &outcomes[k].result {
            Ok(m) => {
                results.set(idx, m.clone());
            },
            Err(e) => {
                let ghost pre = failures@;
                failures.push((idx, e.clone()));
                proof {
                    let f = |p: (usize, String)| (p.0 as int, p.1@);
                    assert((pre.push((idx, outcomes@[k as int].result->Err_0))).map_values(f)
                        =~= pre.map_values(f) + seq![(idx as int, outcomes@[k as int].result->Err_0@)]);
                    assert(pre.map_values(f) + (seq![(idx as int, outcomes@[k as int].result->Err_0@)]
                        + spec_failures(outcomes@.subrange(k as int + 1, outcomes@.len() as int)))
                        =~= (pre.map_values(f) + seq![(idx as int, outcomes@[k as int].result->Err_0@)])
                        + spec_failures(outcomes@.subrange(k as int + 1, outcomes@.len() as int)));
                }
            },
        }
        k += 1;
    }
    proof {
        assert(outcomes@.subrange(outcomes@.len() as int, outcomes@.len() as int)
            =~= Seq::<GenerationOutcome>::empty());
        assert(failures@.map_values(|p: (usize, String)| (p.0 as int, p.1@))
            + Seq::<(int, Seq<char>)>::empty() =~= failures@.map_values(
            |p: (usize, String)| (p.0 as int, p.1@),
        ));
    }
    (results, failures)
}

} // verus!
