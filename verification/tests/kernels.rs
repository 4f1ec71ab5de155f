use stck::commands::{
    bootstrap_actions, choose_retargets, infer_bootstrap_base_for_current_branch,
    new_branch_precheck, plan_submit, select_push_branches, BootstrapCandidate, SubmitAction,
};
use stck::env::{run_preflight, PreflightContext, PreflightProbes};
use stck::github::PullRequest;
use stck::gitops::{
    branch_needs_push, derive_rebase_boundary, resolve_old_base_for_rebase, with_stderr,
    BoundaryProbes,
};
use stck::stack::RetargetStep;
use stck::sync_state::LastSyncPlan;

fn good_probes() -> PreflightProbes {
    PreflightProbes {
        git_available: true,
        gh_available: true,
        gh_authenticated: true,
        origin_present: true,
        current_branch: Some("feature-branch".to_string()),
        working_tree_clean: Some(true),
        default_branch: Some("main".to_string()),
    }
}

#[test]
fn preflight_passes_when_every_probe_does() {
    let context = run_preflight(good_probes()).expect("all probes pass");
    assert_eq!(
        context,
        PreflightContext {
            current_branch: "feature-branch".to_string(),
            default_branch: "main".to_string(),
        }
    );
}

#[test]
fn preflight_reports_missing_authentication() {
    let mut probes = good_probes();
    probes.gh_authenticated = false;
    let error = run_preflight(probes).expect_err("authentication is required");
    assert_eq!(
        error,
        "GitHub CLI is not authenticated; run `gh auth login` and retry"
    );
}

#[test]
fn preflight_reports_missing_origin() {
    let mut probes = good_probes();
    probes.origin_present = false;
    let error = run_preflight(probes).expect_err("an origin remote is required");
    assert_eq!(
        error,
        "`origin` remote is missing; add it with `git remote add origin <url>`"
    );
}

#[test]
fn preflight_reports_detached_head() {
    let mut probes = good_probes();
    probes.current_branch = None;
    let error = run_preflight(probes).expect_err("a named branch is required");
    assert_eq!(
        error,
        "not on a branch (detached HEAD); checkout a branch and retry"
    );
}

#[test]
fn preflight_reports_dirty_tree() {
    let mut probes = good_probes();
    probes.working_tree_clean = Some(false);
    let error = run_preflight(probes).expect_err("a clean tree is required");
    assert_eq!(
        error,
        "working tree is not clean; commit, stash, or discard changes before running stck"
    );
}

#[test]
fn preflight_checks_apply_in_order() {
    let mut probes = good_probes();
    probes.git_available = false;
    probes.gh_authenticated = false;
    let error = run_preflight(probes).expect_err("the first failing check wins");
    assert_eq!(
        error,
        "required command `git` was not found in PATH; install it and retry"
    );
}

#[test]
fn a_branch_without_a_remote_head_needs_a_push() {
    let local = "aaaa".to_string();
    assert!(branch_needs_push(&local, None));
}

#[test]
fn a_branch_matching_its_remote_head_needs_no_push() {
    let local = "aaaa".to_string();
    let remote = "aaaa".to_string();
    assert!(!branch_needs_push(&local, Some(&remote)));
    let diverged = "bbbb".to_string();
    assert!(branch_needs_push(&local, Some(&diverged)));
}

#[test]
fn old_base_prefers_the_local_resolution() {
    assert_eq!(
        resolve_old_base_for_rebase("feature-base", Some("l".to_string()), Some("r".to_string())),
        Ok("l".to_string())
    );
    assert_eq!(
        resolve_old_base_for_rebase("feature-base", None, Some("r".to_string())),
        Ok("r".to_string())
    );
}

#[test]
fn an_unresolvable_old_base_asks_for_a_fetch() {
    let error = resolve_old_base_for_rebase("feature-base", None, None)
        .expect_err("nothing resolved");
    assert_eq!(
        error,
        "could not resolve old base branch `feature-base` locally or on origin; fetch and/or restore the branch, then rerun `stck sync`"
    );
}

fn empty_probes() -> BoundaryProbes {
    BoundaryProbes {
        old_local: None,
        old_remote: None,
        fork_point_old_local: None,
        fork_point_old_remote: None,
        merge_base_old_local: None,
        merge_base_old_remote: None,
        new_local: None,
        new_remote: None,
        merge_base_new_local: None,
        merge_base_new_remote: None,
    }
}

#[test]
fn boundary_prefers_the_fork_point_of_the_local_old_base() {
    let mut probes = empty_probes();
    probes.old_local = Some("old".to_string());
    probes.fork_point_old_local = Some("fp".to_string());
    probes.merge_base_old_local = Some("mb".to_string());
    assert_eq!(
        derive_rebase_boundary("feature-base", probes),
        Ok("fp".to_string())
    );
}

#[test]
fn boundary_falls_back_through_merge_bases_to_the_raw_old_base() {
    let mut probes = empty_probes();
    probes.old_remote = Some("old-remote".to_string());
    probes.merge_base_old_remote = Some("mb-remote".to_string());
    assert_eq!(
        derive_rebase_boundary("feature-base", probes),
        Ok("mb-remote".to_string())
    );

    let mut probes = empty_probes();
    probes.new_local = Some("new".to_string());
    probes.merge_base_new_local = Some("mb-new".to_string());
    assert_eq!(
        derive_rebase_boundary("feature-base", probes),
        Ok("mb-new".to_string())
    );

    let mut probes = empty_probes();
    probes.old_remote = Some("old-remote".to_string());
    assert_eq!(
        derive_rebase_boundary("feature-base", probes),
        Ok("old-remote".to_string())
    );
}

#[test]
fn boundary_with_no_resolutions_asks_for_a_fetch() {
    let error = derive_rebase_boundary("feature-base", empty_probes())
        .expect_err("nothing resolved");
    assert_eq!(
        error,
        "could not resolve old base branch `feature-base` locally or on origin; fetch and/or restore the branch, then rerun `stck sync`"
    );
}

#[test]
fn submit_is_refused_on_the_default_branch() {
    let error = plan_submit("main", "main", true, false, None)
        .expect_err("submitting the default branch is refused");
    assert_eq!(
        error,
        "cannot submit PR for default branch main; checkout a feature branch and retry"
    );
}

#[test]
fn submit_defaults_the_base_and_notes_it() {
    let plan = plan_submit("feature-branch", "main", false, false, None).expect("plan builds");
    assert!(plan.push_upstream);
    assert_eq!(
        plan.action,
        SubmitAction::CreatePr {
            base: "main".to_string(),
            used_default: true,
        }
    );
}

#[test]
fn submit_uses_the_given_base_and_skips_existing_prs() {
    let plan = plan_submit(
        "feature-branch",
        "main",
        true,
        false,
        Some("feature-base".to_string()),
    )
    .expect("plan builds");
    assert!(!plan.push_upstream);
    assert_eq!(
        plan.action,
        SubmitAction::CreatePr {
            base: "feature-base".to_string(),
            used_default: false,
        }
    );

    let plan = plan_submit("feature-branch", "main", true, true, None).expect("plan builds");
    assert_eq!(plan.action, SubmitAction::AlreadyHasPr);
}

#[test]
fn new_branch_names_must_be_fresh() {
    let error = new_branch_precheck("feature-next", true, false)
        .expect_err("a local clash is refused");
    assert_eq!(
        error,
        "branch feature-next already exists locally; choose a different name"
    );

    let error = new_branch_precheck("feature-next", false, true)
        .expect_err("a remote clash is refused");
    assert_eq!(
        error,
        "branch feature-next already exists on origin; choose a different name"
    );

    assert!(new_branch_precheck("feature-next", false, false).is_ok());
}

#[test]
fn bootstrap_work_is_owed_only_off_the_default_branch() {
    assert_eq!(bootstrap_actions(true, false, false), (false, false));
    assert_eq!(bootstrap_actions(false, false, true), (true, false));
    assert_eq!(bootstrap_actions(false, true, false), (false, true));
}

fn candidate(branch: &str, is_ancestor: bool, distance: usize) -> BootstrapCandidate {
    BootstrapCandidate {
        branch: branch.to_string(),
        is_ancestor,
        distance,
    }
}

#[test]
fn bootstrap_base_picks_the_nearest_strict_ancestor() {
    let candidates = vec![
        candidate("far", true, 5),
        candidate("not-ancestor", false, 1),
        candidate("near", true, 2),
        candidate("same-tip", true, 0),
    ];
    assert_eq!(
        infer_bootstrap_base_for_current_branch(&candidates, "main"),
        "near"
    );
}

#[test]
fn bootstrap_base_ties_go_to_the_earlier_candidate() {
    let candidates = vec![candidate("first", true, 3), candidate("second", true, 3)];
    assert_eq!(
        infer_bootstrap_base_for_current_branch(&candidates, "main"),
        "first"
    );
}

#[test]
fn bootstrap_base_falls_back_to_the_default_branch() {
    let candidates = vec![candidate("not-ancestor", false, 4)];
    assert_eq!(
        infer_bootstrap_base_for_current_branch(&candidates, "main"),
        "main"
    );
}

#[test]
fn only_diverged_branches_are_pushed() {
    let branches = vec![
        "feature-base".to_string(),
        "feature-mid".to_string(),
        "feature-top".to_string(),
    ];
    let needs = vec![false, true, true];
    assert_eq!(
        select_push_branches(branches, &needs),
        vec!["feature-mid", "feature-top"]
    );
}

fn pr(number: u64, head: &str, base: &str) -> PullRequest {
    PullRequest {
        number,
        head_ref_name: head.to_string(),
        base_ref_name: base.to_string(),
        state: "OPEN".to_string(),
        merged_at: None,
    }
}

#[test]
fn a_cached_plan_for_the_same_default_branch_is_reused() {
    let cached = LastSyncPlan {
        default_branch: "main".to_string(),
        retargets: vec![RetargetStep {
            branch: "feature-branch".to_string(),
            new_base_ref: "main".to_string(),
        }],
    };
    let stack = vec![pr(100, "feature-other", "main")];

    let retargets = choose_retargets(Some(cached.clone()), &stack, "main");
    assert_eq!(retargets, cached.retargets);
}

#[test]
fn a_cached_plan_for_another_default_branch_is_recomputed() {
    let cached = LastSyncPlan {
        default_branch: "develop".to_string(),
        retargets: vec![],
    };
    let stack = vec![pr(100, "feature-branch", "main")];

    let retargets = choose_retargets(Some(cached), &stack, "main");
    assert_eq!(
        retargets,
        vec![RetargetStep {
            branch: "feature-branch".to_string(),
            new_base_ref: "main".to_string(),
        }]
    );
}

#[test]
fn diagnostics_append_the_trimmed_stderr_tail() {
    assert_eq!(
        with_stderr("rebase failed for branch feature-branch", b"  CONFLICT in a file \n"),
        "rebase failed for branch feature-branch; stderr: CONFLICT in a file"
    );
}

#[test]
fn diagnostics_stay_bare_when_stderr_is_blank() {
    assert_eq!(with_stderr("push failed", b""), "push failed");
    assert_eq!(with_stderr("push failed", b"  \n\t "), "push failed");
}
