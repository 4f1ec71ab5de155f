use stck::github::PullRequest;
use stck::stack::{
    build_push_branches, build_push_retargets, build_status_report, build_sync_plan,
    build_sync_plan_with_options, first_open_branch_rooted_on_default, RetargetStep, SyncStep,
};

fn pr(number: u64, head: &str, base: &str, state: &str) -> PullRequest {
    PullRequest {
        number,
        head_ref_name: head.to_string(),
        base_ref_name: base.to_string(),
        state: state.to_string(),
        merged_at: None,
    }
}

#[test]
fn reports_no_flags_for_aligned_open_stack() {
    let stack = vec![
        pr(100, "feature-a", "main", "OPEN"),
        pr(101, "feature-b", "feature-a", "OPEN"),
    ];

    let report = build_status_report(&stack, "main");

    assert_eq!(report.summary.needs_sync, 0);
    assert_eq!(report.summary.needs_push, 0);
    assert_eq!(report.summary.base_mismatch, 0);
    assert_eq!(report.lines[0].flags, Vec::<&str>::new());
    assert_eq!(report.lines[1].flags, Vec::<&str>::new());
}

#[test]
fn reports_needs_sync_when_parent_is_merged() {
    let stack = vec![
        pr(100, "feature-a", "main", "MERGED"),
        pr(101, "feature-b", "feature-a", "OPEN"),
    ];

    let report = build_status_report(&stack, "main");

    assert_eq!(report.summary.needs_sync, 1);
    assert_eq!(report.summary.base_mismatch, 0);
    assert_eq!(report.lines[1].flags, vec!["needs_sync"]);
}

#[test]
fn reports_base_mismatch_and_needs_sync_together() {
    let stack = vec![
        pr(100, "feature-a", "main", "OPEN"),
        pr(101, "feature-b", "main", "OPEN"),
    ];

    let report = build_status_report(&stack, "main");

    assert_eq!(report.summary.needs_sync, 1);
    assert_eq!(report.summary.base_mismatch, 1);
    assert_eq!(report.lines[1].flags, vec!["base_mismatch", "needs_sync"]);
}

#[test]
fn sync_plan_is_empty_when_open_stack_is_aligned() {
    let stack = vec![
        pr(100, "feature-a", "main", "OPEN"),
        pr(101, "feature-b", "feature-a", "OPEN"),
    ];

    let plan = build_sync_plan(&stack, "main");
    assert!(plan.is_empty());
}

#[test]
fn sync_plan_restacks_child_of_merged_parent_and_descendants() {
    let stack = vec![
        pr(100, "feature-a", "main", "MERGED"),
        pr(101, "feature-b", "feature-a", "OPEN"),
        pr(102, "feature-c", "feature-b", "OPEN"),
    ];

    let plan = build_sync_plan(&stack, "main");
    assert_eq!(
        plan,
        vec![
            SyncStep {
                branch: "feature-b".to_string(),
                old_base_ref: "feature-a".to_string(),
                new_base_ref: "main".to_string(),
            },
            SyncStep {
                branch: "feature-c".to_string(),
                old_base_ref: "feature-b".to_string(),
                new_base_ref: "feature-b".to_string(),
            },
        ]
    );
}

#[test]
fn sync_plan_restacks_on_base_mismatch() {
    let stack = vec![
        pr(100, "feature-a", "main", "OPEN"),
        pr(101, "feature-b", "main", "OPEN"),
    ];

    let plan = build_sync_plan(&stack, "main");
    assert_eq!(
        plan,
        vec![SyncStep {
            branch: "feature-b".to_string(),
            old_base_ref: "main".to_string(),
            new_base_ref: "feature-a".to_string(),
        }]
    );
}

#[test]
fn aligned_three_branch_stack_plans_nothing() {
    let stack = vec![
        pr(100, "feature-base", "main", "OPEN"),
        pr(101, "feature-mid", "feature-base", "OPEN"),
        pr(102, "feature-top", "feature-mid", "OPEN"),
    ];

    let plan = build_sync_plan(&stack, "main");
    assert!(plan.is_empty());
}

#[test]
fn merged_parent_restacks_descendants_onto_prior_open_head() {
    let stack = vec![
        pr(100, "feature-base", "main", "MERGED"),
        pr(101, "feature-mid", "feature-base", "OPEN"),
        pr(102, "feature-top", "feature-mid", "OPEN"),
    ];

    let plan = build_sync_plan(&stack, "main");
    assert_eq!(
        plan,
        vec![
            SyncStep {
                branch: "feature-mid".to_string(),
                old_base_ref: "feature-base".to_string(),
                new_base_ref: "main".to_string(),
            },
            SyncStep {
                branch: "feature-top".to_string(),
                old_base_ref: "feature-mid".to_string(),
                new_base_ref: "feature-mid".to_string(),
            },
        ]
    );
}

#[test]
fn forced_rewrite_rebases_aligned_first_open_and_descendants() {
    let stack = vec![
        pr(100, "feature-base", "main", "OPEN"),
        pr(101, "feature-mid", "feature-base", "OPEN"),
    ];

    let plan = build_sync_plan_with_options(&stack, "main", true);
    assert_eq!(
        plan,
        vec![
            SyncStep {
                branch: "feature-base".to_string(),
                old_base_ref: "main".to_string(),
                new_base_ref: "main".to_string(),
            },
            SyncStep {
                branch: "feature-mid".to_string(),
                old_base_ref: "feature-base".to_string(),
                new_base_ref: "feature-base".to_string(),
            },
        ]
    );
}

#[test]
fn push_branches_are_the_open_heads_in_order() {
    let stack = vec![
        pr(100, "feature-base", "main", "MERGED"),
        pr(101, "feature-mid", "feature-base", "OPEN"),
        pr(102, "feature-top", "feature-mid", "OPEN"),
    ];

    let branches = build_push_branches(&stack);
    assert_eq!(branches, vec!["feature-mid", "feature-top"]);
}

#[test]
fn push_retargets_chain_open_entries_onto_prior_open_heads() {
    let stack = vec![
        pr(100, "feature-base", "main", "MERGED"),
        pr(101, "feature-mid", "feature-base", "OPEN"),
        pr(102, "feature-top", "feature-mid", "OPEN"),
    ];

    let retargets = build_push_retargets(&stack, "main");
    assert_eq!(
        retargets,
        vec![
            RetargetStep {
                branch: "feature-mid".to_string(),
                new_base_ref: "main".to_string(),
            },
            RetargetStep {
                branch: "feature-top".to_string(),
                new_base_ref: "feature-mid".to_string(),
            },
        ]
    );
}

#[test]
fn first_open_rooted_on_default_skips_merged_entries() {
    let stack = vec![
        pr(100, "feature-base", "main", "MERGED"),
        pr(101, "feature-mid", "main", "OPEN"),
        pr(102, "feature-top", "feature-mid", "OPEN"),
    ];

    let first = first_open_branch_rooted_on_default(&stack, "main")
        .expect("an open entry sits on the default branch");
    assert_eq!(first.head_ref_name, "feature-mid");
}

#[test]
fn first_open_rooted_on_default_is_absent_when_no_open_entry_sits_on_it() {
    let stack = vec![
        pr(100, "feature-base", "main", "MERGED"),
        pr(101, "feature-mid", "feature-base", "OPEN"),
    ];

    assert!(first_open_branch_rooted_on_default(&stack, "main").is_none());
}
