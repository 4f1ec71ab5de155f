use stck::github::{build_linear_stack, PullRequest};

fn pr(number: u64, head: &str, base: &str) -> PullRequest {
    PullRequest {
        number,
        head_ref_name: head.to_string(),
        base_ref_name: base.to_string(),
        state: "OPEN".to_string(),
        merged_at: None,
    }
}

#[test]
fn builds_linear_stack_from_ancestor_to_descendant() {
    let prs = vec![
        pr(100, "feature-base", "main"),
        pr(101, "feature-mid", "feature-base"),
        pr(102, "feature-top", "feature-mid"),
    ];

    let stack = build_linear_stack(&prs, "feature-mid", "main").expect("stack should build");
    let heads = stack
        .iter()
        .map(|item| item.head_ref_name.as_str())
        .collect::<Vec<_>>();

    assert_eq!(heads, vec!["feature-base", "feature-mid", "feature-top"]);
}

#[test]
fn errors_when_current_branch_pr_is_missing() {
    let prs = vec![pr(100, "feature-base", "main")];

    let error = build_linear_stack(&prs, "feature-mid", "main")
        .expect_err("missing current branch PR should error");

    assert_eq!(
        error.message(),
        "no PR found for branch feature-mid; create a PR first"
    );
}

#[test]
fn errors_when_parent_pr_is_missing() {
    let prs = vec![pr(101, "feature-mid", "feature-base")];

    let error = build_linear_stack(&prs, "feature-mid", "main")
        .expect_err("missing parent PR should error");

    assert_eq!(
        error.message(),
        "no PR found for branch feature-base; create a PR first"
    );
}

#[test]
fn errors_on_non_linear_descendants() {
    let prs = vec![
        pr(100, "feature-base", "main"),
        pr(101, "feature-mid", "feature-base"),
        pr(102, "feature-child-a", "feature-mid"),
        pr(103, "feature-child-b", "feature-mid"),
    ];

    let error = build_linear_stack(&prs, "feature-mid", "main")
        .expect_err("non-linear descendants should error");

    assert_eq!(
        error.message(),
        "non-linear stack detected at feature-mid; child candidates: feature-child-a, feature-child-b"
    );
}

#[test]
fn errors_on_cycle_detection() {
    let prs = vec![
        pr(100, "feature-a", "feature-b"),
        pr(101, "feature-b", "feature-a"),
    ];

    let error =
        build_linear_stack(&prs, "feature-a", "main").expect_err("cycle should be detected");

    assert_eq!(error.message(), "cycle detected in stack at branch feature-a");
}

#[test]
fn candidate_list_is_sorted_even_when_input_is_not() {
    let prs = vec![
        pr(100, "feature-mid", "main"),
        pr(101, "feature-zz", "feature-mid"),
        pr(102, "feature-aa", "feature-mid"),
    ];

    let error = build_linear_stack(&prs, "feature-mid", "main")
        .expect_err("fanout should error");

    assert_eq!(
        error.message(),
        "non-linear stack detected at feature-mid; child candidates: feature-aa, feature-zz"
    );
}

#[test]
fn merged_ancestors_stay_in_the_stack() {
    let mut base = pr(100, "feature-base", "main");
    base.state = "MERGED".to_string();
    base.merged_at = Some("2026-01-01T00:00:00Z".to_string());
    let prs = vec![base, pr(101, "feature-mid", "feature-base")];

    let stack = build_linear_stack(&prs, "feature-mid", "main").expect("stack should build");
    let heads = stack
        .iter()
        .map(|item| item.head_ref_name.as_str())
        .collect::<Vec<_>>();

    assert_eq!(heads, vec!["feature-base", "feature-mid"]);
    assert_eq!(stack[0].state, "MERGED");
}

#[test]
fn single_pr_stack_discovers_itself() {
    let prs = vec![pr(100, "feature-solo", "main")];

    let stack = build_linear_stack(&prs, "feature-solo", "main").expect("stack should build");

    assert_eq!(stack.len(), 1);
    assert_eq!(stack[0].head_ref_name, "feature-solo");
    assert_eq!(stack[0].base_ref_name, "main");
}
