use stck::commands::{
    apply_needs_push_flags, mark_needs_sync, render_stack_header, render_status_line,
    render_summary,
};
use stck::github::PullRequest;
use stck::stack::build_status_report;

fn pr(number: u64, head: &str, base: &str, state: &str) -> PullRequest {
    PullRequest {
        number,
        head_ref_name: head.to_string(),
        base_ref_name: base.to_string(),
        state: state.to_string(),
        merged_at: None,
    }
}

#[test]
fn status_lines_render_in_the_fixed_format() {
    let stack = vec![
        pr(100, "feature-base", "main", "MERGED"),
        pr(102, "feature-child", "feature-base", "OPEN"),
    ];
    let report = build_status_report(&stack, "main");

    assert_eq!(
        render_status_line(&report.lines[0]),
        "feature-base PR #100 [MERGED] base=main head=feature-base flags=none"
    );
    assert_eq!(
        render_status_line(&report.lines[1]),
        "feature-child PR #102 [OPEN] base=feature-base head=feature-child flags=needs_sync"
    );
}

#[test]
fn several_flags_join_with_commas() {
    let stack = vec![
        pr(100, "feature-a", "main", "OPEN"),
        pr(101, "feature-b", "main", "OPEN"),
    ];
    let mut report = build_status_report(&stack, "main");
    apply_needs_push_flags(&mut report, &vec![false, true]);

    assert_eq!(
        render_status_line(&report.lines[1]),
        "feature-b PR #101 [OPEN] base=main head=feature-b flags=base_mismatch,needs_sync,needs_push"
    );
    assert_eq!(report.summary.needs_push, 1);
}

#[test]
fn the_stack_header_chains_the_heads_off_the_default_branch() {
    let stack = vec![
        pr(100, "feature-base", "main", "OPEN"),
        pr(101, "feature-branch", "feature-base", "OPEN"),
        pr(102, "feature-child", "feature-branch", "OPEN"),
    ];
    assert_eq!(
        render_stack_header("main", &stack),
        "Stack: main <- feature-base <- feature-branch <- feature-child"
    );
}

#[test]
fn the_summary_line_totals_the_flags() {
    assert_eq!(
        render_summary(1, 0, 0),
        "Summary: needs_sync=1 needs_push=0 base_mismatch=0"
    );
    assert_eq!(
        render_summary(12, 3, 40),
        "Summary: needs_sync=12 needs_push=3 base_mismatch=40"
    );
}

#[test]
fn the_default_advance_signal_marks_the_rooted_open_entry_once() {
    let stack = vec![
        pr(100, "feature-base", "main", "OPEN"),
        pr(101, "feature-branch", "feature-base", "OPEN"),
    ];
    let mut report = build_status_report(&stack, "main");
    assert_eq!(report.summary.needs_sync, 0);

    mark_needs_sync(&mut report, "feature-base");
    assert_eq!(report.summary.needs_sync, 1);
    assert_eq!(report.lines[0].flags, vec!["needs_sync"]);

    mark_needs_sync(&mut report, "feature-base");
    assert_eq!(report.summary.needs_sync, 1);
    assert_eq!(report.lines[0].flags, vec!["needs_sync"]);
}
