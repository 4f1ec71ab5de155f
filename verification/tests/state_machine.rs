use stck::stack::{RetargetStep, SyncStep};
use stck::sync_state::{
    make_push_state, next_push_action, next_sync_step, record_push_done, record_retarget_done,
    record_sync_step_done, record_sync_step_failed, resume_sync_state, PushAction, SyncState,
};

fn step(branch: &str, old_base: &str, new_base: &str) -> SyncStep {
    SyncStep {
        branch: branch.to_string(),
        old_base_ref: old_base.to_string(),
        new_base_ref: new_base.to_string(),
    }
}

fn two_step_state() -> SyncState {
    SyncState {
        steps: vec![
            step("feature-branch", "main", "main"),
            step("feature-child", "feature-branch", "feature-branch"),
        ],
        completed_steps: 0,
        failed_step: None,
        failed_step_branch_head: None,
    }
}

#[test]
fn sync_steps_run_in_plan_order() {
    let mut state = two_step_state();

    assert_eq!(next_sync_step(&state), Some(0));
    record_sync_step_done(&mut state, 0);
    assert_eq!(next_sync_step(&state), Some(1));
    record_sync_step_done(&mut state, 1);
    assert_eq!(next_sync_step(&state), None);
}

#[test]
fn completed_sync_resumed_again_schedules_no_rebase() {
    let mut state = two_step_state();
    record_sync_step_done(&mut state, 0);
    record_sync_step_done(&mut state, 1);

    resume_sync_state(&mut state, false, false, None).expect("resume should pass");
    assert_eq!(next_sync_step(&state), None);
}

#[test]
fn failed_step_records_branch_head_and_keeps_completed_count() {
    let mut state = two_step_state();
    record_sync_step_failed(&mut state, 0, "1111111111111111111111111111111111111111".to_string());

    assert_eq!(state.completed_steps, 0);
    assert_eq!(state.failed_step, Some(0));
    assert_eq!(
        state.failed_step_branch_head.as_deref(),
        Some("1111111111111111111111111111111111111111")
    );
}

#[test]
fn continue_fails_while_a_rebase_is_still_in_progress() {
    let mut state = two_step_state();
    record_sync_step_failed(&mut state, 0, "h".to_string());

    let error = resume_sync_state(&mut state, true, true, Some(&"h".to_string()))
        .expect_err("in-progress rebase should block the resume");
    assert_eq!(
        error.message(),
        "rebase is still in progress; run `git rebase --continue` (or `git rebase --abort`) before rerunning `stck sync`"
    );
}

#[test]
fn continue_after_abort_is_refused_with_the_branch_named() {
    let mut state = two_step_state();
    record_sync_step_failed(&mut state, 0, "h".to_string());

    let current = "h".to_string();
    let error = resume_sync_state(&mut state, true, false, Some(&current))
        .expect_err("an unchanged head means the rebase was aborted");
    assert_eq!(
        error.message(),
        "no completed rebase detected for feature-branch; resolve with `git rebase --continue` (or rerun `stck sync` to retry the step)"
    );
    assert_eq!(state.completed_steps, 0);
}

#[test]
fn continue_after_manual_completion_advances_past_the_failed_step() {
    let mut state = two_step_state();
    record_sync_step_failed(&mut state, 0, "h".to_string());

    let current = "h2".to_string();
    resume_sync_state(&mut state, true, false, Some(&current)).expect("resume should pass");
    assert_eq!(state.completed_steps, 1);
    assert_eq!(state.failed_step, None);
    assert_eq!(state.failed_step_branch_head, None);
    assert_eq!(next_sync_step(&state), Some(1));
}

#[test]
fn plain_rerun_advances_past_the_failed_step() {
    let mut state = two_step_state();
    record_sync_step_failed(&mut state, 0, "h".to_string());

    resume_sync_state(&mut state, false, false, None).expect("plain rerun should pass");
    assert_eq!(state.completed_steps, 1);
    assert_eq!(state.failed_step, None);
}

#[test]
fn continue_without_recorded_head_is_a_consistency_fault() {
    let mut state = two_step_state();
    state.failed_step = Some(0);

    let current = "h".to_string();
    let error = resume_sync_state(&mut state, true, false, Some(&current))
        .expect_err("a missing recorded head cannot be resumed");
    assert_eq!(
        error.message(),
        "sync state is missing failed-step branch head; rerun `stck sync` to retry"
    );
}

fn two_phase_push_state() -> stck::sync_state::PushState {
    make_push_state(
        vec!["feature-branch".to_string(), "feature-child".to_string()],
        vec![
            RetargetStep {
                branch: "feature-branch".to_string(),
                new_base_ref: "main".to_string(),
            },
            RetargetStep {
                branch: "feature-child".to_string(),
                new_base_ref: "feature-branch".to_string(),
            },
        ],
    )
}

#[test]
fn every_push_is_scheduled_before_any_retarget() {
    let mut state = two_phase_push_state();
    let mut log: Vec<&'static str> = Vec::new();

    loop {
        match next_push_action(&state) {
            PushAction::Push { index } => {
                assert_eq!(index, state.completed_pushes);
                log.push("push");
                record_push_done(&mut state);
            }
            PushAction::Retarget { index } => {
                assert_eq!(index, state.completed_retargets);
                assert_eq!(state.completed_pushes, state.push_branches.len());
                log.push("retarget");
                record_retarget_done(&mut state);
            }
            PushAction::Done => break,
        }
    }

    assert_eq!(log, vec!["push", "push", "retarget", "retarget"]);
}

#[test]
fn a_failed_push_leaves_zero_retargets_scheduled() {
    let mut state = two_phase_push_state();

    assert_eq!(next_push_action(&state), PushAction::Push { index: 0 });
    record_push_done(&mut state);
    assert_eq!(next_push_action(&state), PushAction::Push { index: 1 });

    assert_eq!(state.completed_retargets, 0);
    assert!(!matches!(
        next_push_action(&state),
        PushAction::Retarget { .. }
    ));
}

#[test]
fn a_resumed_push_continues_at_the_first_incomplete_entry() {
    let mut state = two_phase_push_state();
    record_push_done(&mut state);
    record_push_done(&mut state);
    record_retarget_done(&mut state);

    assert_eq!(next_push_action(&state), PushAction::Retarget { index: 1 });
    record_retarget_done(&mut state);
    assert_eq!(next_push_action(&state), PushAction::Done);
}
