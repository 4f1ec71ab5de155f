use stck::stack::{RetargetStep, SyncStep};
use stck::sync_state::{
    last_sync_plan_file_path, load_last_sync_plan, load_push, load_sync, save_last_sync_plan,
    save_push, save_sync, state_file_path, LastSyncPlan, PushState, StateError, SyncState,
};

fn sync_state() -> SyncState {
    SyncState {
        steps: vec![SyncStep {
            branch: "feature-branch".to_string(),
            old_base_ref: "feature-base".to_string(),
            new_base_ref: "main".to_string(),
        }],
        completed_steps: 0,
        failed_step: Some(0),
        failed_step_branch_head: Some("1111111111111111111111111111111111111111".to_string()),
    }
}

fn push_state() -> PushState {
    PushState {
        push_branches: vec!["feature-branch".to_string(), "feature-child".to_string()],
        completed_pushes: 2,
        retargets: vec![
            RetargetStep {
                branch: "feature-branch".to_string(),
                new_base_ref: "main".to_string(),
            },
            RetargetStep {
                branch: "feature-child".to_string(),
                new_base_ref: "feature-branch".to_string(),
            },
        ],
        completed_retargets: 1,
    }
}

#[test]
fn sync_state_round_trips_through_the_codec() {
    let state = sync_state();
    let bytes = save_sync(&state).expect("state should serialize");
    let loaded = load_sync(Some(&bytes)).expect("bytes should load");
    assert_eq!(loaded, Some(state));
}

#[test]
fn push_state_round_trips_through_the_codec() {
    let state = push_state();
    let bytes = save_push(&state).expect("state should serialize");
    let loaded = load_push(Some(&bytes)).expect("bytes should load");
    assert_eq!(loaded, Some(state));
}

#[test]
fn cached_plan_round_trips_through_the_codec() {
    let plan = LastSyncPlan {
        default_branch: "main".to_string(),
        retargets: vec![RetargetStep {
            branch: "feature-branch".to_string(),
            new_base_ref: "main".to_string(),
        }],
    };
    let bytes = save_last_sync_plan(&plan).expect("plan should serialize");
    let loaded = load_last_sync_plan(Some(&bytes)).expect("bytes should load");
    assert_eq!(loaded, Some(plan));
}

#[test]
fn sync_state_is_stored_as_a_tagged_json_object() {
    let state = SyncState {
        steps: vec![SyncStep {
            branch: "b".to_string(),
            old_base_ref: "o".to_string(),
            new_base_ref: "n".to_string(),
        }],
        completed_steps: 1,
        failed_step: None,
        failed_step_branch_head: None,
    };
    let bytes = save_sync(&state).expect("state should serialize");
    assert_eq!(
        String::from_utf8(bytes).expect("the encoding is UTF-8"),
        "{\"kind\":\"sync\",\"steps\":[{\"branch\":\"b\",\"old_base_ref\":\"o\",\"new_base_ref\":\"n\"}],\"completed_steps\":1,\"failed_step\":null,\"failed_step_branch_head\":null}"
    );
}

#[test]
fn quotes_and_backslashes_in_names_survive_the_codec() {
    let state = SyncState {
        steps: vec![SyncStep {
            branch: "odd\"name".to_string(),
            old_base_ref: "with\\slash".to_string(),
            new_base_ref: "main".to_string(),
        }],
        completed_steps: 0,
        failed_step: None,
        failed_step_branch_head: None,
    };
    let bytes = save_sync(&state).expect("state should serialize");
    let loaded = load_sync(Some(&bytes)).expect("bytes should load");
    assert_eq!(loaded, Some(state));
}

#[test]
fn loading_a_push_record_as_sync_names_the_other_operation() {
    let bytes = save_push(&push_state()).expect("state should serialize");
    let error = load_sync(Some(&bytes)).expect_err("the stored kind is push");
    assert_eq!(error, StateError::PushInProgress);
    assert_eq!(
        error.message(),
        "push operation state is in progress; run `stck push` before starting a new sync"
    );
}

#[test]
fn loading_a_sync_record_as_push_names_the_other_operation() {
    let bytes = save_sync(&sync_state()).expect("state should serialize");
    let error = load_push(Some(&bytes)).expect_err("the stored kind is sync");
    assert_eq!(error, StateError::SyncInProgress);
    assert_eq!(
        error.message(),
        "sync operation state is in progress; run `stck sync --continue` before running push"
    );
}

#[test]
fn malformed_state_bytes_are_a_parse_failure() {
    let bytes = b"{\"kind\":\"sync\",\"steps\":[".to_vec();
    let error = load_sync(Some(&bytes)).expect_err("truncated bytes should not load");
    assert_eq!(error, StateError::ParseFailed);
}

#[test]
fn a_record_breaking_the_counter_invariant_is_refused() {
    let bytes =
        b"{\"kind\":\"sync\",\"steps\":[],\"completed_steps\":3,\"failed_step\":null,\"failed_step_branch_head\":null}"
            .to_vec();
    let error = load_sync(Some(&bytes)).expect_err("counters beyond the plan should not load");
    assert_eq!(error, StateError::ParseFailed);
}

#[test]
fn an_empty_plan_round_trips() {
    let state = SyncState {
        steps: vec![],
        completed_steps: 0,
        failed_step: None,
        failed_step_branch_head: None,
    };
    let bytes = save_sync(&state).expect("state should serialize");
    assert_eq!(
        String::from_utf8(bytes.clone()).expect("the encoding is UTF-8"),
        "{\"kind\":\"sync\",\"steps\":[],\"completed_steps\":0,\"failed_step\":null,\"failed_step_branch_head\":null}"
    );
    let loaded = load_sync(Some(&bytes)).expect("bytes should load");
    assert_eq!(loaded, Some(state));
}

#[test]
fn a_missing_state_file_means_no_operation_in_progress() {
    assert_eq!(load_sync(None), Ok(None));
    assert_eq!(load_push(None), Ok(None));
    assert_eq!(load_last_sync_plan(None), Ok(None));
}

#[test]
fn state_files_live_under_the_metadata_directory() {
    assert_eq!(state_file_path(".git"), ".git/stck/last-plan.json");
    assert_eq!(
        last_sync_plan_file_path("/repo/.git"),
        "/repo/.git/stck/last-sync-plan.json"
    );
}
