//! The resumable operation state machine for sync and push.
//!
//! Both multi-step operations checkpoint their progress after every step; a
//! later run loads the state and resumes at the first incomplete entry. The
//! transitions here are the machine itself; reading and writing the on-disk
//! bytes is the codec's and the caller's business.

use vstd::prelude::*;

use crate::stack::RetargetStep;
use crate::stack::SyncStep;
use crate::text::concat3;

verus! {

/// A sync operation in progress: its plan, how many steps finished, and —
/// after a failure — which step aborted and what the branch tip was just
/// before the attempt.
#[derive(Debug, Clone, PartialEq, Eq)]
pub struct SyncState {
    pub steps: Vec<SyncStep>,
    pub completed_steps: usize,
    pub failed_step: Option<usize>,
    pub failed_step_branch_head: Option<String>,
}

impl SyncState {
    /// The counters stay within the plan.
    pub open spec fn wf(self) -> bool {
        &&& self.completed_steps <= self.steps@.len()
        &&& match self.failed_step {
            Some(k) => k < self.steps@.len(),
            None => true,
        }
    }
}

/// A push operation in progress: pushes first, then retargets.
#[derive(Debug, Clone, PartialEq, Eq)]
pub struct PushState {
    pub push_branches: Vec<String>,
    pub completed_pushes: usize,
    pub retargets: Vec<RetargetStep>,
    pub completed_retargets: usize,
}

impl PushState {
    /// The counters stay within the plans, and no retarget completes before
    /// every push has.
    pub open spec fn wf(self) -> bool {
        &&& self.completed_pushes <= self.push_branches@.len()
        &&& self.completed_retargets <= self.retargets@.len()
        &&& (self.completed_retargets > 0 ==> self.completed_pushes == self.push_branches@.len())
    }
}

/// The retargets of the most recent successful sync, cached for the next
/// push while the default branch stays the same.
#[derive(Debug, Clone, PartialEq, Eq)]
pub struct LastSyncPlan {
    pub default_branch: String,
    pub retargets: Vec<RetargetStep>,
}

/// Why resuming a sync stopped instead of proceeding.
#[derive(Debug, Clone, PartialEq, Eq)]
pub enum SyncResumeError {
    /// The repository still has a rebase in progress.
    RebaseInProgress,
    /// The failed step's branch head could not be resolved.
    HeadUnresolvable { branch: String },
    /// The stored state lacks the branch head recorded before the failure.
    MissingFailedHead,
    /// The branch tip still equals the recorded head: the user aborted the
    /// rebase rather than completing it.
    RebaseAborted { branch: String },
}

impl SyncResumeError {
    /// The diagnostic text for this error.
    pub open spec fn spec_message(self) -> Seq<char> {
        match self {
            SyncResumeError::RebaseInProgress =>
                "rebase is still in progress; run `git rebase --continue` (or `git rebase --abort`) before rerunning `stck sync`"@,
            SyncResumeError::HeadUnresolvable { branch } => "could not resolve git reference `refs/heads/"@
                + branch@ + "`"@,
            SyncResumeError::MissingFailedHead =>
                "sync state is missing failed-step branch head; rerun `stck sync` to retry"@,
            SyncResumeError::RebaseAborted { branch } => "no completed rebase detected for "@
                + branch@
                + "; resolve with `git rebase --continue` (or rerun `stck sync` to retry the step)"@,
        }
    }

    /// Renders the diagnostic text.
    pub fn message(&self) -> (r: String)
        ensures
            r@ == self.spec_message(),
    {
        match self {
            SyncResumeError::RebaseInProgress => {
                "rebase is still in progress; run `git rebase --continue` (or `git rebase --abort`) before rerunning `stck sync`".to_owned()
            },
            SyncResumeError::HeadUnresolvable { branch } => {
                concat3("could not resolve git reference `refs/heads/", branch.as_str(), "`")
            },
            SyncResumeError::MissingFailedHead => {
                "sync state is missing failed-step branch head; rerun `stck sync` to retry".to_owned()
            },
            SyncResumeError::RebaseAborted { branch } => {
                concat3(
                    "no completed rebase detected for ",
                    branch.as_str(),
                    "; resolve with `git rebase --continue` (or rerun `stck sync` to retry the step)",
                )
            },
        }
    }
}

/// The state after moving past the failed step `k`: the failure markers are
/// cleared and the step counts as completed.
pub open spec fn advanced_past(s: SyncState, k: int) -> SyncState {
    SyncState {
        steps: s.steps,
        completed_steps: if s.completed_steps <= k {
            (k + 1) as usize
        } else {
            s.completed_steps
        },
        failed_step: None,
        failed_step_branch_head: None,
    }
}

/// What resuming decides, given whether `--continue` was passed, whether a
/// rebase is still in progress, and the failed step's current branch head
/// (`None` when it could not be resolved).
///
/// With `--continue`, an unchanged head means the rebase was aborted and the
/// resume is refused; a changed head means the user completed it by hand and
/// the machine advances past the step. Without `--continue`, a plain rerun
/// advances past the failed step unconditionally.
pub open spec fn spec_resume(
    s: SyncState,
    continue_sync: bool,
    rebase_in_progress: bool,
    head: Option<Seq<char>>,
) -> Result<SyncState, SyncResumeError> {
    match s.failed_step {
        None => Ok(s),
        Some(k) => {
            if rebase_in_progress {
                Err(SyncResumeError::RebaseInProgress)
            } else if !continue_sync {
                Ok(advanced_past(s, k as int))
            } else if head is None {
                Err(SyncResumeError::HeadUnresolvable { branch: s.steps@[k as int].branch })
            } else if s.failed_step_branch_head is None {
                Err(SyncResumeError::MissingFailedHead)
            } else if s.failed_step_branch_head.unwrap()@ == head.unwrap() {
                Err(SyncResumeError::RebaseAborted { branch: s.steps@[k as int].branch })
            } else {
                Ok(advanced_past(s, k as int))
            }
        },
    }
}

/// Applies [`spec_resume`] to the loaded state in place.
pub fn resume_sync_state(
    state: &mut SyncState,
    continue_sync: bool,
    rebase_in_progress: bool,
    current_failed_head: Option<&String>,
) -> (r: Result<(), SyncResumeError>)
    requires
        old(state).wf(),
    ensures
        match spec_resume(
            *old(state),
            continue_sync,
            rebase_in_progress,
            match current_failed_head {
                Some(h) => Some(h@),
                None => None,
            },
        ) {
            Ok(s2) => (r is Ok && *final(state) == s2),
            Err(e) => (r == Err::<(), SyncResumeError>(e) && *final(state) == *old(state)),
        },
        final(state).wf(),
        final(state).steps == old(state).steps,
{
    let k: usize = match state.failed_step {
        None => {
            return Ok(());
        },
        Some(k) => k,
    };
    if rebase_in_progress {
        return Err(SyncResumeError::RebaseInProgress);
    }
    if continue_sync {
        let h: &String = match current_failed_head {
            Some(h) => h,
            None => {
                return Err(
                    SyncResumeError::HeadUnresolvable { branch: state.steps[k].branch.clone() },
                );
            },
        };
        let aborted: bool = match &state.failed_step_branch_head {
            None => {
                return Err(SyncResumeError::MissingFailedHead);
            },
            Some(recorded) => *recorded == *h,
        };
        if aborted {
            return Err(SyncResumeError::RebaseAborted { branch: state.steps[k].branch.clone() });
        }
    }
    let nsteps: usize = state.steps.len();
    proof {
        assert(k < nsteps);
    }
    if state.completed_steps <= k {
        state.completed_steps = k + 1;
    }
    state.failed_step = None;
    state.failed_step_branch_head = None;
    Ok(())
}

/// The next sync step to execute, if any.
pub open spec fn spec_next_sync_step(s: SyncState) -> Option<int> {
    if s.completed_steps < s.steps@.len() {
        Some(s.completed_steps as int)
    } else {
        None
    }
}

/// The index of the next step to execute, if any step remains.
pub fn next_sync_step(state: &SyncState) -> (r: Option<usize>)
    ensures
        match spec_next_sync_step(*state) {
            Some(k) => r == Some(k as usize),
            None => r is None,
        },
{
    if state.completed_steps < state.steps.len() {
        Some(state.completed_steps)
    } else {
        None
    }
}

/// Records that step `index` finished: the counter moves past it and any
/// failure markers are gone.
pub fn record_sync_step_done(state: &mut SyncState, index: usize)
    requires
        old(state).wf(),
        index == old(state).completed_steps,
        index < old(state).steps@.len(),
    ensures
        final(state).wf(),
        final(state).steps == old(state).steps,
        final(state).completed_steps == index + 1,
        final(state).failed_step is None,
        final(state).failed_step_branch_head is None,
{
    let nsteps: usize = state.steps.len();
    proof {
        assert(index < nsteps);
    }
    state.completed_steps = index + 1;
    state.failed_step = None;
    state.failed_step_branch_head = None;
}

/// Records that step `index` aborted, remembering the branch tip observed
/// just before the attempt. The completed count is untouched: it only ever
/// counts successful steps.
pub fn record_sync_step_failed(state: &mut SyncState, index: usize, branch_head: String)
    requires
        old(state).wf(),
        index == old(state).completed_steps,
        index < old(state).steps@.len(),
    ensures
        final(state).wf(),
        final(state).steps == old(state).steps,
        final(state).completed_steps == old(state).completed_steps,
        final(state).failed_step == Some(index),
        final(state).failed_step_branch_head == Some(branch_head),
{
    state.failed_step = Some(index);
    state.failed_step_branch_head = Some(branch_head);
}

/// A sync whose steps are all completed schedules nothing further; together
/// with plan minimality (an aligned stack plans no steps), a rerun after a
/// completed sync performs zero rebases.
pub proof fn lemma_sync_resume_idempotent(s: SyncState)
    requires
        s.wf(),
        s.completed_steps == s.steps@.len(),
    ensures
        spec_next_sync_step(s) is None,
{
}

/// What the push machine does next: push while pushes remain, then
/// retarget while retargets remain, then stop.
pub open spec fn spec_next_push_action(s: PushState) -> PushAction {
    if s.completed_pushes < s.push_branches@.len() {
        PushAction::Push { index: s.completed_pushes }
    } else if s.completed_retargets < s.retargets@.len() {
        PushAction::Retarget { index: s.completed_retargets }
    } else {
        PushAction::Done
    }
}

/// The next thing a push run must do.
#[derive(Debug, Clone, Copy, PartialEq, Eq)]
pub enum PushAction {
    /// Force-push the branch at this index of the push list.
    Push { index: usize },
    /// Apply the retarget at this index of the retarget list.
    Retarget { index: usize },
    /// Both phases are complete.
    Done,
}

/// Decides the next push action; see [`spec_next_push_action`].
pub fn next_push_action(state: &PushState) -> (r: PushAction)
    ensures
        r == spec_next_push_action(*state),
{
    if state.completed_pushes < state.push_branches.len() {
        PushAction::Push { index: state.completed_pushes }
    } else if state.completed_retargets < state.retargets.len() {
        PushAction::Retarget { index: state.completed_retargets }
    } else {
        PushAction::Done
    }
}

/// A fresh push state over the two plans.
pub fn make_push_state(push_branches: Vec<String>, retargets: Vec<RetargetStep>) -> (r: PushState)
    ensures
        r.wf(),
        r.push_branches == push_branches,
        r.retargets == retargets,
        r.completed_pushes == 0,
        r.completed_retargets == 0,
{
    PushState { push_branches, completed_pushes: 0, retargets, completed_retargets: 0 }
}

/// Records that the scheduled push finished.
pub fn record_push_done(state: &mut PushState)
    requires
        old(state).wf(),
        old(state).completed_pushes < old(state).push_branches@.len(),
    ensures
        final(state).wf(),
        final(state).push_branches == old(state).push_branches,
        final(state).retargets == old(state).retargets,
        final(state).completed_pushes == old(state).completed_pushes + 1,
        final(state).completed_retargets == old(state).completed_retargets,
{
    let n: usize = state.push_branches.len();
    proof {
        assert(old(state).completed_retargets == 0);
        assert(state.completed_pushes < n);
    }
    state.completed_pushes = state.completed_pushes + 1;
}

/// Records that the scheduled retarget finished.
pub fn record_retarget_done(state: &mut PushState)
    requires
        old(state).wf(),
        old(state).completed_pushes == old(state).push_branches@.len(),
        old(state).completed_retargets < old(state).retargets@.len(),
    ensures
        final(state).wf(),
        final(state).push_branches == old(state).push_branches,
        final(state).retargets == old(state).retargets,
        final(state).completed_pushes == old(state).completed_pushes,
        final(state).completed_retargets == old(state).completed_retargets + 1,
{
    let n: usize = state.retargets.len();
    proof {
        assert(state.completed_retargets < n);
    }
    state.completed_retargets = state.completed_retargets + 1;
}

/// Push/retarget ordering: in every valid push state the machine only ever
/// schedules a retarget once all pushes are complete, and while a push is
/// scheduled no retarget has run. Since every transition preserves
/// validity, every push in an execution precedes every retarget.
pub proof fn lemma_pushes_precede_retargets(s: PushState)
    requires
        s.wf(),
    ensures
        (spec_next_push_action(s) matches PushAction::Retarget { .. }) ==> s.completed_pushes
            == s.push_branches@.len(),
        (spec_next_push_action(s) matches PushAction::Push { .. }) ==> s.completed_retargets == 0,
        s.completed_pushes < s.push_branches@.len() ==> s.completed_retargets == 0,
{
    if s.completed_pushes < s.push_branches@.len() {
        assert(s.completed_retargets == 0);
    }
}

/// Why loading or saving the operation state failed.
#[derive(Debug, Clone, PartialEq, Eq)]
pub enum StateError {
    /// The stored bytes are not a valid operation-state record.
    ParseFailed,
    /// A sync is in progress but a push state was asked for.
    SyncInProgress,
    /// A push is in progress but a sync state was asked for.
    PushInProgress,
    /// The state holds a string that cannot be stored.
    SerializeFailed,
}

impl StateError {
    /// The diagnostic text for this error.
    pub open spec fn spec_message(self) -> Seq<char> {
        match self {
            StateError::ParseFailed =>
                "failed to parse operation state; run `stck sync --reset` to discard it"@,
            StateError::SyncInProgress =>
                "sync operation state is in progress; run `stck sync --continue` before running push"@,
            StateError::PushInProgress =>
                "push operation state is in progress; run `stck push` before starting a new sync"@,
            StateError::SerializeFailed => "failed to serialize operation state"@,
        }
    }

    /// Renders the diagnostic text.
    pub fn message(&self) -> (r: String)
        ensures
            r@ == self.spec_message(),
    {
        match self {
            StateError::ParseFailed => {
                "failed to parse operation state; run `stck sync --reset` to discard it".to_owned()
            },
            StateError::SyncInProgress => {
                "sync operation state is in progress; run `stck sync --continue` before running push".to_owned()
            },
            StateError::PushInProgress => {
                "push operation state is in progress; run `stck push` before starting a new sync".to_owned()
            },
            StateError::SerializeFailed => {
                "failed to serialize operation state".to_owned()
            },
        }
    }
}

/// The parsed sync record satisfies the state invariant.
pub open spec fn sync_record_wf(
    t: (Seq<(Seq<char>, Seq<char>, Seq<char>)>, nat, Option<nat>, Option<Seq<char>>),
) -> bool {
    &&& t.1 <= t.0.len()
    &&& match t.2 {
        Some(k) => k < t.0.len(),
        None => true,
    }
}

/// The parsed push record satisfies the state invariant.
pub open spec fn push_record_wf(
    t: (Seq<Seq<char>>, nat, Seq<(Seq<char>, Seq<char>)>, nat),
) -> bool {
    &&& t.1 <= t.0.len()
    &&& t.3 <= t.2.len()
    &&& (t.3 > 0 ==> t.1 == t.0.len())
}

/// Loads the sync state from the state file's bytes (`None`: no file). A
/// stored push record is refused as the wrong kind; anything else that does
/// not parse, or breaks the state invariant, is a parse failure.
pub fn load_sync(bytes: Option<&Vec<u8>>) -> (r: Result<Option<SyncState>, StateError>)
    ensures
        bytes is None ==> r == Ok::<Option<SyncState>, StateError>(None),
        bytes matches Some(b) ==> match crate::json::sp_sync(b@) {
            Some(t) => {
                if sync_record_wf(t) {
                    r matches Ok(o) && o matches Some(s) && s.wf() && crate::json::steps_match(
                        s.steps@,
                        t.0,
                    ) && s.completed_steps as nat == t.1 && crate::json::opt_num_match(
                        s.failed_step,
                        t.2,
                    ) && crate::json::opt_str_match(s.failed_step_branch_head, t.3)
                } else {
                    r == Err::<Option<SyncState>, StateError>(StateError::ParseFailed)
                }
            },
            None => match crate::json::sp_push(b@) {
                Some(_) => r == Err::<Option<SyncState>, StateError>(StateError::PushInProgress),
                None => r == Err::<Option<SyncState>, StateError>(StateError::ParseFailed),
            },
        },
{
    let b = match bytes {
        None => {
            return Ok(None);
        },
        Some(b) => b,
    };
    match crate::json::parse_sync(b) {
        Some(s) => {
            let ok: bool = s.completed_steps <= s.steps.len() && (match s.failed_step {
                Some(k) => k < s.steps.len(),
                None => true,
            });
            if ok {
                Ok(Some(s))
            } else {
                Err(StateError::ParseFailed)
            }
        },
        None => match crate::json::parse_push(b) {
            Some(_) => Err(StateError::PushInProgress),
            None => Err(StateError::ParseFailed),
        },
    }
}

/// Loads the push state from the state file's bytes (`None`: no file). A
/// stored sync record is refused as the wrong kind.
pub fn load_push(bytes: Option<&Vec<u8>>) -> (r: Result<Option<PushState>, StateError>)
    ensures
        bytes is None ==> r == Ok::<Option<PushState>, StateError>(None),
        bytes matches Some(b) ==> match crate::json::sp_push(b@) {
            Some(t) => {
                if push_record_wf(t) {
                    r matches Ok(o) && o matches Some(s) && s.wf()
                        && crate::text::string_views(s.push_branches@) == t.0
                        && s.completed_pushes as nat == t.1 && crate::json::retargets_match(
                        s.retargets@,
                        t.2,
                    ) && s.completed_retargets as nat == t.3
                } else {
                    r == Err::<Option<PushState>, StateError>(StateError::ParseFailed)
                }
            },
            None => match crate::json::sp_sync(b@) {
                Some(_) => r == Err::<Option<PushState>, StateError>(StateError::SyncInProgress),
                None => r == Err::<Option<PushState>, StateError>(StateError::ParseFailed),
            },
        },
{
    let b = match bytes {
        None => {
            return Ok(None);
        },
        Some(b) => b,
    };
    match crate::json::parse_push(b) {
        Some(s) => {
            let ok: bool = s.completed_pushes <= s.push_branches.len() && s.completed_retargets
                <= s.retargets.len() && (s.completed_retargets == 0 || s.completed_pushes
                == s.push_branches.len());
            if ok {
                Ok(Some(s))
            } else {
                Err(StateError::ParseFailed)
            }
        },
        None => match crate::json::parse_sync(b) {
            Some(_) => Err(StateError::SyncInProgress),
            None => Err(StateError::ParseFailed),
        },
    }
}

/// Loads the cached sync plan from its file's bytes (`None`: no file).
pub fn load_last_sync_plan(bytes: Option<&Vec<u8>>) -> (r: Result<Option<LastSyncPlan>, StateError>)
    ensures
        bytes is None ==> r == Ok::<Option<LastSyncPlan>, StateError>(None),
        bytes matches Some(b) ==> match crate::json::sp_plan(b@) {
            Some(t) => r matches Ok(o) && o matches Some(p) && p.default_branch@ == t.0
                && crate::json::retargets_match(p.retargets@, t.1),
            None => r == Err::<Option<LastSyncPlan>, StateError>(StateError::ParseFailed),
        },
{
    let b = match bytes {
        None => {
            return Ok(None);
        },
        Some(b) => b,
    };
    match crate::json::parse_plan(b) {
        Some(p) => Ok(Some(p)),
        None => Err(StateError::ParseFailed),
    }
}

/// The bytes to write for a sync state.
pub fn save_sync(state: &SyncState) -> (r: Result<Vec<u8>, StateError>)
    ensures
        r matches Ok(b) ==> b@ == crate::json::sync_enc(*state),
        r is Ok <==> crate::json::sync_plain(*state),
        r matches Err(e) ==> e == StateError::SerializeFailed,
{
    match crate::json::encode_sync(state) {
        Some(b) => Ok(b),
        None => Err(StateError::SerializeFailed),
    }
}

/// The bytes to write for a push state.
pub fn save_push(state: &PushState) -> (r: Result<Vec<u8>, StateError>)
    ensures
        r matches Ok(b) ==> b@ == crate::json::push_enc(*state),
        r is Ok <==> crate::json::push_plain(*state),
        r matches Err(e) ==> e == StateError::SerializeFailed,
{
    match crate::json::encode_push(state) {
        Some(b) => Ok(b),
        None => Err(StateError::SerializeFailed),
    }
}

/// The bytes to write for a cached sync plan.
pub fn save_last_sync_plan(plan: &LastSyncPlan) -> (r: Result<Vec<u8>, StateError>)
    ensures
        r matches Ok(b) ==> b@ == crate::json::plan_enc(*plan),
        r is Ok <==> crate::json::plan_plain(*plan),
        r matches Err(e) ==> e == StateError::SerializeFailed,
{
    match crate::json::encode_plan(plan) {
        Some(b) => Ok(b),
        None => Err(StateError::SerializeFailed),
    }
}

/// The in-progress state file, inside the repository's metadata directory.
pub fn state_file_path(git_dir: &str) -> (r: String)
    ensures
        r@ == git_dir@ + "/stck/last-plan.json"@,
{
    crate::text::concat2(git_dir, "/stck/last-plan.json")
}

/// The cached sync plan's file, beside the in-progress state file.
pub fn last_sync_plan_file_path(git_dir: &str) -> (r: String)
    ensures
        r@ == git_dir@ + "/stck/last-sync-plan.json"@,
{
    crate::text::concat2(git_dir, "/stck/last-sync-plan.json")
}

/// Sync-rerun idempotence, in both ways a rerun happens. Resuming a
/// persisted sync whose steps all completed schedules no further step; and
/// a fresh rerun recomputes the plan, which over an aligned stack of open
/// entries — the shape left behind once the rewrites were pushed and the PR
/// bases retargeted — is empty. The planner reads nothing but the PR
/// metadata and the advance signal, so an unchanged input always recomputes
/// the first run's plan; whether the repository itself would treat a
/// repeated rebase as a no-op is git's affair, not the engine's.
pub proof fn lemma_sync_rerun_idempotent(
    stack: Seq<crate::github::PullRequest>,
    default: Seq<char>,
    s: SyncState,
)
    requires
        s.wf(),
        s.completed_steps == s.steps@.len(),
        forall|i: int| 0 <= i < stack.len() ==> !crate::github::is_merged(#[trigger] stack[i]),
        forall|i: int|
            0 <= i < stack.len() ==> (#[trigger] stack[i].base_ref_name@)
                == crate::stack::expected_base(stack, default, i),
    ensures
        spec_next_sync_step(s) is None,
        crate::stack::spec_sync_plan(stack, default, false) == Seq::<
            crate::stack::SyncStepV,
        >::empty(),
{
    crate::stack::lemma_plan_minimality(stack, default);
}

} // verus!
