//! Status reporting and sync/push planning over a discovered stack.
//!
//! The planners are pure: they look only at the pull-request metadata handed
//! to them and at the explicit "default branch advanced" signal, never at the
//! repository itself. Their contracts are stated against recursive spec
//! functions that mirror the planning rules.

use vstd::prelude::*;

use crate::github::PullRequest;
use crate::github::distinct_heads;
use crate::github::is_merged;
use crate::github::pr_is_merged;
use crate::text::string_views;

verus! {

/// One line of the status report.
#[derive(Debug, Clone, PartialEq, Eq)]
pub struct StatusLine {
    pub branch: String,
    pub number: u64,
    pub state: String,
    pub base: String,
    pub head: String,
    pub flags: Vec<String>,
}

/// Totals over the whole report.
#[derive(Debug, Clone, PartialEq, Eq)]
pub struct StatusSummary {
    pub needs_sync: usize,
    pub needs_push: usize,
    pub base_mismatch: usize,
}

/// The status report: one line per stack entry plus the totals.
#[derive(Debug, Clone, PartialEq, Eq)]
pub struct StatusReport {
    pub lines: Vec<StatusLine>,
    pub summary: StatusSummary,
}

/// A single `rebase --onto new_base_ref old_base_ref branch` instruction.
#[derive(Debug, Clone, PartialEq, Eq)]
pub struct SyncStep {
    pub branch: String,
    pub old_base_ref: String,
    pub new_base_ref: String,
}

/// A single PR base retarget instruction.
#[derive(Debug, Clone, PartialEq, Eq)]
pub struct RetargetStep {
    pub branch: String,
    pub new_base_ref: String,
}

/// Mathematical view of a [`SyncStep`].
#[verifier::ext_equal]
pub struct SyncStepV {
    pub branch: Seq<char>,
    pub old_base: Seq<char>,
    pub new_base: Seq<char>,
}

/// Mathematical view of a [`RetargetStep`].
#[verifier::ext_equal]
pub struct RetargetStepV {
    pub branch: Seq<char>,
    pub new_base: Seq<char>,
}

/// Views of a sequence of sync steps.
pub open spec fn step_views(s: Seq<SyncStep>) -> Seq<SyncStepV> {
    s.map_values(
        |x: SyncStep|
            SyncStepV {
                branch: x.branch@,
                old_base: x.old_base_ref@,
                new_base: x.new_base_ref@,
            },
    )
}

/// Views of a sequence of retarget steps.
pub open spec fn retarget_views(s: Seq<RetargetStep>) -> Seq<RetargetStepV> {
    s.map_values(|x: RetargetStep| RetargetStepV { branch: x.branch@, new_base: x.new_base_ref@ })
}

/// The base the entry at `i` is expected to have: the default branch for the
/// first entry, the previous entry's head otherwise.
pub open spec fn expected_base(stack: Seq<PullRequest>, default: Seq<char>, i: int) -> Seq<char> {
    if i == 0 {
        default
    } else {
        stack[i - 1].head_ref_name@
    }
}

/// Whether the entry at `i` carries the `base_mismatch` flag.
pub open spec fn line_base_mismatch(stack: Seq<PullRequest>, default: Seq<char>, i: int) -> bool {
    stack[i].base_ref_name@ != expected_base(stack, default, i)
}

/// Whether the entry at `i` has a merged parent.
pub open spec fn line_parent_merged(stack: Seq<PullRequest>, i: int) -> bool {
    i > 0 && is_merged(stack[i - 1])
}

/// Whether the entry at `i` carries the `needs_sync` flag, judged from the
/// PR graph alone.
pub open spec fn line_needs_sync(stack: Seq<PullRequest>, default: Seq<char>, i: int) -> bool {
    line_base_mismatch(stack, default, i) || line_parent_merged(stack, i)
}

/// How many of the first `i` entries carry `base_mismatch`.
pub open spec fn count_base_mismatch(stack: Seq<PullRequest>, default: Seq<char>, i: int) -> int
    decreases i,
{
    if i <= 0 {
        0
    } else {
        count_base_mismatch(stack, default, i - 1) + if line_base_mismatch(stack, default, i - 1) {
            1int
        } else {
            0int
        }
    }
}

/// How many of the first `i` entries carry `needs_sync`.
pub open spec fn count_needs_sync(stack: Seq<PullRequest>, default: Seq<char>, i: int) -> int
    decreases i,
{
    if i <= 0 {
        0
    } else {
        count_needs_sync(stack, default, i - 1) + if line_needs_sync(stack, default, i - 1) {
            1int
        } else {
            0int
        }
    }
}

/// The flag names of a line, in the fixed order
/// `base_mismatch`, `needs_sync`, `needs_push`.
pub open spec fn spec_flags(mismatch: bool, sync: bool, push: bool) -> Seq<Seq<char>> {
    (if mismatch {
        seq!["base_mismatch"@]
    } else {
        Seq::empty()
    }) + (if sync {
        seq!["needs_sync"@]
    } else {
        Seq::empty()
    }) + (if push {
        seq!["needs_push"@]
    } else {
        Seq::empty()
    })
}

/// Annotates each stack entry with its flags, judged from the PR graph alone,
/// and totals the flags. The `needs_push` signal comes from the repository,
/// not from the PR graph, so no line carries it here; the caller merges it in
/// afterwards with [`apply_needs_push_flags`].
pub fn build_status_report(stack: &[PullRequest], default_branch: &str) -> (r: StatusReport)
    ensures
        r.lines@.len() == stack@.len(),
        forall|i: int|
            0 <= i < stack@.len() ==> {
                let line = #[trigger] r.lines@[i];
                &&& line.branch@ == stack@[i].head_ref_name@
                &&& line.number == stack@[i].number
                &&& line.state@ == stack@[i].state@
                &&& line.base@ == stack@[i].base_ref_name@
                &&& line.head@ == stack@[i].head_ref_name@
                &&& string_views(line.flags@) == spec_flags(
                    line_base_mismatch(stack@, default_branch@, i),
                    line_needs_sync(stack@, default_branch@, i),
                    false,
                )
            },
        r.summary.needs_sync == count_needs_sync(stack@, default_branch@, stack@.len() as int),
        r.summary.base_mismatch == count_base_mismatch(
            stack@,
            default_branch@,
            stack@.len() as int,
        ),
        r.summary.needs_push == 0,
{
    let n: usize = stack.len();
    let default_s: String = default_branch.to_owned();
    let mut lines: Vec<StatusLine> = Vec::new();
    let mut needs_sync: usize = 0;
    let mut base_mismatch: usize = 0;
    let mut i: usize = 0;
    while i < n
        invariant
            i <= n,
            n == stack@.len(),
            default_s@ == default_branch@,
            lines@.len() == i,
            forall|k: int|
                0 <= k < i ==> {
                    let line = #[trigger] lines@[k];
                    &&& line.branch@ == stack@[k].head_ref_name@
                    &&& line.number == stack@[k].number
                    &&& line.state@ == stack@[k].state@
                    &&& line.base@ == stack@[k].base_ref_name@
                    &&& line.head@ == stack@[k].head_ref_name@
                    &&& string_views(line.flags@) == spec_flags(
                        line_base_mismatch(stack@, default_branch@, k),
                        line_needs_sync(stack@, default_branch@, k),
                        false,
                    )
                },
            needs_sync == count_needs_sync(stack@, default_branch@, i as int),
            base_mismatch == count_base_mismatch(stack@, default_branch@, i as int),
            needs_sync <= i,
            base_mismatch <= i,
        decreases n - i,
    {
        let same_base: bool = if i == 0 {
            stack[i].base_ref_name == default_s
        } else {
            stack[i].base_ref_name == stack[i - 1].head_ref_name
        };
        let has_base_mismatch: bool = !same_base;
        let parent_is_merged: bool = if i > 0 {
            pr_is_merged(&stack[i - 1])
        } else {
            false
        };
        let has_needs_sync: bool = has_base_mismatch || parent_is_merged;

        let mut flags: Vec<String> = Vec::new();
        if has_base_mismatch {
            flags.push("base_mismatch".to_owned());
            base_mismatch = base_mismatch + 1;
        }
        if has_needs_sync {
            flags.push("needs_sync".to_owned());
            needs_sync = needs_sync + 1;
        }
        proof {
            assert(has_base_mismatch == line_base_mismatch(stack@, default_branch@, i as int));
            assert(has_needs_sync == line_needs_sync(stack@, default_branch@, i as int));
            assert(string_views(flags@) =~~= spec_flags(
                has_base_mismatch,
                has_needs_sync,
                false,
            ));
        }
        lines.push(
            StatusLine {
                branch: stack[i].head_ref_name.clone(),
                number: stack[i].number,
                state: stack[i].state.clone(),
                base: stack[i].base_ref_name.clone(),
                head: stack[i].head_ref_name.clone(),
                flags,
            },
        );
        i = i + 1;
    }
    StatusReport {
        lines,
        summary: StatusSummary { needs_sync, needs_push: 0, base_mismatch },
    }
}

/// The optional head of the open entry at index `j`, as the planner's
/// "previous open branch" state.
pub open spec fn open_view(stack: Seq<PullRequest>, o: Option<usize>) -> Option<Seq<char>> {
    match o {
        Some(j) => Some(stack[j as int].head_ref_name@),
        None => None,
    }
}

/// The sync steps for the entries from `i` on, given the planner state so
/// far: the head of the previous open entry (`prev_open`), whether that entry
/// was itself rewritten (`prev_rw`), and whether the next open entry must be
/// rewritten regardless (`force_next`).
pub open spec fn plan_rec(
    stack: Seq<PullRequest>,
    default: Seq<char>,
    i: int,
    prev_open: Option<Seq<char>>,
    prev_rw: bool,
    force_next: bool,
) -> Seq<SyncStepV>
    decreases stack.len() - i,
{
    if i < 0 || i >= stack.len() {
        Seq::empty()
    } else if is_merged(stack[i]) {
        plan_rec(stack, default, i + 1, prev_open, prev_rw, force_next)
    } else {
        let target = match prev_open {
            Some(p) => p,
            None => default,
        };
        let needs = stack[i].base_ref_name@ != target || prev_rw || force_next;
        let rest = plan_rec(stack, default, i + 1, Some(stack[i].head_ref_name@), needs, false);
        if needs {
            seq![
                SyncStepV {
                    branch: stack[i].head_ref_name@,
                    old_base: stack[i].base_ref_name@,
                    new_base: target,
                },
            ] + rest
        } else {
            rest
        }
    }
}

/// The full sync plan for a stack.
pub open spec fn spec_sync_plan(
    stack: Seq<PullRequest>,
    default: Seq<char>,
    force_first_open: bool,
) -> Seq<SyncStepV> {
    plan_rec(stack, default, 0, None, false, force_first_open)
}

/// Computes the ordered rebase steps that restore the linear invariant.
/// Merged entries are skipped; an open entry is rebased when its recorded
/// base differs from the expected base or when any earlier open entry was
/// rebased; `force_rewrite_first_open` additionally rebases the first open
/// entry (and therefore, by propagation, all its descendants).
pub fn build_sync_plan_with_options(
    stack: &[PullRequest],
    default_branch: &str,
    force_rewrite_first_open: bool,
) -> (r: Vec<SyncStep>)
    ensures
        step_views(r@) == spec_sync_plan(stack@, default_branch@, force_rewrite_first_open),
{
    let n: usize = stack.len();
    let default_s: String = default_branch.to_owned();
    let mut steps: Vec<SyncStep> = Vec::new();
    let mut prev_open: Option<usize> = None;
    let mut prev_rw: bool = false;
    let mut force_next: bool = force_rewrite_first_open;
    let mut i: usize = 0;
    while i < n
        invariant
            i <= n,
            n == stack@.len(),
            default_s@ == default_branch@,
            match prev_open {
                Some(j) => j < i,
                None => true,
            },
            step_views(steps@) + plan_rec(
                stack@,
                default_branch@,
                i as int,
                open_view(stack@, prev_open),
                prev_rw,
                force_next,
            ) == spec_sync_plan(stack@, default_branch@, force_rewrite_first_open),
        decreases n - i,
    {
        let ghost pre_steps = steps@;
        let ghost rem = plan_rec(
            stack@,
            default_branch@,
            i as int,
            open_view(stack@, prev_open),
            prev_rw,
            force_next,
        );
        if pr_is_merged(&stack[i]) {
            i = i + 1;
        } else {
            let same_base: bool = match prev_open {
                Some(j) => stack[i].base_ref_name == stack[j].head_ref_name,
                None => stack[i].base_ref_name == default_s,
            };
            let needs: bool = !same_base || prev_rw || force_next;
            if needs {
                let target: String = match prev_open {
                    Some(j) => stack[j].head_ref_name.clone(),
                    None => default_s.clone(),
                };
                steps.push(
                    SyncStep {
                        branch: stack[i].head_ref_name.clone(),
                        old_base_ref: stack[i].base_ref_name.clone(),
                        new_base_ref: target,
                    },
                );
                proof {
                    assert(step_views(steps@) =~~= step_views(pre_steps) + seq![
                        SyncStepV {
                            branch: stack@[i as int].head_ref_name@,
                            old_base: stack@[i as int].base_ref_name@,
                            new_base: match open_view(stack@, prev_open) {
                                Some(p) => p,
                                None => default_branch@,
                            },
                        },
                    ]);
                }
            }
            prev_open = Some(i);
            prev_rw = needs;
            force_next = false;
            i = i + 1;
            proof {
                assert(step_views(steps@) + plan_rec(
                    stack@,
                    default_branch@,
                    i as int,
                    open_view(stack@, prev_open),
                    prev_rw,
                    force_next,
                ) =~~= step_views(pre_steps) + rem);
            }
        }
    }
    proof {
        assert(step_views(steps@) + plan_rec(
            stack@,
            default_branch@,
            n as int,
            open_view(stack@, prev_open),
            prev_rw,
            force_next,
        ) =~~= step_views(steps@));
    }
    steps
}

/// The sync plan with no forced rewrite of the first open entry.
pub fn build_sync_plan(stack: &[PullRequest], default_branch: &str) -> (r: Vec<SyncStep>)
    ensures
        step_views(r@) == spec_sync_plan(stack@, default_branch@, false),
{
    build_sync_plan_with_options(stack, default_branch, false)
}

/// Heads of the open entries from `i` on, in stack order.
pub open spec fn open_heads_from(stack: Seq<PullRequest>, i: int) -> Seq<Seq<char>>
    decreases stack.len() - i,
{
    if i < 0 || i >= stack.len() {
        Seq::empty()
    } else if is_merged(stack[i]) {
        open_heads_from(stack, i + 1)
    } else {
        seq![stack[i].head_ref_name@] + open_heads_from(stack, i + 1)
    }
}

/// The retarget steps for the entries from `i` on: one per open entry, whose
/// new base is the head of the previous open entry, or the default branch for
/// the first.
pub open spec fn retargets_rec(
    stack: Seq<PullRequest>,
    default: Seq<char>,
    i: int,
    prev_open: Option<Seq<char>>,
) -> Seq<RetargetStepV>
    decreases stack.len() - i,
{
    if i < 0 || i >= stack.len() {
        Seq::empty()
    } else if is_merged(stack[i]) {
        retargets_rec(stack, default, i + 1, prev_open)
    } else {
        let target = match prev_open {
            Some(p) => p,
            None => default,
        };
        seq![RetargetStepV { branch: stack[i].head_ref_name@, new_base: target }]
            + retargets_rec(stack, default, i + 1, Some(stack[i].head_ref_name@))
    }
}

/// The full retarget list for a stack.
pub open spec fn spec_push_retargets(stack: Seq<PullRequest>, default: Seq<char>) -> Seq<
    RetargetStepV,
> {
    retargets_rec(stack, default, 0, None)
}

/// The head of every open entry, in stack order. The caller filters this
/// list down to the branches whose local head differs from the remote one.
pub fn build_push_branches(stack: &[PullRequest]) -> (r: Vec<String>)
    ensures
        string_views(r@) == open_heads_from(stack@, 0),
{
    let n: usize = stack.len();
    let mut branches: Vec<String> = Vec::new();
    let mut i: usize = 0;
    while i < n
        invariant
            i <= n,
            n == stack@.len(),
            string_views(branches@) + open_heads_from(stack@, i as int) == open_heads_from(
                stack@,
                0,
            ),
        decreases n - i,
    {
        let ghost pre = branches@;
        if !pr_is_merged(&stack[i]) {
            branches.push(stack[i].head_ref_name.clone());
            proof {
                assert(string_views(branches@) =~~= string_views(pre) + seq![
                    stack@[i as int].head_ref_name@,
                ]);
            }
        }
        i = i + 1;
        proof {
            assert(string_views(branches@) + open_heads_from(stack@, i as int)
                =~~= string_views(pre) + open_heads_from(stack@, i - 1));
        }
    }
    branches
}

/// One retarget per open entry, in stack order: each open entry is pointed at
/// the head of the open entry before it, the first at the default branch.
pub fn build_push_retargets(stack: &[PullRequest], default_branch: &str) -> (r: Vec<RetargetStep>)
    ensures
        retarget_views(r@) == spec_push_retargets(stack@, default_branch@),
{
    let n: usize = stack.len();
    let default_s: String = default_branch.to_owned();
    let mut retargets: Vec<RetargetStep> = Vec::new();
    let mut prev_open: Option<usize> = None;
    let mut i: usize = 0;
    while i < n
        invariant
            i <= n,
            n == stack@.len(),
            default_s@ == default_branch@,
            match prev_open {
                Some(j) => j < i,
                None => true,
            },
            retarget_views(retargets@) + retargets_rec(
                stack@,
                default_branch@,
                i as int,
                open_view(stack@, prev_open),
            ) == spec_push_retargets(stack@, default_branch@),
        decreases n - i,
    {
        let ghost pre = retargets@;
        if !pr_is_merged(&stack[i]) {
            let target: String = match prev_open {
                Some(j) => stack[j].head_ref_name.clone(),
                None => default_s.clone(),
            };
            retargets.push(
                RetargetStep { branch: stack[i].head_ref_name.clone(), new_base_ref: target },
            );
            proof {
                assert(retarget_views(retargets@) =~~= retarget_views(pre) + seq![
                    RetargetStepV {
                        branch: stack@[i as int].head_ref_name@,
                        new_base: match open_view(stack@, prev_open) {
                            Some(p) => p,
                            None => default_branch@,
                        },
                    },
                ]);
            }
            prev_open = Some(i);
        }
        i = i + 1;
    }
    retargets
}

/// Index of the first open entry whose recorded base is the default branch,
/// if any.
pub open spec fn first_open_rooted_from(
    stack: Seq<PullRequest>,
    default: Seq<char>,
    i: int,
) -> Option<int>
    decreases stack.len() - i,
{
    if i < 0 || i >= stack.len() {
        None
    } else if !is_merged(stack[i]) && stack[i].base_ref_name@ == default {
        Some(i)
    } else {
        first_open_rooted_from(stack, default, i + 1)
    }
}

/// The first open entry that sits directly on the default branch. That entry
/// is the one the "default branch advanced" check applies to.
pub fn first_open_branch_rooted_on_default<'a>(
    stack: &'a [PullRequest],
    default_branch: &str,
) -> (r: Option<&'a PullRequest>)
    ensures
        match first_open_rooted_from(stack@, default_branch@, 0) {
            Some(k) => r matches Some(p) && *p == stack@[k],
            None => r is None,
        },
{
    let n: usize = stack.len();
    let default_s: String = default_branch.to_owned();
    let mut i: usize = 0;
    while i < n
        invariant
            i <= n,
            n == stack@.len(),
            default_s@ == default_branch@,
            first_open_rooted_from(stack@, default_branch@, 0) == first_open_rooted_from(
                stack@,
                default_branch@,
                i as int,
            ),
        decreases n - i,
    {
        if !pr_is_merged(&stack[i]) && stack[i].base_ref_name == default_s {
            return Some(&stack[i]);
        }
        i = i + 1;
    }
    None
}

/// True when some step of the plan rebases `branch`.
pub open spec fn plan_has_step_for(plan: Seq<SyncStepV>, branch: Seq<char>) -> bool {
    exists|k: int| 0 <= k < plan.len() && plan[k].branch == branch
}

/// True when the plan contains exactly this step.
pub open spec fn plan_has_step(
    plan: Seq<SyncStepV>,
    branch: Seq<char>,
    old_base: Seq<char>,
    new_base: Seq<char>,
) -> bool {
    exists|k: int|
        0 <= k < plan.len() && plan[k] == (SyncStepV { branch, old_base, new_base })
}

/// The head of the nearest open entry before `j`, or the default branch when
/// every earlier entry is merged.
pub open spec fn prior_open_head(stack: Seq<PullRequest>, default: Seq<char>, j: int) -> Seq<char>
    decreases j,
{
    if j <= 0 {
        default
    } else if !is_merged(stack[j - 1]) {
        stack[j - 1].head_ref_name@
    } else {
        prior_open_head(stack, default, j - 1)
    }
}

/// Plan minimality: an aligned stack of only open entries, with no forced
/// rewrite, produces an empty sync plan.
pub proof fn lemma_plan_minimality(stack: Seq<PullRequest>, default: Seq<char>)
    requires
        forall|i: int| 0 <= i < stack.len() ==> !is_merged(#[trigger] stack[i]),
        forall|i: int|
            0 <= i < stack.len() ==> (#[trigger] stack[i].base_ref_name@) == expected_base(
                stack,
                default,
                i,
            ),
    ensures
        spec_sync_plan(stack, default, false) == Seq::<SyncStepV>::empty(),
{
    lemma_plan_rec_aligned(stack, default, 0);
}

proof fn lemma_plan_rec_aligned(stack: Seq<PullRequest>, default: Seq<char>, i: int)
    requires
        0 <= i <= stack.len(),
        forall|k: int| 0 <= k < stack.len() ==> !is_merged(#[trigger] stack[k]),
        forall|k: int|
            0 <= k < stack.len() ==> (#[trigger] stack[k].base_ref_name@) == expected_base(
                stack,
                default,
                k,
            ),
    ensures
        plan_rec(
            stack,
            default,
            i,
            if i == 0 {
                None
            } else {
                Some(stack[i - 1].head_ref_name@)
            },
            false,
            false,
        ) == Seq::<SyncStepV>::empty(),
    decreases stack.len() - i,
{
    if i < stack.len() {
        assert(stack[i].base_ref_name@ == expected_base(stack, default, i));
        lemma_plan_rec_aligned(stack, default, i + 1);
    }
}

/// Every step in the plan belongs to some open entry at or after `i`.
proof fn lemma_plan_rec_branches(
    stack: Seq<PullRequest>,
    default: Seq<char>,
    i: int,
    po: Option<Seq<char>>,
    rw: bool,
    f: bool,
    b: Seq<char>,
)
    requires
        plan_has_step_for(plan_rec(stack, default, i, po, rw, f), b),
    ensures
        exists|k: int|
            i <= k < stack.len() && !is_merged(#[trigger] stack[k]) && stack[k].head_ref_name@
                == b,
    decreases stack.len() - i,
{
    if i < 0 || i >= stack.len() {
        assert(false);
    } else if is_merged(stack[i]) {
        lemma_plan_rec_branches(stack, default, i + 1, po, rw, f, b);
    } else {
        let target = match po {
            Some(p) => p,
            None => default,
        };
        let needs = stack[i].base_ref_name@ != target || rw || f;
        let rest = plan_rec(stack, default, i + 1, Some(stack[i].head_ref_name@), needs, false);
        if stack[i].head_ref_name@ == b {
            assert(i <= i < stack.len() && !is_merged(stack[i]) && stack[i].head_ref_name@ == b);
        } else {
            let plan = plan_rec(stack, default, i, po, rw, f);
            let j = choose|j: int| 0 <= j < plan.len() && plan[j].branch == b;
            if needs {
                assert(rest[j - 1].branch == b);
            } else {
                assert(rest[j].branch == b);
            }
            assert(plan_has_step_for(rest, b));
            lemma_plan_rec_branches(
                stack,
                default,
                i + 1,
                Some(stack[i].head_ref_name@),
                needs,
                false,
                b,
            );
        }
    }
}

/// The planner state's target for the entry at `j`, seen from position `i`:
/// the head of the last open entry in `[i, j)`, else the carried-in previous
/// open head, else the default branch.
spec fn window_target(
    stack: Seq<PullRequest>,
    default: Seq<char>,
    i: int,
    po: Option<Seq<char>>,
    j: int,
) -> Seq<char>
    decreases j - i,
{
    if i >= j {
        match po {
            Some(p) => p,
            None => default,
        }
    } else if is_merged(stack[i]) {
        window_target(stack, default, i + 1, po, j)
    } else {
        window_target(stack, default, i + 1, Some(stack[i].head_ref_name@), j)
    }
}

/// Once the previous open entry was rewritten, every later open entry gets a
/// step, chained onto the head of the open entry before it.
proof fn lemma_plan_rec_rw_emits(
    stack: Seq<PullRequest>,
    default: Seq<char>,
    i: int,
    po: Option<Seq<char>>,
    f: bool,
    j: int,
)
    requires
        0 <= i <= j < stack.len(),
        !is_merged(stack[j]),
    ensures
        plan_has_step(
            plan_rec(stack, default, i, po, true, f),
            stack[j].head_ref_name@,
            stack[j].base_ref_name@,
            window_target(stack, default, i, po, j),
        ),
    decreases j - i,
{
    let plan = plan_rec(stack, default, i, po, true, f);
    if is_merged(stack[i]) {
        lemma_plan_rec_rw_emits(stack, default, i + 1, po, f, j);
        let rest = plan_rec(stack, default, i + 1, po, true, f);
        let k = choose|k: int|
            0 <= k < rest.len() && rest[k] == (SyncStepV {
                branch: stack[j].head_ref_name@,
                old_base: stack[j].base_ref_name@,
                new_base: window_target(stack, default, i, po, j),
            });
        assert(plan[k] == rest[k]);
    } else {
        let target = match po {
            Some(p) => p,
            None => default,
        };
        let rest = plan_rec(stack, default, i + 1, Some(stack[i].head_ref_name@), true, false);
        if i == j {
            assert(window_target(stack, default, i, po, j) == target);
            assert(plan[0] == (SyncStepV {
                branch: stack[j].head_ref_name@,
                old_base: stack[j].base_ref_name@,
                new_base: target,
            }));
        } else {
            lemma_plan_rec_rw_emits(stack, default, i + 1, Some(stack[i].head_ref_name@), false, j);
            let w = window_target(stack, default, i + 1, Some(stack[i].head_ref_name@), j);
            let k = choose|k: int|
                0 <= k < rest.len() && rest[k] == (SyncStepV {
                    branch: stack[j].head_ref_name@,
                    old_base: stack[j].base_ref_name@,
                    new_base: w,
                });
            assert(plan[k + 1] == rest[k]);
        }
    }
}

/// When `[m, j)` contains an open entry, the planner's window target at `j`
/// is the head of the nearest open entry before `j`.
proof fn lemma_window_prior(
    stack: Seq<PullRequest>,
    default: Seq<char>,
    m: int,
    po: Option<Seq<char>>,
    j: int,
)
    requires
        0 <= m <= j <= stack.len(),
        exists|k: int| m <= k < j && !is_merged(#[trigger] stack[k]),
    ensures
        window_target(stack, default, m, po, j) == prior_open_head(stack, default, j),
    decreases j - m,
{
    if !is_merged(stack[m]) {
        if exists|k: int| m + 1 <= k < j && !is_merged(#[trigger] stack[k]) {
            lemma_window_prior(stack, default, m + 1, Some(stack[m].head_ref_name@), j);
        } else {
            lemma_window_all_merged(stack, default, m, m + 1, j);
            lemma_prior_last_open(stack, default, m, j);
        }
    } else {
        let k0 = choose|k: int| m <= k < j && !is_merged(#[trigger] stack[k]);
        assert(m + 1 <= k0 < j && !is_merged(stack[k0]));
        lemma_window_prior(stack, default, m + 1, po, j);
    }
}

/// With only merged entries in `[m2, j)`, the window target is the carried
/// previous open head.
proof fn lemma_window_all_merged(
    stack: Seq<PullRequest>,
    default: Seq<char>,
    m: int,
    m2: int,
    j: int,
)
    requires
        0 <= m < m2 <= j <= stack.len(),
        !is_merged(stack[m]),
        forall|k: int| m2 <= k < j ==> is_merged(#[trigger] stack[k]),
    ensures
        window_target(stack, default, m2, Some(stack[m].head_ref_name@), j)
            == stack[m].head_ref_name@,
    decreases j - m2,
{
    if m2 < j {
        lemma_window_all_merged(stack, default, m, m2 + 1, j);
    }
}

/// With only merged entries in `(m, j)`, the nearest open head before `j` is
/// the head at `m`.
proof fn lemma_prior_last_open(stack: Seq<PullRequest>, default: Seq<char>, m: int, j: int)
    requires
        0 <= m < j <= stack.len(),
        !is_merged(stack[m]),
        forall|k: int| m + 1 <= k < j ==> is_merged(#[trigger] stack[k]),
    ensures
        prior_open_head(stack, default, j) == stack[m].head_ref_name@,
    decreases j,
{
    if j - 1 > m {
        lemma_prior_last_open(stack, default, m, j - 1);
    }
}

/// Plan propagation: if the sync plan rebases the entry at `i`, it also
/// rebases every later open entry `j`, onto the head of the nearest open
/// entry before `j`, keeping `j`'s recorded base as the old base.
pub proof fn lemma_plan_propagation(
    stack: Seq<PullRequest>,
    default: Seq<char>,
    force: bool,
    i: int,
    j: int,
)
    requires
        distinct_heads(stack),
        0 <= i < j < stack.len(),
        !is_merged(stack[j]),
        plan_has_step_for(spec_sync_plan(stack, default, force), stack[i].head_ref_name@),
    ensures
        plan_has_step(
            spec_sync_plan(stack, default, force),
            stack[j].head_ref_name@,
            stack[j].base_ref_name@,
            prior_open_head(stack, default, j),
        ),
{
    lemma_plan_rec_propagation(stack, default, 0, None, false, force, i, j);
}

/// Worker for [`lemma_plan_propagation`], generalised over the planner state.
proof fn lemma_plan_rec_propagation(
    stack: Seq<PullRequest>,
    default: Seq<char>,
    i0: int,
    po: Option<Seq<char>>,
    rw: bool,
    f: bool,
    i: int,
    j: int,
)
    requires
        distinct_heads(stack),
        0 <= i0 <= i < j < stack.len(),
        !is_merged(stack[j]),
        plan_has_step_for(plan_rec(stack, default, i0, po, rw, f), stack[i].head_ref_name@),
    ensures
        plan_has_step(
            plan_rec(stack, default, i0, po, rw, f),
            stack[j].head_ref_name@,
            stack[j].base_ref_name@,
            prior_open_head(stack, default, j),
        ),
    decreases i - i0,
{
    let plan = plan_rec(stack, default, i0, po, rw, f);
    let b = stack[i].head_ref_name@;
    lemma_plan_rec_branches(stack, default, i0, po, rw, f, b);
    let kb = choose|k: int|
        i0 <= k < stack.len() && !is_merged(#[trigger] stack[k]) && stack[k].head_ref_name@ == b;
    assert(kb == i);
    if is_merged(stack[i0]) {
        lemma_plan_rec_propagation(stack, default, i0 + 1, po, rw, f, i, j);
        let rest = plan_rec(stack, default, i0 + 1, po, rw, f);
        let k = choose|k: int|
            0 <= k < rest.len() && rest[k] == (SyncStepV {
                branch: stack[j].head_ref_name@,
                old_base: stack[j].base_ref_name@,
                new_base: prior_open_head(stack, default, j),
            });
        assert(plan[k] == rest[k]);
    } else {
        let target = match po {
            Some(p) => p,
            None => default,
        };
        let needs = stack[i0].base_ref_name@ != target || rw || f;
        let rest = plan_rec(stack, default, i0 + 1, Some(stack[i0].head_ref_name@), needs, false);
        if i0 == i {
            if !needs {
                lemma_plan_rec_branches(
                    stack,
                    default,
                    i0 + 1,
                    Some(stack[i0].head_ref_name@),
                    needs,
                    false,
                    b,
                );
                assert(false);
            }
            lemma_plan_rec_rw_emits(stack, default, i0 + 1, Some(stack[i0].head_ref_name@), false, j);
            let w = window_target(stack, default, i0 + 1, Some(stack[i0].head_ref_name@), j);
            if exists|k: int| i0 + 1 <= k < j && !is_merged(#[trigger] stack[k]) {
                lemma_window_prior(stack, default, i0 + 1, Some(stack[i0].head_ref_name@), j);
            } else {
                lemma_window_all_merged(stack, default, i0, i0 + 1, j);
                lemma_prior_last_open(stack, default, i0, j);
            }
            assert(w == prior_open_head(stack, default, j));
            let k = choose|k: int|
                0 <= k < rest.len() && rest[k] == (SyncStepV {
                    branch: stack[j].head_ref_name@,
                    old_base: stack[j].base_ref_name@,
                    new_base: w,
                });
            assert(plan[k + 1] == rest[k]);
        } else {
            let step0 = SyncStepV {
                branch: stack[i0].head_ref_name@,
                old_base: stack[i0].base_ref_name@,
                new_base: target,
            };
            let kp = choose|k: int| 0 <= k < plan.len() && plan[k].branch == b;
            if needs {
                if kp == 0 {
                    assert(plan[0].branch == stack[i0].head_ref_name@);
                    assert(false);
                }
                assert(rest[kp - 1].branch == b);
            } else {
                assert(rest[kp].branch == b);
            }
            assert(plan_has_step_for(rest, b));
            lemma_plan_rec_propagation(
                stack,
                default,
                i0 + 1,
                Some(stack[i0].head_ref_name@),
                needs,
                false,
                i,
                j,
            );
            let k = choose|k: int|
                0 <= k < rest.len() && rest[k] == (SyncStepV {
                    branch: stack[j].head_ref_name@,
                    old_base: stack[j].base_ref_name@,
                    new_base: prior_open_head(stack, default, j),
                });
            if needs {
                assert(plan[k + 1] == rest[k]);
            } else {
                assert(plan[k] == rest[k]);
            }
        }
    }
}

} // verus!
