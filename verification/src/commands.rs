//! Decision kernels and output shaping for the subcommands.
//!
//! Everything here is pure: the caller gathers repository and forge facts,
//! hands them in as plain values, and executes the returned plans and texts.

use vstd::prelude::*;
use vstd::pervasive::VecAdditionalExecFns;

use crate::github::PullRequest;
use crate::github::head_views;
use crate::stack::RetargetStep;
use crate::stack::RetargetStepV;
use crate::stack::StatusLine;
use crate::stack::StatusReport;
use crate::stack::SyncStep;
use crate::stack::build_push_retargets;
use crate::stack::retarget_views;
use crate::stack::spec_push_retargets;
use crate::stack::step_views;
use crate::sync_state::LastSyncPlan;
use crate::text::append_str;
use crate::text::append_u64;
use crate::text::concat2;
use crate::text::concat3;
use crate::text::contains_string;
use crate::text::clone_string_vec;
use crate::text::dec_chars;
use crate::text::join_with;
use crate::text::lemma_dec_chars_bytes;
use crate::text::lemma_encode_concat;
use crate::text::lemma_encode_injective;
use crate::text::spec_join_with;
use crate::text::string_of_bytes;
use crate::text::string_views;
use vstd::utf8::encode_utf8;
use vstd::utf8::encode_utf8_valid_utf8;

verus! {

/// The flag text of a status line: `none` when empty, else the flags joined
/// with commas.
pub open spec fn spec_flags_text(flags: Seq<Seq<char>>) -> Seq<char> {
    if flags.len() == 0 {
        "none"@
    } else {
        spec_join_with(","@, flags)
    }
}

/// The rendered form of one status line.
pub open spec fn spec_status_line_text(line: StatusLine) -> Seq<char> {
    line.branch@ + " PR #"@ + dec_chars(line.number as nat) + " ["@ + line.state@ + "] base="@
        + line.base@ + " head="@ + line.head@ + " flags="@ + spec_flags_text(
        string_views(line.flags@),
    )
}

/// Renders one status line as
/// `<branch> PR #<n> [<state>] base=<b> head=<h> flags=<csv-or-none>`.
pub fn render_status_line(line: &StatusLine) -> (r: String)
    ensures
        r@ == spec_status_line_text(*line),
{
    let mut out: Vec<u8> = Vec::new();
    append_str(&mut out, line.branch.as_str());
    append_str(&mut out, " PR #");
    append_u64(&mut out, line.number);
    append_str(&mut out, " [");
    append_str(&mut out, line.state.as_str());
    append_str(&mut out, "] base=");
    append_str(&mut out, line.base.as_str());
    append_str(&mut out, " head=");
    append_str(&mut out, line.head.as_str());
    append_str(&mut out, " flags=");
    let flags_text: String = if line.flags.len() == 0 {
        "none".to_owned()
    } else {
        join_with(",", &line.flags)
    };
    append_str(&mut out, flags_text.as_str());
    proof {
        let t1 = line.branch@ + " PR #"@;
        let t2 = t1 + dec_chars(line.number as nat);
        let t3 = t2 + " ["@;
        let t4 = t3 + line.state@;
        let t5 = t4 + "] base="@;
        let t6 = t5 + line.base@;
        let t7 = t6 + " head="@;
        let t8 = t7 + line.head@;
        let t9 = t8 + " flags="@;
        let t10 = t9 + spec_flags_text(string_views(line.flags@));
        lemma_encode_concat(line.branch@, " PR #"@);
        lemma_dec_chars_bytes(line.number as nat);
        lemma_encode_concat(t1, dec_chars(line.number as nat));
        lemma_encode_concat(t2, " ["@);
        lemma_encode_concat(t3, line.state@);
        lemma_encode_concat(t4, "] base="@);
        lemma_encode_concat(t5, line.base@);
        lemma_encode_concat(t6, " head="@);
        lemma_encode_concat(t7, line.head@);
        lemma_encode_concat(t8, " flags="@);
        lemma_encode_concat(t9, spec_flags_text(string_views(line.flags@)));
        assert(out@ =~= encode_utf8(t10));
        encode_utf8_valid_utf8(t10);
    }
    let r = string_of_bytes(out);
    proof {
        lemma_encode_injective(r@, spec_status_line_text(*line));
    }
    r
}

/// The rendered summary totals.
pub open spec fn spec_summary_text(needs_sync: nat, needs_push: nat, base_mismatch: nat) -> Seq<
    char,
> {
    "Summary: needs_sync="@ + dec_chars(needs_sync) + " needs_push="@ + dec_chars(needs_push)
        + " base_mismatch="@ + dec_chars(base_mismatch)
}

/// Renders the trailing summary line.
pub fn render_summary(needs_sync: usize, needs_push: usize, base_mismatch: usize) -> (r: String)
    ensures
        r@ == spec_summary_text(needs_sync as nat, needs_push as nat, base_mismatch as nat),
{
    let mut out: Vec<u8> = Vec::new();
    append_str(&mut out, "Summary: needs_sync=");
    append_u64(&mut out, needs_sync as u64);
    append_str(&mut out, " needs_push=");
    append_u64(&mut out, needs_push as u64);
    append_str(&mut out, " base_mismatch=");
    append_u64(&mut out, base_mismatch as u64);
    proof {
        let t1 = "Summary: needs_sync="@ + dec_chars(needs_sync as nat);
        let t2 = t1 + " needs_push="@;
        let t3 = t2 + dec_chars(needs_push as nat);
        let t4 = t3 + " base_mismatch="@;
        let t5 = t4 + dec_chars(base_mismatch as nat);
        lemma_dec_chars_bytes(needs_sync as nat);
        lemma_dec_chars_bytes(needs_push as nat);
        lemma_dec_chars_bytes(base_mismatch as nat);
        lemma_encode_concat("Summary: needs_sync="@, dec_chars(needs_sync as nat));
        lemma_encode_concat(t1, " needs_push="@);
        lemma_encode_concat(t2, dec_chars(needs_push as nat));
        lemma_encode_concat(t3, " base_mismatch="@);
        lemma_encode_concat(t4, dec_chars(base_mismatch as nat));
        assert(out@ =~= encode_utf8(t5));
        encode_utf8_valid_utf8(t5);
    }
    let r = string_of_bytes(out);
    proof {
        lemma_encode_injective(
            r@,
            spec_summary_text(needs_sync as nat, needs_push as nat, base_mismatch as nat),
        );
    }
    r
}

/// Renders `Stack: <default> <- <head0> <- <head1> ...`.
pub fn render_stack_header(default_branch: &str, stack: &[PullRequest]) -> (r: String)
    ensures
        r@ == "Stack: "@ + default_branch@ + " <- "@ + spec_join_with(
            " <- "@,
            head_views(stack@),
        ),
{
    let n: usize = stack.len();
    let mut names: Vec<String> = Vec::new();
    let mut i: usize = 0;
    while i < n
        invariant
            i <= n,
            n == stack@.len(),
            string_views(names@) =~= head_views(stack@).take(i as int),
        decreases n - i,
    {
        let ghost pre = names@;
        names.push(stack[i].head_ref_name.clone());
        i = i + 1;
        proof {
            assert(string_views(names@) =~= string_views(pre).push(
                stack@[i - 1].head_ref_name@,
            ));
            assert(string_views(names@) =~= head_views(stack@).take(i as int));
        }
    }
    proof {
        assert(head_views(stack@).take(n as int) =~= head_views(stack@));
    }
    let chain = join_with(" <- ", &names);
    let head = concat3("Stack: ", default_branch, " <- ");
    let r = concat2(head.as_str(), chain.as_str());
    proof {
        assert(r@ =~= "Stack: "@ + default_branch@ + " <- "@ + spec_join_with(
            " <- "@,
            head_views(stack@),
        ));
    }
    r
}

/// How many of the flags are set.
pub open spec fn count_true(fl: Seq<bool>, i: int) -> int
    decreases i,
{
    if i <= 0 {
        0
    } else {
        count_true(fl, i - 1) + if fl[i - 1] {
            1int
        } else {
            0int
        }
    }
}

/// Appends the `needs_push` flag to every line whose branch diverged from
/// its remote, and counts them into the summary. `needs[i]` belongs to line
/// `i`.
pub fn apply_needs_push_flags(report: &mut StatusReport, needs: &Vec<bool>)
    requires
        needs@.len() == old(report).lines@.len(),
        old(report).summary.needs_push + count_true(needs@, needs@.len() as int) <= usize::MAX,
    ensures
        final(report).lines@.len() == old(report).lines@.len(),
        forall|i: int|
            0 <= i < final(report).lines@.len() ==> {
                let l = #[trigger] final(report).lines@[i];
                let o = old(report).lines@[i];
                &&& l.branch@ == o.branch@
                &&& l.number == o.number
                &&& l.state@ == o.state@
                &&& l.base@ == o.base@
                &&& l.head@ == o.head@
                &&& string_views(l.flags@) == string_views(o.flags@) + (if needs@[i] {
                    seq!["needs_push"@]
                } else {
                    Seq::empty()
                })
            },
        final(report).summary.needs_push == old(report).summary.needs_push + count_true(
            needs@,
            needs@.len() as int,
        ),
        final(report).summary.needs_sync == old(report).summary.needs_sync,
        final(report).summary.base_mismatch == old(report).summary.base_mismatch,
{
    let n: usize = report.lines.len();
    let mut new_lines: Vec<StatusLine> = Vec::new();
    let mut added: usize = 0;
    let mut i: usize = 0;
    while i < n
        invariant
            i <= n,
            n == old(report).lines@.len(),
            n == needs@.len(),
            report.lines@ == old(report).lines@,
            report.summary == old(report).summary,
            new_lines@.len() == i,
            added == count_true(needs@, i as int),
            added <= i,
            old(report).summary.needs_push + count_true(needs@, needs@.len() as int)
                <= usize::MAX,
            forall|k: int|
                0 <= k < i ==> {
                    let l = #[trigger] new_lines@[k];
                    let o = old(report).lines@[k];
                    &&& l.branch@ == o.branch@
                    &&& l.number == o.number
                    &&& l.state@ == o.state@
                    &&& l.base@ == o.base@
                    &&& l.head@ == o.head@
                    &&& string_views(l.flags@) == string_views(o.flags@) + (if needs@[k] {
                        seq!["needs_push"@]
                    } else {
                        Seq::empty()
                    })
                },
        decreases n - i,
    {
        let mut flags: Vec<String> = clone_string_vec(&report.lines[i].flags);
        let ghost pre_flags = flags@;
        if needs[i] {
            flags.push("needs_push".to_owned());
            added = added + 1;
            proof {
                lemma_count_true_bound(needs@, needs@.len() as int, i + 1);
                assert(string_views(flags@) =~= string_views(pre_flags).push("needs_push"@));
            }
        }
        proof {
            assert(string_views(flags@) =~= string_views(
                old(report).lines@[i as int].flags@,
            ) + (if needs@[i as int] {
                seq!["needs_push"@]
            } else {
                Seq::empty()
            }));
        }
        new_lines.push(
            StatusLine {
                branch: report.lines[i].branch.clone(),
                number: report.lines[i].number,
                state: report.lines[i].state.clone(),
                base: report.lines[i].base.clone(),
                head: report.lines[i].head.clone(),
                flags,
            },
        );
        i = i + 1;
    }
    proof {
        lemma_count_true_bound(needs@, needs@.len() as int, needs@.len() as int);
    }
    report.lines = new_lines;
    report.summary.needs_push = report.summary.needs_push + added;
}

/// A prefix of the flags never counts more than the whole.
proof fn lemma_count_true_bound(fl: Seq<bool>, n: int, i: int)
    requires
        0 <= i <= n <= fl.len(),
    ensures
        count_true(fl, i) <= count_true(fl, n),
        count_true(fl, i) <= i,
    decreases n - i,
{
    if i < n {
        lemma_count_true_bound(fl, n, i + 1);
    }
    lemma_count_true_nonneg_upto(fl, i);
}

/// Counts are non-negative and bounded by the prefix length.
proof fn lemma_count_true_nonneg_upto(fl: Seq<bool>, i: int)
    ensures
        0 <= count_true(fl, i) <= if i >= 0 {
            i
        } else {
            0
        },
    decreases i,
{
    if i > 0 {
        lemma_count_true_nonneg_upto(fl, i - 1);
    }
}

/// The first line whose branch is `branch`, at or after `i`.
pub open spec fn first_line_with(lines: Seq<StatusLine>, branch: Seq<char>, i: int) -> Option<int>
    decreases lines.len() - i,
{
    if i < 0 || i >= lines.len() {
        None
    } else if lines[i].branch@ == branch {
        Some(i)
    } else {
        first_line_with(lines, branch, i + 1)
    }
}

/// Adds the `needs_sync` flag to the line for `branch` — the first open
/// entry on the default branch, which the advanced remote default makes
/// stale — unless the line already carries it.
pub fn mark_needs_sync(report: &mut StatusReport, branch: &str)
    requires
        old(report).summary.needs_sync < usize::MAX,
    ensures
        final(report).lines@.len() == old(report).lines@.len(),
        final(report).summary.needs_push == old(report).summary.needs_push,
        final(report).summary.base_mismatch == old(report).summary.base_mismatch,
        match first_line_with(old(report).lines@, branch@, 0) {
            None => (*final(report) == *old(report)),
            Some(j) => {
                if string_views(old(report).lines@[j].flags@).contains("needs_sync"@) {
                    *final(report) == *old(report)
                } else {
                    &&& final(report).summary.needs_sync == old(report).summary.needs_sync + 1
                    &&& (forall|i: int|
                        0 <= i < old(report).lines@.len() && i != j ==> final(report).lines@[i]
                            == old(report).lines@[i])
                    &&& line_views_eq_except_flags(
                        final(report).lines@[j],
                        old(report).lines@[j],
                    )
                    &&& string_views(final(report).lines@[j].flags@) == string_views(
                        old(report).lines@[j].flags@,
                    ) + seq!["needs_sync"@]
                }
            },
        },
{
    let n: usize = report.lines.len();
    let branch_s: String = branch.to_owned();
    let mut i: usize = 0;
    while i < n
        invariant
            i <= n,
            n == report.lines@.len(),
            branch_s@ == branch@,
            *report == *old(report),
            old(report).summary.needs_sync < usize::MAX,
            first_line_with(report.lines@, branch@, 0) == first_line_with(
                report.lines@,
                branch@,
                i as int,
            ),
        decreases n - i,
    {
        if report.lines[i].branch == branch_s {
            if contains_string(&report.lines[i].flags, "needs_sync") {
                return ;
            }
            let mut flags: Vec<String> = clone_string_vec(&report.lines[i].flags);
            let ghost pre_flags = flags@;
            flags.push("needs_sync".to_owned());
            proof {
                assert(string_views(flags@) =~= string_views(pre_flags).push("needs_sync"@));
            }
            let updated = StatusLine {
                branch: report.lines[i].branch.clone(),
                number: report.lines[i].number,
                state: report.lines[i].state.clone(),
                base: report.lines[i].base.clone(),
                head: report.lines[i].head.clone(),
                flags,
            };
            let ghost pre_lines = report.lines@;
            report.lines.set(i, updated);
            report.summary.needs_sync = report.summary.needs_sync + 1;
            proof {
                assert(report.lines@ =~= pre_lines.update(i as int, updated));
            }
            return ;
        }
        i = i + 1;
    }
}

/// What the submit command does after the environment checks.
#[derive(Debug, Clone, PartialEq, Eq)]
pub enum SubmitAction {
    /// The branch already has a PR; nothing to create.
    AlreadyHasPr,
    /// Create a PR with this base; `used_default` notes that the base fell
    /// back to the default branch because no `--base` was given.
    CreatePr { base: String, used_default: bool },
}

/// The submit command's plan: push an upstream first when missing, then act.
#[derive(Debug, Clone, PartialEq, Eq)]
pub struct SubmitPlan {
    pub push_upstream: bool,
    pub action: SubmitAction,
}

/// Decides what `submit` must do: refuse on the default branch, push an
/// upstream when the branch has none, and create a PR unless one exists,
/// with the base falling back to the default branch.
pub fn plan_submit(
    current_branch: &str,
    default_branch: &str,
    has_upstream: bool,
    has_pr: bool,
    base_override: Option<String>,
) -> (r: Result<SubmitPlan, String>)
    ensures
        current_branch@ == default_branch@ ==> (r matches Err(m) && m@
            == "cannot submit PR for default branch "@ + default_branch@
            + "; checkout a feature branch and retry"@),
        current_branch@ != default_branch@ ==> (r matches Ok(p) && {
            &&& p.push_upstream == !has_upstream
            &&& (has_pr ==> p.action == SubmitAction::AlreadyHasPr)
            &&& (!has_pr ==> (p.action matches SubmitAction::CreatePr { base, used_default }
                && (match base_override {
                    Some(b) => base@ == b@ && !used_default,
                    None => base@ == default_branch@ && used_default,
                })))
        }),
{
    let cur_s: String = current_branch.to_owned();
    let default_s: String = default_branch.to_owned();
    if cur_s == default_s {
        return Err(
            concat3(
                "cannot submit PR for default branch ",
                default_branch,
                "; checkout a feature branch and retry",
            ),
        );
    }
    let action = if has_pr {
        SubmitAction::AlreadyHasPr
    } else {
        match base_override {
            Some(b) => SubmitAction::CreatePr { base: b, used_default: false },
            None => SubmitAction::CreatePr { base: default_s, used_default: true },
        }
    };
    Ok(SubmitPlan { push_upstream: !has_upstream, action })
}

/// Refuses a new branch name that already exists locally or on the remote.
pub fn new_branch_precheck(branch: &str, local_exists: bool, remote_exists: bool) -> (r: Result<
    (),
    String,
>)
    ensures
        local_exists ==> (r matches Err(m) && m@ == "branch "@ + branch@
            + " already exists locally; choose a different name"@),
        !local_exists && remote_exists ==> (r matches Err(m) && m@ == "branch "@ + branch@
            + " already exists on origin; choose a different name"@),
        !local_exists && !remote_exists ==> r is Ok,
{
    if local_exists {
        return Err(concat3("branch ", branch, " already exists locally; choose a different name"));
    }
    if remote_exists {
        return Err(
            concat3("branch ", branch, " already exists on origin; choose a different name"),
        );
    }
    Ok(())
}

/// Which bootstrap work the new-branch flow owes the current branch: an
/// upstream push when it has none, a PR when it has none — neither when the
/// flow starts from the default branch.
pub fn bootstrap_actions(starting_from_default: bool, has_upstream: bool, has_pr: bool) -> (r: (
    bool,
    bool,
))
    ensures
        r.0 == (!starting_from_default && !has_upstream),
        r.1 == (!starting_from_default && !has_pr),
{
    if starting_from_default {
        (false, false)
    } else {
        (!has_upstream, !has_pr)
    }
}

/// One possible parent for the current branch's bootstrap PR: a PR head,
/// whether it is an ancestor of the current branch, and the commit distance
/// from it to the current branch (zero when it is not strictly behind, or
/// when the query failed).
#[derive(Debug, Clone, PartialEq, Eq)]
pub struct BootstrapCandidate {
    pub branch: String,
    pub is_ancestor: bool,
    pub distance: usize,
}

/// The base the bootstrap PR should target, scanning from `i` with the best
/// candidate so far: the nearest strict ancestor wins, earlier candidates
/// win ties, and with no ancestor at all the default branch is used.
pub open spec fn spec_bootstrap_base(
    c: Seq<BootstrapCandidate>,
    i: int,
    best: Option<(int, Seq<char>)>,
    default: Seq<char>,
) -> Seq<char>
    decreases c.len() - i,
{
    if i < 0 || i >= c.len() {
        match best {
            Some(b) => b.1,
            None => default,
        }
    } else {
        let take = c[i].is_ancestor && c[i].distance > 0 && (match best {
            Some(b) => c[i].distance < b.0,
            None => true,
        });
        if take {
            spec_bootstrap_base(c, i + 1, Some((c[i].distance as int, c[i].branch@)), default)
        } else {
            spec_bootstrap_base(c, i + 1, best, default)
        }
    }
}

/// Picks the base for the current branch's bootstrap PR: among the
/// candidates that are strict ancestors of the current branch, the one at
/// the smallest commit distance, ties going to the earliest; the default
/// branch when none qualifies.
pub fn infer_bootstrap_base_for_current_branch(
    candidates: &Vec<BootstrapCandidate>,
    default_branch: &str,
) -> (r: String)
    ensures
        r@ == spec_bootstrap_base(candidates@, 0, None, default_branch@),
{
    let n: usize = candidates.len();
    let mut best: Option<usize> = None;
    let mut i: usize = 0;
    while i < n
        invariant
            i <= n,
            n == candidates@.len(),
            match best {
                Some(j) => j < i && candidates@[j as int].is_ancestor && candidates@[
                    j as int
                ].distance > 0,
                None => true,
            },
            spec_bootstrap_base(candidates@, 0, None, default_branch@) == spec_bootstrap_base(
                candidates@,
                i as int,
                match best {
                    Some(j) => Some(
                        (
                            candidates@[j as int].distance as int,
                            candidates@[j as int].branch@,
                        ),
                    ),
                    None => None,
                },
                default_branch@,
            ),
        decreases n - i,
    {
        let take: bool = candidates[i].is_ancestor && candidates[i].distance > 0 && (match best {
            Some(j) => candidates[i].distance < candidates[j].distance,
            None => true,
        });
        if take {
            best = Some(i);
        }
        i = i + 1;
    }
    match best {
        Some(j) => candidates[j].branch.clone(),
        None => default_branch.to_owned(),
    }
}

/// The branches at the set flags, in order.
pub open spec fn spec_filter_flags(xs: Seq<Seq<char>>, fl: Seq<bool>, i: int) -> Seq<Seq<char>>
    decreases xs.len() - i,
{
    if i < 0 || i >= xs.len() {
        Seq::empty()
    } else if i < fl.len() && fl[i] {
        seq![xs[i]] + spec_filter_flags(xs, fl, i + 1)
    } else {
        spec_filter_flags(xs, fl, i + 1)
    }
}

/// Keeps the branches whose flag is set: the candidates that actually
/// diverged from their remote and therefore must be pushed.
pub fn select_push_branches(branches: Vec<String>, needs: &Vec<bool>) -> (r: Vec<String>)
    requires
        branches@.len() == needs@.len(),
    ensures
        string_views(r@) == spec_filter_flags(string_views(branches@), needs@, 0),
{
    let n: usize = branches.len();
    let mut out: Vec<String> = Vec::new();
    let mut i: usize = 0;
    while i < n
        invariant
            i <= n,
            n == branches@.len(),
            n == needs@.len(),
            string_views(out@) + spec_filter_flags(string_views(branches@), needs@, i as int)
                == spec_filter_flags(string_views(branches@), needs@, 0),
        decreases n - i,
    {
        let ghost pre = out@;
        if needs[i] {
            out.push(branches[i].clone());
            proof {
                assert(string_views(out@) =~= string_views(pre).push(
                    string_views(branches@)[i as int],
                ));
            }
        }
        i = i + 1;
        proof {
            assert(string_views(out@) + spec_filter_flags(
                string_views(branches@),
                needs@,
                i as int,
            ) =~~= string_views(pre) + spec_filter_flags(
                string_views(branches@),
                needs@,
                i - 1,
            ));
        }
    }
    out
}

/// The retarget a sync step implies: point the branch's PR at the step's
/// new base.
pub open spec fn retarget_of_step(s: crate::stack::SyncStepV) -> RetargetStepV {
    RetargetStepV { branch: s.branch, new_base: s.new_base }
}

/// Derives the retargets a completed sync implies, one per step.
pub fn retargets_of_sync_steps(steps: &Vec<SyncStep>) -> (r: Vec<RetargetStep>)
    ensures
        retarget_views(r@) == step_views(steps@).map_values(|s: crate::stack::SyncStepV| retarget_of_step(s)),
{
    let n: usize = steps.len();
    let mut out: Vec<RetargetStep> = Vec::new();
    let mut i: usize = 0;
    while i < n
        invariant
            i <= n,
            n == steps@.len(),
            out@.len() == i,
            forall|k: int|
                0 <= k < i ==> {
                    let o = #[trigger] out@[k];
                    o.branch@ == steps@[k].branch@ && o.new_base_ref@ == steps@[k].new_base_ref@
                },
        decreases n - i,
    {
        out.push(
            RetargetStep {
                branch: steps[i].branch.clone(),
                new_base_ref: steps[i].new_base_ref.clone(),
            },
        );
        i = i + 1;
    }
    proof {
        assert(retarget_views(out@) =~~= step_views(steps@).map_values(
            |s: crate::stack::SyncStepV| retarget_of_step(s),
        ));
    }
    out
}

/// The retargets a push run applies: the cached plan of the last successful
/// sync when its default branch still matches, otherwise the retargets
/// recomputed from the stack.
pub fn choose_retargets(
    cached: Option<LastSyncPlan>,
    stack: &[PullRequest],
    default_branch: &str,
) -> (r: Vec<RetargetStep>)
    ensures
        match cached {
            Some(p) => {
                if p.default_branch@ == default_branch@ {
                    r == p.retargets
                } else {
                    retarget_views(r@) == spec_push_retargets(stack@, default_branch@)
                }
            },
            None => retarget_views(r@) == spec_push_retargets(stack@, default_branch@),
        },
{
    let default_s: String = default_branch.to_owned();
    match cached {
        Some(p) => {
            if p.default_branch == default_s {
                p.retargets
            } else {
                build_push_retargets(stack, default_branch)
            }
        },
        None => build_push_retargets(stack, default_branch),
    }
}

/// Line equality up to the flag list.
pub open spec fn line_views_eq_except_flags(a: StatusLine, b: StatusLine) -> bool {
    &&& a.branch@ == b.branch@
    &&& a.number == b.number
    &&& a.state@ == b.state@
    &&& a.base@ == b.base@
    &&& a.head@ == b.head@
}

} // verus!
