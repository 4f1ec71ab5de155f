//! Pull-request metadata and discovery of the linear stack.
//!
//! The forge reports every pull request as a head branch, a base branch, a
//! state and an optional merge timestamp. Discovery walks that graph from the
//! caller's current branch: down the base links until the repository default
//! branch, and up the unique open child links until the tip.

use vstd::prelude::*;

use crate::text::concat2;
use crate::text::concat3;
use crate::text::join_with;
use crate::text::spec_join_with;
use crate::text::string_views;
use vstd::utf8::encode_utf8;

verus! {

/// One pull request as reported by the forge. Immutable within a run.
#[derive(Debug, Clone, PartialEq, Eq)]
pub struct PullRequest {
    pub number: u64,
    pub head_ref_name: String,
    pub base_ref_name: String,
    pub state: String,
    pub merged_at: Option<String>,
}

impl PullRequest {
    /// An exact copy; spelled out so contracts know the fields carry over.
    pub fn duplicate(&self) -> (r: PullRequest)
        ensures
            r == *self,
    {
        PullRequest {
            number: self.number,
            head_ref_name: self.head_ref_name.clone(),
            base_ref_name: self.base_ref_name.clone(),
            state: self.state.clone(),
            merged_at: match &self.merged_at {
                Some(s) => Some(s.clone()),
                None => None,
            },
        }
    }
}

/// True when the pull request counts as merged for planning purposes: the
/// forge reports the `MERGED` state or a merge timestamp is present.
pub open spec fn is_merged(pr: PullRequest) -> bool {
    pr.state@ == "MERGED"@ || pr.merged_at is Some
}

/// Executable form of [`is_merged`].
pub fn pr_is_merged(pr: &PullRequest) -> (r: bool)
    ensures
        r == is_merged(*pr),
{
    let merged_state: String = "MERGED".to_owned();
    pr.state == merged_state || pr.merged_at.is_some()
}

/// The head branch names of the pull requests, in input order.
pub open spec fn head_views(prs: Seq<PullRequest>) -> Seq<Seq<char>> {
    prs.map_values(|p: PullRequest| p.head_ref_name@)
}

/// True when `pr` is one of the input pull requests.
pub open spec fn pr_in(prs: Seq<PullRequest>, pr: PullRequest) -> bool {
    exists|k: int| 0 <= k < prs.len() && prs[k] == pr
}

/// No head branch occurs twice.
pub open spec fn distinct_heads(stack: Seq<PullRequest>) -> bool {
    forall|a: int, b: int|
        0 <= a < b < stack.len() ==> stack[a].head_ref_name@ != stack[b].head_ref_name@
}

/// The last index below `i` whose head is `name`, if any. The last match is
/// the one a head-keyed map built by insertion in input order would hold.
pub open spec fn find_last_below(prs: Seq<PullRequest>, name: Seq<char>, i: int) -> Option<int>
    decreases i,
{
    if i <= 0 {
        None
    } else if prs[i - 1].head_ref_name@ == name {
        Some(i - 1)
    } else {
        find_last_below(prs, name, i - 1)
    }
}

/// The pull request a head name resolves to.
pub open spec fn spec_by_head(prs: Seq<PullRequest>, name: Seq<char>) -> Option<int> {
    find_last_below(prs, name, prs.len() as int)
}

/// What a [`find_last_below`] result means for the entries below `i`.
proof fn lemma_find_last_props(prs: Seq<PullRequest>, name: Seq<char>, i: int)
    ensures
        match find_last_below(prs, name, i) {
            Some(k) => 0 <= k < i && prs[k].head_ref_name@ == name,
            None => forall|t: int| 0 <= t < i ==> prs[t].head_ref_name@ != name,
        },
    decreases i,
{
    if i > 0 {
        lemma_find_last_props(prs, name, i - 1);
    }
}

/// Finds the pull request whose head is `name`.
fn find_by_head(prs: &[PullRequest], name: &String) -> (r: Option<usize>)
    ensures
        match r {
            Some(k) => k < prs@.len() && spec_by_head(prs@, name@) == Some(k as int),
            None => spec_by_head(prs@, name@) is None,
        },
{
    let n: usize = prs.len();
    let mut i: usize = n;
    while i > 0
        invariant
            i <= n,
            n == prs@.len(),
            find_last_below(prs@, name@, n as int) == find_last_below(prs@, name@, i as int),
        decreases i,
    {
        if prs[i - 1].head_ref_name == *name {
            return Some(i - 1);
        }
        i = i - 1;
    }
    None
}

/// True when `name` occurs among the seen branch names.
fn seen_contains(seen: &Vec<String>, name: &String) -> (r: bool)
    ensures
        r == string_views(seen@).contains(name@),
{
    let n: usize = seen.len();
    let mut i: usize = 0;
    while i < n
        invariant
            i <= n,
            n == seen@.len(),
            forall|k: int| 0 <= k < i ==> string_views(seen@)[k] != name@,
        decreases n - i,
    {
        if seen[i] == *name {
            proof {
                assert(string_views(seen@)[i as int] == name@);
            }
            return true;
        }
        i = i + 1;
    }
    proof {
        assert(!string_views(seen@).contains(name@));
    }
    false
}

/// Indices at or after `i` whose base is `name`, in input order.
pub open spec fn children_idx_from(prs: Seq<PullRequest>, name: Seq<char>, i: int) -> Seq<int>
    decreases prs.len() - i,
{
    if i < 0 || i >= prs.len() {
        Seq::empty()
    } else if prs[i].base_ref_name@ == name {
        seq![i] + children_idx_from(prs, name, i + 1)
    } else {
        children_idx_from(prs, name, i + 1)
    }
}

/// The head names of the pull requests based on `name`, in input order.
pub open spec fn children_heads(prs: Seq<PullRequest>, name: Seq<char>) -> Seq<Seq<char>> {
    children_idx_from(prs, name, 0).map_values(|k: int| prs[k].head_ref_name@)
}

/// Soundness and completeness of [`children_idx_from`].
proof fn lemma_children_props(prs: Seq<PullRequest>, name: Seq<char>, i: int)
    requires
        0 <= i,
    ensures
        forall|t: int|
            0 <= t < children_idx_from(prs, name, i).len() ==> {
                let k = #[trigger] children_idx_from(prs, name, i)[t];
                i <= k < prs.len() && prs[k].base_ref_name@ == name
            },
        forall|k: int|
            i <= k < prs.len() && (#[trigger] prs[k].base_ref_name@) == name
                ==> children_idx_from(prs, name, i).contains(k),
    decreases prs.len() - i,
{
    if 0 <= i < prs.len() {
        lemma_children_props(prs, name, i + 1);
        let rest = children_idx_from(prs, name, i + 1);
        let cur = children_idx_from(prs, name, i);
        if prs[i].base_ref_name@ == name {
            assert(cur == seq![i] + rest);
            assert forall|k: int|
                i <= k < prs.len() && (#[trigger] prs[k].base_ref_name@) == name implies cur.contains(
                k,
            ) by {
                if k == i {
                    assert(cur[0] == i);
                    assert(cur.contains(i));
                } else {
                    assert(rest.contains(k));
                    let t = choose|t: int| 0 <= t < rest.len() && rest[t] == k;
                    assert(cur[t + 1] == k);
                    assert(cur.contains(k));
                }
            };
        } else {
            assert(cur == rest);
            assert forall|k: int|
                i <= k < prs.len() && (#[trigger] prs[k].base_ref_name@) == name implies cur.contains(
                k,
            ) by {
                assert(k != i);
                assert(rest.contains(k));
            };
        }
    }
}

/// Collects the indices of the pull requests whose base is `name`.
fn collect_children(prs: &[PullRequest], name: &String) -> (r: Vec<usize>)
    ensures
        r@.map_values(|k: usize| k as int) == children_idx_from(prs@, name@, 0),
{
    let n: usize = prs.len();
    let mut out: Vec<usize> = Vec::new();
    let mut i: usize = 0;
    while i < n
        invariant
            i <= n,
            n == prs@.len(),
            out@.map_values(|k: usize| k as int) + children_idx_from(prs@, name@, i as int)
                == children_idx_from(prs@, name@, 0),
        decreases n - i,
    {
        let ghost pre = out@;
        if prs[i].base_ref_name == *name {
            out.push(i);
            proof {
                assert(out@.map_values(|k: usize| k as int) =~= pre.map_values(
                    |k: usize| k as int,
                ) + seq![i as int]);
            }
        }
        i = i + 1;
    }
    out
}

/// Byte-wise lexicographic order: `a` is at most `b`.
pub open spec fn bytes_le(a: Seq<u8>, b: Seq<u8>) -> bool
    decreases a.len(),
{
    if a.len() == 0 {
        true
    } else if b.len() == 0 {
        false
    } else if a[0] < b[0] {
        true
    } else if a[0] > b[0] {
        false
    } else {
        bytes_le(a.drop_first(), b.drop_first())
    }
}

/// [`bytes_le`] is reflexive.
proof fn lemma_bytes_le_refl(a: Seq<u8>)
    ensures
        bytes_le(a, a),
    decreases a.len(),
{
    if a.len() > 0 {
        lemma_bytes_le_refl(a.drop_first());
    }
}

/// [`bytes_le`] is total.
proof fn lemma_bytes_le_total(a: Seq<u8>, b: Seq<u8>)
    ensures
        bytes_le(a, b) || bytes_le(b, a),
    decreases a.len(),
{
    if a.len() > 0 && b.len() > 0 && a[0] == b[0] {
        lemma_bytes_le_total(a.drop_first(), b.drop_first());
    }
}

/// [`bytes_le`] is transitive.
proof fn lemma_bytes_le_trans(a: Seq<u8>, b: Seq<u8>, c: Seq<u8>)
    requires
        bytes_le(a, b),
        bytes_le(b, c),
    ensures
        bytes_le(a, c),
    decreases a.len(),
{
    if a.len() > 0 && b.len() > 0 && c.len() > 0 && a[0] == b[0] && b[0] == c[0] {
        lemma_bytes_le_trans(a.drop_first(), b.drop_first(), c.drop_first());
    }
}

/// Skipping a common prefix does not change the comparison.
proof fn lemma_bytes_le_skip(a: Seq<u8>, b: Seq<u8>, i: int)
    requires
        0 <= i <= a.len(),
        i <= b.len(),
        forall|k: int| 0 <= k < i ==> a[k] == b[k],
    ensures
        bytes_le(a, b) == bytes_le(a.skip(i), b.skip(i)),
    decreases i,
{
    if i > 0 {
        assert(a.len() > 0 && b.len() > 0 && a[0] == b[0]);
        assert(a.drop_first().skip(i - 1) =~= a.skip(i));
        assert(b.drop_first().skip(i - 1) =~= b.skip(i));
        lemma_bytes_le_skip(a.drop_first(), b.drop_first(), i - 1);
    } else {
        assert(a.skip(0) =~= a);
        assert(b.skip(0) =~= b);
    }
}

/// Compares two byte slices lexicographically.
fn bytes_le_exec(a: &[u8], b: &[u8]) -> (r: bool)
    ensures
        r == bytes_le(a@, b@),
{
    let na: usize = a.len();
    let nb: usize = b.len();
    let mut i: usize = 0;
    while i < na && i < nb
        invariant
            i <= na,
            i <= nb,
            na == a@.len(),
            nb == b@.len(),
            forall|k: int| 0 <= k < i ==> a@[k] == b@[k],
        decreases na - i,
    {
        if a[i] < b[i] {
            proof {
                lemma_bytes_le_skip(a@, b@, i as int);
                assert(a@.skip(i as int)[0] == a@[i as int]);
                assert(b@.skip(i as int)[0] == b@[i as int]);
            }
            return true;
        }
        if a[i] > b[i] {
            proof {
                lemma_bytes_le_skip(a@, b@, i as int);
                assert(a@.skip(i as int)[0] == a@[i as int]);
                assert(b@.skip(i as int)[0] == b@[i as int]);
            }
            return false;
        }
        i = i + 1;
    }
    proof {
        lemma_bytes_le_skip(a@, b@, i as int);
        if i < na {
            assert(a@.skip(i as int).len() > 0);
            assert(b@.skip(i as int).len() == 0);
        }
    }
    i >= na
}

/// Compares two strings by the bytes of their UTF-8 encodings.
fn str_le(a: &String, b: &String) -> (r: bool)
    ensures
        r == bytes_le(encode_utf8(a@), encode_utf8(b@)),
{
    bytes_le_exec(a.as_str().as_bytes(), b.as_str().as_bytes())
}

/// The names are in byte-wise lexicographic order.
pub open spec fn sorted_names(xs: Seq<Seq<char>>) -> bool {
    forall|p: int, q: int|
        0 <= p < q < xs.len() ==> bytes_le(encode_utf8(xs[p]), encode_utf8(xs[q]))
}

/// Sorts the names into byte-wise lexicographic order.
fn sort_strings(v: Vec<String>) -> (r: Vec<String>)
    ensures
        sorted_names(string_views(r@)),
        string_views(r@).to_multiset() == string_views(v@).to_multiset(),
{
    broadcast use vstd::seq_lib::group_to_multiset_ensures;

    let ghost orig = string_views(v@);
    let mut src = v;
    let mut out: Vec<String> = Vec::new();
    while src.len() > 0
        invariant
            string_views(out@).to_multiset().add(string_views(src@).to_multiset())
                == orig.to_multiset(),
            sorted_names(string_views(out@)),
            forall|p: int, q: int|
                0 <= p < out@.len() && 0 <= q < src@.len() ==> bytes_le(
                    encode_utf8(string_views(out@)[p]),
                    encode_utf8(string_views(src@)[q]),
                ),
        decreases src.len(),
    {
        let n: usize = src.len();
        let mut m: usize = 0;
        let mut k: usize = 1;
        proof {
            lemma_bytes_le_refl(encode_utf8(string_views(src@)[0]));
        }
        while k < n
            invariant
                m < k <= n,
                n == src@.len(),
                forall|t: int|
                    0 <= t < k ==> bytes_le(
                        encode_utf8(string_views(src@)[m as int]),
                        encode_utf8(string_views(src@)[t]),
                    ),
            decreases n - k,
        {
            let ghost old_m = m as int;
            if !str_le(&src[m], &src[k]) {
                proof {
                    lemma_bytes_le_total(
                        encode_utf8(string_views(src@)[old_m]),
                        encode_utf8(string_views(src@)[k as int]),
                    );
                }
                m = k;
                proof {
                    assert forall|t: int|
                        0 <= t < k implies bytes_le(
                        encode_utf8(string_views(src@)[m as int]),
                        encode_utf8(string_views(src@)[t]),
                    ) by {
                        lemma_bytes_le_trans(
                            encode_utf8(string_views(src@)[m as int]),
                            encode_utf8(string_views(src@)[old_m]),
                            encode_utf8(string_views(src@)[t]),
                        );
                    };
                }
            }
            proof {
                lemma_bytes_le_refl(encode_utf8(string_views(src@)[m as int]));
            }
            k = k + 1;
        }
        let ghost pre_src = src@;
        let ghost pre_out = out@;
        let x = src.remove(m);
        out.push(x);
        proof {
            let xv = string_views(pre_src)[m as int];
            string_views(pre_out).to_multiset_ensures();
            string_views(pre_src).to_multiset_ensures();
            assert(string_views(src@) =~= string_views(pre_src).remove(m as int));
            assert(string_views(out@) =~= string_views(pre_out).push(xv));
            assert(string_views(pre_out).push(xv).to_multiset()
                =~= string_views(pre_out).to_multiset().insert(xv));
            assert(string_views(pre_src).remove(m as int).to_multiset()
                =~= string_views(pre_src).to_multiset().remove(xv));
            assert(string_views(pre_src).contains(xv));
            assert(string_views(pre_src).to_multiset().count(xv) > 0);
            assert(string_views(out@).to_multiset().add(string_views(src@).to_multiset())
                =~= orig.to_multiset());
            assert forall|p: int, q: int|
                0 <= p < out@.len() && 0 <= q < src@.len() implies bytes_le(
                encode_utf8(string_views(out@)[p]),
                encode_utf8(string_views(src@)[q]),
            ) by {
                if q < m {
                    assert(string_views(src@)[q] == string_views(pre_src)[q]);
                } else {
                    assert(string_views(src@)[q] == string_views(pre_src)[q + 1]);
                }
            };
        }
    }
    out
}

/// How many pull requests are handed to discovery may exceed the number of
/// distinct branch names; a walk that only ever visits fresh names therefore
/// visits at most one entry per input.
proof fn lemma_seen_bound(prs: Seq<PullRequest>, seen: Seq<Seq<char>>)
    requires
        seen.no_duplicates(),
        forall|t: int| 0 <= t < seen.len() ==> head_views(prs).contains(#[trigger] seen[t]),
    ensures
        seen.len() <= prs.len(),
{
    seen.unique_seq_to_set();
    assert forall|x: Seq<char>| seen.to_set().contains(x) implies head_views(
        prs,
    ).to_set().contains(x) by {
        let t = choose|t: int| 0 <= t < seen.len() && seen[t] == x;
        assert(head_views(prs).contains(seen[t]));
    };
    head_views(prs).lemma_cardinality_of_set();
    vstd::seq_lib::seq_to_set_is_finite(head_views(prs));
    vstd::set_lib::lemma_len_subset(seen.to_set(), head_views(prs).to_set());
    assert(head_views(prs).len() == prs.len());
}

/// Why discovery failed.
#[derive(Debug, Clone, PartialEq, Eq)]
pub enum DiscoveryError {
    /// No pull request has the named branch as its head.
    NoPrFound { branch: String },
    /// Walking the base links revisited the named branch.
    CycleDetected { branch: String },
    /// The named branch has several open children; the candidates are listed
    /// in byte-wise lexicographic order.
    NonLinearStack { at: String, candidates: Vec<String> },
}

impl DiscoveryError {
    /// The diagnostic text for this error.
    pub open spec fn spec_message(self) -> Seq<char> {
        match self {
            DiscoveryError::NoPrFound { branch } => "no PR found for branch "@ + branch@
                + "; create a PR first"@,
            DiscoveryError::CycleDetected { branch } => "cycle detected in stack at branch "@
                + branch@,
            DiscoveryError::NonLinearStack { at, candidates } => "non-linear stack detected at "@
                + at@ + "; child candidates: "@ + spec_join_with(", "@, string_views(candidates@)),
        }
    }

    /// Renders the diagnostic text.
    pub fn message(&self) -> (r: String)
        ensures
            r@ == self.spec_message(),
    {
        match self {
            DiscoveryError::NoPrFound { branch } => {
                let r = concat3(
                    "no PR found for branch ",
                    branch.as_str(),
                    "; create a PR first",
                );
                r
            },
            DiscoveryError::CycleDetected { branch } => {
                let r = concat2("cycle detected in stack at branch ", branch.as_str());
                r
            },
            DiscoveryError::NonLinearStack { at, candidates } => {
                let joined = join_with(", ", candidates);
                let head = concat3("non-linear stack detected at ", at.as_str(),
                    "; child candidates: ");
                let r = concat2(head.as_str(), joined.as_str());
                proof {
                    assert(r@ =~= self.spec_message());
                }
                r
            },
        }
    }
}

/// Where the downward walk from the current branch ends.
pub enum DownWalk {
    /// The walk reached a PR based on the default branch; `path` holds the
    /// visited indices, current branch first.
    Reached { path: Seq<int> },
    /// A base on the walk resolves to no PR.
    MissingBase { base: Seq<char> },
    /// The walk stepped onto a head it had already visited.
    Revisited { branch: Seq<char> },
    /// The fuel ran out first (never happens with a full tank; see
    /// [`lemma_discovery_terminates`]).
    Exhausted,
}

/// The downward walk: from the PR at `i`, follow base links until one is
/// the default branch, failing on an unresolvable base or a revisited head.
/// `seen` holds the heads visited so far, `prs[i]`'s included.
pub open spec fn walk_down(
    prs: Seq<PullRequest>,
    i: int,
    seen: Seq<Seq<char>>,
    default: Seq<char>,
    fuel: nat,
) -> DownWalk
    decreases fuel,
{
    if prs[i].base_ref_name@ == default {
        DownWalk::Reached { path: seq![i] }
    } else {
        match spec_by_head(prs, prs[i].base_ref_name@) {
            None => DownWalk::MissingBase { base: prs[i].base_ref_name@ },
            Some(p) => {
                if seen.contains(prs[p].head_ref_name@) {
                    DownWalk::Revisited { branch: prs[p].head_ref_name@ }
                } else if fuel == 0 {
                    DownWalk::Exhausted
                } else {
                    match walk_down(
                        prs,
                        p,
                        seen.push(prs[p].head_ref_name@),
                        default,
                        (fuel - 1) as nat,
                    ) {
                        DownWalk::Reached { path } => DownWalk::Reached { path: seq![i] + path },
                        w => w,
                    }
                }
            },
        }
    }
}

/// Where the upward walk from the current branch ends.
pub enum UpWalk {
    /// The walk reached a childless head; `path` holds the visited indices,
    /// current branch first.
    Reached { path: Seq<int> },
    /// The single child is a head the walk had already visited.
    Revisited { branch: Seq<char> },
    /// The head at this index has two or more children.
    Fanout { at: int },
    /// The fuel ran out first (never happens with a full tank).
    Exhausted,
}

/// The upward walk: from the PR at `i`, follow the unique child link until a
/// head has no child, failing on a fanout or a revisited head.
pub open spec fn walk_up(prs: Seq<PullRequest>, i: int, seen: Seq<Seq<char>>, fuel: nat) -> UpWalk
    decreases fuel,
{
    let kids = children_idx_from(prs, prs[i].head_ref_name@, 0);
    if kids.len() == 0 {
        UpWalk::Reached { path: seq![i] }
    } else if kids.len() >= 2 {
        UpWalk::Fanout { at: i }
    } else {
        let c = kids[0];
        if seen.contains(prs[c].head_ref_name@) {
            UpWalk::Revisited { branch: prs[c].head_ref_name@ }
        } else if fuel == 0 {
            UpWalk::Exhausted
        } else {
            match walk_up(prs, c, seen.push(prs[c].head_ref_name@), (fuel - 1) as nat) {
                UpWalk::Reached { path } => UpWalk::Reached { path: seq![i] + path },
                w => w,
            }
        }
    }
}

/// What discovery decides for this input.
pub enum DiscoveryOutcome {
    /// The discovered stack, as indices into the input, ancestor first.
    Stack { path: Seq<int> },
    /// No PR has this branch as its head: the current branch, or a base
    /// reached on the downward walk.
    MissingPr { branch: Seq<char> },
    /// The walk revisited this head.
    Cycle { branch: Seq<char> },
    /// The head at this input index has several children.
    Fanout { at: int },
    /// A walk ran out of fuel (never happens; see
    /// [`lemma_discovery_terminates`]).
    Exhausted,
}

/// The heads of the PRs at the given indices.
pub open spec fn heads_at(prs: Seq<PullRequest>, path: Seq<int>) -> Seq<Seq<char>> {
    path.map_values(|i: int| prs[i].head_ref_name@)
}

/// The whole discovery, determinised: resolve the current branch, walk down
/// to the default branch, then walk up to the childless tip; the result
/// chain is the downward path reversed plus the upward path without its
/// duplicated first entry.
pub open spec fn spec_discovery(
    prs: Seq<PullRequest>,
    current: Seq<char>,
    default: Seq<char>,
) -> DiscoveryOutcome {
    match spec_by_head(prs, current) {
        None => DiscoveryOutcome::MissingPr { branch: current },
        Some(k) => match walk_down(
            prs,
            k,
            seq![prs[k].head_ref_name@],
            default,
            prs.len() as nat,
        ) {
            DownWalk::MissingBase { base } => DiscoveryOutcome::MissingPr { branch: base },
            DownWalk::Revisited { branch } => DiscoveryOutcome::Cycle { branch },
            DownWalk::Exhausted => DiscoveryOutcome::Exhausted,
            DownWalk::Reached { path: dp } => match walk_up(
                prs,
                k,
                heads_at(prs, dp),
                prs.len() as nat,
            ) {
                UpWalk::Revisited { branch } => DiscoveryOutcome::Cycle { branch },
                UpWalk::Fanout { at } => DiscoveryOutcome::Fanout { at },
                UpWalk::Exhausted => DiscoveryOutcome::Exhausted,
                UpWalk::Reached { path: up } => DiscoveryOutcome::Stack {
                    path: dp.reverse() + up.drop_first(),
                },
            },
        },
    }
}

/// The downward walk never runs out of fuel while the tank plus the heads
/// already visited exceed the number of PRs.
proof fn lemma_walk_down_fueled(
    prs: Seq<PullRequest>,
    i: int,
    seen: Seq<Seq<char>>,
    default: Seq<char>,
    fuel: nat,
)
    requires
        seen.no_duplicates(),
        forall|t: int| 0 <= t < seen.len() ==> head_views(prs).contains(#[trigger] seen[t]),
        fuel + seen.len() > prs.len(),
    ensures
        !(walk_down(prs, i, seen, default, fuel) is Exhausted),
    decreases fuel,
{
    if prs[i].base_ref_name@ != default {
        match spec_by_head(prs, prs[i].base_ref_name@) {
            None => {},
            Some(p) => {
                lemma_find_last_props(prs, prs[i].base_ref_name@, prs.len() as int);
                let ph = prs[p].head_ref_name@;
                if !seen.contains(ph) {
                    lemma_seen_bound(prs, seen);
                    assert(fuel > 0);
                    let seen2 = seen.push(ph);
                    assert(seen2.no_duplicates());
                    assert(head_views(prs)[p] == ph);
                    assert forall|t: int|
                        0 <= t < seen2.len() implies head_views(prs).contains(
                        #[trigger] seen2[t],
                    ) by {
                        if t < seen.len() {
                            assert(seen2[t] == seen[t]);
                        }
                    };
                    lemma_walk_down_fueled(prs, p, seen2, default, (fuel - 1) as nat);
                }
            },
        }
    }
}

/// The upward walk never runs out of fuel while the tank plus the heads
/// already visited exceed the number of PRs.
proof fn lemma_walk_up_fueled(prs: Seq<PullRequest>, i: int, seen: Seq<Seq<char>>, fuel: nat)
    requires
        seen.no_duplicates(),
        forall|t: int| 0 <= t < seen.len() ==> head_views(prs).contains(#[trigger] seen[t]),
        fuel + seen.len() > prs.len(),
    ensures
        !(walk_up(prs, i, seen, fuel) is Exhausted),
    decreases fuel,
{
    let kids = children_idx_from(prs, prs[i].head_ref_name@, 0);
    if kids.len() == 1 {
        lemma_children_props(prs, prs[i].head_ref_name@, 0);
        let c = kids[0];
        assert(0 <= c < prs.len());
        let ch = prs[c].head_ref_name@;
        if !seen.contains(ch) {
            lemma_seen_bound(prs, seen);
            assert(fuel > 0);
            let seen2 = seen.push(ch);
            assert(seen2.no_duplicates());
            assert(head_views(prs)[c] == ch);
            assert forall|t: int|
                0 <= t < seen2.len() implies head_views(prs).contains(#[trigger] seen2[t]) by {
                if t < seen.len() {
                    assert(seen2[t] == seen[t]);
                }
            };
            lemma_walk_up_fueled(prs, c, seen2, (fuel - 1) as nat);
        }
    }
}

/// A downward walk that reaches the default branch visited distinct heads:
/// its path extends `seen` without repetition, starts at `i`, and stays in
/// range.
proof fn lemma_walk_down_path(
    prs: Seq<PullRequest>,
    i: int,
    seen: Seq<Seq<char>>,
    default: Seq<char>,
    fuel: nat,
)
    requires
        0 <= i < prs.len(),
        seen.no_duplicates(),
        seen.len() >= 1,
        seen.last() == prs[i].head_ref_name@,
    ensures
        walk_down(prs, i, seen, default, fuel) matches DownWalk::Reached { path } ==> {
            &&& path.len() >= 1
            &&& path[0] == i
            &&& (forall|t: int| 0 <= t < path.len() ==> 0 <= #[trigger] path[t] < prs.len())
            &&& (seen + heads_at(prs, path.drop_first())).no_duplicates()
        },
    decreases fuel,
{
    if prs[i].base_ref_name@ == default {
        assert(seq![i].drop_first() =~= Seq::<int>::empty());
        assert(heads_at(prs, seq![i].drop_first()) =~= Seq::<Seq<char>>::empty());
        assert(seen + heads_at(prs, seq![i].drop_first()) =~= seen);
    } else {
        match spec_by_head(prs, prs[i].base_ref_name@) {
            None => {},
            Some(p) => {
                lemma_find_last_props(prs, prs[i].base_ref_name@, prs.len() as int);
                let ph = prs[p].head_ref_name@;
                if !seen.contains(ph) && fuel > 0 {
                    let seen2 = seen.push(ph);
                    assert(seen2.no_duplicates());
                    assert(seen2.last() == ph);
                    lemma_walk_down_path(prs, p, seen2, default, (fuel - 1) as nat);
                    match walk_down(prs, p, seen2, default, (fuel - 1) as nat) {
                        DownWalk::Reached { path: rest } => {
                        let path = seq![i] + rest;
                        assert(path[0] == i);
                        assert(path.drop_first() =~= rest);
                        assert(heads_at(prs, rest) =~= seq![ph] + heads_at(
                            prs,
                            rest.drop_first(),
                        )) by {
                            assert(rest[0] == p);
                            assert forall|t: int|
                                0 <= t < rest.len() implies heads_at(prs, rest)[t] == (seq![ph]
                                + heads_at(prs, rest.drop_first()))[t] by {
                                if t > 0 {
                                    assert(rest.drop_first()[t - 1] == rest[t]);
                                }
                            };
                        };
                        assert(seen + heads_at(prs, rest) =~= seen2 + heads_at(
                            prs,
                            rest.drop_first(),
                        ));
                        },
                        _ => {},
                    }
                }
            },
        }
    }
}

/// With a full tank, discovery always settles on a real outcome.
pub proof fn lemma_discovery_terminates(
    prs: Seq<PullRequest>,
    current: Seq<char>,
    default: Seq<char>,
)
    ensures
        !(spec_discovery(prs, current, default) is Exhausted),
{
    match spec_by_head(prs, current) {
        None => {},
        Some(k) => {
            lemma_find_last_props(prs, current, prs.len() as int);
            let seen0 = seq![prs[k].head_ref_name@];
            assert(seen0.no_duplicates());
            assert(head_views(prs)[k] == prs[k].head_ref_name@);
            assert forall|t: int|
                0 <= t < seen0.len() implies head_views(prs).contains(#[trigger] seen0[t]) by {
                assert(seen0[t] == prs[k].head_ref_name@);
            };
            lemma_walk_down_fueled(prs, k, seen0, default, prs.len() as nat);
            match walk_down(prs, k, seen0, default, prs.len() as nat) {
                DownWalk::Reached { path: dp } => {
                lemma_walk_down_path(prs, k, seen0, default, prs.len() as nat);
                let up_seen = heads_at(prs, dp);
                assert(up_seen =~= seen0 + heads_at(prs, dp.drop_first())) by {
                    assert(dp[0] == k);
                    assert forall|t: int|
                        0 <= t < dp.len() implies heads_at(prs, dp)[t] == (seen0 + heads_at(
                        prs,
                        dp.drop_first(),
                    ))[t] by {
                        if t > 0 {
                            assert(dp.drop_first()[t - 1] == dp[t]);
                        }
                    };
                };
                assert(up_seen.no_duplicates());
                assert forall|t: int|
                    0 <= t < up_seen.len() implies head_views(prs).contains(
                    #[trigger] up_seen[t],
                ) by {
                    assert(up_seen[t] == prs[dp[t]].head_ref_name@);
                    assert(head_views(prs)[dp[t]] == prs[dp[t]].head_ref_name@);
                };
                assert(up_seen.len() >= 1);
                lemma_walk_up_fueled(prs, k, up_seen, prs.len() as nat);
                },
                _ => {},
            }
        },
    }
}

/// The chain shape of a discovered stack: the first entry sits on the
/// default branch and every later entry sits on its predecessor's head.
pub open spec fn chain_links(stack: Seq<PullRequest>, default: Seq<char>) -> bool {
    &&& (stack.len() > 0 ==> stack[0].base_ref_name@ == default)
    &&& (forall|i: int|
        1 <= i < stack.len() ==> (#[trigger] stack[i].base_ref_name@) == stack[
            i - 1
        ].head_ref_name@)
}

/// Builds the linear stack through `current_branch` from the full PR list.
///
/// The walk goes down the base links from the current branch until a PR
/// whose base is the default branch, then up the child links while exactly
/// one PR is based on the cursor's head. Merged and closed ancestors stay in
/// the chain. A missing PR, a revisited branch, or several child candidates
/// stop the walk with the corresponding error.
///
/// On success the result is an ancestor-first chain: it starts on the
/// default branch, every entry is based on its predecessor's head, no head
/// repeats, the current branch is on it, every entry comes from the input,
/// and the tip has no children.
pub fn build_linear_stack(
    prs: &[PullRequest],
    current_branch: &str,
    default_branch: &str,
) -> (r: Result<Vec<PullRequest>, DiscoveryError>)
    ensures
        r matches Ok(stack) ==> {
            &&& stack@.len() >= 1
            &&& chain_links(stack@, default_branch@)
            &&& distinct_heads(stack@)
            &&& (forall|i: int| 0 <= i < stack@.len() ==> pr_in(prs@, #[trigger] stack@[i]))
            &&& (exists|k: int|
                #![trigger stack@[k].head_ref_name@]
                0 <= k < stack@.len() && stack@[k].head_ref_name@ == current_branch@ && (
                forall|i: int|
                    k <= i < stack@.len() - 1 ==> children_heads(
                        prs@,
                        (#[trigger] stack@[i]).head_ref_name@,
                    ).len() == 1))
            &&& children_heads(prs@, stack@.last().head_ref_name@).len() == 0
        },
        match spec_discovery(prs@, current_branch@, default_branch@) {
            DiscoveryOutcome::Stack { path } => (r matches Ok(stack) && stack@
                == path.map_values(|t: int| prs@[t])),
            DiscoveryOutcome::MissingPr { branch: b } => (r matches Err(e) && e matches DiscoveryError::NoPrFound { branch }
                && branch@ == b && spec_by_head(prs@, b) is None),
            DiscoveryOutcome::Cycle { branch: b } => (r matches Err(e) && e matches DiscoveryError::CycleDetected { branch }
                && branch@ == b),
            DiscoveryOutcome::Fanout { at } => (r matches Err(e) && e matches DiscoveryError::NonLinearStack { at: a, candidates }
                && a@ == prs@[at].head_ref_name@ && children_heads(prs@, a@).len() >= 2
                && sorted_names(string_views(candidates@)) && string_views(
                candidates@,
            ).to_multiset() == children_heads(prs@, a@).to_multiset()),
            DiscoveryOutcome::Exhausted => true,
        },
{
    let n: usize = prs.len();
    let cur_s: String = current_branch.to_owned();
    let default_s: String = default_branch.to_owned();

    let cur_idx: usize = match find_by_head(prs, &cur_s) {
        Some(k) => k,
        None => {
            proof {
                assert(spec_discovery(prs@, current_branch@, default_branch@)
                    == (DiscoveryOutcome::MissingPr { branch: current_branch@ }));
            }
            return Err(DiscoveryError::NoPrFound { branch: cur_s });
        },
    };
    proof {
        lemma_find_last_props(prs@, cur_s@, prs@.len() as int);
    }

    let mut seen: Vec<String> = Vec::new();
    seen.push(prs[cur_idx].head_ref_name.clone());
    let mut to_current: Vec<PullRequest> = Vec::new();
    to_current.push(prs[cur_idx].duplicate());
    let mut cursor: usize = cur_idx;
    let ghost full_down = walk_down(
        prs@,
        cur_idx as int,
        seq![prs@[cur_idx as int].head_ref_name@],
        default_branch@,
        prs@.len() as nat,
    );
    let ghost mut path: Seq<int> = seq![cur_idx as int];
    proof {
        assert(string_views(seen@) =~= seq![prs@[cur_idx as int].head_ref_name@]);
        assert(head_views(prs@)[cur_idx as int] == prs@[cur_idx as int].head_ref_name@);
        assert((prs@.len() + 1 - seen@.len()) as nat == prs@.len() as nat);
        match walk_down(
            prs@,
            cur_idx as int,
            string_views(seen@),
            default_branch@,
            prs@.len() as nat,
        ) {
            DownWalk::Reached { path: rest } => {
                assert(path.drop_last() + rest =~= rest);
            },
            _ => {},
        }
    }

    while !(prs[cursor].base_ref_name == default_s)
        invariant
            n == prs@.len(),
            cursor < n,
            cur_idx < n,
            cur_s@ == current_branch@,
            default_s@ == default_branch@,
            prs@[cur_idx as int].head_ref_name@ == current_branch@,
            to_current@.len() >= 1,
            seen@.len() == to_current@.len(),
            to_current@[0] == prs@[cur_idx as int],
            to_current@.last() == prs@[cursor as int],
            forall|t: int|
                0 <= t < to_current@.len() ==> string_views(seen@)[t] == (#[trigger] to_current@[
                    t
                ]).head_ref_name@,
            forall|t: int|
                0 <= t < to_current@.len() - 1 ==> (#[trigger] to_current@[t].base_ref_name@)
                    == to_current@[t + 1].head_ref_name@,
            forall|t: int| 0 <= t < to_current@.len() ==> pr_in(prs@, #[trigger] to_current@[t]),
            string_views(seen@).no_duplicates(),
            forall|t: int|
                0 <= t < seen@.len() ==> head_views(prs@).contains(
                    #[trigger] string_views(seen@)[t],
                ),
            seen@.len() <= prs@.len(),
            spec_by_head(prs@, current_branch@) == Some(cur_idx as int),
            full_down == walk_down(
                prs@,
                cur_idx as int,
                seq![prs@[cur_idx as int].head_ref_name@],
                default_branch@,
                prs@.len() as nat,
            ),
            path.len() == seen@.len(),
            path[0] == cur_idx as int,
            path.last() == cursor as int,
            forall|t: int|
                0 <= t < path.len() ==> 0 <= #[trigger] path[t] < prs@.len() && prs@[path[t]]
                    == to_current@[t],
            match walk_down(
                prs@,
                cursor as int,
                string_views(seen@),
                default_branch@,
                (prs@.len() + 1 - seen@.len()) as nat,
            ) {
                DownWalk::Reached { path: rest } => full_down == (DownWalk::Reached {
                    path: path.drop_last() + rest,
                }),
                w => full_down == w,
            },
        decreases prs@.len() - seen@.len(),
    {
        let ghost fuel_now = (prs@.len() + 1 - seen@.len()) as nat;
        let parent: usize = match find_by_head(prs, &prs[cursor].base_ref_name) {
            Some(k) => k,
            None => {
                let b = prs[cursor].base_ref_name.clone();
                proof {
                    assert(prs@[cursor as int].base_ref_name@ == b@);
                    assert(walk_down(
                        prs@,
                        cursor as int,
                        string_views(seen@),
                        default_branch@,
                        fuel_now,
                    ) == (DownWalk::MissingBase { base: b@ }));
                    assert(spec_discovery(prs@, current_branch@, default_branch@)
                        == (DiscoveryOutcome::MissingPr { branch: b@ }));
                }
                return Err(DiscoveryError::NoPrFound { branch: b });
            },
        };
        proof {
            lemma_find_last_props(prs@, prs@[cursor as int].base_ref_name@, prs@.len() as int);
        }
        if seen_contains(&seen, &prs[parent].head_ref_name) {
            proof {
                assert(walk_down(
                    prs@,
                    cursor as int,
                    string_views(seen@),
                    default_branch@,
                    fuel_now,
                ) == (DownWalk::Revisited { branch: prs@[parent as int].head_ref_name@ }));
                assert(spec_discovery(prs@, current_branch@, default_branch@)
                    == (DiscoveryOutcome::Cycle { branch: prs@[parent as int].head_ref_name@ }));
            }
            return Err(
                DiscoveryError::CycleDetected { branch: prs[parent].head_ref_name.clone() },
            );
        }
        let ghost pre_seen = seen@;
        let ghost pre_cursor = cursor as int;
        seen.push(prs[parent].head_ref_name.clone());
        to_current.push(prs[parent].duplicate());
        cursor = parent;
        proof {
            let name = prs@[parent as int].head_ref_name@;
            assert(string_views(seen@) =~= string_views(pre_seen).push(name));
            assert forall|i: int, j: int|
                0 <= i < j < string_views(seen@).len() implies string_views(seen@)[i]
                != string_views(seen@)[j] by {
                if j < string_views(seen@).len() - 1 {
                    assert(string_views(pre_seen)[i] != string_views(pre_seen)[j]);
                } else {
                    assert(!string_views(pre_seen).contains(name));
                    assert(string_views(pre_seen)[i] != name);
                }
            };
            assert(head_views(prs@)[parent as int] == name);
            lemma_seen_bound(prs@, string_views(seen@));
            let pre_path = path;
            path = path.push(parent as int);
            assert(path.drop_last() =~= pre_path);
            assert(walk_down(prs@, pre_cursor, string_views(pre_seen), default_branch@, fuel_now)
                == (match walk_down(
                prs@,
                parent as int,
                string_views(seen@),
                default_branch@,
                (fuel_now - 1) as nat,
            ) {
                DownWalk::Reached { path: rest2 } => DownWalk::Reached {
                    path: seq![pre_cursor] + rest2,
                },
                w => w,
            }));
            match walk_down(
                prs@,
                parent as int,
                string_views(seen@),
                default_branch@,
                (fuel_now - 1) as nat,
            ) {
                DownWalk::Reached { path: rest2 } => {
                    assert(pre_path.drop_last() + (seq![pre_cursor] + rest2) =~= pre_path
                        + rest2);
                    assert(path.drop_last() + rest2 =~= pre_path + rest2);
                    assert(full_down == (DownWalk::Reached { path: path.drop_last() + rest2 }));
                },
                _ => {},
            }
            assert((prs@.len() + 1 - seen@.len()) as nat == (fuel_now - 1) as nat);
        }
    }

    let ghost down = to_current@;
    let ghost m = to_current@.len() as int;
    let ghost down_path = path;
    proof {
        assert(prs@[cursor as int].base_ref_name@ == default_branch@);
        assert(walk_down(
            prs@,
            cursor as int,
            string_views(seen@),
            default_branch@,
            (prs@.len() + 1 - seen@.len()) as nat,
        ) == (DownWalk::Reached { path: seq![cursor as int] }));
        assert(down_path.drop_last() + seq![cursor as int] =~= down_path);
        assert(full_down == (DownWalk::Reached { path: down_path }));
        assert(heads_at(prs@, down_path) =~= string_views(seen@));
    }

    let mut current_to_top: Vec<PullRequest> = Vec::new();
    current_to_top.push(prs[cur_idx].duplicate());
    let mut up_cursor: usize = cur_idx;
    let mut done: bool = false;
    let ghost full_up = walk_up(prs@, cur_idx as int, heads_at(prs@, down_path), prs@.len() as nat);
    let ghost mut upath: Seq<int> = seq![cur_idx as int];
    proof {
        assert((prs@.len() + m - seen@.len()) as nat == prs@.len() as nat);
        match walk_up(prs@, cur_idx as int, string_views(seen@), prs@.len() as nat) {
            UpWalk::Reached { path: rest } => {
                assert(upath.drop_last() + rest =~= rest);
            },
            _ => {},
        }
    }

    while !done
        invariant
            n == prs@.len(),
            cursor < n,
            cur_idx < n,
            up_cursor < n,
            cur_s@ == current_branch@,
            default_s@ == default_branch@,
            prs@[cur_idx as int].head_ref_name@ == current_branch@,
            prs@[cursor as int].base_ref_name@ == default_branch@,
            to_current@ == down,
            m == down.len() as int,
            m >= 1,
            down[0] == prs@[cur_idx as int],
            down.last() == prs@[cursor as int],
            forall|t: int|
                0 <= t < m - 1 ==> (#[trigger] down[t].base_ref_name@) == down[
                    t + 1
                ].head_ref_name@,
            forall|t: int| 0 <= t < m ==> pr_in(prs@, #[trigger] down[t]),
            current_to_top@.len() >= 1,
            current_to_top@[0] == prs@[cur_idx as int],
            current_to_top@.last() == prs@[up_cursor as int],
            forall|t: int|
                1 <= t < current_to_top@.len() ==> (#[trigger] current_to_top@[t].base_ref_name@)
                    == current_to_top@[t - 1].head_ref_name@,
            forall|t: int|
                0 <= t < current_to_top@.len() ==> pr_in(prs@, #[trigger] current_to_top@[t]),
            seen@.len() == m + current_to_top@.len() - 1,
            forall|t: int| 0 <= t < m ==> string_views(seen@)[t] == (#[trigger] down[
                t
            ]).head_ref_name@,
            forall|t: int|
                1 <= t < current_to_top@.len() ==> string_views(seen@)[m + t - 1] == (
                #[trigger] current_to_top@[t]).head_ref_name@,
            string_views(seen@).no_duplicates(),
            forall|t: int|
                0 <= t < seen@.len() ==> head_views(prs@).contains(
                    #[trigger] string_views(seen@)[t],
                ),
            seen@.len() <= prs@.len(),
            done ==> children_idx_from(
                prs@,
                current_to_top@.last().head_ref_name@,
                0,
            ).len() == 0,
            spec_by_head(prs@, current_branch@) == Some(cur_idx as int),
            full_down == (DownWalk::Reached { path: down_path }),
            walk_down(
                prs@,
                cur_idx as int,
                seq![prs@[cur_idx as int].head_ref_name@],
                default_branch@,
                prs@.len() as nat,
            ) == (DownWalk::Reached { path: down_path }),
            down_path.len() == m,
            forall|t: int|
                0 <= t < m ==> 0 <= #[trigger] down_path[t] < prs@.len() && prs@[down_path[t]]
                    == down[t],
            full_up == walk_up(
                prs@,
                cur_idx as int,
                heads_at(prs@, down_path),
                prs@.len() as nat,
            ),
            upath.len() == current_to_top@.len(),
            upath[0] == cur_idx as int,
            upath.last() == up_cursor as int,
            forall|t: int|
                0 <= t < upath.len() ==> 0 <= #[trigger] upath[t] < prs@.len() && prs@[upath[t]]
                    == current_to_top@[t],
            match walk_up(
                prs@,
                up_cursor as int,
                string_views(seen@),
                (prs@.len() + m - seen@.len()) as nat,
            ) {
                UpWalk::Reached { path: rest } => full_up == (UpWalk::Reached {
                    path: upath.drop_last() + rest,
                }),
                w => full_up == w,
            },
            done ==> full_up == (UpWalk::Reached { path: upath }),
            forall|t: int|
                0 <= t < current_to_top@.len() - 1 ==> children_heads(
                    prs@,
                    (#[trigger] current_to_top@[t]).head_ref_name@,
                ).len() == 1,
        decreases
            prs@.len() - seen@.len(),
            (if done {
                0int
            } else {
                1int
            }),
    {
        let ghost fuel_now = (prs@.len() + m - seen@.len()) as nat;
        let children: Vec<usize> = collect_children(prs, &prs[up_cursor].head_ref_name);
        proof {
            lemma_children_props(prs@, prs@[up_cursor as int].head_ref_name@, 0);
            assert(children@.map_values(|k: usize| k as int).len() == children@.len());
            assert(children_idx_from(prs@, prs@[up_cursor as int].head_ref_name@, 0).len()
                == children@.len());
            assert(children_heads(prs@, prs@[up_cursor as int].head_ref_name@).len()
                == children@.len());
        }
        if children.len() == 0 {
            done = true;
            proof {
                assert(walk_up(prs@, up_cursor as int, string_views(seen@), fuel_now)
                    == (UpWalk::Reached { path: seq![up_cursor as int] }));
                assert(upath.drop_last() + seq![up_cursor as int] =~= upath);
                assert(full_up == (UpWalk::Reached { path: upath }));
            }
        } else if children.len() == 1 {
            let child: usize = children[0];
            proof {
                let spec_idx = children_idx_from(prs@, prs@[up_cursor as int].head_ref_name@, 0);
                assert(children@.map_values(|k: usize| k as int)[0] == spec_idx[0]);
                assert(child as int == spec_idx[0]);
            }
            if seen_contains(&seen, &prs[child].head_ref_name) {
                proof {
                    assert(walk_up(prs@, up_cursor as int, string_views(seen@), fuel_now)
                        == (UpWalk::Revisited { branch: prs@[child as int].head_ref_name@ }));
                    assert(spec_discovery(prs@, current_branch@, default_branch@)
                        == (DiscoveryOutcome::Cycle {
                        branch: prs@[child as int].head_ref_name@,
                    }));
                }
                return Err(
                    DiscoveryError::CycleDetected { branch: prs[child].head_ref_name.clone() },
                );
            }
            proof {
                assert(children_heads(prs@, prs@[up_cursor as int].head_ref_name@).len()
                    == children@.map_values(|k: usize| k as int).len());
            }
            let ghost pre_seen = seen@;
            let ghost pre_cursor = up_cursor as int;
            seen.push(prs[child].head_ref_name.clone());
            current_to_top.push(prs[child].duplicate());
            up_cursor = child;
            proof {
                let name = prs@[child as int].head_ref_name@;
                assert(string_views(seen@) =~= string_views(pre_seen).push(name));
                assert forall|i: int, j: int|
                    0 <= i < j < string_views(seen@).len() implies string_views(seen@)[i]
                    != string_views(seen@)[j] by {
                    if j < string_views(seen@).len() - 1 {
                        assert(string_views(pre_seen)[i] != string_views(pre_seen)[j]);
                    } else {
                        assert(!string_views(pre_seen).contains(name));
                        assert(string_views(pre_seen)[i] != name);
                    }
                };
                assert(head_views(prs@)[child as int] == name);
                lemma_seen_bound(prs@, string_views(seen@));
                let pre_upath = upath;
                upath = upath.push(child as int);
                assert(upath.drop_last() =~= pre_upath);
                assert(walk_up(prs@, pre_cursor, string_views(pre_seen), fuel_now) == (
                match walk_up(
                    prs@,
                    child as int,
                    string_views(seen@),
                    (fuel_now - 1) as nat,
                ) {
                    UpWalk::Reached { path: rest2 } => UpWalk::Reached {
                        path: seq![pre_cursor] + rest2,
                    },
                    w => w,
                }));
                match walk_up(prs@, child as int, string_views(seen@), (fuel_now - 1) as nat) {
                    UpWalk::Reached { path: rest2 } => {
                        assert(pre_upath.drop_last() + (seq![pre_cursor] + rest2) =~= pre_upath
                            + rest2);
                        assert(upath.drop_last() + rest2 =~= pre_upath + rest2);
                        assert(full_up == (UpWalk::Reached {
                            path: upath.drop_last() + rest2,
                        }));
                    },
                    _ => {},
                }
                assert((prs@.len() + m - seen@.len()) as nat == (fuel_now - 1) as nat);
            }
        } else {
            let nc: usize = children.len();
            let mut names: Vec<String> = Vec::new();
            let mut j: usize = 0;
            proof {
                assert(children@.map_values(|k: usize| k as int) == children_idx_from(
                    prs@,
                    prs@[up_cursor as int].head_ref_name@,
                    0,
                ));
            }
            while j < nc
                invariant
                    j <= nc,
                    n == prs@.len(),
                    nc == children@.len(),
                    children@.map_values(|k: usize| k as int) == children_idx_from(
                        prs@,
                        prs@[up_cursor as int].head_ref_name@,
                        0,
                    ),
                    up_cursor < n,
                    names@.len() == j,
                    forall|t: int|
                        0 <= t < j ==> string_views(names@)[t] == children_heads(
                            prs@,
                            prs@[up_cursor as int].head_ref_name@,
                        )[t],
                decreases nc - j,
            {
                proof {
                    lemma_children_props(prs@, prs@[up_cursor as int].head_ref_name@, 0);
                    let spec_idx = children_idx_from(
                        prs@,
                        prs@[up_cursor as int].head_ref_name@,
                        0,
                    );
                    assert(children@.map_values(|k: usize| k as int)[j as int] == spec_idx[
                        j as int
                    ]);
                    assert(children@[j as int] as int == spec_idx[j as int]);
                    assert(0 <= spec_idx[j as int] < prs@.len());
                }
                let ghost pre_names = names@;
                names.push(prs[children[j]].head_ref_name.clone());
                j = j + 1;
                proof {
                    let spec_idx = children_idx_from(
                        prs@,
                        prs@[up_cursor as int].head_ref_name@,
                        0,
                    );
                    let heads = children_heads(prs@, prs@[up_cursor as int].head_ref_name@);
                    assert(string_views(names@) =~= string_views(pre_names).push(
                        prs@[children@[j - 1] as int].head_ref_name@,
                    ));
                    assert(heads[j - 1] == prs@[spec_idx[j - 1]].head_ref_name@);
                }
            }
            let ghost heads = children_heads(prs@, prs@[up_cursor as int].head_ref_name@);
            proof {
                assert(string_views(names@) =~= heads);
            }
            let sorted = sort_strings(names);
            proof {
                assert(walk_up(prs@, up_cursor as int, string_views(seen@), fuel_now)
                    == (UpWalk::Fanout { at: up_cursor as int }));
                assert(spec_discovery(prs@, current_branch@, default_branch@)
                    == (DiscoveryOutcome::Fanout { at: up_cursor as int }));
            }
            return Err(
                DiscoveryError::NonLinearStack {
                    at: prs[up_cursor].head_ref_name.clone(),
                    candidates: sorted,
                },
            );
        }
    }

    let mu: usize = to_current.len();
    let uu: usize = current_to_top.len();
    let mut stack_out: Vec<PullRequest> = Vec::new();
    let mut t: usize = 0;
    while t < mu
        invariant
            mu == down.len(),
            m == down.len() as int,
            to_current@ == down,
            t <= mu,
            stack_out@.len() == t,
            forall|i: int| 0 <= i < t ==> stack_out@[i] == down[m - 1 - i],
        decreases mu - t,
    {
        stack_out.push(to_current[mu - 1 - t].duplicate());
        t = t + 1;
    }
    let mut t2: usize = 1;
    while t2 < uu
        invariant
            mu == down.len(),
            m == down.len() as int,
            uu == current_to_top@.len(),
            1 <= t2 <= uu,
            stack_out@.len() == m + t2 - 1,
            forall|i: int| 0 <= i < m ==> stack_out@[i] == down[m - 1 - i],
            forall|i: int| m <= i < stack_out@.len() ==> stack_out@[i] == current_to_top@[
                i - m + 1
            ],
        decreases uu - t2,
    {
        stack_out.push(current_to_top[t2].duplicate());
        t2 = t2 + 1;
    }

    proof {
        let s = stack_out@;
        let sv = string_views(seen@);
        let u = current_to_top@.len() as int;
        assert(s.len() == m + u - 1);
        assert(s[m - 1] == down[0]);
        assert(s[m - 1].head_ref_name@ == current_branch@);
        assert(s[m - 1] == current_to_top@[0]);
        assert forall|i: int|
            m - 1 <= i < s.len() - 1 implies children_heads(
            prs@,
            (#[trigger] s[i]).head_ref_name@,
        ).len() == 1 by {
            if i >= m {
                assert(s[i] == current_to_top@[i - m + 1]);
            } else {
                assert(s[i] == down[m - 1 - i]);
                assert(down[0] == current_to_top@[0]);
            }
            assert(s[i] == current_to_top@[i - m + 1]);
        };

        assert forall|i: int| 0 <= i < s.len() implies pr_in(prs@, #[trigger] s[i]) by {
            if i < m {
                assert(s[i] == down[m - 1 - i]);
            } else {
                assert(s[i] == current_to_top@[i - m + 1]);
            }
        };

        assert(s[0] == down[m - 1]);
        assert(down[m - 1] == prs@[cursor as int]);
        assert(s[0].base_ref_name@ == default_branch@);
        assert forall|i: int|
            1 <= i < s.len() implies (#[trigger] s[i].base_ref_name@) == s[i - 1].head_ref_name@ by {
            if i < m {
                assert(s[i] == down[m - 1 - i]);
                assert(s[i - 1] == down[m - i]);
                assert(down[m - 1 - i].base_ref_name@ == down[m - i].head_ref_name@);
            } else if i == m {
                assert(s[i] == current_to_top@[1]);
                assert(s[i - 1] == down[0]);
                assert(current_to_top@[1].base_ref_name@ == current_to_top@[0].head_ref_name@);
                assert(current_to_top@[0] == prs@[cur_idx as int]);
                assert(down[0] == prs@[cur_idx as int]);
            } else {
                assert(s[i] == current_to_top@[i - m + 1]);
                assert(s[i - 1] == current_to_top@[i - m]);
                assert(current_to_top@[i - m + 1].base_ref_name@ == current_to_top@[
                    i - m
                ].head_ref_name@);
            }
        };

        assert forall|a: int, b: int|
            0 <= a < b < s.len() implies s[a].head_ref_name@ != s[b].head_ref_name@ by {
            let fa = if a < m {
                m - 1 - a
            } else {
                a
            };
            let fb = if b < m {
                m - 1 - b
            } else {
                b
            };
            assert(s[a].head_ref_name@ == sv[fa]);
            assert(s[b].head_ref_name@ == sv[fb]);
            assert(fa != fb);
            assert(0 <= fa < sv.len());
            assert(0 <= fb < sv.len());
            if fa < fb {
                assert(sv[fa] != sv[fb]);
            } else {
                assert(sv[fb] != sv[fa]);
            }
        };

        let final_path = down_path.reverse() + upath.drop_first();
        assert(spec_discovery(prs@, current_branch@, default_branch@) == (DiscoveryOutcome::Stack {
            path: final_path,
        }));
        assert forall|i: int| 0 <= i < s.len() implies s[i] == prs@[#[trigger] final_path[i]] by {
            if i < m {
                assert(final_path[i] == down_path.reverse()[i]);
                assert(down_path.reverse()[i] == down_path[m - 1 - i]);
                assert(s[i] == down[m - 1 - i]);
            } else {
                assert(final_path[i] == upath.drop_first()[i - m]);
                assert(upath.drop_first()[i - m] == upath[i - m + 1]);
                assert(s[i] == current_to_top@[i - m + 1]);
            }
        };
        assert(s =~= final_path.map_values(|t: int| prs@[t]));
        assert(s.last() == current_to_top@.last()) by {
            if u == 1 {
                assert(s.last() == s[m - 1]);
                assert(s[m - 1] == down[0]);
                assert(current_to_top@.last() == current_to_top@[0]);
            } else {
                assert(s.last() == current_to_top@[u - 1]);
            }
        };
        assert(children_heads(prs@, s.last().head_ref_name@).len() == 0);
    }
    Ok(stack_out)
}

} // verus!
