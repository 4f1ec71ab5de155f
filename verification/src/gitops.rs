//! Decision kernels over repository query results.
//!
//! The caller performs the actual revision-control queries (resolving refs,
//! fork points and merge bases) and hands the outcomes in as plain optional
//! values; the functions here make the choices the sync engine depends on,
//! with exact contracts.

use vstd::prelude::*;

use crate::text::concat3;

verus! {

/// The diagnostic for an old base branch that resolves neither locally nor
/// on the remote.
pub open spec fn spec_old_base_error(branch: Seq<char>) -> Seq<char> {
    "could not resolve old base branch `"@ + branch
        + "` locally or on origin; fetch and/or restore the branch, then rerun `stck sync`"@
}

/// Whether a branch must be pushed: its remote-tracking head is unknown or
/// differs from the local head.
pub fn branch_needs_push(local_sha: &String, remote_sha: Option<&String>) -> (r: bool)
    ensures
        r == match remote_sha {
            None => true,
            Some(s) => s@ != local_sha@,
        },
{
    match remote_sha {
        None => true,
        Some(s) => !(*s == *local_sha),
    }
}

/// Picks the commit to use for an old base ref: the local resolution when
/// there is one, the remote-tracking resolution otherwise; with neither, the
/// caller is told to fetch or restore the branch.
pub fn resolve_old_base_for_rebase(
    base_branch: &str,
    local_sha: Option<String>,
    remote_sha: Option<String>,
) -> (r: Result<String, String>)
    ensures
        local_sha matches Some(l) ==> r == Ok::<String, String>(l),
        local_sha is None ==> (remote_sha matches Some(x) ==> r == Ok::<String, String>(x)),
        local_sha is None && remote_sha is None ==> (r matches Err(m) && m@
            == spec_old_base_error(base_branch@)),
{
    match local_sha {
        Some(l) => Ok(l),
        None => match remote_sha {
            Some(x) => Ok(x),
            None => Err(
                concat3(
                    "could not resolve old base branch `",
                    base_branch,
                    "` locally or on origin; fetch and/or restore the branch, then rerun `stck sync`",
                ),
            ),
        },
    }
}

/// The query outcomes the rebase-boundary derivation looks at. A `None`
/// means the ref did not resolve or the query failed.
#[derive(Debug, Clone, PartialEq, Eq)]
pub struct BoundaryProbes {
    /// `refs/heads/<old base>` resolved.
    pub old_local: Option<String>,
    /// `refs/remotes/origin/<old base>` resolved.
    pub old_remote: Option<String>,
    /// Fork point of the local old base and the branch.
    pub fork_point_old_local: Option<String>,
    /// Fork point of the remote old base and the branch.
    pub fork_point_old_remote: Option<String>,
    /// Merge base of the local old base and the branch.
    pub merge_base_old_local: Option<String>,
    /// Merge base of the remote old base and the branch.
    pub merge_base_old_remote: Option<String>,
    /// `refs/heads/<new base>` resolved.
    pub new_local: Option<String>,
    /// `refs/remotes/origin/<new base>` resolved.
    pub new_remote: Option<String>,
    /// Merge base of the local new base and the branch.
    pub merge_base_new_local: Option<String>,
    /// Merge base of the remote new base and the branch.
    pub merge_base_new_remote: Option<String>,
}

/// The boundary the derivation settles on, in falling order of preference:
/// fork point of a resolvable old base candidate, merge base of one, merge
/// base of a resolvable new base candidate, then the raw old base
/// resolution itself, local before remote at every stage.
pub open spec fn spec_boundary(p: BoundaryProbes) -> Option<String> {
    if p.old_local is Some && p.fork_point_old_local is Some {
        p.fork_point_old_local
    } else if p.old_remote is Some && p.fork_point_old_remote is Some {
        p.fork_point_old_remote
    } else if p.old_local is Some && p.merge_base_old_local is Some {
        p.merge_base_old_local
    } else if p.old_remote is Some && p.merge_base_old_remote is Some {
        p.merge_base_old_remote
    } else if p.new_local is Some && p.merge_base_new_local is Some {
        p.merge_base_new_local
    } else if p.new_remote is Some && p.merge_base_new_remote is Some {
        p.merge_base_new_remote
    } else if p.old_local is Some {
        p.old_local
    } else if p.old_remote is Some {
        p.old_remote
    } else {
        None
    }
}

/// Derives the commit to strip up to in `rebase --onto`, from the query
/// outcomes in `probes`; see [`spec_boundary`] for the preference order.
pub fn derive_rebase_boundary(old_base_branch: &str, probes: BoundaryProbes) -> (r: Result<
    String,
    String,
>)
    ensures
        match spec_boundary(probes) {
            Some(s) => r == Ok::<String, String>(s),
            None => r matches Err(m) && m@ == spec_old_base_error(old_base_branch@),
        },
{
    let BoundaryProbes {
        old_local,
        old_remote,
        fork_point_old_local,
        fork_point_old_remote,
        merge_base_old_local,
        merge_base_old_remote,
        new_local,
        new_remote,
        merge_base_new_local,
        merge_base_new_remote,
    } = probes;
    if old_local.is_some() {
        if let Some(s) = fork_point_old_local {
            return Ok(s);
        }
    }
    if old_remote.is_some() {
        if let Some(s) = fork_point_old_remote {
            return Ok(s);
        }
    }
    if old_local.is_some() {
        if let Some(s) = merge_base_old_local {
            return Ok(s);
        }
    }
    if old_remote.is_some() {
        if let Some(s) = merge_base_old_remote {
            return Ok(s);
        }
    }
    if new_local.is_some() {
        if let Some(s) = merge_base_new_local {
            return Ok(s);
        }
    }
    if new_remote.is_some() {
        if let Some(s) = merge_base_new_remote {
            return Ok(s);
        }
    }
    resolve_old_base_for_rebase(old_base_branch, old_local, old_remote)
}

/// What `String::from_utf8_lossy` makes of these bytes; a function of the
/// bytes alone.
pub uninterp spec fn lossy_of(b: Seq<u8>) -> Seq<char>;

/// What `str::trim` leaves of these characters; a function of them alone.
pub uninterp spec fn trimmed_of(s: Seq<char>) -> Seq<char>;

/// Relies on `String::from_utf8_lossy`: the result depends on the bytes
/// alone; valid UTF-8 comes through unchanged, and empty input stays empty.
#[verifier::external_body]
fn decode_lossy(b: &[u8]) -> (r: String)
    ensures
        r@ == lossy_of(b@),
        vstd::utf8::valid_utf8(b@) ==> vstd::utf8::encode_utf8(r@) == b@,
        b@.len() == 0 ==> r@.len() == 0,
{
    String::from_utf8_lossy(b).into_owned()
}

/// Relies on `str::trim`: the result depends on the characters alone, and
/// an empty string stays empty.
#[verifier::external_body]
fn trim_str(s: &str) -> (r: &str)
    ensures
        r@ == trimmed_of(s@),
        s@.len() == 0 ==> r@.len() == 0,
{
    s.trim()
}

/// Shapes a subprocess diagnostic: the base message alone when the
/// command's stderr trims to nothing, else the base message with the
/// trimmed stderr tail appended after `; stderr: `.
pub fn with_stderr(base: &str, stderr: &[u8]) -> (r: String)
    ensures
        r@ == if trimmed_of(lossy_of(stderr@)).len() == 0 {
            base@
        } else {
            base@ + "; stderr: "@ + trimmed_of(lossy_of(stderr@))
        },
{
    let decoded = decode_lossy(stderr);
    let detail = trim_str(decoded.as_str());
    if detail.is_empty() {
        base.to_owned()
    } else {
        concat3(base, "; stderr: ", detail)
    }
}

} // verus!
