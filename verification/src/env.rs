//! The preflight decision: which environment fault, if any, stops a run.
//!
//! The caller probes the environment (tool availability, authentication,
//! remote, branch, working tree, default branch) and hands the outcomes in;
//! the decision applies the checks in their fixed order and yields either
//! the run context or the first fault's diagnostic.

use vstd::prelude::*;

verus! {

/// Outcomes of the environment probes. A `None` means the probe could not
/// produce a value (detached head, failed query, failed lookup).
#[derive(Debug, Clone, PartialEq, Eq)]
pub struct PreflightProbes {
    /// The revision-control tool runs.
    pub git_available: bool,
    /// The forge CLI runs.
    pub gh_available: bool,
    /// The forge CLI is authenticated.
    pub gh_authenticated: bool,
    /// An `origin` remote exists.
    pub origin_present: bool,
    /// The branch currently checked out, if on one.
    pub current_branch: Option<String>,
    /// Whether the working tree is clean, if the status query ran.
    pub working_tree_clean: Option<bool>,
    /// The repository's default branch, if the lookup ran.
    pub default_branch: Option<String>,
}

/// What every subcommand needs from a successful preflight.
#[derive(Debug, Clone, PartialEq, Eq)]
pub struct PreflightContext {
    /// The branch checked out when the run started.
    pub current_branch: String,
    /// The repository's default branch.
    pub default_branch: String,
}

/// The outcome the preflight checks settle on, applied in order: tools,
/// authentication, remote, branch, working tree, default branch. The error
/// side carries the diagnostic text of the first failing check.
pub open spec fn spec_preflight(probes: PreflightProbes) -> Result<PreflightContext, Seq<char>> {
    if !probes.git_available {
        Err("required command `git` was not found in PATH; install it and retry"@)
    } else if !probes.gh_available {
        Err("required command `gh` was not found in PATH; install it and retry"@)
    } else if !probes.gh_authenticated {
        Err("GitHub CLI is not authenticated; run `gh auth login` and retry"@)
    } else if !probes.origin_present {
        Err("`origin` remote is missing; add it with `git remote add origin <url>`"@)
    } else if probes.current_branch is None {
        Err("not on a branch (detached HEAD); checkout a branch and retry"@)
    } else if probes.working_tree_clean is None {
        Err("failed to check working tree status; ensure this is a git repository"@)
    } else if probes.working_tree_clean == Some(false) {
        Err("working tree is not clean; commit, stash, or discard changes before running stck"@)
    } else if probes.default_branch is None {
        Err(
            "could not discover default branch via GitHub CLI; ensure `origin` points to GitHub and `gh auth status` succeeds"@,
        )
    } else if probes.default_branch.unwrap()@.len() == 0 {
        Err("default branch lookup returned empty result; verify repository metadata on GitHub"@)
    } else {
        Ok(
            PreflightContext {
                current_branch: probes.current_branch.unwrap(),
                default_branch: probes.default_branch.unwrap(),
            },
        )
    }
}

/// Applies the preflight checks in order and reports the first fault, or
/// the context when all pass; see [`spec_preflight`].
pub fn run_preflight(probes: PreflightProbes) -> (r: Result<PreflightContext, String>)
    ensures
        match spec_preflight(probes) {
            Ok(c) => r == Ok::<PreflightContext, String>(c),
            Err(msg) => (r matches Err(m) && m@ == msg),
        },
{
    if !probes.git_available {
        return Err("required command `git` was not found in PATH; install it and retry".to_owned());
    }
    if !probes.gh_available {
        return Err("required command `gh` was not found in PATH; install it and retry".to_owned());
    }
    if !probes.gh_authenticated {
        return Err("GitHub CLI is not authenticated; run `gh auth login` and retry".to_owned());
    }
    if !probes.origin_present {
        return Err("`origin` remote is missing; add it with `git remote add origin <url>`".to_owned());
    }
    let current_branch = match probes.current_branch {
        Some(c) => c,
        None => {
            return Err("not on a branch (detached HEAD); checkout a branch and retry".to_owned());
        },
    };
    match probes.working_tree_clean {
        Some(true) => {},
        Some(false) => {
            return Err(
                "working tree is not clean; commit, stash, or discard changes before running stck".to_owned(),
            );
        },
        None => {
            return Err(
                "failed to check working tree status; ensure this is a git repository".to_owned(),
            );
        },
    }
    let default_branch = match probes.default_branch {
        Some(d) => d,
        None => {
            return Err(
                "could not discover default branch via GitHub CLI; ensure `origin` points to GitHub and `gh auth status` succeeds".to_owned(),
            );
        },
    };
    if default_branch.as_str().is_empty() {
        return Err(
            "default branch lookup returned empty result; verify repository metadata on GitHub".to_owned(),
        );
    }
    Ok(PreflightContext { current_branch, default_branch })
}

} // verus!
