//! Stack engine for a stacked-pull-request workflow tool.
//!
//! The library contains the verified core: discovery of the linear PR stack
//! from forge metadata, the status reporter, the sync and push planners, the
//! resumable operation-state machine, and the persistent state codec. All
//! subprocess and file I/O lives outside the library; callers hand in plain
//! values (resolved refs, probe results, file bytes) and execute the plans
//! and actions the library returns.

pub mod commands;
pub mod env;
pub mod github;
pub mod json;
pub mod gitops;
pub mod stack;
pub mod sync_state;
pub mod text;
