//! Messages between the CLI and the daemon.
//!
//! The client sends one [`Request`] and receives one [`Response`]. How they are
//! written to the socket is up to the two ends.

use crate::plan::SyncPlan;
use crate::report::SyncSummary;
use vstd::prelude::*;

verus! {

/// A command sent from the CLI to the daemon.
#[derive(Debug)]
pub enum Request {
    /// Ask for the status of every active group.
    Status,
    /// Run a sync now for the given target.
    Sync(SyncTarget),
    /// Say what a sync of the given target would do.
    Plan(SyncTarget),
    /// Re-read and apply the configuration file.
    Reload,
}

/// Which groups a [`Request::Sync`] applies to. Profile selection happens at the
/// daemon level (each daemon serves one profile), so this only distinguishes
/// "everything this daemon runs" from a single named group.
#[derive(Debug)]
pub enum SyncTarget {
    /// Every active group.
    All,
    /// A single group by its id or its label (`remote:remote_path`).
    Group(String),
}

/// The daemon's reply.
#[derive(Debug)]
pub enum Response {
    /// Status of each active group.
    Status(Vec<GroupStatus>),
    /// Outcome of a sync request, one entry per group run.
    Synced(Vec<GroupOutcome>),
    /// Outcome of a dry run, one entry per group.
    Planned(Vec<GroupPlan>),
    /// Result of a reload.
    Reloaded {
        /// Whether the reload succeeded.
        ok: bool,
        /// Human-readable detail.
        message: String,
    },
    /// The request could not be served.
    Error(String),
}

/// A snapshot of one group's runtime state.
#[derive(Debug)]
pub struct GroupStatus {
    /// Group label (`remote:remote_path`).
    pub label: String,
    /// Remote name.
    pub remote: String,
    /// Local root.
    pub root: String,
    /// Trigger kind (`manual`/`timer`/`watch`).
    pub trigger: String,
    /// Epoch seconds of the last run, if any.
    pub last_run: Option<u64>,
    /// Compact summary of the last successful run.
    pub last_summary: Option<SyncSummary>,
    /// Last error message, if the last run failed.
    pub last_error: Option<String>,
}

/// The outcome of running a single group.
#[derive(Debug)]
pub struct GroupOutcome {
    /// Group label (`remote:remote_path`).
    pub label: String,
    /// Summary on success.
    pub summary: Option<SyncSummary>,
    /// Error message on failure.
    pub error: Option<String>,
}

/// What a sync of a single group would do.
#[derive(Debug)]
pub struct GroupPlan {
    /// Group label (`remote:remote_path`).
    pub label: String,
    /// The plan on success.
    pub plan: Option<SyncPlan>,
    /// Error message on failure.
    pub error: Option<String>,
}

} // verus!
