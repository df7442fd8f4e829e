//! How the refreshing of usage stands, as it is shown.
use vstd::prelude::*;

verus! {

#[derive(Debug)]
pub struct UsageSchedulerStatus {
    pub policy: String,
    pub mode: String,
    pub watcher_active: bool,
    pub pending_reconciliation: bool,
    pub fallback_seconds: u64,
    pub last_refresh_at: Option<i64>,
    pub last_local_activity_at: Option<i64>,
    pub refreshing: bool,
    pub refresh_reason: Option<String>,
    pub refresh_error: Option<String>,
    pub refresh_started_at: Option<i64>,
    pub refresh_generation: Option<u64>,
    pub queued_refresh: bool,
}

/// Says that usage data that was shown is no longer to be relied on.
#[derive(Debug)]
pub struct UsageDataInvalidatedPayload {
    pub reason: String,
    pub invalidated_at: i64,
}

} // verus!
