//! Pull-request flow metrics for a repository: a rolling-window metrics
//! engine over daily prefix sums, and a time-bounded cache of its results.

pub mod cache;
pub mod config;
pub mod dates;
pub mod github;
pub mod metrics;
pub mod text;

use vstd::prelude::*;

verus! {

/// What the liveness endpoint reports.
#[derive(Debug, Clone, Copy)]
pub struct HealthResponse {
    pub status: &'static str,
    pub service: &'static str,
    pub version: &'static str,
}

impl HealthResponse {
    /// A healthy report of this service at `version`.
    pub fn healthy(version: &'static str) -> (h: HealthResponse)
        ensures
            h.status@ == "ok"@,
            h.service@ == "repoflow-backend"@,
            h.version@ == version@,
    {
        HealthResponse { status: "ok", service: "repoflow-backend", version }
    }
}

} // verus!
