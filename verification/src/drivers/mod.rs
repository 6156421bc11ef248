//! Cloud back ends: driver configuration, the circuit payloads each back
//! end takes, and the decisions of the job-status polling loop.
pub mod ibm;
pub mod aws;
pub mod gcp;
pub mod azure;

use vstd::prelude::*;

verus! {

/// The back end a driver talks to.
#[derive(Debug, Clone, Copy, PartialEq, Eq, Structural)]
pub enum QuantumBackendProvider {
    IbmQuantum,
    AwsBraket,
    AzureQuantum,
    LocalSimulator,
}

/// Connection settings of a driver.
#[derive(Debug, Clone)]
pub struct DriverConfig {
    pub provider: QuantumBackendProvider,
    pub api_token: String,
    /// e.g. "ibm_brisbane" or "simulator".
    pub target_device: String,
    pub timeout_seconds: u64,
}

/// A copy of a configuration.
pub fn copy_config(c: &DriverConfig) -> (r: DriverConfig)
    ensures
        r.provider == c.provider,
        r.api_token@ == c.api_token@,
        r.target_device@ == c.target_device@,
        r.timeout_seconds == c.timeout_seconds,
{
    DriverConfig {
        provider: c.provider,
        api_token: c.api_token.clone(),
        target_device: c.target_device.clone(),
        timeout_seconds: c.timeout_seconds,
    }
}

/// What a job status report says.
#[derive(Debug)]
pub enum JobProgress {
    /// The job finished; its results can be fetched.
    Completed,
    /// The job failed, with the message to report.
    Failed(String),
    /// The job is still queued or running.
    Pending,
}

/// What the polling loop does after a status report.
#[derive(Debug)]
pub enum PollDecision {
    /// Fetch the results.
    FetchResults,
    /// Stop with the failure message.
    Abort(String),
    /// Sleep, then poll again as attempt `next_attempt`.
    WaitAndRetry { next_attempt: u32 },
}

/// Whether attempt number `attempts` may still poll (`attempts` up to `limit`).
pub fn poll_allowed(limit: u32, attempts: u32) -> (r: bool)
    ensures
        r == (attempts <= limit),
{
    attempts <= limit
}

/// The next step of the polling loop after the report of attempt `attempts`.
pub fn next_poll_decision(attempts: u32, progress: JobProgress) -> (d: PollDecision)
    requires
        attempts < u32::MAX,
    ensures
        match progress {
            JobProgress::Completed => d is FetchResults,
            JobProgress::Failed(m) => d matches PollDecision::Abort(n) && n@ == m@,
            JobProgress::Pending => d matches PollDecision::WaitAndRetry { next_attempt } && next_attempt == attempts + 1,
        },
{
    match progress {
        JobProgress::Completed => PollDecision::FetchResults,
        JobProgress::Failed(m) => PollDecision::Abort(m),
        JobProgress::Pending => PollDecision::WaitAndRetry { next_attempt: attempts + 1 },
    }
}

/// How a status string with completion word `done` and failure words reads,
/// the failure message being `failure`.
pub open spec fn progress_is(p: JobProgress, status: Seq<char>, done: Seq<char>, failed: bool, failure: Seq<char>) -> bool {
    if status == done {
        p is Completed
    } else if failed {
        p matches JobProgress::Failed(m) && m@ == failure
    } else {
        p is Pending
    }
}

/// The given message, or the default one when there is none.
pub open spec fn message_or(m: Option<Seq<char>>, default: Seq<char>) -> Seq<char> {
    match m {
        Some(s) => s,
        None => default,
    }
}

/// The characters of an optional string.
pub open spec fn optional_view(m: Option<String>) -> Option<Seq<char>> {
    match m {
        Some(s) => Some(s@),
        None => None,
    }
}

/// The given message, or `default` when there is none.
pub fn message_or_default(m: Option<String>, default: &str) -> (r: String)
    ensures
        r@ == message_or(optional_view(m), default@),
{
    match m {
        Some(s) => s,
        None => default.to_owned(),
    }
}

} // verus!
