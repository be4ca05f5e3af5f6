use vstd::prelude::*;

verus! {

/// Minimal executor abstraction for distributing the autocorrelation work across multiple
/// threads or CPU cores.
///
/// The executor is handed, once per detection run, the lag range that needs to be
/// evaluated. It is responsible for splitting that range into chunks and invoking
/// `job(from, to)` for each chunk, potentially in parallel. Chunks must be non-overlapping;
/// together they must cover the entire input `range`.
pub trait Executor {
    /// Execute `job` over the given `range`, splitting it into non-overlapping `[from, to)`
    /// chunks as the implementation sees fit.
    ///
    /// `job` is `Sync` so that it can be shared across threads safely.
    fn execute<F>(&self, range: core::ops::Range<usize>, job: F) where F: Fn(usize, usize) + Sync;
}

} // verus!
