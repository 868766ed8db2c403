//! The worker-pool contract: a pool is built with a thread count and runs
//! submitted jobs.  Implementations live with the process plumbing, since
//! spawning and joining threads is beyond what can be verified here; the
//! jobs they run call back into the library.

use vstd::prelude::*;
use crate::KvsError;

verus! {

/// A fixed crew of workers that runs submitted jobs.
pub trait ThreadPool: Sized {
    fn new(threads: u32) -> Result<Self, KvsError>;

    fn spawn<F>(&self, job: F) where F: FnOnce() + Send + 'static;
}

} // verus!
