//! A job-dispatch broker: producers submit opaque jobs, workers register a
//! callback address, and the broker pairs the two — synchronously when a
//! counterpart is waiting, through a FIFO queue otherwise.  The job queue and
//! the worker queue each sit on one of three interchangeable backends
//! (in-memory, uncached file, cached file).

pub mod codec;
pub mod job;
pub mod queue;
pub mod worker;

use vstd::prelude::*;

verus! {

/// Whether an HTTP status code counts as a success response.
pub fn status_is_success(status: u16) -> (r: bool)
    ensures
        r <==> (200 <= status && status < 300),
{
    200 <= status && status < 300
}

} // verus!
