//! Dispatch decisions of the process pools.
use vstd::prelude::*;
use vstd::string::*;

verus! {

/// Errors of a process pool.
pub enum PoolError {
    TransportError(String),
    Timeout,
    ServerNotAvailable,
    Cancelled,
    Internal(String),
}

impl PoolError {
    /// The message shown for the error.
    pub fn message(&self) -> (m: String)
        ensures
            m@ == match self {
                PoolError::TransportError(e) => "Transport error: "@ + e@,
                PoolError::Timeout => "Request timeout"@,
                PoolError::ServerNotAvailable => "Server not available"@,
                PoolError::Cancelled => "Request cancelled"@,
                PoolError::Internal(e) => "Internal error: "@ + e@,
            },
    {
        match self {
            PoolError::TransportError(e) => {
                let mut m = String::from_str("Transport error: ");
                m.append(e.as_str());
                m
            },
            PoolError::Timeout => String::from_str("Request timeout"),
            PoolError::ServerNotAvailable => String::from_str("Server not available"),
            PoolError::Cancelled => String::from_str("Request cancelled"),
            PoolError::Internal(e) => {
                let mut m = String::from_str("Internal error: ");
                m.append(e.as_str());
                m
            },
        }
    }
}

/// The first position holding the smallest count.
pub open spec fn is_least_busy(counts: Seq<usize>, i: int) -> bool {
    &&& 0 <= i < counts.len()
    &&& forall|j: int| 0 <= j < counts.len() ==> counts[i] <= #[trigger] counts[j]
    &&& forall|j: int| 0 <= j < i ==> counts[i] < #[trigger] counts[j]
}

/// Chooses the worker for a request, given each worker's number of
/// requests in flight: the least busy one (the first among equals);
/// `ServerNotAvailable` when there is no worker, and an `Internal` error
/// when even that worker has `max_queue_depth` requests or more.
pub fn pick_worker(in_flight: &Vec<usize>, max_queue_depth: usize) -> (r: Result<usize, PoolError>)
    ensures
        in_flight.len() == 0 ==> r matches Err(PoolError::ServerNotAvailable),
        in_flight.len() > 0 ==> exists|i: int| #![trigger is_least_busy(in_flight@, i)] is_least_busy(in_flight@, i) && if in_flight@[i] >= max_queue_depth {
            r matches Err(PoolError::Internal(e)) && e@ == "Pool queue depth exceeded"@
        } else {
            r == Ok::<usize, PoolError>(i as usize)
        },
{
    if in_flight.len() == 0 {
        return Err(PoolError::ServerNotAvailable);
    }
    let mut best: usize = 0;
    let mut i: usize = 1;
    while i < in_flight.len()
        invariant
            0 < in_flight.len(),
            best < i <= in_flight.len(),
            forall|j: int| 0 <= j < i ==> in_flight@[best as int] <= #[trigger] in_flight@[j],
            forall|j: int| 0 <= j < best ==> in_flight@[best as int] < #[trigger] in_flight@[j],
        decreases in_flight.len() - i,
    {
        if in_flight[i] < in_flight[best] {
            best = i;
        }
        i = i + 1;
    }
    assert(is_least_busy(in_flight@, best as int));
    if in_flight[best] >= max_queue_depth {
        Err(PoolError::Internal(String::from_str("Pool queue depth exceeded")))
    } else {
        Ok(best)
    }
}

} // verus!
