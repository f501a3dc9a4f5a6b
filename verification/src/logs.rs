//! Request-scoped context threaded through diagnostic output.

use vstd::prelude::*;

verus! {

/// The identity of one request, carried into every log line the
/// surrounding tooling prints.
pub struct LogContext {
    pub req_id: String,
}

impl LogContext {
    /// Wraps a request identifier.
    pub fn new(id: String) -> (r: LogContext)
        ensures
            r.req_id@ == id@,
    {
        LogContext { req_id: id }
    }
}

} // verus!
