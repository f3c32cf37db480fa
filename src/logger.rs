//! Request logging.

use vstd::prelude::*;
use vstd::string::StringExecFns;

verus! {

/// Logs each incoming request with the time it arrived.
pub struct Logger {}

impl Logger {
    /// The name the logger is registered under.
    pub fn name(&self) -> (r: String)
        ensures
            r@ == "Request Logger"@,
    {
        String::from_str("Request Logger")
    }

    /// The line logged for a request: `<time>: <request>`.
    pub fn line(&self, now: &str, request: &str) -> (r: String)
        ensures
            r@ == now@ + ": "@ + request@,
    {
        let mut s = String::from_str(now);
        s.append(": ");
        s.append(request);
        s
    }
}

} // verus!
