//! Scan requests and their validation.
//!
//! A scan is described by an inclusive port range `[start, end]` and a
//! positive worker count.  The engine assumes a validated request; the
//! constructor here performs that validation and reports exactly which
//! configuration rule was broken.

use vstd::prelude::*;

verus! {

/// A validated description of one scan: probe every port in
/// `[start, end]` using `workers` concurrent workers.
#[derive(Clone, Copy, Debug, PartialEq, Eq, Structural)]
pub struct ScanRequest {
    pub start: u16,
    pub end: u16,
    pub workers: u16,
}

/// A configuration rule broken by the caller's input.  The engine performs
/// no work when one of these is reported.
#[derive(Clone, Copy, Debug, PartialEq, Eq, Structural)]
pub enum ConfigError {
    /// The range is inverted, or starts at port 0.
    InvalidPortRange,
    /// The worker count is zero.
    NoWorkers,
}

impl ScanRequest {
    /// A request the engine may run: a non-empty range of real ports and at
    /// least one worker.
    pub open spec fn wf(self) -> bool {
        &&& 1 <= self.start
        &&& self.start <= self.end
        &&& self.workers >= 1
    }

    /// Validates the triple supplied by the argument layer.  The range is
    /// checked first, then the worker count; a well-formed request is
    /// returned unchanged.
    pub fn new(start: u16, end: u16, workers: u16) -> (r: Result<ScanRequest, ConfigError>)
        ensures
            r is Ok <==> (1 <= start <= end && workers >= 1),
            r is Ok ==> r->Ok_0 == (ScanRequest { start, end, workers }) && r->Ok_0.wf(),
            r == Result::<ScanRequest, ConfigError>::Err(ConfigError::InvalidPortRange) <==> (
            start == 0 || start > end),
            r == Result::<ScanRequest, ConfigError>::Err(ConfigError::NoWorkers) <==> (1 <= start
                <= end && workers == 0),
    {
        if start == 0 || start > end {
            Err(ConfigError::InvalidPortRange)
        } else if workers == 0 {
            Err(ConfigError::NoWorkers)
        } else {
            Ok(ScanRequest { start, end, workers })
        }
    }
}

} // verus!
