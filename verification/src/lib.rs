//! A verified core for a concurrent TCP port scanner.
//!
//! The library covers everything that can be decided without touching the
//! network: validating a scan request, partitioning a port range across
//! workers, filtering probe outcomes, aggregating per-worker results, and
//! rendering the final report.  The unverified shell around it performs the
//! actual TCP probes and hands the outcomes back as plain values.

pub mod aggregate;
pub mod ascii;
pub mod engine;
pub mod ordering;
pub mod partition;
pub mod report;
pub mod request;
pub mod worker;
