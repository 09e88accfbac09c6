//! Per-request HTTP metrics: a counter table keyed by response status, and a
//! middleware that records the outcome of each request after its inner service
//! has completed, handing the service's result back unchanged.

pub mod metrics;
pub mod middleware;
