//! Verified core of a small diagnostic HTTP origin server: a sliding-window
//! rate limiter keyed by client identity, an incremental request framer that
//! finds the boundary of one HTTP request in a raw byte stream, header-based
//! client-address extraction, a worker-pool model, and response formatting.

pub mod framer;
pub mod ip_info;
pub mod pool;
pub mod rate_limiter;
pub mod response;
pub mod text;
