//! A request-admission filter: counts requests per time window in a shared
//! key/value store and denies them once a configured quota is exhausted.
//!
//! The library holds the verified core: the configuration parser, the decimal
//! counter codec, the window-key derivation, the admit decision, and an
//! in-memory store implementing the read / compare-and-swap protocol. The
//! host-facing plugin glue (clock, shared-store calls, HTTP short-circuit)
//! lives outside the library and drives these functions.

pub mod codec;
pub mod config;
pub mod key;
pub mod store;
pub mod limiter;
pub mod concurrent;
pub mod response;
