//! Identity-aware rate limiting for an HTTP service.
//!
//! The crate resolves a caller's identity from a signed bearer token or a
//! network address, advances a per-identity counter held in a shared
//! TTL-capable store, and decides whether a request is forwarded, denied
//! with a retry signal, or answered with an error.

pub mod auth;
pub mod digits;
pub mod email;
pub mod middleware;
pub mod rate_limiter;
pub mod text;
