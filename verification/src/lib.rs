//! Verified core of a transparent TCP gateway.
//!
//! The library holds the gateway's decision logic: resolving configured
//! mappings into concrete proxy endpoints, diffing desired state against the
//! running set, the per-listener accept/drain state machine, the byte-relay
//! step, the dial-strategy rule for spoofed-source connections, and the
//! idempotent policy-routing setup decisions. The surrounding process (socket
//! and netlink I/O, the async runtime) drives these functions and performs
//! the actions they return.

pub mod bind_addr;
pub mod config;
pub mod dial;
pub mod handler;
pub mod net;
pub mod parse;
pub mod reconcile;
pub mod relay;
pub mod routing;
