//! The per-connection dial strategy: how to reach the upstream target.

use vstd::prelude::*;

use crate::config::IntMapping;
use crate::net::SockAddrV4;

verus! {

/// How to dial the upstream for one accepted connection.
#[derive(Clone, Copy, PartialEq, Eq, Structural, Debug)]
pub enum DialPlan {
    /// An ordinary connect to the mapping's target address.
    Direct,
    /// A spoofed-source connect: create a socket with address reuse and the
    /// kernel transparent option enabled, bind it to the original client's
    /// address and port, then connect to the target. The upstream then sees
    /// the real client address; this needs elevated privilege and the
    /// policy-routing prerequisite.
    Spoofed { bind: SockAddrV4 },
}

/// The dial rule, per inbound connection: dial directly when the mapping is
/// not transparent or the client's IPv4 address is unavailable, or when the
/// client already sits in the mapping's hairpin block (its traffic was
/// already routed back here once); otherwise spoof the client's address.
pub open spec fn spec_dial_plan(client: Option<SockAddrV4>, m: IntMapping) -> DialPlan {
    match client {
        None => DialPlan::Direct,
        Some(c) => {
            if !m.transparent {
                DialPlan::Direct
            } else if m.spec_is_hairpin(c.ip) {
                DialPlan::Direct
            } else {
                DialPlan::Spoofed { bind: c }
            }
        },
    }
}

/// Decides how to dial the upstream. `client` is the accepted connection's
/// peer address, when it is known and is IPv4.
pub fn dial_plan(client: Option<SockAddrV4>, m: &IntMapping) -> (r: DialPlan)
    requires
        m.wf(),
    ensures
        r == spec_dial_plan(client, *m),
{
    match client {
        None => DialPlan::Direct,
        Some(c) => {
            if !m.transparent {
                DialPlan::Direct
            } else if m.connection_is_hairpin(&c.ip) {
                DialPlan::Direct
            } else {
                DialPlan::Spoofed { bind: c }
            }
        },
    }
}

} // verus!
