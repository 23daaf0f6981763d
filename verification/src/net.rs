//! Plain-value models of the network addresses the gateway works with:
//! IPv4 addresses, IPv4 socket addresses, and IPv4 CIDR blocks.

use vstd::prelude::*;

verus! {

/// An IPv4 address, held as its four octets.
#[derive(Clone, Copy, PartialEq, Eq, Structural, Debug)]
pub struct Ipv4Address {
    pub o0: u8,
    pub o1: u8,
    pub o2: u8,
    pub o3: u8,
}

impl Ipv4Address {
    /// The address as a single 32-bit value, high octet first.
    pub open spec fn spec_bits(self) -> nat {
        self.o0 as nat * 0x1000000 + self.o1 as nat * 0x10000 + self.o2 as nat * 0x100
            + self.o3 as nat
    }

    pub fn bits(&self) -> (r: u32)
        ensures
            r as nat == self.spec_bits(),
    {
        (self.o0 as u32) * 0x1000000 + (self.o1 as u32) * 0x10000 + (self.o2 as u32) * 0x100
            + (self.o3 as u32)
    }

    /// Whether the address lies in the loopback block 127.0.0.0/8.
    pub open spec fn spec_is_loopback(self) -> bool {
        self.o0 == 127
    }

    pub fn is_loopback(&self) -> (r: bool)
        ensures
            r == self.spec_is_loopback(),
    {
        self.o0 == 127
    }
}

/// An IPv4 socket address: address and port.
#[derive(Clone, Copy, PartialEq, Eq, Structural, Debug)]
pub struct SockAddrV4 {
    pub ip: Ipv4Address,
    pub port: u16,
}

/// An IPv4 CIDR block: a base address and a prefix length.
///
/// The base address may carry host bits; membership only compares the
/// leading `prefix_len` bits, as CIDR matching does.
#[derive(Clone, Copy, PartialEq, Eq, Structural, Debug)]
pub struct Ipv4Cidr {
    pub addr: Ipv4Address,
    pub prefix_len: u8,
}

impl Ipv4Cidr {
    /// A CIDR block is well formed when its prefix length is at most 32.
    pub open spec fn wf(self) -> bool {
        self.prefix_len <= 32
    }

    /// Membership: the leading `prefix_len` bits of `ip` equal those of the
    /// block's base address. A zero-length prefix contains every address.
    pub open spec fn spec_contains(self, ip: Ipv4Address) -> bool {
        self.prefix_len == 0 || ip.spec_bits() / vstd::arithmetic::power2::pow2(
            (32 - self.prefix_len) as nat,
        ) == self.addr.spec_bits() / vstd::arithmetic::power2::pow2((32 - self.prefix_len) as nat)
    }

    pub fn contains(&self, ip: &Ipv4Address) -> (r: bool)
        requires
            self.wf(),
        ensures
            r == self.spec_contains(*ip),
    {
        if self.prefix_len == 0 {
            true
        } else {
            let shift: u32 = 32 - (self.prefix_len as u32);
            let ip_bits = ip.bits();
            let base_bits = self.addr.bits();
            proof {
                vstd::bits::lemma_u32_shr_is_div(ip_bits, shift);
                vstd::bits::lemma_u32_shr_is_div(base_bits, shift);
            }
            (ip_bits >> shift) == (base_bits >> shift)
        }
    }
}

} // verus!
