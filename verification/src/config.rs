//! Configuration data and its resolution into concrete proxy mappings.
//!
//! A [`Config`] holds user-written mappings as text; [`Config::to_int_mappings`]
//! expands them against the configured bind addresses into [`IntMapping`]
//! records, rejecting unparsable addresses and dropping all but the last
//! entry for a duplicated `local_bind` key, so keys are unique.

use vstd::prelude::*;

use crate::net::{Ipv4Address, Ipv4Cidr, SockAddrV4};
use crate::parse::{parse_ipv4_addr, parse_ipv4_cidr, parse_sockaddr_v4, spec_parse_cidr,
    spec_parse_ipv4, spec_parse_sockaddr};

verus! {

/// One user-written mapping: a local port, a target `ip:port` string, and
/// an optional hairpin CIDR string.
#[derive(Clone, Debug)]
pub struct Mapping {
    pub local_port: u16,
    pub target_address: String,
    pub hairpin_net: Option<String>,
}

/// The configuration document's fields, with addresses still as text.
#[derive(Clone, Debug)]
pub struct Config {
    pub mappings: Vec<Mapping>,
    pub transparent: bool,
    pub manage_iptables: bool,
    pub should_exit: bool,
    pub bind_addrs: Vec<String>,
}

/// A fully resolved proxy mapping. `local_bind` is the key; the
/// `transparent` and `manage_iptables` flags are copied uniformly from the
/// configuration.
#[derive(Clone, Copy, PartialEq, Eq, Structural, Debug)]
pub struct IntMapping {
    pub local_bind: SockAddrV4,
    pub target_address: SockAddrV4,
    pub transparent: bool,
    pub manage_iptables: bool,
    pub hairpin_net: Option<Ipv4Cidr>,
}

impl IntMapping {
    /// Well-formed: a hairpin block, if present, has a valid prefix length.
    pub open spec fn wf(self) -> bool {
        match self.hairpin_net {
            Some(n) => n.wf(),
            None => true,
        }
    }

    /// Whether a client address lies in this mapping's hairpin block.
    pub open spec fn spec_is_hairpin(self, ip: Ipv4Address) -> bool {
        match self.hairpin_net {
            None => false,
            Some(net) => net.spec_contains(ip),
        }
    }

    pub fn connection_is_hairpin(&self, p0: &Ipv4Address) -> (r: bool)
        requires
            self.wf(),
        ensures
            r == self.spec_is_hairpin(*p0),
    {
        match &self.hairpin_net {
            None => false,
            Some(net) => net.contains(p0),
        }
    }
}

/// Why a configuration failed to resolve.
#[derive(Clone, Copy, PartialEq, Eq, Structural, Debug)]
pub enum ConfigError {
    /// A mapping's hairpin string is not a valid IPv4 CIDR block.
    InvalidHairpinNet,
    /// A bind address string is not a valid IPv4 address.
    InvalidBindAddr,
    /// A mapping's target string is not a valid `ip:port` address.
    InvalidTargetAddress,
}

/// Whether a mapping's hairpin string (if any) parses.
pub open spec fn hairpin_ok(m: Mapping) -> bool {
    match m.hairpin_net {
        None => true,
        Some(h) => spec_parse_cidr(h@) is Some,
    }
}

/// Whether a mapping's target string parses.
pub open spec fn target_ok(m: Mapping) -> bool {
    spec_parse_sockaddr(m.target_address@) is Some
}

/// The first error hit while expanding one mapping against the bind
/// addresses, scanned in order: each bind address is checked, then the
/// mapping's target. With no bind addresses nothing is checked.
pub open spec fn row_error(m: Mapping, bs: Seq<String>) -> Option<ConfigError>
    decreases bs.len(),
{
    if bs.len() == 0 {
        None
    } else if spec_parse_ipv4(bs[0]@) is None {
        Some(ConfigError::InvalidBindAddr)
    } else if !target_ok(m) {
        Some(ConfigError::InvalidTargetAddress)
    } else {
        row_error(m, bs.skip(1))
    }
}

/// The first error hit while resolving a configuration: mappings in order,
/// each mapping's hairpin string first, then its expansion.
pub open spec fn config_error(ms: Seq<Mapping>, bs: Seq<String>) -> Option<ConfigError>
    decreases ms.len(),
{
    if ms.len() == 0 {
        None
    } else if !hairpin_ok(ms[0]) {
        Some(ConfigError::InvalidHairpinNet)
    } else if row_error(ms[0], bs) is Some {
        row_error(ms[0], bs)
    } else {
        config_error(ms.skip(1), bs)
    }
}

/// The resolved mapping for one mapping and one bind address, assuming both
/// parse.
pub open spec fn resolve_one(m: Mapping, b: String, transparent: bool, manage: bool) -> IntMapping {
    IntMapping {
        local_bind: SockAddrV4 { ip: spec_parse_ipv4(b@)->Some_0, port: m.local_port },
        target_address: spec_parse_sockaddr(m.target_address@)->Some_0,
        transparent,
        manage_iptables: manage,
        hairpin_net: match m.hairpin_net {
            None => None,
            Some(h) => Some(spec_parse_cidr(h@)->Some_0),
        },
    }
}

/// One mapping expanded against every bind address, in order.
pub open spec fn spec_row(m: Mapping, bs: Seq<String>, transparent: bool, manage: bool) -> Seq<
    IntMapping,
>
    decreases bs.len(),
{
    if bs.len() == 0 {
        Seq::empty()
    } else {
        seq![resolve_one(m, bs[0], transparent, manage)] + spec_row(m, bs.skip(1), transparent, manage)
    }
}

/// The full cross product: every mapping against every bind address, in
/// configuration order.
pub open spec fn spec_cross(ms: Seq<Mapping>, bs: Seq<String>, transparent: bool, manage: bool) -> Seq<
    IntMapping,
>
    decreases ms.len(),
{
    if ms.len() == 0 {
        Seq::empty()
    } else {
        spec_row(ms[0], bs, transparent, manage) + spec_cross(ms.skip(1), bs, transparent, manage)
    }
}

/// Whether some entry of `s` binds the key `k`.
pub open spec fn seq_has_key(s: Seq<IntMapping>, k: SockAddrV4) -> bool {
    exists|i: int| 0 <= i < s.len() && s[i].local_bind == k
}

/// Drops every entry whose `local_bind` recurs later, keeping the last
/// entry for each key in its place.
pub open spec fn spec_dedup(s: Seq<IntMapping>) -> Seq<IntMapping>
    decreases s.len(),
{
    if s.len() == 0 {
        Seq::empty()
    } else if seq_has_key(s.skip(1), s[0].local_bind) {
        spec_dedup(s.skip(1))
    } else {
        seq![s[0]] + spec_dedup(s.skip(1))
    }
}

/// Every entry of the deduplicated sequence comes from the input.
proof fn lemma_dedup_element_of(s: Seq<IntMapping>, i: int)
    requires
        0 <= i < spec_dedup(s).len(),
    ensures
        exists|j: int| 0 <= j < s.len() && s[j] == spec_dedup(s)[i],
    decreases s.len(),
{
    if s.len() > 0 {
        if seq_has_key(s.skip(1), s[0].local_bind) {
            lemma_dedup_element_of(s.skip(1), i);
            let j = choose|j: int| 0 <= j < s.skip(1).len() && s.skip(1)[j] == spec_dedup(s)[i];
            assert(s[j + 1] == spec_dedup(s)[i]);
        } else {
            if i == 0 {
                assert(s[0] == spec_dedup(s)[i]);
            } else {
                lemma_dedup_element_of(s.skip(1), i - 1);
                let j = choose|j: int|
                    0 <= j < s.skip(1).len() && s.skip(1)[j] == spec_dedup(s.skip(1))[i - 1];
                assert(s[j + 1] == spec_dedup(s)[i]);
            }
        }
    }
}

/// No two entries of the deduplicated sequence share a key.
proof fn lemma_dedup_unique(s: Seq<IntMapping>)
    ensures
        forall|i: int, j: int|
            0 <= i < j < spec_dedup(s).len() ==> (#[trigger] spec_dedup(s)[i]).local_bind != (
            #[trigger] spec_dedup(s)[j]).local_bind,
    decreases s.len(),
{
    if s.len() > 0 {
        lemma_dedup_unique(s.skip(1));
        if !seq_has_key(s.skip(1), s[0].local_bind) {
            assert forall|j: int| 1 <= j < spec_dedup(s).len() implies (
            #[trigger] spec_dedup(s)[j]).local_bind != s[0].local_bind by {
                lemma_dedup_element_of(s.skip(1), j - 1);
            }
        }
    }
}

/// A resolved configuration has every mapping's hairpin string parsed.
proof fn lemma_config_ok_hairpins(ms: Seq<Mapping>, bs: Seq<String>)
    requires
        config_error(ms, bs) is None,
    ensures
        forall|i: int| 0 <= i < ms.len() ==> hairpin_ok(#[trigger] ms[i]),
    decreases ms.len(),
{
    if ms.len() > 0 {
        lemma_config_ok_hairpins(ms.skip(1), bs);
        assert forall|i: int| 0 <= i < ms.len() implies hairpin_ok(#[trigger] ms[i]) by {
            if i > 0 {
                assert(ms.skip(1)[i - 1] == ms[i]);
            }
        }
    }
}

/// Every entry of one expanded row is well formed and carries the flags.
proof fn lemma_row_elements(m: Mapping, bs: Seq<String>, tr: bool, mg: bool, i: int)
    requires
        0 <= i < spec_row(m, bs, tr, mg).len(),
        hairpin_ok(m),
    ensures
        (#[trigger] spec_row(m, bs, tr, mg)[i]).wf(),
        spec_row(m, bs, tr, mg)[i].transparent == tr,
        spec_row(m, bs, tr, mg)[i].manage_iptables == mg,
    decreases bs.len(),
{
    if i == 0 {
        match m.hairpin_net {
            None => {},
            Some(h) => {
                assert(spec_parse_cidr(h@) is Some);
                assert((spec_parse_cidr(h@)->Some_0).wf());
            },
        }
    } else {
        lemma_row_elements(m, bs.skip(1), tr, mg, i - 1);
    }
}

/// Every entry of the cross product is well formed and carries the flags.
proof fn lemma_cross_elements(ms: Seq<Mapping>, bs: Seq<String>, tr: bool, mg: bool, i: int)
    requires
        0 <= i < spec_cross(ms, bs, tr, mg).len(),
        forall|k: int| 0 <= k < ms.len() ==> hairpin_ok(#[trigger] ms[k]),
    ensures
        (#[trigger] spec_cross(ms, bs, tr, mg)[i]).wf(),
        spec_cross(ms, bs, tr, mg)[i].transparent == tr,
        spec_cross(ms, bs, tr, mg)[i].manage_iptables == mg,
    decreases ms.len(),
{
    if ms.len() > 0 {
        let row = spec_row(ms[0], bs, tr, mg);
        if i < row.len() {
            lemma_row_elements(ms[0], bs, tr, mg, i);
        } else {
            assert(forall|k: int| 0 <= k < ms.skip(1).len() ==> hairpin_ok(#[trigger] ms.skip(1)[k]));
            lemma_cross_elements(ms.skip(1), bs, tr, mg, i - row.len());
        }
    }
}

impl Config {
    /// The deduplicated cross product this configuration resolves to.
    pub open spec fn spec_resolved(self) -> Seq<IntMapping> {
        spec_dedup(spec_cross(self.mappings@, self.bind_addrs@, self.transparent,
            self.manage_iptables))
    }

    /// Expands the configuration into resolved mappings.
    ///
    /// Fails exactly when a scanned address string does not parse, with the
    /// first error in scan order; succeeds with the cross product of
    /// mappings and bind addresses, keeping only the last entry for each
    /// `local_bind` key, so the returned keys are unique.
    pub fn to_int_mappings(&self) -> (r: Result<Vec<IntMapping>, ConfigError>)
        ensures
            match r {
                Ok(v) => config_error(self.mappings@, self.bind_addrs@) is None && v@
                    == self.spec_resolved() && (forall|i: int, j: int|
                    0 <= i < j < v@.len() ==> (#[trigger] v@[i]).local_bind != (
                    #[trigger] v@[j]).local_bind) && (forall|i: int|
                    0 <= i < v@.len() ==> (#[trigger] v@[i]).wf() && v@[i].transparent
                        == self.transparent && v@[i].manage_iptables == self.manage_iptables),
                Err(e) => config_error(self.mappings@, self.bind_addrs@) == Some(e),
            },
    {
        let ghost ms = self.mappings@;
        let ghost bs = self.bind_addrs@;
        let ghost tr = self.transparent;
        let ghost mg = self.manage_iptables;
        let mut cross: Vec<IntMapping> = Vec::new();
        let mut mi: usize = 0;
        proof {
            assert(ms.skip(0) =~= ms);
            assert(cross@ + spec_cross(ms, bs, tr, mg) =~= spec_cross(ms, bs, tr, mg));
        }
        while mi < self.mappings.len()
            invariant
                mi <= self.mappings.len(),
                ms == self.mappings@,
                bs == self.bind_addrs@,
                tr == self.transparent,
                mg == self.manage_iptables,
                config_error(ms, bs) == config_error(ms.skip(mi as int), bs),
                spec_cross(ms, bs, self.transparent, self.manage_iptables) == cross@ + spec_cross(
                    ms.skip(mi as int),
                    bs,
                    self.transparent,
                    self.manage_iptables,
                ),
            decreases self.mappings.len() - mi,
        {
            let m = &self.mappings[mi];
            let ghost m_spec = ms[mi as int];
            assert(ms.skip(mi as int)[0] == m_spec);
            let hairpin: Option<Ipv4Cidr> = match &m.hairpin_net {
                None => None,
                Some(h) => {
                    match parse_ipv4_cidr(h.as_str()) {
                        Some(c) => Some(c),
                        None => {
                            proof {
                                assert(!hairpin_ok(m_spec));
                                assert(config_error(ms.skip(mi as int), bs) == Some(
                                    ConfigError::InvalidHairpinNet));
                            }
                            return Err(ConfigError::InvalidHairpinNet);
                        },
                    }
                },
            };
            let mut bi: usize = 0;
            proof {
                assert(bs.skip(0) =~= bs);
                assert(ms.skip(mi as int).skip(1) =~= ms.skip(mi + 1));
                assert(spec_cross(ms.skip(mi as int), bs, tr, mg) == spec_row(m_spec, bs, tr, mg)
                    + spec_cross(ms.skip(mi + 1), bs, tr, mg));
                assert(cross@ + spec_row(m_spec, bs, tr, mg) + spec_cross(ms.skip(mi + 1), bs, tr,
                    mg) =~= cross@ + spec_cross(ms.skip(mi as int), bs, tr, mg));
            }
            while bi < self.bind_addrs.len()
                invariant
                    bi <= self.bind_addrs.len(),
                    ms == self.mappings@,
                    bs == self.bind_addrs@,
                    tr == self.transparent,
                    mg == self.manage_iptables,
                    mi < ms.len(),
                    *m == ms[mi as int],
                    m_spec == ms[mi as int],
                    config_error(ms, bs) == config_error(ms.skip(mi as int), bs),
                    hairpin_ok(m_spec),
                    hairpin == (match m_spec.hairpin_net {
                        None => None::<Ipv4Cidr>,
                        Some(h) => Some(spec_parse_cidr(h@)->Some_0),
                    }),
                    row_error(m_spec, bs) == row_error(m_spec, bs.skip(bi as int)),
                    spec_cross(ms, bs, self.transparent, self.manage_iptables) == cross@
                        + spec_row(m_spec, bs.skip(bi as int), self.transparent,
                        self.manage_iptables) + spec_cross(ms.skip(mi + 1), bs, self.transparent,
                        self.manage_iptables),
                decreases self.bind_addrs.len() - bi,
            {
                let b = &self.bind_addrs[bi];
                assert(bs.skip(bi as int)[0] == bs[bi as int]);
                let bind_ip = match parse_ipv4_addr(b.as_str()) {
                    Some(ip) => ip,
                    None => {
                        proof {
                            assert(row_error(m_spec, bs.skip(bi as int)) == Some(
                                ConfigError::InvalidBindAddr));
                            assert(config_error(ms.skip(mi as int), bs) == Some(
                                ConfigError::InvalidBindAddr));
                        }
                        return Err(ConfigError::InvalidBindAddr);
                    },
                };
                let target = match parse_sockaddr_v4(m.target_address.as_str()) {
                    Some(t) => t,
                    None => {
                        proof {
                            assert(!target_ok(m_spec));
                            assert(row_error(m_spec, bs.skip(bi as int)) == Some(
                                ConfigError::InvalidTargetAddress));
                            assert(config_error(ms.skip(mi as int), bs) == Some(
                                ConfigError::InvalidTargetAddress));
                        }
                        return Err(ConfigError::InvalidTargetAddress);
                    },
                };
                let entry = IntMapping {
                    local_bind: SockAddrV4 { ip: bind_ip, port: m.local_port },
                    target_address: target,
                    transparent: self.transparent,
                    manage_iptables: self.manage_iptables,
                    hairpin_net: hairpin,
                };
                let ghost old_cross = cross@;
                proof {
                    assert(entry == resolve_one(m_spec, bs[bi as int], tr, mg));
                    assert(bs.skip(bi as int).skip(1) =~= bs.skip(bi + 1));
                    assert(spec_row(m_spec, bs.skip(bi as int), tr, mg) == seq![entry]
                        + spec_row(m_spec, bs.skip(bi + 1), tr, mg));
                    assert(row_error(m_spec, bs.skip(bi as int)) == row_error(m_spec, bs.skip(
                        bi + 1)));
                }
                cross.push(entry);
                bi += 1;
                proof {
                    assert(cross@ + spec_row(m_spec, bs.skip(bi as int), tr, mg) + spec_cross(
                        ms.skip(mi + 1), bs, tr, mg) =~= old_cross + spec_row(m_spec, bs.skip(
                        bi - 1), tr, mg) + spec_cross(ms.skip(mi + 1), bs, tr, mg));
                }
            }
            proof {
                assert(bs.skip(bs.len() as int) =~= Seq::<String>::empty());
                assert(row_error(m_spec, bs.skip(bs.len() as int)) is None);
                assert(config_error(ms.skip(mi as int), bs) == config_error(ms.skip(mi + 1), bs));
                assert(cross@ + spec_row(m_spec, bs.skip(bs.len() as int), tr, mg) + spec_cross(
                    ms.skip(mi + 1), bs, tr, mg) =~= cross@ + spec_cross(ms.skip(mi + 1), bs, tr,
                    mg));
            }
            mi += 1;
        }
        proof {
            assert(ms.skip(ms.len() as int) =~= Seq::<Mapping>::empty());
            assert(config_error(ms, bs) is None);
            assert(cross@ + spec_cross(ms.skip(ms.len() as int), bs, tr, mg) =~= cross@);
            assert(cross@ == spec_cross(ms, bs, tr, mg));
        }
        // Second pass: keep an entry only if its key does not recur later.
        let mut out: Vec<IntMapping> = Vec::new();
        let mut i: usize = 0;
        proof {
            assert(cross@.skip(0) =~= cross@);
            assert(out@ + spec_dedup(cross@) =~= spec_dedup(cross@));
        }
        while i < cross.len()
            invariant
                i <= cross.len(),
                spec_dedup(cross@) == out@ + spec_dedup(cross@.skip(i as int)),
            decreases cross.len() - i,
        {
            let mut later: bool = false;
            let mut j: usize = i + 1;
            while j < cross.len()
                invariant
                    i < j <= cross.len(),
                    i < cross.len(),
                    later == (exists|k: int|
                        i < k < j && (#[trigger] cross@[k]).local_bind == cross@[i as int].local_bind),
                decreases cross.len() - j,
            {
                if cross[j].local_bind == cross[i].local_bind {
                    later = true;
                }
                j += 1;
            }
            let ghost tail = cross@.skip(i as int);
            proof {
                assert(tail[0] == cross@[i as int]);
                assert(tail.skip(1) =~= cross@.skip(i + 1));
                if later {
                    let k = choose|k: int|
                        i < k < cross@.len() && (#[trigger] cross@[k]).local_bind
                            == cross@[i as int].local_bind;
                    assert(tail.skip(1)[k - i - 1] == cross@[k]);
                    assert(seq_has_key(tail.skip(1), tail[0].local_bind));
                } else {
                    assert forall|k: int| 0 <= k < tail.skip(1).len() implies (
                    #[trigger] tail.skip(1)[k]).local_bind != tail[0].local_bind by {
                        assert(tail.skip(1)[k] == cross@[k + i + 1]);
                    }
                    assert(!seq_has_key(tail.skip(1), tail[0].local_bind));
                }
            }
            if !later {
                let ghost old_out = out@;
                out.push(cross[i]);
                proof {
                    assert(out@ + spec_dedup(cross@.skip(i + 1)) =~= old_out + spec_dedup(tail));
                }
            }
            i += 1;
        }
        proof {
            assert(cross@.skip(cross@.len() as int) =~= Seq::<IntMapping>::empty());
            assert(out@ + spec_dedup(cross@.skip(cross@.len() as int)) =~= out@);
            lemma_dedup_unique(cross@);
            lemma_config_ok_hairpins(ms, bs);
            assert forall|w: int| 0 <= w < out@.len() implies (#[trigger] out@[w]).wf()
                && out@[w].transparent == tr && out@[w].manage_iptables == mg by {
                lemma_dedup_element_of(cross@, w);
                let j = choose|j: int| 0 <= j < cross@.len() && cross@[j] == spec_dedup(cross@)[w];
                lemma_cross_elements(ms, bs, tr, mg, j);
            }
        }
        Ok(out)
    }
}

} // verus!
