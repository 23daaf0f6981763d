//! Policy-routing management: deciding, idempotently, what kernel routing
//! state to create so that packets carrying the gateway's mark are
//! delivered locally, and rendering the per-mapping packet-marking rule.
//!
//! The kernel's rules, routes and links are modelled as plain records
//! holding exactly the fields the gateway inspects; the caller reads them
//! over netlink, converts, and performs the additions these functions
//! decide on.

use vstd::prelude::*;
use vstd::string::StrSliceExecFns;
use vstd::string::StringExecFns;

use crate::net::{Ipv4Address, SockAddrV4};

verus! {

/// The dedicated policy-routing table.
pub const ROUTING_TABLE_ID: u32 = 100;

/// The packet mark that selects the table.
pub const PACKET_MARK: u32 = 1;

/// One IPv4 routing rule, as read from the kernel: the fields inspected.
#[derive(Clone, Copy, PartialEq, Eq, Structural, Debug)]
pub struct RuleRecord {
    /// The routing table the rule points at.
    pub table: u32,
    /// Whether the rule's action is "jump to table".
    pub action_to_table: bool,
    /// The rule's firewall-mark selector, if it carries one.
    pub fw_mark: Option<u32>,
}

/// One IPv4 route, as read from the kernel: the fields inspected.
#[derive(Clone, Copy, PartialEq, Eq, Structural, Debug)]
pub struct RouteRecord {
    pub table: u32,
    /// Whether the route's scope is host.
    pub scope_host: bool,
    /// Whether the route's kind is local.
    pub kind_local: bool,
    /// The route's output interface index, if it carries one.
    pub oif: Option<u32>,
}

/// One loopback-flagged network link: its index and its name, if any.
#[derive(Clone, Debug)]
pub struct LinkRecord {
    pub index: u32,
    pub name: Option<String>,
}

/// The rule the gateway needs: mark [`PACKET_MARK`] to table
/// [`ROUTING_TABLE_ID`].
pub open spec fn spec_mark_rule() -> RuleRecord {
    RuleRecord { table: ROUTING_TABLE_ID, action_to_table: true, fw_mark: Some(PACKET_MARK) }
}

pub open spec fn rule_matches(r: RuleRecord) -> bool {
    r.table == ROUTING_TABLE_ID && r.action_to_table && r.fw_mark == Some(PACKET_MARK)
}

pub open spec fn has_matching_rule(rs: Seq<RuleRecord>) -> bool {
    exists|i: int| 0 <= i < rs.len() && rule_matches(#[trigger] rs[i])
}

/// The route the gateway needs: a host-scoped local route in the table,
/// out the resolved loopback interface `lo`.
pub open spec fn route_matches(r: RouteRecord, lo: u32) -> bool {
    r.table == ROUTING_TABLE_ID && r.scope_host && r.kind_local && r.oif == Some(lo)
}

pub open spec fn has_matching_route(rs: Seq<RouteRecord>, lo: u32) -> bool {
    exists|i: int| 0 <= i < rs.len() && route_matches(#[trigger] rs[i], lo)
}

/// Whether the rule/route query found what the gateway needs.
pub fn find_ip_rule(rules: &Vec<RuleRecord>) -> (r: bool)
    ensures
        r == has_matching_rule(rules@),
{
    let mut i: usize = 0;
    while i < rules.len()
        invariant
            i <= rules@.len(),
            forall|j: int| 0 <= j < i ==> !rule_matches(#[trigger] rules@[j]),
        decreases rules@.len() - i,
    {
        let rec = rules[i];
        if rec.table == ROUTING_TABLE_ID && rec.action_to_table {
            match rec.fw_mark {
                Some(m) => {
                    if m == PACKET_MARK {
                        return true;
                    }
                },
                None => {},
            }
        }
        i += 1;
    }
    false
}

/// Whether a host-scoped local route in the table goes out the resolved
/// loopback interface `lo_idx`.
pub fn find_ip_route(routes: &Vec<RouteRecord>, lo_idx: u32) -> (r: bool)
    ensures
        r == has_matching_route(routes@, lo_idx),
{
    let mut i: usize = 0;
    while i < routes.len()
        invariant
            i <= routes@.len(),
            forall|j: int| 0 <= j < i ==> !route_matches(#[trigger] routes@[j], lo_idx),
        decreases routes@.len() - i,
    {
        let rec = routes[i];
        if rec.table == ROUTING_TABLE_ID && rec.scope_host && rec.kind_local {
            match rec.oif {
                Some(o) => {
                    if o == lo_idx {
                        return true;
                    }
                },
                None => {},
            }
        }
        i += 1;
    }
    false
}

/// Whether a link is named exactly "lo".
pub open spec fn named_lo(l: LinkRecord) -> bool {
    match l.name {
        Some(n) => n@ == "lo"@,
        None => false,
    }
}

fn link_named_lo(l: &LinkRecord) -> (r: bool)
    ensures
        r == named_lo(*l),
{
    match &l.name {
        None => false,
        Some(n) => {
            let s = n.as_str();
            let len = s.unicode_len();
            proof {
                reveal_strlit("lo");
            }
            if len != 2 {
                return false;
            }
            let c0 = s.get_char(0);
            let c1 = s.get_char(1);
            if c0 == 'l' && c1 == 'o' {
                proof {
                    assert(n@ =~= "lo"@);
                }
                true
            } else {
                false
            }
        },
    }
}

/// The index of the first link named "lo", if any.
pub open spec fn first_lo_index(ls: Seq<LinkRecord>) -> Option<u32>
    decreases ls.len(),
{
    if ls.len() == 0 {
        None
    } else if named_lo(ls[0]) {
        Some(ls[0].index)
    } else {
        first_lo_index(ls.skip(1))
    }
}

/// The loopback interface the local route should use, by precedence: a
/// link with index 1 named "lo"; else the first link named "lo"; else the
/// first loopback-flagged link; else none exists.
pub open spec fn spec_loopback_choice(ls: Seq<LinkRecord>) -> Option<u32> {
    if exists|i: int| 0 <= i < ls.len() && (#[trigger] ls[i]).index == 1 && named_lo(ls[i]) {
        Some(1u32)
    } else if first_lo_index(ls) is Some {
        first_lo_index(ls)
    } else if ls.len() > 0 {
        Some(ls[0].index)
    } else {
        None
    }
}

/// Picks the loopback interface for the local route from the
/// loopback-flagged links, mirroring [`spec_loopback_choice`]. `None` means
/// no loopback interface exists — a fatal setup error.
pub fn find_loopback_intf(links: &Vec<LinkRecord>) -> (r: Option<u32>)
    ensures
        r == spec_loopback_choice(links@),
{
    let mut i: usize = 0;
    while i < links.len()
        invariant
            i <= links@.len(),
            forall|j: int|
                0 <= j < i ==> !((#[trigger] links@[j]).index == 1 && named_lo(links@[j])),
        decreases links@.len() - i,
    {
        if links[i].index == 1 && link_named_lo(&links[i]) {
            return Some(1);
        }
        i += 1;
    }
    let mut k: usize = 0;
    proof {
        assert(links@.skip(0) =~= links@);
    }
    while k < links.len()
        invariant
            k <= links@.len(),
            forall|j: int|
                0 <= j < links@.len() ==> !((#[trigger] links@[j]).index == 1 && named_lo(
                    links@[j],
                )),
            first_lo_index(links@) == first_lo_index(links@.skip(k as int)),
        decreases links@.len() - k,
    {
        proof {
            assert(links@.skip(k as int)[0] == links@[k as int]);
            assert(links@.skip(k as int).skip(1) =~= links@.skip(k + 1));
        }
        if link_named_lo(&links[k]) {
            return Some(links[k].index);
        }
        k += 1;
    }
    proof {
        assert(links@.skip(links@.len() as int) =~= Seq::<LinkRecord>::empty());
        assert(first_lo_index(links@) is None);
    }
    if links.len() > 0 {
        Some(links[0].index)
    } else {
        None
    }
}

/// The policy-routing state the gateway inspects and mutates.
pub struct RoutingState {
    pub rules: Vec<RuleRecord>,
    pub routes: Vec<RouteRecord>,
}

/// Why the one-time setup failed. The failure is fatal: the gateway cannot
/// safely offer transparent mode without the routing prerequisite.
#[derive(Clone, Copy, PartialEq, Eq, Structural, Debug)]
pub enum SetupError {
    /// No loopback-flagged interface exists.
    LoopbackNotFound,
}

/// The rules after ensuring the mark rule exists: unchanged when a
/// matching rule is already present.
pub open spec fn rules_after(rs: Seq<RuleRecord>) -> Seq<RuleRecord> {
    if has_matching_rule(rs) {
        rs
    } else {
        rs.push(spec_mark_rule())
    }
}

/// The local route added for loopback interface `lo`.
pub open spec fn spec_local_route(lo: u32) -> RouteRecord {
    RouteRecord { table: ROUTING_TABLE_ID, scope_host: true, kind_local: true, oif: Some(lo) }
}

/// The routes after ensuring the local route out `lo` exists: unchanged
/// when a matching route is already present.
pub open spec fn routes_after(rs: Seq<RouteRecord>, lo: u32) -> Seq<RouteRecord> {
    if has_matching_route(rs, lo) {
        rs
    } else {
        rs.push(spec_local_route(lo))
    }
}

/// Whether the one-time setup succeeds: a loopback interface exists for the
/// local route to bind to.
pub open spec fn setup_ok(links: Seq<LinkRecord>) -> bool {
    spec_loopback_choice(links) is Some
}

impl RoutingState {
    /// The one-time, idempotent policy-routing setup: ensure the mark rule
    /// and the local route exist, creating each only when absent, and
    /// verify each by re-reading. Failure is fatal to transparent mode.
    pub fn ensure_routing_prerequisite(&mut self, links: &Vec<LinkRecord>) -> (r: Result<
        (),
        SetupError,
    >)
        ensures
            match r {
                Ok(()) => {
                    &&& setup_ok(links@)
                    &&& final(self).rules@ == rules_after(old(self).rules@)
                    &&& final(self).routes@ == routes_after(
                        old(self).routes@,
                        spec_loopback_choice(links@)->Some_0,
                    )
                    &&& has_matching_rule(final(self).rules@)
                    &&& has_matching_route(
                        final(self).routes@,
                        spec_loopback_choice(links@)->Some_0,
                    )
                },
                Err(SetupError::LoopbackNotFound) => {
                    &&& !setup_ok(links@)
                    &&& *final(self) == *old(self)
                },
            },
    {
        let lo_idx = match find_loopback_intf(links) {
            Some(idx) => idx,
            None => {
                return Err(SetupError::LoopbackNotFound);
            },
        };
        if !find_ip_rule(&self.rules) {
            let ghost old_rules = self.rules@;
            self.rules.push(
                RuleRecord {
                    table: ROUTING_TABLE_ID,
                    action_to_table: true,
                    fw_mark: Some(PACKET_MARK),
                },
            );
            // Re-read and verify: the added rule matches by construction.
            let ok = find_ip_rule(&self.rules);
            proof {
                assert(rule_matches(self.rules@[old_rules.len() as int]));
            }
            assert(ok);
        }
        if !find_ip_route(&self.routes, lo_idx) {
            let ghost old_routes = self.routes@;
            self.routes.push(
                RouteRecord {
                    table: ROUTING_TABLE_ID,
                    scope_host: true,
                    kind_local: true,
                    oif: Some(lo_idx),
                },
            );
            // Re-read and verify: the added route is bound to the resolved
            // loopback interface, so it matches by construction.
            let ok = find_ip_route(&self.routes, lo_idx);
            proof {
                assert(route_matches(self.routes@[old_routes.len() as int], lo_idx));
            }
            assert(ok);
        }
        Ok(())
    }
}

/// Routing-prerequisite idempotence: a second run of the setup against the
/// state a successful run left behind changes nothing — it finds the rule
/// and the route already present, adds no duplicates, and succeeds with the
/// same verified end state.
pub proof fn lemma_setup_idempotent(
    rules: Seq<RuleRecord>,
    routes: Seq<RouteRecord>,
    links: Seq<LinkRecord>,
)
    requires
        setup_ok(links),
    ensures
        rules_after(rules_after(rules)) == rules_after(rules),
        routes_after(
            routes_after(routes, spec_loopback_choice(links)->Some_0),
            spec_loopback_choice(links)->Some_0,
        ) == routes_after(routes, spec_loopback_choice(links)->Some_0),
        has_matching_rule(rules_after(rules)),
        has_matching_route(
            routes_after(routes, spec_loopback_choice(links)->Some_0),
            spec_loopback_choice(links)->Some_0,
        ),
{
    let lo = spec_loopback_choice(links)->Some_0;
    let rs1 = rules_after(rules);
    let rts1 = routes_after(routes, lo);
    if !has_matching_rule(rules) {
        assert(rule_matches(rs1[rules.len() as int]));
    }
    assert(has_matching_rule(rs1));
    if !has_matching_route(routes, lo) {
        assert(route_matches(rts1[routes.len() as int], lo));
    }
    assert(has_matching_route(rts1, lo));
}

/// The decimal rendering of `n`, most significant digit first.
pub open spec fn dec_chars(n: nat) -> Seq<char>
    decreases n,
{
    if n < 10 {
        seq![digit_char(n)]
    } else {
        dec_chars(n / 10).push(digit_char(n % 10))
    }
}

/// The character for one decimal digit.
pub open spec fn digit_char(d: nat) -> char {
    if d == 0 {
        '0'
    } else if d == 1 {
        '1'
    } else if d == 2 {
        '2'
    } else if d == 3 {
        '3'
    } else if d == 4 {
        '4'
    } else if d == 5 {
        '5'
    } else if d == 6 {
        '6'
    } else if d == 7 {
        '7'
    } else if d == 8 {
        '8'
    } else {
        '9'
    }
}

fn digit_str(d: u32) -> (s: &'static str)
    requires
        d < 10,
    ensures
        s@ == seq![digit_char(d as nat)],
{
    let s: &'static str = if d == 0 {
        "0"
    } else if d == 1 {
        "1"
    } else if d == 2 {
        "2"
    } else if d == 3 {
        "3"
    } else if d == 4 {
        "4"
    } else if d == 5 {
        "5"
    } else if d == 6 {
        "6"
    } else if d == 7 {
        "7"
    } else if d == 8 {
        "8"
    } else {
        "9"
    };
    proof {
        reveal_strlit("0");
        reveal_strlit("1");
        reveal_strlit("2");
        reveal_strlit("3");
        reveal_strlit("4");
        reveal_strlit("5");
        reveal_strlit("6");
        reveal_strlit("7");
        reveal_strlit("8");
        reveal_strlit("9");
        assert(s@ =~= seq![digit_char(d as nat)]);
    }
    s
}

/// Renders `n` in decimal, mirroring [`dec_chars`].
pub fn dec_string(n: u32) -> (s: String)
    ensures
        s@ == dec_chars(n as nat),
    decreases n,
{
    if n < 10 {
        String::from_str(digit_str(n))
    } else {
        proof {
            assert(n / 10 < n) by (nonlinear_arith)
                requires
                    n >= 10,
            ;
        }
        let mut s = dec_string(n / 10);
        s.append(digit_str(n % 10));
        proof {
            assert(s@ =~= dec_chars(n as nat / 10).push(digit_char(n as nat % 10)));
        }
        s
    }
}

/// The dotted-quad rendering of an address.
pub open spec fn ipv4_chars(ip: Ipv4Address) -> Seq<char> {
    dec_chars(ip.o0 as nat) + "."@ + dec_chars(ip.o1 as nat) + "."@ + dec_chars(ip.o2 as nat)
        + "."@ + dec_chars(ip.o3 as nat)
}

/// The packet-filter rule for one mapping's target: mark TCP packets
/// arriving from the target address and port with the gateway's mark.
pub open spec fn rule_chars(t: SockAddrV4) -> Seq<char> {
    "-p tcp -s "@ + ipv4_chars(t.ip) + "/32 --sport "@ + dec_chars(t.port as nat)
        + " -j MARK --set-xmark 0x1/0xffffffff"@
}

/// Renders the packet-filter rule inserted into (and deleted from) the
/// mangle table's pre-routing chain for one mapping's target.
pub fn gen_rule_str(target: &SockAddrV4) -> (s: String)
    ensures
        s@ == rule_chars(*target),
{
    let mut s = String::from_str("-p tcp -s ");
    let part0 = dec_string(target.ip.o0 as u32);
    s.append(part0.as_str());
    s.append(".");
    let part1 = dec_string(target.ip.o1 as u32);
    s.append(part1.as_str());
    s.append(".");
    let part2 = dec_string(target.ip.o2 as u32);
    s.append(part2.as_str());
    s.append(".");
    let part3 = dec_string(target.ip.o3 as u32);
    s.append(part3.as_str());
    s.append("/32 --sport ");
    let port = dec_string(target.port as u32);
    s.append(port.as_str());
    s.append(" -j MARK --set-xmark 0x1/0xffffffff");
    proof {
        assert(s@ =~= rule_chars(*target));
    }
    s
}

} // verus!
