use stargate::bind_addr::{select_bind_addresses, CandidateAddr};
use stargate::net::{Ipv4Address, SockAddrV4};
use stargate::routing::{dec_string, find_ip_route, find_ip_rule, find_loopback_intf, gen_rule_str,
    LinkRecord, RouteRecord, RoutingState, RuleRecord, SetupError};

fn ip(o0: u8, o1: u8, o2: u8, o3: u8) -> Ipv4Address {
    Ipv4Address { o0, o1, o2, o3 }
}

fn mark_rule() -> RuleRecord {
    RuleRecord { table: 100, action_to_table: true, fw_mark: Some(1) }
}

fn local_route(oif: u32) -> RouteRecord {
    RouteRecord { table: 100, scope_host: true, kind_local: true, oif: Some(oif) }
}

fn lo_link(index: u32, name: Option<&str>) -> LinkRecord {
    LinkRecord { index, name: name.map(String::from) }
}

#[test]
fn rule_query_matches_exactly() {
    assert!(!find_ip_rule(&vec![]));
    assert!(find_ip_rule(&vec![mark_rule()]));
    // Wrong table, wrong action, wrong or missing mark: all rejected.
    assert!(!find_ip_rule(&vec![RuleRecord { table: 99, ..mark_rule() }]));
    assert!(!find_ip_rule(&vec![RuleRecord { action_to_table: false, ..mark_rule() }]));
    assert!(!find_ip_rule(&vec![RuleRecord { fw_mark: Some(2), ..mark_rule() }]));
    assert!(!find_ip_rule(&vec![RuleRecord { fw_mark: None, ..mark_rule() }]));
}

#[test]
fn route_query_matches_exactly() {
    // The query is against the resolved loopback interface index.
    assert!(!find_ip_route(&vec![], 1));
    assert!(find_ip_route(&vec![local_route(1)], 1));
    assert!(find_ip_route(&vec![local_route(2)], 2));
    assert!(!find_ip_route(&vec![local_route(2)], 1));
    assert!(!find_ip_route(&vec![local_route(1)], 2));
    assert!(!find_ip_route(&vec![RouteRecord { table: 254, ..local_route(1) }], 1));
    assert!(!find_ip_route(&vec![RouteRecord { scope_host: false, ..local_route(1) }], 1));
    assert!(!find_ip_route(&vec![RouteRecord { kind_local: false, ..local_route(1) }], 1));
    assert!(!find_ip_route(&vec![RouteRecord { oif: None, ..local_route(1) }], 1));
}

#[test]
fn loopback_precedence() {
    // Index 1 named "lo" wins.
    let links = vec![lo_link(7, Some("lo")), lo_link(1, Some("lo"))];
    assert_eq!(find_loopback_intf(&links), Some(1));
    // Else the first link named "lo".
    let links = vec![lo_link(5, Some("dummy")), lo_link(7, Some("lo")), lo_link(8, Some("lo"))];
    assert_eq!(find_loopback_intf(&links), Some(7));
    // Else the first loopback-flagged link.
    let links = vec![lo_link(5, None), lo_link(6, Some("lo0"))];
    assert_eq!(find_loopback_intf(&links), Some(5));
    // Else there is none.
    assert_eq!(find_loopback_intf(&vec![]), None);
}

#[test]
fn setup_creates_missing_state() {
    let mut state = RoutingState { rules: vec![], routes: vec![] };
    let links = vec![lo_link(1, Some("lo"))];
    assert_eq!(state.ensure_routing_prerequisite(&links), Ok(()));
    assert_eq!(state.rules, vec![mark_rule()]);
    assert_eq!(state.routes, vec![local_route(1)]);
}

#[test]
fn setup_twice_changes_nothing() {
    // Routing prerequisite idempotence: a second run adds no duplicate rule
    // or route and ends in the same verified state.
    let mut state = RoutingState { rules: vec![], routes: vec![] };
    let links = vec![lo_link(1, Some("lo"))];
    assert_eq!(state.ensure_routing_prerequisite(&links), Ok(()));
    let rules_after_one = state.rules.clone();
    let routes_after_one = state.routes.clone();
    assert_eq!(state.ensure_routing_prerequisite(&links), Ok(()));
    assert_eq!(state.rules, rules_after_one);
    assert_eq!(state.routes, routes_after_one);
}

#[test]
fn setup_fails_without_loopback() {
    let mut state = RoutingState { rules: vec![], routes: vec![] };
    assert_eq!(state.ensure_routing_prerequisite(&vec![]), Err(SetupError::LoopbackNotFound));
    assert!(state.rules.is_empty());
    assert!(state.routes.is_empty());
}

#[test]
fn setup_binds_route_to_resolved_loopback() {
    // With the loopback at another index, the route is created and verified
    // against that index.
    let mut state = RoutingState { rules: vec![], routes: vec![] };
    let links = vec![lo_link(7, Some("lo"))];
    assert_eq!(state.ensure_routing_prerequisite(&links), Ok(()));
    assert_eq!(state.routes, vec![local_route(7)]);
    // A route bound to a different interface does not count as present.
    let mut state = RoutingState { rules: vec![], routes: vec![local_route(1)] };
    assert_eq!(state.ensure_routing_prerequisite(&links), Ok(()));
    assert_eq!(state.routes, vec![local_route(1), local_route(7)]);
}

#[test]
fn rule_string_exact() {
    let target = SockAddrV4 { ip: ip(10, 0, 0, 1), port: 8080 };
    assert_eq!(
        gen_rule_str(&target),
        "-p tcp -s 10.0.0.1/32 --sport 8080 -j MARK --set-xmark 0x1/0xffffffff"
    );
    let target = SockAddrV4 { ip: ip(203, 0, 113, 250), port: 65535 };
    assert_eq!(
        gen_rule_str(&target),
        "-p tcp -s 203.0.113.250/32 --sport 65535 -j MARK --set-xmark 0x1/0xffffffff"
    );
}

#[test]
fn decimal_rendering() {
    assert_eq!(dec_string(0), "0");
    assert_eq!(dec_string(7), "7");
    assert_eq!(dec_string(10), "10");
    assert_eq!(dec_string(65535), "65535");
    assert_eq!(dec_string(u32::MAX), "4294967295");
}

#[test]
fn bind_address_selection() {
    let cands = vec![
        CandidateAddr { addr: ip(192, 168, 0, 1), up: true },
        CandidateAddr { addr: ip(127, 0, 0, 1), up: true },
        CandidateAddr { addr: ip(10, 0, 0, 1), up: false },
        CandidateAddr { addr: ip(10, 0, 0, 2), up: true },
    ];
    // Loopback excluded by default; down interfaces always excluded.
    assert_eq!(
        select_bind_addresses(&cands, false),
        vec![ip(192, 168, 0, 1), ip(10, 0, 0, 2)]
    );
    // Loopback included on request.
    assert_eq!(
        select_bind_addresses(&cands, true),
        vec![ip(192, 168, 0, 1), ip(127, 0, 0, 1), ip(10, 0, 0, 2)]
    );
}
