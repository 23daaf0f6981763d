use stargate::config::IntMapping;
use stargate::dial::{dial_plan, DialPlan};
use stargate::handler::{Handler, HandlerAction, HandlerEvent, HandlerPhase};
use stargate::net::{Ipv4Address, Ipv4Cidr, SockAddrV4};
use stargate::relay::{run_relay, RelayDirection};

fn ip(o0: u8, o1: u8, o2: u8, o3: u8) -> Ipv4Address {
    Ipv4Address { o0, o1, o2, o3 }
}

fn mapping(transparent: bool, hairpin: Option<Ipv4Cidr>) -> IntMapping {
    IntMapping {
        local_bind: SockAddrV4 { ip: ip(192, 168, 0, 1), port: 80 },
        target_address: SockAddrV4 { ip: ip(10, 0, 0, 1), port: 8080 },
        transparent,
        manage_iptables: false,
        hairpin_net: hairpin,
    }
}

#[test]
fn handler_binds_with_backoff() {
    let mut h = Handler::new(mapping(false, None));
    assert_eq!(h.phase, HandlerPhase::Binding);
    assert_eq!(h.step(HandlerEvent::BindFailed), HandlerAction::Backoff);
    assert_eq!(h.phase, HandlerPhase::Binding);
    assert_eq!(h.step(HandlerEvent::BindSucceeded), HandlerAction::AwaitNext);
    assert_eq!(h.phase, HandlerPhase::Accepting);
}

#[test]
fn handler_accept_errors_are_not_fatal() {
    let mut h = Handler::new(mapping(false, None));
    let _ = h.step(HandlerEvent::BindSucceeded);
    assert_eq!(h.step(HandlerEvent::AcceptFailed), HandlerAction::AwaitNext);
    assert_eq!(h.phase, HandlerPhase::Accepting);
    assert_eq!(h.step(HandlerEvent::Accepted), HandlerAction::SpawnConnection);
    assert_eq!(h.open_conns, 1);
}

#[test]
fn drain_lets_open_connections_finish() {
    // Drain correctness: after cancellation no connection is accepted, but
    // those already open finish before the handler returns.
    let mut h = Handler::new(mapping(false, None));
    let _ = h.step(HandlerEvent::BindSucceeded);
    let _ = h.step(HandlerEvent::Accepted);
    let _ = h.step(HandlerEvent::Accepted);
    assert_eq!(h.open_conns, 2);
    assert_eq!(h.step(HandlerEvent::Cancelled), HandlerAction::WaitConnections);
    assert_eq!(h.phase, HandlerPhase::Draining);
    assert_eq!(h.step(HandlerEvent::ConnFinished), HandlerAction::WaitConnections);
    assert_eq!(h.phase, HandlerPhase::Draining);
    assert_eq!(h.step(HandlerEvent::ConnFinished), HandlerAction::ReturnSuccess);
    assert_eq!(h.phase, HandlerPhase::Done);
    assert_eq!(h.open_conns, 0);
}

#[test]
fn cancel_with_nothing_open_returns_at_once() {
    let mut h = Handler::new(mapping(false, None));
    let _ = h.step(HandlerEvent::BindSucceeded);
    assert_eq!(h.step(HandlerEvent::Cancelled), HandlerAction::ReturnSuccess);
    assert_eq!(h.phase, HandlerPhase::Done);
}

#[test]
fn relay_forwards_bytes_unmodified() {
    // Relay transparency: bytes arrive unmodified and in order.
    let reads = vec![b"boop".to_vec(), b"\n".to_vec(), b"more data".to_vec()];
    let out = run_relay(&reads);
    assert_eq!(out, b"boop\nmore data".to_vec());
}

#[test]
fn relay_stops_at_half_close() {
    let reads = vec![b"ab".to_vec(), Vec::new(), b"after close".to_vec()];
    let out = run_relay(&reads);
    assert_eq!(out, b"ab".to_vec());
}

#[test]
fn relay_direction_chunks() {
    let mut dir = RelayDirection::new();
    let buf = [1u8, 2, 3, 4, 5];
    let chunk = dir.on_read(&buf, 3).unwrap();
    assert_eq!(chunk, vec![1, 2, 3]);
    assert!(!dir.done);
    assert_eq!(dir.on_read(&buf, 0), None);
    assert!(dir.done);
}

#[test]
fn relay_direction_error_ends_it() {
    let mut dir = RelayDirection::new();
    let buf = [9u8; 4];
    let _ = dir.on_read(&buf, 4);
    dir.on_error();
    assert!(dir.done);
}

#[test]
fn dial_direct_when_not_transparent() {
    let m = mapping(false, None);
    let client = SockAddrV4 { ip: ip(198, 51, 100, 7), port: 40000 };
    assert_eq!(dial_plan(Some(client), &m), DialPlan::Direct);
}

#[test]
fn dial_direct_when_client_unknown() {
    let m = mapping(true, None);
    assert_eq!(dial_plan(None, &m), DialPlan::Direct);
}

#[test]
fn dial_direct_for_hairpin_client() {
    let net = Ipv4Cidr { addr: ip(198, 51, 100, 0), prefix_len: 24 };
    let m = mapping(true, Some(net));
    let client = SockAddrV4 { ip: ip(198, 51, 100, 7), port: 40000 };
    assert_eq!(dial_plan(Some(client), &m), DialPlan::Direct);
}

#[test]
fn dial_spoofs_outside_hairpin() {
    let net = Ipv4Cidr { addr: ip(198, 51, 100, 0), prefix_len: 24 };
    let m = mapping(true, Some(net));
    let client = SockAddrV4 { ip: ip(203, 0, 113, 9), port: 40000 };
    assert_eq!(dial_plan(Some(client), &m), DialPlan::Spoofed { bind: client });
}
