//! End-to-end scenario against the models: one non-transparent mapping to a
//! local echo target; a connection echoes a line; `should_exit` flips; new
//! connections stop being accepted while the already-open one still echoes;
//! once it closes, the controller's run is over.

use stargate::config::{Config, Mapping};
use stargate::dial::{dial_plan, DialPlan};
use stargate::handler::{Handler, HandlerAction, HandlerEvent, HandlerPhase};
use stargate::net::{Ipv4Address, SockAddrV4};
use stargate::reconcile::{Controller, DesiredState};
use stargate::relay::RelayDirection;

fn config(local_port: u16, target: &str, should_exit: bool) -> Config {
    Config {
        mappings: vec![Mapping {
            local_port,
            target_address: String::from(target),
            hairpin_net: None,
        }],
        transparent: false,
        manage_iptables: false,
        should_exit,
        bind_addrs: vec![String::from("127.0.0.1")],
    }
}

/// What the echo service does: sends back exactly what it received.
fn echo(received: &[u8]) -> Vec<u8> {
    received.to_vec()
}

#[test]
fn echo_then_exit() {
    let local_port = 4000;
    let target_port = 5000;

    // Initial desired state: one mapping 127.0.0.1:4000 -> 127.0.0.1:5000.
    let d0 = DesiredState::from_config(&config(local_port, "127.0.0.1:5000", false)).unwrap();
    let mut ctl = Controller::new(d0);
    let plan = ctl.tick();
    assert_eq!(plan.to_start.len(), 1);
    let m = plan.to_start[0];
    assert_eq!(m.local_bind, SockAddrV4 { ip: Ipv4Address { o0: 127, o1: 0, o2: 0, o3: 1 }, port: local_port });
    assert_eq!(m.target_address.port, target_port);
    assert!(!plan.exit);

    // The handler binds and accepts one connection.
    let mut h = Handler::new(m);
    assert_eq!(h.step(HandlerEvent::BindSucceeded), HandlerAction::AwaitNext);
    assert_eq!(h.step(HandlerEvent::Accepted), HandlerAction::SpawnConnection);

    // Non-transparent mapping: the upstream is dialled directly.
    let client = SockAddrV4 { ip: Ipv4Address { o0: 127, o1: 0, o2: 0, o3: 1 }, port: 41000 };
    assert_eq!(dial_plan(Some(client), &m), DialPlan::Direct);

    // "boop\n" goes client -> upstream, the echo comes back unmodified.
    let mut to_upstream = RelayDirection::new();
    let mut to_client = RelayDirection::new();
    let sent = b"boop\n";
    let forwarded = to_upstream.on_read(sent, sent.len()).unwrap();
    assert_eq!(forwarded, b"boop\n".to_vec());
    let reply = echo(&forwarded);
    let echoed = to_client.on_read(&reply, reply.len()).unwrap();
    assert_eq!(echoed, b"boop\n".to_vec());

    // The desired state flips to should_exit; the next pass stops the
    // mapping and reports exit.
    let d1 = DesiredState::from_config(&config(local_port, "127.0.0.1:5000", true)).unwrap();
    ctl.observe(Some(d1));
    let plan = ctl.tick();
    assert!(plan.to_start.is_empty());
    assert_eq!(plan.to_stop.len(), 1);
    assert_eq!(plan.to_stop[0].mapping, m);
    assert!(plan.exit);
    assert!(ctl.proxies.is_empty());

    // Cancellation reaches the handler while one connection is open: it
    // stops accepting but does not return yet.
    assert_eq!(h.step(HandlerEvent::Cancelled), HandlerAction::WaitConnections);
    assert_eq!(h.phase, HandlerPhase::Draining);

    // The connection opened before the flip still echoes.
    let sent = b"boopboop\n";
    let forwarded = to_upstream.on_read(sent, sent.len()).unwrap();
    let reply = echo(&forwarded);
    let echoed = to_client.on_read(&reply, reply.len()).unwrap();
    assert_eq!(echoed, b"boopboop\n".to_vec());

    // The client closes; the open connection finishes; the handler returns.
    assert_eq!(to_upstream.on_read(b"", 0), None);
    assert_eq!(h.step(HandlerEvent::ConnFinished), HandlerAction::ReturnSuccess);
    assert_eq!(h.phase, HandlerPhase::Done);

    // The controller has exited and performs no further passes.
    assert!(ctl.exited);
}
