use stargate::config::{Config, IntMapping, Mapping};
use stargate::net::{Ipv4Address, SockAddrV4};
use stargate::reconcile::{Controller, DesiredState};

fn ip(o0: u8, o1: u8, o2: u8, o3: u8) -> Ipv4Address {
    Ipv4Address { o0, o1, o2, o3 }
}

fn int_mapping(bind_port: u16, target_last_octet: u8) -> IntMapping {
    IntMapping {
        local_bind: SockAddrV4 { ip: ip(192, 168, 0, 1), port: bind_port },
        target_address: SockAddrV4 { ip: ip(10, 0, 0, target_last_octet), port: 8080 },
        transparent: false,
        manage_iptables: false,
        hairpin_net: None,
    }
}

fn desired(mappings: Vec<IntMapping>, should_exit: bool) -> DesiredState {
    DesiredState { resolved_mappings: mappings, transparent: false, manage_iptables: false, should_exit }
}

#[test]
fn first_tick_starts_everything() {
    let d = desired(vec![int_mapping(80, 1), int_mapping(81, 2)], false);
    let mut ctl = Controller::new(d);
    let plan = ctl.tick();
    assert_eq!(plan.to_start.len(), 2);
    assert!(plan.to_stop.is_empty());
    assert!(!plan.exit);
    assert_eq!(ctl.proxies.len(), 2);
    assert_eq!(ctl.proxies[0].mapping, int_mapping(80, 1));
    assert!(!ctl.proxies[0].managed);
}

#[test]
fn unchanged_state_is_idempotent() {
    // Reconciliation idempotence: re-reading an unchanged desired state
    // starts and stops nothing.
    let d = desired(vec![int_mapping(80, 1), int_mapping(81, 2)], false);
    let mut ctl = Controller::new(d.clone());
    let _ = ctl.tick();
    let before = ctl.proxies.clone();
    ctl.observe(Some(d));
    let plan = ctl.tick();
    assert!(plan.to_start.is_empty());
    assert!(plan.to_stop.is_empty());
    assert!(!plan.exit);
    assert_eq!(ctl.proxies, before);
}

#[test]
fn removed_key_is_stopped() {
    let mut ctl = Controller::new(desired(vec![int_mapping(80, 1), int_mapping(81, 2)], false));
    let _ = ctl.tick();
    ctl.observe(Some(desired(vec![int_mapping(80, 1)], false)));
    let plan = ctl.tick();
    assert!(plan.to_start.is_empty());
    assert_eq!(plan.to_stop.len(), 1);
    assert_eq!(plan.to_stop[0].mapping, int_mapping(81, 2));
    assert_eq!(ctl.proxies.len(), 1);
}

#[test]
fn changed_target_same_key_restarts() {
    // The change signal is the full resolved mapping: a changed target
    // under an unchanged key is stopped and re-added, not updated in place.
    let mut ctl = Controller::new(desired(vec![int_mapping(80, 1)], false));
    let _ = ctl.tick();
    ctl.observe(Some(desired(vec![int_mapping(80, 9)], false)));
    let plan = ctl.tick();
    assert_eq!(plan.to_stop.len(), 1);
    assert_eq!(plan.to_stop[0].mapping, int_mapping(80, 1));
    assert_eq!(plan.to_start.len(), 1);
    assert_eq!(plan.to_start[0], int_mapping(80, 9));
    assert_eq!(ctl.proxies.len(), 1);
    assert_eq!(ctl.proxies[0].mapping, int_mapping(80, 9));
}

#[test]
fn failed_read_keeps_previous_state() {
    let mut ctl = Controller::new(desired(vec![int_mapping(80, 1)], false));
    let _ = ctl.tick();
    ctl.observe(None);
    let plan = ctl.tick();
    assert!(plan.to_start.is_empty());
    assert!(plan.to_stop.is_empty());
    assert_eq!(ctl.proxies.len(), 1);
}

#[test]
fn shutdown_stops_all_and_exits() {
    // Shutdown terminality: once `should_exit` is observed, everything is
    // stopped, the running set empties, and the controller reports exit.
    let mut ctl = Controller::new(desired(vec![int_mapping(80, 1), int_mapping(81, 2)], false));
    let _ = ctl.tick();
    ctl.observe(Some(desired(vec![int_mapping(80, 1), int_mapping(81, 2)], true)));
    let plan = ctl.tick();
    assert!(plan.to_start.is_empty());
    assert_eq!(plan.to_stop.len(), 2);
    assert!(plan.exit);
    assert!(ctl.proxies.is_empty());
    assert!(ctl.exited);
}

#[test]
fn managed_flag_follows_global_flags() {
    let mut m = int_mapping(80, 1);
    m.transparent = true;
    m.manage_iptables = true;
    let d = DesiredState {
        resolved_mappings: vec![m],
        transparent: true,
        manage_iptables: true,
        should_exit: false,
    };
    assert!(d.routing_managed());
    let mut ctl = Controller::new(d);
    let _ = ctl.tick();
    assert!(ctl.proxies[0].managed);
}

#[test]
fn from_config_builds_desired_state() {
    let c = Config {
        mappings: vec![Mapping {
            local_port: 80,
            target_address: String::from("10.0.0.1:8080"),
            hairpin_net: None,
        }],
        transparent: true,
        manage_iptables: false,
        should_exit: false,
        bind_addrs: vec![String::from("192.168.0.1")],
    };
    let d = DesiredState::from_config(&c).unwrap();
    assert_eq!(d.resolved_mappings.len(), 1);
    assert!(d.transparent);
    assert!(!d.manage_iptables);
    assert!(!d.should_exit);
    assert!(!d.routing_managed());
}

#[test]
fn same_as_is_structural() {
    let a = desired(vec![int_mapping(80, 1)], false);
    let b = desired(vec![int_mapping(80, 1)], false);
    let c = desired(vec![int_mapping(80, 2)], false);
    let e = desired(vec![int_mapping(80, 1)], true);
    assert!(a.same_as(&b));
    assert!(!a.same_as(&c));
    assert!(!a.same_as(&e));
}
