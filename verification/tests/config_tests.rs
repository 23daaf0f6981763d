use stargate::config::{Config, ConfigError, IntMapping, Mapping};
use stargate::net::{Ipv4Address, Ipv4Cidr, SockAddrV4};

fn ip(o0: u8, o1: u8, o2: u8, o3: u8) -> Ipv4Address {
    Ipv4Address { o0, o1, o2, o3 }
}

fn mapping(local_port: u16, target: &str) -> Mapping {
    Mapping { local_port, target_address: String::from(target), hairpin_net: None }
}

fn base_config(mappings: Vec<Mapping>, bind_addrs: Vec<&str>) -> Config {
    Config {
        mappings,
        transparent: false,
        manage_iptables: false,
        should_exit: false,
        bind_addrs: bind_addrs.into_iter().map(String::from).collect(),
    }
}

#[test]
fn cross_product_order() {
    let c = base_config(
        vec![mapping(80, "10.0.0.1:8080"), mapping(81, "10.0.0.2:8081")],
        vec!["192.168.0.1", "192.168.0.2"],
    );
    let v = c.to_int_mappings().unwrap();
    assert_eq!(v.len(), 4);
    let keys: Vec<(Ipv4Address, u16)> = v.iter().map(|m| (m.local_bind.ip, m.local_bind.port)).collect();
    assert_eq!(
        keys,
        vec![
            (ip(192, 168, 0, 1), 80),
            (ip(192, 168, 0, 2), 80),
            (ip(192, 168, 0, 1), 81),
            (ip(192, 168, 0, 2), 81),
        ]
    );
    assert_eq!(v[0].target_address, SockAddrV4 { ip: ip(10, 0, 0, 1), port: 8080 });
    assert_eq!(v[2].target_address, SockAddrV4 { ip: ip(10, 0, 0, 2), port: 8081 });
}

#[test]
fn flags_copied_uniformly() {
    let mut c = base_config(vec![mapping(80, "10.0.0.1:8080")], vec!["192.168.0.1"]);
    c.transparent = true;
    c.manage_iptables = true;
    let v = c.to_int_mappings().unwrap();
    assert!(v.iter().all(|m| m.transparent && m.manage_iptables));
}

#[test]
fn hairpin_parsed_into_mapping() {
    let mut m = mapping(80, "10.0.0.1:8080");
    m.hairpin_net = Some(String::from("172.16.0.0/12"));
    let c = base_config(vec![m], vec!["192.168.0.1"]);
    let v = c.to_int_mappings().unwrap();
    assert_eq!(v[0].hairpin_net, Some(Ipv4Cidr { addr: ip(172, 16, 0, 0), prefix_len: 12 }));
}

#[test]
fn duplicate_keys_last_wins() {
    // Two mappings share the local port, so both rows bind the same key;
    // the later one wins and keys come out unique.
    let c = base_config(
        vec![mapping(90, "10.0.0.1:80"), mapping(90, "10.0.0.2:80")],
        vec!["192.168.1.1"],
    );
    let v = c.to_int_mappings().unwrap();
    assert_eq!(v.len(), 1);
    assert_eq!(v[0].target_address, SockAddrV4 { ip: ip(10, 0, 0, 2), port: 80 });
}

#[test]
fn keys_unique_across_fanout() {
    // Duplicate bind addresses also collapse.
    let c = base_config(
        vec![mapping(90, "10.0.0.1:80")],
        vec!["192.168.1.1", "192.168.1.1", "192.168.1.2"],
    );
    let v = c.to_int_mappings().unwrap();
    let mut seen: Vec<SockAddrV4> = Vec::new();
    for m in &v {
        assert!(!seen.contains(&m.local_bind));
        seen.push(m.local_bind);
    }
    assert_eq!(v.len(), 2);
}

#[test]
fn error_invalid_hairpin() {
    let mut m = mapping(80, "10.0.0.1:8080");
    m.hairpin_net = Some(String::from("not-a-cidr"));
    let c = base_config(vec![m], vec!["bad-addr-too"]);
    // The hairpin string is scanned before the bind addresses.
    assert_eq!(c.to_int_mappings(), Err(ConfigError::InvalidHairpinNet));
}

#[test]
fn error_invalid_bind_addr() {
    let c = base_config(vec![mapping(80, "also-bad")], vec!["bad-addr"]);
    // The bind address is scanned before the target.
    assert_eq!(c.to_int_mappings(), Err(ConfigError::InvalidBindAddr));
}

#[test]
fn error_invalid_target() {
    let c = base_config(vec![mapping(80, "10.0.0.1:harbor")], vec!["192.168.0.1"]);
    assert_eq!(c.to_int_mappings(), Err(ConfigError::InvalidTargetAddress));
}

#[test]
fn empty_bind_addrs_yield_nothing() {
    // With no bind addresses nothing is expanded, and the target string is
    // never scanned.
    let c = base_config(vec![mapping(80, "unparsable")], vec![]);
    assert_eq!(c.to_int_mappings(), Ok(vec![]));
}

#[test]
fn empty_mappings_yield_nothing() {
    let c = base_config(vec![], vec!["bad-addr"]);
    assert_eq!(c.to_int_mappings(), Ok(vec![]));
}

#[test]
fn hairpin_membership() {
    let m = IntMapping {
        local_bind: SockAddrV4 { ip: ip(192, 168, 0, 1), port: 80 },
        target_address: SockAddrV4 { ip: ip(10, 0, 0, 1), port: 8080 },
        transparent: true,
        manage_iptables: true,
        hairpin_net: Some(Ipv4Cidr { addr: ip(172, 16, 0, 0), prefix_len: 12 }),
    };
    assert!(m.connection_is_hairpin(&ip(172, 31, 255, 255)));
    assert!(!m.connection_is_hairpin(&ip(172, 32, 0, 0)));
    let no_net = IntMapping { hairpin_net: None, ..m };
    assert!(!no_net.connection_is_hairpin(&ip(172, 16, 0, 1)));
}
