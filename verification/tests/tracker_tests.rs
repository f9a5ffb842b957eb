use libtw2::addr::{addr_less, Addr, IpAddr, ProtocolVersion, ServerAddr};
use libtw2::json;
use libtw2::protocol;
use libtw2::tracker_json::{next_writeout, Ipv4Network, LocationRecord, ServerEntry, ServerTable, Tracker, WriteoutStep};

fn v4(a: u8, b: u8, c: u8, d: u8) -> u32 {
    u32::from_be_bytes([a, b, c, d])
}

fn addr4(ip: u32, port: u16) -> Addr {
    Addr { ip_address: IpAddr::V4(ip), port }
}

fn raw_info(name: &str) -> protocol::ServerInfo {
    protocol::ServerInfo {
        version: b"0.6.4".to_vec(),
        name: name.as_bytes().to_vec(),
        map: b"dm1".to_vec(),
        game_type: b"DM".to_vec(),
        flags: 1,
        max_players: 8,
        max_clients: 16,
        clients: vec![protocol::ClientInfo {
            name: b"nameless tee".to_vec(),
            clan: b"".to_vec(),
            country: -1,
            score: 3,
            is_player: 1,
        }],
    }
}

fn locations() -> Vec<LocationRecord> {
    vec![
        LocationRecord { network: Ipv4Network::new(v4(192, 168, 0, 0), 16).unwrap(), location: "eu:de".to_string() },
        LocationRecord { network: Ipv4Network::new(v4(192, 0, 0, 0), 8).unwrap(), location: "na:us".to_string() },
    ]
}

#[test]
fn network_rejects_long_prefix() {
    assert!(Ipv4Network::new(0, 33).is_none());
    let n = Ipv4Network::new(v4(10, 1, 2, 3), 32).unwrap();
    assert_eq!(n.addr(), v4(10, 1, 2, 3));
    assert_eq!(n.prefix_len(), 32);
}

#[test]
fn network_contains() {
    let n = Ipv4Network::new(v4(192, 168, 12, 34), 16).unwrap();
    assert!(n.contains(v4(192, 168, 0, 0)));
    assert!(n.contains(v4(192, 168, 255, 255)));
    assert!(!n.contains(v4(192, 169, 0, 0)));
    let all = Ipv4Network::new(v4(1, 2, 3, 4), 0).unwrap();
    assert!(all.contains(0));
    assert!(all.contains(u32::MAX));
    let one = Ipv4Network::new(v4(1, 2, 3, 4), 32).unwrap();
    assert!(one.contains(v4(1, 2, 3, 4)));
    assert!(!one.contains(v4(1, 2, 3, 5)));
}

#[test]
fn lookup_location_first_match() {
    let t = Tracker::new("servers.json".to_string(), locations());
    let at = |ip: u32| ServerAddr::new(ProtocolVersion::V6, addr4(ip, 8303));
    assert_eq!(t.lookup_location(at(v4(192, 168, 1, 1))), Some("eu:de".to_string()));
    assert_eq!(t.lookup_location(at(v4(192, 1, 1, 1))), Some("na:us".to_string()));
    assert_eq!(t.lookup_location(at(v4(10, 0, 0, 1))), None);
    let six = ServerAddr::new(ProtocolVersion::V6, Addr { ip_address: IpAddr::V6(1), port: 8303 });
    assert_eq!(t.lookup_location(six), None);
}

#[test]
fn tracker_records_new_server() {
    let mut t = Tracker::new("servers.json".to_string(), locations());
    let a = ServerAddr::new(ProtocolVersion::V6, addr4(v4(192, 168, 1, 1), 8303));
    t.on_server_new(a, &raw_info("My Server"));
    let e = t.servers.get(&a).unwrap();
    assert_eq!(e.location, Some("eu:de".to_string()));
    let info = e.info.as_ref().unwrap();
    assert_eq!(info.name, "My Server");
    assert!(info.passworded);
    assert_eq!(info.clients.len(), 1);
    assert!(info.clients[0].is_player);
}

#[test]
fn tracker_change_keeps_location() {
    let mut t = Tracker::new("servers.json".to_string(), locations());
    let a = ServerAddr::new(ProtocolVersion::V7, addr4(v4(192, 168, 1, 1), 8303));
    let first = raw_info("first");
    t.on_server_new(a, &first);
    let mut bad = raw_info("second");
    bad.name = vec![0xff, 0xfe];
    t.on_server_change(a, &first, &bad);
    let e = t.servers.get(&a).unwrap();
    assert_eq!(e.location, Some("eu:de".to_string()));
    assert!(e.info.is_none());
    t.on_server_change(a, &bad, &raw_info("third"));
    assert_eq!(t.servers.get(&a).unwrap().info.as_ref().unwrap().name, "third");
}

#[test]
fn tracker_new_then_remove() {
    let mut t = Tracker::new("servers.json".to_string(), Vec::new());
    let a = ServerAddr::new(ProtocolVersion::V5, addr4(1, 1));
    let b = ServerAddr::new(ProtocolVersion::V6, addr4(1, 1));
    t.on_server_new(a, &raw_info("a"));
    t.on_server_new(b, &raw_info("b"));
    t.on_server_remove(a, &raw_info("a"));
    assert!(!t.servers.contains_key(&a));
    assert!(t.servers.contains_key(&b));
    t.on_server_remove(b, &raw_info("b"));
    assert!(!t.servers.contains_key(&b));
}

#[test]
fn known_addrs_sorted_without_repeats() {
    let mut table = ServerTable::new();
    let entry = || ServerEntry { location: None, info: None };
    table.insert_new(ServerAddr::new(ProtocolVersion::V5, addr4(9, 1)), entry());
    table.insert_new(ServerAddr::new(ProtocolVersion::V6, Addr { ip_address: IpAddr::V6(5), port: 1 }), entry());
    table.insert_new(ServerAddr::new(ProtocolVersion::V7, addr4(9, 1)), entry());
    table.insert_new(ServerAddr::new(ProtocolVersion::V6, addr4(2, 7)), entry());
    table.insert_new(ServerAddr::new(ProtocolVersion::V6, addr4(2, 3)), entry());
    assert_eq!(
        table.known_addrs(),
        vec![addr4(2, 3), addr4(2, 7), addr4(9, 1), Addr { ip_address: IpAddr::V6(5), port: 1 }]
    );
}

#[test]
fn addr_order() {
    assert!(addr_less(&addr4(1, 9), &addr4(2, 1)));
    assert!(addr_less(&addr4(1, 1), &addr4(1, 2)));
    assert!(!addr_less(&addr4(1, 2), &addr4(1, 2)));
    assert!(addr_less(&addr4(u32::MAX, 9), &Addr { ip_address: IpAddr::V6(0), port: 0 }));
}

#[test]
fn master_servers_published_list() {
    let mut table = ServerTable::new();
    let a = addr4(v4(5, 6, 7, 8), 8303);
    let b = addr4(v4(1, 2, 3, 4), 8303);
    let info = |n: &str| json::ServerInfo::try_from(&raw_info(n)).ok();
    table.insert_new(ServerAddr::new(ProtocolVersion::V7, a), ServerEntry { location: None, info: info("a7") });
    table.insert_new(ServerAddr::new(ProtocolVersion::V5, a), ServerEntry { location: Some("x".to_string()), info: info("a5") });
    table.insert_new(ServerAddr::new(ProtocolVersion::V6, a), ServerEntry { location: Some("eu:de".to_string()), info: info("a6") });
    // known at b only in a protocol whose description does not convert
    table.insert_new(ServerAddr::new(ProtocolVersion::V5, b), ServerEntry { location: None, info: None });
    let c = addr4(v4(9, 9, 9, 9), 1);
    table.insert_new(ServerAddr::new(ProtocolVersion::V5, c), ServerEntry { location: None, info: info("c5") });
    table.insert_new(ServerAddr::new(ProtocolVersion::V7, c), ServerEntry { location: None, info: info("c7") });

    let servers = table.master_servers();
    assert_eq!(servers.len(), 2);
    assert_eq!(
        servers[0].addresses,
        vec![
            json::Addr(ServerAddr::new(ProtocolVersion::V5, a)),
            json::Addr(ServerAddr::new(ProtocolVersion::V6, a)),
            json::Addr(ServerAddr::new(ProtocolVersion::V7, a)),
        ]
    );
    assert_eq!(servers[0].location, Some("eu:de".to_string()));
    assert_eq!(servers[0].info.name, "a6");
    assert_eq!(
        servers[1].addresses,
        vec![
            json::Addr(ServerAddr::new(ProtocolVersion::V5, c)),
            json::Addr(ServerAddr::new(ProtocolVersion::V7, c)),
        ]
    );
    assert_eq!(servers[1].info.name, "c7");
    let master = json::MasterInfo { servers: &servers };
    assert_eq!(master.servers.len(), 2);
}

#[test]
fn writeout_schedule() {
    assert_eq!(next_writeout(3, 250_000_000, 3), WriteoutStep { sleep_nanos: Some(750_000_000), iteration: 4 });
    assert_eq!(next_writeout(0, 0, 0), WriteoutStep { sleep_nanos: Some(1_000_000_000), iteration: 1 });
    assert_eq!(next_writeout(7, 10, 4), WriteoutStep { sleep_nanos: None, iteration: 7 });
}
