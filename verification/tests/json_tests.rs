use libtw2::addr::ProtocolVersion;
use libtw2::json::{s, scheme, ClientInfo, Error, ServerInfo};
use libtw2::protocol;

#[test]
fn text_conversion() {
    assert_eq!(s(b"hello", 16), Ok("hello".to_string()));
    assert_eq!(s("grüße".as_bytes(), 7), Ok("grüße".to_string()));
    assert_eq!(s("grüße".as_bytes(), 6), Err(Error));
    assert_eq!(s(&[0xff], 16), Err(Error));
    assert_eq!(s(b"", 0), Ok(String::new()));
    assert_eq!(s(&[b'a'; 16], 16), Ok("a".repeat(16)));
    assert_eq!(s(&[b'a'; 17], 16), Err(Error));
}

#[test]
fn schemes() {
    assert_eq!(scheme(ProtocolVersion::V5), "tw-0.5+udp://");
    assert_eq!(scheme(ProtocolVersion::V6), "tw-0.6+udp://");
    assert_eq!(scheme(ProtocolVersion::V7), "tw-0.7+udp://");
}

fn client(name: &[u8], is_player: i32) -> protocol::ClientInfo {
    protocol::ClientInfo { name: name.to_vec(), clan: b"clan".to_vec(), country: 276, score: -2, is_player }
}

#[test]
fn client_conversion() {
    let c = ClientInfo::try_from(&client(b"tee", 0)).unwrap();
    assert_eq!(c.name, "tee");
    assert_eq!(c.clan, "clan");
    assert_eq!(c.country, 276);
    assert_eq!(c.score, -2);
    assert!(!c.is_player);
    assert!(ClientInfo::try_from(&client(b"tee", 5)).unwrap().is_player);
    assert!(ClientInfo::try_from(&client(&[b'x'; 17], 1)).is_err());
}

fn server(clients: Vec<protocol::ClientInfo>, flags: i32) -> protocol::ServerInfo {
    protocol::ServerInfo {
        version: b"0.7.5".to_vec(),
        name: b"server".to_vec(),
        map: b"ctf5".to_vec(),
        game_type: b"CTF".to_vec(),
        flags,
        max_players: 12,
        max_clients: 16,
        clients,
    }
}

#[test]
fn server_conversion() {
    let i = ServerInfo::try_from(&server(vec![client(b"a", 1), client(b"b", 0)], 2)).unwrap();
    assert_eq!(i.version, "0.7.5");
    assert_eq!(i.name, "server");
    assert_eq!(i.map.name, "ctf5");
    assert_eq!(i.game_type, "CTF");
    assert!(!i.passworded);
    assert_eq!(i.max_players, 12);
    assert_eq!(i.max_clients, 16);
    assert_eq!(i.clients.len(), 2);
    assert_eq!(i.clients[1].name, "b");
    assert!(ServerInfo::try_from(&server(vec![], 3)).unwrap().passworded);
}

#[test]
fn server_conversion_failures() {
    assert!(ServerInfo::try_from(&server(vec![client(b"a", 1), client(&[0xc3], 0)], 0)).is_err());
    let mut long = server(vec![], 0);
    long.game_type = vec![b'g'; 17];
    assert!(ServerInfo::try_from(&long).is_err());
    let mut long = server(vec![], 0);
    long.name = vec![b'n'; 65];
    assert!(ServerInfo::try_from(&long).is_err());
    let mut ok = server(vec![], 0);
    ok.name = vec![b'n'; 64];
    assert!(ServerInfo::try_from(&ok).is_ok());
}
