//! The server list as it is published: texts checked to be UTF-8 and to
//! fit their fixed capacities.

use vstd::prelude::*;
use vstd::utf8::{decode_utf8, encode_utf8_decode_utf8, valid_utf8};
use vstd::string::StringSliceAdditionalSpecFns;
use crate::addr::{ProtocolVersion, ServerAddr};
use crate::protocol;

verus! {

/// The byte capacity of a client's name and of its clan.
pub const CLIENT_TEXT_CAPACITY: usize = 16;

/// The byte capacity of a server's game type.
pub const GAME_TYPE_CAPACITY: usize = 16;

/// The byte capacity of a server's name.
pub const SERVER_NAME_CAPACITY: usize = 64;

/// The byte capacity of a map's name.
pub const MAP_NAME_CAPACITY: usize = 32;

/// The byte capacity of a server's version.
pub const VERSION_CAPACITY: usize = 32;

/// A server address as published: the scheme of its protocol and the
/// address.
#[derive(Clone, Copy, Debug, PartialEq, Eq, Structural)]
pub struct Addr(pub ServerAddr);

/// The scheme under which an address of a protocol version is published.
pub open spec fn spec_scheme(version: ProtocolVersion) -> Seq<char> {
    match version {
        ProtocolVersion::V5 => "tw-0.5+udp://"@,
        ProtocolVersion::V6 => "tw-0.6+udp://"@,
        ProtocolVersion::V7 => "tw-0.7+udp://"@,
    }
}

/// The scheme under which an address of `version` is published; the
/// address itself follows it.
pub fn scheme(version: ProtocolVersion) -> (res: &'static str)
    ensures
        res@ == spec_scheme(version),
{
    match version {
        ProtocolVersion::V5 => "tw-0.5+udp://",
        ProtocolVersion::V6 => "tw-0.6+udp://",
        ProtocolVersion::V7 => "tw-0.7+udp://",
    }
}

/// A text was not UTF-8 or did not fit its capacity.
#[derive(Clone, Copy, Debug, PartialEq, Eq, Structural)]
pub struct Error;

/// A published player or spectator.
#[derive(Debug)]
pub struct ClientInfo {
    pub name: String,
    pub clan: String,
    pub country: i32,
    pub score: i32,
    pub is_player: bool,
}

/// A published map.
#[derive(Debug)]
pub struct MapInfo {
    pub name: String,
}

/// A published server description.
#[derive(Debug)]
pub struct ServerInfo {
    pub max_clients: i32,
    pub max_players: i32,
    pub passworded: bool,
    pub game_type: String,
    pub name: String,
    pub map: MapInfo,
    pub version: String,
    pub clients: Vec<ClientInfo>,
}

/// A published client, as mathematics.
pub struct ClientInfoView {
    pub name: Seq<char>,
    pub clan: Seq<char>,
    pub country: i32,
    pub score: i32,
    pub is_player: bool,
}

/// A published server description, as mathematics.
pub struct ServerInfoView {
    pub max_clients: i32,
    pub max_players: i32,
    pub passworded: bool,
    pub game_type: Seq<char>,
    pub name: Seq<char>,
    pub map_name: Seq<char>,
    pub version: Seq<char>,
    pub clients: Seq<ClientInfoView>,
}

impl View for ClientInfo {
    type V = ClientInfoView;

    open spec fn view(&self) -> ClientInfoView {
        ClientInfoView {
            name: self.name@,
            clan: self.clan@,
            country: self.country,
            score: self.score,
            is_player: self.is_player,
        }
    }
}

impl View for ServerInfo {
    type V = ServerInfoView;

    open spec fn view(&self) -> ServerInfoView {
        ServerInfoView {
            max_clients: self.max_clients,
            max_players: self.max_players,
            passworded: self.passworded,
            game_type: self.game_type@,
            name: self.name@,
            map_name: self.map.name@,
            version: self.version@,
            clients: self.clients@.map_values(|c: ClientInfo| c@),
        }
    }
}

/// A published server: its addresses, its location and its description.
#[derive(Debug)]
pub struct Server<'a> {
    pub addresses: Vec<Addr>,
    pub location: Option<String>,
    pub info: &'a ServerInfo,
}

/// The published server list.
#[derive(Debug)]
pub struct MasterInfo<'a> {
    pub servers: &'a [Server<'a>],
}

/// The text of `bytes` where they are UTF-8 and at most `capacity` bytes
/// long.
pub open spec fn spec_text(bytes: Seq<u8>, capacity: nat) -> Option<Seq<char>> {
    if valid_utf8(bytes) && bytes.len() <= capacity {
        Some(decode_utf8(bytes))
    } else {
        None
    }
}

/// `std::str::from_utf8`: it accepts exactly the valid UTF-8 byte
/// sequences, and the string it gives is made of those same bytes.
#[verifier::external_body]
fn str_from_utf8(v: &[u8]) -> (res: Option<&str>)
    ensures
        res is Some <==> valid_utf8(v@),
        res matches Some(s) ==> s.spec_bytes() == v@,
{
    std::str::from_utf8(v).ok()
}

/// The text of `bytes`, which must be UTF-8 and fit into `capacity` bytes.
pub fn s(bytes: &[u8], capacity: usize) -> (res: Result<String, Error>)
    ensures
        match spec_text(bytes@, capacity as nat) {
            Some(t) => res matches Ok(r) && r@ == t,
            None => res == Err::<String, Error>(Error),
        },
{
    let string = match str_from_utf8(bytes) {
        Some(string) => string,
        None => {
            return Err(Error);
        },
    };
    if bytes.len() > capacity {
        return Err(Error);
    }
    proof {
        encode_utf8_decode_utf8(string@);
    }
    let owned = string.to_owned();
    Ok(owned)
}

/// The published form of a client, where its texts convert.
pub open spec fn spec_client_info(c: protocol::ClientInfo) -> Option<ClientInfoView> {
    match (spec_text(c.name@, 16), spec_text(c.clan@, 16)) {
        (Some(name), Some(clan)) => Some(
            ClientInfoView {
                name,
                clan,
                country: c.country,
                score: c.score,
                is_player: c.is_player != 0,
            },
        ),
        _ => None,
    }
}

/// The published form of a server description, where all its texts and
/// all its clients convert.
pub open spec fn spec_server_info(i: protocol::ServerInfo) -> Option<ServerInfoView> {
    if spec_text(i.game_type@, 16) is Some && spec_text(i.name@, 64) is Some && spec_text(
        i.map@,
        32,
    ) is Some && spec_text(i.version@, 32) is Some && (forall|j: int|
        0 <= j < i.clients@.len() ==> (#[trigger] spec_client_info(i.clients@[j])) is Some) {
        Some(
            ServerInfoView {
                max_clients: i.max_clients,
                max_players: i.max_players,
                passworded: i.flags & protocol::SERVERINFO_FLAG_PASSWORDED != 0,
                game_type: spec_text(i.game_type@, 16).unwrap(),
                name: spec_text(i.name@, 64).unwrap(),
                map_name: spec_text(i.map@, 32).unwrap(),
                version: spec_text(i.version@, 32).unwrap(),
                clients: i.clients@.map_values(
                    |c: protocol::ClientInfo| spec_client_info(c).unwrap(),
                ),
            },
        )
    } else {
        None
    }
}

/// The capacities are those of the published fields: 16 bytes for a
/// client's name and clan and for a game type, 64 for a server's name, 32
/// for a map's name and for a version.
pub proof fn lemma_text_capacities()
    ensures
        CLIENT_TEXT_CAPACITY == 16,
        GAME_TYPE_CAPACITY == 16,
        SERVER_NAME_CAPACITY == 64,
        MAP_NAME_CAPACITY == 32,
        VERSION_CAPACITY == 32,
{
}

/// A text converts where its bytes are UTF-8 and fit its capacity, and
/// then it is the text those bytes encode.
pub open spec fn text_converts(bytes: Seq<u8>, capacity: usize) -> bool {
    valid_utf8(bytes) && bytes.len() <= capacity
}

/// A client converts exactly where its name and clan are UTF-8 of at most
/// `CLIENT_TEXT_CAPACITY` bytes; its published form then holds the decoded
/// texts, its country and score, and whether it is a player.
pub proof fn lemma_client_info_conversion(c: protocol::ClientInfo)
    ensures
        spec_client_info(c) is Some <==> (text_converts(c.name@, CLIENT_TEXT_CAPACITY)
            && text_converts(c.clan@, CLIENT_TEXT_CAPACITY)),
        spec_client_info(c) matches Some(v) ==> {
            &&& v.name == decode_utf8(c.name@)
            &&& v.clan == decode_utf8(c.clan@)
            &&& v.country == c.country
            &&& v.score == c.score
            &&& v.is_player == (c.is_player != 0)
        },
{
}

/// A server description converts exactly where its game type, name, map
/// and version are UTF-8 within their capacities and every client
/// converts; its published form then holds the decoded texts, the same
/// numbers, the password flag and the clients in order.
pub proof fn lemma_server_info_conversion(i: protocol::ServerInfo)
    ensures
        spec_server_info(i) is Some <==> {
            &&& text_converts(i.game_type@, GAME_TYPE_CAPACITY)
            &&& text_converts(i.name@, SERVER_NAME_CAPACITY)
            &&& text_converts(i.map@, MAP_NAME_CAPACITY)
            &&& text_converts(i.version@, VERSION_CAPACITY)
            &&& forall|j: int|
                0 <= j < i.clients@.len() ==> text_converts(
                    (#[trigger] i.clients@[j]).name@,
                    CLIENT_TEXT_CAPACITY,
                ) && text_converts(i.clients@[j].clan@, CLIENT_TEXT_CAPACITY)
        },
        spec_server_info(i) matches Some(v) ==> {
            &&& v.game_type == decode_utf8(i.game_type@)
            &&& v.name == decode_utf8(i.name@)
            &&& v.map_name == decode_utf8(i.map@)
            &&& v.version == decode_utf8(i.version@)
            &&& v.max_clients == i.max_clients
            &&& v.max_players == i.max_players
            &&& v.passworded == (i.flags & 1 != 0)
            &&& v.clients.len() == i.clients@.len()
            &&& forall|j: int|
                0 <= j < i.clients@.len() ==> {
                    &&& (#[trigger] v.clients[j]).name == decode_utf8(i.clients@[j].name@)
                    &&& v.clients[j].clan == decode_utf8(i.clients@[j].clan@)
                    &&& v.clients[j].country == i.clients@[j].country
                    &&& v.clients[j].score == i.clients@[j].score
                    &&& v.clients[j].is_player == (i.clients@[j].is_player != 0)
                }
        },
{
    let all_clients = forall|j: int|
        0 <= j < i.clients@.len() ==> (#[trigger] spec_client_info(i.clients@[j])) is Some;
    assert(all_clients <==> forall|j: int|
        0 <= j < i.clients@.len() ==> text_converts(
            (#[trigger] i.clients@[j]).name@,
            CLIENT_TEXT_CAPACITY,
        ) && text_converts(i.clients@[j].clan@, CLIENT_TEXT_CAPACITY)) by {
        assert forall|j: int| 0 <= j < i.clients@.len() implies (spec_client_info(
            i.clients@[j],
        ) is Some <==> (text_converts(i.clients@[j].name@, CLIENT_TEXT_CAPACITY)
            && text_converts(i.clients@[j].clan@, CLIENT_TEXT_CAPACITY))) by {
            lemma_client_info_conversion(i.clients@[j]);
        }
    }
    if spec_server_info(i) is Some {
        let v = spec_server_info(i).unwrap();
        assert forall|j: int| 0 <= j < i.clients@.len() implies {
            &&& (#[trigger] v.clients[j]).name == decode_utf8(i.clients@[j].name@)
            &&& v.clients[j].clan == decode_utf8(i.clients@[j].clan@)
            &&& v.clients[j].country == i.clients@[j].country
            &&& v.clients[j].score == i.clients@[j].score
            &&& v.clients[j].is_player == (i.clients@[j].is_player != 0)
        } by {
            lemma_client_info_conversion(i.clients@[j]);
            assert(spec_client_info(i.clients@[j]) is Some);
        }
    }
}

impl ClientInfo {
    /// Converts a client as received into its published form.
    pub fn try_from(i: &protocol::ClientInfo) -> (res: Result<ClientInfo, Error>)
        ensures
            match spec_client_info(*i) {
                Some(v) => res matches Ok(r) && r@ == v,
                None => res == Err::<ClientInfo, Error>(Error),
            },
    {
        let name = match s(i.name.as_slice(), CLIENT_TEXT_CAPACITY) {
            Ok(t) => t,
            Err(e) => {
                return Err(e);
            },
        };
        let clan = match s(i.clan.as_slice(), CLIENT_TEXT_CAPACITY) {
            Ok(t) => t,
            Err(e) => {
                return Err(e);
            },
        };
        Ok(
            ClientInfo {
                name,
                clan,
                country: i.country,
                score: i.score,
                is_player: i.is_player != 0,
            },
        )
    }
}

impl ServerInfo {
    /// Converts a server description as received into its published
    /// form; it fails where any of its texts or any of its clients does.
    pub fn try_from(i: &protocol::ServerInfo) -> (res: Result<ServerInfo, Error>)
        ensures
            match spec_server_info(*i) {
                Some(v) => res matches Ok(r) && r@ == v,
                None => res == Err::<ServerInfo, Error>(Error),
            },
    {
        let game_type = match s(i.game_type.as_slice(), GAME_TYPE_CAPACITY) {
            Ok(t) => t,
            Err(e) => {
                return Err(e);
            },
        };
        let name = match s(i.name.as_slice(), SERVER_NAME_CAPACITY) {
            Ok(t) => t,
            Err(e) => {
                return Err(e);
            },
        };
        let map_name = match s(i.map.as_slice(), MAP_NAME_CAPACITY) {
            Ok(t) => t,
            Err(e) => {
                return Err(e);
            },
        };
        let version = match s(i.version.as_slice(), VERSION_CAPACITY) {
            Ok(t) => t,
            Err(e) => {
                return Err(e);
            },
        };
        let mut clients: Vec<ClientInfo> = Vec::with_capacity(i.clients.len());
        let mut k: usize = 0;
        while k < i.clients.len()
            invariant
                k <= i.clients@.len(),
                clients@.len() == k,
                forall|j: int|
                    0 <= j < k ==> (#[trigger] spec_client_info(i.clients@[j])) is Some,
                forall|j: int|
                    0 <= j < k ==> #[trigger] clients@[j]@ == spec_client_info(
                        i.clients@[j],
                    ).unwrap(),
            decreases i.clients@.len() - k,
        {
            let c = match ClientInfo::try_from(&i.clients[k]) {
                Ok(c) => c,
                Err(e) => {
                    return Err(e);
                },
            };
            clients.push(c);
            k = k + 1;
        }
        let res = ServerInfo {
            max_clients: i.max_clients,
            max_players: i.max_players,
            passworded: i.flags & protocol::SERVERINFO_FLAG_PASSWORDED != 0,
            game_type,
            name,
            map: MapInfo { name: map_name },
            version,
            clients,
        };
        assert(res@.clients =~= i.clients@.map_values(
            |c: protocol::ClientInfo| spec_client_info(c).unwrap(),
        ));
        Ok(res)
    }
}

} // verus!
