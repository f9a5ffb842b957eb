//! Server information as the server browser receives it: raw bytes for
//! the texts, integers for the rest.

use vstd::prelude::*;

verus! {

/// The bit of `ServerInfo::flags` that marks a server with a password.
pub const SERVERINFO_FLAG_PASSWORDED: i32 = 1;

/// A player or spectator on a server.
#[derive(Debug)]
pub struct ClientInfo {
    pub name: Vec<u8>,
    pub clan: Vec<u8>,
    pub country: i32,
    pub score: i32,
    pub is_player: i32,
}

/// What a server says of itself.
#[derive(Debug)]
pub struct ServerInfo {
    pub version: Vec<u8>,
    pub name: Vec<u8>,
    pub map: Vec<u8>,
    pub game_type: Vec<u8>,
    pub flags: i32,
    pub max_players: i32,
    pub max_clients: i32,
    pub clients: Vec<ClientInfo>,
}

} // verus!
