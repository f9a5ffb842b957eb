//! The tracker of the server list: where servers are, what they say of
//! themselves, and the list it publishes from that.

use vstd::prelude::*;
use crate::addr::{addr_less, addr_lt, addr_rank, lemma_addr_rank_injective, Addr, IpAddr, ProtocolVersion, ServerAddr};
use crate::json;
use crate::json::spec_server_info;
use crate::protocol;

verus! {

// ---------------------------------------------------------------------
// Locations
// ---------------------------------------------------------------------

/// The network mask of an IPv4 network of prefix length `prefix_len`.
pub open spec fn ipv4_netmask(prefix_len: u8) -> u32 {
    if prefix_len == 0 {
        0
    } else {
        0xffff_ffffu32 << ((32 - prefix_len) as u32)
    }
}

/// The host mask of an IPv4 network of prefix length `prefix_len`.
pub open spec fn ipv4_hostmask(prefix_len: u8) -> u32 {
    if prefix_len >= 32 {
        0
    } else {
        0xffff_ffffu32 >> (prefix_len as u32)
    }
}

/// Whether the network `addr/prefix_len` contains `ip`: `ip` lies between
/// the network address and the broadcast address.
pub open spec fn ipv4_net_contains(addr: u32, prefix_len: u8, ip: u32) -> bool {
    (addr & ipv4_netmask(prefix_len)) <= ip && ip <= (addr | ipv4_hostmask(prefix_len))
}

/// `ipnet::Ipv4Net::contains`, asked whether the network `addr/prefix_len`
/// contains the single-address network of `ip`: the network address of
/// the first is at most `ip` and its broadcast address at least `ip`.
#[verifier::external_body]
fn ipnet_contains(addr: u32, prefix_len: u8, ip: u32) -> (res: bool)
    requires
        prefix_len <= 32,
    ensures
        res == ipv4_net_contains(addr, prefix_len, ip),
{
    let net = ipnet::Ipv4Net::new(addr.into(), prefix_len).unwrap();
    let host = ipnet::Ipv4Net::new(ip.into(), 32).unwrap();
    net.contains(&host)
}

/// An IPv4 network: an address and a prefix length of at most 32.
#[derive(Clone, Copy, Debug)]
pub struct Ipv4Network {
    addr: u32,
    prefix_len: u8,
}

impl Ipv4Network {
    #[verifier::type_invariant]
    spec fn inv(self) -> bool {
        self.prefix_len <= 32
    }

    /// The address of the network.
    pub closed spec fn spec_addr(self) -> u32 {
        self.addr
    }

    /// The prefix length of the network.
    pub closed spec fn spec_prefix_len(self) -> u8 {
        self.prefix_len
    }

    /// Whether the network contains `ip`.
    pub open spec fn spec_contains(self, ip: u32) -> bool {
        ipv4_net_contains(self.spec_addr(), self.spec_prefix_len(), ip)
    }

    /// The network `addr/prefix_len`; none where the prefix length
    /// exceeds 32.
    pub fn new(addr: u32, prefix_len: u8) -> (res: Option<Ipv4Network>)
        ensures
            res is Some <==> prefix_len <= 32,
            res matches Some(n) ==> n.spec_addr() == addr && n.spec_prefix_len() == prefix_len,
    {
        if prefix_len <= 32 {
            Some(Ipv4Network { addr, prefix_len })
        } else {
            None
        }
    }

    /// The address of the network.
    pub fn addr(&self) -> (res: u32)
        ensures
            res == self.spec_addr(),
    {
        self.addr
    }

    /// The prefix length of the network.
    pub fn prefix_len(&self) -> (res: u8)
        ensures
            res == self.spec_prefix_len(),
            res <= 32,
    {
        proof {
            use_type_invariant(self);
        }
        self.prefix_len
    }

    /// Whether the network contains `ip`.
    pub fn contains(&self, ip: u32) -> (res: bool)
        ensures
            res == self.spec_contains(ip),
    {
        proof {
            use_type_invariant(self);
        }
        ipnet_contains(self.addr, self.prefix_len, ip)
    }
}

/// A line of the location table: the servers of `network` are at
/// `location`.
#[derive(Debug)]
pub struct LocationRecord {
    pub network: Ipv4Network,
    pub location: String,
}

/// The location of the first record whose network contains `ip`.
pub open spec fn first_location(locs: Seq<LocationRecord>, ip: u32) -> Option<String>
    decreases locs.len(),
{
    if locs.len() == 0 {
        None
    } else if locs[0].network.spec_contains(ip) {
        Some(locs[0].location)
    } else {
        first_location(locs.drop_first(), ip)
    }
}

/// The location of a server: that of the first record whose network
/// contains its IPv4 address; none for an IPv6 address.
pub open spec fn spec_lookup_location(locs: Seq<LocationRecord>, addr: ServerAddr) -> Option<String> {
    match addr.addr.ip_address {
        IpAddr::V4(ip) => first_location(locs, ip),
        IpAddr::V6(_) => None,
    }
}

/// A network contains an address exactly where the address agrees with
/// the network's address in the first `prefix_len` bits; a network of
/// prefix length 0 contains every address.
pub proof fn lemma_ipv4_net_contains(addr: u32, prefix_len: u8, ip: u32)
    requires
        prefix_len <= 32,
    ensures
        ipv4_net_contains(addr, prefix_len, ip) <==> (prefix_len == 0 || (ip >> ((32
            - prefix_len) as u32)) == (addr >> ((32 - prefix_len) as u32))),
{
    let p = prefix_len as u32;
    let sh = (32 - prefix_len) as u32;
    assert(sh == 32 - p);
    if prefix_len == 0 {
        assert((addr & 0u32) <= ip && ip <= (addr | (0xffff_ffffu32 >> 0u32))) by (bit_vector);
    } else if prefix_len == 32 {
        assert(((addr & (0xffff_ffffu32 << 0u32)) <= ip && ip <= (addr | 0u32)) <==> ((ip >> 0u32)
            == (addr >> 0u32))) by (bit_vector);
    } else {
        assert(((addr & (0xffff_ffffu32 << sh)) <= ip && ip <= (addr | (0xffff_ffffu32 >> p))) <==> (
        (ip >> sh) == (addr >> sh))) by (bit_vector)
            requires
                1 <= p <= 31,
                sh == 32 - p,
        ;
    }
}

/// A network contains an address exactly where the address agrees with
/// the network's address in the first bits, as many as the network's own
/// prefix length.
pub proof fn lemma_network_contains(n: Ipv4Network, ip: u32)
    requires
        n.spec_prefix_len() <= 32,
    ensures
        n.spec_contains(ip) <==> (n.spec_prefix_len() == 0 || (ip >> ((32 - n.spec_prefix_len())
            as u32)) == (n.spec_addr() >> ((32 - n.spec_prefix_len()) as u32))),
{
    lemma_ipv4_net_contains(n.spec_addr(), n.spec_prefix_len(), ip);
}

/// The location found for an IPv4 address is that of the first record
/// whose network, with its own prefix length, contains the address; there
/// is none exactly where no record's network contains it.
pub proof fn lemma_first_location(locs: Seq<LocationRecord>, ip: u32)
    ensures
        first_location(locs, ip) is None <==> forall|k: int|
            0 <= k < locs.len() ==> !(#[trigger] locs[k]).network.spec_contains(ip),
        forall|k: int|
            0 <= k < locs.len() && (#[trigger] locs[k]).network.spec_contains(ip) && (forall|j: int|
                0 <= j < k ==> !locs[j].network.spec_contains(ip)) ==> first_location(locs, ip)
                == Some(locs[k].location),
    decreases locs.len(),
{
    if locs.len() > 0 {
        let rest = locs.drop_first();
        lemma_first_location(rest, ip);
        assert forall|k: int| 1 <= k < locs.len() implies #[trigger] locs[k] == rest[k - 1] by {}
        if !locs[0].network.spec_contains(ip) {
            assert forall|k: int|
                0 <= k < locs.len() && (#[trigger] locs[k]).network.spec_contains(ip) && (forall|
                    j: int,
                | 0 <= j < k ==> !locs[j].network.spec_contains(ip)) implies first_location(
                locs,
                ip,
            ) == Some(locs[k].location) by {
                assert(k >= 1);
                assert(rest[k - 1] == locs[k]);
                assert forall|j: int| 0 <= j < k - 1 implies !rest[j].network.spec_contains(ip) by {
                    assert(rest[j] == locs[j + 1]);
                }
            }
            if first_location(locs, ip) is None {
                assert forall|k: int| 0 <= k < locs.len() implies !(
                #[trigger] locs[k]).network.spec_contains(ip) by {
                    if k > 0 {
                        assert(rest[k - 1] == locs[k]);
                    }
                }
            } else {
                let k = choose|k: int| 0 <= k < rest.len() && rest[k].network.spec_contains(ip);
                assert(locs[k + 1] == rest[k]);
            }
        }
    }
}

/// Where a server is: for an IPv4 address, the location of the first
/// record whose network contains it, none where no network does; for an
/// IPv6 address, none.
pub proof fn lemma_lookup_location(locs: Seq<LocationRecord>, addr: ServerAddr)
    ensures
        match addr.addr.ip_address {
            IpAddr::V6(_) => spec_lookup_location(locs, addr) is None,
            IpAddr::V4(ip) => {
                &&& spec_lookup_location(locs, addr) is None <==> forall|k: int|
                    0 <= k < locs.len() ==> !(#[trigger] locs[k]).network.spec_contains(ip)
                &&& forall|k: int|
                    0 <= k < locs.len() && (#[trigger] locs[k]).network.spec_contains(ip) && (
                    forall|j: int| 0 <= j < k ==> !locs[j].network.spec_contains(ip))
                        ==> spec_lookup_location(locs, addr) == Some(locs[k].location)
            },
        },
{
    if let IpAddr::V4(ip) = addr.addr.ip_address {
        lemma_first_location(locs, ip);
    }
}

// ---------------------------------------------------------------------
// The table of known servers
// ---------------------------------------------------------------------

/// What the tracker knows of a server: where it is and, where its
/// description could be published, that description.
#[derive(Debug)]
pub struct ServerEntry {
    pub location: Option<String>,
    pub info: Option<json::ServerInfo>,
}

/// No key occurs twice.
pub open spec fn keys_distinct(s: Seq<(ServerAddr, ServerEntry)>) -> bool {
    forall|i: int, j: int|
        0 <= i < s.len() && 0 <= j < s.len() && i != j ==> (#[trigger] s[i]).0 != (#[trigger] s[j]).0
}

/// Some pair of `s` has key `k`.
pub open spec fn has_key(s: Seq<(ServerAddr, ServerEntry)>, k: ServerAddr) -> bool {
    exists|i: int| 0 <= i < s.len() && (#[trigger] s[i]).0 == k
}

/// The position of a pair of `s` with key `k`.
pub open spec fn key_index(s: Seq<(ServerAddr, ServerEntry)>, k: ServerAddr) -> int {
    choose|i: int| 0 <= i < s.len() && (#[trigger] s[i]).0 == k
}

/// The map that a sequence of pairs stands for.
pub open spec fn table_map(s: Seq<(ServerAddr, ServerEntry)>) -> Map<ServerAddr, ServerEntry> {
    Map::new(|k: ServerAddr| has_key(s, k), |k: ServerAddr| s[key_index(s, k)].1)
}

proof fn lemma_key_index(s: Seq<(ServerAddr, ServerEntry)>, i: int)
    requires
        keys_distinct(s),
        0 <= i < s.len(),
    ensures
        has_key(s, s[i].0),
        key_index(s, s[i].0) == i,
        table_map(s).contains_key(s[i].0),
        table_map(s)[s[i].0] == s[i].1,
{
    assert(has_key(s, s[i].0));
    let j = key_index(s, s[i].0);
    assert(s[j].0 == s[i].0);
}

proof fn lemma_table_push(s: Seq<(ServerAddr, ServerEntry)>, k: ServerAddr, v: ServerEntry)
    requires
        keys_distinct(s),
        !has_key(s, k),
    ensures
        keys_distinct(s.push((k, v))),
        table_map(s.push((k, v))) == table_map(s).insert(k, v),
{
    let t = s.push((k, v));
    assert(keys_distinct(t)) by {
        assert forall|i: int, j: int|
            0 <= i < t.len() && 0 <= j < t.len() && i != j implies (#[trigger] t[i]).0 != (
        #[trigger] t[j]).0 by {
            if i == s.len() as int {
                assert(t[j] == s[j]);
            } else if j == s.len() as int {
                assert(t[i] == s[i]);
            } else {
                assert(t[i] == s[i] && t[j] == s[j]);
            }
        }
    }
    lemma_key_index(t, s.len() as int);
    assert forall|q: ServerAddr| #[trigger] has_key(t, q) <==> has_key(s, q) || q == k by {
        if has_key(t, q) && q != k {
            let i = choose|i: int| 0 <= i < t.len() && (#[trigger] t[i]).0 == q;
            assert(i < s.len());
            assert(s[i].0 == q);
        }
        if has_key(s, q) {
            let i = choose|i: int| 0 <= i < s.len() && (#[trigger] s[i]).0 == q;
            assert(t[i] == s[i]);
        }
    }
    assert forall|q: ServerAddr| has_key(s, q) && q != k implies table_map(t)[q] == table_map(
        s,
    )[q] by {
        let i = key_index(s, q);
        lemma_key_index(s, i);
        assert(t[i] == s[i]);
        lemma_key_index(t, i);
    }
    assert(table_map(t) =~= table_map(s).insert(k, v));
}

proof fn lemma_table_remove(s: Seq<(ServerAddr, ServerEntry)>, i: int)
    requires
        keys_distinct(s),
        0 <= i < s.len(),
    ensures
        keys_distinct(s.remove(i)),
        table_map(s.remove(i)) == table_map(s).remove(s[i].0),
{
    let t = s.remove(i);
    let k = s[i].0;
    s.remove_ensures(i);
    assert forall|j: int| 0 <= j < t.len() implies #[trigger] t[j] == s[if j < i {
        j
    } else {
        j + 1
    }] by {}
    assert(keys_distinct(t)) by {
        assert forall|a: int, b: int|
            0 <= a < t.len() && 0 <= b < t.len() && a != b implies (#[trigger] t[a]).0 != (
        #[trigger] t[b]).0 by {
            let a2 = if a < i {
                a
            } else {
                a + 1
            };
            let b2 = if b < i {
                b
            } else {
                b + 1
            };
            assert(t[a] == s[a2] && t[b] == s[b2]);
        }
    }
    assert forall|q: ServerAddr| #[trigger] has_key(t, q) <==> has_key(s, q) && q != k by {
        if has_key(t, q) {
            let j = choose|j: int| 0 <= j < t.len() && (#[trigger] t[j]).0 == q;
            let j2 = if j < i {
                j
            } else {
                j + 1
            };
            assert(s[j2].0 == q);
            assert(j2 != i);
        }
        if has_key(s, q) && q != k {
            let j = choose|j: int| 0 <= j < s.len() && (#[trigger] s[j]).0 == q;
            assert(j != i);
            let j1 = if j < i {
                j
            } else {
                j - 1
            };
            assert(t[j1] == s[j]);
        }
    }
    assert forall|q: ServerAddr| has_key(t, q) implies table_map(t)[q] == table_map(s)[q] by {
        let j = key_index(t, q);
        lemma_key_index(t, j);
        let j2 = if j < i {
            j
        } else {
            j + 1
        };
        assert(t[j] == s[j2]);
        lemma_key_index(s, j2);
    }
    assert(table_map(t) =~= table_map(s).remove(k));
}

proof fn lemma_table_update(s: Seq<(ServerAddr, ServerEntry)>, i: int, v: ServerEntry)
    requires
        keys_distinct(s),
        0 <= i < s.len(),
    ensures
        keys_distinct(s.update(i, (s[i].0, v))),
        table_map(s.update(i, (s[i].0, v))) == table_map(s).insert(s[i].0, v),
{
    let k = s[i].0;
    let t = s.update(i, (k, v));
    assert(keys_distinct(t)) by {
        assert forall|a: int, b: int|
            0 <= a < t.len() && 0 <= b < t.len() && a != b implies (#[trigger] t[a]).0 != (
        #[trigger] t[b]).0 by {
            assert(t[a].0 == s[a].0 && t[b].0 == s[b].0);
        }
    }
    assert forall|q: ServerAddr| #[trigger] has_key(t, q) <==> has_key(s, q) by {
        if has_key(t, q) {
            let j = choose|j: int| 0 <= j < t.len() && (#[trigger] t[j]).0 == q;
            assert(s[j].0 == q);
        }
        if has_key(s, q) {
            let j = choose|j: int| 0 <= j < s.len() && (#[trigger] s[j]).0 == q;
            assert(t[j].0 == q);
        }
    }
    lemma_key_index(t, i);
    assert forall|q: ServerAddr| has_key(t, q) && q != k implies table_map(t)[q] == table_map(
        s,
    )[q] by {
        let j = key_index(t, q);
        lemma_key_index(t, j);
        assert(j != i);
        assert(t[j] == s[j]);
        lemma_key_index(s, j);
    }
    assert(table_map(t) =~= table_map(s).insert(k, v));
}

/// The servers the tracker knows, each address once.
pub struct ServerTable {
    entries: Vec<(ServerAddr, ServerEntry)>,
}

impl View for ServerTable {
    type V = Map<ServerAddr, ServerEntry>;

    closed spec fn view(&self) -> Map<ServerAddr, ServerEntry> {
        table_map(self.entries@)
    }
}

impl ServerTable {
    #[verifier::type_invariant]
    spec fn inv(self) -> bool {
        keys_distinct(self.entries@)
    }

    /// A table that knows no server.
    pub fn new() -> (res: ServerTable)
        ensures
            res@ == Map::<ServerAddr, ServerEntry>::empty(),
    {
        let res = ServerTable { entries: Vec::new() };
        assert(res@ =~= Map::<ServerAddr, ServerEntry>::empty());
        res
    }

    /// The position of `addr` in the entries.
    fn find(&self, addr: &ServerAddr) -> (res: Option<usize>)
        ensures
            match res {
                Some(i) => i < self.entries@.len() && self.entries@[i as int].0 == *addr,
                None => !has_key(self.entries@, *addr),
            },
    {
        let mut i: usize = 0;
        while i < self.entries.len()
            invariant
                i <= self.entries@.len(),
                forall|j: int| 0 <= j < i ==> (#[trigger] self.entries@[j]).0 != *addr,
            decreases self.entries@.len() - i,
        {
            if self.entries[i].0 == *addr {
                return Some(i);
            }
            i = i + 1;
        }
        None
    }

    /// Whether the table knows `addr`.
    pub fn contains_key(&self, addr: &ServerAddr) -> (res: bool)
        ensures
            res == self@.contains_key(*addr),
    {
        self.find(addr).is_some()
    }

    /// What the table knows of `addr`.
    pub fn get(&self, addr: &ServerAddr) -> (res: Option<&ServerEntry>)
        ensures
            res == (if self@.contains_key(*addr) {
                Some(&self@[*addr])
            } else {
                None
            }),
    {
        proof {
            use_type_invariant(self);
        }
        match self.find(addr) {
            Some(i) => {
                proof {
                    lemma_key_index(self.entries@, i as int);
                }
                Some(&self.entries[i].1)
            },
            None => None,
        }
    }

    /// Records a server that the table does not know yet.
    pub fn insert_new(&mut self, addr: ServerAddr, entry: ServerEntry)
        requires
            !old(self)@.contains_key(addr),
        ensures
            final(self)@ == old(self)@.insert(addr, entry),
    {
        proof {
            use_type_invariant(&*self);
        }
        let ghost s = self.entries@;
        let mut entries: Vec<(ServerAddr, ServerEntry)> = Vec::new();
        std::mem::swap(&mut entries, &mut self.entries);
        proof {
            lemma_table_push(s, addr, entry);
        }
        entries.push((addr, entry));
        self.entries = entries;
    }

    /// Replaces the description of a server that the table knows; its
    /// location stays.
    pub fn set_info(&mut self, addr: &ServerAddr, info: Option<json::ServerInfo>)
        requires
            old(self)@.contains_key(*addr),
        ensures
            final(self)@ == old(self)@.insert(
                *addr,
                ServerEntry { location: old(self)@[*addr].location, info },
            ),
    {
        proof {
            use_type_invariant(&*self);
        }
        let i = match self.find(addr) {
            Some(i) => i,
            None => {
                return;
            },
        };
        let ghost s = self.entries@;
        proof {
            lemma_key_index(s, i as int);
        }
        let mut entries: Vec<(ServerAddr, ServerEntry)> = Vec::new();
        std::mem::swap(&mut entries, &mut self.entries);
        let (k, old_entry) = entries.remove(i);
        let new_entry = ServerEntry { location: old_entry.location, info };
        proof {
            lemma_table_update(s, i as int, new_entry);
            assert(entries@.insert(i as int, (k, new_entry)) =~= s.update(i as int, (k, new_entry)));
        }
        entries.insert(i, (k, new_entry));
        self.entries = entries;
    }

    /// Forgets a server that the table knows.
    pub fn remove(&mut self, addr: &ServerAddr)
        requires
            old(self)@.contains_key(*addr),
        ensures
            final(self)@ == old(self)@.remove(*addr),
    {
        proof {
            use_type_invariant(&*self);
        }
        let i = match self.find(addr) {
            Some(i) => i,
            None => {
                return;
            },
        };
        let ghost s = self.entries@;
        proof {
            lemma_table_remove(s, i as int);
        }
        let mut entries: Vec<(ServerAddr, ServerEntry)> = Vec::new();
        std::mem::swap(&mut entries, &mut self.entries);
        entries.remove(i);
        self.entries = entries;
    }
}

// ---------------------------------------------------------------------
// The addresses of the published list
// ---------------------------------------------------------------------

/// Every address of `s` comes before every later one.
pub open spec fn strictly_sorted(s: Seq<Addr>) -> bool {
    forall|i: int, j: int| 0 <= i < j < s.len() ==> addr_lt(#[trigger] s[i], #[trigger] s[j])
}

/// The addresses at which the table knows a server, in any protocol.
pub open spec fn known_addrs(m: Map<ServerAddr, ServerEntry>) -> Set<Addr> {
    Set::new(|a: Addr| exists|k: ServerAddr| #[trigger] m.contains_key(k) && k.addr == a)
}

/// `s` lists the known addresses of `m`, each once, in order.
pub open spec fn lists_known_addrs(s: Seq<Addr>, m: Map<ServerAddr, ServerEntry>) -> bool {
    &&& strictly_sorted(s)
    &&& forall|a: Addr| #[trigger] s.contains(a) <==> known_addrs(m).contains(a)
}

/// The known addresses of `m`, each once, in order.
pub open spec fn sorted_known_addrs(m: Map<ServerAddr, ServerEntry>) -> Seq<Addr> {
    choose|s: Seq<Addr>| lists_known_addrs(s, m)
}

/// A sorted list without repetitions is determined by what it contains:
/// two of them that contain the same addresses are equal.
pub proof fn lemma_sorted_unique(s1: Seq<Addr>, s2: Seq<Addr>)
    requires
        strictly_sorted(s1),
        strictly_sorted(s2),
        forall|a: Addr| #![trigger s1.contains(a)] #![trigger s2.contains(a)] s1.contains(a) <==> s2.contains(a),
    ensures
        s1 == s2,
    decreases s1.len(),
{
    if s1.len() == 0 {
        if s2.len() > 0 {
            assert(s2.contains(s2[0]));
        }
        assert(s1 =~= s2);
    } else if s2.len() == 0 {
        assert(s1.contains(s1[0]));
    } else {
        // both begin with the smallest address
        assert(s1.contains(s1[0]));
        let j = choose|j: int| 0 <= j < s2.len() && s2[j] == s1[0];
        assert(s2.contains(s2[0]));
        let k = choose|k: int| 0 <= k < s1.len() && s1[k] == s2[0];
        if j > 0 {
            assert(addr_lt(s2[0], s2[j]));
            if k > 0 {
                assert(addr_lt(s1[0], s1[k]));
            }
            assert(false);
        }
        assert(s1[0] == s2[0]);
        let t1 = s1.drop_first();
        let t2 = s2.drop_first();
        assert(strictly_sorted(t1)) by {
            assert forall|a: int, b: int| 0 <= a < b < t1.len() implies addr_lt(
                #[trigger] t1[a],
                #[trigger] t1[b],
            ) by {
                assert(t1[a] == s1[a + 1] && t1[b] == s1[b + 1]);
            }
        }
        assert(strictly_sorted(t2)) by {
            assert forall|a: int, b: int| 0 <= a < b < t2.len() implies addr_lt(
                #[trigger] t2[a],
                #[trigger] t2[b],
            ) by {
                assert(t2[a] == s2[a + 1] && t2[b] == s2[b + 1]);
            }
        }
        assert forall|a: Addr| #![trigger t1.contains(a)] #![trigger t2.contains(a)] t1.contains(a) <==> t2.contains(a) by {
            if t1.contains(a) {
                let p = choose|p: int| 0 <= p < t1.len() && t1[p] == a;
                assert(s1[p + 1] == a);
                assert(addr_lt(s1[0], s1[p + 1]));
                assert(s1.contains(a));
                let q = choose|q: int| 0 <= q < s2.len() && s2[q] == a;
                assert(q != 0);
                assert(t2[q - 1] == a);
            }
            if t2.contains(a) {
                let p = choose|p: int| 0 <= p < t2.len() && t2[p] == a;
                assert(s2[p + 1] == a);
                assert(addr_lt(s2[0], s2[p + 1]));
                assert(s2.contains(a));
                let q = choose|q: int| 0 <= q < s1.len() && s1[q] == a;
                assert(q != 0);
                assert(t1[q - 1] == a);
            }
        }
        lemma_sorted_unique(t1, t2);
        assert(s1 =~= seq![s1[0]] + t1);
        assert(s2 =~= seq![s2[0]] + t2);
    }
}

/// Inserts `a` into the sorted list `out`, unless it is there already.
fn insert_sorted(out: &mut Vec<Addr>, a: Addr)
    requires
        strictly_sorted(old(out)@),
    ensures
        strictly_sorted(final(out)@),
        forall|x: Addr| #[trigger] final(out)@.contains(x) <==> old(out)@.contains(x) || x == a,
{
    let mut pos: usize = 0;
    while pos < out.len() && addr_less(&out[pos], &a)
        invariant
            pos <= out@.len(),
            out@ == old(out)@,
            forall|j: int| 0 <= j < pos ==> addr_lt(#[trigger] out@[j], a),
        decreases out@.len() - pos,
    {
        pos = pos + 1;
    }
    if pos < out.len() && out[pos] == a {
        return;
    }
    let ghost s = out@;
    proof {
        if pos < s.len() {
            lemma_addr_rank_injective(s[pos as int], a);
            assert(addr_lt(a, s[pos as int]));
        }
        s.insert_ensures(pos as int, a);
    }
    out.insert(pos, a);
    proof {
        let t = out@;
        assert forall|i: int, j: int| 0 <= i < j < t.len() implies addr_lt(
            #[trigger] t[i],
            #[trigger] t[j],
        ) by {
            if j < pos {
                assert(t[i] == s[i] && t[j] == s[j]);
            } else if j == pos {
                assert(t[i] == s[i]);
            } else if i < pos {
                assert(t[i] == s[i] && t[j] == s[j - 1]);
                assert(addr_lt(s[i], a));
                assert(addr_rank(a) <= addr_rank(s[j - 1])) by {
                    if j - 1 > pos as int {
                        assert(addr_lt(s[pos as int], s[j - 1]));
                    }
                }
            } else if i == pos {
                assert(t[j] == s[j - 1]);
                if j - 1 > pos as int {
                    assert(addr_lt(s[pos as int], s[j - 1]));
                }
            } else {
                assert(t[i] == s[i - 1] && t[j] == s[j - 1]);
            }
        }
        assert forall|x: Addr| #[trigger] t.contains(x) <==> s.contains(x) || x == a by {
            if t.contains(x) {
                let q = choose|q: int| 0 <= q < t.len() && t[q] == x;
                if q < pos {
                    assert(s[q] == x);
                } else if q > pos {
                    assert(s[q - 1] == x);
                }
            }
            if s.contains(x) {
                let q = choose|q: int| 0 <= q < s.len() && s[q] == x;
                if q < pos {
                    assert(t[q] == x);
                } else {
                    assert(t[q + 1] == x);
                }
            }
            if x == a {
                assert(t[pos as int] == a);
            }
        }
    }
}

impl ServerTable {
    /// The addresses at which the table knows a server, in any protocol,
    /// each once and in order.
    pub fn known_addrs(&self) -> (res: Vec<Addr>)
        ensures
            lists_known_addrs(res@, self@),
            res@ == sorted_known_addrs(self@),
    {
        proof {
            use_type_invariant(self);
        }
        let ghost s = self.entries@;
        let mut out: Vec<Addr> = Vec::new();
        let mut i: usize = 0;
        while i < self.entries.len()
            invariant
                s == self.entries@,
                i <= s.len(),
                strictly_sorted(out@),
                forall|x: Addr| #[trigger]
                    out@.contains(x) <==> exists|j: int| 0 <= j < i && (#[trigger] s[j]).0.addr == x,
            decreases s.len() - i,
        {
            let a = self.entries[i].0.addr;
            let ghost before = out@;
            insert_sorted(&mut out, a);
            i = i + 1;
            assert forall|x: Addr| #[trigger]
                out@.contains(x) <==> exists|j: int| 0 <= j < i && (#[trigger] s[j]).0.addr == x by {
                if out@.contains(x) && x != a {
                    assert(before.contains(x));
                }
                if x == a {
                    assert(s[i - 1].0.addr == x);
                }
                if exists|j: int| 0 <= j < i && (#[trigger] s[j]).0.addr == x {
                    let j = choose|j: int| 0 <= j < i && (#[trigger] s[j]).0.addr == x;
                    if j < i - 1 {
                        assert(before.contains(x));
                    }
                }
            }
        }
        proof {
            assert forall|x: Addr| #[trigger] out@.contains(x) <==> known_addrs(self@).contains(x) by {
                if out@.contains(x) {
                    let j = choose|j: int| 0 <= j < s.len() && (#[trigger] s[j]).0.addr == x;
                    lemma_key_index(s, j);
                    assert(self@.contains_key(s[j].0));
                }
                if known_addrs(self@).contains(x) {
                    let k = choose|k: ServerAddr| #[trigger] self@.contains_key(k) && k.addr == x;
                    assert(has_key(s, k));
                    let j = choose|j: int| 0 <= j < s.len() && (#[trigger] s[j]).0 == k;
                    assert(s[j].0.addr == x);
                }
            }
            let c = sorted_known_addrs(self@);
            assert(lists_known_addrs(out@, self@));
            assert(lists_known_addrs(c, self@));
            lemma_sorted_unique(out@, c);
        }
        out
    }
}

// ---------------------------------------------------------------------
// The published list
// ---------------------------------------------------------------------

/// The address `a` spoken to in `version`.
pub open spec fn at(version: ProtocolVersion, a: Addr) -> ServerAddr {
    ServerAddr { version, addr: a }
}

/// The addresses under which the server at `a` is published: one for
/// each protocol in which the table knows it, ordered V5, V6, V7.
pub open spec fn published_addresses(m: Map<ServerAddr, ServerEntry>, a: Addr) -> Seq<json::Addr> {
    (if m.contains_key(at(ProtocolVersion::V5, a)) {
        seq![json::Addr(at(ProtocolVersion::V5, a))]
    } else {
        Seq::empty()
    }) + (if m.contains_key(at(ProtocolVersion::V6, a)) {
        seq![json::Addr(at(ProtocolVersion::V6, a))]
    } else {
        Seq::empty()
    }) + (if m.contains_key(at(ProtocolVersion::V7, a)) {
        seq![json::Addr(at(ProtocolVersion::V7, a))]
    } else {
        Seq::empty()
    })
}

/// The entry whose location and description are published for the
/// server at `a`: that of protocol V6 where the table knows it, else that
/// of V7, else that of V5.
pub open spec fn published_entry(m: Map<ServerAddr, ServerEntry>, a: Addr) -> ServerEntry {
    if m.contains_key(at(ProtocolVersion::V6, a)) {
        m[at(ProtocolVersion::V6, a)]
    } else if m.contains_key(at(ProtocolVersion::V7, a)) {
        m[at(ProtocolVersion::V7, a)]
    } else {
        m[at(ProtocolVersion::V5, a)]
    }
}

/// The addresses published for the server at `a` are exactly those at
/// which the table knows it, in any protocol and whatever their
/// descriptions, each once, ordered by protocol version.
pub proof fn lemma_published_addresses(m: Map<ServerAddr, ServerEntry>, a: Addr)
    ensures
        forall|v: ProtocolVersion| #[trigger]
            published_addresses(m, a).contains(json::Addr(ServerAddr { version: v, addr: a }))
                <==> m.contains_key(ServerAddr { version: v, addr: a }),
        forall|j: int|
            0 <= j < published_addresses(m, a).len() ==> {
                &&& (#[trigger] published_addresses(m, a)[j]).0.addr == a
                &&& m.contains_key(published_addresses(m, a)[j].0)
            },
        forall|i: int, j: int|
            0 <= i < j < published_addresses(m, a).len() ==> version_rank(
                (#[trigger] published_addresses(m, a)[i]).0.version,
            ) < version_rank((#[trigger] published_addresses(m, a)[j]).0.version),
{
    let s = published_addresses(m, a);
    let k5 = m.contains_key(at(ProtocolVersion::V5, a));
    let k6 = m.contains_key(at(ProtocolVersion::V6, a));
    let k7 = m.contains_key(at(ProtocolVersion::V7, a));
    let e5: Seq<json::Addr> = if k5 {
        seq![json::Addr(at(ProtocolVersion::V5, a))]
    } else {
        Seq::empty()
    };
    let e6: Seq<json::Addr> = if k6 {
        seq![json::Addr(at(ProtocolVersion::V6, a))]
    } else {
        Seq::empty()
    };
    let e7: Seq<json::Addr> = if k7 {
        seq![json::Addr(at(ProtocolVersion::V7, a))]
    } else {
        Seq::empty()
    };
    assert(s == e5 + e6 + e7);
    assert forall|j: int| 0 <= j < s.len() implies {
        &&& (#[trigger] s[j]).0.addr == a
        &&& m.contains_key(s[j].0)
        &&& (s[j] == json::Addr(at(ProtocolVersion::V5, a)) ==> j == 0)
        &&& (s[j] == json::Addr(at(ProtocolVersion::V6, a)) ==> j == (if k5 {
            1int
        } else {
            0int
        }))
        &&& (s[j] == json::Addr(at(ProtocolVersion::V7, a)) ==> j == s.len() - 1)
        &&& (s[j] == json::Addr(at(ProtocolVersion::V5, a)) || s[j] == json::Addr(
            at(ProtocolVersion::V6, a),
        ) || s[j] == json::Addr(at(ProtocolVersion::V7, a)))
    } by {
        if k5 && j == 0 {
        } else if k6 && j == (if k5 {
            1int
        } else {
            0int
        }) {
        } else {
            assert(k7 && j == s.len() - 1);
        }
    }
    assert forall|v: ProtocolVersion| #[trigger]
        s.contains(json::Addr(ServerAddr { version: v, addr: a })) <==> m.contains_key(
            ServerAddr { version: v, addr: a },
        ) by {
        let x = json::Addr(ServerAddr { version: v, addr: a });
        if m.contains_key(ServerAddr { version: v, addr: a }) {
            match v {
                ProtocolVersion::V5 => {
                    assert(s[0] == x);
                },
                ProtocolVersion::V6 => {
                    assert(s[if k5 {
                        1int
                    } else {
                        0int
                    }] == x);
                },
                ProtocolVersion::V7 => {
                    assert(s[s.len() - 1] == x);
                },
            }
        }
        if s.contains(x) {
            let j = choose|j: int| 0 <= j < s.len() && s[j] == x;
            assert(m.contains_key(s[j].0));
        }
    }
}

/// The position of a protocol version in the order of versions.
pub open spec fn version_rank(v: ProtocolVersion) -> int {
    match v {
        ProtocolVersion::V5 => 5,
        ProtocolVersion::V6 => 6,
        ProtocolVersion::V7 => 7,
    }
}

/// The server at `a` is published: its entry has a description.
pub open spec fn is_published(m: Map<ServerAddr, ServerEntry>, a: Addr) -> bool {
    published_entry(m, a).info is Some
}

/// The addresses of the published servers, in order.
pub open spec fn published_addrs(m: Map<ServerAddr, ServerEntry>) -> Seq<Addr> {
    sorted_known_addrs(m).filter(|a: Addr| is_published(m, a))
}

/// `srv` is what is published for the server at `a`.
pub open spec fn publishes(m: Map<ServerAddr, ServerEntry>, a: Addr, srv: json::Server) -> bool {
    &&& srv.addresses@ == published_addresses(m, a)
    &&& srv.location == published_entry(m, a).location
    &&& published_entry(m, a).info == Some(*srv.info)
}

/// Keeping some of the addresses of a sorted list keeps it sorted.
pub proof fn lemma_filter_sorted(s: Seq<Addr>, pred: spec_fn(Addr) -> bool)
    requires
        strictly_sorted(s),
    ensures
        strictly_sorted(s.filter(pred)),
    decreases s.len(),
{
    reveal(Seq::filter);
    if s.len() > 0 {
        let init = s.drop_last();
        assert(strictly_sorted(init)) by {
            assert forall|i: int, j: int| 0 <= i < j < init.len() implies addr_lt(
                #[trigger] init[i],
                #[trigger] init[j],
            ) by {
                assert(init[i] == s[i] && init[j] == s[j]);
            }
        }
        lemma_filter_sorted(init, pred);
        let f = init.filter(pred);
        if pred(s.last()) {
            let g = f.push(s.last());
            assert forall|i: int, j: int| 0 <= i < j < g.len() implies addr_lt(
                #[trigger] g[i],
                #[trigger] g[j],
            ) by {
                if j == f.len() {
                    assert(f.contains(g[i]));
                    init.lemma_filter_contains_rev(pred, g[i]);
                    assert(init.contains(g[i]));
                    let k = choose|k: int| 0 <= k < init.len() && init[k] == g[i];
                    assert(s[k] == g[i]);
                    assert(addr_lt(s[k], s[s.len() - 1]));
                } else {
                    assert(g[i] == f[i] && g[j] == f[j]);
                }
            }
        }
    }
}

impl ServerTable {
    /// The published server list: for each address at which the table
    /// knows a server, in order, and whose published entry has a
    /// description, that server's addresses, location and description.
    pub fn master_servers<'a>(&'a self) -> (res: Vec<json::Server<'a>>)
        ensures
            strictly_sorted(published_addrs(self@)),
            res@.len() == published_addrs(self@).len(),
            forall|j: int|
                0 <= j < res@.len() ==> publishes(
                    self@,
                    #[trigger] published_addrs(self@)[j],
                    res@[j],
                ),
    {
        let addrs = self.known_addrs();
        let ghost m = self@;
        let ghost pred = |a: Addr| is_published(m, a);
        let mut res: Vec<json::Server<'a>> = Vec::new();
        let mut i: usize = 0;
        proof {
            reveal(Seq::filter);
            assert(addrs@.take(0) =~= Seq::<Addr>::empty());
        }
        while i < addrs.len()
            invariant
                m == self@,
                pred == (|a: Addr| is_published(m, a)),
                i <= addrs@.len(),
                lists_known_addrs(addrs@, m),
                res@.len() == addrs@.take(i as int).filter(pred).len(),
                forall|j: int|
                    0 <= j < res@.len() ==> publishes(
                        m,
                        #[trigger] addrs@.take(i as int).filter(pred)[j],
                        res@[j],
                    ),
            decreases addrs@.len() - i,
        {
            let a = addrs[i];
            let a5 = ServerAddr::new(ProtocolVersion::V5, a);
            let a6 = ServerAddr::new(ProtocolVersion::V6, a);
            let a7 = ServerAddr::new(ProtocolVersion::V7, a);
            let e5 = self.get(&a5);
            let e6 = self.get(&a6);
            let e7 = self.get(&a7);
            let mut addresses: Vec<json::Addr> = Vec::new();
            if e5.is_some() {
                addresses.push(json::Addr(a5));
            }
            if e6.is_some() {
                addresses.push(json::Addr(a6));
            }
            if e7.is_some() {
                addresses.push(json::Addr(a7));
            }
            assert(addresses@ =~= published_addresses(m, a));
            let chosen: Option<&ServerEntry> = match e6 {
                Some(e) => Some(e),
                None => match e7 {
                    Some(e) => Some(e),
                    None => e5,
                },
            };
            let ghost before = addrs@.take(i as int).filter(pred);
            proof {
                reveal(Seq::filter);
                assert(addrs@.take(i + 1).drop_last() =~= addrs@.take(i as int));
                assert(addrs@.take(i + 1).last() == a);
            }
            match chosen {
                Some(entry) => {
                    assert(*entry == published_entry(m, a));
                    match &entry.info {
                        Some(info) => {
                            let location = match &entry.location {
                                Some(l) => Some(l.clone()),
                                None => None,
                            };
                            let srv = json::Server { addresses, location, info };
                            assert(publishes(m, a, srv));
                            res.push(srv);
                            assert(addrs@.take(i + 1).filter(pred) =~= before.push(a));
                            assert forall|j: int| 0 <= j < res@.len() implies publishes(
                                m,
                                #[trigger] addrs@.take(i + 1).filter(pred)[j],
                                res@[j],
                            ) by {
                                if j < before.len() {
                                    assert(addrs@.take(i + 1).filter(pred)[j] == before[j]);
                                }
                            }
                        },
                        None => {
                            assert(addrs@.take(i + 1).filter(pred) =~= before);
                        },
                    }
                },
                None => {
                    proof {
                        assert(addrs@.contains(a));
                        assert(known_addrs(m).contains(a));
                        let k = choose|k: ServerAddr| #[trigger] m.contains_key(k) && k.addr == a;
                        assert(k == at(k.version, a));
                        assert(false);
                    }
                },
            }
            i = i + 1;
        }
        proof {
            assert(addrs@.take(addrs@.len() as int) =~= addrs@);
            lemma_filter_sorted(addrs@, pred);
            assert(published_addrs(m) == addrs@.filter(pred));
        }
        res
    }
}

// ---------------------------------------------------------------------
// The tracker
// ---------------------------------------------------------------------

/// The tracker: the file it publishes to, the location table and the
/// servers it knows.
pub struct Tracker {
    pub filename: String,
    pub locations: Vec<LocationRecord>,
    pub servers: ServerTable,
}

impl Tracker {
    /// A tracker that publishes to `filename`, locates servers by
    /// `locations` and knows no server yet.
    pub fn new(filename: String, locations: Vec<LocationRecord>) -> (res: Tracker)
        ensures
            res.filename == filename,
            res.locations == locations,
            res.servers@ == Map::<ServerAddr, ServerEntry>::empty(),
    {
        Tracker { filename, locations, servers: ServerTable::new() }
    }

    /// The location of the server at `addr`: that of the first record
    /// whose network contains its IPv4 address; none for IPv6.
    pub fn lookup_location(&self, addr: ServerAddr) -> (res: Option<String>)
        ensures
            res == spec_lookup_location(self.locations@, addr),
    {
        let ip = match addr.addr.ip_address {
            IpAddr::V4(a) => a,
            IpAddr::V6(_) => {
                return None;
            },
        };
        let ghost locs = self.locations@;
        let mut i: usize = 0;
        assert(locs.skip(0) =~= locs);
        while i < self.locations.len()
            invariant
                locs == self.locations@,
                addr.addr.ip_address == IpAddr::V4(ip),
                i <= locs.len(),
                first_location(locs, ip) == first_location(locs.skip(i as int), ip),
            decreases locs.len() - i,
        {
            let record = &self.locations[i];
            assert(locs.skip(i as int)[0] == *record);
            if record.network.contains(ip) {
                assert(locs.skip(i as int).len() > 0);
                assert(first_location(locs.skip(i as int), ip) == Some(record.location));
                let found = record.location.clone();
                return Some(found);
            }
            assert(locs.skip(i as int).drop_first() =~= locs.skip(i + 1));
            i = i + 1;
        }
        assert(locs.skip(i as int) =~= Seq::<LocationRecord>::empty());
        None
    }

    /// A server appeared at `addr`: it is recorded with its location and,
    /// where it converts, its description.
    pub fn on_server_new(&mut self, addr: ServerAddr, info: &protocol::ServerInfo)
        requires
            !old(self).servers@.contains_key(addr),
        ensures
            final(self).filename == old(self).filename,
            final(self).locations == old(self).locations,
            final(self).servers@.contains_key(addr),
            final(self).servers@ == old(self).servers@.insert(addr, final(self).servers@[addr]),
            final(self).servers@[addr].location == spec_lookup_location(
                old(self).locations@,
                addr,
            ),
            match spec_server_info(*info) {
                Some(v) => final(self).servers@[addr].info matches Some(i) && i@ == v,
                None => final(self).servers@[addr].info is None,
            },
    {
        let location = self.lookup_location(addr);
        let info = json::ServerInfo::try_from(info).ok();
        self.servers.insert_new(addr, ServerEntry { location, info });
    }

    /// The server at `addr` changed: its description is replaced by the
    /// new one where it converts, and dropped where it does not.
    pub fn on_server_change(
        &mut self,
        addr: ServerAddr,
        _old: &protocol::ServerInfo,
        new: &protocol::ServerInfo,
    )
        requires
            old(self).servers@.contains_key(addr),
        ensures
            final(self).filename == old(self).filename,
            final(self).locations == old(self).locations,
            final(self).servers@.contains_key(addr),
            final(self).servers@ == old(self).servers@.insert(addr, final(self).servers@[addr]),
            final(self).servers@[addr].location == old(self).servers@[addr].location,
            match spec_server_info(*new) {
                Some(v) => final(self).servers@[addr].info matches Some(i) && i@ == v,
                None => final(self).servers@[addr].info is None,
            },
    {
        let info = json::ServerInfo::try_from(new).ok();
        self.servers.set_info(&addr, info);
    }

    /// The server at `addr` is gone.
    pub fn on_server_remove(&mut self, addr: ServerAddr, _last: &protocol::ServerInfo)
        requires
            old(self).servers@.contains_key(addr),
        ensures
            final(self).filename == old(self).filename,
            final(self).locations == old(self).locations,
            final(self).servers@ == old(self).servers@.remove(addr),
    {
        self.servers.remove(&addr);
    }
}

/// A server that appears and then goes leaves the known servers as they
/// were.
pub proof fn lemma_new_then_remove(
    m: Map<ServerAddr, ServerEntry>,
    addr: ServerAddr,
    entry: ServerEntry,
)
    requires
        !m.contains_key(addr),
    ensures
        m.insert(addr, entry).remove(addr) == m,
{
    assert(m.insert(addr, entry).remove(addr) =~= m);
}

// ---------------------------------------------------------------------
// The publishing schedule
// ---------------------------------------------------------------------

/// What the publishing loop does after a round: how long it sleeps, and
/// the round it counts next.
#[derive(Clone, Copy, Debug, PartialEq, Eq, Structural)]
pub struct WriteoutStep {
    pub sleep_nanos: Option<u32>,
    pub iteration: u64,
}

/// The decision after a round that ended `elapsed_secs` seconds and
/// `elapsed_subsec_nanos` nanoseconds after the start: while the rounds
/// keep up (`elapsed_secs <= iteration`), sleep to the next full second
/// and count one more round; once behind, do not sleep and take up the
/// count at the elapsed seconds. Either way the count never goes back
/// and never lags behind the elapsed seconds.
pub fn next_writeout(elapsed_secs: u64, elapsed_subsec_nanos: u32, iteration: u64) -> (res: WriteoutStep)
    requires
        elapsed_subsec_nanos < 1_000_000_000,
        elapsed_secs <= iteration ==> iteration < u64::MAX,
    ensures
        elapsed_secs <= iteration ==> res == (WriteoutStep {
            sleep_nanos: Some((1_000_000_000 - elapsed_subsec_nanos) as u32),
            iteration: (iteration + 1) as u64,
        }),
        elapsed_secs > iteration ==> res == (WriteoutStep {
            sleep_nanos: None,
            iteration: elapsed_secs,
        }),
        res.iteration >= iteration,
        res.iteration >= elapsed_secs,
{
    if elapsed_secs <= iteration {
        WriteoutStep {
            sleep_nanos: Some(1_000_000_000 - elapsed_subsec_nanos),
            iteration: iteration + 1,
        }
    } else {
        WriteoutStep { sleep_nanos: None, iteration: elapsed_secs }
    }
}

} // verus!
