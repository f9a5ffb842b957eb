//! The decisions of the Wireshark plugin: counting warnings, laying out
//! GUIDs and refusing the Wireshark version whose ABI does not match.

use vstd::prelude::*;

verus! {

/// Counts the warnings it is given.
#[derive(Debug)]
pub struct Counter(u64);

impl View for Counter {
    type V = nat;

    closed spec fn view(&self) -> nat {
        self.0 as nat
    }
}

impl Default for Counter {
    fn default() -> (res: Counter)
        ensures
            res@ == 0,
    {
        Counter(0)
    }
}

impl Counter {
    /// A counter that has seen no warning.
    pub fn new() -> (res: Counter)
        ensures
            res@ == 0,
    {
        Counter::default()
    }

    /// Whether the counter has seen no warning.
    pub fn is_empty(&self) -> (res: bool)
        ensures
            res == (self@ == 0),
    {
        self.0 == 0
    }

    /// The number of warnings seen.
    pub fn count(&self) -> (res: u64)
        ensures
            res == self@,
    {
        self.0
    }

    /// Counts one more warning.
    pub fn warn(&mut self)
        requires
            old(self)@ < u64::MAX,
        ensures
            final(self)@ == old(self)@ + 1,
    {
        self.0 = self.0 + 1;
    }
}

/// A counter that is new and then takes `n` warnings has counted `n`
/// warnings, so it is empty exactly when `n` is 0.  `states[0]` is the new
/// counter and `states[k + 1]` the counter after the `k`-th warning.
pub proof fn lemma_counter_warnings(states: Seq<Counter>, n: nat)
    requires
        states.len() == n + 1,
        states[0]@ == 0,
        forall|k: int| 0 <= k < n ==> #[trigger] states[k + 1]@ == states[k]@ + 1,
    ensures
        states[n as int]@ == n,
        (states[n as int]@ == 0) <==> n == 0,
    decreases n,
{
    if n > 0 {
        let m = (n - 1) as nat;
        let prefix = states.take(m + 1int);
        assert forall|k: int| 0 <= k < m implies #[trigger] prefix[k + 1]@ == prefix[k]@ + 1 by {
            assert(prefix[k + 1] == states[k + 1] && prefix[k] == states[k]);
            assert(states[k + 1]@ == states[k]@ + 1);
        }
        lemma_counter_warnings(prefix, m);
        assert(prefix[m as int] == states[m as int]);
        assert(states[m + 1int]@ == states[m as int]@ + 1);
    }
}

/// A GUID as Wireshark lays it out: three integers and eight bytes.
#[derive(Clone, Copy, Debug, PartialEq, Eq)]
pub struct Guid {
    pub data1: u32,
    pub data2: u16,
    pub data3: u16,
    pub data4: [u8; 8],
}

/// The big-endian value of the bytes of `b` from `start` to `end`.
pub open spec fn be_value(b: Seq<u8>, start: int, end: int) -> int
    decreases end - start,
{
    if end <= start {
        0
    } else {
        be_value(b, start, end - 1) * 256 + b[end - 1]
    }
}

/// `uuid::Uuid::from_bytes` followed by `Uuid::as_fields`: the first
/// field is bytes 0 to 3 taken as a big-endian `u32`, the second and
/// third are bytes 4 and 5 and bytes 6 and 7 taken as big-endian `u16`,
/// the last is bytes 8 to 15 in order.
#[verifier::external_body]
fn uuid_fields(bytes: [u8; 16]) -> (res: (u32, u16, u16, [u8; 8]))
    ensures
        res.0 == be_value(bytes@, 0, 4),
        res.1 == be_value(bytes@, 4, 6),
        res.2 == be_value(bytes@, 6, 8),
        res.3@ == bytes@.subrange(8, 16),
{
    let uuid = uuid::Uuid::from_bytes(bytes);
    let (data1, data2, data3, data4) = uuid.as_fields();
    (data1, data2, data3, *data4)
}

/// The GUID of the UUID whose bytes are `uuid_bytes`.
pub fn to_guid(uuid_bytes: [u8; 16]) -> (res: Guid)
    ensures
        res.data1 == be_value(uuid_bytes@, 0, 4),
        res.data2 == be_value(uuid_bytes@, 4, 6),
        res.data3 == be_value(uuid_bytes@, 6, 8),
        res.data4@ == uuid_bytes@.subrange(8, 16),
{
    let (data1, data2, data3, data4) = uuid_fields(uuid_bytes);
    Guid { data1, data2, data3, data4 }
}

/// The version of Wireshark that is ABI-incompatible with its own
/// release series: "4.0.4".
pub open spec fn abi_incompatible_version() -> Seq<u8> {
    seq![0x34u8, 0x2e, 0x30, 0x2e, 0x34]
}

/// Whether `version` names the Wireshark version whose ABI does not
/// match the plugin, so that registering must not go on.
pub fn wireshark_version_is_abi_incompatible(version: &[u8]) -> (res: bool)
    ensures
        res == (version@ == abi_incompatible_version()),
{
    let expected: [u8; 5] = [0x34, 0x2e, 0x30, 0x2e, 0x34];
    assert(expected@ =~= abi_incompatible_version());
    if version.len() != 5 {
        return false;
    }
    let mut i: usize = 0;
    while i < 5
        invariant
            version@.len() == 5,
            expected@ == abi_incompatible_version(),
            i <= 5,
            forall|j: int| 0 <= j < i ==> version@[j] == expected@[j],
        decreases 5 - i,
    {
        if version[i] != expected[i] {
            return false;
        }
        i = i + 1;
    }
    assert(version@ =~= abi_incompatible_version());
    true
}

} // verus!
