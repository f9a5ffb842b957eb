//! The variable-length integer format of the Teeworlds protocol.
//!
//! An `i32` is packed into one to five bytes.  The first byte holds the
//! sign in bit 6 and the six lowest bits of the magnitude, every further
//! byte seven more bits; bit 7 of a byte says that another byte follows.
//! A negative value `v` is stored through its magnitude `-1 - v`.

use vstd::prelude::*;

verus! {

/// Irregularities that a reader reports but that do not stop it.
#[derive(Clone, Copy, Debug, PartialEq, Eq, Structural)]
pub enum Warning {
    /// The integer used more bytes than its value needs.
    OverlongIntEncoding,
    /// The unused high bits of a fifth byte were not zero.
    NonZeroIntPadding,
}

/// The input ended inside an integer, or before one.
#[derive(Clone, Copy, Debug, PartialEq, Eq, Structural)]
pub struct UnexpectedEnd;

/// An integer lay outside the range that the caller accepts.
#[derive(Clone, Copy, Debug, PartialEq, Eq, Structural)]
pub struct IntOutOfRange;

/// The output had no room for what was to be written.
#[derive(Clone, Copy, Debug, PartialEq, Eq, Structural)]
pub struct CapacityError;

// ---------------------------------------------------------------------
// The format, as mathematics
// ---------------------------------------------------------------------

/// Bit 7 of a byte: another byte of the same integer follows.
pub open spec fn has_more(b: u8) -> bool {
    b >= 0x80
}

/// How many bytes the integer at the start of `s` occupies: up to and
/// including the first byte without `has_more`, and never more than five.
/// Where `s` ends first, the result exceeds `s.len()`.
pub open spec fn packed_len(s: Seq<u8>) -> int {
    if s.len() <= 0 || !has_more(s[0]) {
        1
    } else if s.len() <= 1 || !has_more(s[1]) {
        2
    } else if s.len() <= 2 || !has_more(s[2]) {
        3
    } else if s.len() <= 3 || !has_more(s[3]) {
        4
    } else {
        5
    }
}

/// The weight of byte `k` of a packed integer: 1, then 2^6, 2^13, 2^20,
/// 2^27; and 2^34 past the last byte.
pub open spec fn chunk_weight(k: int) -> int {
    if k <= 0 {
        1
    } else if k == 1 {
        0x40
    } else if k == 2 {
        0x2000
    } else if k == 3 {
        0x10_0000
    } else if k == 4 {
        0x800_0000
    } else {
        0x4_0000_0000
    }
}

/// What byte `k` contributes to the magnitude: six bits of the first
/// byte, seven of each further one, at their weight.
pub open spec fn chunk(s: Seq<u8>, k: int) -> int {
    if k == 0 {
        (s[0] % 64) as int
    } else {
        (s[k] % 128) * chunk_weight(k)
    }
}

/// The sum of the contributions of the first `n` bytes.
pub open spec fn raw_prefix(s: Seq<u8>, n: int) -> int
    decreases n,
{
    if n <= 0 {
        0
    } else {
        raw_prefix(s, n - 1) + chunk(s, n - 1)
    }
}

/// The `i32` whose two's complement bit pattern is `r` (for `0 <= r < 2^32`).
pub open spec fn wrap_i32(r: int) -> int {
    if r < 0x8000_0000 {
        r
    } else {
        r - 0x1_0000_0000
    }
}

/// Bit 6 of the first byte: the value is negative.
pub open spec fn sign_bit(b: u8) -> bool {
    b % 128 >= 64
}

/// The value of the integer at the start of `s`: the magnitude is taken
/// to 32 bits, and a set sign bit turns `x` into `-1 - x`.
pub open spec fn packed_value(s: Seq<u8>) -> int {
    let x = wrap_i32(raw_prefix(s, packed_len(s)) % 0x1_0000_0000);
    if sign_bit(s[0]) {
        -1 - x
    } else {
        x
    }
}

/// The warnings that reading the integer at the start of `s` gives, in
/// order: a fifth byte with any of its four high bits set, then a last
/// byte that is zero in an integer of more than one byte.
pub open spec fn packed_warnings(s: Seq<u8>) -> Seq<Warning> {
    let n = packed_len(s);
    (if n == 5 && s[4] >= 16 {
        seq![Warning::NonZeroIntPadding]
    } else {
        Seq::empty()
    }) + (if n > 1 && s[n - 1] == 0 {
        seq![Warning::OverlongIntEncoding]
    } else {
        Seq::empty()
    })
}

/// Reading one integer from `s`: how many bytes it takes, its value and
/// the warnings; `None` where `s` ends before the integer does.
pub open spec fn spec_read_int(s: Seq<u8>) -> Option<(int, i32, Seq<Warning>)> {
    if packed_len(s) <= s.len() {
        Some((packed_len(s), packed_value(s) as i32, packed_warnings(s)))
    } else {
        None
    }
}

/// The magnitude stored for `v`: `v` itself, or `-1 - v` when negative.
pub open spec fn magnitude(v: i32) -> int {
    if v < 0 {
        -1 - v
    } else {
        v as int
    }
}

/// The number of bytes the writer uses for a magnitude `x`: the fewest
/// that hold it.
pub open spec fn encoded_len(x: int) -> int {
    if x < 0x40 {
        1
    } else if x < 0x2000 {
        2
    } else if x < 0x10_0000 {
        3
    } else if x < 0x800_0000 {
        4
    } else {
        5
    }
}

/// Byte `k` of the packed form of `v`.
pub open spec fn encoded_byte(v: i32, k: int) -> u8 {
    let x = magnitude(v);
    let more: int = if k + 1 < encoded_len(x) {
        128
    } else {
        0
    };
    if k == 0 {
        (x % 64 + (if v < 0 {
            64int
        } else {
            0int
        }) + more) as u8
    } else {
        ((x / chunk_weight(k)) % 128 + more) as u8
    }
}

/// The packed form of `v`, as the writer produces it.
pub open spec fn packed_int(v: i32) -> Seq<u8> {
    Seq::new(encoded_len(magnitude(v)) as nat, |k: int| encoded_byte(v, k))
}

// ---------------------------------------------------------------------
// Lemmas
// ---------------------------------------------------------------------

proof fn lemma_raw_prefix_bound(s: Seq<u8>, n: int)
    requires
        0 <= n <= 5,
        n <= s.len(),
    ensures
        0 <= raw_prefix(s, n) < chunk_weight(n),
    decreases n,
{
    if n > 0 {
        lemma_raw_prefix_bound(s, n - 1);
    }
}

proof fn lemma_raw_prefix_depends_on_prefix(s: Seq<u8>, t: Seq<u8>, n: int)
    requires
        0 <= n <= s.len(),
        n <= t.len(),
        forall|j: int| 0 <= j < n ==> s[j] == t[j],
    ensures
        raw_prefix(s, n) == raw_prefix(t, n),
    decreases n,
{
    if n > 0 {
        lemma_raw_prefix_depends_on_prefix(s, t, n - 1);
    }
}

/// Splitting a magnitude into its packed chunks and summing them back.
proof fn lemma_chunks_sum(x: int)
    requires
        0 <= x < 0x8000_0000,
    ensures
        ({
            let n = encoded_len(x);
            &&& x % 64 + ((x / 0x40) % 128) * 0x40 + ((x / 0x2000) % 128) * 0x2000 + ((x / 0x10_0000)
                % 128) * 0x10_0000 + ((x / 0x800_0000) % 128) * 0x800_0000 == x
            &&& n <= 4 ==> x / chunk_weight(n) == 0
            &&& n >= 2 ==> (x / chunk_weight(n - 1)) % 128 != 0
            &&& n == 5 ==> (x / 0x800_0000) % 128 < 16
        }),
{
    let a = x / 0x40;
    let b = x / 0x2000;
    let c = x / 0x10_0000;
    let d = x / 0x800_0000;
    assert(a / 128 == b) by {
        vstd::arithmetic::div_mod::lemma_div_denominator(x, 0x40, 128);
    }
    assert(b / 128 == c) by {
        vstd::arithmetic::div_mod::lemma_div_denominator(x, 0x2000, 128);
    }
    assert(c / 128 == d) by {
        vstd::arithmetic::div_mod::lemma_div_denominator(x, 0x10_0000, 128);
    }
    assert(d < 16);
    assert(x == x % 64 + 64 * a);
    assert(a == a % 128 + 128 * b);
    assert(b == b % 128 + 128 * c);
    assert(c == c % 128 + 128 * d);
}

proof fn lemma_packed_bytes(v: i32)
    ensures
        ({
            let x = magnitude(v);
            let n = encoded_len(x);
            let p = packed_int(v);
            &&& 0 <= x < 0x8000_0000
            &&& p.len() == n
            &&& forall|j: int| 0 <= j < n - 1 ==> has_more(#[trigger] p[j])
            &&& !has_more(p[n - 1])
            &&& p[0] % 64 == x % 64
            &&& sign_bit(p[0]) == (v < 0)
            &&& forall|j: int| 1 <= j < n ==> #[trigger] p[j] % 128 == (x / chunk_weight(j)) % 128
            &&& n > 1 ==> p[n - 1] != 0
            &&& n == 5 ==> p[4] < 16
        }),
{
    let x = magnitude(v);
    let n = encoded_len(x);
    let p = packed_int(v);
    lemma_chunks_sum(x);
    assert forall|j: int| 1 <= j < n implies #[trigger] p[j] % 128 == (x / chunk_weight(j)) % 128 by {
        let c = (x / chunk_weight(j)) % 128;
        assert(0 <= c < 128);
        if j + 1 < n {
            assert(p[j] == c + 128);
        } else {
            assert(p[j] == c);
        }
    }
    let c0 = x % 64;
    if n > 1 {
        assert(p[0] == c0 + (if v < 0 { 64int } else { 0int }) + 128);
    } else {
        assert(p[0] == c0 + (if v < 0 { 64int } else { 0int }));
    }
}

proof fn lemma_packed_raw(v: i32)
    ensures
        raw_prefix(packed_int(v), encoded_len(magnitude(v))) == magnitude(v),
{
    let x = magnitude(v);
    let n = encoded_len(x);
    let p = packed_int(v);
    lemma_packed_bytes(v);
    lemma_chunks_sum(x);
    let c0 = x % 64;
    let c1 = ((x / 0x40) % 128) * 0x40;
    let c2 = ((x / 0x2000) % 128) * 0x2000;
    let c3 = ((x / 0x10_0000) % 128) * 0x10_0000;
    let c4 = ((x / 0x800_0000) % 128) * 0x800_0000;
    assert(chunk(p, 0) == c0);
    assert(raw_prefix(p, 1) == c0) by {
        reveal_with_fuel(raw_prefix, 2);
    }
    if n >= 2 {
        assert(p[1] % 128 == (x / 0x40) % 128);
        assert(chunk(p, 1) == c1);
        assert(raw_prefix(p, 2) == c0 + c1);
    }
    if n >= 3 {
        assert(p[2] % 128 == (x / 0x2000) % 128);
        assert(chunk(p, 2) == c2);
        assert(raw_prefix(p, 3) == c0 + c1 + c2);
    }
    if n >= 4 {
        assert(p[3] % 128 == (x / 0x10_0000) % 128);
        assert(chunk(p, 3) == c3);
        assert(raw_prefix(p, 4) == c0 + c1 + c2 + c3);
    }
    if n >= 5 {
        assert(p[4] % 128 == (x / 0x800_0000) % 128);
        assert(chunk(p, 4) == c4);
        assert(raw_prefix(p, 5) == c0 + c1 + c2 + c3 + c4);
    }
    if n == 1 {
        assert(x / 0x40 == 0);
    } else if n == 2 {
        assert(x / 0x2000 == 0);
        assert((x / 0x2000) % 128 == 0);
        assert((x / 0x10_0000) % 128 == 0) by {
            vstd::arithmetic::div_mod::lemma_div_is_ordered(x, 0x2000 - 1, 0x10_0000);
        }
        assert((x / 0x800_0000) % 128 == 0) by {
            vstd::arithmetic::div_mod::lemma_div_is_ordered(x, 0x2000 - 1, 0x800_0000);
        }
    } else if n == 3 {
        assert(x / 0x10_0000 == 0);
        assert((x / 0x800_0000) % 128 == 0) by {
            vstd::arithmetic::div_mod::lemma_div_is_ordered(x, 0x10_0000 - 1, 0x800_0000);
        }
    } else if n == 4 {
        assert(x / 0x800_0000 == 0);
    }
}

/// What a read gives back of a write: the packed form of `v`, followed by
/// anything, reads as `v`, takes exactly the packed bytes and gives no
/// warning.
pub proof fn lemma_read_packed_int(v: i32, rest: Seq<u8>)
    ensures
        spec_read_int(packed_int(v) + rest) == Some(
            (packed_int(v).len() as int, v, Seq::<Warning>::empty()),
        ),
{
    let x = magnitude(v);
    let n = encoded_len(x);
    let p = packed_int(v);
    let s = p + rest;
    lemma_packed_bytes(v);
    lemma_packed_raw(v);
    assert forall|j: int| 0 <= j < n implies s[j] == p[j] by {}
    assert(packed_len(s) == n);
    lemma_raw_prefix_depends_on_prefix(s, p, n);
    assert(raw_prefix(s, n) == x);
    assert(x % 0x1_0000_0000 == x);
    assert(packed_value(s) == v);
    assert(packed_warnings(s) =~= Seq::<Warning>::empty());
}

/// A magnitude made of its chunk digits gives back each digit.
proof fn lemma_digits(d0: int, d1: int, d2: int, d3: int, d4: int)
    requires
        0 <= d0 < 64,
        0 <= d1 < 128,
        0 <= d2 < 128,
        0 <= d3 < 128,
        0 <= d4 < 128,
    ensures
        ({
            let x = d0 + d1 * 0x40 + d2 * 0x2000 + d3 * 0x10_0000 + d4 * 0x800_0000;
            &&& x % 64 == d0
            &&& (x / 0x40) % 128 == d1
            &&& (x / 0x2000) % 128 == d2
            &&& (x / 0x10_0000) % 128 == d3
            &&& (x / 0x800_0000) % 128 == d4
        }),
{
    let x = d0 + d1 * 0x40 + d2 * 0x2000 + d3 * 0x10_0000 + d4 * 0x800_0000;
    let q1 = d1 + 128 * (d2 + 128 * (d3 + 128 * d4));
    vstd::arithmetic::div_mod::lemma_fundamental_div_mod_converse(x, 0x40, q1, d0);
    vstd::arithmetic::div_mod::lemma_fundamental_div_mod_converse(
        q1,
        128,
        d2 + 128 * (d3 + 128 * d4),
        d1,
    );
    let q2 = d2 + 128 * (d3 + 128 * d4);
    vstd::arithmetic::div_mod::lemma_fundamental_div_mod_converse(
        x,
        0x2000,
        q2,
        d0 + d1 * 0x40,
    );
    vstd::arithmetic::div_mod::lemma_fundamental_div_mod_converse(q2, 128, d3 + 128 * d4, d2);
    let q3 = d3 + 128 * d4;
    vstd::arithmetic::div_mod::lemma_fundamental_div_mod_converse(
        x,
        0x10_0000,
        q3,
        d0 + d1 * 0x40 + d2 * 0x2000,
    );
    vstd::arithmetic::div_mod::lemma_fundamental_div_mod_converse(q3, 128, d4, d3);
    vstd::arithmetic::div_mod::lemma_fundamental_div_mod_converse(
        x,
        0x800_0000,
        d4,
        d0 + d1 * 0x40 + d2 * 0x2000 + d3 * 0x10_0000,
    );
    vstd::arithmetic::div_mod::lemma_fundamental_div_mod_converse(d4, 128, 0, d4);
}

/// Digit `k` of the integer of `n` bytes at the start of `s`.
spec fn read_digit(s: Seq<u8>, n: int, k: int) -> int {
    if k >= n {
        0
    } else if k == 0 {
        (s[0] % 64) as int
    } else {
        (s[k] % 128) as int
    }
}

/// The magnitude of the integer of `n` bytes at the start of `s`, by digits.
spec fn digits_value(s: Seq<u8>, n: int) -> int {
    read_digit(s, n, 0) + read_digit(s, n, 1) * 0x40 + read_digit(s, n, 2) * 0x2000
        + read_digit(s, n, 3) * 0x10_0000 + read_digit(s, n, 4) * 0x800_0000
}

proof fn lemma_raw_prefix_digits(s: Seq<u8>, n: int)
    requires
        1 <= n <= 5,
        n <= s.len(),
    ensures
        raw_prefix(s, n) == digits_value(s, n),
{
    reveal_with_fuel(raw_prefix, 6);
}

/// Where a read gives no warning, the magnitude fits 31 bits and takes
/// exactly as many bytes as were read.
proof fn lemma_warning_free_magnitude(s: Seq<u8>)
    requires
        spec_read_int(s) is Some,
        spec_read_int(s).unwrap().2.len() == 0,
    ensures
        0 <= digits_value(s, packed_len(s)) < 0x8000_0000,
        encoded_len(digits_value(s, packed_len(s))) == packed_len(s),
        raw_prefix(s, packed_len(s)) == digits_value(s, packed_len(s)),
{
    let n = packed_len(s);
    let x = digits_value(s, n);
    lemma_raw_prefix_digits(s, n);
    lemma_raw_prefix_bound(s, n);
    assert(!(n == 5 && s[4] >= 16)) by {
        if n == 5 && s[4] >= 16 {
            assert(packed_warnings(s).len() > 0);
        }
    }
    assert(!(n > 1 && s[n - 1] == 0)) by {
        if n > 1 && s[n - 1] == 0 {
            assert(packed_warnings(s).len() > 0);
        }
    }
    assert(!has_more(s[n - 1]));
    if n >= 2 {
        assert(read_digit(s, n, n - 1) >= 1);
        assert(x >= chunk_weight(n - 1));
    }
}

/// What a write gives back of a read: where reading the integer at the
/// start of `s` succeeds without a warning, packing its value gives back
/// exactly the bytes it was read from.  So the written form is the only
/// one that reads without a warning.
pub proof fn lemma_pack_read_int(s: Seq<u8>)
    requires
        spec_read_int(s) is Some,
        spec_read_int(s).unwrap().2.len() == 0,
    ensures
        packed_int(spec_read_int(s).unwrap().1) == s.take(spec_read_int(s).unwrap().0),
{
    let n = packed_len(s);
    let v = spec_read_int(s).unwrap().1;
    let x = digits_value(s, n);
    lemma_warning_free_magnitude(s);
    lemma_digits(
        read_digit(s, n, 0),
        read_digit(s, n, 1),
        read_digit(s, n, 2),
        read_digit(s, n, 3),
        read_digit(s, n, 4),
    );
    assert(magnitude(v) == x && (v < 0) == sign_bit(s[0])) by {
        assert(x % 0x1_0000_0000 == x);
        assert(wrap_i32(x) == x);
    }
    let p = packed_int(v);
    assert forall|k: int| 0 <= k < n implies #[trigger] p[k] == s.take(n)[k] by {
        assert(p[k] == encoded_byte(v, k));
        if k + 1 < n {
            assert(has_more(s[k]));
        } else {
            assert(!has_more(s[k]));
        }
        if k == 0 {
            assert(p[0] == s[0]);
        } else if k == 1 {
            assert(p[1] == s[1]);
        } else if k == 2 {
            assert(p[2] == s[2]);
        } else if k == 3 {
            assert(p[3] == s[3]);
        } else {
            assert(p[4] == s[4]);
        }
    }
    assert(p =~= s.take(n));
}

// ---------------------------------------------------------------------
// Reading
// ---------------------------------------------------------------------

fn chunk_weight_exec(k: usize) -> (w: u64)
    requires
        k <= 5,
    ensures
        w == chunk_weight(k as int),
{
    if k == 0 {
        1
    } else if k == 1 {
        0x40
    } else if k == 2 {
        0x2000
    } else if k == 3 {
        0x10_0000
    } else if k == 4 {
        0x800_0000
    } else {
        0x4_0000_0000
    }
}

/// A reader of packed integers from a byte slice.
pub struct Unpacker<'a> {
    data: &'a [u8],
    pos: usize,
}

impl<'a> Unpacker<'a> {
    #[verifier::type_invariant]
    spec fn inv(self) -> bool {
        self.pos <= self.data@.len()
    }

    /// The bytes not yet read.
    pub closed spec fn remaining(&self) -> Seq<u8> {
        self.data@.subrange(self.pos as int, self.data@.len() as int)
    }

    /// A reader at the start of `data`.
    pub fn new(data: &'a [u8]) -> (res: Unpacker<'a>)
        ensures
            res.remaining() == data@,
    {
        let res = Unpacker { data, pos: 0 };
        assert(res.remaining() =~= data@);
        res
    }

    /// The bytes not yet read.
    pub fn as_slice(&self) -> (res: &'a [u8])
        ensures
            res@ == self.remaining(),
    {
        proof {
            use_type_invariant(self);
        }
        vstd::slice::slice_subrange(self.data, self.pos, self.data.len())
    }

    /// Reads one packed integer and appends its warnings to `warn`.
    /// Where the bytes end before the integer does, the reader has used
    /// them all and the result is `UnexpectedEnd`.
    pub fn read_int(&mut self, warn: &mut Vec<Warning>) -> (res: Result<i32, UnexpectedEnd>)
        ensures
            match spec_read_int(old(self).remaining()) {
                Some((n, v, ws)) => {
                    &&& res == Ok::<i32, UnexpectedEnd>(v)
                    &&& final(self).remaining() == old(self).remaining().skip(n)
                    &&& final(warn)@ == old(warn)@ + ws
                },
                None => {
                    &&& res == Err::<i32, UnexpectedEnd>(UnexpectedEnd)
                    &&& final(self).remaining() == Seq::<u8>::empty()
                    &&& final(warn)@ == old(warn)@
                },
            },
    {
        proof {
            use_type_invariant(&*self);
        }
        let ghost s = self.remaining();
        let ghost start = self.pos as int;
        let len = self.data.len();
        if self.pos >= len {
            assert(s.len() == 0);
            assert(self.remaining() =~= Seq::<u8>::empty());
            return Err(UnexpectedEnd);
        }
        let first = self.data[self.pos];
        self.pos = self.pos + 1;
        let mut raw: u64 = (first % 64) as u64;
        let mut last: u8 = first;
        let mut n: usize = 1;
        assert(s.len() == len - start);
        assert(s[0] == first);
        assert(raw_prefix(s, 1) == raw) by {
            reveal_with_fuel(raw_prefix, 2);
        }
        while n < 5 && last >= 0x80
            invariant
                0 <= start < len,
                s == old(self).remaining(),
                warn@ == old(warn)@,
                len == self.data@.len(),
                s == self.data@.subrange(start, len as int),
                s.len() == len - start,
                1 <= n <= 5,
                self.pos == start + n,
                self.pos <= len,
                n <= s.len(),
                last == s[n - 1],
                raw == raw_prefix(s, n as int),
                raw < chunk_weight(n as int),
                forall|j: int| 0 <= j < n - 1 ==> has_more(#[trigger] s[j]),
            decreases 5 - n,
        {
            if self.pos >= len {
                proof {
                    assert(packed_len(s) > s.len());
                }
                self.pos = len;
                assert(self.remaining() =~= Seq::<u8>::empty());
                return Err(UnexpectedEnd);
            }
            let b = self.data[self.pos];
            assert(b == s[n as int]);
            self.pos = self.pos + 1;
            proof {
                lemma_raw_prefix_bound(s, n as int + 1);
                assert(raw_prefix(s, n as int + 1) == raw + (b % 128) * chunk_weight(n as int));
            }
            let w = chunk_weight_exec(n);
            raw = raw + (b % 128) as u64 * w;
            last = b;
            n = n + 1;
        }
        assert(packed_len(s) == n);
        if n == 5 && last >= 16 {
            warn.push(Warning::NonZeroIntPadding);
        }
        if n > 1 && last == 0 {
            warn.push(Warning::OverlongIntEncoding);
        }
        let r: u64 = raw % 0x1_0000_0000;
        let x: i64 = if r < 0x8000_0000 {
            r as i64
        } else {
            r as i64 - 0x1_0000_0000
        };
        let v: i64 = if first % 128 >= 64 {
            -1 - x
        } else {
            x
        };
        assert(self.remaining() =~= s.skip(n as int));
        Ok(v as i32)
    }
}

// ---------------------------------------------------------------------
// Writing
// ---------------------------------------------------------------------

/// The packed form of `v`.
pub fn pack_int(v: i32) -> (res: Vec<u8>)
    ensures
        res@ == packed_int(v),
{
    let neg = v < 0;
    let x: u32 = if neg {
        (-1 - v) as u32
    } else {
        v as u32
    };
    let n: usize = if x < 0x40 {
        1
    } else if x < 0x2000 {
        2
    } else if x < 0x10_0000 {
        3
    } else if x < 0x800_0000 {
        4
    } else {
        5
    };
    let mut res: Vec<u8> = Vec::new();
    let mut k: usize = 0;
    while k < n
        invariant
            x == magnitude(v),
            neg == (v < 0),
            n == encoded_len(x as int),
            k <= n,
            res@ == Seq::new(k as nat, |j: int| encoded_byte(v, j)),
        decreases n - k,
    {
        let more: u64 = if k + 1 < n {
            128
        } else {
            0
        };
        let b: u64 = if k == 0 {
            (x % 64) as u64 + (if neg {
                64u64
            } else {
                0u64
            }) + more
        } else {
            ((x as u64) / chunk_weight_exec(k)) % 128 + more
        };
        res.push(b as u8);
        k = k + 1;
        assert(res@ =~= Seq::new(k as nat, |j: int| encoded_byte(v, j)));
    }
    res
}

/// A writer of packed integers into a buffer of fixed capacity.
pub struct Packer {
    buf: Vec<u8>,
    capacity: usize,
}

impl Packer {
    #[verifier::type_invariant]
    spec fn inv(self) -> bool {
        self.buf@.len() <= self.capacity
    }

    /// The bytes written so far.
    pub closed spec fn written_bytes(&self) -> Seq<u8> {
        self.buf@
    }

    /// How many bytes the buffer holds at most.
    pub closed spec fn capacity(&self) -> nat {
        self.capacity as nat
    }

    /// An empty writer that holds at most `capacity` bytes.
    pub fn new(capacity: usize) -> (res: Packer)
        ensures
            res.written_bytes() == Seq::<u8>::empty(),
            res.capacity() == capacity,
    {
        Packer { buf: Vec::new(), capacity }
    }

    /// Appends the packed form of `v`, or, where it does not fit, leaves
    /// the buffer as it is and fails.
    pub fn write_int(&mut self, v: i32) -> (res: Result<(), CapacityError>)
        ensures
            final(self).capacity() == old(self).capacity(),
            old(self).written_bytes().len() + packed_int(v).len() <= old(self).capacity() ==> {
                &&& res is Ok
                &&& final(self).written_bytes() == old(self).written_bytes() + packed_int(v)
            },
            old(self).written_bytes().len() + packed_int(v).len() > old(self).capacity() ==> {
                &&& res == Err::<(), CapacityError>(CapacityError)
                &&& final(self).written_bytes() == old(self).written_bytes()
            },
    {
        proof {
            use_type_invariant(&*self);
        }
        let mut bytes = pack_int(v);
        if bytes.len() <= self.capacity - self.buf.len() {
            let mut buf: Vec<u8> = Vec::new();
            std::mem::swap(&mut buf, &mut self.buf);
            buf.append(&mut bytes);
            self.buf = buf;
            Ok(())
        } else {
            Err(CapacityError)
        }
    }

    /// The bytes written so far.
    pub fn written(&self) -> (res: &[u8])
        ensures
            res@ == self.written_bytes(),
    {
        self.buf.as_slice()
    }

    /// The bytes written, handed over.
    pub fn into_written(self) -> (res: Vec<u8>)
        ensures
            res@ == self.written_bytes(),
    {
        self.buf
    }
}

// ---------------------------------------------------------------------
// Reading integers that are already decoded
// ---------------------------------------------------------------------

/// A reader of integers from a slice of already decoded integers.
pub struct IntUnpacker<'a> {
    data: &'a [i32],
    pos: usize,
}

impl<'a> IntUnpacker<'a> {
    #[verifier::type_invariant]
    spec fn inv(self) -> bool {
        self.pos <= self.data@.len()
    }

    /// The integers not yet read.
    pub closed spec fn remaining(&self) -> Seq<i32> {
        self.data@.subrange(self.pos as int, self.data@.len() as int)
    }

    /// A reader at the start of `data`.
    pub fn new(data: &'a [i32]) -> (res: IntUnpacker<'a>)
        ensures
            res.remaining() == data@,
    {
        let res = IntUnpacker { data, pos: 0 };
        assert(res.remaining() =~= data@);
        res
    }

    /// Reads the next integer.
    pub fn read_int(&mut self) -> (res: Result<i32, UnexpectedEnd>)
        ensures
            old(self).remaining().len() > 0 ==> {
                &&& res == Ok::<i32, UnexpectedEnd>(old(self).remaining()[0])
                &&& final(self).remaining() == old(self).remaining().drop_first()
            },
            old(self).remaining().len() == 0 ==> {
                &&& res == Err::<i32, UnexpectedEnd>(UnexpectedEnd)
                &&& final(self).remaining() == old(self).remaining()
            },
    {
        proof {
            use_type_invariant(&*self);
        }
        if self.pos < self.data.len() {
            let v = self.data[self.pos];
            self.pos = self.pos + 1;
            assert(self.remaining() =~= old(self).remaining().drop_first());
            Ok(v)
        } else {
            Err(UnexpectedEnd)
        }
    }
}

/// Accepts a non-negative integer.
pub fn positive(value: i32) -> (res: Result<i32, IntOutOfRange>)
    ensures
        res == (if value >= 0 {
            Ok::<i32, IntOutOfRange>(value)
        } else {
            Err::<i32, IntOutOfRange>(IntOutOfRange)
        }),
{
    if value >= 0 {
        Ok(value)
    } else {
        Err(IntOutOfRange)
    }
}

} // verus!
