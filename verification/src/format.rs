//! The snapshot format: item keys and the headers of snapshots and deltas.

use vstd::prelude::*;
use crate::packer;
use crate::packer::{
    packed_int, spec_read_int, CapacityError, IntUnpacker, Packer, Unpacker,
};

verus! {

/// What decoding a snapshot can warn about.
#[derive(Clone, Copy, Debug, PartialEq, Eq, Structural)]
pub enum Warning {
    Packer(packer::Warning),
    NonZeroPadding,
    DuplicateDelete,
    DuplicateUpdate,
    UnknownDelete,
    DeleteUpdate,
    NumUpdatedItems,
    ExcessSnapData,
}

impl From<packer::Warning> for Warning {
    fn from(w: packer::Warning) -> (res: Warning) {
        Warning::Packer(w)
    }
}

impl vstd::std_specs::convert::FromSpecImpl<packer::Warning> for Warning {
    open spec fn obeys_from_spec() -> bool {
        true
    }

    open spec fn from_spec(w: packer::Warning) -> Warning {
        Warning::Packer(w)
    }
}

/// Why decoding a snapshot header failed.
#[derive(Clone, Copy, Debug, PartialEq, Eq, Structural)]
pub enum Error {
    /// The data ended before the header did.
    UnexpectedEnd,
    /// A size or count was negative.
    IntOutOfRange,
}

// ---------------------------------------------------------------------
// Item keys
// ---------------------------------------------------------------------

/// The 32 bits of a key.
pub open spec fn key_bits(key: i32) -> u32 {
    key as u32
}

/// The type id of a key: its high 16 bits.
pub open spec fn spec_key_to_type_id(key: i32) -> u16 {
    (key_bits(key) / 0x10000) as u16
}

/// The id of a key: its low 16 bits.
pub open spec fn spec_key_to_id(key: i32) -> u16 {
    (key_bits(key) % 0x10000) as u16
}

/// The key whose high 16 bits are `type_id` and whose low 16 bits are `id`.
pub open spec fn spec_key(type_id: u16, id: u16) -> i32 {
    (type_id as u32 * 0x10000 + id as u32) as u32 as i32
}

/// The type id of `key`.
pub fn key_to_type_id(key: i32) -> (res: u16)
    ensures
        res == spec_key_to_type_id(key),
{
    assert((((key as u32) >> 16u32) & 0xffffu32) == (key as u32) / 0x10000) by (bit_vector);
    (((key as u32) >> 16) & 0xffff) as u16
}

/// The id of `key`.
pub fn key_to_id(key: i32) -> (res: u16)
    ensures
        res == spec_key_to_id(key),
{
    assert(((key as u32) & 0xffffu32) == (key as u32) % 0x10000) by (bit_vector);
    ((key as u32) & 0xffff) as u16
}

/// The key made of `type_id` and `id`.
pub fn key(type_id: u16, id: u16) -> (res: i32)
    ensures
        res == spec_key(type_id, id),
{
    assert((((type_id as u32) << 16u32) | (id as u32)) == (type_id as u32 * 0x10000 + id as u32)
        as u32) by (bit_vector);
    (((type_id as u32) << 16) | (id as u32)) as i32
}

/// Splitting a key and joining its parts again gives the key back.
pub proof fn lemma_key_split_join(key: i32)
    ensures
        spec_key(spec_key_to_type_id(key), spec_key_to_id(key)) == key,
{
    let k = key as u32;
    assert(((k / 0x10000) as u16 as u32 * 0x10000 + (k % 0x10000) as u16 as u32) as u32 == k)
        by (bit_vector);
    assert((k as i32) == key) by (bit_vector)
        requires
            k == key as u32,
    ;
}

/// Joining a type id and an id into a key and splitting it again gives
/// them back.
pub proof fn lemma_key_join_split(type_id: u16, id: u16)
    ensures
        spec_key_to_type_id(spec_key(type_id, id)) == type_id,
        spec_key_to_id(spec_key(type_id, id)) == id,
{
    let k = (type_id as u32 * 0x10000 + id as u32) as u32;
    assert(k == type_id as u32 * 0x10000 + id as u32) by (bit_vector)
        requires
            k == (type_id as u32 * 0x10000 + id as u32) as u32,
    ;
    assert(((k as i32) as u32) == k) by (bit_vector);
}

/// An item of a snapshot: its type id, its id and its data.
#[derive(Clone, Copy, Debug)]
pub struct Item<'a> {
    pub type_id: u16,
    pub id: u16,
    pub data: &'a [i32],
}

impl<'a> Item<'a> {
    /// The item of key `key` with data `data`.
    pub fn from_key(key: i32, data: &'a [i32]) -> (res: Item<'a>)
        ensures
            res.type_id == spec_key_to_type_id(key),
            res.id == spec_key_to_id(key),
            res.data == data,
    {
        Item { type_id: key_to_type_id(key), id: key_to_id(key), data: data }
    }

    /// The key of the item.
    pub fn key(&self) -> (res: i32)
        ensures
            res == spec_key(self.type_id, self.id),
    {
        key(self.type_id, self.id)
    }
}

/// An item built from a key has that key.
pub proof fn lemma_item_key(key: i32, data: &[i32], item: Item)
    requires
        item.type_id == spec_key_to_type_id(key),
        item.id == spec_key_to_id(key),
        item.data == data,
    ensures
        spec_key(item.type_id, item.id) == key,
{
    lemma_key_split_join(key);
}

// ---------------------------------------------------------------------
// Headers
// ---------------------------------------------------------------------

/// Packer warnings, as snapshot warnings.
pub open spec fn wrap_warnings(ws: Seq<packer::Warning>) -> Seq<Warning> {
    ws.map_values(|w: packer::Warning| Warning::Packer(w))
}

/// Reading one non-negative integer from `s`: the value or the error, the
/// bytes left and the warnings given.
pub open spec fn spec_read_positive(s: Seq<u8>) -> (Result<i32, Error>, Seq<u8>, Seq<Warning>) {
    match spec_read_int(s) {
        None => (Err(Error::UnexpectedEnd), Seq::empty(), Seq::empty()),
        Some((n, v, ws)) => (
            if v >= 0 {
                Ok(v)
            } else {
                Err(Error::IntOutOfRange)
            },
            s.skip(n),
            wrap_warnings(ws),
        ),
    }
}

/// Reading two non-negative integers, the second only where the first
/// was read.
pub open spec fn spec_read_two_positive(s: Seq<u8>) -> (Result<(i32, i32), Error>, Seq<u8>, Seq<Warning>) {
    let (r1, s1, w1) = spec_read_positive(s);
    match r1 {
        Err(e) => (Err(e), s1, w1),
        Ok(a) => {
            let (r2, s2, w2) = spec_read_positive(s1);
            match r2 {
                Err(e) => (Err(e), s2, w1 + w2),
                Ok(b) => (Ok((a, b)), s2, w1 + w2),
            }
        },
    }
}

/// Decoding a snapshot header from `s`.
pub open spec fn spec_snap_header(s: Seq<u8>) -> (Result<SnapHeader, Error>, Seq<u8>, Seq<Warning>) {
    let (r, rest, ws) = spec_read_two_positive(s);
    match r {
        Err(e) => (Err(e), rest, ws),
        Ok((a, b)) => (Ok(SnapHeader { data_size: a, num_items: b }), rest, ws),
    }
}

/// Decoding a delta header from `s`: two non-negative counts and a
/// padding integer, which should be zero.
pub open spec fn spec_delta_header(s: Seq<u8>) -> (Result<DeltaHeader, Error>, Seq<u8>, Seq<Warning>) {
    let (r, rest, ws) = spec_read_two_positive(s);
    match r {
        Err(e) => (Err(e), rest, ws),
        Ok((a, b)) => match spec_read_int(rest) {
            None => (Err(Error::UnexpectedEnd), Seq::empty(), ws),
            Some((n, pad, pws)) => (
                Ok(DeltaHeader { num_deleted_items: a, num_updated_items: b }),
                rest.skip(n),
                ws + wrap_warnings(pws) + (if pad != 0 {
                    seq![Warning::NonZeroPadding]
                } else {
                    Seq::empty()
                }),
            ),
        },
    }
}

/// The bytes of an encoded delta header.
pub open spec fn delta_header_bytes(h: DeltaHeader) -> Seq<u8> {
    packed_int(h.num_deleted_items) + packed_int(h.num_updated_items) + packed_int(0)
}

/// Moves the packer warnings of `ws` into `warn`.
fn push_packer_warnings(warn: &mut Vec<Warning>, ws: &Vec<packer::Warning>)
    ensures
        final(warn)@ == old(warn)@ + wrap_warnings(ws@),
{
    let mut i: usize = 0;
    while i < ws.len()
        invariant
            i <= ws@.len(),
            warn@ == old(warn)@ + wrap_warnings(ws@.take(i as int)),
        decreases ws@.len() - i,
    {
        warn.push(Warning::Packer(ws[i]));
        i = i + 1;
        assert(wrap_warnings(ws@.take(i as int)) =~= wrap_warnings(ws@.take(i - 1)).push(
            Warning::Packer(ws@[i - 1]),
        ));
    }
    assert(ws@.take(ws@.len() as int) =~= ws@);
}

/// Reads one integer, passing its warnings on.
fn read_int_warn(warn: &mut Vec<Warning>, p: &mut Unpacker) -> (res: Result<i32, Error>)
    ensures
        match spec_read_int(old(p).remaining()) {
            None => {
                &&& res == Err::<i32, Error>(Error::UnexpectedEnd)
                &&& final(p).remaining() == Seq::<u8>::empty()
                &&& final(warn)@ == old(warn)@
            },
            Some((n, v, ws)) => {
                &&& res == Ok::<i32, Error>(v)
                &&& final(p).remaining() == old(p).remaining().skip(n)
                &&& final(warn)@ == old(warn)@ + wrap_warnings(ws)
            },
        },
{
    let mut pws: Vec<packer::Warning> = Vec::new();
    let r = p.read_int(&mut pws);
    push_packer_warnings(warn, &pws);
    match r {
        Ok(v) => Ok(v),
        Err(_) => {
            assert(wrap_warnings(pws@) =~= Seq::<Warning>::empty());
            Err(Error::UnexpectedEnd)
        },
    }
}

/// Reads one non-negative integer, passing its warnings on.
fn read_positive(warn: &mut Vec<Warning>, p: &mut Unpacker) -> (res: Result<i32, Error>)
    ensures
        res == spec_read_positive(old(p).remaining()).0,
        final(p).remaining() == spec_read_positive(old(p).remaining()).1,
        final(warn)@ == old(warn)@ + spec_read_positive(old(p).remaining()).2,
{
    let r = read_int_warn(warn, p);
    match r {
        Ok(v) => match packer::positive(v) {
            Ok(v) => Ok(v),
            Err(_) => Err(Error::IntOutOfRange),
        },
        Err(e) => {
            assert(old(warn)@ + Seq::<Warning>::empty() =~= old(warn)@);
            Err(e)
        },
    }
}

/// Reads two non-negative integers, passing their warnings on.
fn read_two_positive(warn: &mut Vec<Warning>, p: &mut Unpacker) -> (res: Result<(i32, i32), Error>)
    ensures
        res == spec_read_two_positive(old(p).remaining()).0,
        final(p).remaining() == spec_read_two_positive(old(p).remaining()).1,
        final(warn)@ == old(warn)@ + spec_read_two_positive(old(p).remaining()).2,
{
    let a = read_positive(warn, p);
    match a {
        Err(e) => Err(e),
        Ok(a) => {
            let b = read_positive(warn, p);
            assert(warn@ =~= old(warn)@ + spec_read_two_positive(old(p).remaining()).2);
            match b {
                Err(e) => Err(e),
                Ok(b) => Ok((a, b)),
            }
        },
    }
}

/// The header of a snapshot.
#[derive(Clone, Copy, Debug, PartialEq, Eq, Structural)]
pub struct SnapHeader {
    pub data_size: i32,
    pub num_items: i32,
}

impl SnapHeader {
    /// Decodes a snapshot header from packed bytes: two non-negative
    /// integers, the data size and the number of items.
    pub fn decode(warn: &mut Vec<Warning>, p: &mut Unpacker) -> (res: Result<SnapHeader, Error>)
        ensures
            res == spec_snap_header(old(p).remaining()).0,
            final(p).remaining() == spec_snap_header(old(p).remaining()).1,
            final(warn)@ == old(warn)@ + spec_snap_header(old(p).remaining()).2,
    {
        match read_two_positive(warn, p) {
            Ok((data_size, num_items)) => Ok(SnapHeader { data_size, num_items }),
            Err(e) => Err(e),
        }
    }

    /// Decodes a snapshot header from integers that are already unpacked.
    pub fn decode_obj(p: &mut IntUnpacker) -> (res: Result<SnapHeader, Error>)
        ensures
            ({
                let s = old(p).remaining();
                if s.len() == 0 {
                    &&& res == Err::<SnapHeader, Error>(Error::UnexpectedEnd)
                    &&& final(p).remaining() == s
                } else if s[0] < 0 {
                    &&& res == Err::<SnapHeader, Error>(Error::IntOutOfRange)
                    &&& final(p).remaining() == s.drop_first()
                } else if s.len() == 1 {
                    &&& res == Err::<SnapHeader, Error>(Error::UnexpectedEnd)
                    &&& final(p).remaining() == s.drop_first()
                } else if s[1] < 0 {
                    &&& res == Err::<SnapHeader, Error>(Error::IntOutOfRange)
                    &&& final(p).remaining() == s.skip(2)
                } else {
                    &&& res == Ok::<SnapHeader, Error>(
                        SnapHeader { data_size: s[0], num_items: s[1] },
                    )
                    &&& final(p).remaining() == s.skip(2)
                }
            }),
    {
        let ghost s = p.remaining();
        let data_size = match p.read_int() {
            Ok(v) => match packer::positive(v) {
                Ok(v) => v,
                Err(_) => {
                    return Err(Error::IntOutOfRange);
                },
            },
            Err(_) => {
                return Err(Error::UnexpectedEnd);
            },
        };
        let num_items = match p.read_int() {
            Ok(v) => match packer::positive(v) {
                Ok(v) => v,
                Err(_) => {
                    assert(s.drop_first().drop_first() =~= s.skip(2));
                    return Err(Error::IntOutOfRange);
                },
            },
            Err(_) => {
                return Err(Error::UnexpectedEnd);
            },
        };
        assert(s.drop_first().drop_first() =~= s.skip(2));
        Ok(SnapHeader { data_size, num_items })
    }
}

/// The header of a snapshot delta.
#[derive(Clone, Copy, Debug, PartialEq, Eq, Structural)]
pub struct DeltaHeader {
    pub num_deleted_items: i32,
    pub num_updated_items: i32,
}

impl DeltaHeader {
    /// Decodes a delta header from packed bytes: the number of deleted
    /// items and the number of updated items, both non-negative, then a
    /// padding integer; a padding other than zero gives a warning.
    pub fn decode(warn: &mut Vec<Warning>, p: &mut Unpacker) -> (res: Result<DeltaHeader, Error>)
        ensures
            res == spec_delta_header(old(p).remaining()).0,
            final(p).remaining() == spec_delta_header(old(p).remaining()).1,
            final(warn)@ == old(warn)@ + spec_delta_header(old(p).remaining()).2,
    {
        let (num_deleted_items, num_updated_items) = match read_two_positive(warn, p) {
            Ok(r) => r,
            Err(e) => {
                return Err(e);
            },
        };
        let result = DeltaHeader { num_deleted_items, num_updated_items };
        let ghost before = warn@;
        let pad = read_int_warn(warn, p);
        match pad {
            Err(e) => {
                assert(warn@ =~= before);
                Err(e)
            },
            Ok(pad) => {
                if pad != 0 {
                    warn.push(Warning::NonZeroPadding);
                } else {
                    assert(warn@ =~= warn@ + Seq::<Warning>::empty());
                }
                assert(warn@ =~= old(warn)@ + spec_delta_header(old(p).remaining()).2);
                Ok(result)
            },
        }
    }

    /// Encodes the header with `p`: the two counts and a zero padding.
    /// Fails where the bytes do not all fit into what `p` has room for.
    pub fn encode(&self, p: Packer) -> (res: Result<Vec<u8>, CapacityError>)
        ensures
            p.written_bytes().len() + delta_header_bytes(*self).len() <= p.capacity() ==> (res
                matches Ok(b) && b@ == p.written_bytes() + delta_header_bytes(*self)),
            p.written_bytes().len() + delta_header_bytes(*self).len() > p.capacity() ==> res
                == Err::<Vec<u8>, CapacityError>(CapacityError),
    {
        let mut p = p;
        let ghost w0 = p.written_bytes();
        let ghost b1 = packed_int(self.num_deleted_items);
        let ghost b2 = packed_int(self.num_updated_items);
        let ghost b3 = packed_int(0);
        assert(delta_header_bytes(*self) == b1 + b2 + b3);
        if p.write_int(self.num_deleted_items).is_err() {
            return Err(CapacityError);
        }
        if p.write_int(self.num_updated_items).is_err() {
            return Err(CapacityError);
        }
        if p.write_int(0).is_err() {
            return Err(CapacityError);
        }
        assert(p.written_bytes() =~= w0 + delta_header_bytes(*self));
        Ok(p.into_written())
    }
}

/// What decoding gives back of an encoding: a delta header with
/// non-negative counts, encoded and followed by anything, decodes to
/// itself, without warnings, and leaves exactly what followed.
pub proof fn lemma_delta_header_roundtrip(h: DeltaHeader, rest: Seq<u8>)
    requires
        h.num_deleted_items >= 0,
        h.num_updated_items >= 0,
    ensures
        spec_delta_header(delta_header_bytes(h) + rest) == (
            Ok::<DeltaHeader, Error>(h),
            rest,
            Seq::<Warning>::empty(),
        ),
{
    let b1 = packed_int(h.num_deleted_items);
    let b2 = packed_int(h.num_updated_items);
    let b3 = packed_int(0);
    let s = delta_header_bytes(h) + rest;
    assert(s =~= b1 + (b2 + (b3 + rest)));
    packer::lemma_read_packed_int(h.num_deleted_items, b2 + (b3 + rest));
    assert((b1 + (b2 + (b3 + rest))).skip(b1.len() as int) =~= b2 + (b3 + rest));
    packer::lemma_read_packed_int(h.num_updated_items, b3 + rest);
    assert((b2 + (b3 + rest)).skip(b2.len() as int) =~= b3 + rest);
    packer::lemma_read_packed_int(0, rest);
    assert((b3 + rest).skip(b3.len() as int) =~= rest);
    assert(wrap_warnings(Seq::<packer::Warning>::empty()) =~= Seq::<Warning>::empty());
    assert(spec_delta_header(s).2 =~= Seq::<Warning>::empty());
}

/// What decoding gives back of an encoding: the packed data size and
/// number of items of a snapshot header, followed by anything, decode to
/// that header, without warnings, and leave exactly what followed.
pub proof fn lemma_snap_header_roundtrip(h: SnapHeader, rest: Seq<u8>)
    requires
        h.data_size >= 0,
        h.num_items >= 0,
    ensures
        spec_snap_header(packed_int(h.data_size) + packed_int(h.num_items) + rest) == (
            Ok::<SnapHeader, Error>(h),
            rest,
            Seq::<Warning>::empty(),
        ),
{
    let b1 = packed_int(h.data_size);
    let b2 = packed_int(h.num_items);
    let s = b1 + b2 + rest;
    assert(s =~= b1 + (b2 + rest));
    packer::lemma_read_packed_int(h.data_size, b2 + rest);
    assert((b1 + (b2 + rest)).skip(b1.len() as int) =~= b2 + rest);
    packer::lemma_read_packed_int(h.num_items, rest);
    assert((b2 + rest).skip(b2.len() as int) =~= rest);
    assert(wrap_warnings(Seq::<packer::Warning>::empty()) =~= Seq::<Warning>::empty());
    assert(spec_snap_header(s).2 =~= Seq::<Warning>::empty());
}

} // verus!
