//! Codec 8: the AVL data packet with its records, GPS elements and IO elements.

use crate::bytes::{
    be16, be32, be64, concat_map, from_be16, from_be32, from_be64, get_u16, get_u32, get_u64,
    lemma_be16_roundtrip, lemma_be32_roundtrip, lemma_be64_roundtrip, lemma_be32_of_u16, lemma_concat_map_append, lemma_from_be16_roundtrip,
    lemma_from_be32_roundtrip, lemma_from_be64_roundtrip,
    lemma_concat_map_fixed, lemma_concat_map_push, lemma_concat_map_split, lemma_skip_into, lemma_slice_len_bound, lemma_splice_start, lemma_splice_then, put_u16, put_u32, put_u64,
    put_u8, splice,
};
use crate::error::AvlError;
use crate::{crc16, spec_crc16, AvlCodec};
use crate::stack::{
    n1_items, n1_items_new, n1_items_push, n1_items_slice, n2_items, n2_items_new, n2_items_push,
    n2_items_slice, n4_items, n4_items_new, n4_items_push, n4_items_slice, n8_items, n8_items_new,
    n8_items_push, n8_items_slice, record_items, record_items_new, record_items_push,
    record_items_slice,
};
use crate::StackVec;
use vstd::prelude::*;

verus! {

/// Codec identifier byte of Codec 8.
pub const CODEC8_TYPE_ID: u8 = 0x08;

/// Priority of an AVL data record; on the wire it is the byte 0, 1 or 2.
#[derive(Copy, Clone, Debug, PartialEq, Eq, Structural)]
pub enum Priority {
    Low,
    Medium,
    High,
}

/// The wire byte of a priority.
pub open spec fn priority_byte(p: Priority) -> u8 {
    match p {
        Priority::Low => 0,
        Priority::Medium => 1,
        Priority::High => 2,
    }
}

/// The priority a wire byte stands for, or the error for a byte outside 0..=2.
pub open spec fn priority_from_byte(b: u8) -> Result<Priority, AvlError> {
    if b == 0 {
        Ok(Priority::Low)
    } else if b == 1 {
        Ok(Priority::Medium)
    } else if b == 2 {
        Ok(Priority::High)
    } else {
        Err(AvlError::InvalidPriority(b))
    }
}

/// The wire byte of a priority.
fn priority_to_byte(p: Priority) -> (b: u8)
    ensures
        b == priority_byte(p),
{
    match p {
        Priority::Low => 0,
        Priority::Medium => 1,
        Priority::High => 2,
    }
}

impl TryFrom<u8> for Priority {
    type Error = AvlError;

    fn try_from(value: u8) -> (r: Result<Self, Self::Error>) {
        match value {
            0 => Ok(Priority::Low),
            1 => Ok(Priority::Medium),
            2 => Ok(Priority::High),
            value => Err(AvlError::InvalidPriority(value)),
        }
    }
}

impl vstd::std_specs::convert::TryFromSpecImpl<u8> for Priority {
    open spec fn obeys_try_from_spec() -> bool {
        true
    }

    open spec fn try_from_spec(v: u8) -> Result<Self, Self::Error> {
        priority_from_byte(v)
    }
}

/// A longitude or latitude in units of 1e-7 degree, the integer that is on the wire.
#[derive(Copy, Clone, Debug, PartialEq, Eq, Structural)]
pub struct Coordinate(pub i32);

/// The wire bytes of a coordinate.
pub open spec fn coordinate_bytes(c: Coordinate) -> Seq<u8> {
    be32(c.0 as u32)
}

/// The coordinate spelled by the first four bytes of `b`.
pub open spec fn coordinate_from(b: Seq<u8>) -> Coordinate {
    Coordinate(from_be32(b) as i32)
}

impl Coordinate {
    /// Number of coordinate units per degree.
    pub const PRECISION: i32 = 10000000;

    /// Writes the bytes of `self` at `pos`.
    pub(crate) fn write_at(&self, buf: &mut [u8], pos: usize)
        requires
            pos + 4 <= old(buf)@.len(),
        ensures
            final(buf)@ == splice(old(buf)@, pos as int, coordinate_bytes(*self)),
        final(buf)@.len() == old(buf)@.len(),
    {
        put_u32(buf, pos, self.0 as u32);
    }

    /// Writes the four big-endian bytes of the coordinate at the start of `buf`.
    pub fn encode(&self, buf: &mut [u8]) -> (n: usize)
        requires
            old(buf)@.len() >= 4,
        ensures
            n == 4,
            final(buf)@ == coordinate_bytes(*self) + old(buf)@.skip(4),
    {
        self.write_at(buf, 0);
        proof {
            lemma_splice_start(old(buf)@, coordinate_bytes(*self));
        }
        4
    }

    /// Reads a coordinate from the first four bytes of `buf`.
    pub fn decode(buf: &[u8]) -> (c: Self)
        requires
            buf@.len() >= 4,
        ensures
            c == coordinate_from(buf@.take(4)),
    {
        assert(buf@.subrange(0, 4) =~= buf@.take(4));
        Coordinate(get_u32(buf, 0) as i32)
    }
}

/// Reading back the bytes of a coordinate gives the coordinate.
pub proof fn lemma_coordinate_roundtrip(c: Coordinate)
    ensures
        coordinate_from(coordinate_bytes(c)) == c,
        coordinate_bytes(c).len() == 4,
{
    let x = c.0;
    lemma_be32_roundtrip(x as u32);
    assert((x as u32) as i32 == x) by (bit_vector);
}

/// Position, course and speed of a record.
#[derive(Copy, Clone, Debug, PartialEq, Eq, Structural)]
pub struct AvlGpsElement {
    /// East-west position.
    pub longitude: Coordinate,
    /// North-south position.
    pub latitude: Coordinate,
    /// Meters above sea level.
    pub altitude: i16,
    /// Degrees from north.
    pub angle: u16,
    /// Number of visible satellites.
    pub satellites: u8,
    /// km/h.
    pub speed: u16,
}

/// The fifteen wire bytes of a GPS element.
pub open spec fn gps_bytes(g: AvlGpsElement) -> Seq<u8> {
    coordinate_bytes(g.longitude) + coordinate_bytes(g.latitude) + be16(g.altitude as u16) + be16(
        g.angle,
    ) + seq![g.satellites] + be16(g.speed)
}

/// The GPS element spelled by the first fifteen bytes of `b`.
pub open spec fn gps_from(b: Seq<u8>) -> AvlGpsElement {
    AvlGpsElement {
        longitude: coordinate_from(b.subrange(0, 4)),
        latitude: coordinate_from(b.subrange(4, 8)),
        altitude: from_be16(b.subrange(8, 10)) as i16,
        angle: from_be16(b.subrange(10, 12)),
        satellites: b[12],
        speed: from_be16(b.subrange(13, 15)),
    }
}

/// The layout of a GPS element, field by field: longitude and latitude as four big-endian
/// bytes of their two's complement, then altitude (two's complement), angle, the
/// satellite count and speed.
pub proof fn lemma_gps_fields(g: AvlGpsElement)
    ensures
        gps_bytes(g).len() == 15,
        gps_bytes(g).subrange(0, 4) == be32(g.longitude.0 as u32),
        gps_bytes(g).subrange(4, 8) == be32(g.latitude.0 as u32),
        gps_bytes(g).subrange(8, 10) == be16(g.altitude as u16),
        gps_bytes(g).subrange(10, 12) == be16(g.angle),
        gps_bytes(g)[12] == g.satellites,
        gps_bytes(g).subrange(13, 15) == be16(g.speed),
{
    let gb = gps_bytes(g);
    lemma_gps_roundtrip(g, Seq::empty());
    lemma_be32_roundtrip(g.longitude.0 as u32);
    lemma_be32_roundtrip(g.latitude.0 as u32);
    lemma_be16_roundtrip(g.altitude as u16);
    lemma_be16_roundtrip(g.angle);
    lemma_be16_roundtrip(g.speed);
    assert(gb.subrange(0, 4) =~= be32(g.longitude.0 as u32));
    assert(gb.subrange(4, 8) =~= be32(g.latitude.0 as u32));
    assert(gb.subrange(8, 10) =~= be16(g.altitude as u16));
    assert(gb.subrange(10, 12) =~= be16(g.angle));
    assert(gb.subrange(13, 15) =~= be16(g.speed));
}

/// Reading back the bytes of a GPS element gives the element.
pub proof fn lemma_gps_roundtrip(g: AvlGpsElement, rest: Seq<u8>)
    ensures
        gps_bytes(g).len() == 15,
        gps_from(gps_bytes(g) + rest) == g,
{
    let b = gps_bytes(g) + rest;
    lemma_coordinate_roundtrip(g.longitude);
    lemma_coordinate_roundtrip(g.latitude);
    lemma_be16_roundtrip(g.altitude as u16);
    lemma_be16_roundtrip(g.angle);
    lemma_be16_roundtrip(g.speed);
    let a = g.altitude;
    assert((a as u16) as i16 == a) by (bit_vector);
    assert(b.subrange(0, 4) =~= coordinate_bytes(g.longitude));
    assert(b.subrange(4, 8) =~= coordinate_bytes(g.latitude));
    assert(b.subrange(8, 10) =~= be16(g.altitude as u16));
    assert(b.subrange(10, 12) =~= be16(g.angle));
    assert(b.subrange(13, 15) =~= be16(g.speed));
}

/// Re-encoding a decoded coordinate gives back the four bytes it was read from.
pub proof fn lemma_coordinate_bytes_of_decoded(b: Seq<u8>)
    requires
        b.len() >= 4,
    ensures
        coordinate_bytes(coordinate_from(b)) == b.take(4),
{
    let x = from_be32(b);
    assert((x as i32) as u32 == x) by (bit_vector);
    assert(from_be32(b) == from_be32(b.take(4)));
    lemma_from_be32_roundtrip(b.take(4));
}

/// Re-encoding a decoded GPS element gives back the fifteen bytes it was read from.
pub proof fn lemma_gps_bytes_of_decoded(b: Seq<u8>)
    requires
        b.len() >= 15,
    ensures
        gps_bytes(gps_from(b)) == b.take(15),
{
    let g = gps_from(b);
    lemma_coordinate_bytes_of_decoded(b.subrange(0, 4));
    lemma_coordinate_bytes_of_decoded(b.subrange(4, 8));
    let a = from_be16(b.subrange(8, 10));
    assert((a as i16) as u16 == a) by (bit_vector);
    lemma_from_be16_roundtrip(b.subrange(8, 10));
    lemma_from_be16_roundtrip(b.subrange(10, 12));
    lemma_from_be16_roundtrip(b.subrange(13, 15));
    assert(b.subrange(0, 4).take(4) =~= b.subrange(0, 4));
    assert(b.subrange(4, 8).take(4) =~= b.subrange(4, 8));
    assert(gps_bytes(g) =~= b.take(15));
}

impl AvlGpsElement {
    /// Writes the bytes of `self` at `pos`.
    pub(crate) fn write_at(&self, buf: &mut [u8], pos: usize)
        requires
            pos + 15 <= old(buf)@.len(),
        ensures
            final(buf)@ == splice(old(buf)@, pos as int, gps_bytes(*self)),
        final(buf)@.len() == old(buf)@.len(),
    {
        let ghost b0 = buf@;
        proof {
            lemma_slice_len_bound(&*buf);
        }
        self.longitude.write_at(buf, pos);
        self.latitude.write_at(buf, pos + 4);
        put_u16(buf, pos + 8, self.altitude as u16);
        put_u16(buf, pos + 10, self.angle);
        put_u8(buf, pos + 12, self.satellites);
        put_u16(buf, pos + 13, self.speed);
        proof {
            let p = pos as int;
            let s1 = coordinate_bytes(self.longitude);
            let s2 = coordinate_bytes(self.latitude);
            let s3 = be16(self.altitude as u16);
            let s4 = be16(self.angle);
            let s5 = seq![self.satellites];
            let s6 = be16(self.speed);
            lemma_splice_then(b0, p, s1, s2);
            lemma_splice_then(b0, p, s1 + s2, s3);
            lemma_splice_then(b0, p, s1 + s2 + s3, s4);
            lemma_splice_then(b0, p, s1 + s2 + s3 + s4, s5);
            lemma_splice_then(b0, p, s1 + s2 + s3 + s4 + s5, s6);
        }
    }

    /// Writes the fifteen bytes of the element at the start of `buf`.
    pub fn encode(&self, buf: &mut [u8]) -> (r: Result<usize, AvlError>)
        requires
            old(buf)@.len() >= 15,
        ensures
            r == Ok::<usize, AvlError>(15),
            final(buf)@ == gps_bytes(*self) + old(buf)@.skip(15),
    {
        self.write_at(buf, 0);
        proof {
            lemma_splice_start(old(buf)@, gps_bytes(*self));
        }
        Ok(15)
    }

    /// Reads an element from the first fifteen bytes of `buf`.
    pub fn decode(buf: &[u8]) -> (r: Result<Self, AvlError>)
        requires
            buf@.len() >= 15,
        ensures
            r == Ok::<Self, AvlError>(gps_from(buf@)),
    {
        let longitude = Coordinate::decode(buf);
        let latitude = Coordinate::decode(&buf[4..8]);
        let altitude = get_u16(buf, 8) as i16;
        let angle = get_u16(buf, 10);
        let satellites = buf[12];
        let speed = get_u16(buf, 13);
        assert(buf@.take(4) =~= buf@.subrange(0, 4));
        assert(buf@.subrange(4, 8).take(4) =~= buf@.subrange(4, 8));
        Ok(AvlGpsElement { longitude, latitude, altitude, angle, satellites, speed })
    }
}


/// An IO element with a one-byte id and a 1-byte value.
#[derive(Copy, Clone, Debug, PartialEq, Eq, Structural)]
pub struct AvlN1Element {
    pub id: u8,
    pub value: u8,
}

/// The 2 wire bytes of an IO element: its id, then its value in big-endian order.
pub open spec fn n1_bytes(e: AvlN1Element) -> Seq<u8> {
    seq![e.id, e.value]
}

/// The IO element spelled by the first 2 bytes of `b`.
pub open spec fn n1_from(b: Seq<u8>) -> AvlN1Element {
    AvlN1Element { id: b[0], value: b[1] }
}

/// Reading back the bytes of an IO element gives the element, whatever follows them.
pub proof fn lemma_n1_roundtrip(e: AvlN1Element, rest: Seq<u8>)
    ensures
        n1_bytes(e).len() == 2,
        n1_from(n1_bytes(e) + rest) == e,
{
    
}

/// Re-encoding a decoded IO element gives back the bytes it was read from.
pub proof fn lemma_n1_bytes_of_decoded(b: Seq<u8>)
    requires
        b.len() >= 2,
    ensures
        n1_bytes(n1_from(b)) == b.take(2),
{
    assert(n1_bytes(n1_from(b)) =~= b.take(2));
}

impl AvlN1Element {
    /// Writes the bytes of `self` at `pos`.
    pub(crate) fn write_at(&self, buf: &mut [u8], pos: usize)
        requires
            pos + 2 <= old(buf)@.len(),
        ensures
            final(buf)@ == splice(old(buf)@, pos as int, n1_bytes(*self)),
            final(buf)@.len() == old(buf)@.len(),
    {
        let ghost b0 = buf@;
        proof {
            lemma_slice_len_bound(&*buf);
        }
        put_u8(buf, pos, self.id);
        put_u8(buf, pos + 1, self.value);
        proof {
            lemma_splice_then(b0, pos as int, seq![self.id], seq![self.value]);
            assert(seq![self.id] + seq![self.value] =~= n1_bytes(*self));
        }
    }

    /// Writes the 2 bytes of the element at the start of `buf`.
    pub fn encode(&self, buf: &mut [u8]) -> (r: Result<usize, AvlError>)
        requires
            old(buf)@.len() >= 2,
        ensures
            r == Ok::<usize, AvlError>(2),
            final(buf)@ == n1_bytes(*self) + old(buf)@.skip(2),
    {
        self.write_at(buf, 0);
        proof {
            lemma_splice_start(old(buf)@, n1_bytes(*self));
        }
        Ok(2)
    }

    /// Reads an element from the first 2 bytes of `buf`.
    pub fn decode(buf: &[u8]) -> (r: Result<Self, AvlError>)
        requires
            buf@.len() >= 2,
        ensures
            r == Ok::<Self, AvlError>(n1_from(buf@)),
    {
        let id = buf[0];
        let value = buf[1];
        Ok(AvlN1Element { id, value })
    }
}

/// An IO element with a one-byte id and a 2-byte value.
#[derive(Copy, Clone, Debug, PartialEq, Eq, Structural)]
pub struct AvlN2Element {
    pub id: u8,
    pub value: u16,
}

/// The 3 wire bytes of an IO element: its id, then its value in big-endian order.
pub open spec fn n2_bytes(e: AvlN2Element) -> Seq<u8> {
    seq![e.id] + be16(e.value)
}

/// The IO element spelled by the first 3 bytes of `b`.
pub open spec fn n2_from(b: Seq<u8>) -> AvlN2Element {
    AvlN2Element { id: b[0], value: from_be16(b.subrange(1, 3)) }
}

/// Reading back the bytes of an IO element gives the element, whatever follows them.
pub proof fn lemma_n2_roundtrip(e: AvlN2Element, rest: Seq<u8>)
    ensures
        n2_bytes(e).len() == 3,
        n2_from(n2_bytes(e) + rest) == e,
{
    lemma_be16_roundtrip(e.value);
    assert((n2_bytes(e) + rest).subrange(1, 3) =~= be16(e.value));
}

/// Re-encoding a decoded IO element gives back the bytes it was read from.
pub proof fn lemma_n2_bytes_of_decoded(b: Seq<u8>)
    requires
        b.len() >= 3,
    ensures
        n2_bytes(n2_from(b)) == b.take(3),
{
    lemma_from_be16_roundtrip(b.subrange(1, 3));
    assert(n2_bytes(n2_from(b)) =~= b.take(3));
}

impl AvlN2Element {
    /// Writes the bytes of `self` at `pos`.
    pub(crate) fn write_at(&self, buf: &mut [u8], pos: usize)
        requires
            pos + 3 <= old(buf)@.len(),
        ensures
            final(buf)@ == splice(old(buf)@, pos as int, n2_bytes(*self)),
            final(buf)@.len() == old(buf)@.len(),
    {
        let ghost b0 = buf@;
        proof {
            lemma_slice_len_bound(&*buf);
        }
        put_u8(buf, pos, self.id);
        put_u16(buf, pos + 1, self.value);
        proof {
            lemma_splice_then(b0, pos as int, seq![self.id], be16(self.value));
        }
    }

    /// Writes the 3 bytes of the element at the start of `buf`.
    pub fn encode(&self, buf: &mut [u8]) -> (r: Result<usize, AvlError>)
        requires
            old(buf)@.len() >= 3,
        ensures
            r == Ok::<usize, AvlError>(3),
            final(buf)@ == n2_bytes(*self) + old(buf)@.skip(3),
    {
        self.write_at(buf, 0);
        proof {
            lemma_splice_start(old(buf)@, n2_bytes(*self));
        }
        Ok(3)
    }

    /// Reads an element from the first 3 bytes of `buf`.
    pub fn decode(buf: &[u8]) -> (r: Result<Self, AvlError>)
        requires
            buf@.len() >= 3,
        ensures
            r == Ok::<Self, AvlError>(n2_from(buf@)),
    {
        let id = buf[0];
        let value = get_u16(buf, 1);
        Ok(AvlN2Element { id, value })
    }
}

/// An IO element with a one-byte id and a 4-byte value.
#[derive(Copy, Clone, Debug, PartialEq, Eq, Structural)]
pub struct AvlN4Element {
    pub id: u8,
    pub value: u32,
}

/// The 5 wire bytes of an IO element: its id, then its value in big-endian order.
pub open spec fn n4_bytes(e: AvlN4Element) -> Seq<u8> {
    seq![e.id] + be32(e.value)
}

/// The IO element spelled by the first 5 bytes of `b`.
pub open spec fn n4_from(b: Seq<u8>) -> AvlN4Element {
    AvlN4Element { id: b[0], value: from_be32(b.subrange(1, 5)) }
}

/// Reading back the bytes of an IO element gives the element, whatever follows them.
pub proof fn lemma_n4_roundtrip(e: AvlN4Element, rest: Seq<u8>)
    ensures
        n4_bytes(e).len() == 5,
        n4_from(n4_bytes(e) + rest) == e,
{
    lemma_be32_roundtrip(e.value);
    assert((n4_bytes(e) + rest).subrange(1, 5) =~= be32(e.value));
}

/// Re-encoding a decoded IO element gives back the bytes it was read from.
pub proof fn lemma_n4_bytes_of_decoded(b: Seq<u8>)
    requires
        b.len() >= 5,
    ensures
        n4_bytes(n4_from(b)) == b.take(5),
{
    lemma_from_be32_roundtrip(b.subrange(1, 5));
    assert(n4_bytes(n4_from(b)) =~= b.take(5));
}

impl AvlN4Element {
    /// Writes the bytes of `self` at `pos`.
    pub(crate) fn write_at(&self, buf: &mut [u8], pos: usize)
        requires
            pos + 5 <= old(buf)@.len(),
        ensures
            final(buf)@ == splice(old(buf)@, pos as int, n4_bytes(*self)),
            final(buf)@.len() == old(buf)@.len(),
    {
        let ghost b0 = buf@;
        proof {
            lemma_slice_len_bound(&*buf);
        }
        put_u8(buf, pos, self.id);
        put_u32(buf, pos + 1, self.value);
        proof {
            lemma_splice_then(b0, pos as int, seq![self.id], be32(self.value));
        }
    }

    /// Writes the 5 bytes of the element at the start of `buf`.
    pub fn encode(&self, buf: &mut [u8]) -> (r: Result<usize, AvlError>)
        requires
            old(buf)@.len() >= 5,
        ensures
            r == Ok::<usize, AvlError>(5),
            final(buf)@ == n4_bytes(*self) + old(buf)@.skip(5),
    {
        self.write_at(buf, 0);
        proof {
            lemma_splice_start(old(buf)@, n4_bytes(*self));
        }
        Ok(5)
    }

    /// Reads an element from the first 5 bytes of `buf`.
    pub fn decode(buf: &[u8]) -> (r: Result<Self, AvlError>)
        requires
            buf@.len() >= 5,
        ensures
            r == Ok::<Self, AvlError>(n4_from(buf@)),
    {
        let id = buf[0];
        let value = get_u32(buf, 1);
        Ok(AvlN4Element { id, value })
    }
}

/// An IO element with a one-byte id and a 8-byte value.
#[derive(Copy, Clone, Debug, PartialEq, Eq, Structural)]
pub struct AvlN8Element {
    pub id: u8,
    pub value: u64,
}

/// The 9 wire bytes of an IO element: its id, then its value in big-endian order.
pub open spec fn n8_bytes(e: AvlN8Element) -> Seq<u8> {
    seq![e.id] + be64(e.value)
}

/// The IO element spelled by the first 9 bytes of `b`.
pub open spec fn n8_from(b: Seq<u8>) -> AvlN8Element {
    AvlN8Element { id: b[0], value: from_be64(b.subrange(1, 9)) }
}

/// Reading back the bytes of an IO element gives the element, whatever follows them.
pub proof fn lemma_n8_roundtrip(e: AvlN8Element, rest: Seq<u8>)
    ensures
        n8_bytes(e).len() == 9,
        n8_from(n8_bytes(e) + rest) == e,
{
    lemma_be64_roundtrip(e.value);
    assert((n8_bytes(e) + rest).subrange(1, 9) =~= be64(e.value));
}

/// Re-encoding a decoded IO element gives back the bytes it was read from.
pub proof fn lemma_n8_bytes_of_decoded(b: Seq<u8>)
    requires
        b.len() >= 9,
    ensures
        n8_bytes(n8_from(b)) == b.take(9),
{
    lemma_from_be64_roundtrip(b.subrange(1, 9));
    assert(n8_bytes(n8_from(b)) =~= b.take(9));
}

impl AvlN8Element {
    /// Writes the bytes of `self` at `pos`.
    pub(crate) fn write_at(&self, buf: &mut [u8], pos: usize)
        requires
            pos + 9 <= old(buf)@.len(),
        ensures
            final(buf)@ == splice(old(buf)@, pos as int, n8_bytes(*self)),
            final(buf)@.len() == old(buf)@.len(),
    {
        let ghost b0 = buf@;
        proof {
            lemma_slice_len_bound(&*buf);
        }
        put_u8(buf, pos, self.id);
        put_u64(buf, pos + 1, self.value);
        proof {
            lemma_splice_then(b0, pos as int, seq![self.id], be64(self.value));
        }
    }

    /// Writes the 9 bytes of the element at the start of `buf`.
    pub fn encode(&self, buf: &mut [u8]) -> (r: Result<usize, AvlError>)
        requires
            old(buf)@.len() >= 9,
        ensures
            r == Ok::<usize, AvlError>(9),
            final(buf)@ == n8_bytes(*self) + old(buf)@.skip(9),
    {
        self.write_at(buf, 0);
        proof {
            lemma_splice_start(old(buf)@, n8_bytes(*self));
        }
        Ok(9)
    }

    /// Reads an element from the first 9 bytes of `buf`.
    pub fn decode(buf: &[u8]) -> (r: Result<Self, AvlError>)
        requires
            buf@.len() >= 9,
        ensures
            r == Ok::<Self, AvlError>(n8_from(buf@)),
    {
        let id = buf[0];
        let value = get_u64(buf, 1);
        Ok(AvlN8Element { id, value })
    }
}


/// One AVL data record: time, priority, position and IO elements.
#[derive(Clone, Debug, PartialEq)]
pub struct AvlDataRecord {
    /// Milliseconds since 1970-01-01 00:00 UTC.
    pub timestamp: u64,
    pub priority: Priority,
    pub gps_element: AvlGpsElement,
    pub event_io_id: u8,
    pub total_io_count: u8,
    pub n1_elements: StackVec<AvlN1Element, 16>,
    pub n2_elements: StackVec<AvlN2Element, 16>,
    pub n4_elements: StackVec<AvlN4Element, 16>,
    pub n8_elements: StackVec<AvlN8Element, 16>,
}


/// `n1_bytes` as a function value.
pub open spec fn n1_enc() -> spec_fn(AvlN1Element) -> Seq<u8> {
    |e: AvlN1Element| n1_bytes(e)
}

/// A group of N1 elements on the wire: its count byte, then each element in order.
pub open spec fn n1_group_bytes(s: Seq<AvlN1Element>) -> Seq<u8> {
    seq![s.len() as u8] + concat_map(s, n1_enc())
}

/// The `c` N1 elements stored back to back from `pos` on in `b`.
pub open spec fn n1_elements_at(b: Seq<u8>, pos: int, c: nat) -> Seq<AvlN1Element> {
    Seq::new(c, |i: int| n1_from(b.subrange(pos + 2 * i, pos + 2 * i + 2)))
}

/// The elements of a group take 2 bytes each.
pub proof fn lemma_n1_group_len(s: Seq<AvlN1Element>)
    ensures
        concat_map(s, n1_enc()).len() == 2 * s.len(),
        n1_group_bytes(s).len() == 1 + 2 * s.len(),
{
    let f = n1_enc();
    assert forall|e: AvlN1Element| #[trigger] f(e).len() == 2 by {
        lemma_n1_roundtrip(e, Seq::empty());
    }
    lemma_concat_map_fixed(s, f, 2);
}

/// The elements of a group are read back from its bytes.
pub proof fn lemma_n1_group_roundtrip(s: Seq<AvlN1Element>, b: Seq<u8>, pos: int)
    requires
        0 <= pos,
        pos + 2 * s.len() <= b.len(),
        b.subrange(pos, pos + 2 * s.len()) == concat_map(s, n1_enc()),
    ensures
        n1_elements_at(b, pos, s.len()) == s,
        concat_map(s, n1_enc()).len() == 2 * s.len(),
{
    let f = n1_enc();
    assert forall|e: AvlN1Element| #[trigger] f(e).len() == 2 by {
        lemma_n1_roundtrip(e, Seq::empty());
    }
    lemma_concat_map_fixed(s, f, 2);
    assert forall|i: int| 0 <= i < s.len() implies #[trigger] n1_elements_at(b, pos, s.len())[i] == s[i] by {
        let c = concat_map(s, f);
        assert(c.subrange(2 * i, 2 * i + 2) == f(s[i]));
        assert(b.subrange(pos + 2 * i, pos + 2 * i + 2) =~= c.subrange(2 * i, 2 * i + 2));
        lemma_n1_roundtrip(s[i], Seq::empty());
        assert(n1_bytes(s[i]) + Seq::<u8>::empty() =~= n1_bytes(s[i]));
    }
    assert(n1_elements_at(b, pos, s.len()) =~= s);
}

/// Re-encoding `c` decoded N1 elements gives back the bytes they were read from.
pub proof fn lemma_n1_elements_bytes_of_decoded(b: Seq<u8>, pos: int, c: nat)
    requires
        0 <= pos,
        pos + 2 * c <= b.len(),
    ensures
        concat_map(n1_elements_at(b, pos, c), n1_enc()) == b.subrange(pos, pos + 2 * c),
    decreases c,
{
    if c == 0 {
        assert(n1_elements_at(b, pos, c) =~= Seq::<AvlN1Element>::empty());
        assert(b.subrange(pos, pos) =~= Seq::<u8>::empty());
    } else {
        let k = (c - 1) as nat;
        lemma_n1_elements_bytes_of_decoded(b, pos, k);
        let chunk = b.subrange(pos + 2 * k, pos + 2 * k + 2);
        assert(n1_elements_at(b, pos, c) =~= n1_elements_at(b, pos, k).push(n1_from(chunk)));
        lemma_concat_map_push(n1_elements_at(b, pos, k), n1_from(chunk), n1_enc());
        lemma_n1_bytes_of_decoded(chunk);
        assert(chunk.take(2) =~= chunk);
        assert(b.subrange(pos, pos + 2 * k) + chunk =~= b.subrange(pos, pos + 2 * c));
    }
}

/// Writes the group of N1 elements held in `v` at `pos`; returns the position behind it.
fn write_n1_group(v: &StackVec<AvlN1Element, 16>, buf: &mut [u8], pos: usize) -> (end: usize)
    requires
        pos + 1 + 2 * n1_items(*v).len() <= old(buf)@.len(),
    ensures
        n1_items(*v).len() <= 16,
        end == pos + n1_group_bytes(n1_items(*v)).len(),
        end == pos + 1 + 2 * n1_items(*v).len(),
        final(buf)@ == splice(old(buf)@, pos as int, n1_group_bytes(n1_items(*v))),
        final(buf)@.len() == old(buf)@.len(),
{
    let ghost b0 = buf@;
    let ghost f = n1_enc();
    proof {
        lemma_slice_len_bound(&*buf);
        assert forall|e: AvlN1Element| #[trigger] f(e).len() == 2 by {
            lemma_n1_roundtrip(e, Seq::empty());
        }
    }
    let s = n1_items_slice(v);
    let count = s.len();
    put_u8(buf, pos, count as u8);
    let mut off = pos + 1;
    let mut i: usize = 0;
    proof {
        assert(concat_map(s@.take(0), f) =~= Seq::<u8>::empty());
        assert(seq![count as u8] + concat_map(s@.take(0), f) =~= seq![count as u8]);
    }
    while i < count
        invariant
            count == s@.len(),
            count <= 16,
            s@ == n1_items(*v),
            f == n1_enc(),
            forall|e: AvlN1Element| #[trigger] f(e).len() == 2,
            i <= count,
            off == pos + 1 + 2 * i,
            pos + 1 + 2 * count <= b0.len(),
            b0.len() <= usize::MAX,
            buf@.len() == b0.len(),
            buf@ == splice(b0, pos as int, seq![count as u8] + concat_map(s@.take(i as int), f)),
        decreases count - i,
    {
        proof {
            lemma_concat_map_fixed(s@.take(i as int), f, 2);
        }
        s[i].write_at(buf, off);
        proof {
            lemma_splice_then(b0, pos as int, seq![count as u8] + concat_map(s@.take(i as int), f), n1_bytes(s@[i as int]));
            assert(s@.take(i + 1) =~= s@.take(i as int).push(s@[i as int]));
            lemma_concat_map_push(s@.take(i as int), s@[i as int], f);
            assert(seq![count as u8] + concat_map(s@.take(i as int), f) + n1_bytes(s@[i as int]) =~= seq![count as u8] + concat_map(s@.take(i + 1), f));
        }
        off = off + 2;
        i = i + 1;
    }
    proof {
        assert(s@.take(count as int) =~= s@);
        lemma_concat_map_fixed(s@, f, 2);
    }
    off
}

/// Reads `count` N1 elements stored back to back from `pos` on.
fn read_n1_group(buf: &[u8], pos: usize, count: usize) -> (v: StackVec<AvlN1Element, 16>)
    requires
        count <= 16,
        pos + 2 * count <= buf@.len(),
    ensures
        n1_items(v) == n1_elements_at(buf@, pos as int, count as nat),
{
    let mut v = n1_items_new();
    proof {
        lemma_slice_len_bound(buf);
    }
    let mut i: usize = 0;
    while i < count
        invariant
            count <= 16,
            buf@.len() <= usize::MAX,
            pos + 2 * count <= buf@.len(),
            i <= count,
            n1_items(v) == n1_elements_at(buf@, pos as int, i as nat),
        decreases count - i,
    {
        let start = pos + 2 * i;
        let e = AvlN1Element::decode(&buf[start..start + 2]).unwrap();
        proof {
            assert(buf@.subrange(start as int, start + 2) =~= buf@.subrange(start as int, start + 2).take(2));
        }
        let back = n1_items_push(&mut v, e);
        assert(back is None);
        proof {
            assert(n1_items(v) =~= n1_elements_at(buf@, pos as int, (i + 1) as nat));
        }
        i = i + 1;
    }
    v
}

/// `n2_bytes` as a function value.
pub open spec fn n2_enc() -> spec_fn(AvlN2Element) -> Seq<u8> {
    |e: AvlN2Element| n2_bytes(e)
}

/// A group of N2 elements on the wire: its count byte, then each element in order.
pub open spec fn n2_group_bytes(s: Seq<AvlN2Element>) -> Seq<u8> {
    seq![s.len() as u8] + concat_map(s, n2_enc())
}

/// The `c` N2 elements stored back to back from `pos` on in `b`.
pub open spec fn n2_elements_at(b: Seq<u8>, pos: int, c: nat) -> Seq<AvlN2Element> {
    Seq::new(c, |i: int| n2_from(b.subrange(pos + 3 * i, pos + 3 * i + 3)))
}

/// The elements of a group take 3 bytes each.
pub proof fn lemma_n2_group_len(s: Seq<AvlN2Element>)
    ensures
        concat_map(s, n2_enc()).len() == 3 * s.len(),
        n2_group_bytes(s).len() == 1 + 3 * s.len(),
{
    let f = n2_enc();
    assert forall|e: AvlN2Element| #[trigger] f(e).len() == 3 by {
        lemma_n2_roundtrip(e, Seq::empty());
    }
    lemma_concat_map_fixed(s, f, 3);
}

/// The elements of a group are read back from its bytes.
pub proof fn lemma_n2_group_roundtrip(s: Seq<AvlN2Element>, b: Seq<u8>, pos: int)
    requires
        0 <= pos,
        pos + 3 * s.len() <= b.len(),
        b.subrange(pos, pos + 3 * s.len()) == concat_map(s, n2_enc()),
    ensures
        n2_elements_at(b, pos, s.len()) == s,
        concat_map(s, n2_enc()).len() == 3 * s.len(),
{
    let f = n2_enc();
    assert forall|e: AvlN2Element| #[trigger] f(e).len() == 3 by {
        lemma_n2_roundtrip(e, Seq::empty());
    }
    lemma_concat_map_fixed(s, f, 3);
    assert forall|i: int| 0 <= i < s.len() implies #[trigger] n2_elements_at(b, pos, s.len())[i] == s[i] by {
        let c = concat_map(s, f);
        assert(c.subrange(3 * i, 3 * i + 3) == f(s[i]));
        assert(b.subrange(pos + 3 * i, pos + 3 * i + 3) =~= c.subrange(3 * i, 3 * i + 3));
        lemma_n2_roundtrip(s[i], Seq::empty());
        assert(n2_bytes(s[i]) + Seq::<u8>::empty() =~= n2_bytes(s[i]));
    }
    assert(n2_elements_at(b, pos, s.len()) =~= s);
}

/// Re-encoding `c` decoded N2 elements gives back the bytes they were read from.
pub proof fn lemma_n2_elements_bytes_of_decoded(b: Seq<u8>, pos: int, c: nat)
    requires
        0 <= pos,
        pos + 3 * c <= b.len(),
    ensures
        concat_map(n2_elements_at(b, pos, c), n2_enc()) == b.subrange(pos, pos + 3 * c),
    decreases c,
{
    if c == 0 {
        assert(n2_elements_at(b, pos, c) =~= Seq::<AvlN2Element>::empty());
        assert(b.subrange(pos, pos) =~= Seq::<u8>::empty());
    } else {
        let k = (c - 1) as nat;
        lemma_n2_elements_bytes_of_decoded(b, pos, k);
        let chunk = b.subrange(pos + 3 * k, pos + 3 * k + 3);
        assert(n2_elements_at(b, pos, c) =~= n2_elements_at(b, pos, k).push(n2_from(chunk)));
        lemma_concat_map_push(n2_elements_at(b, pos, k), n2_from(chunk), n2_enc());
        lemma_n2_bytes_of_decoded(chunk);
        assert(chunk.take(3) =~= chunk);
        assert(b.subrange(pos, pos + 3 * k) + chunk =~= b.subrange(pos, pos + 3 * c));
    }
}

/// Writes the group of N2 elements held in `v` at `pos`; returns the position behind it.
fn write_n2_group(v: &StackVec<AvlN2Element, 16>, buf: &mut [u8], pos: usize) -> (end: usize)
    requires
        pos + 1 + 3 * n2_items(*v).len() <= old(buf)@.len(),
    ensures
        n2_items(*v).len() <= 16,
        end == pos + n2_group_bytes(n2_items(*v)).len(),
        end == pos + 1 + 3 * n2_items(*v).len(),
        final(buf)@ == splice(old(buf)@, pos as int, n2_group_bytes(n2_items(*v))),
        final(buf)@.len() == old(buf)@.len(),
{
    let ghost b0 = buf@;
    let ghost f = n2_enc();
    proof {
        lemma_slice_len_bound(&*buf);
        assert forall|e: AvlN2Element| #[trigger] f(e).len() == 3 by {
            lemma_n2_roundtrip(e, Seq::empty());
        }
    }
    let s = n2_items_slice(v);
    let count = s.len();
    put_u8(buf, pos, count as u8);
    let mut off = pos + 1;
    let mut i: usize = 0;
    proof {
        assert(concat_map(s@.take(0), f) =~= Seq::<u8>::empty());
        assert(seq![count as u8] + concat_map(s@.take(0), f) =~= seq![count as u8]);
    }
    while i < count
        invariant
            count == s@.len(),
            count <= 16,
            s@ == n2_items(*v),
            f == n2_enc(),
            forall|e: AvlN2Element| #[trigger] f(e).len() == 3,
            i <= count,
            off == pos + 1 + 3 * i,
            pos + 1 + 3 * count <= b0.len(),
            b0.len() <= usize::MAX,
            buf@.len() == b0.len(),
            buf@ == splice(b0, pos as int, seq![count as u8] + concat_map(s@.take(i as int), f)),
        decreases count - i,
    {
        proof {
            lemma_concat_map_fixed(s@.take(i as int), f, 3);
        }
        s[i].write_at(buf, off);
        proof {
            lemma_splice_then(b0, pos as int, seq![count as u8] + concat_map(s@.take(i as int), f), n2_bytes(s@[i as int]));
            assert(s@.take(i + 1) =~= s@.take(i as int).push(s@[i as int]));
            lemma_concat_map_push(s@.take(i as int), s@[i as int], f);
            assert(seq![count as u8] + concat_map(s@.take(i as int), f) + n2_bytes(s@[i as int]) =~= seq![count as u8] + concat_map(s@.take(i + 1), f));
        }
        off = off + 3;
        i = i + 1;
    }
    proof {
        assert(s@.take(count as int) =~= s@);
        lemma_concat_map_fixed(s@, f, 3);
    }
    off
}

/// Reads `count` N2 elements stored back to back from `pos` on.
fn read_n2_group(buf: &[u8], pos: usize, count: usize) -> (v: StackVec<AvlN2Element, 16>)
    requires
        count <= 16,
        pos + 3 * count <= buf@.len(),
    ensures
        n2_items(v) == n2_elements_at(buf@, pos as int, count as nat),
{
    let mut v = n2_items_new();
    proof {
        lemma_slice_len_bound(buf);
    }
    let mut i: usize = 0;
    while i < count
        invariant
            count <= 16,
            buf@.len() <= usize::MAX,
            pos + 3 * count <= buf@.len(),
            i <= count,
            n2_items(v) == n2_elements_at(buf@, pos as int, i as nat),
        decreases count - i,
    {
        let start = pos + 3 * i;
        let e = AvlN2Element::decode(&buf[start..start + 3]).unwrap();
        proof {
            assert(buf@.subrange(start as int, start + 3) =~= buf@.subrange(start as int, start + 3).take(3));
        }
        let back = n2_items_push(&mut v, e);
        assert(back is None);
        proof {
            assert(n2_items(v) =~= n2_elements_at(buf@, pos as int, (i + 1) as nat));
        }
        i = i + 1;
    }
    v
}

/// `n4_bytes` as a function value.
pub open spec fn n4_enc() -> spec_fn(AvlN4Element) -> Seq<u8> {
    |e: AvlN4Element| n4_bytes(e)
}

/// A group of N4 elements on the wire: its count byte, then each element in order.
pub open spec fn n4_group_bytes(s: Seq<AvlN4Element>) -> Seq<u8> {
    seq![s.len() as u8] + concat_map(s, n4_enc())
}

/// The `c` N4 elements stored back to back from `pos` on in `b`.
pub open spec fn n4_elements_at(b: Seq<u8>, pos: int, c: nat) -> Seq<AvlN4Element> {
    Seq::new(c, |i: int| n4_from(b.subrange(pos + 5 * i, pos + 5 * i + 5)))
}

/// The elements of a group take 5 bytes each.
pub proof fn lemma_n4_group_len(s: Seq<AvlN4Element>)
    ensures
        concat_map(s, n4_enc()).len() == 5 * s.len(),
        n4_group_bytes(s).len() == 1 + 5 * s.len(),
{
    let f = n4_enc();
    assert forall|e: AvlN4Element| #[trigger] f(e).len() == 5 by {
        lemma_n4_roundtrip(e, Seq::empty());
    }
    lemma_concat_map_fixed(s, f, 5);
}

/// The elements of a group are read back from its bytes.
pub proof fn lemma_n4_group_roundtrip(s: Seq<AvlN4Element>, b: Seq<u8>, pos: int)
    requires
        0 <= pos,
        pos + 5 * s.len() <= b.len(),
        b.subrange(pos, pos + 5 * s.len()) == concat_map(s, n4_enc()),
    ensures
        n4_elements_at(b, pos, s.len()) == s,
        concat_map(s, n4_enc()).len() == 5 * s.len(),
{
    let f = n4_enc();
    assert forall|e: AvlN4Element| #[trigger] f(e).len() == 5 by {
        lemma_n4_roundtrip(e, Seq::empty());
    }
    lemma_concat_map_fixed(s, f, 5);
    assert forall|i: int| 0 <= i < s.len() implies #[trigger] n4_elements_at(b, pos, s.len())[i] == s[i] by {
        let c = concat_map(s, f);
        assert(c.subrange(5 * i, 5 * i + 5) == f(s[i]));
        assert(b.subrange(pos + 5 * i, pos + 5 * i + 5) =~= c.subrange(5 * i, 5 * i + 5));
        lemma_n4_roundtrip(s[i], Seq::empty());
        assert(n4_bytes(s[i]) + Seq::<u8>::empty() =~= n4_bytes(s[i]));
    }
    assert(n4_elements_at(b, pos, s.len()) =~= s);
}

/// Re-encoding `c` decoded N4 elements gives back the bytes they were read from.
pub proof fn lemma_n4_elements_bytes_of_decoded(b: Seq<u8>, pos: int, c: nat)
    requires
        0 <= pos,
        pos + 5 * c <= b.len(),
    ensures
        concat_map(n4_elements_at(b, pos, c), n4_enc()) == b.subrange(pos, pos + 5 * c),
    decreases c,
{
    if c == 0 {
        assert(n4_elements_at(b, pos, c) =~= Seq::<AvlN4Element>::empty());
        assert(b.subrange(pos, pos) =~= Seq::<u8>::empty());
    } else {
        let k = (c - 1) as nat;
        lemma_n4_elements_bytes_of_decoded(b, pos, k);
        let chunk = b.subrange(pos + 5 * k, pos + 5 * k + 5);
        assert(n4_elements_at(b, pos, c) =~= n4_elements_at(b, pos, k).push(n4_from(chunk)));
        lemma_concat_map_push(n4_elements_at(b, pos, k), n4_from(chunk), n4_enc());
        lemma_n4_bytes_of_decoded(chunk);
        assert(chunk.take(5) =~= chunk);
        assert(b.subrange(pos, pos + 5 * k) + chunk =~= b.subrange(pos, pos + 5 * c));
    }
}

/// Writes the group of N4 elements held in `v` at `pos`; returns the position behind it.
fn write_n4_group(v: &StackVec<AvlN4Element, 16>, buf: &mut [u8], pos: usize) -> (end: usize)
    requires
        pos + 1 + 5 * n4_items(*v).len() <= old(buf)@.len(),
    ensures
        n4_items(*v).len() <= 16,
        end == pos + n4_group_bytes(n4_items(*v)).len(),
        end == pos + 1 + 5 * n4_items(*v).len(),
        final(buf)@ == splice(old(buf)@, pos as int, n4_group_bytes(n4_items(*v))),
        final(buf)@.len() == old(buf)@.len(),
{
    let ghost b0 = buf@;
    let ghost f = n4_enc();
    proof {
        lemma_slice_len_bound(&*buf);
        assert forall|e: AvlN4Element| #[trigger] f(e).len() == 5 by {
            lemma_n4_roundtrip(e, Seq::empty());
        }
    }
    let s = n4_items_slice(v);
    let count = s.len();
    put_u8(buf, pos, count as u8);
    let mut off = pos + 1;
    let mut i: usize = 0;
    proof {
        assert(concat_map(s@.take(0), f) =~= Seq::<u8>::empty());
        assert(seq![count as u8] + concat_map(s@.take(0), f) =~= seq![count as u8]);
    }
    while i < count
        invariant
            count == s@.len(),
            count <= 16,
            s@ == n4_items(*v),
            f == n4_enc(),
            forall|e: AvlN4Element| #[trigger] f(e).len() == 5,
            i <= count,
            off == pos + 1 + 5 * i,
            pos + 1 + 5 * count <= b0.len(),
            b0.len() <= usize::MAX,
            buf@.len() == b0.len(),
            buf@ == splice(b0, pos as int, seq![count as u8] + concat_map(s@.take(i as int), f)),
        decreases count - i,
    {
        proof {
            lemma_concat_map_fixed(s@.take(i as int), f, 5);
        }
        s[i].write_at(buf, off);
        proof {
            lemma_splice_then(b0, pos as int, seq![count as u8] + concat_map(s@.take(i as int), f), n4_bytes(s@[i as int]));
            assert(s@.take(i + 1) =~= s@.take(i as int).push(s@[i as int]));
            lemma_concat_map_push(s@.take(i as int), s@[i as int], f);
            assert(seq![count as u8] + concat_map(s@.take(i as int), f) + n4_bytes(s@[i as int]) =~= seq![count as u8] + concat_map(s@.take(i + 1), f));
        }
        off = off + 5;
        i = i + 1;
    }
    proof {
        assert(s@.take(count as int) =~= s@);
        lemma_concat_map_fixed(s@, f, 5);
    }
    off
}

/// Reads `count` N4 elements stored back to back from `pos` on.
fn read_n4_group(buf: &[u8], pos: usize, count: usize) -> (v: StackVec<AvlN4Element, 16>)
    requires
        count <= 16,
        pos + 5 * count <= buf@.len(),
    ensures
        n4_items(v) == n4_elements_at(buf@, pos as int, count as nat),
{
    let mut v = n4_items_new();
    proof {
        lemma_slice_len_bound(buf);
    }
    let mut i: usize = 0;
    while i < count
        invariant
            count <= 16,
            buf@.len() <= usize::MAX,
            pos + 5 * count <= buf@.len(),
            i <= count,
            n4_items(v) == n4_elements_at(buf@, pos as int, i as nat),
        decreases count - i,
    {
        let start = pos + 5 * i;
        let e = AvlN4Element::decode(&buf[start..start + 5]).unwrap();
        proof {
            assert(buf@.subrange(start as int, start + 5) =~= buf@.subrange(start as int, start + 5).take(5));
        }
        let back = n4_items_push(&mut v, e);
        assert(back is None);
        proof {
            assert(n4_items(v) =~= n4_elements_at(buf@, pos as int, (i + 1) as nat));
        }
        i = i + 1;
    }
    v
}

/// `n8_bytes` as a function value.
pub open spec fn n8_enc() -> spec_fn(AvlN8Element) -> Seq<u8> {
    |e: AvlN8Element| n8_bytes(e)
}

/// A group of N8 elements on the wire: its count byte, then each element in order.
pub open spec fn n8_group_bytes(s: Seq<AvlN8Element>) -> Seq<u8> {
    seq![s.len() as u8] + concat_map(s, n8_enc())
}

/// The `c` N8 elements stored back to back from `pos` on in `b`.
pub open spec fn n8_elements_at(b: Seq<u8>, pos: int, c: nat) -> Seq<AvlN8Element> {
    Seq::new(c, |i: int| n8_from(b.subrange(pos + 9 * i, pos + 9 * i + 9)))
}

/// The elements of a group take 9 bytes each.
pub proof fn lemma_n8_group_len(s: Seq<AvlN8Element>)
    ensures
        concat_map(s, n8_enc()).len() == 9 * s.len(),
        n8_group_bytes(s).len() == 1 + 9 * s.len(),
{
    let f = n8_enc();
    assert forall|e: AvlN8Element| #[trigger] f(e).len() == 9 by {
        lemma_n8_roundtrip(e, Seq::empty());
    }
    lemma_concat_map_fixed(s, f, 9);
}

/// The elements of a group are read back from its bytes.
pub proof fn lemma_n8_group_roundtrip(s: Seq<AvlN8Element>, b: Seq<u8>, pos: int)
    requires
        0 <= pos,
        pos + 9 * s.len() <= b.len(),
        b.subrange(pos, pos + 9 * s.len()) == concat_map(s, n8_enc()),
    ensures
        n8_elements_at(b, pos, s.len()) == s,
        concat_map(s, n8_enc()).len() == 9 * s.len(),
{
    let f = n8_enc();
    assert forall|e: AvlN8Element| #[trigger] f(e).len() == 9 by {
        lemma_n8_roundtrip(e, Seq::empty());
    }
    lemma_concat_map_fixed(s, f, 9);
    assert forall|i: int| 0 <= i < s.len() implies #[trigger] n8_elements_at(b, pos, s.len())[i] == s[i] by {
        let c = concat_map(s, f);
        assert(c.subrange(9 * i, 9 * i + 9) == f(s[i]));
        assert(b.subrange(pos + 9 * i, pos + 9 * i + 9) =~= c.subrange(9 * i, 9 * i + 9));
        lemma_n8_roundtrip(s[i], Seq::empty());
        assert(n8_bytes(s[i]) + Seq::<u8>::empty() =~= n8_bytes(s[i]));
    }
    assert(n8_elements_at(b, pos, s.len()) =~= s);
}

/// Re-encoding `c` decoded N8 elements gives back the bytes they were read from.
pub proof fn lemma_n8_elements_bytes_of_decoded(b: Seq<u8>, pos: int, c: nat)
    requires
        0 <= pos,
        pos + 9 * c <= b.len(),
    ensures
        concat_map(n8_elements_at(b, pos, c), n8_enc()) == b.subrange(pos, pos + 9 * c),
    decreases c,
{
    if c == 0 {
        assert(n8_elements_at(b, pos, c) =~= Seq::<AvlN8Element>::empty());
        assert(b.subrange(pos, pos) =~= Seq::<u8>::empty());
    } else {
        let k = (c - 1) as nat;
        lemma_n8_elements_bytes_of_decoded(b, pos, k);
        let chunk = b.subrange(pos + 9 * k, pos + 9 * k + 9);
        assert(n8_elements_at(b, pos, c) =~= n8_elements_at(b, pos, k).push(n8_from(chunk)));
        lemma_concat_map_push(n8_elements_at(b, pos, k), n8_from(chunk), n8_enc());
        lemma_n8_bytes_of_decoded(chunk);
        assert(chunk.take(9) =~= chunk);
        assert(b.subrange(pos, pos + 9 * k) + chunk =~= b.subrange(pos, pos + 9 * c));
    }
}

/// Writes the group of N8 elements held in `v` at `pos`; returns the position behind it.
fn write_n8_group(v: &StackVec<AvlN8Element, 16>, buf: &mut [u8], pos: usize) -> (end: usize)
    requires
        pos + 1 + 9 * n8_items(*v).len() <= old(buf)@.len(),
    ensures
        n8_items(*v).len() <= 16,
        end == pos + n8_group_bytes(n8_items(*v)).len(),
        end == pos + 1 + 9 * n8_items(*v).len(),
        final(buf)@ == splice(old(buf)@, pos as int, n8_group_bytes(n8_items(*v))),
        final(buf)@.len() == old(buf)@.len(),
{
    let ghost b0 = buf@;
    let ghost f = n8_enc();
    proof {
        lemma_slice_len_bound(&*buf);
        assert forall|e: AvlN8Element| #[trigger] f(e).len() == 9 by {
            lemma_n8_roundtrip(e, Seq::empty());
        }
    }
    let s = n8_items_slice(v);
    let count = s.len();
    put_u8(buf, pos, count as u8);
    let mut off = pos + 1;
    let mut i: usize = 0;
    proof {
        assert(concat_map(s@.take(0), f) =~= Seq::<u8>::empty());
        assert(seq![count as u8] + concat_map(s@.take(0), f) =~= seq![count as u8]);
    }
    while i < count
        invariant
            count == s@.len(),
            count <= 16,
            s@ == n8_items(*v),
            f == n8_enc(),
            forall|e: AvlN8Element| #[trigger] f(e).len() == 9,
            i <= count,
            off == pos + 1 + 9 * i,
            pos + 1 + 9 * count <= b0.len(),
            b0.len() <= usize::MAX,
            buf@.len() == b0.len(),
            buf@ == splice(b0, pos as int, seq![count as u8] + concat_map(s@.take(i as int), f)),
        decreases count - i,
    {
        proof {
            lemma_concat_map_fixed(s@.take(i as int), f, 9);
        }
        s[i].write_at(buf, off);
        proof {
            lemma_splice_then(b0, pos as int, seq![count as u8] + concat_map(s@.take(i as int), f), n8_bytes(s@[i as int]));
            assert(s@.take(i + 1) =~= s@.take(i as int).push(s@[i as int]));
            lemma_concat_map_push(s@.take(i as int), s@[i as int], f);
            assert(seq![count as u8] + concat_map(s@.take(i as int), f) + n8_bytes(s@[i as int]) =~= seq![count as u8] + concat_map(s@.take(i + 1), f));
        }
        off = off + 9;
        i = i + 1;
    }
    proof {
        assert(s@.take(count as int) =~= s@);
        lemma_concat_map_fixed(s@, f, 9);
    }
    off
}

/// Reads `count` N8 elements stored back to back from `pos` on.
fn read_n8_group(buf: &[u8], pos: usize, count: usize) -> (v: StackVec<AvlN8Element, 16>)
    requires
        count <= 16,
        pos + 9 * count <= buf@.len(),
    ensures
        n8_items(v) == n8_elements_at(buf@, pos as int, count as nat),
{
    let mut v = n8_items_new();
    proof {
        lemma_slice_len_bound(buf);
    }
    let mut i: usize = 0;
    while i < count
        invariant
            count <= 16,
            buf@.len() <= usize::MAX,
            pos + 9 * count <= buf@.len(),
            i <= count,
            n8_items(v) == n8_elements_at(buf@, pos as int, i as nat),
        decreases count - i,
    {
        let start = pos + 9 * i;
        let e = AvlN8Element::decode(&buf[start..start + 9]).unwrap();
        proof {
            assert(buf@.subrange(start as int, start + 9) =~= buf@.subrange(start as int, start + 9).take(9));
        }
        let back = n8_items_push(&mut v, e);
        assert(back is None);
        proof {
            assert(n8_items(v) =~= n8_elements_at(buf@, pos as int, (i + 1) as nat));
        }
        i = i + 1;
    }
    v
}

/// The abstract content of an AVL data record.
pub struct AvlDataRecordModel {
    pub timestamp: u64,
    pub priority: Priority,
    pub gps_element: AvlGpsElement,
    pub event_io_id: u8,
    pub total_io_count: u8,
    pub n1_elements: Seq<AvlN1Element>,
    pub n2_elements: Seq<AvlN2Element>,
    pub n4_elements: Seq<AvlN4Element>,
    pub n8_elements: Seq<AvlN8Element>,
}

impl View for AvlDataRecord {
    type V = AvlDataRecordModel;

    open spec fn view(&self) -> AvlDataRecordModel {
        AvlDataRecordModel {
            timestamp: self.timestamp,
            priority: self.priority,
            gps_element: self.gps_element,
            event_io_id: self.event_io_id,
            total_io_count: self.total_io_count,
            n1_elements: n1_items(self.n1_elements),
            n2_elements: n2_items(self.n2_elements),
            n4_elements: n4_items(self.n4_elements),
            n8_elements: n8_items(self.n8_elements),
        }
    }
}

/// The number of IO elements of a record, over its four groups.
pub open spec fn io_element_count(m: AvlDataRecordModel) -> nat {
    m.n1_elements.len() + m.n2_elements.len() + m.n4_elements.len() + m.n8_elements.len()
}

/// Whether each group holds at most 16 elements, as the record's vectors allow.
pub open spec fn groups_fit(m: AvlDataRecordModel) -> bool {
    &&& m.n1_elements.len() <= 16
    &&& m.n2_elements.len() <= 16
    &&& m.n4_elements.len() <= 16
    &&& m.n8_elements.len() <= 16
}

#[verifier::opaque]
/// The wire bytes of a record. The total IO count byte is the number of elements the
/// record holds (not its `total_io_count` field).
pub open spec fn record_bytes(m: AvlDataRecordModel) -> Seq<u8> {
    record_head_bytes(m) + n1_group_bytes(m.n1_elements) + n2_group_bytes(m.n2_elements)
        + n4_group_bytes(m.n4_elements) + n8_group_bytes(m.n8_elements)
}

/// The 26 bytes in front of the IO element groups: timestamp, priority, GPS element,
/// event IO id and total IO count.
pub open spec fn record_head_bytes(m: AvlDataRecordModel) -> Seq<u8> {
    be64(m.timestamp) + seq![priority_byte(m.priority)] + gps_bytes(m.gps_element) + seq![
        m.event_io_id,
    ] + seq![io_element_count(m) as u8]
}

/// The encoded size of a record.
pub open spec fn record_size(m: AvlDataRecordModel) -> nat {
    30 + 2 * m.n1_elements.len() + 3 * m.n2_elements.len() + 5 * m.n4_elements.len() + 9
        * m.n8_elements.len()
}

/// Position of the N2 count byte in a record read from `b`.
pub open spec fn n2_count_pos(b: Seq<u8>) -> int {
    27 + 2 * b[26]
}

/// Position of the N4 count byte in a record read from `b`.
pub open spec fn n4_count_pos(b: Seq<u8>) -> int {
    n2_count_pos(b) + 1 + 3 * b[n2_count_pos(b)]
}

/// Position of the N8 count byte in a record read from `b`.
pub open spec fn n8_count_pos(b: Seq<u8>) -> int {
    n4_count_pos(b) + 1 + 5 * b[n4_count_pos(b)]
}

/// Length of the record read from `b`.
pub open spec fn record_end(b: Seq<u8>) -> int {
    n8_count_pos(b) + 1 + 9 * b[n8_count_pos(b)]
}

/// Whether `b` holds every byte that the layout of the record at its start names,
/// with at most 16 elements in each group.
pub open spec fn record_fits(b: Seq<u8>) -> bool {
    &&& b.len() >= 27
    &&& b[26] <= 16
    &&& n2_count_pos(b) < b.len()
    &&& b[n2_count_pos(b)] <= 16
    &&& n4_count_pos(b) < b.len()
    &&& b[n4_count_pos(b)] <= 16
    &&& n8_count_pos(b) < b.len()
    &&& b[n8_count_pos(b)] <= 16
    &&& record_end(b) <= b.len()
}

/// The record laid out at the start of `b`, for a valid priority byte.
pub open spec fn record_at(b: Seq<u8>) -> AvlDataRecordModel {
    AvlDataRecordModel {
        timestamp: from_be64(b.subrange(0, 8)),
        priority: priority_from_byte(b[8])->Ok_0,
        gps_element: gps_from(b.subrange(9, 24)),
        event_io_id: b[24],
        total_io_count: b[25],
        n1_elements: n1_elements_at(b, 27, b[26] as nat),
        n2_elements: n2_elements_at(b, n2_count_pos(b) + 1, b[n2_count_pos(b)] as nat),
        n4_elements: n4_elements_at(b, n4_count_pos(b) + 1, b[n4_count_pos(b)] as nat),
        n8_elements: n8_elements_at(b, n8_count_pos(b) + 1, b[n8_count_pos(b)] as nat),
    }
}

#[verifier::opaque]
/// What decoding a record from `b` gives: the bytes read and the record, or the error
/// for a priority byte outside 0..=2; `None` where the layout runs past the end of `b` or
/// a group count exceeds 16.
pub open spec fn record_decoding(b: Seq<u8>) -> Option<Result<(nat, AvlDataRecordModel), AvlError>> {
    if b.len() < 9 {
        None
    } else if b[8] > 2 {
        Some(Err(AvlError::InvalidPriority(b[8])))
    } else if !record_fits(b) {
        None
    } else {
        Some(Ok((record_end(b) as nat, record_at(b))))
    }
}


/// The bytes of a record are its head followed by its four groups.
pub proof fn lemma_record_bytes_parts(m: AvlDataRecordModel)
    ensures
        record_bytes(m) == record_head_bytes(m) + n1_group_bytes(m.n1_elements) + n2_group_bytes(
            m.n2_elements,
        ) + n4_group_bytes(m.n4_elements) + n8_group_bytes(m.n8_elements),
{
    reveal(record_bytes);
}

/// The encoded length of a record is its size.
pub proof fn lemma_record_size(m: AvlDataRecordModel)
    ensures
        record_bytes(m).len() == record_size(m),
{
    reveal(record_bytes);
    lemma_group_lengths(m);
}

/// Each group's elements take a fixed number of bytes, and the GPS element fifteen.
proof fn lemma_group_lengths(m: AvlDataRecordModel)
    ensures
        concat_map(m.n1_elements, n1_enc()).len() == 2 * m.n1_elements.len(),
        concat_map(m.n2_elements, n2_enc()).len() == 3 * m.n2_elements.len(),
        concat_map(m.n4_elements, n4_enc()).len() == 5 * m.n4_elements.len(),
        concat_map(m.n8_elements, n8_enc()).len() == 9 * m.n8_elements.len(),
        gps_bytes(m.gps_element).len() == 15,
{
    lemma_n1_group_len(m.n1_elements);
    lemma_n2_group_len(m.n2_elements);
    lemma_n4_group_len(m.n4_elements);
    lemma_n8_group_len(m.n8_elements);
    lemma_gps_roundtrip(m.gps_element, Seq::empty());
}

/// A group's count byte and elements are read back from its bytes.
proof fn lemma_n1_group_at(s: Seq<AvlN1Element>, b: Seq<u8>, p: int)
    requires
        s.len() <= 16,
        0 <= p,
        p + 1 + 2 * s.len() <= b.len(),
        b.subrange(p, p + 1 + 2 * s.len()) == n1_group_bytes(s),
    ensures
        b[p] == s.len(),
        n1_elements_at(b, p + 1, s.len()) == s,
{
    lemma_n1_group_len(s);
    let g = n1_group_bytes(s);
    assert(b[p] == g[0]);
    assert(b.subrange(p + 1, p + 1 + 2 * s.len()) =~= g.subrange(1, 1 + 2 * s.len() as int));
    assert(g.subrange(1, 1 + 2 * s.len() as int) =~= concat_map(s, n1_enc()));
    lemma_n1_group_roundtrip(s, b, p + 1);
}

/// A group's count byte and elements are read back from its bytes.
proof fn lemma_n2_group_at(s: Seq<AvlN2Element>, b: Seq<u8>, p: int)
    requires
        s.len() <= 16,
        0 <= p,
        p + 1 + 3 * s.len() <= b.len(),
        b.subrange(p, p + 1 + 3 * s.len()) == n2_group_bytes(s),
    ensures
        b[p] == s.len(),
        n2_elements_at(b, p + 1, s.len()) == s,
{
    lemma_n2_group_len(s);
    let g = n2_group_bytes(s);
    assert(b[p] == g[0]);
    assert(b.subrange(p + 1, p + 1 + 3 * s.len()) =~= g.subrange(1, 1 + 3 * s.len() as int));
    assert(g.subrange(1, 1 + 3 * s.len() as int) =~= concat_map(s, n2_enc()));
    lemma_n2_group_roundtrip(s, b, p + 1);
}

/// A group's count byte and elements are read back from its bytes.
proof fn lemma_n4_group_at(s: Seq<AvlN4Element>, b: Seq<u8>, p: int)
    requires
        s.len() <= 16,
        0 <= p,
        p + 1 + 5 * s.len() <= b.len(),
        b.subrange(p, p + 1 + 5 * s.len()) == n4_group_bytes(s),
    ensures
        b[p] == s.len(),
        n4_elements_at(b, p + 1, s.len()) == s,
{
    lemma_n4_group_len(s);
    let g = n4_group_bytes(s);
    assert(b[p] == g[0]);
    assert(b.subrange(p + 1, p + 1 + 5 * s.len()) =~= g.subrange(1, 1 + 5 * s.len() as int));
    assert(g.subrange(1, 1 + 5 * s.len() as int) =~= concat_map(s, n4_enc()));
    lemma_n4_group_roundtrip(s, b, p + 1);
}

/// A group's count byte and elements are read back from its bytes.
proof fn lemma_n8_group_at(s: Seq<AvlN8Element>, b: Seq<u8>, p: int)
    requires
        s.len() <= 16,
        0 <= p,
        p + 1 + 9 * s.len() <= b.len(),
        b.subrange(p, p + 1 + 9 * s.len()) == n8_group_bytes(s),
    ensures
        b[p] == s.len(),
        n8_elements_at(b, p + 1, s.len()) == s,
{
    lemma_n8_group_len(s);
    let g = n8_group_bytes(s);
    assert(b[p] == g[0]);
    assert(b.subrange(p + 1, p + 1 + 9 * s.len()) =~= g.subrange(1, 1 + 9 * s.len() as int));
    assert(g.subrange(1, 1 + 9 * s.len() as int) =~= concat_map(s, n8_enc()));
    lemma_n8_group_roundtrip(s, b, p + 1);
}

/// Where `b` holds `x` from `p` on (and `x` is part of `b`'s first bytes).
proof fn lemma_part_at(b: Seq<u8>, whole: Seq<u8>, before: Seq<u8>, x: Seq<u8>, after: Seq<u8>)
    requires
        whole == before + x + after,
        whole.len() <= b.len(),
        b.take(whole.len() as int) == whole,
    ensures
        b.subrange(before.len() as int, before.len() + x.len() as int) == x,
{
    assert forall|i: int| 0 <= i < x.len() implies #[trigger] b.subrange(
        before.len() as int,
        before.len() + x.len() as int,
    )[i] == x[i] by {
        assert(b.take(whole.len() as int)[before.len() + i] == whole[before.len() + i]);
    }
    assert(b.subrange(before.len() as int, before.len() + x.len() as int) =~= x);
}

/// Where the group of N`w` elements starts in the bytes of a record.
pub open spec fn group_pos(m: AvlDataRecordModel, w: int) -> int {
    let a = m.n1_elements.len() as int;
    let c = m.n2_elements.len() as int;
    let d = m.n4_elements.len() as int;
    if w == 2 {
        27 + 2 * a
    } else if w == 4 {
        28 + 2 * a + 3 * c
    } else {
        29 + 2 * a + 3 * c + 5 * d
    }
}

/// A buffer that holds the head and groups of a record decodes to the record.
#[verifier::spinoff_prover]
proof fn lemma_record_decoding_of_parts(m: AvlDataRecordModel, b: Seq<u8>)
    requires
        groups_fit(m),
        m.total_io_count == io_element_count(m),
        b.len() >= record_size(m),
        b.subrange(0, 26) == record_head_bytes(m),
        b.subrange(26, group_pos(m, 2)) == n1_group_bytes(m.n1_elements),
        b.subrange(group_pos(m, 2), group_pos(m, 4)) == n2_group_bytes(m.n2_elements),
        b.subrange(group_pos(m, 4), group_pos(m, 8)) == n4_group_bytes(m.n4_elements),
        b.subrange(group_pos(m, 8), record_size(m) as int) == n8_group_bytes(m.n8_elements),
    ensures
        record_decoding(b) == Some(Ok::<(nat, AvlDataRecordModel), AvlError>((record_size(m), m))),
{
    reveal(record_decoding);
    let a: int = m.n1_elements.len() as int;
    let c: int = m.n2_elements.len() as int;
    let d: int = m.n4_elements.len() as int;
    let p2: int = 27 + 2 * a;
    let p4: int = p2 + 1 + 3 * c;
    let p8: int = p4 + 1 + 5 * d;
    lemma_n1_group_at(m.n1_elements, b, 26);
    lemma_n2_group_at(m.n2_elements, b, p2);
    lemma_n4_group_at(m.n4_elements, b, p4);
    lemma_n8_group_at(m.n8_elements, b, p8);
    let head = record_head_bytes(m);
    let hb = b.subrange(0, 26);
    assert(b[8] == priority_byte(m.priority)) by {
        assert(hb[8] == head[8]);
    }
    assert(b.subrange(0, 8) =~= be64(m.timestamp)) by {
        assert(hb.subrange(0, 8) =~= head.subrange(0, 8));
    }
    lemma_gps_roundtrip(m.gps_element, Seq::empty());
    assert(b.subrange(9, 24) =~= gps_bytes(m.gps_element) + Seq::<u8>::empty()) by {
        assert(b.subrange(9, 24) =~= hb.subrange(9, 24));
        assert(hb.subrange(9, 24) =~= head.subrange(9, 24));
        assert(head.subrange(9, 24) =~= gps_bytes(m.gps_element));
    }
    assert(b[24] == m.event_io_id && b[25] == m.total_io_count) by {
        assert(hb[24] == head[24]);
        assert(hb[25] == head[25]);
    }
    lemma_be64_roundtrip(m.timestamp);
    assert(n2_count_pos(b) == p2);
    assert(n4_count_pos(b) == p4);
    assert(n8_count_pos(b) == p8);
    assert(record_fits(b));
    assert(record_at(b) == m);
}

/// Decoding the bytes of a record gives back the record and its length, whatever follows
/// them, when its groups hold at most 16 elements each and its total IO count is the
/// number of elements it holds.
#[verifier::spinoff_prover]
pub proof fn lemma_record_roundtrip(m: AvlDataRecordModel, rest: Seq<u8>)
    requires
        groups_fit(m),
        m.total_io_count == io_element_count(m),
    ensures
        record_decoding(record_bytes(m) + rest) == Some(
            Ok::<(nat, AvlDataRecordModel), AvlError>((record_size(m), m)),
        ),
{
    lemma_group_lengths(m);
    lemma_record_size(m);
    let rb = record_bytes(m);
    let b = rb + rest;
    let head = record_head_bytes(m);
    let g1 = n1_group_bytes(m.n1_elements);
    let g2 = n2_group_bytes(m.n2_elements);
    let g4 = n4_group_bytes(m.n4_elements);
    let g8 = n8_group_bytes(m.n8_elements);
    lemma_n1_group_len(m.n1_elements);
    lemma_n2_group_len(m.n2_elements);
    lemma_n4_group_len(m.n4_elements);
    lemma_n8_group_len(m.n8_elements);
    assert(rb == head + g1 + g2 + g4 + g8) by {
        reveal(record_bytes);
    }
    assert(b.take(rb.len() as int) =~= rb);
    assert(head.len() == 26);
    assert(rb =~= Seq::<u8>::empty() + head + (g1 + g2 + g4 + g8));
    assert(rb =~= head + g1 + (g2 + g4 + g8));
    assert(rb =~= head + g1 + g2 + (g4 + g8));
    lemma_part_at(b, rb, head + g1 + g2 + g4, g8, Seq::empty());
    lemma_part_at(b, rb, head + g1 + g2, g4, g8);
    lemma_part_at(b, rb, head + g1, g2, g4 + g8);
    lemma_part_at(b, rb, head, g1, g2 + g4 + g8);
    lemma_part_at(b, rb, Seq::empty(), head, g1 + g2 + g4 + g8);
    lemma_record_decoding_of_parts(m, b);
}

/// Re-encoding a decoded record gives back the bytes it was read from, when its total IO
/// count byte is the number of elements it holds.
#[verifier::spinoff_prover]
pub proof fn lemma_record_bytes_of_decoded(b: Seq<u8>)
    requires
        record_decoding(b) matches Some(Ok((_, m))) && m.total_io_count == io_element_count(m),
    ensures
        record_decoding(b) matches Some(Ok((n, m))) && record_bytes(m) == b.take(n as int),
{
    reveal(record_decoding);
    let m = record_at(b);
    let n = record_end(b);
    let c1 = b[26] as nat;
    let p2 = n2_count_pos(b);
    let c2 = b[p2] as nat;
    let p4 = n4_count_pos(b);
    let c4 = b[p4] as nat;
    let p8 = n8_count_pos(b);
    let c8 = b[p8] as nat;
    lemma_from_be64_roundtrip(b.subrange(0, 8));
    lemma_gps_bytes_of_decoded(b.subrange(9, 24));
    assert(b.subrange(9, 24).take(15) =~= b.subrange(9, 24));
    assert(priority_byte(m.priority) == b[8]);
    assert(record_head_bytes(m) =~= b.subrange(0, 26));
    lemma_n1_elements_bytes_of_decoded(b, 27, c1);
    lemma_n2_elements_bytes_of_decoded(b, p2 + 1, c2);
    lemma_n4_elements_bytes_of_decoded(b, p4 + 1, c4);
    lemma_n8_elements_bytes_of_decoded(b, p8 + 1, c8);
    assert(n1_group_bytes(m.n1_elements) =~= b.subrange(26, p2));
    assert(n2_group_bytes(m.n2_elements) =~= b.subrange(p2, p4));
    assert(n4_group_bytes(m.n4_elements) =~= b.subrange(p4, p8));
    assert(n8_group_bytes(m.n8_elements) =~= b.subrange(p8, n));
    lemma_record_bytes_parts(m);
    assert(b.subrange(0, 26) + b.subrange(26, p2) + b.subrange(p2, p4) + b.subrange(p4, p8)
        + b.subrange(p8, n) =~= b.take(n));
}

/// The first 26 bytes of an encoded record, field by field: the timestamp in big-endian
/// order, the priority byte (which `Priority::try_from` reads back as the record's
/// priority: 0 for `Low`, 1 for `Medium`, 2 for `High`), the GPS element in its own layout
/// (longitude, latitude, altitude, angle, satellites, speed), the event IO id and the
/// number of IO elements.
pub proof fn lemma_record_head_fields(m: AvlDataRecordModel)
    ensures
        record_bytes(m).len() >= 26,
        from_be64(record_bytes(m).subrange(0, 8)) == m.timestamp,
        priority_from_byte(record_bytes(m)[8]) == Ok::<Priority, AvlError>(m.priority),
        m.priority == Priority::Low ==> record_bytes(m)[8] == 0,
        m.priority == Priority::Medium ==> record_bytes(m)[8] == 1,
        m.priority == Priority::High ==> record_bytes(m)[8] == 2,
        record_bytes(m).subrange(9, 24) == gps_bytes(m.gps_element),
        coordinate_from(record_bytes(m).subrange(9, 13)) == m.gps_element.longitude,
        coordinate_from(record_bytes(m).subrange(13, 17)) == m.gps_element.latitude,
        from_be16(record_bytes(m).subrange(17, 19)) as i16 == m.gps_element.altitude,
        from_be16(record_bytes(m).subrange(19, 21)) == m.gps_element.angle,
        record_bytes(m)[21] == m.gps_element.satellites,
        from_be16(record_bytes(m).subrange(22, 24)) == m.gps_element.speed,
        record_bytes(m)[24] == m.event_io_id,
        record_bytes(m)[25] == io_element_count(m) as u8,
{
    reveal(record_bytes);
    let rb = record_bytes(m);
    let head = record_head_bytes(m);
    let g = m.gps_element;
    let gb = gps_bytes(g);
    lemma_be64_roundtrip(m.timestamp);
    lemma_gps_roundtrip(g, Seq::empty());
    assert(gb + Seq::<u8>::empty() =~= gb);
    assert(head.len() == 26);
    assert(rb.subrange(0, 26) =~= head);
    assert(rb.subrange(0, 8) =~= be64(m.timestamp));
    assert(rb[8] == priority_byte(m.priority));
    assert(rb.subrange(9, 24) =~= gb);
    assert(rb.subrange(9, 13) =~= gb.subrange(0, 4));
    assert(rb.subrange(13, 17) =~= gb.subrange(4, 8));
    assert(rb.subrange(17, 19) =~= gb.subrange(8, 10));
    assert(rb.subrange(19, 21) =~= gb.subrange(10, 12));
    assert(rb[21] == gb[12]);
    assert(rb.subrange(22, 24) =~= gb.subrange(13, 15));
    assert(rb[24] == m.event_io_id);
    assert(rb[25] == io_element_count(m) as u8);
}

/// A record decoded from `b` has the fields laid out in the first 26 bytes of `b`: the
/// big-endian timestamp, the priority that `Priority::try_from` reads from byte 8 (0 is
/// `Low`, 1 is `Medium`, 2 is `High`), the GPS element read from bytes 9..24 in its own
/// layout (longitude, latitude, altitude, angle, satellites, speed), the event IO id and
/// the stored total IO count.
pub proof fn lemma_record_decoded_fields(b: Seq<u8>)
    requires
        record_decoding(b) matches Some(Ok(_)),
    ensures
        record_decoding(b) matches Some(Ok((n, m))) && {
            &&& 26 <= n <= b.len()
            &&& from_be64(b.subrange(0, 8)) == m.timestamp
            &&& priority_from_byte(b[8]) == Ok::<Priority, AvlError>(m.priority)
            &&& (b[8] == 0 ==> m.priority == Priority::Low)
            &&& (b[8] == 1 ==> m.priority == Priority::Medium)
            &&& (b[8] == 2 ==> m.priority == Priority::High)
            &&& m.gps_element == gps_from(b.subrange(9, 24))
            &&& m.gps_element.longitude == coordinate_from(b.subrange(9, 13))
            &&& m.gps_element.latitude == coordinate_from(b.subrange(13, 17))
            &&& m.gps_element.altitude == from_be16(b.subrange(17, 19)) as i16
            &&& m.gps_element.angle == from_be16(b.subrange(19, 21))
            &&& m.gps_element.satellites == b[21]
            &&& m.gps_element.speed == from_be16(b.subrange(22, 24))
            &&& m.event_io_id == b[24]
            &&& m.total_io_count == b[25]
        },
{
    reveal(record_decoding);
    let g = b.subrange(9, 24);
    assert(g.subrange(0, 4) =~= b.subrange(9, 13));
    assert(g.subrange(4, 8) =~= b.subrange(13, 17));
    assert(g.subrange(8, 10) =~= b.subrange(17, 19));
    assert(g.subrange(10, 12) =~= b.subrange(19, 21));
    assert(g.subrange(13, 15) =~= b.subrange(22, 24));
}

impl AvlDataRecord {
    /// Encoded size of the record in bytes.
    pub fn size(&self) -> (n: usize)
        ensures
            n == record_size(self@),
            n == record_bytes(self@).len(),
            groups_fit(self@),
    {
        proof {
            lemma_record_size(self@);
        }
        let gps_element_size: usize = 15;
        let io_elements_size: usize = n1_items_slice(&self.n1_elements).len() * 2
            + n2_items_slice(&self.n2_elements).len() * 3 + n4_items_slice(&self.n4_elements).len()
            * 5 + n8_items_slice(&self.n8_elements).len() * 9;
        8 + 1 + gps_element_size + 1 + 1 + 4 + io_elements_size
    }

    /// Writes the 26 bytes in front of the IO element groups at `pos`.
    fn write_head_at(&self, buf: &mut [u8], pos: usize)
        requires
            pos + 26 <= old(buf)@.len(),
        ensures
            groups_fit(self@),
            final(buf)@ == splice(old(buf)@, pos as int, record_head_bytes(self@)),
            final(buf)@.len() == old(buf)@.len(),
    {
        let ghost b0 = buf@;
        let ghost m = self@;
        proof {
            lemma_slice_len_bound(&*buf);
            lemma_gps_roundtrip(m.gps_element, Seq::empty());
        }
        put_u64(buf, pos, self.timestamp);
        put_u8(buf, pos + 8, priority_to_byte(self.priority));
        self.gps_element.write_at(buf, pos + 9);
        put_u8(buf, pos + 24, self.event_io_id);
        let total = n1_items_slice(&self.n1_elements).len() as u8 + n2_items_slice(
            &self.n2_elements,
        ).len() as u8 + n4_items_slice(&self.n4_elements).len() as u8 + n8_items_slice(
            &self.n8_elements,
        ).len() as u8;
        put_u8(buf, pos + 25, total);
        proof {
            let p = pos as int;
            let h1 = be64(m.timestamp);
            let h2 = h1 + seq![priority_byte(m.priority)];
            let h3 = h2 + gps_bytes(m.gps_element);
            let h4 = h3 + seq![m.event_io_id];
            lemma_splice_then(b0, p, h1, seq![priority_byte(m.priority)]);
            lemma_splice_then(b0, p, h2, gps_bytes(m.gps_element));
            lemma_splice_then(b0, p, h3, seq![m.event_io_id]);
            lemma_splice_then(b0, p, h4, seq![io_element_count(m) as u8]);
        }
    }

    /// Writes the bytes of the record at `pos`; returns the position behind them.
    #[verifier::spinoff_prover]
    pub(crate) fn write_at(&self, buf: &mut [u8], pos: usize) -> (end: usize)
        requires
            pos + record_size(self@) <= old(buf)@.len(),
        ensures
            end == pos + record_size(self@),
            groups_fit(self@),
            final(buf)@ == splice(old(buf)@, pos as int, record_bytes(self@)),
            final(buf)@.len() == old(buf)@.len(),
    {
        let ghost b0 = buf@;
        let ghost m = self@;
        proof {
            lemma_record_bytes_parts(m);
            lemma_slice_len_bound(&*buf);
            lemma_group_lengths(m);
            lemma_n1_group_len(m.n1_elements);
            lemma_n2_group_len(m.n2_elements);
            lemma_n4_group_len(m.n4_elements);
            lemma_n8_group_len(m.n8_elements);
        }
        self.write_head_at(buf, pos);
        let ghost h5 = record_head_bytes(m);
        let off = write_n1_group(&self.n1_elements, buf, pos + 26);
        proof {
            lemma_splice_then(b0, pos as int, h5, n1_group_bytes(m.n1_elements));
        }
        let ghost h6 = h5 + n1_group_bytes(m.n1_elements);
        let off = write_n2_group(&self.n2_elements, buf, off);
        proof {
            lemma_splice_then(b0, pos as int, h6, n2_group_bytes(m.n2_elements));
        }
        let ghost h7 = h6 + n2_group_bytes(m.n2_elements);
        let off = write_n4_group(&self.n4_elements, buf, off);
        proof {
            lemma_splice_then(b0, pos as int, h7, n4_group_bytes(m.n4_elements));
        }
        let ghost h8 = h7 + n4_group_bytes(m.n4_elements);
        let off = write_n8_group(&self.n8_elements, buf, off);
        proof {
            lemma_splice_then(b0, pos as int, h8, n8_group_bytes(m.n8_elements));
        }
        off
    }

    /// Writes the record at the start of `buf`; returns the number of bytes written.
    pub fn encode(&self, buf: &mut [u8]) -> (r: Result<usize, AvlError>)
        requires
            old(buf)@.len() >= record_size(self@),
        ensures
            r == Ok::<usize, AvlError>(record_size(self@) as usize),
            final(buf)@ == record_bytes(self@) + old(buf)@.skip(record_size(self@) as int),
    {
        let n = self.write_at(buf, 0);
        proof {
            lemma_record_size(self@);
            lemma_splice_start(old(buf)@, record_bytes(self@));
        }
        Ok(n)
    }

    /// Reads a record from the start of `buf`; returns the bytes read and the record, or
    /// `InvalidPriority` for a priority byte outside 0..=2.
    pub fn decode(buf: &[u8]) -> (r: Result<(usize, Self), AvlError>)
        requires
            record_decoding(buf@) is Some,
        ensures
            match r {
                Ok((n, rec)) => record_decoding(buf@) == Some(
                    Ok::<(nat, AvlDataRecordModel), AvlError>((n as nat, rec@)),
                ),
                Err(e) => record_decoding(buf@) == Some(
                    Err::<(nat, AvlDataRecordModel), AvlError>(e),
                ),
            },
            r matches Ok((n, _)) ==> n <= buf@.len(),
    {
        proof {
            reveal(record_decoding);
            lemma_slice_len_bound(buf);
        }
        let timestamp = get_u64(buf, 0);
        let priority = match Priority::try_from(buf[8]) {
            Ok(p) => p,
            Err(e) => {
                return Err(e);
            },
        };
        let gps_element = match AvlGpsElement::decode(&buf[9..24]) {
            Ok(g) => g,
            Err(e) => {
                return Err(e);
            },
        };
        let mut offset: usize = 9 + 15;
        let event_io_id = buf[offset];
        offset += 1;
        let total_io_count = buf[offset];
        offset += 1;
        let n1_io_count = buf[offset];
        offset += 1;
        let n1_elements = read_n1_group(buf, offset, n1_io_count as usize);
        offset += n1_io_count as usize * 2;
        let n2_io_count = buf[offset];
        offset += 1;
        let n2_elements = read_n2_group(buf, offset, n2_io_count as usize);
        offset += n2_io_count as usize * 3;
        let n4_io_count = buf[offset];
        offset += 1;
        let n4_elements = read_n4_group(buf, offset, n4_io_count as usize);
        offset += n4_io_count as usize * 5;
        let n8_io_count = buf[offset];
        offset += 1;
        let n8_elements = read_n8_group(buf, offset, n8_io_count as usize);
        offset += n8_io_count as usize * 9;
        let rec = Self {
            timestamp,
            priority,
            gps_element,
            event_io_id,
            total_io_count,
            n1_elements,
            n2_elements,
            n4_elements,
            n8_elements,
        };
        proof {
            assert(rec@ == record_at(buf@));
        }
        Ok((offset, rec))
    }
}


/// Whether a record is encoded as it is: each group holds at most 16 elements and its
/// total IO count is the number of elements it holds.
pub open spec fn record_well_formed(m: AvlDataRecordModel) -> bool {
    &&& groups_fit(m)
    &&& m.total_io_count == io_element_count(m)
}

/// A record has at most 30 + 16 * (2 + 3 + 5 + 9) = 334 bytes.
pub proof fn lemma_record_size_bound(m: AvlDataRecordModel)
    requires
        groups_fit(m),
    ensures
        record_size(m) <= 334,
{
}

/// An AVL data packet of Codec 8: up to four records.
#[derive(Clone, Debug, PartialEq)]
pub struct Codec8Packet {
    pub avl_data_records: StackVec<AvlDataRecord, 4>,
}

/// The abstract contents of records.
pub open spec fn records_model(rs: Seq<AvlDataRecord>) -> Seq<AvlDataRecordModel> {
    rs.map_values(|r: AvlDataRecord| r@)
}

impl View for Codec8Packet {
    type V = Seq<AvlDataRecordModel>;

    open spec fn view(&self) -> Seq<AvlDataRecordModel> {
        records_model(record_items(self.avl_data_records))
    }
}

/// `record_bytes` as a function value.
pub open spec fn record_enc() -> spec_fn(AvlDataRecordModel) -> Seq<u8> {
    |m: AvlDataRecordModel| record_bytes(m)
}

/// The data field of a packet: codec id, record count, the records, record count again.
pub open spec fn packet_data(rs: Seq<AvlDataRecordModel>) -> Seq<u8> {
    seq![CODEC8_TYPE_ID, rs.len() as u8] + concat_map(rs, record_enc()) + seq![rs.len() as u8]
}

/// The wire bytes of a packet: four zero bytes, the length of the data field, the data
/// field, and its CRC-16 in four big-endian bytes.
pub open spec fn packet_bytes(rs: Seq<AvlDataRecordModel>) -> Seq<u8> {
    seq![0u8, 0u8, 0u8, 0u8] + be32(packet_data(rs).len() as u32) + packet_data(rs) + be32(
        spec_crc16(packet_data(rs)) as u32,
    )
}

/// What decoding the first `k` records of a packet from `b` (records start at byte 10)
/// gives: where the next record starts and the records, or the first error; `None` where
/// a record runs past the end of `b` or a fifth record would be kept.
pub open spec fn records_decoding(b: Seq<u8>, k: nat) -> Option<
    Result<(nat, Seq<AvlDataRecordModel>), AvlError>,
>
    decreases k,
{
    if k == 0 {
        Some(Ok((10, Seq::empty())))
    } else {
        match records_decoding(b, (k - 1) as nat) {
            Some(Ok((o, rs))) => {
                if o > b.len() {
                    None
                } else {
                    match record_decoding(b.skip(o as int)) {
                        None => None,
                        Some(Err(e)) => Some(Err(e)),
                        Some(Ok((n, r))) => {
                            if rs.len() >= 4 {
                                None
                            } else {
                                Some(Ok((o + n, rs.push(r))))
                            }
                        },
                    }
                }
            },
            other => other,
        }
    }
}

/// The data field length stored in a packet read from `b`.
pub open spec fn stored_data_length(b: Seq<u8>) -> int {
    from_be32(b.subrange(4, 8)) as int
}

/// What decoding a packet from `b` gives: the bytes read and its records, or the error;
/// `None` where the layout runs past the end of `b`, a group count exceeds 16 or more than
/// four records are announced.
pub open spec fn packet_decoding(b: Seq<u8>) -> Option<
    Result<(nat, Seq<AvlDataRecordModel>), AvlError>,
> {
    if b.len() < 8 {
        None
    } else {
        let l = stored_data_length(b);
        if b.len() < 12 + l {
            None
        } else {
            let stored = from_be16(b.subrange(10 + l, 12 + l));
            let computed = spec_crc16(b.subrange(8, 8 + l));
            if stored != computed {
                Some(Err(AvlError::InvalidChecksum { expected: stored, actual: computed }))
            } else if b[9] != b[8 + l - 1] {
                Some(Err(AvlError::InvalidDataCount { data_1_count: b[9], data_2_count: b[8 + l - 1] }))
            } else {
                match records_decoding(b, b[9] as nat) {
                    Some(Ok((o, rs))) => Some(Ok((o + 5, rs))),
                    other => other,
                }
            }
        }
    }
}

/// Once decoding the records has failed or cannot go on, decoding more records
/// ends the same way.
pub proof fn lemma_records_decoding_settled(b: Seq<u8>, k: nat, c: nat)
    requires
        k <= c,
    ensures
        records_decoding(b, k) is None ==> records_decoding(b, c) is None,
        records_decoding(b, k) matches Some(Err(_)) ==> records_decoding(b, c) == records_decoding(b, k),
    decreases c,
{
    if k < c {
        lemma_records_decoding_settled(b, k, (c - 1) as nat);
    }
}


/// The records of a packet take at most 334 bytes each.
pub proof fn lemma_records_size_bound(rs: Seq<AvlDataRecordModel>)
    requires
        forall|i: int| 0 <= i < rs.len() ==> groups_fit(#[trigger] rs[i]),
    ensures
        concat_map(rs, record_enc()).len() <= 334 * rs.len(),
    decreases rs.len(),
{
    if rs.len() > 0 {
        let p = rs.drop_last();
        assert forall|i: int| 0 <= i < p.len() implies groups_fit(#[trigger] p[i]) by {
            assert(p[i] == rs[i]);
        }
        lemma_records_size_bound(p);
        lemma_record_size(rs.last());
        lemma_record_size_bound(rs.last());
    }
}

/// The items of a packet's records are the records of its model.
proof fn lemma_packet_items(p: &Codec8Packet, s: Seq<AvlDataRecord>)
    requires
        s == record_items(p.avl_data_records),
    ensures
        p@.len() == s.len(),
        forall|i: int| 0 <= i < s.len() ==> #[trigger] p@[i] == s[i]@,
{
}

impl Codec8Packet {
    /// Fewest bytes of an encoded packet (one record without IO elements).
    pub const MIN_LENGTH: usize = 45;

    /// Most bytes an encoded packet may take.
    pub const MAX_LENGTH: usize = 1280;

    /// Length of the data field: codec id, the two record counts and the records.
    pub fn data_field_length(&self) -> (l: u32)
        ensures
            l == packet_data(self@).len(),
            packet_data(self@).len() <= 3 + 334 * 4,
            self@.len() <= 4,
            forall|i: int| 0 <= i < self@.len() ==> groups_fit(#[trigger] self@[i]),
    {
        let recs = record_items_slice(&self.avl_data_records);
        proof {
            lemma_packet_items(self, recs@);
        }
        let n = recs.len();
        let mut sum: usize = 0;
        let mut i: usize = 0;
        while i < n
            invariant
                n == recs@.len(),
                n <= 4,
                recs@ == record_items(self.avl_data_records),
                self@.len() == n,
                forall|j: int| 0 <= j < n ==> #[trigger] self@[j] == recs@[j]@,
                forall|j: int| 0 <= j < i ==> groups_fit(#[trigger] self@[j]),
                i <= n,
                sum == concat_map(self@.take(i as int), record_enc()).len(),
                sum <= 334 * i,
            decreases n - i,
        {
            let size = recs[i].size();
            proof {
                lemma_record_size_bound(self@[i as int]);
                lemma_concat_map_push(self@.take(i as int), self@[i as int], record_enc());
                assert(self@.take(i + 1) =~= self@.take(i as int).push(self@[i as int]));
            }
            sum = sum + size;
            i = i + 1;
        }
        proof {
            assert(self@.take(n as int) =~= self@);
        }
        sum as u32 + 3
    }

    /// Writes the packet at the start of `buf`; returns the number of bytes written.
    pub fn encode(&self, buf: &mut [u8]) -> (r: Result<usize, AvlError>)
        requires
            old(buf)@.len() >= packet_bytes(self@).len(),
        ensures
            r == Ok::<usize, AvlError>(packet_bytes(self@).len() as usize),
            final(buf)@ == packet_bytes(self@) + old(buf)@.skip(packet_bytes(self@).len() as int),
    {
        let ghost b0 = buf@;
        let ghost m = self@;
        let ghost f = record_enc();
        let dfl = self.data_field_length();
        proof {
            lemma_slice_len_bound(&*buf);
            lemma_be32_roundtrip(dfl);
        }
        put_u8(buf, 0, 0);
        put_u8(buf, 1, 0);
        put_u8(buf, 2, 0);
        put_u8(buf, 3, 0);
        put_u32(buf, 4, dfl);
        put_u8(buf, 8, CODEC8_TYPE_ID);
        let recs = record_items_slice(&self.avl_data_records);
        proof {
            lemma_packet_items(self, recs@);
        }
        let count = recs.len();
        put_u8(buf, 9, count as u8);
        let ghost head = seq![0u8, 0u8, 0u8, 0u8] + be32(dfl) + seq![CODEC8_TYPE_ID, count as u8];
        proof {
            lemma_splice_then(b0, 0, seq![0u8], seq![0u8]);
            lemma_splice_then(b0, 0, seq![0u8, 0u8], seq![0u8]);
            lemma_splice_then(b0, 0, seq![0u8, 0u8, 0u8], seq![0u8]);
            lemma_splice_then(b0, 0, seq![0u8, 0u8, 0u8, 0u8], be32(dfl));
            lemma_splice_then(b0, 0, seq![0u8, 0u8, 0u8, 0u8] + be32(dfl), seq![CODEC8_TYPE_ID]);
            lemma_splice_then(
                b0,
                0,
                seq![0u8, 0u8, 0u8, 0u8] + be32(dfl) + seq![CODEC8_TYPE_ID],
                seq![count as u8],
            );
            assert(seq![0u8] + seq![0u8] =~= seq![0u8, 0u8]);
            assert(seq![0u8, 0u8] + seq![0u8] =~= seq![0u8, 0u8, 0u8]);
            assert(seq![0u8, 0u8, 0u8] + seq![0u8] =~= seq![0u8, 0u8, 0u8, 0u8]);
            assert(seq![0u8, 0u8, 0u8, 0u8] + be32(dfl) + seq![CODEC8_TYPE_ID] + seq![count as u8]
                =~= head);
            assert(concat_map(m.take(0), f) =~= Seq::<u8>::empty());
            assert(head + concat_map(m.take(0), f) =~= head);
            lemma_records_size_bound(m);
        }
        let mut offset: usize = 10;
        let mut i: usize = 0;
        while i < count
            invariant
                count == recs@.len(),
                count == m.len(),
                count <= 4,
                m == self@,
                f == record_enc(),
                forall|j: int| 0 <= j < count ==> #[trigger] m[j] == recs@[j]@,
                i <= count,
                head.len() == 10,
                buf@.len() == b0.len(),
                b0.len() >= packet_bytes(m).len(),
                b0.len() <= usize::MAX,
                concat_map(m, f).len() <= 334 * 4,
                offset == 10 + concat_map(m.take(i as int), f).len(),
                buf@ == splice(b0, 0, head + concat_map(m.take(i as int), f)),
            decreases count - i,
        {
            proof {
                lemma_concat_map_append(m.take(i + 1), m.skip(i + 1), f);
                assert(m.take(i + 1) + m.skip(i + 1) =~= m);
                lemma_concat_map_push(m.take(i as int), m[i as int], f);
                assert(m.take(i + 1) =~= m.take(i as int).push(m[i as int]));
                lemma_record_size(m[i as int]);
            }
            offset = recs[i].write_at(buf, offset);
            proof {
                lemma_splice_then(b0, 0, head + concat_map(m.take(i as int), f), record_bytes(m[i as int]));
                assert(head + concat_map(m.take(i as int), f) + record_bytes(m[i as int]) =~= head
                    + concat_map(m.take(i + 1), f));
            }
            i = i + 1;
        }
        proof {
            assert(m.take(count as int) =~= m);
        }
        put_u8(buf, offset, count as u8);
        let ghost prefix = head + concat_map(m, f) + seq![count as u8];
        proof {
            lemma_splice_then(b0, 0, head + concat_map(m, f), seq![count as u8]);
            assert(prefix =~= seq![0u8, 0u8, 0u8, 0u8] + be32(dfl) + packet_data(m));
            lemma_splice_start(b0, prefix);
            assert(buf@.subrange(8, 8 + dfl as int) =~= packet_data(m));
        }
        let data_field_length = dfl as usize;
        let crc16_value = crc16(&buf[8..8 + data_field_length]) as u32;
        put_u32(buf, offset + 1, crc16_value);
        proof {
            lemma_splice_then(b0, 0, prefix, be32(crc16_value));
            assert(prefix + be32(crc16_value) =~= packet_bytes(m));
            lemma_splice_start(b0, packet_bytes(m));
        }
        Ok(offset + 5)
    }

    /// Reads a packet from the start of `buf`; returns the bytes read and the packet, or
    /// `InvalidChecksum` when the stored CRC differs from the CRC of the data field,
    /// `InvalidDataCount` when the two record counts differ, or the error of the first
    /// record that cannot be read.
    pub fn decode(buf: &[u8]) -> (r: Result<(usize, Self), AvlError>)
        requires
            packet_decoding(buf@) is Some,
            buf@.len() + 5 <= usize::MAX,
        ensures
            match r {
                Ok((n, p)) => packet_decoding(buf@) == Some(
                    Ok::<(nat, Seq<AvlDataRecordModel>), AvlError>((n as nat, p@)),
                ),
                Err(e) => packet_decoding(buf@) == Some(
                    Err::<(nat, Seq<AvlDataRecordModel>), AvlError>(e),
                ),
            },
    {
        let ghost b = buf@;
        let data_field_length = get_u32(buf, 4);
        let l = data_field_length as usize;
        let crc16_value = get_u16(buf, 10 + l);
        let computed_crc16_value = crc16(&buf[8..8 + l]);
        if crc16_value != computed_crc16_value {
            return Err(
                AvlError::InvalidChecksum { expected: crc16_value, actual: computed_crc16_value },
            );
        }
        let data_1_count = buf[9];
        let data_2_count = buf[8 + l - 1];
        if data_1_count != data_2_count {
            return Err(AvlError::InvalidDataCount { data_1_count, data_2_count });
        }
        let ghost c = data_1_count as nat;
        let mut avl_data_records = record_items_new();
        let mut offset: usize = 10;
        let mut i: u8 = 0;
        proof {
            assert(records_model(record_items(avl_data_records)) =~= Seq::<AvlDataRecordModel>::empty());
        }
        while i < data_1_count
            invariant
                b == buf@,
                b.len() + 5 <= usize::MAX,
                c == data_1_count,
                records_decoding(b, c) is Some,
                packet_decoding(b) == match records_decoding(b, c) {
                    Some(Ok((o, rs))) => Some(Ok((o + 5, rs))),
                    other => other,
                },
                i <= data_1_count,
                offset <= b.len(),
                records_decoding(b, i as nat) == Some(
                    Ok::<(nat, Seq<AvlDataRecordModel>), AvlError>(
                        (offset as nat, records_model(record_items(avl_data_records))),
                    ),
                ),
            decreases data_1_count - i,
        {
            proof {
                lemma_records_decoding_settled(b, (i + 1) as nat, c);
                assert(b.subrange(offset as int, b.len() as int) =~= b.skip(offset as int));
            }
            let (bytes_read, avl_data_item) = match AvlDataRecord::decode(&buf[offset..buf.len()]) {
                Ok(x) => x,
                Err(e) => {
                    proof {
                        assert(records_decoding(b, (i + 1) as nat) == Some(
                            Err::<(nat, Seq<AvlDataRecordModel>), AvlError>(e),
                        ));
                        lemma_records_decoding_settled(b, (i + 1) as nat, c);
                    }
                    return Err(e);
                },
            };
            let ghost before = record_items(avl_data_records);
            let back = record_items_push(&mut avl_data_records, avl_data_item);
            assert(back is None);
            proof {
                assert(records_model(before.push(avl_data_item)) =~= records_model(before).push(
                    avl_data_item@,
                ));
            }
            offset = offset + bytes_read;
            i = i + 1;
        }
        Ok((offset + 5, Self { avl_data_records }))
    }
}


/// Decoding the records of encoded records gives them back, one after the other.
proof fn lemma_records_decoding_of(rs: Seq<AvlDataRecordModel>, b: Seq<u8>, k: nat)
    requires
        rs.len() <= 4,
        forall|i: int| 0 <= i < rs.len() ==> record_well_formed(#[trigger] rs[i]),
        10 + concat_map(rs, record_enc()).len() <= b.len(),
        b.subrange(10, 10 + concat_map(rs, record_enc()).len() as int) == concat_map(rs, record_enc()),
        k <= rs.len(),
    ensures
        records_decoding(b, k) == Some(
            Ok::<(nat, Seq<AvlDataRecordModel>), AvlError>(
                ((10 + concat_map(rs.take(k as int), record_enc()).len()) as nat, rs.take(k as int)),
            ),
        ),
    decreases k,
{
    let f = record_enc();
    if k == 0 {
        assert(rs.take(0) =~= Seq::<AvlDataRecordModel>::empty());
    } else {
        lemma_records_decoding_of(rs, b, (k - 1) as nat);
        let j = k - 1;
        let x = rs[j];
        let a = concat_map(rs.take(j), f);
        let o: int = 10 + a.len() as int;
        let n: int = record_bytes(x).len() as int;
        lemma_concat_map_split(rs, j, f);
        lemma_skip_into(b, 10, a, record_bytes(x), concat_map(rs.skip(j + 1), f));
        assert(record_well_formed(x));
        lemma_record_roundtrip(x, b.skip(o + n));
        lemma_record_size(x);
        assert(rs.take(k as int) =~= rs.take(j).push(x));
        lemma_concat_map_push(rs.take(j), x, f);
    }
}

/// Decoding the bytes of a packet gives back its records and its length, whatever follows
/// them, when it holds at most four records, each encoded as it is.
pub proof fn lemma_packet_roundtrip(rs: Seq<AvlDataRecordModel>, rest: Seq<u8>)
    requires
        rs.len() <= 4,
        forall|i: int| 0 <= i < rs.len() ==> record_well_formed(#[trigger] rs[i]),
    ensures
        packet_decoding(packet_bytes(rs) + rest) == Some(
            Ok::<(nat, Seq<AvlDataRecordModel>), AvlError>((packet_bytes(rs).len(), rs)),
        ),
{
    let f = record_enc();
    let b = packet_bytes(rs) + rest;
    let d = packet_data(rs);
    let all = concat_map(rs, f);
    assert forall|i: int| 0 <= i < rs.len() implies groups_fit(#[trigger] rs[i]) by {
        assert(record_well_formed(rs[i]));
    }
    lemma_records_size_bound(rs);
    let l: int = d.len() as int;
    assert(l == 3 + all.len());
    assert(l <= 3 + 334 * 4);
    let crc = spec_crc16(d);
    lemma_be32_roundtrip(l as u32);
    lemma_be32_of_u16(crc);
    lemma_be16_roundtrip(crc);
    assert(b.subrange(4, 8) =~= be32(l as u32));
    assert(stored_data_length(b) == l);
    assert(b.subrange(10 + l, 12 + l) =~= be16(crc));
    assert(b.subrange(8, 8 + l) =~= d);
    assert(b[9] == rs.len() as u8);
    assert(b[8 + l - 1] == d[l - 1]);
    assert(b.subrange(10, 10 + all.len() as int) =~= all);
    lemma_records_decoding_of(rs, b, rs.len());
    assert(rs.take(rs.len() as int) =~= rs);
}


/// A decoded record never extends past the end of the buffer.
pub proof fn lemma_record_decoding_len(b: Seq<u8>)
    ensures
        record_decoding(b) matches Some(Ok((n, _))) ==> n <= b.len(),
{
    reveal(record_decoding);
}

/// The bytes from 10 up to where decoded records end are the records re-encoded, when each
/// record's total IO count byte is the number of elements it holds.
proof fn lemma_records_bytes_of_decoded(b: Seq<u8>, k: nat)
    requires
        b.len() >= 10,
        records_decoding(b, k) matches Some(Ok((_, rs))) && forall|i: int|
            0 <= i < rs.len() ==> record_well_formed(#[trigger] rs[i]),
    ensures
        records_decoding(b, k) matches Some(Ok((o, rs))) && rs.len() == k && 10 <= o <= b.len()
            && concat_map(rs, record_enc()) == b.subrange(10, o as int),
    decreases k,
{
    if k == 0 {
        assert(b.subrange(10, 10) =~= Seq::<u8>::empty());
        assert(concat_map(Seq::<AvlDataRecordModel>::empty(), record_enc()) =~= Seq::<u8>::empty());
    } else {
        let (o, rs) = records_decoding(b, k)->Some_0->Ok_0;
        let (o1, rs1) = records_decoding(b, (k - 1) as nat)->Some_0->Ok_0;
        let (n, r) = record_decoding(b.skip(o1 as int))->Some_0->Ok_0;
        assert(rs == rs1.push(r));
        assert forall|i: int| 0 <= i < rs1.len() implies record_well_formed(#[trigger] rs1[i]) by {
            assert(rs1[i] == rs[i]);
        }
        lemma_records_bytes_of_decoded(b, (k - 1) as nat);
        assert(record_well_formed(rs[rs.len() - 1]));
        lemma_record_bytes_of_decoded(b.skip(o1 as int));
        lemma_record_decoding_len(b.skip(o1 as int));
        lemma_concat_map_push(rs1, r, record_enc());
        assert(b.skip(o1 as int).take(n as int) =~= b.subrange(o1 as int, o as int));
        assert(b.subrange(10, o1 as int) + b.subrange(o1 as int, o as int) =~= b.subrange(10, o as int));
    }
}

/// Re-encoding a decoded packet gives back the bytes it was read from, when what decoding
/// does not look at is as encoding writes it: four zero bytes in front, the codec id 8, a
/// data field that ends right behind the records, two zero bytes in front of the CRC, and
/// in each record a total IO count byte that is the number of elements it holds.
pub proof fn lemma_packet_bytes_of_decoded(b: Seq<u8>)
    requires
        packet_decoding(b) matches Some(Ok((n, rs))) && n == 12 + stored_data_length(b) && forall|
            i: int,
        | 0 <= i < rs.len() ==> record_well_formed(#[trigger] rs[i]),
        b.subrange(0, 4) == seq![0u8, 0u8, 0u8, 0u8],
        b[8] == CODEC8_TYPE_ID,
        b.subrange(8 + stored_data_length(b), 10 + stored_data_length(b)) == seq![0u8, 0u8],
    ensures
        packet_decoding(b) matches Some(Ok((n, rs))) && packet_bytes(rs) == b.take(n as int),
{
    let l = stored_data_length(b);
    let (n, rs) = packet_decoding(b)->Some_0->Ok_0;
    let c = b[9] as nat;
    let (o, rs2) = records_decoding(b, c)->Some_0->Ok_0;
    assert(rs2 == rs);
    lemma_records_bytes_of_decoded(b, c);
    let d = b.subrange(8, 8 + l);
    assert(packet_data(rs) =~= d);
    lemma_from_be32_roundtrip(b.subrange(4, 8));
    assert(d.len() as u32 == from_be32(b.subrange(4, 8)));
    let crc = from_be16(b.subrange(10 + l, 12 + l));
    assert(spec_crc16(d) == crc);
    lemma_be32_of_u16(crc);
    lemma_from_be16_roundtrip(b.subrange(10 + l, 12 + l));
    assert(be32(crc as u32) =~= b.subrange(8 + l, 12 + l));
    assert(packet_bytes(rs) =~= b.take(n as int));
}

impl AvlCodec for Codec8Packet {
    open spec fn spec_size(v: Seq<AvlDataRecordModel>) -> nat {
        packet_bytes(v).len()
    }

    open spec fn spec_encoding(v: Seq<AvlDataRecordModel>) -> Result<Seq<u8>, AvlError> {
        Ok(packet_bytes(v))
    }

    open spec fn spec_decoding(b: Seq<u8>) -> Option<
        Result<(nat, Seq<AvlDataRecordModel>), AvlError>,
    > {
        if b.len() + 5 <= usize::MAX {
            packet_decoding(b)
        } else {
            None
        }
    }

    fn size(&self) -> (n: usize) {
        self.data_field_length() as usize + 12
    }

    fn encode(&self, buf: &mut [u8]) -> (r: Result<usize, AvlError>) {
        proof {
            lemma_slice_len_bound(&*buf);
        }
        let r = Codec8Packet::encode(self, buf);
        assert(buf@.len() == old(buf)@.len());
        assert(buf@.take(packet_bytes(self@).len() as int) =~= packet_bytes(self@));
        assert(buf@.skip(packet_bytes(self@).len() as int) =~= old(buf)@.skip(
            packet_bytes(self@).len() as int,
        ));
        r
    }

    fn decode(buf: &[u8]) -> (r: Result<(usize, Self), AvlError>) {
        Codec8Packet::decode(buf)
    }
}

} // verus!
