//! UDP framing of AVL packets, the AVL packet header, and IO elements generic over the
//! width of their ids.

use crate::bytes::{
    be16, be32, be64, from_be16, from_be32, from_be64, get_u16, get_u32, get_u64, lemma_be32_roundtrip,
    lemma_be64_roundtrip, put_u32, put_u64, lemma_be16_roundtrip, lemma_slice_len_bound, lemma_splice_start, lemma_splice_then,
    put_u16, put_u8, splice,
};
use crate::error::AvlError;
use crate::AvlCodec;
use vstd::prelude::*;

pub use crate::codec8::{AvlGpsElement, Coordinate, Priority};

verus! {

/// Acknowledgement of a UDP request: the server accepted `accepted_avl_data_count` records
/// of the AVL packet `avl_packet_id`.
#[derive(Copy, Clone, Debug, PartialEq, Eq, Structural)]
pub struct AvlUdpAckResponse {
    pub packet_id: u16,
    pub avl_packet_id: u8,
    pub accepted_avl_data_count: u8,
}

/// The seven wire bytes of an acknowledgement: packet length 3, packet id, the constant
/// byte 0x01, AVL packet id, accepted count.
pub open spec fn ack_bytes(a: AvlUdpAckResponse) -> Seq<u8> {
    be16(3) + be16(a.packet_id) + seq![1u8, a.avl_packet_id, a.accepted_avl_data_count]
}

/// The acknowledgement read from `b` (at least seven bytes); the length and constant bytes
/// are not checked.
pub open spec fn ack_from(b: Seq<u8>) -> AvlUdpAckResponse {
    AvlUdpAckResponse {
        packet_id: from_be16(b.subrange(2, 4)),
        avl_packet_id: b[5],
        accepted_avl_data_count: b[6],
    }
}

/// Reading back the bytes of an acknowledgement gives the acknowledgement.
pub proof fn lemma_ack_roundtrip(a: AvlUdpAckResponse, rest: Seq<u8>)
    ensures
        ack_bytes(a).len() == 7,
        ack_from(ack_bytes(a) + rest) == a,
{
    lemma_be16_roundtrip(3);
    lemma_be16_roundtrip(a.packet_id);
    assert((ack_bytes(a) + rest).subrange(2, 4) =~= be16(a.packet_id));
}

impl AvlUdpAckResponse {
    /// Encoded size: always 7.
    pub fn size(&self) -> (n: usize)
        ensures
            n == 7,
    {
        7
    }

    /// Writes the acknowledgement at the start of `buf`, or reports `InvalidFrame` when
    /// `buf` has fewer than seven bytes.
    pub fn encode(&self, buf: &mut [u8]) -> (r: Result<usize, AvlError>)
        ensures
            match r {
                Ok(n) => {
                    &&& n == 7
                    &&& old(buf)@.len() >= 7
                    &&& final(buf)@ == ack_bytes(*self) + old(buf)@.skip(7)
                },
                Err(e) => {
                    &&& e == AvlError::InvalidFrame
                    &&& old(buf)@.len() < 7
                    &&& final(buf)@ == old(buf)@
                },
            },
    {
        if buf.len() < self.size() {
            return Err(AvlError::InvalidFrame);
        }
        let ghost b0 = buf@;
        put_u16(buf, 0, 3u16);
        put_u16(buf, 2, self.packet_id);
        put_u8(buf, 4, 0x01);
        put_u8(buf, 5, self.avl_packet_id);
        put_u8(buf, 6, self.accepted_avl_data_count);
        proof {
            lemma_splice_then(b0, 0, be16(3), be16(self.packet_id));
            let h = be16(3) + be16(self.packet_id);
            lemma_splice_then(b0, 0, h, seq![1u8]);
            lemma_splice_then(b0, 0, h + seq![1u8], seq![self.avl_packet_id]);
            lemma_splice_then(
                b0,
                0,
                h + seq![1u8] + seq![self.avl_packet_id],
                seq![self.accepted_avl_data_count],
            );
            assert(h + seq![1u8] + seq![self.avl_packet_id] + seq![self.accepted_avl_data_count]
                =~= ack_bytes(*self));
            lemma_splice_start(b0, ack_bytes(*self));
        }
        Ok(7)
    }

    /// Reads an acknowledgement from the first seven bytes of `buf`, or reports
    /// `InvalidFrame` when `buf` has fewer than seven bytes.
    pub fn decode(buf: &[u8]) -> (r: Result<(usize, Self), AvlError>)
        ensures
            buf@.len() >= 7 ==> r == Ok::<(usize, Self), AvlError>((7, ack_from(buf@))),
            buf@.len() < 7 ==> r == Err::<(usize, Self), AvlError>(AvlError::InvalidFrame),
    {
        if buf.len() < 7 {
            return Err(AvlError::InvalidFrame);
        }
        let packet_id = get_u16(buf, 2);
        let avl_packet_id = buf[5];
        let accepted_avl_data_count = buf[6];
        Ok((7, Self { packet_id, avl_packet_id, accepted_avl_data_count }))
    }
}

/// The header that precedes an AVL packet in a UDP request: AVL packet id and the
/// device's IMEI.
#[derive(Copy, Clone, Debug, PartialEq, Eq)]
pub struct AvlPacketHeader {
    pub packet_id: u8,
    pub imei: [u8; 15],
}

/// The eighteen wire bytes of a header: packet id, IMEI length 0x000f, IMEI.
pub open spec fn header_bytes(h: AvlPacketHeader) -> Seq<u8> {
    seq![h.packet_id, 0u8, 0x0fu8] + h.imei@
}

/// Whether `h` is the header read from `b` (at least eighteen bytes); the IMEI length
/// bytes are not checked.
pub open spec fn is_header_of(h: AvlPacketHeader, b: Seq<u8>) -> bool {
    &&& h.packet_id == b[0]
    &&& h.imei@ == b.subrange(3, 18)
}

impl AvlPacketHeader {
    /// A header with the given packet id and IMEI.
    pub fn new(packet_id: u8, imei: [u8; 15]) -> (h: Self)
        ensures
            h.packet_id == packet_id,
            h.imei == imei,
    {
        Self { packet_id, imei }
    }

    /// Encoded size: always 18.
    pub fn size(&self) -> (n: usize)
        ensures
            n == 18,
    {
        18
    }

    /// Writes the bytes of `self` at `pos`.
    pub(crate) fn write_at(&self, buf: &mut [u8], pos: usize)
        requires
            pos + 18 <= old(buf)@.len(),
        ensures
            final(buf)@ == splice(old(buf)@, pos as int, header_bytes(*self)),
            final(buf)@.len() == old(buf)@.len(),
    {
        let ghost b0 = buf@;
        proof {
            reveal(splice);
            lemma_slice_len_bound(&*buf);
        }
        buf[pos] = self.packet_id;
        buf[pos + 1] = 0;
        buf[pos + 2] = 0x0f;
        let mut i: usize = 0;
        while i < 15
            invariant
                pos + 18 <= b0.len(),
                b0.len() <= usize::MAX,
                buf@.len() == b0.len(),
                i <= 15,
                buf@ == splice(
                    b0,
                    pos as int,
                    seq![self.packet_id, 0u8, 0x0fu8] + self.imei@.take(i as int),
                ),
            decreases 15 - i,
        {
            buf[pos + 3 + i] = self.imei[i];
            proof {
                reveal(splice);
                assert(self.imei@.take(i + 1) =~= self.imei@.take(i as int).push(self.imei@[i as int]));
                assert(buf@ =~= splice(
                    b0,
                    pos as int,
                    seq![self.packet_id, 0u8, 0x0fu8] + self.imei@.take(i + 1),
                ));
            }
            i = i + 1;
        }
        proof {
            assert(self.imei@.take(15) =~= self.imei@);
        }
    }

    /// Writes the header at the start of `buf`, or reports `InvalidFrame` when `buf` has
    /// fewer than eighteen bytes.
    pub fn encode(&self, buf: &mut [u8]) -> (r: Result<usize, AvlError>)
        ensures
            match r {
                Ok(n) => {
                    &&& n == 18
                    &&& old(buf)@.len() >= 18
                    &&& final(buf)@ == header_bytes(*self) + old(buf)@.skip(18)
                },
                Err(e) => {
                    &&& e == AvlError::InvalidFrame
                    &&& old(buf)@.len() < 18
                    &&& final(buf)@ == old(buf)@
                },
            },
    {
        if buf.len() < 18 {
            return Err(AvlError::InvalidFrame);
        }
        self.write_at(buf, 0);
        proof {
            lemma_splice_start(old(buf)@, header_bytes(*self));
        }
        Ok(18)
    }

    /// Reads a header from the first eighteen bytes of `buf`, or reports `InvalidFrame`
    /// when `buf` has fewer than eighteen bytes.
    pub fn decode(buf: &[u8]) -> (r: Result<(usize, Self), AvlError>)
        ensures
            match r {
                Ok((n, h)) => n == 18 && buf@.len() >= 18 && is_header_of(h, buf@),
                Err(e) => e == AvlError::InvalidFrame && buf@.len() < 18,
            },
    {
        if buf.len() < 18 {
            return Err(AvlError::InvalidFrame);
        }
        let packet_id = buf[0];
        let mut imei = [0u8; 15];
        let mut i: usize = 0;
        while i < 15
            invariant
                buf@.len() >= 18,
                i <= 15,
                imei@.len() == 15,
                forall|j: int| 0 <= j < i ==> imei@[j] == buf@[3 + j],
            decreases 15 - i,
        {
            imei[i] = buf[3 + i];
            i = i + 1;
        }
        assert(imei@ =~= buf@.subrange(3, 18));
        Ok((18, Self { packet_id, imei }))
    }
}

/// Reading back the bytes of a header gives the header.
pub proof fn lemma_header_roundtrip(h: AvlPacketHeader, rest: Seq<u8>)
    ensures
        header_bytes(h).len() == 18,
        forall|g: AvlPacketHeader| is_header_of(g, header_bytes(h) + rest) ==> g == h,
{
    let b = header_bytes(h) + rest;
    assert(b.subrange(3, 18) =~= h.imei@);
    assert forall|g: AvlPacketHeader| is_header_of(g, b) implies g == h by {
        assert(g.imei@ == h.imei@);
        assert(g.imei == h.imei);
    }
}


/// An IO element id of a fixed number of bytes.
pub trait AvlIoId: Sized {
    /// Number of bytes of an id.
    spec fn spec_id_size() -> nat;

    /// The bytes `encode` writes for the id, or the error it reports.
    spec fn spec_id_encoding(&self) -> Result<Seq<u8>, AvlError>;

    /// What `decode` gives for `b`, which holds at least `spec_id_size()` bytes.
    spec fn spec_id_decoding(b: Seq<u8>) -> Result<Self, AvlError>;

    /// The bytes of an id have `spec_id_size()` bytes and read back as the id, whatever
    /// follows them.
    proof fn lemma_id_roundtrip(id: Self, rest: Seq<u8>)
        ensures
            id.spec_id_encoding() matches Ok(b) ==> b.len() == Self::spec_id_size()
                && Self::spec_id_decoding(b + rest) == Ok::<Self, AvlError>(id),
    ;

    /// Number of bytes of an id.
    fn size() -> (n: usize)
        ensures
            n == Self::spec_id_size(),
    ;

    /// Writes the id at the start of `buf`.
    fn encode(&self, buf: &mut [u8]) -> (r: Result<usize, AvlError>)
        requires
            old(buf)@.len() >= Self::spec_id_size(),
        ensures
            match r {
                Ok(n) => {
                    &&& n == Self::spec_id_size()
                    &&& self.spec_id_encoding() == Ok::<Seq<u8>, AvlError>(final(buf)@.take(n as int))
                    &&& final(buf)@.skip(n as int) == old(buf)@.skip(n as int)
                },
                Err(e) => self.spec_id_encoding() == Err::<Seq<u8>, AvlError>(e),
            },
            final(buf)@.len() == old(buf)@.len(),
    ;

    /// Reads an id from the start of `buf`.
    fn decode(buf: &[u8]) -> (r: Result<(usize, Self), AvlError>)
        requires
            buf@.len() >= Self::spec_id_size(),
        ensures
            match r {
                Ok((n, id)) => n == Self::spec_id_size() && Self::spec_id_decoding(buf@) == Ok::<
                    Self,
                    AvlError,
                >(id),
                Err(e) => Self::spec_id_decoding(buf@) == Err::<Self, AvlError>(e),
            },
    ;
}

impl AvlIoId for u8 {
    open spec fn spec_id_size() -> nat {
        1
    }

    open spec fn spec_id_encoding(&self) -> Result<Seq<u8>, AvlError> {
        Ok(seq![*self])
    }

    open spec fn spec_id_decoding(b: Seq<u8>) -> Result<Self, AvlError> {
        Ok(b[0])
    }

    proof fn lemma_id_roundtrip(id: Self, rest: Seq<u8>) {
    }

    fn size() -> (n: usize) {
        1
    }

    fn encode(&self, buf: &mut [u8]) -> (r: Result<usize, AvlError>) {
        buf[0] = *self;
        assert(buf@.take(1) =~= seq![*self]);
        assert(buf@.skip(1) =~= old(buf)@.skip(1));
        Ok(1)
    }

    fn decode(buf: &[u8]) -> (r: Result<(usize, Self), AvlError>) {
        Ok((1, buf[0]))
    }
}

impl AvlIoId for u16 {
    open spec fn spec_id_size() -> nat {
        2
    }

    open spec fn spec_id_encoding(&self) -> Result<Seq<u8>, AvlError> {
        Ok(be16(*self))
    }

    open spec fn spec_id_decoding(b: Seq<u8>) -> Result<Self, AvlError> {
        Ok(from_be16(b.subrange(0, 2)))
    }

    proof fn lemma_id_roundtrip(id: Self, rest: Seq<u8>) {
        lemma_be16_roundtrip(id);
        assert((be16(id) + rest).subrange(0, 2) =~= be16(id));
    }

    fn size() -> (n: usize) {
        2
    }

    fn encode(&self, buf: &mut [u8]) -> (r: Result<usize, AvlError>) {
        put_u16(buf, 0, *self);
        proof {
            reveal(splice);
        }
        assert(buf@.take(2) =~= be16(*self));
        assert(buf@.skip(2) =~= old(buf)@.skip(2));
        Ok(2)
    }

    fn decode(buf: &[u8]) -> (r: Result<(usize, Self), AvlError>) {
        Ok((2, get_u16(buf, 0)))
    }
}

/// An IO element with an id of type `T` and a 1-byte value.
#[derive(Copy, Clone, Debug, PartialEq)]
pub struct AvlN1Element<T> {
    pub id: T,
    pub value: u8,
}

impl<T: AvlIoId> AvlN1Element<T> {
    /// The bytes `encode` writes: the id's bytes, then the value in big-endian order; or
    /// the error of the id.
    pub open spec fn spec_encoding(&self) -> Result<Seq<u8>, AvlError> {
        match self.id.spec_id_encoding() {
            Ok(b) => Ok(b + seq![self.value]),
            Err(e) => Err(e),
        }
    }

    /// What `decode` gives for `b`, which holds at least `size()` bytes.
    pub open spec fn spec_decoding(b: Seq<u8>) -> Result<Self, AvlError> {
        match T::spec_id_decoding(b) {
            Ok(id) => Ok(AvlN1Element { id, value: b[T::spec_id_size() as int] }),
            Err(e) => Err(e),
        }
    }

    /// Encoded size: the id's size plus 1.
    pub fn size() -> (n: usize)
        requires
            T::spec_id_size() + 1 <= usize::MAX,
        ensures
            n == T::spec_id_size() + 1,
    {
        T::size() + 1
    }

    /// Writes the element at the start of `buf`; returns the number of bytes written,
    /// or the error of the id.
    pub fn encode(&self, buf: &mut [u8]) -> (r: Result<usize, AvlError>)
        requires
            old(buf)@.len() >= T::spec_id_size() + 1,
        ensures
            match r {
                Ok(n) => {
                    &&& n == T::spec_id_size() + 1
                    &&& self.spec_encoding() == Ok::<Seq<u8>, AvlError>(final(buf)@.take(n as int))
                    &&& final(buf)@.skip(n as int) == old(buf)@.skip(n as int)
                },
                Err(e) => self.spec_encoding() == Err::<Seq<u8>, AvlError>(e),
            },
            final(buf)@.len() == old(buf)@.len(),
    {
        let offset = match self.id.encode(buf) {
            Ok(offset) => offset,
            Err(e) => {
                return Err(e);
            },
        };
        let ghost b1 = buf@;
        proof {
            lemma_slice_len_bound(&*buf);
        }
        buf[offset] = self.value;
        proof {
            assert(buf@.take(offset + 1) =~= b1.take(offset as int) + seq![self.value]);
            assert(b1.skip(offset + 1) =~= b1.skip(offset as int).skip(1));
            assert(old(buf)@.skip(offset + 1) =~= old(buf)@.skip(offset as int).skip(1));
            assert(buf@.skip(offset + 1) =~= b1.skip(offset + 1));
        }
        Ok(offset + 1)
    }

    /// Reads an element from the start of `buf`, or reports the error of the id.
    pub fn decode(buf: &[u8]) -> (r: Result<Self, AvlError>)
        requires
            buf@.len() >= T::spec_id_size() + 1,
        ensures
            r == Self::spec_decoding(buf@),
    {
        let (offset, id) = match T::decode(buf) {
            Ok(x) => x,
            Err(e) => {
                return Err(e);
            },
        };
        let value = buf[offset];
        Ok(Self { id, value })
    }
}

/// Decoding the bytes of an encoded element gives the element back, whatever follows them.
pub proof fn lemma_generic_n1_roundtrip<T: AvlIoId>(e: AvlN1Element<T>, rest: Seq<u8>)
    ensures
        e.spec_encoding() matches Ok(b) ==> b.len() == T::spec_id_size() + 1
            && AvlN1Element::<T>::spec_decoding(b + rest) == Ok::<AvlN1Element<T>, AvlError>(e),
{
    if let Ok(ib) = e.id.spec_id_encoding() {
        let b = ib + seq![e.value];
        T::lemma_id_roundtrip(e.id, seq![e.value] + rest);
        
        assert(b + rest =~= ib + (seq![e.value] + rest));
        let k = T::spec_id_size() as int;
        assert((b + rest).subrange(k, k + 1) =~= seq![e.value]);
    }
}

/// An IO element with an id of type `T` and a 2-byte value.
#[derive(Copy, Clone, Debug, PartialEq)]
pub struct AvlN2Element<T> {
    pub id: T,
    pub value: u16,
}

impl<T: AvlIoId> AvlN2Element<T> {
    /// The bytes `encode` writes: the id's bytes, then the value in big-endian order; or
    /// the error of the id.
    pub open spec fn spec_encoding(&self) -> Result<Seq<u8>, AvlError> {
        match self.id.spec_id_encoding() {
            Ok(b) => Ok(b + be16(self.value)),
            Err(e) => Err(e),
        }
    }

    /// What `decode` gives for `b`, which holds at least `size()` bytes.
    pub open spec fn spec_decoding(b: Seq<u8>) -> Result<Self, AvlError> {
        match T::spec_id_decoding(b) {
            Ok(id) => Ok(AvlN2Element { id, value: from_be16(b.subrange(T::spec_id_size() as int, T::spec_id_size() as int + 2)) }),
            Err(e) => Err(e),
        }
    }

    /// Encoded size: the id's size plus 2.
    pub fn size() -> (n: usize)
        requires
            T::spec_id_size() + 2 <= usize::MAX,
        ensures
            n == T::spec_id_size() + 2,
    {
        T::size() + 2
    }

    /// Writes the element at the start of `buf`; returns the number of bytes written,
    /// or the error of the id.
    pub fn encode(&self, buf: &mut [u8]) -> (r: Result<usize, AvlError>)
        requires
            old(buf)@.len() >= T::spec_id_size() + 2,
        ensures
            match r {
                Ok(n) => {
                    &&& n == T::spec_id_size() + 2
                    &&& self.spec_encoding() == Ok::<Seq<u8>, AvlError>(final(buf)@.take(n as int))
                    &&& final(buf)@.skip(n as int) == old(buf)@.skip(n as int)
                },
                Err(e) => self.spec_encoding() == Err::<Seq<u8>, AvlError>(e),
            },
            final(buf)@.len() == old(buf)@.len(),
    {
        let offset = match self.id.encode(buf) {
            Ok(offset) => offset,
            Err(e) => {
                return Err(e);
            },
        };
        let ghost b1 = buf@;
        proof {
            lemma_slice_len_bound(&*buf);
        }
        put_u16(buf, offset, self.value);
        proof {
            reveal(splice);
            assert(buf@.take(offset + 2) =~= b1.take(offset as int) + be16(self.value));
            assert(b1.skip(offset + 2) =~= b1.skip(offset as int).skip(2));
            assert(old(buf)@.skip(offset + 2) =~= old(buf)@.skip(offset as int).skip(2));
            assert(buf@.skip(offset + 2) =~= b1.skip(offset + 2));
        }
        Ok(offset + 2)
    }

    /// Reads an element from the start of `buf`, or reports the error of the id.
    pub fn decode(buf: &[u8]) -> (r: Result<Self, AvlError>)
        requires
            buf@.len() >= T::spec_id_size() + 2,
        ensures
            r == Self::spec_decoding(buf@),
    {
        let (offset, id) = match T::decode(buf) {
            Ok(x) => x,
            Err(e) => {
                return Err(e);
            },
        };
        let value = get_u16(buf, offset);
        Ok(Self { id, value })
    }
}

/// Decoding the bytes of an encoded element gives the element back, whatever follows them.
pub proof fn lemma_generic_n2_roundtrip<T: AvlIoId>(e: AvlN2Element<T>, rest: Seq<u8>)
    ensures
        e.spec_encoding() matches Ok(b) ==> b.len() == T::spec_id_size() + 2
            && AvlN2Element::<T>::spec_decoding(b + rest) == Ok::<AvlN2Element<T>, AvlError>(e),
{
    if let Ok(ib) = e.id.spec_id_encoding() {
        let b = ib + be16(e.value);
        T::lemma_id_roundtrip(e.id, be16(e.value) + rest);
        lemma_be16_roundtrip(e.value);
        assert(b + rest =~= ib + (be16(e.value) + rest));
        let k = T::spec_id_size() as int;
        assert((b + rest).subrange(k, k + 2) =~= be16(e.value));
    }
}

/// An IO element with an id of type `T` and a 4-byte value.
#[derive(Copy, Clone, Debug, PartialEq)]
pub struct AvlN4Element<T> {
    pub id: T,
    pub value: u32,
}

impl<T: AvlIoId> AvlN4Element<T> {
    /// The bytes `encode` writes: the id's bytes, then the value in big-endian order; or
    /// the error of the id.
    pub open spec fn spec_encoding(&self) -> Result<Seq<u8>, AvlError> {
        match self.id.spec_id_encoding() {
            Ok(b) => Ok(b + be32(self.value)),
            Err(e) => Err(e),
        }
    }

    /// What `decode` gives for `b`, which holds at least `size()` bytes.
    pub open spec fn spec_decoding(b: Seq<u8>) -> Result<Self, AvlError> {
        match T::spec_id_decoding(b) {
            Ok(id) => Ok(AvlN4Element { id, value: from_be32(b.subrange(T::spec_id_size() as int, T::spec_id_size() as int + 4)) }),
            Err(e) => Err(e),
        }
    }

    /// Encoded size: the id's size plus 4.
    pub fn size() -> (n: usize)
        requires
            T::spec_id_size() + 4 <= usize::MAX,
        ensures
            n == T::spec_id_size() + 4,
    {
        T::size() + 4
    }

    /// Writes the element at the start of `buf`; returns the number of bytes written,
    /// or the error of the id.
    pub fn encode(&self, buf: &mut [u8]) -> (r: Result<usize, AvlError>)
        requires
            old(buf)@.len() >= T::spec_id_size() + 4,
        ensures
            match r {
                Ok(n) => {
                    &&& n == T::spec_id_size() + 4
                    &&& self.spec_encoding() == Ok::<Seq<u8>, AvlError>(final(buf)@.take(n as int))
                    &&& final(buf)@.skip(n as int) == old(buf)@.skip(n as int)
                },
                Err(e) => self.spec_encoding() == Err::<Seq<u8>, AvlError>(e),
            },
            final(buf)@.len() == old(buf)@.len(),
    {
        let offset = match self.id.encode(buf) {
            Ok(offset) => offset,
            Err(e) => {
                return Err(e);
            },
        };
        let ghost b1 = buf@;
        proof {
            lemma_slice_len_bound(&*buf);
        }
        put_u32(buf, offset, self.value);
        proof {
            reveal(splice);
            assert(buf@.take(offset + 4) =~= b1.take(offset as int) + be32(self.value));
            assert(b1.skip(offset + 4) =~= b1.skip(offset as int).skip(4));
            assert(old(buf)@.skip(offset + 4) =~= old(buf)@.skip(offset as int).skip(4));
            assert(buf@.skip(offset + 4) =~= b1.skip(offset + 4));
        }
        Ok(offset + 4)
    }

    /// Reads an element from the start of `buf`, or reports the error of the id.
    pub fn decode(buf: &[u8]) -> (r: Result<Self, AvlError>)
        requires
            buf@.len() >= T::spec_id_size() + 4,
        ensures
            r == Self::spec_decoding(buf@),
    {
        let (offset, id) = match T::decode(buf) {
            Ok(x) => x,
            Err(e) => {
                return Err(e);
            },
        };
        let value = get_u32(buf, offset);
        Ok(Self { id, value })
    }
}

/// Decoding the bytes of an encoded element gives the element back, whatever follows them.
pub proof fn lemma_generic_n4_roundtrip<T: AvlIoId>(e: AvlN4Element<T>, rest: Seq<u8>)
    ensures
        e.spec_encoding() matches Ok(b) ==> b.len() == T::spec_id_size() + 4
            && AvlN4Element::<T>::spec_decoding(b + rest) == Ok::<AvlN4Element<T>, AvlError>(e),
{
    if let Ok(ib) = e.id.spec_id_encoding() {
        let b = ib + be32(e.value);
        T::lemma_id_roundtrip(e.id, be32(e.value) + rest);
        lemma_be32_roundtrip(e.value);
        assert(b + rest =~= ib + (be32(e.value) + rest));
        let k = T::spec_id_size() as int;
        assert((b + rest).subrange(k, k + 4) =~= be32(e.value));
    }
}

/// An IO element with an id of type `T` and a 8-byte value.
#[derive(Copy, Clone, Debug, PartialEq)]
pub struct AvlN8Element<T> {
    pub id: T,
    pub value: u64,
}

impl<T: AvlIoId> AvlN8Element<T> {
    /// The bytes `encode` writes: the id's bytes, then the value in big-endian order; or
    /// the error of the id.
    pub open spec fn spec_encoding(&self) -> Result<Seq<u8>, AvlError> {
        match self.id.spec_id_encoding() {
            Ok(b) => Ok(b + be64(self.value)),
            Err(e) => Err(e),
        }
    }

    /// What `decode` gives for `b`, which holds at least `size()` bytes.
    pub open spec fn spec_decoding(b: Seq<u8>) -> Result<Self, AvlError> {
        match T::spec_id_decoding(b) {
            Ok(id) => Ok(AvlN8Element { id, value: from_be64(b.subrange(T::spec_id_size() as int, T::spec_id_size() as int + 8)) }),
            Err(e) => Err(e),
        }
    }

    /// Encoded size: the id's size plus 8.
    pub fn size() -> (n: usize)
        requires
            T::spec_id_size() + 8 <= usize::MAX,
        ensures
            n == T::spec_id_size() + 8,
    {
        T::size() + 8
    }

    /// Writes the element at the start of `buf`; returns the number of bytes written,
    /// or the error of the id.
    pub fn encode(&self, buf: &mut [u8]) -> (r: Result<usize, AvlError>)
        requires
            old(buf)@.len() >= T::spec_id_size() + 8,
        ensures
            match r {
                Ok(n) => {
                    &&& n == T::spec_id_size() + 8
                    &&& self.spec_encoding() == Ok::<Seq<u8>, AvlError>(final(buf)@.take(n as int))
                    &&& final(buf)@.skip(n as int) == old(buf)@.skip(n as int)
                },
                Err(e) => self.spec_encoding() == Err::<Seq<u8>, AvlError>(e),
            },
            final(buf)@.len() == old(buf)@.len(),
    {
        let offset = match self.id.encode(buf) {
            Ok(offset) => offset,
            Err(e) => {
                return Err(e);
            },
        };
        let ghost b1 = buf@;
        proof {
            lemma_slice_len_bound(&*buf);
        }
        put_u64(buf, offset, self.value);
        proof {
            reveal(splice);
            assert(buf@.take(offset + 8) =~= b1.take(offset as int) + be64(self.value));
            assert(b1.skip(offset + 8) =~= b1.skip(offset as int).skip(8));
            assert(old(buf)@.skip(offset + 8) =~= old(buf)@.skip(offset as int).skip(8));
            assert(buf@.skip(offset + 8) =~= b1.skip(offset + 8));
        }
        Ok(offset + 8)
    }

    /// Reads an element from the start of `buf`, or reports the error of the id.
    pub fn decode(buf: &[u8]) -> (r: Result<Self, AvlError>)
        requires
            buf@.len() >= T::spec_id_size() + 8,
        ensures
            r == Self::spec_decoding(buf@),
    {
        let (offset, id) = match T::decode(buf) {
            Ok(x) => x,
            Err(e) => {
                return Err(e);
            },
        };
        let value = get_u64(buf, offset);
        Ok(Self { id, value })
    }
}

/// Decoding the bytes of an encoded element gives the element back, whatever follows them.
pub proof fn lemma_generic_n8_roundtrip<T: AvlIoId>(e: AvlN8Element<T>, rest: Seq<u8>)
    ensures
        e.spec_encoding() matches Ok(b) ==> b.len() == T::spec_id_size() + 8
            && AvlN8Element::<T>::spec_decoding(b + rest) == Ok::<AvlN8Element<T>, AvlError>(e),
{
    if let Ok(ib) = e.id.spec_id_encoding() {
        let b = ib + be64(e.value);
        T::lemma_id_roundtrip(e.id, be64(e.value) + rest);
        lemma_be64_roundtrip(e.value);
        assert(b + rest =~= ib + (be64(e.value) + rest));
        let k = T::spec_id_size() as int;
        assert((b + rest).subrange(k, k + 8) =~= be64(e.value));
    }
}


/// A UDP request carrying one AVL packet.
#[derive(Copy, Clone, Debug, PartialEq)]
pub struct AvlUdpRequest<T: AvlCodec> {
    pub packet_id: u16,
    pub avl_packet_header: AvlPacketHeader,
    pub avl_packet: T,
}

/// The 23 bytes in front of the AVL packet that `encode` writes: the packet length (the
/// bytes that follow the length field), the packet id, the unused byte 0x01 and the header.
pub open spec fn request_head_bytes(
    packet_id: u16,
    header: AvlPacketHeader,
    packet_size: nat,
) -> Seq<u8> {
    be16((21 + packet_size) as u16) + be16(packet_id) + seq![1u8] + header_bytes(header)
}

/// The framing in front of the AVL packet, field by field: the length field holds, in big
/// endian, the number of bytes that follow it (the 21 bytes of packet id, unused byte and
/// header, plus the packet); then come the packet id in big endian, the unused byte 0x01
/// and the header.
pub proof fn lemma_request_head_fields(packet_id: u16, header: AvlPacketHeader, packet_size: nat)
    requires
        21 + packet_size <= u16::MAX,
    ensures
        request_head_bytes(packet_id, header, packet_size).len() == 23,
        from_be16(request_head_bytes(packet_id, header, packet_size).subrange(0, 2)) == 21
            + packet_size,
        from_be16(request_head_bytes(packet_id, header, packet_size).subrange(2, 4)) == packet_id,
        request_head_bytes(packet_id, header, packet_size)[4] == 1,
        request_head_bytes(packet_id, header, packet_size).subrange(5, 23) == header_bytes(header),
{
    let h = request_head_bytes(packet_id, header, packet_size);
    let len = (21 + packet_size) as u16;
    lemma_be16_roundtrip(len);
    lemma_be16_roundtrip(packet_id);
    assert(h.subrange(0, 2) =~= be16(len));
    assert(h.subrange(2, 4) =~= be16(packet_id));
    assert(h.subrange(5, 23) =~= header_bytes(header));
}

impl<T: AvlCodec> AvlUdpRequest<T> {
    /// Size of the request: five bytes of framing, the header and the AVL packet.
    pub fn size(&self) -> (n: usize)
        requires
            23 + T::spec_size(self.avl_packet@) <= usize::MAX,
        ensures
            n == 23 + T::spec_size(self.avl_packet@),
    {
        5 + self.avl_packet_header.size() + self.avl_packet.size()
    }

    /// Writes the request at the start of `buf`: the packet length (the bytes that follow
    /// the length field) in two big-endian bytes, the packet id, the unused byte 0x01, the
    /// header and the AVL packet. Reports `InvalidFrame` when `buf` is shorter than
    /// `size()`, or the error of the AVL packet.
    pub fn encode(&self, buf: &mut [u8]) -> (r: Result<usize, AvlError>)
        requires
            23 + T::spec_size(self.avl_packet@) <= usize::MAX,
            old(buf)@.len() >= 23 + T::spec_size(self.avl_packet@) ==> 21 + T::spec_size(
                self.avl_packet@,
            ) <= u16::MAX,
        ensures
            final(buf)@.len() == old(buf)@.len(),
            match r {
                Ok(n) => {
                    &&& old(buf)@.len() >= 23 + T::spec_size(self.avl_packet@)
                    &&& n == 23 + T::spec_size(self.avl_packet@)
                    &&& final(buf)@.take(23) == request_head_bytes(
                        self.packet_id,
                        self.avl_packet_header,
                        T::spec_size(self.avl_packet@),
                    )
                    &&& T::spec_encoding(self.avl_packet@) == Ok::<Seq<u8>, AvlError>(
                        final(buf)@.subrange(23, n as int),
                    )
                    &&& final(buf)@.skip(n as int) == old(buf)@.skip(n as int)
                    &&& from_be16(final(buf)@.subrange(0, 2)) == n - 2
                    &&& from_be16(final(buf)@.subrange(2, 4)) == self.packet_id
                    &&& final(buf)@[4] == 1
                },
                Err(e) => {
                    ||| old(buf)@.len() < 23 + T::spec_size(self.avl_packet@) && e
                        == AvlError::InvalidFrame && final(buf)@ == old(buf)@
                    ||| old(buf)@.len() >= 23 + T::spec_size(self.avl_packet@)
                        && T::spec_encoding(self.avl_packet@) == Err::<Seq<u8>, AvlError>(e)
                        && final(buf)@.take(23) == request_head_bytes(
                        self.packet_id,
                        self.avl_packet_header,
                        T::spec_size(self.avl_packet@),
                    )
                },
            },
    {
        if buf.len() < self.size() {
            return Err(AvlError::InvalidFrame);
        }
        let ghost b0 = buf@;
        // the packet length does not include the 2 bytes for the packet length
        let packet_length = 3 + self.avl_packet_header.size() + self.avl_packet.size();
        put_u16(buf, 0, packet_length as u16);
        put_u16(buf, 2, self.packet_id);
        put_u8(buf, 4, 0x01);
        let mut offset: usize = 5;
        self.avl_packet_header.write_at(buf, offset);
        offset += 18;
        let ghost h = be16(packet_length as u16) + be16(self.packet_id) + seq![1u8];
        proof {
            lemma_splice_then(b0, 0, be16(packet_length as u16), be16(self.packet_id));
            lemma_splice_then(b0, 0, be16(packet_length as u16) + be16(self.packet_id), seq![1u8]);
            lemma_splice_then(b0, 0, h, header_bytes(self.avl_packet_header));
            lemma_splice_start(b0, h + header_bytes(self.avl_packet_header));
        }
        let ghost b1 = buf@;
        let (head, rest) = buf.split_at_mut(offset);
        let ghost hv = head@;
        let written = match self.avl_packet.encode(rest) {
            Ok(n) => n,
            Err(e) => {
                proof {
                    assert(buf@.take(23) =~= hv);
                    assert(hv =~= b1.take(23));
                }
                return Err(e);
            },
        };
        let ghost rv = rest@;
        proof {
            assert(hv =~= b1.take(23));
            assert(buf@ =~= hv + rv);
            assert(buf@.take(23) =~= b1.take(23));
            assert(buf@.skip(23) =~= rv);
            assert(buf@.subrange(23, 23 + written) =~= buf@.skip(23).take(written as int));
            assert(buf@.skip(23 + written) =~= buf@.skip(23).skip(written as int));
            assert(old(buf)@.skip(23 + written) =~= b1.skip(23).skip(written as int));
        }
        proof {
            lemma_request_head_fields(
                self.packet_id,
                self.avl_packet_header,
                T::spec_size(self.avl_packet@),
            );
            assert(buf@.subrange(0, 2) =~= buf@.take(23).subrange(0, 2));
            assert(buf@.subrange(2, 4) =~= buf@.take(23).subrange(2, 4));
            assert(buf@[4] == buf@.take(23)[4]);
        }
        offset += written;
        Ok(offset)
    }

    /// Reads a request from the start of `buf`: packet id, header and AVL packet.
    /// Reports `InvalidFrame` when `buf` has fewer than 20 bytes, or the error of the
    /// AVL packet.
    pub fn decode(buf: &[u8]) -> (r: Result<(usize, Self), AvlError>)
        requires
            buf@.len() >= 20 ==> T::spec_decoding(buf@.skip(20)) is Some,
            buf@.len() >= 20 ==> (T::spec_decoding(buf@.skip(20)) matches Some(Ok((n, _))) ==> 20
                + n <= usize::MAX),
        ensures
            match r {
                Ok((n, req)) => {
                    &&& buf@.len() >= 20
                    &&& n >= 20
                    &&& T::spec_decoding(buf@.skip(20)) == Some(
                        Ok::<(nat, T::V), AvlError>(((n - 20) as nat, req.avl_packet@)),
                    )
                    &&& req.packet_id == from_be16(buf@.subrange(0, 2))
                    &&& is_header_of(req.avl_packet_header, buf@.skip(2))
                },
                Err(e) => {
                    ||| buf@.len() < 20 && e == AvlError::InvalidFrame
                    ||| buf@.len() >= 20 && T::spec_decoding(buf@.skip(20)) == Some(
                        Err::<(nat, T::V), AvlError>(e),
                    )
                },
            },
    {
        if buf.len() < 20 {
            return Err(AvlError::InvalidFrame);
        }
        let packet_id = get_u16(buf, 0);
        let (header_size, avl_packet_header) = match AvlPacketHeader::decode(&buf[2..buf.len()]) {
            Ok(x) => x,
            Err(e) => {
                return Err(e);
            },
        };
        proof {
            assert(buf@.subrange(2, buf@.len() as int) =~= buf@.skip(2));
            assert(buf@.subrange(2 + header_size, buf@.len() as int) =~= buf@.skip(20));
        }
        let (avl_packet_size, avl_packet) = match T::decode(&buf[2 + header_size..buf.len()]) {
            Ok(x) => x,
            Err(e) => {
                return Err(e);
            },
        };
        Ok((2 + header_size + avl_packet_size, Self { packet_id, avl_packet_header, avl_packet }))
    }
}

} // verus!
