//! Encoding and decoding of Teltonika AVL protocol frames (Codec 8), with
//! contracts stating the exact byte layout of every frame.

pub mod avl;
pub mod bytes;
pub mod codec8;
pub mod error;
pub mod stack;

pub use heapless::Vec as StackVec;

use vstd::prelude::*;

verus! {

/// One step of the bitwise CRC-16/ARC register update (reflected polynomial 0xA001).
pub open spec fn crc16_shift(crc: u16) -> u16 {
    if crc & 1u16 == 1u16 {
        (crc >> 1u16) ^ 0xa001u16
    } else {
        crc >> 1u16
    }
}

/// `n` register steps.
pub open spec fn crc16_shift_n(crc: u16, n: nat) -> u16
    decreases n,
{
    if n == 0 {
        crc
    } else {
        crc16_shift(crc16_shift_n(crc, (n - 1) as nat))
    }
}

/// The register after feeding one byte.
pub open spec fn crc16_update(crc: u16, byte: u8) -> u16 {
    crc16_shift_n(crc ^ (byte as u16), 8)
}

/// CRC-16/ARC of a message, starting from a zero register.
pub open spec fn spec_crc16(msg: Seq<u8>) -> u16
    decreases msg.len(),
{
    if msg.len() == 0 {
        0
    } else {
        crc16_update(spec_crc16(msg.drop_last()), msg.last())
    }
}

/// Bytewise exclusive or of two messages of equal length.
pub open spec fn xor_bytes(a: Seq<u8>, b: Seq<u8>) -> Seq<u8> {
    Seq::new(a.len(), |i: int| a[i] ^ b[i])
}

/// One register step is linear: stepping `x ^ y` gives the two steps xored.
proof fn lemma_crc16_shift_xor(x: u16, y: u16)
    ensures
        crc16_shift(x ^ y) == crc16_shift(x) ^ crc16_shift(y),
{
    assert(crc16_shift(x ^ y) == crc16_shift(x) ^ crc16_shift(y)) by (bit_vector);
}

/// `n` register steps are linear.
proof fn lemma_crc16_shift_n_xor(x: u16, y: u16, n: nat)
    ensures
        crc16_shift_n(x ^ y, n) == crc16_shift_n(x, n) ^ crc16_shift_n(y, n),
    decreases n,
{
    if n > 0 {
        lemma_crc16_shift_n_xor(x, y, (n - 1) as nat);
        lemma_crc16_shift_xor(crc16_shift_n(x, (n - 1) as nat), crc16_shift_n(y, (n - 1) as nat));
    }
}

/// A register whose low eight bits are zero just shifts right during the first eight steps.
proof fn lemma_crc16_shift_n_high(h: u16, k: nat)
    requires
        h & 0xffu16 == 0,
        k <= 8,
    ensures
        crc16_shift_n(h, k) == h >> (k as u16),
    decreases k,
{
    if k == 0 {
        assert(h >> 0u16 == h) by (bit_vector);
    } else {
        lemma_crc16_shift_n_high(h, (k - 1) as nat);
        let j = (k - 1) as u16;
        let j1 = k as u16;
        assert(j1 == j + 1);
        assert((h >> j) & 1u16 == 0u16 && (h >> j) >> 1u16 == h >> j1) by (bit_vector)
            requires
                h & 0xffu16 == 0,
                j < 8,
                j1 == j + 1,
        ;
        assert(crc16_shift(h >> j) == (h >> j) >> 1u16);
        assert(crc16_shift_n(h, k) == crc16_shift(crc16_shift_n(h, (k - 1) as nat)));
    }
}

/// The CRC of the bytewise exclusive or of two messages of equal length is the exclusive
/// or of their CRCs.
pub proof fn lemma_crc16_xor(a: Seq<u8>, b: Seq<u8>)
    requires
        a.len() == b.len(),
    ensures
        spec_crc16(xor_bytes(a, b)) == spec_crc16(a) ^ spec_crc16(b),
    decreases a.len(),
{
    if a.len() == 0 {
        assert(0u16 ^ 0u16 == 0u16) by (bit_vector);
    } else {
        let x = xor_bytes(a, b);
        assert(x.drop_last() =~= xor_bytes(a.drop_last(), b.drop_last()));
        lemma_crc16_xor(a.drop_last(), b.drop_last());
        let ca = spec_crc16(a.drop_last());
        let cb = spec_crc16(b.drop_last());
        let ba = a.last();
        let bb = b.last();
        assert(x.last() == ba ^ bb);
        assert((ca ^ cb) ^ ((ba ^ bb) as u16) == (ca ^ (ba as u16)) ^ (cb ^ (bb as u16)))
            by (bit_vector);
        lemma_crc16_shift_n_xor(ca ^ (ba as u16), cb ^ (bb as u16), 8);
    }
}

/// A message of zero bytes, of any length, has CRC 0.
pub proof fn lemma_crc16_zeros(n: nat)
    ensures
        spec_crc16(Seq::new(n, |i: int| 0u8)) == 0,
{
    let z = Seq::new(n, |i: int| 0u8);
    lemma_crc16_xor(z, z);
    assert(xor_bytes(z, z) =~= z) by {
        assert forall|i: int| 0 <= i < n implies #[trigger] xor_bytes(z, z)[i] == z[i] by {
            assert(0u8 ^ 0u8 == 0u8) by (bit_vector);
        }
    }
    let c = spec_crc16(z);
    assert(c ^ c == 0u16) by (bit_vector);
}

/// Appending its CRC to a message, low byte first, gives a message whose CRC is 0.
pub proof fn lemma_crc16_residue(msg: Seq<u8>)
    ensures
        spec_crc16(msg + seq![spec_crc16(msg) as u8, (spec_crc16(msg) >> 8u16) as u8]) == 0,
{
    let c = spec_crc16(msg);
    let lo = c as u8;
    let hi = (c >> 8u16) as u8;
    let m1 = msg.push(lo);
    let m2 = m1.push(hi);
    assert(m2 =~= msg + seq![lo, hi]);
    assert(m1.drop_last() =~= msg);
    assert(m2.drop_last() =~= m1);
    assert(c ^ (lo as u16) == c & 0xff00u16 && (c & 0xff00u16) & 0xffu16 == 0 && (c & 0xff00u16)
        >> 8u16 == c >> 8u16 && (c >> 8u16) ^ (hi as u16) == 0u16 && 0u16 & 0xffu16 == 0u16)
        by (bit_vector)
        requires
            lo == c as u8,
            hi == (c >> 8u16) as u8,
    ;
    lemma_crc16_shift_n_high(c & 0xff00u16, 8);
    lemma_crc16_shift_n_high(0u16, 8);
    assert(0u16 >> 8u16 == 0u16) by (bit_vector);
    assert(spec_crc16(m1) == crc16_update(c, lo));
    assert(crc16_update(c, lo) == crc16_shift_n(c & 0xff00u16, 8));
    assert(spec_crc16(m1) == c >> 8u16);
    assert(spec_crc16(m2) == crc16_update(c >> 8u16, hi));
    assert(crc16_update(c >> 8u16, hi) == crc16_shift_n(0u16, 8));
}

/// CRC-16 as used by the Teltonika codecs (CRC-16/ARC: polynomial 0xA001, zero start).
pub fn crc16(msg: &[u8]) -> (crc: u16)
    ensures
        crc == spec_crc16(msg@),
{
    let mut crc: u16 = 0x0;
    let n = msg.len();
    let mut i: usize = 0;
    while i < n
        invariant
            n == msg@.len(),
            i <= n,
            crc == spec_crc16(msg@.take(i as int)),
        decreases n - i,
    {
        assert(msg@.take(i + 1).drop_last() =~= msg@.take(i as int));
        let ghost start: u16 = crc ^ (msg@[i as int] as u16);
        crc = crc ^ (msg[i] as u16);
        let mut j: usize = 0;
        while j < 8
            invariant
                j <= 8,
                crc == crc16_shift_n(start, j as nat),
            decreases 8 - j,
        {
            let carry = crc & 1;
            crc = crc >> 1;
            if carry == 1 {
                crc = crc ^ 0xa001;
            }
            j = j + 1;
        }
        i = i + 1;
    }
    assert(msg@.take(n as int) =~= msg@);
    crc
}

/// A packet codec: a frame type that knows its encoded size and encodes into, and
/// decodes from, byte buffers.
pub trait AvlCodec: View + Sized {
    /// Encoded size of a frame.
    spec fn spec_size(v: Self::V) -> nat;

    /// The bytes `encode` writes for a frame, or the error it reports.
    spec fn spec_encoding(v: Self::V) -> Result<Seq<u8>, error::AvlError>;

    /// What `decode` gives for `b`: the bytes read and the frame, or the error; `None`
    /// where decoding would read past the end of `b`.
    spec fn spec_decoding(b: Seq<u8>) -> Option<Result<(nat, Self::V), error::AvlError>>;

    /// Encoded size of the frame.
    fn size(&self) -> (n: usize)
        ensures
            n == Self::spec_size(self@),
    ;

    /// Writes the frame at the start of `buf`; returns the number of bytes written.
    fn encode(&self, buf: &mut [u8]) -> (r: Result<usize, error::AvlError>)
        requires
            old(buf)@.len() >= Self::spec_size(self@),
        ensures
            match r {
                Ok(n) => {
                    &&& n == Self::spec_size(self@)
                    &&& Self::spec_encoding(self@) == Ok::<Seq<u8>, error::AvlError>(
                        final(buf)@.take(n as int),
                    )
                    &&& final(buf)@.skip(n as int) == old(buf)@.skip(n as int)
                },
                Err(e) => Self::spec_encoding(self@) == Err::<Seq<u8>, error::AvlError>(e),
            },
            final(buf)@.len() == old(buf)@.len(),
    ;

    /// Reads a frame from the start of `buf`; returns the bytes read and the frame.
    fn decode(buf: &[u8]) -> (r: Result<(usize, Self), error::AvlError>)
        requires
            Self::spec_decoding(buf@) is Some,
        ensures
            match r {
                Ok((n, v)) => Self::spec_decoding(buf@) == Some(
                    Ok::<(nat, Self::V), error::AvlError>((n as nat, v@)),
                ),
                Err(e) => Self::spec_decoding(buf@) == Some(
                    Err::<(nat, Self::V), error::AvlError>(e),
                ),
            },
    ;
}

} // verus!
