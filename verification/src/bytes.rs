//! Big-endian integer layouts and the byte-buffer operations the codecs are built from.

use vstd::prelude::*;

verus! {

/// Big-endian bytes of a `u16`.
pub open spec fn be16(v: u16) -> Seq<u8> {
    seq![(v >> 8u16) as u8, v as u8]
}

/// Big-endian bytes of a `u32`.
pub open spec fn be32(v: u32) -> Seq<u8> {
    seq![(v >> 24u32) as u8, (v >> 16u32) as u8, (v >> 8u32) as u8, v as u8]
}

/// Big-endian bytes of a `u64`.
pub open spec fn be64(v: u64) -> Seq<u8> {
    seq![
        (v >> 56u64) as u8,
        (v >> 48u64) as u8,
        (v >> 40u64) as u8,
        (v >> 32u64) as u8,
        (v >> 24u64) as u8,
        (v >> 16u64) as u8,
        (v >> 8u64) as u8,
        v as u8,
    ]
}

/// The `u16` whose big-endian bytes are the first two of `s`.
pub open spec fn from_be16(s: Seq<u8>) -> u16 {
    ((s[0] as u16) << 8u16) | (s[1] as u16)
}

/// The `u32` whose big-endian bytes are the first four of `s`.
pub open spec fn from_be32(s: Seq<u8>) -> u32 {
    ((s[0] as u32) << 24u32) | ((s[1] as u32) << 16u32) | ((s[2] as u32) << 8u32) | (s[3] as u32)
}

/// The `u64` whose big-endian bytes are the first eight of `s`.
pub open spec fn from_be64(s: Seq<u8>) -> u64 {
    ((s[0] as u64) << 56u64) | ((s[1] as u64) << 48u64) | ((s[2] as u64) << 40u64) | ((s[3] as u64)
        << 32u64) | ((s[4] as u64) << 24u64) | ((s[5] as u64) << 16u64) | ((s[6] as u64) << 8u64)
        | (s[7] as u64)
}

/// `b` with the bytes from `pos` on replaced by `s`.
#[verifier::opaque]
pub open spec fn splice(b: Seq<u8>, pos: int, s: Seq<u8>) -> Seq<u8> {
    b.take(pos) + s + b.skip(pos + s.len())
}

/// Reading back the big-endian bytes of a `u16` gives the value.
pub proof fn lemma_be16_roundtrip(v: u16)
    ensures
        from_be16(be16(v)) == v,
        be16(v).len() == 2,
{
    let b0 = (v >> 8u16) as u8;
    let b1 = v as u8;
    assert(((b0 as u16) << 8u16) | (b1 as u16) == v) by (bit_vector)
        requires
            b0 == (v >> 8u16) as u8,
            b1 == v as u8,
    ;
}

/// Two bytes are the big-endian bytes of the `u16` they spell.
pub proof fn lemma_from_be16_roundtrip(s: Seq<u8>)
    requires
        s.len() == 2,
    ensures
        be16(from_be16(s)) == s,
{
    let b0 = s[0];
    let b1 = s[1];
    let v = from_be16(s);
    assert((v >> 8u16) as u8 == b0 && v as u8 == b1) by (bit_vector)
        requires
            v == ((b0 as u16) << 8u16) | (b1 as u16),
    ;
    assert(be16(v) =~= s);
}

/// Reading back the big-endian bytes of a `u32` gives the value.
pub proof fn lemma_be32_roundtrip(v: u32)
    ensures
        from_be32(be32(v)) == v,
        be32(v).len() == 4,
{
    let b0 = (v >> 24u32) as u8;
    let b1 = (v >> 16u32) as u8;
    let b2 = (v >> 8u32) as u8;
    let b3 = v as u8;
    assert(((b0 as u32) << 24u32) | ((b1 as u32) << 16u32) | ((b2 as u32) << 8u32) | (b3 as u32)
        == v) by (bit_vector)
        requires
            b0 == (v >> 24u32) as u8,
            b1 == (v >> 16u32) as u8,
            b2 == (v >> 8u32) as u8,
            b3 == v as u8,
    ;
}

/// Four bytes are the big-endian bytes of the `u32` they spell.
pub proof fn lemma_from_be32_roundtrip(s: Seq<u8>)
    requires
        s.len() == 4,
    ensures
        be32(from_be32(s)) == s,
{
    let b0 = s[0];
    let b1 = s[1];
    let b2 = s[2];
    let b3 = s[3];
    let v = from_be32(s);
    assert((v >> 24u32) as u8 == b0 && (v >> 16u32) as u8 == b1 && (v >> 8u32) as u8 == b2 && v as u8
        == b3) by (bit_vector)
        requires
            v == ((b0 as u32) << 24u32) | ((b1 as u32) << 16u32) | ((b2 as u32) << 8u32) | (
            b3 as u32),
    ;
    assert(be32(v) =~= s);
}

/// Reading back the big-endian bytes of a `u64` gives the value.
pub proof fn lemma_be64_roundtrip(v: u64)
    ensures
        from_be64(be64(v)) == v,
        be64(v).len() == 8,
{
    let b0 = (v >> 56u64) as u8;
    let b1 = (v >> 48u64) as u8;
    let b2 = (v >> 40u64) as u8;
    let b3 = (v >> 32u64) as u8;
    let b4 = (v >> 24u64) as u8;
    let b5 = (v >> 16u64) as u8;
    let b6 = (v >> 8u64) as u8;
    let b7 = v as u8;
    assert(((b0 as u64) << 56u64) | ((b1 as u64) << 48u64) | ((b2 as u64) << 40u64) | ((b3 as u64)
        << 32u64) | ((b4 as u64) << 24u64) | ((b5 as u64) << 16u64) | ((b6 as u64) << 8u64) | (
    b7 as u64) == v) by (bit_vector)
        requires
            b0 == (v >> 56u64) as u8,
            b1 == (v >> 48u64) as u8,
            b2 == (v >> 40u64) as u8,
            b3 == (v >> 32u64) as u8,
            b4 == (v >> 24u64) as u8,
            b5 == (v >> 16u64) as u8,
            b6 == (v >> 8u64) as u8,
            b7 == v as u8,
    ;
}

/// Eight bytes are the big-endian bytes of the `u64` they spell.
pub proof fn lemma_from_be64_roundtrip(s: Seq<u8>)
    requires
        s.len() == 8,
    ensures
        be64(from_be64(s)) == s,
{
    let b0 = s[0];
    let b1 = s[1];
    let b2 = s[2];
    let b3 = s[3];
    let b4 = s[4];
    let b5 = s[5];
    let b6 = s[6];
    let b7 = s[7];
    let v = from_be64(s);
    assert((v >> 56u64) as u8 == b0 && (v >> 48u64) as u8 == b1 && (v >> 40u64) as u8 == b2 && (v
        >> 32u64) as u8 == b3 && (v >> 24u64) as u8 == b4 && (v >> 16u64) as u8 == b5 && (v
        >> 8u64) as u8 == b6 && v as u8 == b7) by (bit_vector)
        requires
            v == ((b0 as u64) << 56u64) | ((b1 as u64) << 48u64) | ((b2 as u64) << 40u64) | ((
            b3 as u64) << 32u64) | ((b4 as u64) << 24u64) | ((b5 as u64) << 16u64) | ((b6 as u64)
                << 8u64) | (b7 as u64),
    ;
    assert(be64(v) =~= s);
}

/// Writing `s1` and then `s2` right behind it is writing `s1 + s2`.
pub proof fn lemma_splice_then(b: Seq<u8>, pos: int, s1: Seq<u8>, s2: Seq<u8>)
    requires
        0 <= pos,
        pos + s1.len() + s2.len() <= b.len(),
    ensures
        splice(splice(b, pos, s1), pos + s1.len(), s2) == splice(b, pos, s1 + s2),
        splice(b, pos, s1).len() == b.len(),
{
    reveal(splice);
    assert(splice(splice(b, pos, s1), pos + s1.len(), s2) =~= splice(b, pos, s1 + s2));
}

/// Writing `s` at the start of `b` gives `s` followed by the rest of `b`.
pub proof fn lemma_splice_start(b: Seq<u8>, s: Seq<u8>)
    requires
        s.len() <= b.len(),
    ensures
        splice(b, 0, s) == s + b.skip(s.len() as int),
        splice(b, 0, s).len() == b.len(),
{
    reveal(splice);
    assert(splice(b, 0, s) =~= s + b.skip(s.len() as int));
}

/// A slice never holds more than `usize::MAX` items.
pub proof fn lemma_slice_len_bound(s: &[u8])
    ensures
        s@.len() <= usize::MAX,
{
    broadcast use vstd::slice::axiom_spec_len;

    assert(vstd::slice::spec_slice_len(s) == s@.len());
}

/// Writes one byte at `pos`.
pub(crate) fn put_u8(buf: &mut [u8], pos: usize, v: u8)
    requires
        pos + 1 <= old(buf)@.len(),
    ensures
        final(buf)@ == splice(old(buf)@, pos as int, seq![v]),
        final(buf)@.len() == old(buf)@.len(),
{
    buf[pos] = v;
    reveal(splice);
    assert(buf@ =~= splice(old(buf)@, pos as int, seq![v]));
}

/// Writes the big-endian bytes of a `u16` at `pos`.
pub(crate) fn put_u16(buf: &mut [u8], pos: usize, v: u16)
    requires
        pos + 2 <= old(buf)@.len(),
    ensures
        final(buf)@ == splice(old(buf)@, pos as int, be16(v)),
        final(buf)@.len() == old(buf)@.len(),
{
    buf[pos] = (v >> 8) as u8;
    buf[pos + 1] = v as u8;
    reveal(splice);
    assert(buf@ =~= splice(old(buf)@, pos as int, be16(v)));
}

/// Writes the big-endian bytes of a `u32` at `pos`.
pub(crate) fn put_u32(buf: &mut [u8], pos: usize, v: u32)
    requires
        pos + 4 <= old(buf)@.len(),
    ensures
        final(buf)@ == splice(old(buf)@, pos as int, be32(v)),
        final(buf)@.len() == old(buf)@.len(),
{
    buf[pos] = (v >> 24) as u8;
    buf[pos + 1] = (v >> 16) as u8;
    buf[pos + 2] = (v >> 8) as u8;
    buf[pos + 3] = v as u8;
    reveal(splice);
    assert(buf@ =~= splice(old(buf)@, pos as int, be32(v)));
}

/// Writes the big-endian bytes of a `u64` at `pos`.
pub(crate) fn put_u64(buf: &mut [u8], pos: usize, v: u64)
    requires
        pos + 8 <= old(buf)@.len(),
    ensures
        final(buf)@ == splice(old(buf)@, pos as int, be64(v)),
        final(buf)@.len() == old(buf)@.len(),
{
    buf[pos] = (v >> 56) as u8;
    buf[pos + 1] = (v >> 48) as u8;
    buf[pos + 2] = (v >> 40) as u8;
    buf[pos + 3] = (v >> 32) as u8;
    buf[pos + 4] = (v >> 24) as u8;
    buf[pos + 5] = (v >> 16) as u8;
    buf[pos + 6] = (v >> 8) as u8;
    buf[pos + 7] = v as u8;
    reveal(splice);
    assert(buf@ =~= splice(old(buf)@, pos as int, be64(v)));
}

/// Reads a big-endian `u16` at `pos`.
pub(crate) fn get_u16(buf: &[u8], pos: usize) -> (v: u16)
    requires
        pos + 2 <= buf@.len(),
    ensures
        v == from_be16(buf@.subrange(pos as int, pos + 2)),
{
    ((buf[pos] as u16) << 8) | (buf[pos + 1] as u16)
}

/// Reads a big-endian `u32` at `pos`.
pub(crate) fn get_u32(buf: &[u8], pos: usize) -> (v: u32)
    requires
        pos + 4 <= buf@.len(),
    ensures
        v == from_be32(buf@.subrange(pos as int, pos + 4)),
{
    ((buf[pos] as u32) << 24) | ((buf[pos + 1] as u32) << 16) | ((buf[pos + 2] as u32) << 8) | (
    buf[pos + 3] as u32)
}

/// Reads a big-endian `u64` at `pos`.
pub(crate) fn get_u64(buf: &[u8], pos: usize) -> (v: u64)
    requires
        pos + 8 <= buf@.len(),
    ensures
        v == from_be64(buf@.subrange(pos as int, pos + 8)),
{
    ((buf[pos] as u64) << 56) | ((buf[pos + 1] as u64) << 48) | ((buf[pos + 2] as u64) << 40) | ((
    buf[pos + 3] as u64) << 32) | ((buf[pos + 4] as u64) << 24) | ((buf[pos + 5] as u64) << 16) | ((
    buf[pos + 6] as u64) << 8) | (buf[pos + 7] as u64)
}

/// The concatenation of `f` applied to each item of `s`, in order.
pub open spec fn concat_map<T>(s: Seq<T>, f: spec_fn(T) -> Seq<u8>) -> Seq<u8>
    decreases s.len(),
{
    if s.len() == 0 {
        Seq::empty()
    } else {
        concat_map(s.drop_last(), f) + f(s.last())
    }
}

/// Appending an item appends its bytes.
pub proof fn lemma_concat_map_push<T>(s: Seq<T>, x: T, f: spec_fn(T) -> Seq<u8>)
    ensures
        concat_map(s.push(x), f) == concat_map(s, f) + f(x),
{
    assert(s.push(x).drop_last() =~= s);
}

/// The bytes of a concatenation are the concatenation of the bytes.
pub proof fn lemma_concat_map_append<T>(a: Seq<T>, b: Seq<T>, f: spec_fn(T) -> Seq<u8>)
    ensures
        concat_map(a + b, f) == concat_map(a, f) + concat_map(b, f),
    decreases b.len(),
{
    if b.len() == 0 {
        assert(a + b =~= a);
        assert(concat_map(a, f) + concat_map(b, f) =~= concat_map(a, f));
    } else {
        lemma_concat_map_append(a, b.drop_last(), f);
        assert((a + b).drop_last() =~= a + b.drop_last());
        assert((a + b).last() == b.last());
        assert(concat_map(a, f) + concat_map(b, f) =~= concat_map(a, f) + concat_map(
            b.drop_last(),
            f,
        ) + f(b.last()));
    }
}

/// With items of fixed width `w`, the bytes have length `w` per item and item `i`
/// occupies the bytes `w * i .. w * i + w`.
pub proof fn lemma_concat_map_fixed<T>(s: Seq<T>, f: spec_fn(T) -> Seq<u8>, w: nat)
    requires
        forall|x: T| #[trigger] f(x).len() == w,
    ensures
        concat_map(s, f).len() == w * s.len(),
        forall|i: int|
            0 <= i < s.len() ==> #[trigger] concat_map(s, f).subrange(w * i, w * i + w) == f(s[i]),
    decreases s.len(),
{
    if s.len() > 0 {
        let p = s.drop_last();
        lemma_concat_map_fixed(p, f, w);
        assert(w * s.len() == w * p.len() + w) by (nonlinear_arith)
            requires
                s.len() == p.len() + 1,
        ;
        assert forall|i: int| 0 <= i < s.len() implies #[trigger] concat_map(s, f).subrange(
            w * i,
            w * i + w,
        ) == f(s[i]) by {
            if i < p.len() {
                assert(w * i + w <= w * p.len()) by (nonlinear_arith)
                    requires
                        i < p.len(),
                        0 <= i,
                ;
                assert(0 <= w * i) by (nonlinear_arith)
                    requires
                        0 <= i,
                ;
                assert(concat_map(s, f).subrange(w * i, w * i + w) =~= concat_map(p, f).subrange(
                    w * i,
                    w * i + w,
                ));
            } else {
                assert(concat_map(s, f).subrange(w * i, w * i + w) =~= f(s.last()));
            }
        }
    }
}

/// A `u16` widened to four big-endian bytes is two zero bytes and its own two bytes.
pub proof fn lemma_be32_of_u16(x: u16)
    ensures
        be32(x as u32) == seq![0u8, 0u8] + be16(x),
{
    let w = x as u32;
    assert((w >> 24u32) as u8 == 0u8 && (w >> 16u32) as u8 == 0u8 && (w >> 8u32) as u8 == (x
        >> 8u16) as u8 && w as u8 == x as u8) by (bit_vector)
        requires
            w == x as u32,
    ;
    assert(be32(x as u32) =~= seq![0u8, 0u8] + be16(x));
}


/// The bytes of item `j` sit between the bytes of the items before and after it.
pub proof fn lemma_concat_map_split<T>(s: Seq<T>, j: int, f: spec_fn(T) -> Seq<u8>)
    requires
        0 <= j < s.len(),
    ensures
        concat_map(s, f) == concat_map(s.take(j), f) + f(s[j]) + concat_map(s.skip(j + 1), f),
{
    lemma_concat_map_append(s.take(j + 1), s.skip(j + 1), f);
    assert(s.take(j + 1) + s.skip(j + 1) =~= s);
    assert(s.take(j + 1) =~= s.take(j).push(s[j]));
    lemma_concat_map_push(s.take(j), s[j], f);
}

/// Where `b` holds `a + x + c` from `p` on, it holds `x` from `p + a.len()` on.
pub proof fn lemma_skip_into(b: Seq<u8>, p: int, a: Seq<u8>, x: Seq<u8>, c: Seq<u8>)
    requires
        0 <= p,
        p + a.len() + x.len() + c.len() <= b.len(),
        b.subrange(p, p + a.len() + x.len() + c.len()) == a + x + c,
    ensures
        b.skip(p + a.len()) == x + b.skip(p + a.len() + x.len()),
{
    let q = p + a.len();
    let whole = a + x + c;
    assert forall|i: int| 0 <= i < x.len() implies #[trigger] b.skip(q)[i] == x[i] by {
        assert(b.subrange(p, p + a.len() + x.len() + c.len())[a.len() + i] == b[q + i]);
        assert(whole[a.len() + i] == x[i]);
    }
    assert(b.skip(q) =~= x + b.skip(q + x.len()));
}

} // verus!
