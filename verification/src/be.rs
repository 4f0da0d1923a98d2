//! Big-endian encodings of integers and of sequences of them.
use vstd::prelude::*;

verus! {

/// The two bytes of `v`, most significant first.
pub open spec fn u16_be(v: u16) -> Seq<u8> {
    seq![(v >> 8u16) as u8, (v & 0xffu16) as u8]
}

/// The four bytes of `v`, most significant first.
pub open spec fn u32_be(v: u32) -> Seq<u8> {
    seq![(v >> 24u32) as u8, ((v >> 16u32) & 0xffu32) as u8, ((v >> 8u32) & 0xffu32) as u8, (v & 0xffu32) as u8]
}

/// The integer whose big-endian form is `b0 b1`.
pub open spec fn be_u16(b0: u8, b1: u8) -> u16 {
    ((b0 as u16) << 8u16) | (b1 as u16)
}

/// The integer whose big-endian form is `b0 b1 b2 b3`.
pub open spec fn be_u32(b0: u8, b1: u8, b2: u8, b3: u8) -> u32 {
    ((b0 as u32) << 24u32) | ((b1 as u32) << 16u32) | ((b2 as u32) << 8u32) | (b3 as u32)
}

/// The big-endian `u16` that starts at position `p` of `s`.
pub open spec fn be_u16_at(s: Seq<u8>, p: int) -> u16 {
    be_u16(s[p], s[p + 1])
}

/// The big-endian `u32` that starts at position `p` of `s`.
pub open spec fn be_u32_at(s: Seq<u8>, p: int) -> u32 {
    be_u32(s[p], s[p + 1], s[p + 2], s[p + 3])
}

/// Decoding the big-endian form of a `u16` gives the `u16` back.
pub proof fn lemma_u16_be_roundtrip(v: u16)
    ensures
        be_u16_at(u16_be(v), 0) == v,
        u16_be(v).len() == 2,
{
    let b0 = (v >> 8u16) as u8;
    let b1 = (v & 0xffu16) as u8;
    assert(((b0 as u16) << 8u16) | (b1 as u16) == v) by (bit_vector)
        requires
            b0 == (v >> 8u16) as u8,
            b1 == (v & 0xffu16) as u8,
    ;
}

/// Decoding the big-endian form of a `u32` gives the `u32` back.
pub proof fn lemma_u32_be_roundtrip(v: u32)
    ensures
        be_u32_at(u32_be(v), 0) == v,
        u32_be(v).len() == 4,
{
    let b0 = (v >> 24u32) as u8;
    let b1 = ((v >> 16u32) & 0xffu32) as u8;
    let b2 = ((v >> 8u32) & 0xffu32) as u8;
    let b3 = (v & 0xffu32) as u8;
    assert(((b0 as u32) << 24u32) | ((b1 as u32) << 16u32) | ((b2 as u32) << 8u32) | (b3 as u32)
        == v) by (bit_vector)
        requires
            b0 == (v >> 24u32) as u8,
            b1 == ((v >> 16u32) & 0xffu32) as u8,
            b2 == ((v >> 8u32) & 0xffu32) as u8,
            b3 == (v & 0xffu32) as u8,
    ;
}

/// Encoding a decoded `u16` gives back the two bytes it was read from.
pub proof fn lemma_be_u16_bytes(b0: u8, b1: u8)
    ensures
        u16_be(be_u16(b0, b1)) == seq![b0, b1],
{
    let v = be_u16(b0, b1);
    assert((v >> 8u16) as u8 == b0 && (v & 0xffu16) as u8 == b1) by (bit_vector)
        requires
            v == ((b0 as u16) << 8u16) | (b1 as u16),
    ;
    assert(u16_be(v) =~= seq![b0, b1]);
}

/// Encoding a decoded `u32` gives back the four bytes it was read from.
pub proof fn lemma_be_u32_bytes(b0: u8, b1: u8, b2: u8, b3: u8)
    ensures
        u32_be(be_u32(b0, b1, b2, b3)) == seq![b0, b1, b2, b3],
{
    let v = be_u32(b0, b1, b2, b3);
    assert((v >> 24u32) as u8 == b0 && ((v >> 16u32) & 0xffu32) as u8 == b1 && ((v >> 8u32)
        & 0xffu32) as u8 == b2 && (v & 0xffu32) as u8 == b3) by (bit_vector)
        requires
            v == ((b0 as u32) << 24u32) | ((b1 as u32) << 16u32) | ((b2 as u32) << 8u32) | (
            b3 as u32),
    ;
    assert(u32_be(v) =~= seq![b0, b1, b2, b3]);
}

/// The big-endian forms of the `u32`s of `s`, one after the other.
pub open spec fn u32s_be(s: Seq<u32>) -> Seq<u8>
    decreases s.len(),
{
    if s.len() == 0 {
        Seq::empty()
    } else {
        u32s_be(s.drop_last()) + u32_be(s.last())
    }
}

/// The `n` big-endian `u32`s stored one after the other from position `start` of `b`.
pub open spec fn be_u32s_at(b: Seq<u8>, start: int, n: nat) -> Seq<u32> {
    Seq::new(n, |i: int| be_u32_at(b, start + 4 * i))
}

/// The bytes of `u32s_be(s)` are those of the encoded elements, four per element.
pub proof fn lemma_u32s_be_index(s: Seq<u32>)
    ensures
        u32s_be(s).len() == 4 * s.len(),
        forall|i: int, k: int|
            #![trigger u32s_be(s)[4 * i + k]]
            0 <= i < s.len() && 0 <= k < 4 ==> u32s_be(s)[4 * i + k] == u32_be(s[i])[k],
    decreases s.len(),
{
    if s.len() > 0 {
        lemma_u32s_be_index(s.drop_last());
        let p = s.drop_last();
        assert forall|i: int, k: int| 0 <= i < s.len() && 0 <= k < 4 implies #[trigger] u32s_be(
            s,
        )[4 * i + k] == u32_be(s[i])[k] by {
            if i < s.len() - 1 {
                assert(u32s_be(p)[4 * i + k] == u32_be(p[i])[k]);
            }
        }
    }
}

/// Decoding the encoded `u32`s gives them back, whatever follows them.
pub proof fn lemma_u32s_be_decode(s: Seq<u32>, before: Seq<u8>, after: Seq<u8>)
    ensures
        be_u32s_at(before + u32s_be(s) + after, before.len() as int, s.len()) == s,
{
    lemma_u32s_be_index(s);
    let b = before + u32s_be(s) + after;
    assert forall|i: int| 0 <= i < s.len() implies #[trigger] be_u32s_at(
        b,
        before.len() as int,
        s.len(),
    )[i] == s[i] by {
        let p = before.len() + 4 * i;
        assert(b[p] == u32s_be(s)[4 * i + 0]);
        assert(b[p + 1] == u32s_be(s)[4 * i + 1]);
        assert(b[p + 2] == u32s_be(s)[4 * i + 2]);
        assert(b[p + 3] == u32s_be(s)[4 * i + 3]);
        lemma_u32_be_roundtrip(s[i]);
    }
    assert(be_u32s_at(b, before.len() as int, s.len()) =~= s);
}

/// Encoding the `u32`s read from a region gives back the bytes of that region.
pub proof fn lemma_be_u32s_encode(b: Seq<u8>, start: int, n: nat)
    requires
        0 <= start,
        start + 4 * n <= b.len(),
    ensures
        u32s_be(be_u32s_at(b, start, n)) == b.subrange(start, start + 4 * n),
    decreases n,
{
    if n > 0 {
        let m = (n - 1) as nat;
        lemma_be_u32s_encode(b, start, m);
        let s = be_u32s_at(b, start, n);
        assert(s.drop_last() =~= be_u32s_at(b, start, m));
        let p = start + 4 * m;
        lemma_be_u32_bytes(b[p], b[p + 1], b[p + 2], b[p + 3]);
        assert(b.subrange(start, start + 4 * n) =~= b.subrange(start, p) + seq![
            b[p],
            b[p + 1],
            b[p + 2],
            b[p + 3],
        ]);
    }
}

} // verus!
