//! Little-endian integers inside byte sequences.

use vstd::prelude::*;

verus! {

/// The `u16` stored little-endian at position `p` of `s`.
pub open spec fn le16(s: Seq<u8>, p: int) -> u16 {
    (s[p] as int + s[p + 1] as int * 0x100) as u16
}

/// The `u32` stored little-endian at position `p` of `s`.
#[verifier::opaque]
pub open spec fn le32(s: Seq<u8>, p: int) -> u32 {
    (s[p] as int + s[p + 1] as int * 0x100 + s[p + 2] as int * 0x1_0000 + s[p + 3] as int
        * 0x100_0000) as u32
}

/// Byte `k` (from the least significant one) of `v`.
pub open spec fn le32_byte(v: u32, k: int) -> u8 {
    if k == 0 {
        (v % 0x100) as u8
    } else if k == 1 {
        ((v / 0x100) % 0x100) as u8
    } else if k == 2 {
        ((v / 0x1_0000) % 0x100) as u8
    } else {
        ((v / 0x100_0000) % 0x100) as u8
    }
}

/// `s` with the four bytes at `p` replaced by `v` stored little-endian.
pub open spec fn put_le32(s: Seq<u8>, p: int, v: u32) -> Seq<u8> {
    s.update(p, le32_byte(v, 0)).update(p + 1, le32_byte(v, 1)).update(p + 2, le32_byte(v, 2)).update(
        p + 3,
        le32_byte(v, 3),
    )
}

/// Reading back what was written gives the value written.
pub proof fn lemma_le32_put(s: Seq<u8>, p: int, v: u32)
    requires
        0 <= p,
        p + 4 <= s.len(),
    ensures
        le32(put_le32(s, p, v), p) == v,
        put_le32(s, p, v).len() == s.len(),
{
    reveal(le32);
    let t = put_le32(s, p, v);
    assert(t[p] == le32_byte(v, 0));
    assert(t[p + 1] == le32_byte(v, 1));
    assert(t[p + 2] == le32_byte(v, 2));
    assert(t[p + 3] == le32_byte(v, 3));
    assert((v % 0x100) as int + ((v / 0x100) % 0x100) as int * 0x100 + ((v / 0x1_0000) % 0x100) as int
        * 0x1_0000 + ((v / 0x100_0000) % 0x100) as int * 0x100_0000 == v) by (nonlinear_arith);
}

/// A write elsewhere leaves a stored `u32` as it was.
pub proof fn lemma_le32_put_other(s: Seq<u8>, p: int, v: u32, q: int)
    requires
        0 <= p,
        p + 4 <= s.len(),
        0 <= q,
        q + 4 <= s.len(),
        q + 4 <= p || p + 4 <= q,
    ensures
        le32(put_le32(s, p, v), q) == le32(s, q),
{
    reveal(le32);
    let t = put_le32(s, p, v);
    assert(t[q] == s[q]);
    assert(t[q + 1] == s[q + 1]);
    assert(t[q + 2] == s[q + 2]);
    assert(t[q + 3] == s[q + 3]);
}

/// Reads the `u16` stored little-endian at `p`.
pub fn read_u16_le(s: &[u8], p: usize) -> (r: u16)
    requires
        p + 2 <= s@.len(),
    ensures
        r == le16(s@, p as int),
{
    s[p] as u16 + (s[p + 1] as u16) * 0x100
}

/// Reads the `u32` stored little-endian at `p`.
pub fn read_u32_le(s: &[u8], p: usize) -> (r: u32)
    requires
        p + 4 <= s@.len(),
    ensures
        r == le32(s@, p as int),
{
    reveal(le32);
    s[p] as u32 + (s[p + 1] as u32) * 0x100 + (s[p + 2] as u32) * 0x1_0000 + (s[p + 3] as u32)
        * 0x100_0000
}

/// Stores `v` little-endian at `p`.
pub fn write_u32_le(s: &mut Vec<u8>, p: usize, v: u32)
    requires
        p + 4 <= old(s).len(),
    ensures
        final(s)@ == put_le32(old(s)@, p as int, v),
{
    let (p1, p2, p3) = (p + 1, p + 2, p + 3);
    s.set(p, (v % 0x100) as u8);
    s.set(p1, ((v / 0x100) % 0x100) as u8);
    s.set(p2, ((v / 0x1_0000) % 0x100) as u8);
    s.set(p3, ((v / 0x100_0000) % 0x100) as u8);
}

/// A `u32` read from a part of a sequence is the one at the same place in the whole.
pub proof fn lemma_le32_subrange(s: Seq<u8>, a: int, b: int, p: int)
    requires
        0 <= a <= b <= s.len(),
        0 <= p,
        p + 4 <= b - a,
    ensures
        le32(s.subrange(a, b), p) == le32(s, a + p),
{
    reveal(le32);
    let t = s.subrange(a, b);
    assert(t[p] == s[a + p]);
    assert(t[p + 1] == s[a + p + 1]);
    assert(t[p + 2] == s[a + p + 2]);
    assert(t[p + 3] == s[a + p + 3]);
}

/// A `u16` read from a part of a sequence is the one at the same place in the whole.
pub proof fn lemma_le16_subrange(s: Seq<u8>, a: int, b: int, p: int)
    requires
        0 <= a <= b <= s.len(),
        0 <= p,
        p + 2 <= b - a,
    ensures
        le16(s.subrange(a, b), p) == le16(s, a + p),
{
    let t = s.subrange(a, b);
    assert(t[p] == s[a + p]);
    assert(t[p + 1] == s[a + p + 1]);
}

} // verus!
