//! Little-endian integers in byte sequences.

use vstd::prelude::*;

verus! {

/// The 16-bit integer stored at byte `p` of `s`.
pub open spec fn le16(s: Seq<u8>, p: int) -> int {
    s[p] + 256 * s[p + 1]
}

/// The 32-bit integer stored at byte `p` of `s`.
pub open spec fn le32(s: Seq<u8>, p: int) -> int {
    s[p] + 256 * s[p + 1] + 65536 * s[p + 2] + 16777216 * s[p + 3]
}

/// The two bytes of a 16-bit integer.
pub open spec fn word16(x: int) -> Seq<u8> {
    seq![(x % 256) as u8, (x / 256 % 256) as u8]
}

/// The four bytes of a 32-bit integer.
pub open spec fn word32(x: int) -> Seq<u8> {
    seq![
        (x % 256) as u8,
        (x / 256 % 256) as u8,
        (x / 65536 % 256) as u8,
        (x / 16777216 % 256) as u8,
    ]
}

/// `s` with the bytes from position `p` on replaced by `bytes`.
pub open spec fn splice(s: Seq<u8>, p: int, bytes: Seq<u8>) -> Seq<u8> {
    Seq::new(s.len(), |i: int| if p <= i < p + bytes.len() { bytes[i - p] } else { s[i] })
}

/// Two byte sequences that agree where a 32-bit integer stands hold the same integer there.
pub proof fn lemma_le32_same(a: Seq<u8>, p: int, b: Seq<u8>, q: int)
    requires
        forall|i: int| 0 <= i < 4 ==> #[trigger] a[p + i] == b[q + i],
    ensures
        le32(a, p) == le32(b, q),
{
    assert(a[p + 0] == b[q + 0]);
    assert(a[p + 1] == b[q + 1]);
    assert(a[p + 2] == b[q + 2]);
    assert(a[p + 3] == b[q + 3]);
}

/// A 16-bit integer is read from its two bytes.
pub proof fn lemma_word16(x: int)
    requires
        0 <= x <= u16::MAX,
    ensures
        word16(x).len() == 2,
        le16(word16(x), 0) == x,
{
}

/// A 32-bit integer is read from its four bytes.
pub proof fn lemma_word32(x: int)
    requires
        0 <= x <= u32::MAX,
    ensures
        word32(x).len() == 4,
        le32(word32(x), 0) == x,
{
}

/// What a write of a 32-bit integer does to the integers of a row.
pub proof fn lemma_le32_splice(s: Seq<u8>, k: int, x: int)
    requires
        0 <= x <= u32::MAX,
        0 <= k,
        4 * k + 4 <= s.len(),
    ensures
        le32(splice(s, 4 * k, word32(x)), 4 * k) == x,
        forall|j: int|
            0 <= j && j != k && 4 * j + 4 <= s.len() ==> #[trigger] le32(
                splice(s, 4 * k, word32(x)),
                4 * j,
            ) == le32(s, 4 * j),
{
}

/// Reads the 16-bit integer at byte `p`.
pub fn read_u16(buf: &[u8], p: usize) -> (x: u16)
    requires
        p + 2 <= buf@.len(),
    ensures
        x == le16(buf@, p as int),
{
    (buf[p] as u16) + 256 * (buf[p + 1] as u16)
}

/// Reads the 32-bit integer at byte `p`.
pub fn read_u32(buf: &[u8], p: usize) -> (x: u32)
    requires
        p + 4 <= buf@.len(),
    ensures
        x == le32(buf@, p as int),
{
    (buf[p] as u32) + 256 * (buf[p + 1] as u32) + 65536 * (buf[p + 2] as u32) + 16777216 * (
    buf[p + 3] as u32)
}

/// Appends a 16-bit integer.
pub fn push_u16(v: &mut Vec<u8>, x: u16)
    ensures
        final(v)@.len() == old(v)@.len() + 2,
        final(v)@.take(old(v)@.len() as int) == old(v)@,
        le16(final(v)@, old(v)@.len() as int) == x,
        final(v)@ == old(v)@ + word16(x as int),
{
    v.push((x % 256) as u8);
    v.push((x / 256) as u8);
    assert(v@.take(old(v)@.len() as int) =~= old(v)@);
    assert(v@ =~= old(v)@ + word16(x as int));
}

/// Appends a 32-bit integer.
pub fn push_u32(v: &mut Vec<u8>, x: u32)
    ensures
        final(v)@.len() == old(v)@.len() + 4,
        final(v)@.take(old(v)@.len() as int) == old(v)@,
        le32(final(v)@, old(v)@.len() as int) == x,
        final(v)@ == old(v)@ + word32(x as int),
{
    v.push((x % 256) as u8);
    v.push((x / 256 % 256) as u8);
    v.push((x / 65536 % 256) as u8);
    v.push((x / 16777216) as u8);
    assert(v@.take(old(v)@.len() as int) =~= old(v)@);
    assert(v@ =~= old(v)@ + word32(x as int));
}

/// A number that is appended is read back from where it was appended, the least significant byte stands
/// first, and what stood before stays.
pub proof fn law_push_read(
    v: &mut Vec<u8>,
    x: u32,
    buf: &[u8],
    y: u32,
    w: &mut Vec<u8>,
    h: u16,
    buf2: &[u8],
    z: u16,
    i: int,
)
    requires
        call_ensures(push_u32, (v, x), ()),
        buf@ == final(v)@,
        call_ensures(read_u32, (buf, v@.len() as usize), y),
        call_ensures(push_u16, (w, h), ()),
        buf2@ == final(w)@,
        call_ensures(read_u16, (buf2, w@.len() as usize), z),
        v@.len() <= usize::MAX,
        w@.len() <= usize::MAX,
    ensures
        y == x,
        final(v)@.len() == old(v)@.len() + 4,
        0 <= i < old(v)@.len() ==> final(v)@[i] == old(v)@[i],
        final(v)@[old(v)@.len() as int] as int == x as int % 0x100,
        final(v)@[old(v)@.len() as int + 1] as int == x as int / 0x100 % 0x100,
        final(v)@[old(v)@.len() as int + 2] as int == x as int / 0x1_0000 % 0x100,
        final(v)@[old(v)@.len() as int + 3] as int == x as int / 0x100_0000,
        z == h,
        final(w)@.len() == old(w)@.len() + 2,
        0 <= i < old(w)@.len() ==> final(w)@[i] == old(w)@[i],
        final(w)@[old(w)@.len() as int] as int == h as int % 0x100,
        final(w)@[old(w)@.len() as int + 1] as int == h as int / 0x100,
{
}

} // verus!
