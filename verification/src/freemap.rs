//! The map of free blocks: one bit per block, set while the block is free.

use bitvec::order::Msb0;
use bitvec::vec::BitVec;
use vstd::prelude::*;

verus! {

/// A growable row of bits, packed into bytes from the most significant bit on.
#[verifier::external_body]
pub struct Bits {
    inner: BitVec<Msb0, u8>,
}

/// The bits that a row holds.
pub uninterp spec fn bits(m: Bits) -> Seq<bool>;

/// Bit `i` of a row of bytes, counted from the most significant bit of byte 0.
pub open spec fn bit_of(bytes: Seq<u8>, i: int) -> bool {
    (bytes[i / 8] / place(i % 8)) % 2 == 1
}

/// The value of the bit that stands at place `k` of a byte.
pub open spec fn place(k: int) -> u8 {
    if k == 0 {
        128
    } else if k == 1 {
        64
    } else if k == 2 {
        32
    } else if k == 3 {
        16
    } else if k == 4 {
        8
    } else if k == 5 {
        4
    } else if k == 6 {
        2
    } else {
        1
    }
}

/// The bits of a row of bytes.
pub open spec fn unpack(bytes: Seq<u8>) -> Seq<bool> {
    Seq::new(8 * bytes.len(), |i: int| bit_of(bytes, i))
}

/// The most bits that a row is asked to hold.
pub const MAX_BITS: usize = 0x100_0000;

/// Calls `BitVec::with_capacity`, which makes an empty row; the capacity that it reserves shows in
/// no result.
#[verifier::external_body]
pub(crate) fn with_capacity(capacity: usize) -> (m: Bits)
    requires
        capacity <= MAX_BITS,
    ensures
        bits(m) == Seq::<bool>::empty(),
{
    Bits { inner: BitVec::with_capacity(capacity) }
}

/// Calls `BitVec::extend` with a value repeated `n` times, which pushes it `n` times.
#[verifier::external_body]
pub(crate) fn extend_repeat(m: &mut Bits, value: bool, n: usize)
    requires
        bits(*old(m)).len() + n <= MAX_BITS,
    ensures
        bits(*final(m)) == bits(*old(m)) + Seq::new(n as nat, |i: int| value),
{
    m.inner.extend(core::iter::repeat(value).take(n))
}

/// Calls `BitVec::from` on bytes, which reads each byte from its most significant bit on.
#[verifier::external_body]
pub(crate) fn from_bytes(bytes: &[u8]) -> (m: Bits)
    requires
        8 * bytes@.len() <= MAX_BITS,
    ensures
        bits(m) == unpack(bytes@),
{
    Bits { inner: BitVec::from(bytes) }
}

/// Calls `BitVec::as_ref`, which gives the bytes that hold the bits. What the places of a last byte
/// that no bit fills hold is not said.
#[verifier::external_body]
pub(crate) fn as_bytes(m: &Bits) -> (bytes: &[u8])
    ensures
        bytes@.len() == (bits(*m).len() + 7) / 8,
        forall|i: int| 0 <= i < bits(*m).len() ==> #[trigger] bit_of(bytes@, i) == bits(*m)[i],
{
    m.inner.as_ref()
}

/// Calls `BitVec::len`, which counts the bits.
#[verifier::external_body]
pub(crate) fn bit_len(m: &Bits) -> (n: usize)
    ensures
        n == bits(*m).len(),
{
    m.inner.len()
}

/// Calls `BitVec::index`, which reads one bit and panics past the end.
#[verifier::external_body]
pub(crate) fn get_bit(m: &Bits, i: usize) -> (b: bool)
    requires
        i < bits(*m).len(),
    ensures
        b == bits(*m)[i as int],
{
    m.inner[i]
}

/// Calls `BitVec::set`, which writes one bit and panics past the end.
#[verifier::external_body]
pub(crate) fn set_bit(m: &mut Bits, i: usize, value: bool)
    requires
        i < bits(*old(m)).len(),
    ensures
        bits(*final(m)) == bits(*old(m)).update(i as int, value),
{
    m.inner.set(i, value)
}

/// `i` is the lowest place of `free` that is set.
pub open spec fn is_lowest(free: Seq<bool>, i: int) -> bool {
    &&& 0 <= i < free.len()
    &&& free[i]
    &&& forall|j: int| 0 <= j < i ==> !free[j]
}

/// The lowest place of `free` that is set, where there is one.
pub open spec fn lowest(free: Seq<bool>) -> int {
    choose|i: int| is_lowest(free, i)
}

/// The number of places of `free` that are set.
pub open spec fn count(free: Seq<bool>) -> nat
    decreases free.len(),
{
    if free.len() == 0 {
        0
    } else {
        count(free.drop_last()) + if free.last() {
            1nat
        } else {
            0nat
        }
    }
}

/// The free map after block `b` has been taken.
pub open spec fn cleared(free: Seq<bool>, b: int) -> Seq<bool> {
    Seq::new(free.len(), |i: int| free[i] && i != b)
}

/// The free map after `n` blocks have been taken, each time the lowest free one.
pub open spec fn after(free: Seq<bool>, n: nat) -> Seq<bool>
    decreases n,
{
    if n == 0 {
        free
    } else {
        cleared(after(free, (n - 1) as nat), lowest(after(free, (n - 1) as nat)))
    }
}

/// The `n` blocks that are taken one after the other, each time the lowest free one.
pub open spec fn taken(free: Seq<bool>, n: nat) -> Seq<int> {
    Seq::new(n, |i: int| lowest(after(free, i as nat)))
}

/// The free map after the blocks of `s` have been freed.
pub open spec fn freed(free: Seq<bool>, s: Seq<int>) -> Seq<bool> {
    Seq::new(free.len(), |b: int| free[b] || s.contains(b))
}

/// There is one lowest place.
pub proof fn lemma_lowest(free: Seq<bool>, i: int)
    requires
        is_lowest(free, i),
    ensures
        lowest(free) == i,
{
    let l = lowest(free);
    assert(is_lowest(free, l));
}

/// What a change of one place does to the count.
pub proof fn lemma_count_update(free: Seq<bool>, i: int, value: bool)
    requires
        0 <= i < free.len(),
    ensures
        value && !free[i] ==> count(free.update(i, value)) == count(free) + 1,
        !value && free[i] ==> count(free.update(i, value)) == count(free) - 1,
    decreases free.len(),
{
    let g = free.update(i, value);
    if i == free.len() - 1 {
        assert(g.drop_last() =~= free.drop_last());
    } else {
        assert(g.drop_last() =~= free.drop_last().update(i, value));
        lemma_count_update(free.drop_last(), i, value);
    }
}

/// Freeing the blocks of a row from the last one down.
pub proof fn lemma_freed_next(free: Seq<bool>, map: Seq<int>, k: int, n: int)
    requires
        0 <= k < n <= map.len(),
        0 <= map[k] < free.len(),
    ensures
        freed(free, map.subrange(k, n)) == freed(free, map.subrange(k + 1, n)).update(map[k], true),
{
    let a = map.subrange(k, n);
    let b = map.subrange(k + 1, n);
    assert forall|x: int| #[trigger] a.contains(x) <==> x == map[k] || b.contains(x) by {
        if a.contains(x) {
            let i = choose|i: int| 0 <= i < a.len() && a[i] == x;
            if i > 0 {
                assert(b[i - 1] == x);
            }
        }
        if b.contains(x) {
            let i = choose|i: int| 0 <= i < b.len() && b[i] == x;
            assert(a[i + 1] == x);
        }
        if x == map[k] {
            assert(a[0] == x);
        }
    }
    assert(freed(free, a) =~= freed(free, b).update(map[k], true));
}

/// Freeing one block more.
pub proof fn lemma_freed_push(free: Seq<bool>, s: Seq<int>, b: int)
    requires
        0 <= b < free.len(),
    ensures
        freed(free, s.push(b)) == freed(free, s).update(b, true),
{
    let t = s.push(b);
    assert forall|x: int| #[trigger] t.contains(x) <==> x == b || s.contains(x) by {
        if t.contains(x) {
            let i = choose|i: int| 0 <= i < t.len() && t[i] == x;
            if i < s.len() {
                assert(s[i] == x);
            }
        }
        if s.contains(x) {
            let i = choose|i: int| 0 <= i < s.len() && s[i] == x;
            assert(t[i] == x);
        }
        if x == b {
            assert(t[s.len() as int] == x);
        }
    }
    assert(freed(free, t) =~= freed(free, s).update(b, true));
}

/// Taking blocks in two goes.
pub proof fn lemma_after_sum(free: Seq<bool>, a: nat, b: nat)
    ensures
        after(after(free, a), b) == after(free, a + b),
        after(free, a).len() == free.len(),
    decreases b, a,
{
    if b > 0 {
        lemma_after_sum(free, a, (b - 1) as nat);
    } else if a > 0 {
        lemma_after_sum(free, (a - 1) as nat, 0);
    }
}

/// No more places are set than there are.
pub proof fn lemma_count_len(free: Seq<bool>)
    ensures
        count(free) <= free.len(),
    decreases free.len(),
{
    if free.len() > 0 {
        lemma_count_len(free.drop_last());
    }
}

/// Where some place is set there is a lowest one.
proof fn lemma_has_lowest(free: Seq<bool>, i: int)
    requires
        0 <= i < free.len(),
        free[i],
    ensures
        is_lowest(free, lowest(free)),
    decreases i,
{
    if exists|j: int| 0 <= j < i && #[trigger] free[j] {
        let j = choose|j: int| 0 <= j < i && #[trigger] free[j];
        lemma_has_lowest(free, j);
    } else {
        assert(is_lowest(free, i));
    }
}

/// Where the count is not zero there is a lowest place that is set.
pub proof fn lemma_count_lowest(free: Seq<bool>)
    requires
        count(free) > 0,
    ensures
        is_lowest(free, lowest(free)),
{
    if exists|i: int| 0 <= i < free.len() && #[trigger] free[i] {
        let i = choose|i: int| 0 <= i < free.len() && #[trigger] free[i];
        lemma_has_lowest(free, i);
    } else {
        lemma_count_zero(free);
    }
}

/// Taking blocks takes as many as are asked for, each one free.
pub proof fn lemma_after_count(free: Seq<bool>, n: nat)
    requires
        n < count(free),
    ensures
        count(after(free, n)) == count(free) - n,
        is_lowest(after(free, n), lowest(after(free, n))),
        after(free, n).len() == free.len(),
    decreases n,
{
    if n > 0 {
        let m = (n - 1) as nat;
        lemma_after_count(free, m);
        let a = after(free, m);
        let b = lowest(a);
        lemma_count_update(a, b, false);
        assert(cleared(a, b) =~= a.update(b, false));
    }
    lemma_count_lowest(after(free, n));
}

/// The blocks that are taken were free, and they alone are free no longer.
pub proof fn lemma_taken(free: Seq<bool>, n: nat)
    requires
        n <= count(free),
    ensures
        after(free, n).len() == free.len(),
        forall|k: int|
            0 <= k < n ==> 0 <= #[trigger] taken(free, n)[k] < free.len() && free[taken(
                free,
                n,
            )[k]],
        forall|b: int|
            0 <= b < free.len() ==> (#[trigger] after(free, n)[b] <==> free[b] && !taken(
                free,
                n,
            ).contains(b)),
    decreases n,
{
    if n > 0 {
        let m = (n - 1) as nat;
        lemma_taken(free, m);
        lemma_after_count(free, m);
        let a = taken(free, m);
        let c = taken(free, n);
        let last = lowest(after(free, m));
        assert(c =~= a.push(last));
        assert(is_lowest(after(free, m), last));
        assert(free[last]);
        assert forall|k: int| 0 <= k < n implies 0 <= #[trigger] c[k] < free.len() && free[c[k]] by {
            if k < m {
                assert(c[k] == a[k]);
            }
        }
        assert forall|b: int| #[trigger] c.contains(b) <==> a.contains(b) || b == last by {
            if c.contains(b) {
                let k = choose|k: int| 0 <= k < c.len() && c[k] == b;
                if k < m {
                    assert(a[k] == b);
                }
            }
            if a.contains(b) {
                let k = choose|k: int| 0 <= k < a.len() && a[k] == b;
                assert(c[k] == b);
            }
            if b == last {
                assert(c[m as int] == b);
            }
        }
    }
}

/// A map in which the blocks from `lo` to `hi` are free.
pub proof fn lemma_count_range(n: nat, lo: int, hi: int)
    requires
        0 <= lo <= hi <= n,
    ensures
        count(Seq::new(n, |i: int| lo <= i < hi)) == hi - lo,
    decreases n,
{
    let s = Seq::new(n, |i: int| lo <= i < hi);
    if n > 0 {
        let m = (n - 1) as nat;
        if hi == n {
            if lo < hi {
                assert(s.drop_last() =~= Seq::new(m, |i: int| lo <= i < hi - 1));
                lemma_count_range(m, lo, hi - 1);
            } else {
                assert(s.drop_last() =~= Seq::new(m, |i: int| 0 <= i < 0));
                lemma_count_range(m, 0, 0);
            }
        } else {
            assert(s.drop_last() =~= Seq::new(m, |i: int| lo <= i < hi));
            lemma_count_range(m, lo, hi);
        }
    }
}

/// Where no place is set the count is zero.
pub proof fn lemma_count_zero(free: Seq<bool>)
    requires
        forall|j: int| 0 <= j < free.len() ==> !free[j],
    ensures
        count(free) == 0,
    decreases free.len(),
{
    if free.len() > 0 {
        lemma_count_zero(free.drop_last());
    }
}

impl Bits {
    /// Takes the lowest free block: clears its bit and returns its number.
    pub fn alloc_lowest(&mut self) -> (id: Option<usize>)
        ensures
            match id {
                Some(i) => is_lowest(bits(*old(self)), i as int) && bits(*final(self)) == bits(
                    *old(self),
                ).update(i as int, false),
                None => bits(*final(self)) == bits(*old(self)) && forall|j: int|
                    0 <= j < bits(*old(self)).len() ==> !bits(*old(self))[j],
            },
    {
        let n = bit_len(self);
        let mut i: usize = 0;
        while i < n
            invariant
                i <= n,
                n == bits(*self).len(),
                *self == *old(self),
                forall|j: int| 0 <= j < i ==> !bits(*self)[j],
            decreases n - i,
        {
            if get_bit(self, i) {
                set_bit(self, i, false);
                return Some(i);
            }
            i = i + 1;
        }
        None
    }
}

/// What is taken was free and no lower one was; only that changes. Nothing is taken only where nothing
/// is free.
pub proof fn law_lowest(map: &mut Bits, r: Option<usize>, j: int)
    requires
        call_ensures(Bits::alloc_lowest, (map,), r),
        0 <= j < bits(*map).len(),
    ensures
        bits(*final(map)).len() == bits(*old(map)).len(),
        r matches Some(i) ==> {
            &&& j < i ==> !bits(*old(map))[j]
            &&& j == i ==> bits(*old(map))[j] && !bits(*final(map))[j]
            &&& j != i ==> bits(*final(map))[j] == bits(*old(map))[j]
        },
        r is None ==> !bits(*old(map))[j] && !bits(*final(map))[j],
{
}

} // verus!
