//! Little-endian integers inside byte sequences.
use vstd::bytes::*;
use vstd::prelude::*;
use vstd::slice::slice_subrange;

verus! {

/// The `u16` stored little-endian at `off`.
pub open spec fn u16_at(s: Seq<u8>, off: int) -> u16 {
    spec_u16_from_le_bytes(s.subrange(off, off + 2))
}

/// The `u32` stored little-endian at `off`.
pub open spec fn u32_at(s: Seq<u8>, off: int) -> u32 {
    spec_u32_from_le_bytes(s.subrange(off, off + 4))
}

/// The `u64` stored little-endian at `off`.
pub open spec fn u64_at(s: Seq<u8>, off: int) -> u64 {
    spec_u64_from_le_bytes(s.subrange(off, off + 8))
}

pub fn read_u16_at(s: &[u8], off: usize) -> (v: u16)
    requires
        off + 2 <= s@.len(),
    ensures
        v == u16_at(s@, off as int),
{
    let _len = s.len();
    u16_from_le_bytes(slice_subrange(s, off, off + 2))
}

pub fn read_u32_at(s: &[u8], off: usize) -> (v: u32)
    requires
        off + 4 <= s@.len(),
    ensures
        v == u32_at(s@, off as int),
{
    let _len = s.len();
    u32_from_le_bytes(slice_subrange(s, off, off + 4))
}

pub fn read_u64_at(s: &[u8], off: usize) -> (v: u64)
    requires
        off + 8 <= s@.len(),
    ensures
        v == u64_at(s@, off as int),
{
    let _len = s.len();
    u64_from_le_bytes(slice_subrange(s, off, off + 8))
}

/// The bytes of `mid` sit at offset `a.len()` of `a + mid + b`.
pub proof fn lemma_subrange_middle(a: Seq<u8>, mid: Seq<u8>, b: Seq<u8>)
    ensures
        (a + mid + b).subrange(a.len() as int, (a.len() + mid.len()) as int) == mid,
{
    assert((a + mid + b).subrange(a.len() as int, (a.len() + mid.len()) as int) =~= mid);
}

/// A `u16` written little-endian reads back unchanged.
pub proof fn lemma_u16_at(a: Seq<u8>, x: u16, b: Seq<u8>)
    ensures
        spec_u16_to_le_bytes(x).len() == 2,
        u16_at(a + spec_u16_to_le_bytes(x) + b, a.len() as int) == x,
{
    lemma_auto_spec_u16_to_from_le_bytes();
    lemma_subrange_middle(a, spec_u16_to_le_bytes(x), b);
}

/// A `u32` written little-endian reads back unchanged.
pub proof fn lemma_u32_at(a: Seq<u8>, x: u32, b: Seq<u8>)
    ensures
        spec_u32_to_le_bytes(x).len() == 4,
        u32_at(a + spec_u32_to_le_bytes(x) + b, a.len() as int) == x,
{
    lemma_auto_spec_u32_to_from_le_bytes();
    lemma_subrange_middle(a, spec_u32_to_le_bytes(x), b);
}

/// A `u64` written little-endian reads back unchanged.
pub proof fn lemma_u64_at(a: Seq<u8>, x: u64, b: Seq<u8>)
    ensures
        spec_u64_to_le_bytes(x).len() == 8,
        u64_at(a + spec_u64_to_le_bytes(x) + b, a.len() as int) == x,
{
    lemma_auto_spec_u64_to_from_le_bytes();
    lemma_subrange_middle(a, spec_u64_to_le_bytes(x), b);
}

/// Reading at an offset inside the second part of a concatenation.
pub proof fn lemma_at_shift(a: Seq<u8>, b: Seq<u8>, off: int)
    requires
        0 <= off,
    ensures
        off + 2 <= b.len() ==> u16_at(a + b, a.len() + off) == u16_at(b, off),
        off + 4 <= b.len() ==> u32_at(a + b, a.len() + off) == u32_at(b, off),
        off + 8 <= b.len() ==> u64_at(a + b, a.len() + off) == u64_at(b, off),
{
    if off + 2 <= b.len() {
        assert((a + b).subrange(a.len() + off, a.len() + off + 2) =~= b.subrange(off, off + 2));
    }
    if off + 4 <= b.len() {
        assert((a + b).subrange(a.len() + off, a.len() + off + 4) =~= b.subrange(off, off + 4));
    }
    if off + 8 <= b.len() {
        assert((a + b).subrange(a.len() + off, a.len() + off + 8) =~= b.subrange(off, off + 8));
    }
}

/// Reading at an offset inside the first part of a concatenation.
pub proof fn lemma_at_prefix(a: Seq<u8>, b: Seq<u8>, off: int)
    requires
        0 <= off,
    ensures
        off + 2 <= a.len() ==> u16_at(a + b, off) == u16_at(a, off),
        off + 4 <= a.len() ==> u32_at(a + b, off) == u32_at(a, off),
        off + 8 <= a.len() ==> u64_at(a + b, off) == u64_at(a, off),
{
    if off + 2 <= a.len() {
        assert((a + b).subrange(off, off + 2) =~= a.subrange(off, off + 2));
    }
    if off + 4 <= a.len() {
        assert((a + b).subrange(off, off + 4) =~= a.subrange(off, off + 4));
    }
    if off + 8 <= a.len() {
        assert((a + b).subrange(off, off + 8) =~= a.subrange(off, off + 8));
    }
}

/// The little-endian bytes of `u64` words, one after the other.
pub open spec fn u64s_bytes(s: Seq<u64>) -> Seq<u8>
    decreases s.len(),
{
    if s.len() == 0 {
        Seq::empty()
    } else {
        u64s_bytes(s.drop_last()) + spec_u64_to_le_bytes(s.last())
    }
}

/// The little-endian bytes of `u32` words, one after the other.
pub open spec fn u32s_bytes(s: Seq<u32>) -> Seq<u8>
    decreases s.len(),
{
    if s.len() == 0 {
        Seq::empty()
    } else {
        u32s_bytes(s.drop_last()) + spec_u32_to_le_bytes(s.last())
    }
}

/// Each word of `u64s_bytes` sits at eight times its index.
pub proof fn lemma_u64s_bytes(a: Seq<u8>, s: Seq<u64>, b: Seq<u8>)
    ensures
        u64s_bytes(s).len() == 8 * s.len(),
        forall|i: int|
            0 <= i < s.len() ==> #[trigger] u64_at(a + u64s_bytes(s) + b, a.len() + 8 * i) == s[i],
    decreases s.len(),
{
    lemma_auto_spec_u64_to_from_le_bytes();
    if s.len() > 0 {
        let p = s.drop_last();
        let x = s.last();
        let xb = spec_u64_to_le_bytes(x);
        lemma_u64s_bytes(a, p, xb + b);
        assert forall|i: int| 0 <= i < s.len() implies #[trigger] u64_at(
            a + u64s_bytes(s) + b,
            a.len() + 8 * i,
        ) == s[i] by {
            assert(a + u64s_bytes(s) + b =~= a + u64s_bytes(p) + (xb + b));
            if i < p.len() {
                assert(u64_at(a + u64s_bytes(p) + (xb + b), a.len() + 8 * i) == p[i]);
            } else {
                lemma_u64_at(a + u64s_bytes(p), x, b);
                assert(a + u64s_bytes(s) + b =~= (a + u64s_bytes(p)) + xb + b);
            }
        }
    }
}

/// Each word of `u32s_bytes` sits at four times its index.
pub proof fn lemma_u32s_bytes(a: Seq<u8>, s: Seq<u32>, b: Seq<u8>)
    ensures
        u32s_bytes(s).len() == 4 * s.len(),
        forall|i: int|
            0 <= i < s.len() ==> #[trigger] u32_at(a + u32s_bytes(s) + b, a.len() + 4 * i) == s[i],
    decreases s.len(),
{
    lemma_auto_spec_u32_to_from_le_bytes();
    if s.len() > 0 {
        let p = s.drop_last();
        let x = s.last();
        let xb = spec_u32_to_le_bytes(x);
        lemma_u32s_bytes(a, p, xb + b);
        assert forall|i: int| 0 <= i < s.len() implies #[trigger] u32_at(
            a + u32s_bytes(s) + b,
            a.len() + 4 * i,
        ) == s[i] by {
            assert(a + u32s_bytes(s) + b =~= a + u32s_bytes(p) + (xb + b));
            if i < p.len() {
                assert(u32_at(a + u32s_bytes(p) + (xb + b), a.len() + 4 * i) == p[i]);
            } else {
                lemma_u32_at(a + u32s_bytes(p), x, b);
                assert(a + u32s_bytes(s) + b =~= (a + u32s_bytes(p)) + xb + b);
            }
        }
    }
}

/// The encodings have their fixed widths.
pub proof fn lemma_le_lengths()
    ensures
        forall|x: u16| #[trigger] spec_u16_to_le_bytes(x).len() == 2,
        forall|x: u32| #[trigger] spec_u32_to_le_bytes(x).len() == 4,
        forall|x: u64| #[trigger] spec_u64_to_le_bytes(x).len() == 8,
{
    lemma_auto_spec_u16_to_from_le_bytes();
    lemma_auto_spec_u32_to_from_le_bytes();
    lemma_auto_spec_u64_to_from_le_bytes();
}

} // verus!
