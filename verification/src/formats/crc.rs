//! CRC-32 (IEEE) through the `crc32fast` crate.
use vstd::prelude::*;

verus! {

#[verifier::external_type_specification]
#[verifier::external_body]
pub struct ExCrc32Hasher(crc32fast::Hasher);

/// The bytes a `crc32fast::Hasher` has absorbed since it was created.
pub uninterp spec fn crc32_absorbed(h: crc32fast::Hasher) -> Seq<u8>;

/// The reflected CRC-32 (IEEE 802.3) polynomial.
pub const CRC32_POLY: u32 = 0xEDB8_8320;

/// One bit step of the reflected CRC-32 register.
pub open spec fn crc32_bit(c: u32) -> u32 {
    if c & 1 == 1 {
        (c >> 1) ^ CRC32_POLY
    } else {
        c >> 1
    }
}

/// The register after absorbing one byte, low bit first.
pub open spec fn crc32_byte(crc: u32, b: u8) -> u32 {
    let c0 = crc ^ (b as u32);
    crc32_bit(crc32_bit(crc32_bit(crc32_bit(crc32_bit(crc32_bit(crc32_bit(crc32_bit(c0))))))))
}

/// The register after absorbing every byte of `data`, in order.
pub open spec fn crc32_register(init: u32, data: Seq<u8>) -> u32
    decreases data.len(),
{
    if data.len() == 0 {
        init
    } else {
        crc32_byte(crc32_register(init, data.drop_last()), data.last())
    }
}

/// The CRC-32 (IEEE) checksum of a byte sequence: the register started at
/// all ones, every byte absorbed, and the result inverted.
pub open spec fn spec_crc32(data: Seq<u8>) -> u32 {
    !crc32_register(0xFFFF_FFFFu32, data)
}

/// `crc32fast::Hasher::new`: a hasher that has absorbed nothing.
#[verifier::external_body]
pub(crate) fn crc32_hasher_new() -> (h: crc32fast::Hasher)
    ensures
        crc32_absorbed(h) == Seq::<u8>::empty(),
{
    crc32fast::Hasher::new()
}

/// `crc32fast::Hasher::update`: the hasher absorbs `data` after what it held.
#[verifier::external_body]
pub(crate) fn crc32_hasher_update(h: &mut crc32fast::Hasher, data: &[u8])
    ensures
        crc32_absorbed(*final(h)) == crc32_absorbed(*old(h)) + data@,
{
    h.update(data)
}

/// `crc32fast::Hasher::finalize`: the CRC-32 (IEEE) of every byte absorbed,
/// as defined above.
#[verifier::external_body]
pub(crate) fn crc32_hasher_finalize(h: crc32fast::Hasher) -> (crc: u32)
    ensures
        crc == spec_crc32(crc32_absorbed(h)),
{
    h.finalize()
}


/// The bit step sends different registers to different registers.
proof fn lemma_crc32_bit_injective(a: u32, b: u32)
    requires
        a != b,
    ensures
        crc32_bit(a) != crc32_bit(b),
{
    assert(a != b ==> (if a & 1 == 1 { (a >> 1) ^ 0xEDB8_8320u32 } else { a >> 1 }) != (if b & 1 == 1 {
        (b >> 1) ^ 0xEDB8_8320u32
    } else {
        b >> 1
    })) by (bit_vector);
}

/// Absorbing a byte sends different inputs (register mixed with byte) to
/// different registers.
proof fn lemma_crc32_byte_injective(r1: u32, b1: u8, r2: u32, b2: u8)
    requires
        r1 ^ (b1 as u32) != r2 ^ (b2 as u32),
    ensures
        crc32_byte(r1, b1) != crc32_byte(r2, b2),
{
    let x0 = r1 ^ (b1 as u32);
    let y0 = r2 ^ (b2 as u32);
    lemma_crc32_bit_injective(x0, y0);
    let (x1, y1) = (crc32_bit(x0), crc32_bit(y0));
    lemma_crc32_bit_injective(x1, y1);
    let (x2, y2) = (crc32_bit(x1), crc32_bit(y1));
    lemma_crc32_bit_injective(x2, y2);
    let (x3, y3) = (crc32_bit(x2), crc32_bit(y2));
    lemma_crc32_bit_injective(x3, y3);
    let (x4, y4) = (crc32_bit(x3), crc32_bit(y3));
    lemma_crc32_bit_injective(x4, y4);
    let (x5, y5) = (crc32_bit(x4), crc32_bit(y4));
    lemma_crc32_bit_injective(x5, y5);
    let (x6, y6) = (crc32_bit(x5), crc32_bit(y5));
    lemma_crc32_bit_injective(x6, y6);
    let (x7, y7) = (crc32_bit(x6), crc32_bit(y6));
    lemma_crc32_bit_injective(x7, y7);
}

/// The registers over two inputs of one length that differ in exactly one
/// byte, at `i`, differ from that byte on.
proof fn lemma_crc32_diverges(init: u32, p: Seq<u8>, q: Seq<u8>, i: int, k: int)
    requires
        p.len() == q.len(),
        0 <= i < k <= p.len(),
        p[i] != q[i],
        forall|j: int| 0 <= j < p.len() && j != i ==> p[j] == q[j],
    ensures
        crc32_register(init, p.take(k)) != crc32_register(init, q.take(k)),
    decreases k,
{
    assert(p.take(k).drop_last() =~= p.take(k - 1));
    assert(q.take(k).drop_last() =~= q.take(k - 1));
    let r1 = crc32_register(init, p.take(k - 1));
    let r2 = crc32_register(init, q.take(k - 1));
    if k - 1 == i {
        assert(p.take(i) =~= q.take(i)) by {
            assert forall|j: int| 0 <= j < i implies p.take(i)[j] == q.take(i)[j] by {}
        }
        let b1 = p[i];
        let b2 = q[i];
        assert(r1 ^ (b1 as u32) != r1 ^ (b2 as u32)) by (bit_vector)
            requires
                b1 != b2,
        ;
        lemma_crc32_byte_injective(r1, b1, r1, b2);
    } else {
        lemma_crc32_diverges(init, p, q, i, k - 1);
        let b = p[k - 1];
        assert(q[k - 1] == b);
        assert(r1 ^ (b as u32) != r2 ^ (b as u32)) by (bit_vector)
            requires
                r1 != r2,
        ;
        lemma_crc32_byte_injective(r1, b, r2, b);
    }
}

/// Changing any one byte of the data changes its CRC-32.
pub proof fn lemma_crc32_detects_byte_change(p: Seq<u8>, i: int, x: u8)
    requires
        0 <= i < p.len(),
        x != p[i],
    ensures
        spec_crc32(p.update(i, x)) != spec_crc32(p),
{
    let q = p.update(i, x);
    lemma_crc32_diverges(0xFFFF_FFFFu32, q, p, i, p.len() as int);
    assert(p.take(p.len() as int) =~= p);
    assert(q.take(q.len() as int) =~= q);
    let a = crc32_register(0xFFFF_FFFFu32, q);
    let b = crc32_register(0xFFFF_FFFFu32, p);
    assert(!a != !b) by (bit_vector)
        requires
            a != b,
    ;
}

} // verus!
