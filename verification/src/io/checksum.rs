//! CRC-32C (Castagnoli) checksums of the engine's snapshot and page frames.
use vstd::prelude::*;

verus! {

/// The reflected CRC-32C polynomial.
pub const CRC32C_POLY: u32 = 0x82F6_3B78;

/// One bit step of the reflected CRC-32C register.
pub open spec fn crc32c_bit(c: u32) -> u32 {
    if c & 1 == 1 {
        (c >> 1) ^ CRC32C_POLY
    } else {
        c >> 1
    }
}

/// The register after absorbing one byte.
pub open spec fn crc32c_byte(crc: u32, b: u8) -> u32 {
    let c0 = crc ^ (b as u32);
    let c1 = crc32c_bit(c0);
    let c2 = crc32c_bit(c1);
    let c3 = crc32c_bit(c2);
    let c4 = crc32c_bit(c3);
    let c5 = crc32c_bit(c4);
    let c6 = crc32c_bit(c5);
    let c7 = crc32c_bit(c6);
    crc32c_bit(c7)
}

/// The register after absorbing every byte of `data`, in order.
pub open spec fn crc32c_register(init: u32, data: Seq<u8>) -> u32
    decreases data.len(),
{
    if data.len() == 0 {
        init
    } else {
        crc32c_byte(crc32c_register(init, data.drop_last()), data.last())
    }
}

/// The CRC-32C checksum of `data`.
pub open spec fn spec_crc32c(data: Seq<u8>) -> u32 {
    !crc32c_register(0xFFFF_FFFFu32, data)
}

fn crc32c_bit_exec(c: u32) -> (r: u32)
    ensures
        r == crc32c_bit(c),
{
    if c & 1 == 1 {
        (c >> 1) ^ CRC32C_POLY
    } else {
        c >> 1
    }
}

fn crc32c_byte_exec(crc: u32, b: u8) -> (r: u32)
    ensures
        r == crc32c_byte(crc, b),
{
    let mut c = crc ^ (b as u32);
    c = crc32c_bit_exec(c);
    c = crc32c_bit_exec(c);
    c = crc32c_bit_exec(c);
    c = crc32c_bit_exec(c);
    c = crc32c_bit_exec(c);
    c = crc32c_bit_exec(c);
    c = crc32c_bit_exec(c);
    crc32c_bit_exec(c)
}

/// Compute the CRC-32C checksum of `data`.
pub fn crc32c(data: &[u8]) -> (crc: u32)
    ensures
        crc == spec_crc32c(data@),
{
    let mut reg: u32 = 0xFFFF_FFFF;
    let mut i: usize = 0;
    while i < data.len()
        invariant
            i <= data@.len(),
            reg == crc32c_register(0xFFFF_FFFFu32, data@.take(i as int)),
        decreases data@.len() - i,
    {
        proof {
            assert(data@.take(i + 1).drop_last() =~= data@.take(i as int));
        }
        reg = crc32c_byte_exec(reg, data[i]);
        i = i + 1;
    }
    proof {
        assert(data@.take(i as int) =~= data@);
    }
    !reg
}


/// The bit step sends different registers to different registers.
proof fn lemma_bit_injective(a: u32, b: u32)
    requires
        a != b,
    ensures
        crc32c_bit(a) != crc32c_bit(b),
{
    assert(a != b ==> (if a & 1 == 1 { (a >> 1) ^ 0x82F6_3B78u32 } else { a >> 1 }) != (if b & 1 == 1 {
        (b >> 1) ^ 0x82F6_3B78u32
    } else {
        b >> 1
    })) by (bit_vector);
}

/// Absorbing a byte sends different inputs (register mixed with byte) to
/// different registers.
proof fn lemma_byte_injective(r1: u32, b1: u8, r2: u32, b2: u8)
    requires
        r1 ^ (b1 as u32) != r2 ^ (b2 as u32),
    ensures
        crc32c_byte(r1, b1) != crc32c_byte(r2, b2),
{
    let x0 = r1 ^ (b1 as u32);
    let y0 = r2 ^ (b2 as u32);
    lemma_bit_injective(x0, y0);
    let x1 = crc32c_bit(x0);
    let y1 = crc32c_bit(y0);
    lemma_bit_injective(x1, y1);
    let x2 = crc32c_bit(x1);
    let y2 = crc32c_bit(y1);
    lemma_bit_injective(x2, y2);
    let x3 = crc32c_bit(x2);
    let y3 = crc32c_bit(y2);
    lemma_bit_injective(x3, y3);
    let x4 = crc32c_bit(x3);
    let y4 = crc32c_bit(y3);
    lemma_bit_injective(x4, y4);
    let x5 = crc32c_bit(x4);
    let y5 = crc32c_bit(y4);
    lemma_bit_injective(x5, y5);
    let x6 = crc32c_bit(x5);
    let y6 = crc32c_bit(y5);
    lemma_bit_injective(x6, y6);
    let x7 = crc32c_bit(x6);
    let y7 = crc32c_bit(y6);
    lemma_bit_injective(x7, y7);
}

/// The registers over two inputs of one length that differ in exactly one
/// byte, at `i`, differ from that byte on.
proof fn lemma_register_diverges(init: u32, p: Seq<u8>, q: Seq<u8>, i: int, k: int)
    requires
        p.len() == q.len(),
        0 <= i < k <= p.len(),
        p[i] != q[i],
        forall|j: int| 0 <= j < p.len() && j != i ==> p[j] == q[j],
    ensures
        crc32c_register(init, p.take(k)) != crc32c_register(init, q.take(k)),
    decreases k,
{
    let pk = p.take(k);
    let qk = q.take(k);
    assert(pk.drop_last() =~= p.take(k - 1));
    assert(qk.drop_last() =~= q.take(k - 1));
    let r1 = crc32c_register(init, p.take(k - 1));
    let r2 = crc32c_register(init, q.take(k - 1));
    if k - 1 == i {
        assert(p.take(i) =~= q.take(i)) by {
            assert forall|j: int| 0 <= j < i implies p.take(i)[j] == q.take(i)[j] by {}
        }
        let b1 = p[i];
        let b2 = q[i];
        assert(r1 ^ (b1 as u32) != r1 ^ (b2 as u32)) by (bit_vector)
            requires
                b1 != b2,
        ;
        lemma_byte_injective(r1, b1, r1, b2);
    } else {
        lemma_register_diverges(init, p, q, i, k - 1);
        let b = p[k - 1];
        assert(q[k - 1] == b);
        assert(r1 ^ (b as u32) != r2 ^ (b as u32)) by (bit_vector)
            requires
                r1 != r2,
        ;
        lemma_byte_injective(r1, b, r2, b);
    }
}

/// Changing any one byte of the data changes its CRC-32C checksum.
pub proof fn lemma_crc32c_detects_byte_change(p: Seq<u8>, i: int, x: u8)
    requires
        0 <= i < p.len(),
        x != p[i],
    ensures
        spec_crc32c(p.update(i, x)) != spec_crc32c(p),
{
    let q = p.update(i, x);
    lemma_register_diverges(0xFFFF_FFFFu32, q, p, i, p.len() as int);
    assert(p.take(p.len() as int) =~= p);
    assert(q.take(q.len() as int) =~= q);
    let a = crc32c_register(0xFFFF_FFFFu32, q);
    let b = crc32c_register(0xFFFF_FFFFu32, p);
    assert(!a != !b) by (bit_vector)
        requires
            a != b,
    ;
}

} // verus!
