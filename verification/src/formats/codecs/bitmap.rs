use crate::errors::Result;
use crate::formats::codecs::{
    decode_envelope, encode_envelope, envelope_bytes, is_corrupt, lemma_envelope_roundtrip,
    open_envelope, BinaryFormatKind, FormatCodec,
};
use crate::io::binary::append_bytes;
use crate::le::{lemma_le_lengths, lemma_u32_at, lemma_u64s_bytes, read_u32_at, read_u64_at, u32_at, u64_at, u64s_bytes};
use vstd::bytes::{spec_u32_to_le_bytes, u32_to_le_bytes, u64_to_le_bytes};
use vstd::prelude::*;

verus! {

/// A bitmap as a run of 64-bit words.
#[derive(Clone, Debug, PartialEq, Eq)]
pub struct BitmapBlock {
    pub bits: Vec<u64>,
}

pub struct BitmapCodec;

/// The payload of a bitmap block: the word count, then the words.
pub open spec fn bitmap_payload(bits: Seq<u64>) -> Seq<u8> {
    spec_u32_to_le_bytes(bits.len() as u32) + u64s_bytes(bits)
}

/// How many words a bitmap payload yields: the stored count, capped by the
/// whole words that follow it.
pub open spec fn bitmap_word_count(p: Seq<u8>) -> nat {
    let stored = u32_at(p, 0) as nat;
    let room = ((p.len() - 4) / 8) as nat;
    if stored <= room {
        stored
    } else {
        room
    }
}

/// What the bitmap decoder makes of enveloped bytes.
pub open spec fn decode_bitmap(b: Seq<u8>) -> core::result::Result<Seq<u64>, Seq<char>> {
    match open_envelope(b, BinaryFormatKind::Bitmap, 1) {
        Err(m) => Err(m),
        Ok(p) => Ok(Seq::new(bitmap_word_count(p), |i: int| u64_at(p, 4 + 8 * i))),
    }
}

impl FormatCodec<BitmapBlock> for BitmapCodec {
    fn kind() -> (k: BinaryFormatKind)
        ensures
            k == BinaryFormatKind::Bitmap,
    {
        BinaryFormatKind::Bitmap
    }

    fn version() -> (v: u16)
        ensures
            v == 1,
    {
        1
    }

    /// The decoder reads the word count without a bounds check, so an
    /// envelope that opens must hold at least those four bytes.
    open spec fn decodable(bytes: Seq<u8>) -> bool {
        match open_envelope(bytes, BinaryFormatKind::Bitmap, 1) {
            Ok(p) => p.len() >= 4,
            Err(_) => true,
        }
    }

    fn encode(value: &BitmapBlock) -> (r: Result<Vec<u8>>)
        ensures
            r matches Ok(b) && b@ == envelope_bytes(
                BinaryFormatKind::Bitmap,
                1,
                bitmap_payload(value.bits@),
            ),
    {
        let mut payload: Vec<u8> = Vec::new();
        append_bytes(&mut payload, u32_to_le_bytes(value.bits.len() as u32).as_slice());
        let ghost head = payload@;
        let mut i: usize = 0;
        while i < value.bits.len()
            invariant
                i <= value.bits@.len(),
                payload@ == head + u64s_bytes(value.bits@.take(i as int)),
            decreases value.bits@.len() - i,
        {
            append_bytes(&mut payload, u64_to_le_bytes(value.bits[i]).as_slice());
            proof {
                assert(value.bits@.take(i + 1).drop_last() =~= value.bits@.take(i as int));
            }
            i = i + 1;
        }
        proof {
            assert(value.bits@.take(i as int) =~= value.bits@);
        }
        Ok(encode_envelope(BinaryFormatKind::Bitmap, 1, payload.as_slice()))
    }

    fn decode(bytes: &[u8]) -> (r: Result<BitmapBlock>)
        ensures
            match (r, decode_bitmap(bytes@)) {
                (Ok(v), Ok(w)) => v.bits@ == w,
                (Err(e), Err(m)) => is_corrupt(e, m),
                _ => false,
            },
    {
        let payload = decode_envelope(bytes, BinaryFormatKind::Bitmap, 1)?;
        let stored = read_u32_at(payload, 0);
        let room = (payload.len() - 4) / 8;
        let n: usize = if (stored as usize) <= room {
            stored as usize
        } else {
            room
        };
        let mut bits: Vec<u64> = Vec::new();
        let mut i: usize = 0;
        while i < n
            invariant
                n == bitmap_word_count(payload@),
                n <= (payload@.len() - 4) / 8,
                4 + 8 * n <= payload@.len(),
                i <= n,
                bits@ == Seq::new(i as nat, |j: int| u64_at(payload@, 4 + 8 * j)),
            decreases n - i,
        {
            assert(4 + 8 * i + 8 <= 4 + 8 * n);
            assert(payload@.len() == payload.len());
            let w = read_u64_at(payload, 4 + 8 * i);
            bits.push(w);
            i = i + 1;
            proof {
                assert(bits@ =~= Seq::new(i as nat, |j: int| u64_at(payload@, 4 + 8 * j)));
            }
        }
        Ok(BitmapBlock { bits })
    }
}

/// Decoding an encoded bitmap gives its words back.
pub proof fn lemma_bitmap_roundtrip(bits: Seq<u64>)
    requires
        4 + 8 * bits.len() <= u32::MAX,
    ensures
        decode_bitmap(envelope_bytes(BinaryFormatKind::Bitmap, 1, bitmap_payload(bits)))
            == core::result::Result::<Seq<u64>, Seq<char>>::Ok(bits),
        BitmapCodec::decodable(envelope_bytes(BinaryFormatKind::Bitmap, 1, bitmap_payload(bits))),
{
    lemma_le_lengths();
    let p = bitmap_payload(bits);
    let e = Seq::<u8>::empty();
    let c = spec_u32_to_le_bytes(bits.len() as u32);
    lemma_u64s_bytes(c, bits, e);
    lemma_envelope_roundtrip(BinaryFormatKind::Bitmap, 1, p);
    lemma_u32_at(e, bits.len() as u32, u64s_bytes(bits));
    assert(p =~= e + c + u64s_bytes(bits));
    assert(p =~= c + u64s_bytes(bits) + e);
    assert(bitmap_word_count(p) == bits.len());
    assert(Seq::new(bitmap_word_count(p), |i: int| u64_at(p, 4 + 8 * i)) =~= bits);
}

} // verus!
