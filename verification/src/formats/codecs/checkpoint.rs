use crate::errors::Result;
use crate::formats::codecs::{
    corrupt, decode_envelope, encode_envelope, envelope_bytes, field_u64, is_corrupt,
    lemma_envelope_roundtrip, open_envelope, read_u64, truncated_reason, BinaryFormatKind,
    FormatCodec,
};
use crate::io::binary::append_bytes;
use crate::le::{lemma_le_lengths, lemma_u64_at, u64_at};
use vstd::bytes::{spec_u64_to_le_bytes, u64_to_le_bytes};
use vstd::prelude::*;

verus! {

/// A checkpoint: the WAL sequence it covers and the manifest epoch.
#[derive(Clone, Copy, Debug, PartialEq, Eq, Structural)]
pub struct CheckpointBlock {
    pub sequence: u64,
    pub manifest_epoch: u64,
}

pub struct CheckpointCodec;

/// The 16-byte payload of a checkpoint.
pub open spec fn checkpoint_payload(v: CheckpointBlock) -> Seq<u8> {
    spec_u64_to_le_bytes(v.sequence) + spec_u64_to_le_bytes(v.manifest_epoch)
}

/// What the checkpoint decoder makes of enveloped bytes.
pub open spec fn decode_checkpoint(b: Seq<u8>) -> core::result::Result<CheckpointBlock, Seq<char>> {
    match open_envelope(b, BinaryFormatKind::Checkpoint, 1) {
        Err(m) => Err(m),
        Ok(p) => if p.len() < 8 {
            Err(truncated_reason("checkpoint sequence"@))
        } else if p.len() < 16 {
            Err(truncated_reason("checkpoint manifest epoch"@))
        } else if p.len() != 16 {
            Err("checkpoint trailing bytes"@)
        } else {
            Ok(CheckpointBlock { sequence: u64_at(p, 0), manifest_epoch: u64_at(p, 8) })
        },
    }
}

impl FormatCodec<CheckpointBlock> for CheckpointCodec {
    fn kind() -> (k: BinaryFormatKind)
        ensures
            k == BinaryFormatKind::Checkpoint,
    {
        BinaryFormatKind::Checkpoint
    }

    fn version() -> (v: u16)
        ensures
            v == 1,
    {
        1
    }

    open spec fn decodable(bytes: Seq<u8>) -> bool {
        true
    }

    fn encode(value: &CheckpointBlock) -> (r: Result<Vec<u8>>)
        ensures
            r matches Ok(b) && b@ == envelope_bytes(
                BinaryFormatKind::Checkpoint,
                1,
                checkpoint_payload(*value),
            ),
    {
        let mut payload: Vec<u8> = Vec::new();
        append_bytes(&mut payload, u64_to_le_bytes(value.sequence).as_slice());
        append_bytes(&mut payload, u64_to_le_bytes(value.manifest_epoch).as_slice());
        Ok(encode_envelope(BinaryFormatKind::Checkpoint, 1, payload.as_slice()))
    }

    fn decode(bytes: &[u8]) -> (r: Result<CheckpointBlock>)
        ensures
            match (r, decode_checkpoint(bytes@)) {
                (Ok(v), Ok(w)) => v == w,
                (Err(e), Err(m)) => is_corrupt(e, m),
                _ => false,
            },
    {
        let payload = decode_envelope(bytes, BinaryFormatKind::Checkpoint, 1)?;
        let mut offset: usize = 0;
        let sequence = read_u64(payload, &mut offset, "checkpoint sequence")?;
        let manifest_epoch = read_u64(payload, &mut offset, "checkpoint manifest epoch")?;
        if offset != payload.len() {
            return Err(corrupt("checkpoint trailing bytes"));
        }
        Ok(CheckpointBlock { sequence, manifest_epoch })
    }
}

/// Decoding an encoded checkpoint gives it back.
pub proof fn lemma_checkpoint_roundtrip(v: CheckpointBlock)
    ensures
        decode_checkpoint(envelope_bytes(BinaryFormatKind::Checkpoint, 1, checkpoint_payload(v)))
            == core::result::Result::<CheckpointBlock, Seq<char>>::Ok(v),
{
    lemma_le_lengths();
    let p = checkpoint_payload(v);
    lemma_envelope_roundtrip(BinaryFormatKind::Checkpoint, 1, p);
    let e = Seq::<u8>::empty();
    lemma_u64_at(e, v.sequence, spec_u64_to_le_bytes(v.manifest_epoch));
    assert(p =~= e + spec_u64_to_le_bytes(v.sequence) + spec_u64_to_le_bytes(v.manifest_epoch));
    lemma_u64_at(spec_u64_to_le_bytes(v.sequence), v.manifest_epoch, e);
    assert(p =~= spec_u64_to_le_bytes(v.sequence) + spec_u64_to_le_bytes(v.manifest_epoch) + e);
}

} // verus!
