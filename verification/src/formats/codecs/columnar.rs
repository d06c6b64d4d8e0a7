use crate::errors::Result;
use crate::formats::codecs::filter::len_prefixed;
use crate::formats::codecs::{
    corrupt, decode_envelope, encode_envelope, envelope_bytes, field_u32, is_corrupt,
    lemma_envelope_roundtrip, open_envelope, read_bytes, read_u32, truncated_reason,
    BinaryFormatKind, FormatCodec,
};
use crate::io::binary::append_bytes;
use crate::le::{lemma_at_prefix, lemma_le_lengths, lemma_u32_at, u32_at};
use vstd::bytes::{spec_u32_to_le_bytes, u32_to_le_bytes};
use vstd::prelude::*;

verus! {

/// The values of one column.
#[derive(Clone, Debug, PartialEq, Eq)]
pub struct ColumnarBlock {
    pub column_id: u32,
    pub values: Vec<Vec<u8>>,
}

impl View for ColumnarBlock {
    type V = (u32, Seq<Seq<u8>>);

    open spec fn view(&self) -> (u32, Seq<Seq<u8>>) {
        (self.column_id, self.values.deep_view())
    }
}

pub struct ColumnarBlockCodec;

/// The column values, each length-prefixed, one after another.
pub open spec fn column_values_bytes(vs: Seq<Seq<u8>>) -> Seq<u8>
    decreases vs.len(),
{
    if vs.len() == 0 {
        Seq::empty()
    } else {
        column_values_bytes(vs.drop_last()) + len_prefixed(vs.last())
    }
}

/// The payload of a columnar block.
pub open spec fn columnar_payload(v: (u32, Seq<Seq<u8>>)) -> Seq<u8> {
    spec_u32_to_le_bytes(v.0) + spec_u32_to_le_bytes(v.1.len() as u32) + column_values_bytes(v.1)
}

/// Read `k` more length-prefixed values from `off` onwards, after those in
/// `acc`; gives every value read and the offset just past the last one.
pub open spec fn parse_column_values(p: Seq<u8>, off: int, k: nat, acc: Seq<Seq<u8>>) -> core::result::Result<
    (Seq<Seq<u8>>, int),
    Seq<char>,
>
    decreases k,
{
    if k == 0 {
        Ok((acc, off))
    } else {
        match field_u32(p, off) {
            None => Err(truncated_reason("column value length"@)),
            Some(l) => if off + 4 + l > p.len() {
                Err(truncated_reason("column value"@))
            } else {
                parse_column_values(
                    p,
                    off + 4 + l,
                    (k - 1) as nat,
                    acc.push(p.subrange(off + 4, off + 4 + l)),
                )
            },
        }
    }
}

/// What the columnar decoder makes of enveloped bytes.
pub open spec fn decode_columnar(b: Seq<u8>) -> core::result::Result<(u32, Seq<Seq<u8>>), Seq<char>> {
    match open_envelope(b, BinaryFormatKind::ColumnarBlock, 1) {
        Err(m) => Err(m),
        Ok(p) => match field_u32(p, 0) {
            None => Err(truncated_reason("column id"@)),
            Some(id) => match field_u32(p, 4) {
                None => Err(truncated_reason("column value count"@)),
                Some(n) => match parse_column_values(p, 8, n as nat, Seq::empty()) {
                    Err(m) => Err(m),
                    Ok((vs, end)) => if end != p.len() {
                        Err("columnar trailing bytes"@)
                    } else {
                        Ok((id, vs))
                    },
                },
            },
        },
    }
}

impl FormatCodec<ColumnarBlock> for ColumnarBlockCodec {
    fn kind() -> (k: BinaryFormatKind)
        ensures
            k == BinaryFormatKind::ColumnarBlock,
    {
        BinaryFormatKind::ColumnarBlock
    }

    fn version() -> (v: u16)
        ensures
            v == 1,
    {
        1
    }

    open spec fn decodable(bytes: Seq<u8>) -> bool {
        true
    }

    fn encode(value: &ColumnarBlock) -> (r: Result<Vec<u8>>)
        ensures
            r matches Ok(b) && b@ == envelope_bytes(
                BinaryFormatKind::ColumnarBlock,
                1,
                columnar_payload(value@),
            ),
    {
        let mut payload: Vec<u8> = Vec::new();
        append_bytes(&mut payload, u32_to_le_bytes(value.column_id).as_slice());
        append_bytes(&mut payload, u32_to_le_bytes(value.values.len() as u32).as_slice());
        let ghost head = payload@;
        let ghost vs = value.values.deep_view();
        let mut i: usize = 0;
        while i < value.values.len()
            invariant
                vs == value.values.deep_view(),
                vs.len() == value.values@.len(),
                i <= vs.len(),
                payload@ == head + column_values_bytes(vs.take(i as int)),
            decreases vs.len() - i,
        {
            let item = &value.values[i];
            append_bytes(&mut payload, u32_to_le_bytes(item.len() as u32).as_slice());
            append_bytes(&mut payload, item.as_slice());
            proof {
                assert(item.deep_view() =~= item@);
                assert(vs[i as int] == item@);
                assert(vs.take(i + 1).drop_last() =~= vs.take(i as int));
                assert(payload@ =~= head + column_values_bytes(vs.take(i + 1)));
            }
            i = i + 1;
        }
        proof {
            assert(vs.take(i as int) =~= vs);
        }
        Ok(encode_envelope(BinaryFormatKind::ColumnarBlock, 1, payload.as_slice()))
    }

    #[verifier::loop_isolation(false)]
    fn decode(bytes: &[u8]) -> (r: Result<ColumnarBlock>)
        ensures
            match (r, decode_columnar(bytes@)) {
                (Ok(v), Ok(w)) => v@ == w,
                (Err(e), Err(m)) => is_corrupt(e, m),
                _ => false,
            },
    {
        let payload = decode_envelope(bytes, BinaryFormatKind::ColumnarBlock, 1)?;
        let mut offset: usize = 0;
        let column_id = read_u32(payload, &mut offset, "column id")?;
        let count = read_u32(payload, &mut offset, "column value count")?;
        let mut values: Vec<Vec<u8>> = Vec::new();
        proof {
            assert(values.deep_view() =~= Seq::<Seq<u8>>::empty());
        }
        let mut i: u32 = 0;
        while i < count
            invariant
                i <= count,
                offset <= payload@.len(),
                parse_column_values(payload@, 8, count as nat, Seq::empty())
                    == parse_column_values(
                    payload@,
                    offset as int,
                    (count - i) as nat,
                    values.deep_view(),
                ),
            decreases count - i,
        {
            let ghost before = values.deep_view();
            let len = read_u32(payload, &mut offset, "column value length")?;
            let item = read_bytes(payload, &mut offset, len as usize, "column value")?;
            let ghost iv = item@;
            proof {
                assert(item.deep_view() =~= iv);
            }
            values.push(item);
            proof {
                assert(values.deep_view() =~= before.push(iv));
            }
            i = i + 1;
        }
        if offset != payload.len() {
            return Err(corrupt("columnar trailing bytes"));
        }
        Ok(ColumnarBlock { column_id, values })
    }
}

/// The encoding of a prefix of the values is a prefix of the encoding of
/// them all.
proof fn lemma_column_values_prefix(vs: Seq<Seq<u8>>, j: int)
    requires
        0 <= j <= vs.len(),
    ensures
        column_values_bytes(vs.take(j)).len() <= column_values_bytes(vs).len(),
        column_values_bytes(vs).take(column_values_bytes(vs.take(j)).len() as int)
            =~= column_values_bytes(vs.take(j)),
    decreases vs.len(),
{
    if j == vs.len() {
        assert(vs.take(j) =~= vs);
    } else {
        lemma_column_values_prefix(vs.drop_last(), j);
        assert(vs.drop_last().take(j) =~= vs.take(j));
        let a = column_values_bytes(vs.drop_last());
        let b = len_prefixed(vs.last());
        let n = column_values_bytes(vs.take(j)).len() as int;
        assert((a + b).take(n) =~= a.take(n));
    }
}

/// Reading the values back from the encoding of all of them, having read the
/// first `j`, yields them all and ends at the end of the encoding.
proof fn lemma_parse_column_values(h: Seq<u8>, vs: Seq<Seq<u8>>, j: int)
    requires
        0 <= j <= vs.len(),
        forall|i: int| 0 <= i < vs.len() ==> #[trigger] vs[i].len() <= u32::MAX,
    ensures
        parse_column_values(
            h + column_values_bytes(vs),
            h.len() + column_values_bytes(vs.take(j)).len() as int,
            (vs.len() - j) as nat,
            vs.take(j),
        ) == core::result::Result::<(Seq<Seq<u8>>, int), Seq<char>>::Ok(
            (vs, (h + column_values_bytes(vs)).len() as int),
        ),
    decreases vs.len() - j,
{
    lemma_le_lengths();
    let p = h + column_values_bytes(vs);
    if j == vs.len() {
        assert(vs.take(j) =~= vs);
    } else {
        let off: int = h.len() + column_values_bytes(vs.take(j)).len() as int;
        let item = vs[j];
        lemma_column_values_prefix(vs, j + 1);
        assert(vs.take(j + 1).drop_last() =~= vs.take(j));
        let pre = column_values_bytes(vs.take(j));
        let big = column_values_bytes(vs.take(j + 1));
        assert(big == pre + len_prefixed(item));
        let rest = column_values_bytes(vs).skip(big.len() as int);
        assert(column_values_bytes(vs) =~= big + rest);
        assert(p =~= (h + pre) + spec_u32_to_le_bytes(item.len() as u32) + (item + rest));
        lemma_u32_at(h + pre, item.len() as u32, item + rest);
        assert(field_u32(p, off) == Some(item.len() as u32));
        assert(p.subrange(off + 4, off + 4 + item.len() as int) =~= item);
        assert(vs.take(j).push(item) =~= vs.take(j + 1));
        lemma_parse_column_values(h, vs, j + 1);
    }
}

/// Decoding an encoded columnar block gives it back.
pub proof fn lemma_columnar_roundtrip(v: (u32, Seq<Seq<u8>>))
    requires
        8 + column_values_bytes(v.1).len() <= u32::MAX,
        v.1.len() <= u32::MAX,
        forall|i: int| 0 <= i < v.1.len() ==> #[trigger] v.1[i].len() <= u32::MAX,
    ensures
        decode_columnar(envelope_bytes(BinaryFormatKind::ColumnarBlock, 1, columnar_payload(v)))
            == core::result::Result::<(u32, Seq<Seq<u8>>), Seq<char>>::Ok(v),
{
    lemma_le_lengths();
    let p = columnar_payload(v);
    lemma_envelope_roundtrip(BinaryFormatKind::ColumnarBlock, 1, p);
    let e = Seq::<u8>::empty();
    let a = spec_u32_to_le_bytes(v.0);
    let c = spec_u32_to_le_bytes(v.1.len() as u32);
    let body = column_values_bytes(v.1);
    lemma_u32_at(e, v.0, c + body);
    assert(p =~= e + a + (c + body));
    lemma_u32_at(a, v.1.len() as u32, body);
    assert(p =~= a + c + body);
    assert(v.1.take(0) =~= Seq::<Seq<u8>>::empty());
    lemma_parse_column_values(a + c, v.1, 0);
    assert(p =~= (a + c) + body);
}

} // verus!
