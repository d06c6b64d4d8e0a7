//! Little-endian byte writer and reader used by every snapshot format.
use crate::errors::{Result, TridentError};
use vstd::bytes::*;
use vstd::prelude::*;
use vstd::slice::slice_subrange;

verus! {

/// Append `data` to `out`.
pub fn append_bytes(out: &mut Vec<u8>, data: &[u8])
    ensures
        final(out)@ == old(out)@ + data@,
{
    let mut i: usize = 0;
    while i < data.len()
        invariant
            i <= data@.len(),
            out@ == old(out)@ + data@.take(i as int),
        decreases data@.len() - i,
    {
        out.push(data[i]);
        proof {
            assert(data@.take(i + 1) =~= data@.take(i as int).push(data@[i as int]));
        }
        i = i + 1;
    }
    proof {
        assert(data@.take(i as int) =~= data@);
    }
}

/// Copy `data` into a new vector.
pub fn copy_bytes(data: &[u8]) -> (out: Vec<u8>)
    ensures
        out@ == data@,
{
    let mut out: Vec<u8> = Vec::new();
    append_bytes(&mut out, data);
    out
}

/// An append-only little-endian byte buffer.
pub struct BinaryWriter {
    bytes: Vec<u8>,
}

impl View for BinaryWriter {
    type V = Seq<u8>;

    closed spec fn view(&self) -> Seq<u8> {
        self.bytes@
    }
}

impl BinaryWriter {
    pub fn new() -> (w: Self)
        ensures
            w@ == Seq::<u8>::empty(),
    {
        BinaryWriter { bytes: Vec::new() }
    }

    pub fn write_u8(&mut self, value: u8)
        ensures
            final(self)@ == old(self)@.push(value),
    {
        self.bytes.push(value);
    }

    pub fn write_u32(&mut self, value: u32)
        ensures
            final(self)@ == old(self)@ + spec_u32_to_le_bytes(value),
    {
        let b = u32_to_le_bytes(value);
        append_bytes(&mut self.bytes, b.as_slice());
    }

    pub fn write_u64(&mut self, value: u64)
        ensures
            final(self)@ == old(self)@ + spec_u64_to_le_bytes(value),
    {
        let b = u64_to_le_bytes(value);
        append_bytes(&mut self.bytes, b.as_slice());
    }

    pub fn write_bytes(&mut self, bytes: &[u8])
        ensures
            final(self)@ == old(self)@ + bytes@,
    {
        append_bytes(&mut self.bytes, bytes);
    }

    /// Write the length of `bytes` as a `u32` (its low 32 bits, should it
    /// not fit), then the bytes.
    pub fn write_len_bytes(&mut self, bytes: &[u8])
        ensures
            final(self)@ == old(self)@ + spec_u32_to_le_bytes(bytes@.len() as u32) + bytes@,
    {
        self.write_u32(bytes.len() as u32);
        self.write_bytes(bytes);
    }

    pub fn into_inner(self) -> (out: Vec<u8>)
        ensures
            out@ == self@,
    {
        self.bytes
    }

    pub fn len(&self) -> (n: usize)
        ensures
            n == self@.len(),
    {
        self.bytes.len()
    }

    pub fn is_empty(&self) -> (b: bool)
        ensures
            b <==> self@.len() == 0,
    {
        self.bytes.len() == 0
    }
}

/// The error every reader raises when its input ends early.
pub open spec fn is_end_of_data(e: TridentError, source: Seq<char>) -> bool {
    e matches TridentError::Corrupt { path, reason } && path@ == source
        && reason@ == "unexpected end of data"@
}

/// A little-endian cursor over a byte slice.
pub struct BinaryReader<'a> {
    bytes: &'a [u8],
    pos: usize,
    source: String,
}

impl<'a> BinaryReader<'a> {
    /// The bytes the reader reads from.
    pub closed spec fn data(&self) -> Seq<u8> {
        self.bytes@
    }

    /// How many bytes have been consumed.
    pub closed spec fn pos(&self) -> int {
        self.pos as int
    }

    /// The name reported in errors.
    pub closed spec fn source(&self) -> Seq<char> {
        self.source@
    }

    pub closed spec fn wf(&self) -> bool {
        self.pos <= self.bytes@.len()
    }

    /// The bytes not yet consumed.
    pub open spec fn remaining(&self) -> Seq<u8> {
        self.data().subrange(self.pos(), self.data().len() as int)
    }

    pub fn new(bytes: &'a [u8], source: &str) -> (r: Self)
        ensures
            r.wf(),
            r.data() == bytes@,
            r.pos() == 0,
            r.source() == source@,
    {
        BinaryReader { bytes, pos: 0, source: source.to_owned() }
    }

    /// A well-formed reader is within its bytes.
    pub proof fn lemma_pos(&self)
        ensures
            self.wf() ==> 0 <= self.pos() <= self.data().len(),
    {
    }

    /// The name reported in errors.
    pub fn source_str(&self) -> (s: &str)
        ensures
            s@ == self.source(),
    {
        self.source.as_str()
    }

    fn end_of_data(&self) -> (e: TridentError)
        ensures
            is_end_of_data(e, self.source()),
    {
        proof {
            reveal_strlit("unexpected end of data");
        }
        TridentError::Corrupt {
            path: self.source.clone(),
            reason: String::from_str("unexpected end of data"),
        }
    }

    /// Take the next `n` bytes.
    fn take(&mut self, n: usize) -> (r: Result<&'a [u8]>)
        requires
            old(self).wf(),
        ensures
            final(self).wf(),
            final(self).data() == old(self).data(),
            final(self).source() == old(self).source(),
            match r {
                Ok(s) => {
                    &&& old(self).pos() + n <= old(self).data().len()
                    &&& s@ == old(self).data().subrange(old(self).pos(), old(self).pos() + n)
                    &&& final(self).pos() == old(self).pos() + n
                },
                Err(e) => {
                    &&& old(self).pos() + n > old(self).data().len()
                    &&& final(self).pos() == old(self).pos()
                    &&& is_end_of_data(e, old(self).source())
                },
            },
    {
        if n > self.bytes.len() - self.pos {
            return Err(self.end_of_data());
        }
        let s = slice_subrange(self.bytes, self.pos, self.pos + n);
        self.pos = self.pos + n;
        Ok(s)
    }

    pub fn read_u8(&mut self) -> (r: Result<u8>)
        requires
            old(self).wf(),
        ensures
            final(self).wf(),
            final(self).data() == old(self).data(),
            final(self).source() == old(self).source(),
            match r {
                Ok(v) => {
                    &&& old(self).pos() + 1 <= old(self).data().len()
                    &&& v == old(self).data()[old(self).pos()]
                    &&& final(self).pos() == old(self).pos() + 1
                },
                Err(e) => {
                    &&& old(self).pos() + 1 > old(self).data().len()
                    &&& final(self).pos() == old(self).pos()
                    &&& is_end_of_data(e, old(self).source())
                },
            },
    {
        let s = self.take(1)?;
        Ok(s[0])
    }

    pub fn read_u32(&mut self) -> (r: Result<u32>)
        requires
            old(self).wf(),
        ensures
            final(self).wf(),
            final(self).data() == old(self).data(),
            final(self).source() == old(self).source(),
            match r {
                Ok(v) => {
                    &&& old(self).pos() + 4 <= old(self).data().len()
                    &&& v == spec_u32_from_le_bytes(
                        old(self).data().subrange(old(self).pos(), old(self).pos() + 4),
                    )
                    &&& final(self).pos() == old(self).pos() + 4
                },
                Err(e) => {
                    &&& old(self).pos() + 4 > old(self).data().len()
                    &&& final(self).pos() == old(self).pos()
                    &&& is_end_of_data(e, old(self).source())
                },
            },
    {
        let s = self.take(4)?;
        Ok(u32_from_le_bytes(s))
    }

    pub fn read_u64(&mut self) -> (r: Result<u64>)
        requires
            old(self).wf(),
        ensures
            final(self).wf(),
            final(self).data() == old(self).data(),
            final(self).source() == old(self).source(),
            match r {
                Ok(v) => {
                    &&& old(self).pos() + 8 <= old(self).data().len()
                    &&& v == spec_u64_from_le_bytes(
                        old(self).data().subrange(old(self).pos(), old(self).pos() + 8),
                    )
                    &&& final(self).pos() == old(self).pos() + 8
                },
                Err(e) => {
                    &&& old(self).pos() + 8 > old(self).data().len()
                    &&& final(self).pos() == old(self).pos()
                    &&& is_end_of_data(e, old(self).source())
                },
            },
    {
        let s = self.take(8)?;
        Ok(u64_from_le_bytes(s))
    }

    /// Read a `u32` length, then that many bytes.
    pub fn read_len_bytes(&mut self) -> (r: Result<Vec<u8>>)
        requires
            old(self).wf(),
        ensures
            final(self).wf(),
            final(self).data() == old(self).data(),
            final(self).source() == old(self).source(),
            ({
                let p = old(self).pos();
                let d = old(self).data();
                let n = spec_u32_from_le_bytes(d.subrange(p, p + 4));
                match r {
                    Ok(v) => {
                        &&& p + 4 + n <= d.len()
                        &&& v@ == d.subrange(p + 4, p + 4 + n)
                        &&& final(self).pos() == p + 4 + n
                    },
                    Err(e) => {
                        &&& is_end_of_data(e, old(self).source())
                        &&& (p + 4 > d.len() || p + 4 + n > d.len())
                    },
                }
            }),
    {
        let len = self.read_u32()?;
        let s = self.take(len as usize)?;
        Ok(copy_bytes(s))
    }
}

} // verus!
