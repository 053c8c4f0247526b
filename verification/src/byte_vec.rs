//! Length-prefixed byte strings: a compact-size length followed by that
//! many raw bytes, the length checked against the allocation guard before
//! any buffer is built.

use vstd::prelude::*;

use crate::MAX_VEC_SIZE;
use crate::compact_size::{CsParse, cs_parse, decode_compact_size, emit_compact_size, encoding};
use crate::error::Error;

verus! {

/// Outcome of reading one length-prefixed byte string from the front of a
/// byte sequence.
pub enum BvParse {
    /// The sequence ends before the announced bytes do.
    NeedMore,
    /// The length field is a non-minimal compact size.
    NonMinimal,
    /// The length field exceeds the allocation guard.
    Oversized,
    /// `data`, preceded by its canonical length, `used` bytes in all.
    Done { data: Seq<u8>, used: int },
}

/// Reads one length-prefixed byte string from the front of `s`.
pub open spec fn byte_vec_parse(s: Seq<u8>) -> BvParse {
    match cs_parse(s) {
        CsParse::NeedMore => BvParse::NeedMore,
        CsParse::NonMinimal => BvParse::NonMinimal,
        CsParse::Done { value: n, used: c } => {
            if n > MAX_VEC_SIZE {
                BvParse::Oversized
            } else if s.len() - c < n {
                BvParse::NeedMore
            } else {
                BvParse::Done { data: s.skip(c).take(n as int), used: c + n }
            }
        },
    }
}

/// The wire form of a byte string: its canonical length, then the bytes.
pub open spec fn byte_vec_encoding(data: Seq<u8>) -> Seq<u8> {
    encoding(data.len() as u64) + data
}

/// Appends `data@` to `out`.
pub fn append_bytes(out: &mut Vec<u8>, data: &[u8])
    ensures
        final(out)@ == old(out)@ + data@,
{
    let mut i: usize = 0;
    while i < data.len()
        invariant
            i <= data@.len(),
            out@ == old(out)@ + data@.take(i as int),
        decreases data@.len() - i,
    {
        out.push(data[i]);
        i = i + 1;
        proof {
            assert(out@ =~= old(out)@ + data@.take(i as int));
        }
    }
    proof {
        assert(out@ =~= old(out)@ + data@);
    }
}

/// Appends the wire form of `data` to `out`: its length as a compact
/// size, then the bytes themselves.
pub fn emit_byte_vec(out: &mut Vec<u8>, data: &[u8])
    ensures
        final(out)@ == old(out)@ + byte_vec_encoding(data@),
{
    emit_compact_size(out, data.len() as u64);
    append_bytes(out, data);
    proof {
        assert(out@ =~= old(out)@ + byte_vec_encoding(data@));
    }
}

/// Copies `count` bytes of `bytes` starting at `start` into a fresh buffer.
pub fn copy_bytes(bytes: &[u8], start: usize, count: usize) -> (r: Vec<u8>)
    requires
        start + count <= bytes@.len(),
    ensures
        r@ == bytes@.subrange(start as int, start + count),
{
    let blen = bytes.len();
    let mut out: Vec<u8> = Vec::new();
    let mut i: usize = 0;
    while i < count
        invariant
            i <= count,
            start + count <= blen,
            blen == bytes@.len(),
            out@ == bytes@.subrange(start as int, start + i),
        decreases count - i,
    {
        out.push(bytes[start + i]);
        i = i + 1;
        proof {
            assert(out@ =~= bytes@.subrange(start as int, start + i));
        }
    }
    out
}

/// Reads one length-prefixed byte string from `bytes` at position `start`,
/// returning the bytes and how many input bytes were used.  The declared
/// length is held against [`MAX_VEC_SIZE`] before the buffer is built.
pub fn decode_byte_vec(bytes: &[u8], start: usize) -> (r: Result<(Vec<u8>, usize), Error>)
    requires
        start <= bytes@.len(),
    ensures
        ({
            let s = bytes@.skip(start as int);
            match r {
                Ok(p) => byte_vec_parse(s) == (BvParse::Done { data: p.0@, used: p.1 as int })
                    && start + p.1 <= bytes@.len(),
                Err(e) => match e {
                    Error::UnexpectedEof => byte_vec_parse(s) is NeedMore,
                    Error::NonMinimal => byte_vec_parse(s) is NonMinimal,
                    Error::OversizedAllocation => byte_vec_parse(s) is Oversized,
                    _ => false,
                },
            }
        }),
{
    let (n, c) = match decode_compact_size(bytes, start) {
        Ok(p) => p,
        Err(e) => {
            return Err(e);
        },
    };
    if n > MAX_VEC_SIZE as u64 {
        return Err(Error::OversizedAllocation);
    }
    let count = n as usize;
    let blen = bytes.len();
    let data_start = start + c;
    if blen - data_start < count {
        proof {
            let s = bytes@.skip(start as int);
            assert(s.len() - (c as int) < n);
        }
        return Err(Error::UnexpectedEof);
    }
    let data = copy_bytes(bytes, data_start, count);
    proof {
        let s = bytes@.skip(start as int);
        assert(data@ =~= s.skip(c as int).take(n as int));
    }
    Ok((data, c + count))
}

/// Round trip: the wire form of a byte string within the allocation
/// guard, followed by anything at all, parses back to exactly the bytes
/// it encodes, consuming exactly the wire form.
pub proof fn lemma_byte_vec_roundtrip(data: Seq<u8>, rest: Seq<u8>)
    requires
        data.len() <= MAX_VEC_SIZE,
    ensures
        byte_vec_parse(byte_vec_encoding(data) + rest) == (BvParse::Done {
            data,
            used: byte_vec_encoding(data).len() as int,
        }),
{
    let n = data.len() as u64;
    let s = byte_vec_encoding(data) + rest;
    crate::compact_size::lemma_encoding_len(n);
    assert(s =~= crate::compact_size::encoding(n) + (data + rest));
    crate::compact_size::lemma_compact_size_roundtrip(n, data + rest);
    let c = crate::compact_size::canonical_len(n);
    assert(s.skip(c) =~= data + rest);
    assert((data + rest).take(n as int) =~= data);
}

} // verus!
