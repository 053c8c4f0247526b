//! Canonical variable-length unsigned-integer codec ("compact size").
//!
//! A value `v` has exactly one valid wire form, chosen by magnitude:
//! `v <= 0xFC` is the single byte `v`; otherwise a marker byte (`0xFD`,
//! `0xFE` or `0xFF`) is followed by the value as 2, 4 or 8 little-endian
//! bytes.  Any longer form of a value that fits a shorter one is
//! non-minimal and is rejected, unconditionally: accepting it would give
//! the same data several serializations.

use vstd::prelude::*;

use crate::error::Error;

verus! {

/// Number of bytes of the canonical wire form of `v`.
pub open spec fn canonical_len(v: u64) -> int {
    if v <= 0xFC {
        1
    } else if v <= 0xFFFF {
        3
    } else if v <= 0xFFFF_FFFF {
        5
    } else {
        9
    }
}

/// The canonical wire form of `v`: the value itself in one byte, or a
/// marker byte followed by the value in little-endian order.
pub open spec fn encoding(v: u64) -> Seq<u8> {
    if v <= 0xFC {
        seq![v as u8]
    } else if v <= 0xFFFF {
        seq![0xFDu8, (v % 0x100) as u8, ((v / 0x100) % 0x100) as u8]
    } else if v <= 0xFFFF_FFFF {
        seq![
            0xFEu8,
            (v % 0x100) as u8,
            ((v / 0x100) % 0x100) as u8,
            ((v / 0x1_0000) % 0x100) as u8,
            ((v / 0x100_0000) % 0x100) as u8,
        ]
    } else {
        seq![
            0xFFu8,
            (v % 0x100) as u8,
            ((v / 0x100) % 0x100) as u8,
            ((v / 0x1_0000) % 0x100) as u8,
            ((v / 0x100_0000) % 0x100) as u8,
            ((v / 0x1_0000_0000) % 0x100) as u8,
            ((v / 0x100_0000_0000) % 0x100) as u8,
            ((v / 0x1_0000_0000_0000) % 0x100) as u8,
            ((v / 0x100_0000_0000_0000) % 0x100) as u8,
        ]
    }
}

/// Total wire length that the first byte of `s` announces.
pub open spec fn cs_total(s: Seq<u8>) -> int
    recommends
        s.len() >= 1,
{
    if s[0] < 0xFD {
        1
    } else if s[0] == 0xFD {
        3
    } else if s[0] == 0xFE {
        5
    } else {
        9
    }
}

/// Whether `s` holds the whole wire form its first byte announces.
pub open spec fn cs_complete(s: Seq<u8>) -> bool {
    s.len() >= 1 && s.len() >= cs_total(s)
}

/// The value carried by the wire form at the front of `s`.
pub open spec fn cs_value(s: Seq<u8>) -> u64
    recommends
        cs_complete(s),
{
    if s[0] < 0xFD {
        s[0] as u64
    } else if s[0] == 0xFD {
        (s[1] as int + 0x100 * (s[2] as int)) as u64
    } else if s[0] == 0xFE {
        (s[1] as int + 0x100 * (s[2] as int) + 0x1_0000 * (s[3] as int) + 0x100_0000 * (
        s[4] as int)) as u64
    } else {
        (s[1] as int + 0x100 * (s[2] as int) + 0x1_0000 * (s[3] as int) + 0x100_0000 * (
        s[4] as int) + 0x1_0000_0000 * (s[5] as int) + 0x100_0000_0000 * (s[6] as int)
            + 0x1_0000_0000_0000 * (s[7] as int) + 0x100_0000_0000_0000 * (s[8] as int)) as u64
    }
}

/// Whether the wire form at the front of `s` is the shortest form of its
/// own value.
pub open spec fn cs_minimal(s: Seq<u8>) -> bool
    recommends
        cs_complete(s),
{
    cs_total(s) == canonical_len(cs_value(s))
}

/// Outcome of reading one compact size from the front of a byte sequence.
pub enum CsParse {
    /// The sequence ends before the announced wire form does.
    NeedMore,
    /// The wire form is longer than its value requires.
    NonMinimal,
    /// A canonical wire form of `value`, `used` bytes long.
    Done { value: u64, used: int },
}

/// Reads one compact size from the front of `s`.
pub open spec fn cs_parse(s: Seq<u8>) -> CsParse {
    if !cs_complete(s) {
        CsParse::NeedMore
    } else if !cs_minimal(s) {
        CsParse::NonMinimal
    } else {
        CsParse::Done { value: cs_value(s), used: cs_total(s) }
    }
}

/// Number of bytes needed to encode `value` as a compact size.
pub fn compact_size_len(value: u64) -> (r: usize)
    ensures
        r as int == canonical_len(value),
{
    if value <= 0xFC {
        1
    } else if value <= 0xFFFF {
        3
    } else if value <= 0xFFFF_FFFF {
        5
    } else {
        9
    }
}

/// Appends the canonical wire form of `value` to `out`.
pub fn emit_compact_size(out: &mut Vec<u8>, value: u64)
    ensures
        final(out)@ == old(out)@ + encoding(value),
{
    if value <= 0xFC {
        out.push(value as u8);
    } else if value <= 0xFFFF {
        out.push(0xFD);
        out.push((value % 0x100) as u8);
        out.push(((value / 0x100) % 0x100) as u8);
    } else if value <= 0xFFFF_FFFF {
        out.push(0xFE);
        out.push((value % 0x100) as u8);
        out.push(((value / 0x100) % 0x100) as u8);
        out.push(((value / 0x1_0000) % 0x100) as u8);
        out.push(((value / 0x100_0000) % 0x100) as u8);
    } else {
        out.push(0xFF);
        out.push((value % 0x100) as u8);
        out.push(((value / 0x100) % 0x100) as u8);
        out.push(((value / 0x1_0000) % 0x100) as u8);
        out.push(((value / 0x100_0000) % 0x100) as u8);
        out.push(((value / 0x1_0000_0000) % 0x100) as u8);
        out.push(((value / 0x100_0000_0000) % 0x100) as u8);
        out.push(((value / 0x1_0000_0000_0000) % 0x100) as u8);
        out.push(((value / 0x100_0000_0000_0000) % 0x100) as u8);
    }
    proof {
        assert(out@ =~= old(out)@ + encoding(value));
    }
}

/// The canonical wire form of `value` as an owned buffer.
pub fn encode_compact_size(value: u64) -> (r: Vec<u8>)
    ensures
        r@ == encoding(value),
{
    let mut out: Vec<u8> = Vec::new();
    emit_compact_size(&mut out, value);
    proof {
        assert(out@ =~= encoding(value));
    }
    out
}

/// Reads one compact size from `bytes` at position `start`, returning the
/// value and the number of bytes it used.  Truncated input and non-minimal
/// forms are told apart exactly as [`cs_parse`] does.
pub fn decode_compact_size(bytes: &[u8], start: usize) -> (r: Result<(u64, usize), Error>)
    requires
        start <= bytes@.len(),
    ensures
        ({
            let s = bytes@.skip(start as int);
            match r {
                Ok(p) => cs_parse(s) == (CsParse::Done { value: p.0, used: p.1 as int })
                    && start + p.1 <= bytes@.len(),
                Err(e) => (e == Error::UnexpectedEof && cs_parse(s) is NeedMore) || (e
                    == Error::NonMinimal && cs_parse(s) is NonMinimal),
            }
        }),
{
    let len = bytes.len();
    if start >= len {
        return Err(Error::UnexpectedEof);
    }
    let marker = bytes[start];
    if marker < 0xFD {
        Ok(((marker as u64), 1))
    } else if marker == 0xFD {
        if len - start < 3 {
            return Err(Error::UnexpectedEof);
        }
        let value = (bytes[start + 1] as u64) + 0x100 * (bytes[start + 2] as u64);
        if value <= 0xFC {
            return Err(Error::NonMinimal);
        }
        Ok((value, 3))
    } else if marker == 0xFE {
        if len - start < 5 {
            return Err(Error::UnexpectedEof);
        }
        let value = (bytes[start + 1] as u64) + 0x100 * (bytes[start + 2] as u64) + 0x1_0000 * (
        bytes[start + 3] as u64) + 0x100_0000 * (bytes[start + 4] as u64);
        if value <= 0xFFFF {
            return Err(Error::NonMinimal);
        }
        Ok((value, 5))
    } else {
        if len - start < 9 {
            return Err(Error::UnexpectedEof);
        }
        let value = (bytes[start + 1] as u64) + 0x100 * (bytes[start + 2] as u64) + 0x1_0000 * (
        bytes[start + 3] as u64) + 0x100_0000 * (bytes[start + 4] as u64) + 0x1_0000_0000 * (
        bytes[start + 5] as u64) + 0x100_0000_0000 * (bytes[start + 6] as u64)
            + 0x1_0000_0000_0000 * (bytes[start + 7] as u64) + 0x100_0000_0000_0000 * (bytes[start
            + 8] as u64);
        if value <= 0xFFFF_FFFF {
            return Err(Error::NonMinimal);
        }
        Ok((value, 9))
    }
}

/// The encoding really is as long as [`canonical_len`] says.
pub proof fn lemma_encoding_len(v: u64)
    ensures
        encoding(v).len() == canonical_len(v),
        encoding(v)[0] < 0xFD <==> v <= 0xFC,
{
}

/// Round trip: a canonical wire form, followed by anything at all, parses
/// back to exactly the value it encodes, consuming exactly the wire form.
pub proof fn lemma_compact_size_roundtrip(v: u64, rest: Seq<u8>)
    ensures
        cs_parse(encoding(v) + rest) == (CsParse::Done { value: v, used: canonical_len(v) }),
{
    let s = encoding(v) + rest;
    lemma_encoding_len(v);
    if v <= 0xFC {
        assert(cs_value(s) == v);
    } else if v <= 0xFFFF {
        assert(s[1] == (v % 0x100) as u8 && s[2] == ((v / 0x100) % 0x100) as u8);
        assert(s[1] as int + 0x100 * (s[2] as int) == v as int) by {
            lemma_le_recompose_2(v as int);
        }
    } else if v <= 0xFFFF_FFFF {
        assert(s[1] as int + 0x100 * (s[2] as int) + 0x1_0000 * (s[3] as int) + 0x100_0000 * (
        s[4] as int) == v as int) by {
            lemma_le_recompose_4(v as int);
        }
    } else {
        assert(s[1] as int + 0x100 * (s[2] as int) + 0x1_0000 * (s[3] as int) + 0x100_0000 * (
        s[4] as int) + 0x1_0000_0000 * (s[5] as int) + 0x100_0000_0000 * (s[6] as int)
            + 0x1_0000_0000_0000 * (s[7] as int) + 0x100_0000_0000_0000 * (s[8] as int)
            == v as int) by {
            lemma_le_recompose_8(v as int);
        }
    }
}

proof fn lemma_le_recompose_2(v: int)
    requires
        0 <= v < 0x1_0000,
    ensures
        (v % 0x100) + 0x100 * ((v / 0x100) % 0x100) == v,
{
    assert((v % 0x100) + 0x100 * ((v / 0x100) % 0x100) == v) by (nonlinear_arith)
        requires
            0 <= v < 0x1_0000,
    ;
}

proof fn lemma_le_recompose_4(v: int)
    requires
        0 <= v < 0x1_0000_0000,
    ensures
        (v % 0x100) + 0x100 * ((v / 0x100) % 0x100) + 0x1_0000 * ((v / 0x1_0000) % 0x100)
            + 0x100_0000 * ((v / 0x100_0000) % 0x100) == v,
{
    assert((v % 0x100) + 0x100 * ((v / 0x100) % 0x100) + 0x1_0000 * ((v / 0x1_0000) % 0x100)
        + 0x100_0000 * ((v / 0x100_0000) % 0x100) == v) by (nonlinear_arith)
        requires
            0 <= v < 0x1_0000_0000,
    ;
}

proof fn lemma_le_recompose_8(v: int)
    requires
        0 <= v < 0x1_0000_0000_0000_0000,
    ensures
        (v % 0x100) + 0x100 * ((v / 0x100) % 0x100) + 0x1_0000 * ((v / 0x1_0000) % 0x100)
            + 0x100_0000 * ((v / 0x100_0000) % 0x100) + 0x1_0000_0000 * ((v / 0x1_0000_0000)
            % 0x100) + 0x100_0000_0000 * ((v / 0x100_0000_0000) % 0x100) + 0x1_0000_0000_0000 * ((v
            / 0x1_0000_0000_0000) % 0x100) + 0x100_0000_0000_0000 * ((v / 0x100_0000_0000_0000)
            % 0x100) == v,
{
    vstd::arithmetic::div_mod::lemma_div_denominator(v, 0x100, 0x100);
    vstd::arithmetic::div_mod::lemma_div_denominator(v, 0x1_0000, 0x100);
    vstd::arithmetic::div_mod::lemma_div_denominator(v, 0x100_0000, 0x100);
    vstd::arithmetic::div_mod::lemma_div_denominator(v, 0x1_0000_0000, 0x100);
    vstd::arithmetic::div_mod::lemma_div_denominator(v, 0x100_0000_0000, 0x100);
    vstd::arithmetic::div_mod::lemma_div_denominator(v, 0x1_0000_0000_0000, 0x100);
    vstd::arithmetic::div_mod::lemma_fundamental_div_mod(v, 0x100);
    vstd::arithmetic::div_mod::lemma_fundamental_div_mod(v / 0x100, 0x100);
    vstd::arithmetic::div_mod::lemma_fundamental_div_mod(v / 0x1_0000, 0x100);
    vstd::arithmetic::div_mod::lemma_fundamental_div_mod(v / 0x100_0000, 0x100);
    vstd::arithmetic::div_mod::lemma_fundamental_div_mod(v / 0x1_0000_0000, 0x100);
    vstd::arithmetic::div_mod::lemma_fundamental_div_mod(v / 0x100_0000_0000, 0x100);
    vstd::arithmetic::div_mod::lemma_fundamental_div_mod(v / 0x1_0000_0000_0000, 0x100);
    assert(v / 0x100_0000_0000_0000 < 0x100) by {
        vstd::arithmetic::div_mod::lemma_div_is_ordered(v, 0xFFFF_FFFF_FFFF_FFFF,
            0x100_0000_0000_0000);
    }
    vstd::arithmetic::div_mod::lemma_fundamental_div_mod(v / 0x100_0000_0000_0000, 0x100);
    vstd::arithmetic::div_mod::lemma_basic_div(v / 0x100_0000_0000_0000, 0x100);
}

/// Non-minimality is rejected for every value and every oversized marker:
/// a value written behind a marker longer than its canonical form parses
/// as `NonMinimal`, wherever it is embedded.
pub proof fn lemma_non_minimal_rejected(s: Seq<u8>)
    requires
        cs_complete(s),
        cs_total(s) > canonical_len(cs_value(s)),
    ensures
        cs_parse(s) is NonMinimal,
{
}

} // verus!
