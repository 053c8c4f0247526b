//! Resumable codecs: push/pull state machines that accept input split
//! across arbitrary chunk boundaries.
//!
//! A decoder here owns every byte it has consumed; `push_bytes` takes as
//! much of the front of each chunk as the decoder can use and no more, so
//! independently-chunked reads interleave correctly, and only `end`
//! renders a final verdict.

use vstd::prelude::*;

use crate::MAX_VEC_SIZE;
use crate::byte_vec::{copy_bytes, decode_byte_vec};
use crate::compact_size::{
    CsParse, canonical_len, cs_complete, cs_minimal, cs_parse, cs_total, cs_value,
    decode_compact_size, emit_compact_size, encoding,
};
use crate::error::{Decoder3Error, Error};

verus! {

/// Bytes a compact-size decoder that has consumed `b` will take from the
/// front of `inp`: everything, until the wire form its first byte
/// announces is complete.
pub open spec fn cs_feed(b: Seq<u8>, inp: Seq<u8>) -> Seq<u8> {
    let all = b + inp;
    if all.len() == 0 {
        all
    } else if all.len() <= cs_total(all) {
        all
    } else {
        all.take(cs_total(all))
    }
}

/// Chunk invariance: feeding input in two pieces buffers exactly the
/// bytes that feeding it whole would, wherever the split falls.
pub proof fn lemma_cs_feed_chunks(b: Seq<u8>, s1: Seq<u8>, s2: Seq<u8>)
    ensures
        cs_feed(cs_feed(b, s1), s2) == cs_feed(b, s1 + s2),
{
    let a1 = b + s1;
    let a2 = b + (s1 + s2);
    assert(a1 + s2 =~= a2);
    if a1.len() == 0 {
        assert(cs_feed(b, s1) + s2 =~= a2);
    } else if a1.len() <= cs_total(a1) {
        assert(cs_feed(b, s1) + s2 =~= a2);
    } else {
        let t = cs_total(a1);
        let f1 = a1.take(t);
        assert(f1[0] == a1[0] && a2[0] == a1[0]);
        assert(cs_total(f1) == t && cs_total(a2) == t);
        assert(f1.len() == t);
        if s2.len() == 0 {
            assert(f1 + s2 =~= f1);
            assert(cs_feed(f1, s2) == f1);
            assert(a2.take(t) =~= f1);
        } else {
            assert((f1 + s2)[0] == a1[0]);
            assert(cs_total(f1 + s2) == t);
            assert((f1 + s2).len() > t);
            assert((f1 + s2).take(t) =~= f1);
            assert(a2.take(t) =~= f1);
        }
    }
}

/// A resumable producer of one compact size: yields its whole wire form
/// as a single chunk, then reports that no output remains.
pub struct CompactSizeEncoder {
    /// The value being emitted.
    pub value: u64,
    /// Whether the single chunk has been yielded already.
    pub emitted: bool,
}

impl CompactSizeEncoder {
    /// A fresh encoder for `value`.
    pub fn new(value: usize) -> (r: Self)
        ensures
            r.value == value as u64,
            !r.emitted,
    {
        CompactSizeEncoder { value: value as u64, emitted: false }
    }

    /// The next contiguous chunk of the serialization: the whole wire
    /// form at first, nothing once it has been yielded.
    pub fn current_chunk(&self) -> (r: Vec<u8>)
        ensures
            !self.emitted ==> r@ == encoding(self.value),
            self.emitted ==> r@ == Seq::<u8>::empty(),
    {
        if self.emitted {
            Vec::new()
        } else {
            let mut out: Vec<u8> = Vec::new();
            emit_compact_size(&mut out, self.value);
            proof {
                assert(out@ =~= encoding(self.value));
            }
            out
        }
    }

    /// Moves past the current chunk; the result says whether output
    /// remains, which after the single chunk it never does.
    pub fn advance(&mut self) -> (r: bool)
        ensures
            final(self).value == old(self).value,
            final(self).emitted,
            !r,
    {
        self.emitted = true;
        false
    }
}

/// One byte of `v`, or zero past its end.
fn byte_or_zero(v: &Vec<u8>, i: usize) -> (r: u8)
    ensures
        r == (if i < v@.len() {
            v@[i as int]
        } else {
            0u8
        }),
{
    if i < v.len() {
        v[i]
    } else {
        0
    }
}

/// The canonical wire form of `value`, driven through the resumable
/// encoder chunk by chunk into a fixed buffer, with its length.
pub fn compact_size_bytes(value: usize) -> (r: ([u8; 9], usize))
    ensures
        r.1 as int == canonical_len(value as u64),
        r.0@.take(r.1 as int) == encoding(value as u64),
{
    let mut encoder = CompactSizeEncoder::new(value);
    let mut collected: Vec<u8> = Vec::new();
    loop
        invariant
            encoder.value == value as u64,
            !encoder.emitted ==> collected@.len() == 0,
            encoder.emitted ==> collected@ == encoding(value as u64),
        ensures
            collected@ == encoding(value as u64),
        decreases (if encoder.emitted {
            0int
        } else {
            1int
        }),
    {
        let chunk = encoder.current_chunk();
        crate::byte_vec::append_bytes(&mut collected, chunk.as_slice());
        proof {
            if !encoder.emitted {
                assert(collected@ =~= encoding(value as u64));
            }
        }
        if !encoder.advance() {
            break ;
        }
    }
    proof {
        crate::compact_size::lemma_encoding_len(value as u64);
    }
    let len = collected.len();
    let b0 = byte_or_zero(&collected, 0);
    let b1 = byte_or_zero(&collected, 1);
    let b2 = byte_or_zero(&collected, 2);
    let b3 = byte_or_zero(&collected, 3);
    let b4 = byte_or_zero(&collected, 4);
    let b5 = byte_or_zero(&collected, 5);
    let b6 = byte_or_zero(&collected, 6);
    let b7 = byte_or_zero(&collected, 7);
    let b8 = byte_or_zero(&collected, 8);
    let out: [u8; 9] = [b0, b1, b2, b3, b4, b5, b6, b7, b8];
    proof {
        assert(out@ =~= seq![b0, b1, b2, b3, b4, b5, b6, b7, b8]);
        assert(out@.take(len as int) =~= encoding(value as u64));
    }
    (out, len)
}

/// Drains a fresh encoder's chunks into one owned buffer.
pub fn encode_to_vec(encoder: &mut CompactSizeEncoder) -> (r: Vec<u8>)
    requires
        !old(encoder).emitted,
    ensures
        r@ == encoding(old(encoder).value),
        final(encoder).value == old(encoder).value,
        final(encoder).emitted,
{
    let mut out: Vec<u8> = Vec::new();
    loop
        invariant
            encoder.value == old(encoder).value,
            !encoder.emitted ==> out@.len() == 0,
            encoder.emitted ==> out@ == encoding(old(encoder).value),
        ensures
            out@ == encoding(old(encoder).value),
            encoder.value == old(encoder).value,
            encoder.emitted,
        decreases (if encoder.emitted {
            0int
        } else {
            1int
        }),
    {
        let chunk = encoder.current_chunk();
        crate::byte_vec::append_bytes(&mut out, chunk.as_slice());
        proof {
            if !encoder.emitted {
                assert(out@ =~= encoding(encoder.value));
            }
        }
        if !encoder.advance() {
            break ;
        }
    }
    out
}

/// A resumable decoder of one compact size.  It buffers consumed bytes
/// until the wire form its first byte announces is complete; whether that
/// form is minimal is judged only by [`CompactSizeDecoder::end`].
pub struct CompactSizeDecoder {
    buf: Vec<u8>,
}

impl CompactSizeDecoder {
    /// The bytes this decoder has consumed so far.
    pub closed spec fn buffered(&self) -> Seq<u8> {
        self.buf@
    }

    /// The buffer never runs past the announced wire form.
    pub closed spec fn wf(&self) -> bool {
        self.buf@.len() != 0 ==> self.buf@.len() <= cs_total(self.buf@)
    }

    /// A fresh decoder with nothing consumed.
    pub fn new() -> (r: Self)
        ensures
            r.wf(),
            r.buffered() == Seq::<u8>::empty(),
    {
        CompactSizeDecoder { buf: Vec::new() }
    }

    /// Whether the announced wire form is fully buffered.
    fn is_complete(&self) -> (r: bool)
        requires
            self.wf(),
        ensures
            r == cs_complete(self.buffered()),
    {
        if self.buf.len() == 0 {
            false
        } else {
            let marker = self.buf[0];
            let total: usize = if marker < 0xFD {
                1
            } else if marker == 0xFD {
                3
            } else if marker == 0xFE {
                5
            } else {
                9
            };
            self.buf.len() >= total
        }
    }

    /// Consumes from `bytes[start..]` every byte it can use: the front of
    /// the chunk, up to the end of the announced wire form.  Returns the
    /// new position and whether more input is still needed; while more is
    /// needed the whole chunk has been consumed.
    pub fn push_bytes(&mut self, bytes: &[u8], start: usize) -> (r: (usize, bool))
        requires
            old(self).wf(),
            start <= bytes@.len(),
        ensures
            final(self).wf(),
            final(self).buffered() == cs_feed(old(self).buffered(), bytes@.skip(start as int)),
            start <= r.0 <= bytes@.len(),
            r.0 - start == final(self).buffered().len() - old(self).buffered().len(),
            r.1 == !cs_complete(final(self).buffered()),
            r.1 ==> r.0 == bytes@.len(),
    {
        let ghost all = old(self).buf@ + bytes@.skip(start as int);
        let len = bytes.len();
        let mut pos = start;
        loop
            invariant
                self.wf(),
                start <= pos <= len,
                len == bytes@.len(),
                self.buf@ == old(self).buf@ + bytes@.subrange(start as int, pos as int),
            ensures
                self.wf(),
                start <= pos <= len,
                self.buf@ == old(self).buf@ + bytes@.subrange(start as int, pos as int),
                pos == len || cs_complete(self.buf@),
            decreases len - pos,
        {
            if pos >= len {
                break ;
            }
            if self.is_complete() {
                break ;
            }
            self.buf.push(bytes[pos]);
            pos = pos + 1;
            proof {
                assert(self.buf@ =~= old(self).buf@ + bytes@.subrange(start as int, pos as int));
            }
        }
        proof {
            let fed = cs_feed(old(self).buffered(), bytes@.skip(start as int));
            assert(self.buf@ =~= all.take(self.buf@.len() as int));
            if cs_complete(self.buf@) {
                lemma_cs_feed_of_complete(old(self).buf@, bytes@.skip(start as int), self.buf@);
            } else {
                assert(pos == len);
                assert(self.buf@ =~= all);
            }
        }
        (pos, !self.is_complete())
    }

    /// The final verdict on the buffered bytes: the decoded value if they
    /// are a complete, minimal wire form; "insufficient input" if they
    /// end early; "non-minimal" if the value had a shorter form.
    pub fn end(self) -> (r: Result<u64, Error>)
        requires
            self.wf(),
        ensures
            ({
                let s = self.buffered();
                match r {
                    Ok(v) => cs_parse(s) == (CsParse::Done { value: v, used: s.len() as int }),
                    Err(e) => (e == Error::UnexpectedEof && cs_parse(s) is NeedMore) || (e
                        == Error::NonMinimal && cs_parse(s) is NonMinimal),
                }
            }),
    {
        proof {
            assert(self.buf@.skip(0) =~= self.buf@);
        }
        match decode_compact_size(self.buf.as_slice(), 0) {
            Ok(p) => Ok(p.0),
            Err(e) => Err(e),
        }
    }

    /// Upper bound on the bytes this decoder will still consume.
    pub fn read_limit(&self) -> (r: usize)
        requires
            self.wf(),
        ensures
            r as int == (if self.buffered().len() == 0 {
                9int
            } else {
                cs_total(self.buffered()) - self.buffered().len()
            }),
    {
        if self.buf.len() == 0 {
            9
        } else {
            let marker = self.buf[0];
            let total: usize = if marker < 0xFD {
                1
            } else if marker == 0xFD {
                3
            } else if marker == 0xFE {
                5
            } else {
                9
            };
            total - self.buf.len()
        }
    }
}

/// Kinds of independently-decodable fields a compound decoder drives in
/// declared order.
#[derive(Debug, Clone, Copy, PartialEq, Eq, Structural)]
pub enum FieldKind {
    /// A compact-size integer.
    CompactSize,
    /// Exactly this many raw bytes.
    Fixed(usize),
    /// A length-prefixed byte string, capped by the allocation guard.
    ByteVec,
}

/// A decoded field.
#[derive(Debug, Clone)]
pub enum FieldValue {
    /// The value of a compact-size field.
    Num(u64),
    /// The bytes of a fixed or length-prefixed field.
    Bytes(Vec<u8>),
}

/// What a decoded field is, mathematically.
pub enum FieldValueModel {
    /// The value of a compact-size field.
    Num(u64),
    /// The bytes of a fixed or length-prefixed field.
    Bytes(Seq<u8>),
}

impl View for FieldValue {
    type V = FieldValueModel;

    open spec fn view(&self) -> FieldValueModel {
        match self {
            FieldValue::Num(v) => FieldValueModel::Num(*v),
            FieldValue::Bytes(b) => FieldValueModel::Bytes(b@),
        }
    }
}

/// Total bytes a field of kind `k` takes, judged from the bytes consumed
/// so far (`s` starts at the field's first byte; the answer may exceed
/// `s.len()` while the field is incomplete).
pub open spec fn field_target(k: FieldKind, s: Seq<u8>) -> int {
    match k {
        FieldKind::CompactSize => if s.len() == 0 {
            1
        } else {
            cs_total(s)
        },
        FieldKind::Fixed(n) => n as int,
        FieldKind::ByteVec => if s.len() == 0 {
            1
        } else if s.len() < cs_total(s) {
            cs_total(s)
        } else if !cs_minimal(s) || cs_value(s) > MAX_VEC_SIZE {
            cs_total(s)
        } else {
            cs_total(s) + cs_value(s)
        },
    }
}

/// Whether a complete field of kind `k` failed.
pub open spec fn field_failed(k: FieldKind, s: Seq<u8>) -> bool {
    match k {
        FieldKind::CompactSize => cs_complete(s) && !cs_minimal(s),
        FieldKind::Fixed(_) => false,
        FieldKind::ByteVec => cs_complete(s) && (!cs_minimal(s) || cs_value(s) > MAX_VEC_SIZE),
    }
}

/// The error a failed field reports.
pub open spec fn field_error_code(k: FieldKind, s: Seq<u8>) -> Error {
    match k {
        FieldKind::CompactSize => Error::NonMinimal,
        FieldKind::Fixed(_) => Error::UnexpectedEof,
        FieldKind::ByteVec => if !cs_minimal(s) {
            Error::NonMinimal
        } else {
            Error::OversizedAllocation
        },
    }
}

/// The value a complete, successful field of kind `k` carries.
pub open spec fn field_model(k: FieldKind, s: Seq<u8>) -> FieldValueModel {
    match k {
        FieldKind::CompactSize => FieldValueModel::Num(cs_value(s)),
        FieldKind::Fixed(n) => FieldValueModel::Bytes(s.take(n as int)),
        FieldKind::ByteVec => FieldValueModel::Bytes(s.skip(cs_total(s)).take(cs_value(s) as int)),
    }
}

/// Total bytes a three-field compound decoder takes, judged from the
/// bytes consumed so far; a failed field is fatal, so nothing past it is
/// ever counted.
pub open spec fn d3_target(k1: FieldKind, k2: FieldKind, k3: FieldKind, s: Seq<u8>) -> int {
    let t1 = field_target(k1, s);
    if s.len() < t1 || field_failed(k1, s) {
        t1
    } else {
        let s2 = s.skip(t1);
        let t2 = field_target(k2, s2);
        if s2.len() < t2 || field_failed(k2, s2) {
            t1 + t2
        } else {
            t1 + t2 + field_target(k3, s2.skip(t2))
        }
    }
}

/// Outcome of reading three fields in declared order from the front of a
/// byte sequence: the first field that ends the decode names itself.
pub enum D3Parse {
    /// The first field is incomplete or failed.
    First(Error),
    /// The second field is incomplete or failed.
    Second(Error),
    /// The third field is incomplete or failed.
    Third(Error),
    /// All three fields, `used` bytes in all.
    Done { v1: FieldValueModel, v2: FieldValueModel, v3: FieldValueModel, used: int },
}

/// Reads three fields in declared order from the front of `s`; an
/// incomplete field reports insufficient input under its own tag.
pub open spec fn d3_parse(k1: FieldKind, k2: FieldKind, k3: FieldKind, s: Seq<u8>) -> D3Parse {
    let t1 = field_target(k1, s);
    if field_failed(k1, s) {
        D3Parse::First(field_error_code(k1, s))
    } else if s.len() < t1 {
        D3Parse::First(Error::UnexpectedEof)
    } else {
        let s2 = s.skip(t1);
        let t2 = field_target(k2, s2);
        if field_failed(k2, s2) {
            D3Parse::Second(field_error_code(k2, s2))
        } else if s2.len() < t2 {
            D3Parse::Second(Error::UnexpectedEof)
        } else {
            let s3 = s2.skip(t2);
            let t3 = field_target(k3, s3);
            if field_failed(k3, s3) {
                D3Parse::Third(field_error_code(k3, s3))
            } else if s3.len() < t3 {
                D3Parse::Third(Error::UnexpectedEof)
            } else {
                D3Parse::Done {
                    v1: field_model(k1, s),
                    v2: field_model(k2, s2),
                    v3: field_model(k3, s3),
                    used: t1 + t2 + t3,
                }
            }
        }
    }
}

/// A field judges a byte sequence exactly as it judges the prefix it
/// actually reads: given `p == s.take(t)`, either both are incomplete at
/// `t`, or the field ends within `t` bytes and every judgment agrees.
proof fn lemma_field_prefix(k: FieldKind, s: Seq<u8>, t: int)
    requires
        0 <= t <= s.len(),
    ensures
        field_target(k, s.take(t)) > t ==> field_target(k, s) > t,
        field_target(k, s.take(t)) <= t ==> {
            &&& field_target(k, s) == field_target(k, s.take(t))
            &&& field_failed(k, s) == field_failed(k, s.take(t))
            &&& field_failed(k, s) ==> field_error_code(k, s) == field_error_code(k, s.take(t))
            &&& !field_failed(k, s) ==> field_model(k, s) == field_model(k, s.take(t))
        },
{
    let p = s.take(t);
    if t == s.len() {
        assert(p =~= s);
    } else {
        match k {
            FieldKind::CompactSize => {
                if p.len() == 0 {
                    assert(field_target(k, p) == 1 > t);
                    assert(t == 0 && s.len() > 0);
                    assert(field_target(k, s) >= 1);
                } else {
                    assert(p[0] == s[0]);
                    assert(cs_total(p) == cs_total(s));
                    if cs_total(p) <= t {
                        assert(forall|i: int| 0 <= i < t ==> p[i] == s[i]);
                        assert(cs_value(p) == cs_value(s));
                    }
                }
            },
            FieldKind::Fixed(n) => {
                if n <= t {
                    assert(p.take(n as int) =~= s.take(n as int));
                }
            },
            FieldKind::ByteVec => {
                if p.len() == 0 {
                    assert(field_target(k, p) == 1 > t);
                    assert(t == 0 && s.len() > 0);
                    assert(field_target(k, s) >= cs_total(s) >= 1);
                } else {
                    assert(p[0] == s[0]);
                    assert(cs_total(p) == cs_total(s));
                    if p.len() < cs_total(p) {
                        assert(field_target(k, p) == cs_total(p) > t);
                        assert(field_target(k, s) >= cs_total(s) > t);
                    } else {
                        assert(forall|i: int| 0 <= i < t ==> p[i] == s[i]);
                        assert(cs_value(p) == cs_value(s));
                        assert(cs_minimal(p) == cs_minimal(s));
                        if !cs_minimal(p) || cs_value(p) > MAX_VEC_SIZE {
                        } else {
                            let total = cs_total(p) + cs_value(p);
                            if total <= t {
                                assert(p.skip(cs_total(p)).take(cs_value(p) as int) =~= s.skip(
                                    cs_total(s),
                                ).take(cs_value(s) as int));
                            }
                        }
                    }
                }
            },
        }
    }
}

/// A three-field compound judges a byte sequence exactly as it judges
/// the prefix it actually reads.
proof fn lemma_d3_prefix(k1: FieldKind, k2: FieldKind, k3: FieldKind, s: Seq<u8>, t: int)
    requires
        0 <= t <= s.len(),
    ensures
        d3_target(k1, k2, k3, s.take(t)) > t ==> d3_target(k1, k2, k3, s) > t,
        d3_target(k1, k2, k3, s.take(t)) <= t ==> {
            &&& d3_target(k1, k2, k3, s) == d3_target(k1, k2, k3, s.take(t))
            &&& d3_parse(k1, k2, k3, s) == d3_parse(k1, k2, k3, s.take(t))
        },
{
    let p = s.take(t);
    lemma_field_prefix(k1, s, t);
    let t1 = field_target(k1, p);
    if t1 > t {
        assert(d3_target(k1, k2, k3, p) >= t1);
    } else {
        if field_failed(k1, p) {
        } else {
            let s2 = s.skip(t1);
            let p2 = p.skip(t1);
            assert(p2 =~= s2.take(t - t1));
            lemma_field_prefix(k2, s2, t - t1);
            let t2 = field_target(k2, p2);
            if t2 > t - t1 {
                assert(d3_target(k1, k2, k3, p) >= t1 + t2);
            } else {
                if field_failed(k2, p2) {
                } else {
                    let s3 = s2.skip(t2);
                    let p3 = p2.skip(t2);
                    assert(p3 =~= s3.take(t - t1 - t2));
                    lemma_field_prefix(k3, s3, t - t1 - t2);
                    let t3 = field_target(k3, p3);
                    if t3 > t - t1 - t2 {
                        assert(d3_target(k1, k2, k3, p) == t1 + t2 + t3);
                    }
                }
            }
        }
    }
}

/// Largest value [`field_target`] can take for a field of kind `k`.
pub open spec fn field_bound(k: FieldKind) -> int {
    match k {
        FieldKind::CompactSize => 9,
        FieldKind::Fixed(n) => n as int,
        FieldKind::ByteVec => 9 + MAX_VEC_SIZE,
    }
}

/// Three field kinds whose combined wire forms always fit a `usize`.
pub open spec fn kinds_bounded(k1: FieldKind, k2: FieldKind, k3: FieldKind) -> bool {
    field_bound(k1) + field_bound(k2) + field_bound(k3) <= usize::MAX
}

proof fn lemma_field_target_le_bound(k: FieldKind, s: Seq<u8>)
    ensures
        0 <= field_target(k, s) <= field_bound(k),
{
}

/// The total wire length of a field of kind `k` starting at `start`, and
/// whether the field, if complete there, has failed.
fn field_probe(k: FieldKind, bytes: &[u8], start: usize) -> (r: (usize, bool))
    requires
        start <= bytes@.len(),
    ensures
        ({
            let s = bytes@.skip(start as int);
            r.0 as int == field_target(k, s) && r.1 == field_failed(k, s)
        }),
{
    let blen = bytes.len();
    match k {
        FieldKind::CompactSize => {
            if start == blen {
                (1, false)
            } else {
                let marker = bytes[start];
                let total: usize = if marker < 0xFD {
                    1
                } else if marker == 0xFD {
                    3
                } else if marker == 0xFE {
                    5
                } else {
                    9
                };
                if blen - start < total {
                    (total, false)
                } else {
                    match decode_compact_size(bytes, start) {
                        Ok(_) => (total, false),
                        Err(_) => (total, true),
                    }
                }
            }
        },
        FieldKind::Fixed(n) => (n, false),
        FieldKind::ByteVec => {
            if start == blen {
                (1, false)
            } else {
                let marker = bytes[start];
                let total: usize = if marker < 0xFD {
                    1
                } else if marker == 0xFD {
                    3
                } else if marker == 0xFE {
                    5
                } else {
                    9
                };
                if blen - start < total {
                    (total, false)
                } else {
                    match decode_compact_size(bytes, start) {
                        Ok(p) => {
                            if p.0 > MAX_VEC_SIZE as u64 {
                                (total, true)
                            } else {
                                (total + p.0 as usize, false)
                            }
                        },
                        Err(_) => (total, true),
                    }
                }
            }
        },
    }
}

/// The total wire length of the three fields, as far as the buffered
/// bytes announce it.
fn d3_probe(k1: FieldKind, k2: FieldKind, k3: FieldKind, bytes: &[u8]) -> (r: usize)
    requires
        kinds_bounded(k1, k2, k3),
    ensures
        r as int == d3_target(k1, k2, k3, bytes@),
{
    proof {
        assert(bytes@.skip(0) =~= bytes@);
        lemma_field_target_le_bound(k1, bytes@);
    }
    let blen = bytes.len();
    let (t1, f1) = field_probe(k1, bytes, 0);
    if blen < t1 || f1 {
        return t1;
    }
    proof {
        lemma_field_target_le_bound(k2, bytes@.skip(t1 as int));
    }
    let (t2, f2) = field_probe(k2, bytes, t1);
    if blen - t1 < t2 || f2 {
        return t1 + t2;
    }
    proof {
        lemma_field_target_le_bound(k3, bytes@.skip(t1 as int).skip(t2 as int));
        assert(bytes@.skip((t1 + t2) as int) =~= bytes@.skip(t1 as int).skip(t2 as int));
    }
    let (t3, _f3) = field_probe(k3, bytes, t1 + t2);
    t1 + t2 + t3
}

/// Decodes one field out of `bytes` at `start`, returning the value and
/// the position just past the field.
fn field_end(k: FieldKind, bytes: &[u8], start: usize) -> (r: Result<(FieldValue, usize), Error>)
    requires
        start <= bytes@.len(),
    ensures
        ({
            let s = bytes@.skip(start as int);
            match r {
                Ok(p) => p.1 - start == field_target(k, s) && s.len() >= field_target(k, s)
                    && !field_failed(k, s) && p.0@ == field_model(k, s) && p.1 <= bytes@.len(),
                Err(e) => (e == Error::UnexpectedEof && s.len() < field_target(k, s)
                    && !field_failed(k, s)) || (field_failed(k, s) && e == field_error_code(k, s)),
            }
        }),
{
    let blen = bytes.len();
    match k {
        FieldKind::CompactSize => {
            match decode_compact_size(bytes, start) {
                Ok(p) => Ok((FieldValue::Num(p.0), start + p.1)),
                Err(e) => Err(e),
            }
        },
        FieldKind::Fixed(n) => {
            if blen - start >= n {
                let data = copy_bytes(bytes, start, n);
                proof {
                    assert(data@ =~= bytes@.skip(start as int).take(n as int));
                }
                Ok((FieldValue::Bytes(data), start + n))
            } else {
                Err(Error::UnexpectedEof)
            }
        },
        FieldKind::ByteVec => {
            match decode_byte_vec(bytes, start) {
                Ok(p) => Ok((FieldValue::Bytes(p.0), start + p.1)),
                Err(e) => Err(e),
            }
        },
    }
}

/// Bytes a three-field compound decoder that has consumed `b` will take
/// from the front of `inp`: everything, until its last needed field is
/// complete or a field has failed.
pub open spec fn d3_feed(
    k1: FieldKind,
    k2: FieldKind,
    k3: FieldKind,
    b: Seq<u8>,
    inp: Seq<u8>,
) -> Seq<u8> {
    let all = b + inp;
    if all.len() <= d3_target(k1, k2, k3, all) {
        all
    } else {
        all.take(d3_target(k1, k2, k3, all))
    }
}

/// Truncation: cutting a compound record's wire form anywhere short of
/// its end yields "insufficient input" for the field the cut falls in —
/// never a spurious success and never a different error.
pub proof fn lemma_d3_truncation(
    k1: FieldKind,
    k2: FieldKind,
    k3: FieldKind,
    s: Seq<u8>,
    t: int,
)
    requires
        d3_parse(k1, k2, k3, s) is Done,
        0 <= t,
        t < d3_target(k1, k2, k3, s),
    ensures
        d3_parse(k1, k2, k3, s.take(t)) == D3Parse::First(Error::UnexpectedEof) || d3_parse(
            k1,
            k2,
            k3,
            s.take(t),
        ) == D3Parse::Second(Error::UnexpectedEof) || d3_parse(k1, k2, k3, s.take(t))
            == D3Parse::Third(Error::UnexpectedEof),
{
    let p = s.take(t);
    assert(t <= s.len());
    lemma_d3_prefix(k1, k2, k3, s, t);
    if d3_target(k1, k2, k3, p) <= t {
        assert(d3_target(k1, k2, k3, s) == d3_target(k1, k2, k3, p));
        assert(false);
    }
    assert(p.len() < d3_target(k1, k2, k3, p));
}

/// Chunk invariance for the compound decoder: feeding input in two
/// pieces buffers exactly the bytes that feeding it whole would,
/// wherever the split falls.
pub proof fn lemma_d3_feed_chunks(
    k1: FieldKind,
    k2: FieldKind,
    k3: FieldKind,
    b: Seq<u8>,
    s1: Seq<u8>,
    s2: Seq<u8>,
)
    ensures
        d3_feed(k1, k2, k3, d3_feed(k1, k2, k3, b, s1), s2) == d3_feed(k1, k2, k3, b, s1 + s2),
{
    let a1 = b + s1;
    let a2 = b + (s1 + s2);
    assert(a1 + s2 =~= a2);
    if a1.len() <= d3_target(k1, k2, k3, a1) {
        assert(d3_feed(k1, k2, k3, b, s1) + s2 =~= a2);
    } else {
        let t = d3_target(k1, k2, k3, a1);
        let f1 = a1.take(t);
        lemma_d3_prefix(k1, k2, k3, a1, t);
        assert(d3_target(k1, k2, k3, f1) == t);
        assert(f1 + s2 =~= a2.take(t) + s2);
        assert(a2.take(t) =~= f1);
        lemma_d3_prefix(k1, k2, k3, a2, t);
        assert(d3_target(k1, k2, k3, a2) == t);
        let all = f1 + s2;
        assert(all.take(t) =~= f1);
        lemma_d3_prefix(k1, k2, k3, all, t);
        assert(d3_target(k1, k2, k3, all) == t);
        if all.len() <= t {
            assert(s2.len() == 0);
            assert(all =~= f1);
        } else {
            assert(all.take(t) =~= f1);
        }
    }
}

/// A resumable decoder for a record of three fields in declared order:
/// field `k+1` sees no bytes until field `k` is complete, and a failed
/// field is fatal to the whole decode.
pub struct Decoder3 {
    k1: FieldKind,
    k2: FieldKind,
    k3: FieldKind,
    buf: Vec<u8>,
}

impl Decoder3 {
    /// The bytes this decoder has consumed so far.
    pub closed spec fn buffered(&self) -> Seq<u8> {
        self.buf@
    }

    /// Kind of the first field.
    pub closed spec fn kind1(&self) -> FieldKind {
        self.k1
    }

    /// Kind of the second field.
    pub closed spec fn kind2(&self) -> FieldKind {
        self.k2
    }

    /// Kind of the third field.
    pub closed spec fn kind3(&self) -> FieldKind {
        self.k3
    }

    /// The field kinds fit a `usize` together and the buffer never runs
    /// past the fields' combined wire form.
    pub closed spec fn wf(&self) -> bool {
        &&& kinds_bounded(self.k1, self.k2, self.k3)
        &&& self.buf@.len() != 0 ==> self.buf@.len() <= d3_target(self.k1, self.k2, self.k3,
        self.buf@)
    }

    /// A fresh compound decoder with nothing consumed.
    pub fn new(k1: FieldKind, k2: FieldKind, k3: FieldKind) -> (r: Self)
        requires
            kinds_bounded(k1, k2, k3),
        ensures
            r.wf(),
            r.kind1() == k1 && r.kind2() == k2 && r.kind3() == k3,
            r.buffered() == Seq::<u8>::empty(),
    {
        Decoder3 { k1, k2, k3, buf: Vec::new() }
    }

    /// Whether every field the fields' lengths announce is buffered.
    fn is_complete(&self) -> (r: bool)
        requires
            self.wf(),
        ensures
            r == (self.buffered().len() >= d3_target(self.kind1(), self.kind2(), self.kind3(), self.buffered())),
    {
        let target = d3_probe(self.k1, self.k2, self.k3, self.buf.as_slice());
        self.buf.len() >= target
    }

    /// Consumes from `bytes[start..]` every byte it can use: the front of
    /// the chunk, up to the end of the last needed field.  Returns the
    /// new position and whether more input is still needed; while more is
    /// needed the whole chunk has been consumed, and a chunk the decoder
    /// needs none of is left exactly as given.
    #[verifier::rlimit(60)]
    pub fn push_bytes(&mut self, bytes: &[u8], start: usize) -> (r: (usize, bool))
        requires
            old(self).wf(),
            start <= bytes@.len(),
        ensures
            final(self).wf(),
            final(self).kind1() == old(self).kind1() && final(self).kind2() == old(
                self,
            ).kind2() && final(self).kind3() == old(self).kind3(),
            final(self).buffered() == d3_feed(
                old(self).kind1(),
                old(self).kind2(),
                old(self).kind3(),
                old(self).buffered(),
                bytes@.skip(start as int),
            ),
            start <= r.0 <= bytes@.len(),
            r.0 - start == final(self).buffered().len() - old(self).buffered().len(),
            r.1 == (final(self).buffered().len() < d3_target(
                old(self).kind1(),
                old(self).kind2(),
                old(self).kind3(),
                final(self).buffered(),
            )),
            r.1 ==> r.0 == bytes@.len(),
    {
        let ghost k1 = self.k1;
        let ghost k2 = self.k2;
        let ghost k3 = self.k3;
        let ghost all = old(self).buf@ + bytes@.skip(start as int);
        let len = bytes.len();
        let mut pos = start;
        loop
            invariant
                self.wf(),
                self.k1 == k1 && self.k2 == k2 && self.k3 == k3,
                start <= pos <= len,
                len == bytes@.len(),
                self.buf@ == old(self).buf@ + bytes@.subrange(start as int, pos as int),
                pos > start ==> self.buf@.len() - 1 < d3_target(
                    k1,
                    k2,
                    k3,
                    self.buf@.take(self.buf@.len() - 1),
                ),
            ensures
                self.wf(),
                self.k1 == k1 && self.k2 == k2 && self.k3 == k3,
                start <= pos <= len,
                self.buf@ == old(self).buf@ + bytes@.subrange(start as int, pos as int),
                pos == len || self.buf@.len() >= d3_target(k1, k2, k3, self.buf@),
                pos > start ==> self.buf@.len() - 1 < d3_target(
                    k1,
                    k2,
                    k3,
                    self.buf@.take(self.buf@.len() - 1),
                ),
            decreases len - pos,
        {
            if pos >= len {
                break ;
            }
            if self.is_complete() {
                break ;
            }
            proof {
                lemma_d3_prefix(k1, k2, k3, self.buf@.push(bytes@[pos as int]), self.buf@.len() as int);
                assert(self.buf@.push(bytes@[pos as int]).take(self.buf@.len() as int) =~= self.buf@);
            }
            self.buf.push(bytes[pos]);
            pos = pos + 1;
            proof {
                assert(self.buf@ =~= old(self).buf@ + bytes@.subrange(start as int, pos as int));
                assert(self.buf@.take(self.buf@.len() - 1) =~= old(self).buf@ + bytes@.subrange(
                    start as int,
                    pos as int - 1,
                ));
            }
        }
        proof {
            let j = self.buf@.len() as int;
            assert(self.buf@ =~= all.take(j));
            if self.buf@.len() >= d3_target(k1, k2, k3, self.buf@) {
                let tp = d3_target(k1, k2, k3, self.buf@);
                lemma_d3_prefix(k1, k2, k3, all, j);
                assert(d3_target(k1, k2, k3, all) == tp);
                if pos == start {
                    assert(self.buf@ == old(self).buf@);
                    if j != 0 {
                        assert(j <= tp);
                    } else {
                        lemma_field_target_le_bound(k1, self.buf@);
                        assert(tp >= 0);
                    }
                    assert(j == tp || (j == 0 && tp == 0));
                } else {
                    if tp < j {
                        let prev = all.take(j - 1);
                        lemma_d3_prefix(k1, k2, k3, self.buf@, tp);
                        assert(d3_target(k1, k2, k3, self.buf@.take(tp)) == tp);
                        assert(prev.take(tp) =~= self.buf@.take(tp));
                        lemma_d3_prefix(k1, k2, k3, prev, tp);
                        assert(d3_target(k1, k2, k3, prev) == tp);
                        assert(false);
                    }
                }
                assert(j == tp);
                if all.len() > tp {
                    assert(d3_feed(k1, k2, k3, old(self).buf@, bytes@.skip(start as int))
                        == all.take(tp));
                } else {
                    assert(self.buf@ =~= all);
                }
            } else {
                assert(pos == len);
                assert(self.buf@ =~= all);
            }
        }
        (pos, !self.is_complete())
    }

    /// Judges the buffered bytes: three field values when every field
    /// is complete, else the earliest field that is short or failed,
    /// named by its position.
    pub fn end(self) -> (r: Result<(FieldValue, FieldValue, FieldValue), Decoder3Error>)
        requires
            self.wf(),
        ensures
            ({
                let s = self.buffered();
                match r {
                    Ok(vals) => d3_parse(self.kind1(), self.kind2(), self.kind3(), s) == (D3Parse::Done {
                        v1: vals.0@,
                        v2: vals.1@,
                        v3: vals.2@,
                        used: s.len() as int,
                    }),
                    Err(Decoder3Error::First(e)) => d3_parse(self.kind1(), self.kind2(), self.kind3(), s)
                        == D3Parse::First(e),
                    Err(Decoder3Error::Second(e)) => d3_parse(self.kind1(), self.kind2(), self.kind3(), s)
                        == D3Parse::Second(e),
                    Err(Decoder3Error::Third(e)) => d3_parse(self.kind1(), self.kind2(), self.kind3(), s)
                        == D3Parse::Third(e),
                    Err(Decoder3Error::UnusedBytes) => false,
                }
            }),
    {
        proof {
            assert(self.buf@.skip(0) =~= self.buf@);
        }
        let (v1, o1) = match field_end(self.k1, self.buf.as_slice(), 0) {
            Ok(p) => p,
            Err(e) => {
                return Err(Decoder3Error::First(e));
            },
        };
        let (v2, o2) = match field_end(self.k2, self.buf.as_slice(), o1) {
            Ok(p) => p,
            Err(e) => {
                return Err(Decoder3Error::Second(e));
            },
        };
        proof {
            assert(self.buf@.skip(o1 as int).skip((o2 - o1) as int) =~= self.buf@.skip(o2 as int));
        }
        let (v3, o3) = match field_end(self.k3, self.buf.as_slice(), o2) {
            Ok(p) => p,
            Err(e) => {
                return Err(Decoder3Error::Third(e));
            },
        };
        proof {
            assert(self.buf@.len() == o3);
        }
        Ok((v1, v2, v3))
    }

    /// Bytes certainly still needed to finish the wire forms announced
    /// so far; a bounded reader that pulls this many at a time never
    /// reads past the record.
    pub fn read_limit(&self) -> (r: usize)
        requires
            self.wf(),
        ensures
            r as int == (if self.buffered().len() < d3_target(self.kind1(), self.kind2(),
                self.kind3(), self.buffered()) {
                d3_target(self.kind1(), self.kind2(), self.kind3(), self.buffered())
                    - self.buffered().len()
            } else {
                0int
            }),
    {
        let target = d3_probe(self.k1, self.k2, self.k3, self.buf.as_slice());
        if self.buf.len() < target {
            target - self.buf.len()
        } else {
            0
        }
    }
}

/// Decodes a record of three fields out of the whole of `bytes`: the
/// compound decoder is run to completion, and the buffer must then be
/// exactly consumed — trailing bytes are an error.
pub fn decode_from_slice3(k1: FieldKind, k2: FieldKind, k3: FieldKind, bytes: &[u8]) -> (r: Result<
    (FieldValue, FieldValue, FieldValue),
    Decoder3Error,
>)
    requires
        kinds_bounded(k1, k2, k3),
    ensures
        ({
            let s = bytes@;
            match r {
                Ok(vals) => d3_parse(k1, k2, k3, s) == (D3Parse::Done {
                    v1: vals.0@,
                    v2: vals.1@,
                    v3: vals.2@,
                    used: s.len() as int,
                }),
                Err(Decoder3Error::First(e)) => d3_parse(k1, k2, k3, s) == D3Parse::First(e),
                Err(Decoder3Error::Second(e)) => d3_parse(k1, k2, k3, s) == D3Parse::Second(e),
                Err(Decoder3Error::Third(e)) => d3_parse(k1, k2, k3, s) == D3Parse::Third(e),
                Err(Decoder3Error::UnusedBytes) => d3_parse(k1, k2, k3, s) matches D3Parse::Done {
                    used,
                    ..
                } && used < s.len(),
            }
        }),
{
    let mut decoder = Decoder3::new(k1, k2, k3);
    let (pos, more) = decoder.push_bytes(bytes, 0);
    proof {
        assert(bytes@.skip(0) =~= bytes@);
        assert(Seq::<u8>::empty() + bytes@ =~= bytes@);
    }
    if more {
        return decoder.end();
    }
    let ghost buffered = decoder.buffered();
    proof {
        if buffered.len() < bytes@.len() {
            lemma_d3_prefix(k1, k2, k3, bytes@, buffered.len() as int);
            assert(bytes@.take(buffered.len() as int) =~= buffered);
        } else {
            assert(buffered =~= bytes@);
        }
    }
    let blen = bytes.len();
    match decoder.end() {
        Err(e) => Err(e),
        Ok(vals) => {
            if pos < blen {
                Err(Decoder3Error::UnusedBytes)
            } else {
                Ok(vals)
            }
        },
    }
}

/// A buffer that stopped exactly at the end of the announced wire form is
/// what feeding the whole input buffers.
proof fn lemma_cs_feed_of_complete(b: Seq<u8>, inp: Seq<u8>, stopped: Seq<u8>)
    requires
        stopped.len() <= (b + inp).len(),
        stopped == (b + inp).take(stopped.len() as int),
        cs_complete(stopped),
        stopped.len() == cs_total(stopped),
        b.len() <= stopped.len(),
    ensures
        cs_feed(b, inp) == stopped,
{
    let all = b + inp;
    assert(stopped[0] == all[0]);
    assert(cs_total(all) == cs_total(stopped));
    if all.len() <= cs_total(all) {
        assert(all.len() <= stopped.len());
        assert(stopped =~= all);
    } else {
        assert(cs_feed(b, inp) == all.take(cs_total(all)));
        assert(all.take(cs_total(all)) =~= stopped);
    }
}

} // verus!
