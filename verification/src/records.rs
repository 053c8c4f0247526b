//! Raw PSBT key/value records.
//!
//! Wire forms, bit-exact:
//! - key: `<keylen> <type_value> <key_data>`, where `keylen` is the compact
//!   size of the type value's wire length plus the data length, and
//!   `keylen == 0` is the end-of-map sentinel;
//! - pair: `<key> <valuelen> <valuedata>`;
//! - proprietary-key payload (carried inside a key's data when its type
//!   value is `0xFC`): `<prefix, length-prefixed> <subtype> <key bytes>`.

use vstd::prelude::*;

use crate::MAX_VEC_SIZE;
use crate::byte_vec::{
    BvParse, append_bytes, byte_vec_encoding, byte_vec_parse, copy_bytes, decode_byte_vec,
    emit_byte_vec,
};
use crate::compact_size::{
    CsParse, canonical_len, compact_size_len, cs_complete, cs_parse, cs_total, cs_value,
    decode_compact_size, emit_compact_size, encoding, lemma_compact_size_roundtrip,
    lemma_encoding_len,
};
use crate::error::Error;

verus! {

/// Upper bound on the trailing key bytes of a proprietary-key payload: a
/// denial-of-service guard, not a protocol limit.
pub const PROPRIETARY_KEY_LIMIT: usize = 1024;

/// The key type reserved for proprietary keys.
pub const PROPRIETARY_TYPE: u64 = 0xFC;

/// A PSBT key in its raw byte form.
#[derive(Debug, Clone)]
pub struct Key {
    /// The type of this PSBT key, encoded as a compact size.
    pub type_value: u64,
    /// The key data itself in raw byte form.
    pub key_data: Vec<u8>,
}

/// A PSBT key-value pair in its raw byte form.
#[derive(Debug, Clone)]
pub struct Pair {
    /// The key of this key-value pair.
    pub key: Key,
    /// The value data of this key-value pair in raw byte form.
    pub value: Vec<u8>,
}

/// A value whose wire form is a compact size: the bridge between a
/// proprietary subtype and the integer it is encoded as.
pub trait SubtypeValue: Sized + Copy {
    /// The integer this value stands for.
    spec fn as_u64(&self) -> u64;

    /// Builds the value standing for `value`.
    fn from_u64(value: u64) -> (r: Self)
        ensures
            r.as_u64() == value,
    ;

    /// The integer this value stands for.
    fn to_u64(&self) -> (r: u64)
        ensures
            r == self.as_u64(),
    ;
}

impl SubtypeValue for u64 {
    open spec fn as_u64(&self) -> u64 {
        *self
    }

    fn from_u64(value: u64) -> (r: Self) {
        value
    }

    fn to_u64(&self) -> (r: u64) {
        *self
    }
}

/// Default subtype numbering for proprietary keys.
pub type ProprietaryType = u64;

/// A proprietary key (a key of type `0xFC`) with its internal structure.
#[derive(Debug, Clone)]
pub struct ProprietaryKey<Subtype: SubtypeValue> {
    /// Prefix grouping keys of one application, to avoid collisions.
    pub prefix: Vec<u8>,
    /// Custom proprietary subtype.
    pub subtype: Subtype,
    /// Additional key bytes, such as serialized public key data.
    pub key: Vec<u8>,
}

/// The wire form of a key.
pub open spec fn key_encoding(type_value: u64, key_data: Seq<u8>) -> Seq<u8> {
    encoding((key_data.len() + canonical_len(type_value)) as u64) + encoding(type_value) + key_data
}

/// The wire form of a pair.
pub open spec fn pair_encoding(type_value: u64, key_data: Seq<u8>, value: Seq<u8>) -> Seq<u8> {
    key_encoding(type_value, key_data) + byte_vec_encoding(value)
}

/// The wire form of a proprietary-key payload.
pub open spec fn proprietary_encoding(prefix: Seq<u8>, subtype: u64, key: Seq<u8>) -> Seq<u8> {
    byte_vec_encoding(prefix) + encoding(subtype) + key
}

/// Outcome of reading one key from the front of a byte sequence.
pub enum KeyParse {
    /// The sequence ends before the key does.
    NeedMore,
    /// A compact size inside the key is non-minimal.
    NonMinimal,
    /// A zero key length: no more records in this map.
    Sentinel,
    /// The key length is shorter than the type value's own wire length.
    LengthMismatch,
    /// The key data length exceeds the allocation guard.
    Oversized,
    /// A key of type `type_value` carrying `key_data`, `used` bytes in all.
    Done { type_value: u64, key_data: Seq<u8>, used: int },
}

/// Reads one key from the front of `s`.
pub open spec fn key_parse(s: Seq<u8>) -> KeyParse {
    match cs_parse(s) {
        CsParse::NeedMore => KeyParse::NeedMore,
        CsParse::NonMinimal => KeyParse::NonMinimal,
        CsParse::Done { value: keylen, used: c0 } => {
            if keylen == 0 {
                KeyParse::Sentinel
            } else {
                match cs_parse(s.skip(c0)) {
                    CsParse::NeedMore => KeyParse::NeedMore,
                    CsParse::NonMinimal => KeyParse::NonMinimal,
                    CsParse::Done { value: type_value, used: c1 } => {
                        if (keylen as int) < canonical_len(type_value) {
                            KeyParse::LengthMismatch
                        } else if keylen - canonical_len(type_value) > MAX_VEC_SIZE {
                            KeyParse::Oversized
                        } else {
                            let data_len = keylen - canonical_len(type_value);
                            if s.len() - c0 - c1 < data_len {
                                KeyParse::NeedMore
                            } else {
                                KeyParse::Done {
                                    type_value,
                                    key_data: s.skip(c0 + c1).take(data_len),
                                    used: c0 + c1 + data_len,
                                }
                            }
                        }
                    },
                }
            }
        },
    }
}

/// Outcome of reading one pair from the front of a byte sequence.
pub enum PairParse {
    /// The sequence ends before the pair does.
    NeedMore,
    /// A compact size inside the pair is non-minimal.
    NonMinimal,
    /// The key announced the end-of-map sentinel.
    Sentinel,
    /// The key length is shorter than the type value's own wire length.
    LengthMismatch,
    /// A declared length exceeds the allocation guard.
    Oversized,
    /// A full pair, `used` bytes in all.
    Done { type_value: u64, key_data: Seq<u8>, value: Seq<u8>, used: int },
}

/// Reads one pair from the front of `s`: a key, then a length-prefixed
/// value.
pub open spec fn pair_parse(s: Seq<u8>) -> PairParse {
    match key_parse(s) {
        KeyParse::NeedMore => PairParse::NeedMore,
        KeyParse::NonMinimal => PairParse::NonMinimal,
        KeyParse::Sentinel => PairParse::Sentinel,
        KeyParse::LengthMismatch => PairParse::LengthMismatch,
        KeyParse::Oversized => PairParse::Oversized,
        KeyParse::Done { type_value, key_data, used: u0 } => {
            match byte_vec_parse(s.skip(u0)) {
                BvParse::NeedMore => PairParse::NeedMore,
                BvParse::NonMinimal => PairParse::NonMinimal,
                BvParse::Oversized => PairParse::Oversized,
                BvParse::Done { data, used: u1 } => {
                    PairParse::Done { type_value, key_data, value: data, used: u0 + u1 }
                },
            }
        },
    }
}

/// Outcome of reading a proprietary-key payload out of a whole byte
/// sequence (a key's `key_data`).
pub enum ProprietaryParse {
    /// The sequence ends before the payload's fixed part does.
    NeedMore,
    /// A compact size inside the payload is non-minimal.
    NonMinimal,
    /// The prefix length, or the trailing key, exceeds its guard.
    Oversized,
    /// A full payload: the whole sequence was consumed.
    Done { prefix: Seq<u8>, subtype: u64, key: Seq<u8> },
}

/// Reads a proprietary-key payload: a length-prefixed prefix, a compact
/// size subtype, then the rest of the sequence as key bytes, which must
/// not exceed [`PROPRIETARY_KEY_LIMIT`].
pub open spec fn proprietary_parse(s: Seq<u8>) -> ProprietaryParse {
    match byte_vec_parse(s) {
        BvParse::NeedMore => ProprietaryParse::NeedMore,
        BvParse::NonMinimal => ProprietaryParse::NonMinimal,
        BvParse::Oversized => ProprietaryParse::Oversized,
        BvParse::Done { data: prefix, used: u0 } => {
            match cs_parse(s.skip(u0)) {
                CsParse::NeedMore => ProprietaryParse::NeedMore,
                CsParse::NonMinimal => ProprietaryParse::NonMinimal,
                CsParse::Done { value: subtype, used: u1 } => {
                    if s.len() - u0 - u1 > PROPRIETARY_KEY_LIMIT {
                        ProprietaryParse::Oversized
                    } else {
                        ProprietaryParse::Done { prefix, subtype, key: s.skip(u0 + u1) }
                    }
                },
            }
        },
    }
}

impl PartialEq for Key {
    fn eq(&self, other: &Self) -> (r: bool) {
        let data_eq = self.key_data == other.key_data;
        proof {
            if data_eq {
                assert(self.key_data@ =~= other.key_data@);
            }
        }
        self.type_value == other.type_value && data_eq
    }
}

impl vstd::std_specs::cmp::PartialEqSpecImpl for Key {
    open spec fn obeys_eq_spec() -> bool {
        true
    }

    open spec fn eq_spec(&self, other: &Self) -> bool {
        self.type_value == other.type_value && self.key_data@ == other.key_data@
    }
}

impl Key {
    /// Reads one key from `bytes` at position `start`, returning the key
    /// and the number of bytes it used.  A zero key length is surfaced as
    /// [`Error::NoMorePairs`], the end-of-map sentinel.  The key data
    /// length is held against [`MAX_VEC_SIZE`] before the buffer is built.
    pub fn decode(bytes: &[u8], start: usize) -> (r: Result<(Key, usize), Error>)
        requires
            start <= bytes@.len(),
        ensures
            ({
                let s = bytes@.skip(start as int);
                match r {
                    Ok(p) => key_parse(s) == (KeyParse::Done {
                        type_value: p.0.type_value,
                        key_data: p.0.key_data@,
                        used: p.1 as int,
                    }) && start + p.1 <= bytes@.len(),
                    Err(e) => match e {
                        Error::UnexpectedEof => key_parse(s) is NeedMore,
                        Error::NonMinimal => key_parse(s) is NonMinimal,
                        Error::NoMorePairs => key_parse(s) is Sentinel,
                        Error::KeyLengthMismatch => key_parse(s) is LengthMismatch,
                        Error::OversizedAllocation => key_parse(s) is Oversized,
                        _ => false,
                    },
                }
            }),
    {
        let ghost s = bytes@.skip(start as int);
        let blen = bytes.len();
        let (keylen, c0) = match decode_compact_size(bytes, start) {
            Ok(p) => p,
            Err(e) => {
                return Err(e);
            },
        };
        if keylen == 0 {
            return Err(Error::NoMorePairs);
        }
        proof {
            assert(s.skip(c0 as int) =~= bytes@.skip(start + c0));
        }
        let (type_value, c1) = match decode_compact_size(bytes, start + c0) {
            Ok(p) => p,
            Err(e) => {
                return Err(e);
            },
        };
        let type_value_len = compact_size_len(type_value);
        if keylen < type_value_len as u64 {
            return Err(Error::KeyLengthMismatch);
        }
        let data_len_wide = keylen - type_value_len as u64;
        if data_len_wide > MAX_VEC_SIZE as u64 {
            return Err(Error::OversizedAllocation);
        }
        let data_len = data_len_wide as usize;
        let data_start = start + c0 + c1;
        if blen - data_start < data_len {
            return Err(Error::UnexpectedEof);
        }
        let key_data = copy_bytes(bytes, data_start, data_len);
        proof {
            assert(key_data@ =~= s.skip(c0 + c1).take(data_len as int));
        }
        Ok((Key { type_value, key_data }, c0 + c1 + data_len))
    }

    /// Serializes this key.  The emitted key length is always the data
    /// length plus the type value's canonical length, computed fresh.
    pub fn serialize(&self) -> (r: Vec<u8>)
        requires
            self.key_data@.len() + canonical_len(self.type_value) <= u64::MAX,
        ensures
            r@ == key_encoding(self.type_value, self.key_data@),
    {
        let mut buf: Vec<u8> = Vec::new();
        let keylen = (self.key_data.len() as u64) + (compact_size_len(self.type_value) as u64);
        emit_compact_size(&mut buf, keylen);
        emit_compact_size(&mut buf, self.type_value);
        append_bytes(&mut buf, self.key_data.as_slice());
        proof {
            assert(buf@ =~= key_encoding(self.type_value, self.key_data@));
        }
        buf
    }
}

impl PartialEq for Pair {
    fn eq(&self, other: &Self) -> (r: bool) {
        let value_eq = self.value == other.value;
        proof {
            if value_eq {
                assert(self.value@ =~= other.value@);
            }
        }
        self.key == other.key && value_eq
    }
}

impl vstd::std_specs::cmp::PartialEqSpecImpl for Pair {
    open spec fn obeys_eq_spec() -> bool {
        true
    }

    open spec fn eq_spec(&self, other: &Self) -> bool {
        self.key.type_value == other.key.type_value && self.key.key_data@ == other.key.key_data@
            && self.value@ == other.value@
    }
}

impl Pair {
    /// Reads one pair from `bytes` at position `start`: a key, then a
    /// length-prefixed value.
    pub fn decode(bytes: &[u8], start: usize) -> (r: Result<(Pair, usize), Error>)
        requires
            start <= bytes@.len(),
        ensures
            ({
                let s = bytes@.skip(start as int);
                match r {
                    Ok(p) => pair_parse(s) == (PairParse::Done {
                        type_value: p.0.key.type_value,
                        key_data: p.0.key.key_data@,
                        value: p.0.value@,
                        used: p.1 as int,
                    }) && start + p.1 <= bytes@.len(),
                    Err(e) => match e {
                        Error::UnexpectedEof => pair_parse(s) is NeedMore,
                        Error::NonMinimal => pair_parse(s) is NonMinimal,
                        Error::NoMorePairs => pair_parse(s) is Sentinel,
                        Error::KeyLengthMismatch => pair_parse(s) is LengthMismatch,
                        Error::OversizedAllocation => pair_parse(s) is Oversized,
                        _ => false,
                    },
                }
            }),
    {
        let ghost s = bytes@.skip(start as int);
        let _blen = bytes.len();
        let (key, u0) = match Key::decode(bytes, start) {
            Ok(p) => p,
            Err(e) => {
                return Err(e);
            },
        };
        proof {
            assert(s.skip(u0 as int) =~= bytes@.skip(start + u0));
        }
        let (value, u1) = match decode_byte_vec(bytes, start + u0) {
            Ok(p) => p,
            Err(e) => {
                return Err(e);
            },
        };
        Ok((Pair { key, value }, u0 + u1))
    }

    /// Reads one pair from the whole of `bytes`; bytes past the pair's end
    /// are left unread, as a streaming caller would leave them.
    pub fn deserialize(bytes: &[u8]) -> (r: Result<Pair, Error>)
        ensures
            ({
                let s = bytes@;
                match r {
                    Ok(p) => pair_parse(s) matches PairParse::Done {
                        type_value,
                        key_data,
                        value,
                        used,
                    } && p.key.type_value == type_value && p.key.key_data@ == key_data && p.value@
                        == value,
                    Err(e) => match e {
                        Error::UnexpectedEof => pair_parse(s) is NeedMore,
                        Error::NonMinimal => pair_parse(s) is NonMinimal,
                        Error::NoMorePairs => pair_parse(s) is Sentinel,
                        Error::KeyLengthMismatch => pair_parse(s) is LengthMismatch,
                        Error::OversizedAllocation => pair_parse(s) is Oversized,
                        _ => false,
                    },
                }
            }),
    {
        proof {
            assert(bytes@.skip(0) =~= bytes@);
        }
        match Pair::decode(bytes, 0) {
            Ok(p) => Ok(p.0),
            Err(e) => Err(e),
        }
    }

    /// Serializes this pair: the key, then the length-prefixed value.
    pub fn serialize(&self) -> (r: Vec<u8>)
        requires
            self.key.key_data@.len() + canonical_len(self.key.type_value) <= u64::MAX,
        ensures
            r@ == pair_encoding(self.key.type_value, self.key.key_data@, self.value@),
    {
        let mut buf = self.key.serialize();
        emit_byte_vec(&mut buf, self.value.as_slice());
        proof {
            assert(buf@ =~= pair_encoding(self.key.type_value, self.key.key_data@, self.value@));
        }
        buf
    }
}

impl<Subtype: SubtypeValue> ProprietaryKey<Subtype> {
    /// Serializes this proprietary key's payload: the length-prefixed
    /// prefix, the subtype as a compact size, then the raw key bytes.
    pub fn consensus_encode(&self) -> (r: Vec<u8>)
        ensures
            r@ == proprietary_encoding(self.prefix@, self.subtype.as_u64(), self.key@),
    {
        let mut buf: Vec<u8> = Vec::new();
        emit_byte_vec(&mut buf, self.prefix.as_slice());
        emit_compact_size(&mut buf, self.subtype.to_u64());
        append_bytes(&mut buf, self.key.as_slice());
        proof {
            assert(buf@ =~= proprietary_encoding(self.prefix@, self.subtype.as_u64(), self.key@));
        }
        buf
    }

    /// Reads a proprietary-key payload out of the whole of `bytes`.  The
    /// trailing key bytes are capped at [`PROPRIETARY_KEY_LIMIT`].
    pub fn consensus_decode(bytes: &[u8]) -> (r: Result<Self, Error>)
        ensures
            ({
                let s = bytes@;
                match r {
                    Ok(p) => proprietary_parse(s) == (ProprietaryParse::Done {
                        prefix: p.prefix@,
                        subtype: p.subtype.as_u64(),
                        key: p.key@,
                    }),
                    Err(e) => match e {
                        Error::UnexpectedEof => proprietary_parse(s) is NeedMore,
                        Error::NonMinimal => proprietary_parse(s) is NonMinimal,
                        Error::OversizedAllocation => proprietary_parse(s) is Oversized,
                        _ => false,
                    },
                }
            }),
    {
        proof {
            assert(bytes@.skip(0) =~= bytes@);
        }
        let (prefix, u0) = match decode_byte_vec(bytes, 0) {
            Ok(p) => p,
            Err(e) => {
                return Err(e);
            },
        };
        proof {
            assert(bytes@.skip(u0 as int) =~= bytes@.skip(0).skip(u0 as int));
        }
        let (subtype_raw, u1) = match decode_compact_size(bytes, u0) {
            Ok(p) => p,
            Err(e) => {
                return Err(e);
            },
        };
        let blen = bytes.len();
        let rest = blen - (u0 + u1);
        if rest > PROPRIETARY_KEY_LIMIT {
            return Err(Error::OversizedAllocation);
        }
        let key = copy_bytes(bytes, u0 + u1, rest);
        proof {
            assert(key@ =~= bytes@.skip((u0 + u1) as int));
        }
        Ok(ProprietaryKey { prefix, subtype: Subtype::from_u64(subtype_raw), key })
    }

    /// Builds the full [`Key`] corresponding to this proprietary key: type
    /// value `0xFC`, key data this payload's own serialization.
    pub fn to_key(&self) -> (r: Key)
        ensures
            r.type_value == PROPRIETARY_TYPE,
            r.key_data@ == proprietary_encoding(self.prefix@, self.subtype.as_u64(), self.key@),
    {
        Key { type_value: PROPRIETARY_TYPE, key_data: self.consensus_encode() }
    }

    /// Rebuilds a proprietary key from a full [`Key`]; fails with
    /// [`Error::InvalidProprietaryKey`] unless the key's type value is
    /// `0xFC`, then reads the payload out of the key's data.
    pub fn try_from(key: Key) -> (r: Result<Self, Error>)
        ensures
            ({
                let s = key.key_data@;
                match r {
                    Ok(p) => key.type_value == PROPRIETARY_TYPE && proprietary_parse(s)
                        == (ProprietaryParse::Done {
                        prefix: p.prefix@,
                        subtype: p.subtype.as_u64(),
                        key: p.key@,
                    }),
                    Err(e) => match e {
                        Error::InvalidProprietaryKey => key.type_value != PROPRIETARY_TYPE,
                        Error::UnexpectedEof => key.type_value == PROPRIETARY_TYPE
                            && proprietary_parse(s) is NeedMore,
                        Error::NonMinimal => key.type_value == PROPRIETARY_TYPE
                            && proprietary_parse(s) is NonMinimal,
                        Error::OversizedAllocation => key.type_value == PROPRIETARY_TYPE
                            && proprietary_parse(s) is Oversized,
                        _ => false,
                    },
                }
            }),
    {
        if key.type_value != PROPRIETARY_TYPE {
            return Err(Error::InvalidProprietaryKey);
        }
        Self::consensus_decode(key.key_data.as_slice())
    }
}

/// Round trip: a serialized key within the allocation guard, followed by
/// anything at all, parses back to exactly the value it encodes,
/// consuming exactly its own wire form.  Serialization is a function of
/// the value, so the encoding is deterministic.
pub proof fn lemma_key_roundtrip(type_value: u64, key_data: Seq<u8>, rest: Seq<u8>)
    requires
        key_data.len() <= MAX_VEC_SIZE,
    ensures
        key_parse(key_encoding(type_value, key_data) + rest) == (KeyParse::Done {
            type_value,
            key_data,
            used: key_encoding(type_value, key_data).len() as int,
        }),
{
    let keylen = (key_data.len() + canonical_len(type_value)) as u64;
    let s = key_encoding(type_value, key_data) + rest;
    lemma_encoding_len(keylen);
    lemma_encoding_len(type_value);
    assert(s =~= encoding(keylen) + (encoding(type_value) + key_data + rest));
    lemma_compact_size_roundtrip(keylen, encoding(type_value) + key_data + rest);
    let c0 = canonical_len(keylen);
    assert(s.skip(c0) =~= encoding(type_value) + (key_data + rest));
    lemma_compact_size_roundtrip(type_value, key_data + rest);
    let c1 = canonical_len(type_value);
    assert(s.skip(c0 + c1) =~= key_data + rest);
    assert((key_data + rest).take(key_data.len() as int) =~= key_data);
}

/// Round trip for pairs: a serialized pair within the allocation guard,
/// followed by anything at all, parses back to exactly the value it
/// encodes, consuming exactly its own wire form.
pub proof fn lemma_pair_roundtrip(
    type_value: u64,
    key_data: Seq<u8>,
    value: Seq<u8>,
    rest: Seq<u8>,
)
    requires
        key_data.len() <= MAX_VEC_SIZE,
        value.len() <= MAX_VEC_SIZE,
    ensures
        pair_parse(pair_encoding(type_value, key_data, value) + rest) == (PairParse::Done {
            type_value,
            key_data,
            value,
            used: pair_encoding(type_value, key_data, value).len() as int,
        }),
{
    let s = pair_encoding(type_value, key_data, value) + rest;
    assert(s =~= key_encoding(type_value, key_data) + (byte_vec_encoding(value) + rest));
    lemma_key_roundtrip(type_value, key_data, byte_vec_encoding(value) + rest);
    let u0 = key_encoding(type_value, key_data).len() as int;
    assert(s.skip(u0) =~= byte_vec_encoding(value) + rest);
    crate::byte_vec::lemma_byte_vec_roundtrip(value, rest);
}

/// Canonical length: the key length a serialized key reports is always
/// the data length plus the type value's canonical length, never an
/// inherited one.
pub proof fn lemma_key_reports_canonical_length(type_value: u64, key_data: Seq<u8>)
    requires
        key_data.len() + canonical_len(type_value) <= u64::MAX,
    ensures
        cs_parse(key_encoding(type_value, key_data)) == (CsParse::Done {
            value: (key_data.len() + canonical_len(type_value)) as u64,
            used: canonical_len((key_data.len() + canonical_len(type_value)) as u64),
        }),
{
    let keylen = (key_data.len() + canonical_len(type_value)) as u64;
    assert(key_encoding(type_value, key_data) =~= encoding(keylen) + (encoding(type_value)
        + key_data));
    lemma_compact_size_roundtrip(keylen, encoding(type_value) + key_data);
}

/// Sentinel: a zero key length, whatever follows it, is the end-of-map
/// condition, never a parse error and never a key.
pub proof fn lemma_sentinel(rest: Seq<u8>)
    ensures
        key_parse(encoding(0) + rest) is Sentinel,
{
    lemma_compact_size_roundtrip(0, rest);
}

/// Length consistency: a key length shorter than the type value's own
/// wire length fails as a length mismatch, whatever follows.
pub proof fn lemma_length_mismatch(keylen: u64, type_value: u64, rest: Seq<u8>)
    requires
        0 < keylen < canonical_len(type_value),
    ensures
        key_parse(encoding(keylen) + encoding(type_value) + rest) is LengthMismatch,
{
    let s = encoding(keylen) + encoding(type_value) + rest;
    lemma_encoding_len(keylen);
    assert(s =~= encoding(keylen) + (encoding(type_value) + rest));
    lemma_compact_size_roundtrip(keylen, encoding(type_value) + rest);
    let c0 = canonical_len(keylen);
    assert(s.skip(c0) =~= encoding(type_value) + rest);
    lemma_compact_size_roundtrip(type_value, rest);
}

/// Two byte sequences that agree up to `t` yield the same compact-size
/// parse when the whole announced form lies within the first `t` bytes.
proof fn lemma_cs_parse_take(b: Seq<u8>, t: int)
    requires
        cs_complete(b),
        cs_total(b) <= t <= b.len(),
    ensures
        cs_parse(b.take(t)) == cs_parse(b),
{
    let a = b.take(t);
    assert(a[0] == b[0]);
    assert(cs_total(a) == cs_total(b));
    assert(cs_value(a) == cs_value(b));
}

/// Truncation: cutting a well-formed key's wire form anywhere short of
/// its end yields "more bytes required", never a spurious success and
/// never a different error.
pub proof fn lemma_key_truncation(s: Seq<u8>, type_value: u64, key_data: Seq<u8>, used: int, t: int)
    requires
        key_parse(s) == (KeyParse::Done { type_value, key_data, used }),
        0 <= t < used,
    ensures
        key_parse(s.take(t)) is NeedMore,
{
    let p = s.take(t);
    let c0 = cs_total(s);
    let keylen = cs_value(s);
    if t == 0 {
        assert(!cs_complete(p));
    } else if t < c0 {
        assert(p[0] == s[0]);
        assert(cs_total(p) == cs_total(s));
        assert(!cs_complete(p));
    } else {
        lemma_cs_parse_take(s, t);
        let s2 = s.skip(c0);
        let p2 = p.skip(c0);
        assert(p2 =~= s2.take(t - c0));
        let c1 = cs_total(s2);
        if t - c0 == 0 {
            assert(!cs_complete(p2));
        } else if t - c0 < c1 {
            assert(p2[0] == s2[0]);
            assert(cs_total(p2) == cs_total(s2));
            assert(!cs_complete(p2));
        } else {
            lemma_cs_parse_take(s2, t - c0);
            let data_len = keylen - canonical_len(cs_value(s2));
            assert(p.len() - c0 - c1 < data_len);
        }
    }
}

/// Round trip for proprietary keys: a payload whose prefix fits the
/// allocation guard and whose key bytes fit their cap parses back, out of
/// the full [`Key`] that [`ProprietaryKey::to_key`] builds, to exactly
/// the payload that was encoded.
pub proof fn lemma_proprietary_roundtrip(prefix: Seq<u8>, subtype: u64, key: Seq<u8>)
    requires
        prefix.len() <= MAX_VEC_SIZE,
        key.len() <= PROPRIETARY_KEY_LIMIT,
    ensures
        proprietary_parse(proprietary_encoding(prefix, subtype, key)) == (ProprietaryParse::Done {
            prefix,
            subtype,
            key,
        }),
{
    let s = proprietary_encoding(prefix, subtype, key);
    assert(s =~= byte_vec_encoding(prefix) + (encoding(subtype) + key));
    crate::byte_vec::lemma_byte_vec_roundtrip(prefix, encoding(subtype) + key);
    let u0 = byte_vec_encoding(prefix).len() as int;
    assert(s.skip(u0) =~= encoding(subtype) + key);
    lemma_compact_size_roundtrip(subtype, key);
    lemma_encoding_len(subtype);
    let u1 = canonical_len(subtype);
    assert(s.skip(u0 + u1) =~= key);
}

} // verus!
