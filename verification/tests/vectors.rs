use consensus_encoding::compact_size::encode_compact_size;
use consensus_encoding::error::Decoder3Error;
use consensus_encoding::stream::{
    CompactSizeDecoder, CompactSizeEncoder, Decoder3, FieldKind, FieldValue, compact_size_bytes,
    decode_from_slice3, encode_to_vec,
};

// The packet shape used throughout: a 4-byte version, a compact-size
// length-prefixed payload, a 4-byte checksum.
fn packet_kinds() -> (FieldKind, FieldKind, FieldKind) {
    (FieldKind::Fixed(4), FieldKind::ByteVec, FieldKind::Fixed(4))
}

fn bytes_of(v: FieldValue) -> Vec<u8> {
    match v {
        FieldValue::Bytes(b) => b,
        FieldValue::Num(_) => panic!("expected a bytes field"),
    }
}

fn encode_packet(version: &[u8], payload: &[u8], checksum: &[u8]) -> Vec<u8> {
    let mut out = Vec::new();
    out.extend_from_slice(version);
    out.extend_from_slice(&encode_compact_size(payload.len() as u64));
    out.extend_from_slice(payload);
    out.extend_from_slice(checksum);
    out
}

fn decode_packet(data: &[u8]) -> Result<(Vec<u8>, Vec<u8>, Vec<u8>), Decoder3Error> {
    let (k1, k2, k3) = packet_kinds();
    let (v1, v2, v3) = decode_from_slice3(k1, k2, k3, data)?;
    Ok((bytes_of(v1), bytes_of(v2), bytes_of(v3)))
}

fn decode_chunked(data: &[u8], chunk: usize) -> Result<(Vec<u8>, Vec<u8>, Vec<u8>), Decoder3Error> {
    let (k1, k2, k3) = packet_kinds();
    let mut decoder = Decoder3::new(k1, k2, k3);
    let mut pos: usize = 0;
    while pos < data.len() {
        let end = usize::min(pos + chunk, data.len());
        let (new_pos, needs_more) = decoder.push_bytes(&data[..end], pos);
        if needs_more {
            assert_eq!(new_pos, end, "decoder must fully consume each provided chunk");
        }
        pos = new_pos;
        if !needs_more {
            break;
        }
    }
    let (v1, v2, v3) = decoder.end()?;
    Ok((bytes_of(v1), bytes_of(v2), bytes_of(v3)))
}

#[test]
fn vector_packet_roundtrip_small_payload() {
    let vector = [
        0x01, 0x00, 0x00, 0x00, // version
        0x03, // compact size payload length
        0xAA, 0xBB, 0xCC, // payload bytes
        0xDE, 0xAD, 0xBE, 0xEF, // checksum
    ];

    let (version, payload, checksum) = decode_packet(&vector).expect("valid vector must decode");
    assert_eq!(version, vec![1, 0, 0, 0]);
    assert_eq!(payload, vec![0xAA, 0xBB, 0xCC]);
    assert_eq!(checksum, vec![0xDE, 0xAD, 0xBE, 0xEF]);
    assert_eq!(encode_packet(&version, &payload, &checksum), vector);
}

#[test]
fn vector_packet_roundtrip_compact_size_fd_boundary() {
    let payload = vec![0x42; 0xFD];
    let encoded = encode_packet(&[2, 0, 0, 0], &payload, &[9, 8, 7, 6]);

    assert_eq!(&encoded[..7], &[2, 0, 0, 0, 0xFD, 0xFD, 0x00]);
    let (version, decoded_payload, checksum) =
        decode_packet(&encoded).expect("boundary vector must decode");
    assert_eq!(version, vec![2, 0, 0, 0]);
    assert_eq!(decoded_payload, payload);
    assert_eq!(checksum, vec![9, 8, 7, 6]);
}

#[test]
fn vector_packet_rejects_non_minimal_compact_size_length() {
    let vector = [
        0x01, 0x00, 0x00, 0x00, // version
        0xFD, 0xFC, 0x00, // non-minimal payload length (252 should be encoded in one byte)
        0xDE, 0xAD, 0xBE, 0xEF, // checksum bytes that should not rescue decoding
    ];
    let err = decode_packet(&vector).expect_err("non-minimal compact size must fail");
    assert!(matches!(err, Decoder3Error::Second(_)));
}

#[test]
fn vector_packet_rejects_truncated_payload() {
    let vector = [
        0x01, 0x00, 0x00, 0x00, // version
        0x03, // payload length
        0xAA, // payload truncated (needs two more bytes)
    ];
    let err = decode_packet(&vector).expect_err("truncated payload must fail");
    assert!(matches!(err, Decoder3Error::Second(_)));
}

#[test]
fn vector_packet_rejects_trailing_bytes() {
    let mut vector = encode_packet(&[1, 0, 0, 0], &[0x11], &[2, 2, 2, 2]);
    vector.push(0x99);
    let err = decode_packet(&vector).expect_err("trailing bytes must fail");
    assert!(matches!(err, Decoder3Error::UnusedBytes));
}

#[test]
fn vector_packet_chunked_decoder_matches_slice_decoder() {
    let payload: Vec<u8> = (0_u8..=31).collect();
    let bytes = encode_packet(&[3, 0, 0, 0], &payload, &[0xAA, 0xBB, 0xCC, 0xDD]);

    let slice_decoded = decode_packet(&bytes).expect("slice decode");
    for chunk in [1_usize, 2, 5, 8, 64] {
        let chunked = decode_chunked(&bytes, chunk).expect("chunked decode");
        assert_eq!(chunked, slice_decoded, "chunk size {chunk}");
    }
}

#[test]
fn compact_size_roundtrip_u16() {
    // Every u16 value round-trips through the resumable encoder and the
    // resumable decoder, and the whole encoding is consumed in one push.
    for n in 0..=0xFFFF_u32 {
        let value = n as usize;
        let (encoded, encoded_len) = compact_size_bytes(value);
        let mut decoder = CompactSizeDecoder::new();
        let (consumed, needs_more) = decoder.push_bytes(&encoded[..encoded_len], 0);

        assert!(!needs_more);
        assert_eq!(consumed, encoded_len);
        assert_eq!(decoder.end().unwrap(), value as u64);
    }
}

#[test]
fn compact_size_rejects_non_minimal_encoding() {
    let mut decoder = CompactSizeDecoder::new();
    let bytes = [0xFD, 0xFC, 0x00];
    let (consumed, needs_more) = decoder.push_bytes(&bytes, 0);

    assert!(!needs_more);
    assert_eq!(consumed, bytes.len());
    assert!(decoder.end().is_err());
}

#[test]
fn compact_size_decoder_takes_only_what_it_needs() {
    // A chunk holding a whole compact size and more: the decoder stops
    // at the end of the wire form and leaves the rest exactly as given.
    let bytes = [0xFD, 0xFD, 0x00, 0x77, 0x88];
    let mut decoder = CompactSizeDecoder::new();
    let (consumed, needs_more) = decoder.push_bytes(&bytes, 0);
    assert!(!needs_more);
    assert_eq!(consumed, 3);
    assert_eq!(decoder.end().unwrap(), 0xFD);
}

#[test]
fn compact_size_decoder_resumes_across_chunks() {
    // One wire form split byte by byte across pushes decodes to the same
    // value as a single push.
    let bytes = [0xFE, 0x00, 0x00, 0x01, 0x00];
    let mut decoder = CompactSizeDecoder::new();
    for i in 0..bytes.len() {
        let (consumed, needs_more) = decoder.push_bytes(&bytes[..i + 1], i);
        assert_eq!(consumed, i + 1);
        assert_eq!(needs_more, i + 1 < bytes.len());
    }
    assert_eq!(decoder.end().unwrap(), 0x1_0000);
}

#[test]
fn compact_size_decoder_read_limit_shrinks() {
    let mut decoder = CompactSizeDecoder::new();
    assert_eq!(decoder.read_limit(), 9);
    let bytes = [0xFD];
    decoder.push_bytes(&bytes, 0);
    assert_eq!(decoder.read_limit(), 2);
}

#[test]
fn compact_size_encoder_yields_one_chunk() {
    let mut encoder = CompactSizeEncoder::new(0xFD);
    let chunk = encoder.current_chunk();
    assert_eq!(chunk, vec![0xFD, 0xFD, 0x00]);
    assert!(!encoder.advance());
    assert!(encoder.current_chunk().is_empty());
}

#[test]
fn encode_to_vec_drains_encoder_chunks() {
    let mut encoder = CompactSizeEncoder::new(0x1_0000);
    let out = encode_to_vec(&mut encoder);
    assert_eq!(out, encode_compact_size(0x1_0000));
    assert_eq!(out, vec![0xFE, 0x00, 0x00, 0x01, 0x00]);
}

#[test]
fn decoder3_read_limit_tracks_remaining_need() {
    let (k1, k2, k3) = packet_kinds();
    let mut decoder = Decoder3::new(k1, k2, k3);
    // Before any input only the first field's need is announced.
    assert_eq!(decoder.read_limit(), 4);
    let bytes = [1, 0, 0, 0, 0x02, 0xAA];
    decoder.push_bytes(&bytes, 0);
    // Version done, payload length 2 seen, one payload byte in: one
    // payload byte is announced as certainly still needed.
    assert_eq!(decoder.read_limit(), 1);
    decoder.push_bytes(&[0xBB], 0);
    // Payload done: the checksum is announced.
    assert_eq!(decoder.read_limit(), 4);
}

#[test]
fn decoder3_oversized_payload_fails_before_allocation() {
    // A declared payload length past the allocation guard fails as the
    // second field, with nothing after it consumed.
    let mut vector: Vec<u8> = vec![1, 0, 0, 0];
    vector.extend_from_slice(&encode_compact_size(4_000_001));
    vector.extend_from_slice(&[0xDE, 0xAD, 0xBE, 0xEF]);
    let err = decode_packet(&vector).expect_err("oversized payload must fail");
    assert!(matches!(err, Decoder3Error::Second(_)));
}
