use miknet::cookie::Cookie;
use miknet::gram::{Chunk, CodecError, Gram, GramCodec, MTU_BYTES};

fn sample_cookie() -> Cookie {
    Cookie { peer_tsn: 100, token: 42, tsn: 7, issued_at: 3, mac: 0xdead_beef }
}

#[test]
fn runner() {
    let gram = Gram { token: 0, chunks: vec![Chunk::CookieAck] };
    let bytes = GramCodec.encode(&gram).expect("serialized_gram");
    let decoded = GramCodec.decode(&bytes).expect("to generate events");
    assert_eq!(decoded, gram);
}

#[test]
fn round_trip_every_chunk_kind() {
    let gram = Gram {
        token: 0x0102_0304,
        chunks: vec![
            Chunk::Init { token: 0, tsn: 100 },
            Chunk::InitAck { token: 42, tsn: 7, state_cookie: sample_cookie() },
            Chunk::CookieEcho(sample_cookie()),
            Chunk::CookieAck,
            Chunk::Data { stream_id: 3, ordinal: 9, payload: vec![1, 2, 3, 255, 0] },
            Chunk::DataAck { stream_id: 3, ordinal: 9 },
            Chunk::Shutdown,
            Chunk::ShutdownAck,
        ],
    };
    let bytes = GramCodec.encode(&gram).expect("round trip frame encodes");
    assert!(bytes.len() <= MTU_BYTES);
    let decoded = GramCodec.decode(&bytes).expect("round trip frame decodes");
    assert_eq!(decoded, gram);
}

#[test]
fn round_trip_empty_payload_and_empty_gram() {
    let empty = Gram { token: 7, chunks: vec![] };
    let bytes = GramCodec.encode(&empty).expect("empty gram encodes");
    assert_eq!(bytes.len(), 4);
    assert_eq!(GramCodec.decode(&bytes).expect("empty gram decodes"), empty);

    let gram = Gram {
        token: 7,
        chunks: vec![Chunk::Data { stream_id: 0, ordinal: 1, payload: vec![] }],
    };
    let bytes = GramCodec.encode(&gram).expect("empty payload encodes");
    assert_eq!(GramCodec.decode(&bytes).expect("empty payload decodes"), gram);
}

#[test]
fn encode_exact_layout_is_deterministic() {
    let gram = Gram {
        token: 0x0102_0304,
        chunks: vec![Chunk::Data { stream_id: 1, ordinal: 2, payload: vec![0xaa, 0xbb] }],
    };
    let bytes = GramCodec.encode(&gram).expect("encodes");
    assert_eq!(
        bytes,
        vec![
            0x04, 0x03, 0x02, 0x01, // token, little endian
            4,    // data tag
            1, 0, 0, 0, // stream id
            2, 0, 0, 0, // ordinal
            2, 0, // payload length
            0xaa, 0xbb, // payload
        ]
    );
}

#[test]
fn encode_refuses_oversize_frame() {
    // One payload that cannot fit a frame at all.
    let gram = Gram {
        token: 1,
        chunks: vec![Chunk::Data { stream_id: 0, ordinal: 1, payload: vec![0; 1386] }],
    };
    assert_eq!(GramCodec.encode(&gram), Err(CodecError::Oversize));

    // Chunks that are individually fine but together exceed the limit.
    let gram = Gram {
        token: 1,
        chunks: vec![
            Chunk::Data { stream_id: 0, ordinal: 1, payload: vec![0; 700] },
            Chunk::Data { stream_id: 0, ordinal: 2, payload: vec![0; 700] },
        ],
    };
    assert_eq!(GramCodec.encode(&gram), Err(CodecError::Oversize));

    // The largest frame that does fit.
    let gram = Gram {
        token: 1,
        chunks: vec![Chunk::Data { stream_id: 0, ordinal: 1, payload: vec![0; 1385] }],
    };
    let bytes = GramCodec.encode(&gram).expect("frame at the limit encodes");
    assert_eq!(bytes.len(), MTU_BYTES);
}

#[test]
fn decode_refuses_oversize_and_malformed() {
    assert_eq!(GramCodec.decode(&vec![0u8; 1401]), Err(CodecError::Oversize));
    // Shorter than a token.
    assert_eq!(GramCodec.decode(&[1, 2, 3]), Err(CodecError::Malformed));
    // Unknown chunk tag.
    assert_eq!(GramCodec.decode(&[0, 0, 0, 0, 99]), Err(CodecError::Malformed));
    // Truncated Init chunk.
    assert_eq!(GramCodec.decode(&[0, 0, 0, 0, 0, 1, 2]), Err(CodecError::Malformed));
    // Data chunk whose declared payload length overruns the buffer.
    assert_eq!(
        GramCodec.decode(&[0, 0, 0, 0, 4, 1, 0, 0, 0, 1, 0, 0, 0, 9, 0, 0xaa]),
        Err(CodecError::Malformed)
    );
}
