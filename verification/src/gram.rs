//! gram defines the atomic unit of the miknet protocol and its wire codec.
//!
//! All transmissions are represented as a [`Gram`] before they are written
//! on the network: one datagram-sized frame carrying the association token
//! and an ordered sequence of [`Chunk`]s. The byte layout is fixed and
//! deterministic: the token in four little-endian bytes, then each chunk as
//! a one-byte tag followed by its fields, variable-length payloads with a
//! two-byte length prefix. A frame never exceeds [`MTU_BYTES`] bytes:
//! encoding refuses to produce a larger frame and decoding refuses to
//! accept one.

use vstd::prelude::*;

use crate::cookie::Cookie;

verus! {

/// The maximum transmission unit: no encoded gram may exceed this size.
pub const MTU_BYTES: usize = 1400;

/// The largest payload a single data chunk can carry inside one frame.
pub const MAX_PAYLOAD: usize = 1385;

/// A single protocol message unit nested inside a gram: the four
/// handshake units, ordered data and its acknowledgment, and the
/// close-intent pair.
#[derive(Clone, Debug, PartialEq, Eq)]
pub enum Chunk {
    /// Handshake opener; `token` is zero until an association exists.
    Init { token: u32, tsn: u32 },
    /// Stateless answer to `Init`, carrying the responder's choices.
    InitAck { token: u32, tsn: u32, state_cookie: Cookie },
    /// The issued cookie, echoed unmodified.
    CookieEcho(Cookie),
    /// Completes the handshake.
    CookieAck,
    /// One ordered payload on a stream.
    Data { stream_id: u32, ordinal: u32, payload: Vec<u8> },
    /// Acknowledges one data chunk.
    DataAck { stream_id: u32, ordinal: u32 },
    /// Close intent.
    Shutdown,
    /// Acknowledges a close intent.
    ShutdownAck,
}

/// The mathematical model of a [`Chunk`].
#[verifier::ext_equal]
pub enum ChunkV {
    Init { token: u32, tsn: u32 },
    InitAck { token: u32, tsn: u32, state_cookie: Cookie },
    CookieEcho(Cookie),
    CookieAck,
    Data { stream_id: u32, ordinal: u32, payload: Seq<u8> },
    DataAck { stream_id: u32, ordinal: u32 },
    Shutdown,
    ShutdownAck,
}

impl View for Chunk {
    type V = ChunkV;

    open spec fn view(&self) -> ChunkV {
        match self {
            Chunk::Init { token, tsn } => ChunkV::Init { token: *token, tsn: *tsn },
            Chunk::InitAck { token, tsn, state_cookie } => ChunkV::InitAck {
                token: *token,
                tsn: *tsn,
                state_cookie: *state_cookie,
            },
            Chunk::CookieEcho(c) => ChunkV::CookieEcho(*c),
            Chunk::CookieAck => ChunkV::CookieAck,
            Chunk::Data { stream_id, ordinal, payload } => ChunkV::Data {
                stream_id: *stream_id,
                ordinal: *ordinal,
                payload: payload@,
            },
            Chunk::DataAck { stream_id, ordinal } => ChunkV::DataAck {
                stream_id: *stream_id,
                ordinal: *ordinal,
            },
            Chunk::Shutdown => ChunkV::Shutdown,
            Chunk::ShutdownAck => ChunkV::ShutdownAck,
        }
    }
}

/// Gram is the atomic unit of the miknet protocol. All transmissions are
/// represented as a gram before they are written on the network.
#[derive(Clone, Debug, PartialEq, Eq)]
pub struct Gram {
    pub token: u32,
    pub chunks: Vec<Chunk>,
}

/// The mathematical model of a [`Gram`].
#[verifier::ext_equal]
pub struct GramV {
    pub token: u32,
    pub chunks: Seq<ChunkV>,
}

impl View for Gram {
    type V = GramV;

    open spec fn view(&self) -> GramV {
        GramV { token: self.token, chunks: self.chunks@.map_values(|c: Chunk| c@) }
    }
}

/// A 32-bit word as four little-endian bytes.
pub open spec fn u32_le(x: u32) -> Seq<u8> {
    seq![
        (x & 0xff) as u8,
        ((x >> 8u32) & 0xff) as u8,
        ((x >> 16u32) & 0xff) as u8,
        ((x >> 24u32) & 0xff) as u8,
    ]
}

/// A 16-bit word as two little-endian bytes.
pub open spec fn u16_le(x: u16) -> Seq<u8> {
    seq![(x & 0xff) as u8, ((x >> 8u16) & 0xff) as u8]
}

/// The 32-bit word read from four little-endian bytes.
pub open spec fn u32_from(b0: u8, b1: u8, b2: u8, b3: u8) -> u32 {
    (b0 as u32) | ((b1 as u32) << 8u32) | ((b2 as u32) << 16u32) | ((b3 as u32) << 24u32)
}

/// The 16-bit word read from two little-endian bytes.
pub open spec fn u16_from(b0: u8, b1: u8) -> u16 {
    (b0 as u16) | ((b1 as u16) << 8u16)
}

/// The wire form of a cookie: its five words, little-endian.
pub open spec fn cookie_bytes(c: Cookie) -> Seq<u8> {
    u32_le(c.peer_tsn) + u32_le(c.token) + u32_le(c.tsn) + u32_le(c.issued_at) + u32_le(c.mac)
}

/// The wire form of one chunk: a tag byte, then its fields.
pub open spec fn chunk_bytes(c: ChunkV) -> Seq<u8> {
    match c {
        ChunkV::Init { token, tsn } => seq![0u8] + u32_le(token) + u32_le(tsn),
        ChunkV::InitAck { token, tsn, state_cookie } => seq![1u8] + u32_le(token) + u32_le(tsn)
            + cookie_bytes(state_cookie),
        ChunkV::CookieEcho(c) => seq![2u8] + cookie_bytes(c),
        ChunkV::CookieAck => seq![3u8],
        ChunkV::Data { stream_id, ordinal, payload } => seq![4u8] + u32_le(stream_id) + u32_le(
            ordinal,
        ) + u16_le(payload.len() as u16) + payload,
        ChunkV::DataAck { stream_id, ordinal } => seq![5u8] + u32_le(stream_id) + u32_le(ordinal),
        ChunkV::Shutdown => seq![6u8],
        ChunkV::ShutdownAck => seq![7u8],
    }
}

/// The wire form of a chunk sequence: the chunks in order.
pub open spec fn chunks_bytes(cs: Seq<ChunkV>) -> Seq<u8>
    decreases cs.len(),
{
    if cs.len() == 0 {
        Seq::empty()
    } else {
        chunk_bytes(cs[0]) + chunks_bytes(cs.skip(1))
    }
}

/// The wire form of a whole gram: the token, then its chunks.
pub open spec fn gram_bytes(g: GramV) -> Seq<u8> {
    u32_le(g.token) + chunks_bytes(g.chunks)
}

/// A data chunk's payload must fit its two-byte length prefix.
pub open spec fn chunk_wf(c: ChunkV) -> bool {
    c matches ChunkV::Data { payload, .. } ==> payload.len() <= 0xffff
}

/// Every chunk of the gram is well formed.
pub open spec fn gram_wf(g: GramV) -> bool {
    forall|i: int| 0 <= i < g.chunks.len() ==> chunk_wf(#[trigger] g.chunks[i])
}

/// The parse of a chunk sequence: `None` on a truncated or malformed tail.
pub open spec fn parse_chunks(b: Seq<u8>) -> Option<Seq<ChunkV>>
    decreases b.len(),
{
    if b.len() == 0 {
        Some(Seq::empty())
    } else if b[0] == 0u8 {
        if b.len() >= 9 {
            match parse_chunks(b.skip(9)) {
                Some(rest) => Some(
                    seq![ChunkV::Init {
                        token: u32_from(b[1], b[2], b[3], b[4]),
                        tsn: u32_from(b[5], b[6], b[7], b[8]),
                    }] + rest,
                ),
                None => None,
            }
        } else {
            None
        }
    } else if b[0] == 1u8 {
        if b.len() >= 29 {
            match parse_chunks(b.skip(29)) {
                Some(rest) => Some(
                    seq![ChunkV::InitAck {
                        token: u32_from(b[1], b[2], b[3], b[4]),
                        tsn: u32_from(b[5], b[6], b[7], b[8]),
                        state_cookie: parse_cookie(b.skip(9)),
                    }] + rest,
                ),
                None => None,
            }
        } else {
            None
        }
    } else if b[0] == 2u8 {
        if b.len() >= 21 {
            match parse_chunks(b.skip(21)) {
                Some(rest) => Some(seq![ChunkV::CookieEcho(parse_cookie(b.skip(1)))] + rest),
                None => None,
            }
        } else {
            None
        }
    } else if b[0] == 3u8 {
        match parse_chunks(b.skip(1)) {
            Some(rest) => Some(seq![ChunkV::CookieAck] + rest),
            None => None,
        }
    } else if b[0] == 4u8 {
        if b.len() >= 11 && b.len() >= 11 + u16_from(b[9], b[10]) {
            match parse_chunks(b.skip(11 + u16_from(b[9], b[10]) as int)) {
                Some(rest) => Some(
                    seq![ChunkV::Data {
                        stream_id: u32_from(b[1], b[2], b[3], b[4]),
                        ordinal: u32_from(b[5], b[6], b[7], b[8]),
                        payload: b.subrange(11, 11 + u16_from(b[9], b[10]) as int),
                    }] + rest,
                ),
                None => None,
            }
        } else {
            None
        }
    } else if b[0] == 5u8 {
        if b.len() >= 9 {
            match parse_chunks(b.skip(9)) {
                Some(rest) => Some(
                    seq![ChunkV::DataAck {
                        stream_id: u32_from(b[1], b[2], b[3], b[4]),
                        ordinal: u32_from(b[5], b[6], b[7], b[8]),
                    }] + rest,
                ),
                None => None,
            }
        } else {
            None
        }
    } else if b[0] == 6u8 {
        match parse_chunks(b.skip(1)) {
            Some(rest) => Some(seq![ChunkV::Shutdown] + rest),
            None => None,
        }
    } else if b[0] == 7u8 {
        match parse_chunks(b.skip(1)) {
            Some(rest) => Some(seq![ChunkV::ShutdownAck] + rest),
            None => None,
        }
    } else {
        None
    }
}

/// The cookie read from the first twenty bytes of `b`.
pub open spec fn parse_cookie(b: Seq<u8>) -> Cookie
    recommends
        b.len() >= 20,
{
    Cookie {
        peer_tsn: u32_from(b[0], b[1], b[2], b[3]),
        token: u32_from(b[4], b[5], b[6], b[7]),
        tsn: u32_from(b[8], b[9], b[10], b[11]),
        issued_at: u32_from(b[12], b[13], b[14], b[15]),
        mac: u32_from(b[16], b[17], b[18], b[19]),
    }
}

/// The parse of a whole frame: `None` when it is shorter than a token,
/// longer than the transmission unit, or holds a malformed chunk.
pub open spec fn parse_gram(b: Seq<u8>) -> Option<GramV> {
    if b.len() < 4 || b.len() > MTU_BYTES {
        None
    } else {
        match parse_chunks(b.skip(4)) {
            Some(cs) => Some(GramV { token: u32_from(b[0], b[1], b[2], b[3]), chunks: cs }),
            None => None,
        }
    }
}

} // verus!

verus! {

/// A decode or encode failure; the caller of `decode` converts it into an
/// `InvalidGram` event rather than propagating it.
#[derive(Copy, Clone, Debug, PartialEq, Eq, Structural)]
pub enum CodecError {
    /// The frame would exceed, or exceeds, `MTU_BYTES`.
    Oversize,
    /// The frame is truncated or malformed.
    Malformed,
}

proof fn lemma_u32_round(x: u32)
    ensures
        u32_from((x & 0xff) as u8, ((x >> 8u32) & 0xff) as u8, ((x >> 16u32) & 0xff) as u8, (
        (x >> 24u32) & 0xff) as u8) == x,
{
    assert((((x & 0xff) as u8) as u32) | (((((x >> 8u32) & 0xff) as u8) as u32) << 8u32) | (((((x
        >> 16u32) & 0xff) as u8) as u32) << 16u32) | (((((x >> 24u32) & 0xff) as u8) as u32)
        << 24u32) == x) by (bit_vector);
}

proof fn lemma_u16_round(x: u16)
    ensures
        u16_from((x & 0xff) as u8, ((x >> 8u16) & 0xff) as u8) == x,
{
    assert((((x & 0xff) as u8) as u16) | (((((x >> 8u16) & 0xff) as u8) as u16) << 8u16) == x)
        by (bit_vector);
}

/// Recovering the words of an encoded cookie gives the cookie back.
proof fn lemma_cookie_round(c: Cookie, t: Seq<u8>)
    ensures
        parse_cookie(cookie_bytes(c) + t) == c,
{
    lemma_u32_round(c.peer_tsn);
    lemma_u32_round(c.token);
    lemma_u32_round(c.tsn);
    lemma_u32_round(c.issued_at);
    lemma_u32_round(c.mac);
}

/// Chunk-sequence encoding distributes over concatenation.
proof fn lemma_chunks_bytes_app(a: Seq<ChunkV>, b: Seq<ChunkV>)
    ensures
        chunks_bytes(a + b) == chunks_bytes(a) + chunks_bytes(b),
    decreases a.len(),
{
    if a.len() == 0 {
        assert(a + b =~= b);
        assert(chunks_bytes(a) + chunks_bytes(b) =~= chunks_bytes(b));
    } else {
        lemma_chunks_bytes_app(a.skip(1), b);
        assert((a + b).skip(1) =~= a.skip(1) + b);
        assert(chunk_bytes((a + b)[0]) + (chunks_bytes(a.skip(1)) + chunks_bytes(b)) =~= (
        chunk_bytes(a[0]) + chunks_bytes(a.skip(1))) + chunks_bytes(b));
    }
}

/// Each chunk's bytes are no longer than the whole sequence's bytes.
proof fn lemma_chunk_len_le(cs: Seq<ChunkV>, i: int)
    requires
        0 <= i < cs.len(),
    ensures
        chunks_bytes(cs).len() >= chunk_bytes(cs[i]).len(),
    decreases i,
{
    if i == 0 {
    } else {
        lemma_chunk_len_le(cs.skip(1), i - 1);
    }
}

/// Parsing one encoded chunk off the front of a byte string succeeds and
/// leaves exactly the tail.
proof fn lemma_parse_chunk_prefix(c: ChunkV, t: Seq<u8>)
    requires
        chunk_wf(c),
    ensures
        parse_chunks(chunk_bytes(c) + t) == opt_prepend(seq![c], parse_chunks(t)),
{
    let s = chunk_bytes(c) + t;
    match c {
        ChunkV::Init { token, tsn } => {
            assert(s.len() >= 9 && s[0] == 0u8);
            assert(s.skip(9) =~= t);
            lemma_u32_round(token);
            lemma_u32_round(tsn);
            assert(u32_from(s[1], s[2], s[3], s[4]) == token);
            assert(u32_from(s[5], s[6], s[7], s[8]) == tsn);
        },
        ChunkV::InitAck { token, tsn, state_cookie } => {
            assert(s.len() >= 29 && s[0] == 1u8);
            assert(s.skip(29) =~= t);
            lemma_u32_round(token);
            lemma_u32_round(tsn);
            assert(u32_from(s[1], s[2], s[3], s[4]) == token);
            assert(u32_from(s[5], s[6], s[7], s[8]) == tsn);
            assert(s.skip(9) =~= cookie_bytes(state_cookie) + t.skip(0).skip(0));
            assert(s.skip(9) =~= cookie_bytes(state_cookie) + t);
            lemma_cookie_round(state_cookie, t);
        },
        ChunkV::CookieEcho(ck) => {
            assert(s.len() >= 21 && s[0] == 2u8);
            assert(s.skip(21) =~= t);
            assert(s.skip(1) =~= cookie_bytes(ck) + t);
            lemma_cookie_round(ck, t);
        },
        ChunkV::CookieAck => {
            assert(s[0] == 3u8);
            assert(s.skip(1) =~= t);
        },
        ChunkV::Data { stream_id, ordinal, payload } => {
            assert(s.len() >= 11 + payload.len() && s[0] == 4u8);
            lemma_u32_round(stream_id);
            lemma_u32_round(ordinal);
            lemma_u16_round(payload.len() as u16);
            assert(u32_from(s[1], s[2], s[3], s[4]) == stream_id);
            assert(u32_from(s[5], s[6], s[7], s[8]) == ordinal);
            assert(u16_from(s[9], s[10]) == payload.len() as u16);
            assert(payload.len() as u16 == payload.len());
            assert(s.subrange(11, 11 + payload.len() as int) =~= payload);
            assert(s.skip(11 + payload.len() as int) =~= t);
        },
        ChunkV::DataAck { stream_id, ordinal } => {
            assert(s.len() >= 9 && s[0] == 5u8);
            assert(s.skip(9) =~= t);
            lemma_u32_round(stream_id);
            lemma_u32_round(ordinal);
            assert(u32_from(s[1], s[2], s[3], s[4]) == stream_id);
            assert(u32_from(s[5], s[6], s[7], s[8]) == ordinal);
        },
        ChunkV::Shutdown => {
            assert(s[0] == 6u8);
            assert(s.skip(1) =~= t);
        },
        ChunkV::ShutdownAck => {
            assert(s[0] == 7u8);
            assert(s.skip(1) =~= t);
        },
    }
}

/// `Some(a + r)` when `o` is `Some(r)`, `None` when it is `None`.
pub open spec fn opt_prepend(a: Seq<ChunkV>, o: Option<Seq<ChunkV>>) -> Option<Seq<ChunkV>> {
    match o {
        Some(r) => Some(a + r),
        None => None,
    }
}

/// Parsing the encoding of a well-formed chunk sequence gives it back.
proof fn lemma_chunks_round(cs: Seq<ChunkV>)
    requires
        forall|i: int| 0 <= i < cs.len() ==> chunk_wf(#[trigger] cs[i]),
    ensures
        parse_chunks(chunks_bytes(cs)) == Some(cs),
    decreases cs.len(),
{
    if cs.len() == 0 {
        assert(chunks_bytes(cs).len() == 0);
        assert(Seq::<ChunkV>::empty() =~= cs);
    } else {
        lemma_chunks_round(cs.skip(1));
        lemma_parse_chunk_prefix(cs[0], chunks_bytes(cs.skip(1)));
        assert(seq![cs[0]] + cs.skip(1) =~= cs);
    }
}

/// Law: decoding the exact bytes produced by encoding a message reproduces
/// an equal message, for every message whose frame fits the transmission
/// unit.
pub proof fn lemma_round_trip(g: GramV)
    requires
        gram_bytes(g).len() <= MTU_BYTES,
    ensures
        parse_gram(gram_bytes(g)) == Some(g),
{
    let b = gram_bytes(g);
    assert forall|i: int| 0 <= i < g.chunks.len() implies chunk_wf(#[trigger] g.chunks[i]) by {
        lemma_chunk_len_le(g.chunks, i);
        if g.chunks[i] is Data {
            assert(chunk_bytes(g.chunks[i]).len() == 11 + g.chunks[i]->Data_payload.len());
        }
    }
    assert(gram_wf(g));
    assert(b.len() >= 4);
    lemma_u32_round(g.token);
    assert(u32_from(b[0], b[1], b[2], b[3]) == g.token);
    assert(b.skip(4) =~= chunks_bytes(g.chunks));
    lemma_chunks_round(g.chunks);
}

} // verus!

verus! {

fn push_u32(buf: &mut Vec<u8>, x: u32)
    ensures
        final(buf)@ == old(buf)@ + u32_le(x),
{
    proof {
        assert(x & 0xff < 256 && (x >> 8u32) & 0xff < 256 && (x >> 16u32) & 0xff < 256 && (x
            >> 24u32) & 0xff < 256) by (bit_vector);
    }
    buf.push((x & 0xff) as u8);
    buf.push(((x >> 8u32) & 0xff) as u8);
    buf.push(((x >> 16u32) & 0xff) as u8);
    buf.push(((x >> 24u32) & 0xff) as u8);
    assert(buf@ =~= old(buf)@ + u32_le(x));
}

fn push_u16(buf: &mut Vec<u8>, x: u16)
    ensures
        final(buf)@ == old(buf)@ + u16_le(x),
{
    proof {
        assert(x & 0xff < 256 && (x >> 8u16) & 0xff < 256) by (bit_vector);
    }
    buf.push((x & 0xff) as u8);
    buf.push(((x >> 8u16) & 0xff) as u8);
    assert(buf@ =~= old(buf)@ + u16_le(x));
}

fn push_cookie(buf: &mut Vec<u8>, c: &Cookie)
    ensures
        final(buf)@ == old(buf)@ + cookie_bytes(*c),
{
    push_u32(buf, c.peer_tsn);
    push_u32(buf, c.token);
    push_u32(buf, c.tsn);
    push_u32(buf, c.issued_at);
    push_u32(buf, c.mac);
    assert(buf@ =~= old(buf)@ + cookie_bytes(*c));
}

fn push_chunk(buf: &mut Vec<u8>, c: &Chunk)
    requires
        chunk_wf(c@),
    ensures
        final(buf)@ == old(buf)@ + chunk_bytes(c@),
{
    match c {
        Chunk::Init { token, tsn } => {
            buf.push(0u8);
            push_u32(buf, *token);
            push_u32(buf, *tsn);
        },
        Chunk::InitAck { token, tsn, state_cookie } => {
            buf.push(1u8);
            push_u32(buf, *token);
            push_u32(buf, *tsn);
            push_cookie(buf, state_cookie);
        },
        Chunk::CookieEcho(ck) => {
            buf.push(2u8);
            push_cookie(buf, ck);
        },
        Chunk::CookieAck => {
            buf.push(3u8);
        },
        Chunk::Data { stream_id, ordinal, payload } => {
            buf.push(4u8);
            push_u32(buf, *stream_id);
            push_u32(buf, *ordinal);
            push_u16(buf, payload.len() as u16);
            let ghost mid = buf@;
            let mut j: usize = 0;
            while j < payload.len()
                invariant
                    j <= payload.len(),
                    buf@ == mid + payload@.take(j as int),
                decreases payload.len() - j,
            {
                buf.push(payload[j]);
                assert(buf@ =~= mid + payload@.take(j as int + 1));
                j = j + 1;
            }
            assert(payload@.take(payload.len() as int) =~= payload@);
        },
        Chunk::DataAck { stream_id, ordinal } => {
            buf.push(5u8);
            push_u32(buf, *stream_id);
            push_u32(buf, *ordinal);
        },
        Chunk::Shutdown => {
            buf.push(6u8);
        },
        Chunk::ShutdownAck => {
            buf.push(7u8);
        },
    }
    assert(buf@ =~= old(buf)@ + chunk_bytes(c@));
}

/// GramCodec defines the protocol rules for sending grams over a datagram
/// transport: the deterministic byte layout and the transmission-unit
/// bound.
pub struct GramCodec;

impl GramCodec {
    /// Encodes a gram into its wire bytes.
    ///
    /// Succeeds with the exact encoding whenever the frame fits the
    /// transmission unit; fails with `Oversize` exactly when it does not.
    /// It never emits an oversize frame.
    pub fn encode(&self, g: &Gram) -> (r: Result<Vec<u8>, CodecError>)
        ensures
            gram_bytes(g@).len() <= MTU_BYTES ==> (r matches Ok(b) && b@ == gram_bytes(g@)),
            gram_bytes(g@).len() > MTU_BYTES ==> r == Err::<Vec<u8>, CodecError>(
                CodecError::Oversize,
            ),
    {
        let ghost cs = g@.chunks;
        let mut buf: Vec<u8> = Vec::new();
        push_u32(&mut buf, g.token);
        assert(buf@ =~= u32_le(g.token) + chunks_bytes(cs.take(0)));
        let mut i: usize = 0;
        while i < g.chunks.len()
            invariant
                i <= g.chunks.len(),
                cs == g@.chunks,
                cs.len() == g.chunks.len(),
                forall|k: int| 0 <= k < cs.len() ==> cs[k] == #[trigger] g.chunks@[k]@,
                buf@ == u32_le(g.token) + chunks_bytes(cs.take(i as int)),
                buf@.len() <= MTU_BYTES,
            decreases g.chunks.len() - i,
        {
            let c = &g.chunks[i];
            if let Chunk::Data { payload, .. } = c {
                if payload.len() > MAX_PAYLOAD {
                    proof {
                        lemma_chunk_len_le(cs, i as int);
                        assert(chunk_bytes(cs[i as int]).len() == 11 + payload@.len());
                    }
                    return Err(CodecError::Oversize);
                }
            }
            push_chunk(&mut buf, c);
            proof {
                assert(cs.take(i + 1) =~= cs.take(i as int) + seq![cs[i as int]]);
                lemma_chunks_bytes_app(cs.take(i as int), seq![cs[i as int]]);
                assert(seq![cs[i as int]].skip(1) =~= Seq::<ChunkV>::empty());
                assert(chunks_bytes(seq![cs[i as int]].skip(1)) =~= Seq::<u8>::empty());
                assert(chunks_bytes(seq![cs[i as int]]) =~= chunk_bytes(cs[i as int]));
                assert(buf@ =~= u32_le(g.token) + chunks_bytes(cs.take(i + 1)));
            }
            if buf.len() > MTU_BYTES {
                proof {
                    assert(cs =~= cs.take(i + 1) + cs.skip(i + 1));
                    lemma_chunks_bytes_app(cs.take(i + 1), cs.skip(i + 1));
                }
                return Err(CodecError::Oversize);
            }
            i = i + 1;
        }
        assert(cs.take(cs.len() as int) =~= cs);
        Ok(buf)
    }
}

} // verus!

verus! {

fn read_u32(buf: &[u8], i: usize) -> (r: u32)
    requires
        i + 4 <= buf@.len(),
    ensures
        r == u32_from(buf@[i as int], buf@[i as int + 1], buf@[i as int + 2], buf@[i as int + 3]),
{
    (buf[i] as u32) | ((buf[i + 1] as u32) << 8u32) | ((buf[i + 2] as u32) << 16u32) | ((buf[i
        + 3] as u32) << 24u32)
}

fn read_u16(buf: &[u8], i: usize) -> (r: u16)
    requires
        i + 2 <= buf@.len(),
    ensures
        r == u16_from(buf@[i as int], buf@[i as int + 1]),
{
    (buf[i] as u16) | ((buf[i + 1] as u16) << 8u16)
}

fn read_cookie(buf: &[u8], i: usize) -> (c: Cookie)
    requires
        i + 20 <= buf@.len(),
    ensures
        c == parse_cookie(buf@.skip(i as int)),
{
    let n = buf.len();
    assert(i + 20 <= n);
    let c = Cookie {
        peer_tsn: read_u32(buf, i),
        token: read_u32(buf, i + 4),
        tsn: read_u32(buf, i + 8),
        issued_at: read_u32(buf, i + 12),
        mac: read_u32(buf, i + 16),
    };
    proof {
        let s = buf@.skip(i as int);
        assert forall|k: int| 0 <= k < 20 implies s[k] == buf@[i + k] by {}
    }
    c
}

fn copy_range(buf: &[u8], a: usize, b: usize) -> (r: Vec<u8>)
    requires
        a <= b <= buf@.len(),
    ensures
        r@ == buf@.subrange(a as int, b as int),
{
    let mut r: Vec<u8> = Vec::new();
    let mut j: usize = a;
    while j < b
        invariant
            a <= j <= b <= buf@.len(),
            r@ == buf@.subrange(a as int, j as int),
        decreases b - j,
    {
        r.push(buf[j]);
        assert(r@ =~= buf@.subrange(a as int, j as int + 1));
        j = j + 1;
    }
    r
}

proof fn lemma_decode_step(b: Seq<u8>, pos: int, k: int, c: ChunkV, acc: Seq<ChunkV>)
    requires
        4 <= pos,
        0 < k,
        pos + k <= b.len(),
        parse_chunks(b.skip(pos)) == opt_prepend(seq![c], parse_chunks(b.skip(pos + k))),
        parse_chunks(b.skip(4)) == opt_prepend(acc, parse_chunks(b.skip(pos))),
    ensures
        parse_chunks(b.skip(4)) == opt_prepend(acc.push(c), parse_chunks(b.skip(pos + k))),
{
    match parse_chunks(b.skip(pos + k)) {
        Some(r) => {
            assert(acc + (seq![c] + r) =~= acc.push(c) + r);
        },
        None => {},
    }
}

impl GramCodec {
    /// Decodes wire bytes into a gram.
    ///
    /// Fails with `Oversize` exactly when the frame exceeds the
    /// transmission unit, and with `Malformed` exactly when no gram has
    /// these bytes as its encoding under the fixed layout; otherwise it
    /// returns the unique gram the bytes parse to.
    #[verifier::rlimit(60)]
    pub fn decode(&self, buf: &[u8]) -> (r: Result<Gram, CodecError>)
        ensures
            match r {
                Ok(g) => parse_gram(buf@) == Some(g@),
                Err(CodecError::Oversize) => buf@.len() > MTU_BYTES,
                Err(CodecError::Malformed) => buf@.len() <= MTU_BYTES && parse_gram(buf@) is None,
            },
    {
        let n = buf.len();
        if n > MTU_BYTES {
            return Err(CodecError::Oversize);
        }
        if n < 4 {
            return Err(CodecError::Malformed);
        }
        let token = read_u32(buf, 0);
        let mut chunks: Vec<Chunk> = Vec::new();
        let mut pos: usize = 4;
        while pos < n
            invariant
                4 <= pos <= n == buf@.len() <= MTU_BYTES,
                parse_chunks(buf@.skip(4)) == opt_prepend(
                    chunks@.map_values(|c: Chunk| c@),
                    parse_chunks(buf@.skip(pos as int)),
                ),
            decreases n - pos,
        {
            let ghost s = buf@.skip(pos as int);
            let ghost acc = chunks@.map_values(|c: Chunk| c@);
            assert(s.len() == n - pos);
            assert forall|k: int| 0 <= k < s.len() implies s[k] == buf@[pos + k] by {}
            let tag = buf[pos];
            let left = n - pos;
            let took: usize;
            let c: Chunk;
            if tag == 0 {
                if left < 9 {
                    return Err(CodecError::Malformed);
                }
                c = Chunk::Init { token: read_u32(buf, pos + 1), tsn: read_u32(buf, pos + 5) };
                took = 9;
            } else if tag == 1 {
                if left < 29 {
                    return Err(CodecError::Malformed);
                }
                c = Chunk::InitAck {
                    token: read_u32(buf, pos + 1),
                    tsn: read_u32(buf, pos + 5),
                    state_cookie: read_cookie(buf, pos + 9),
                };
                proof {
                    assert(buf@.skip(pos + 9) =~= s.skip(9));
                }
                took = 29;
            } else if tag == 2 {
                if left < 21 {
                    return Err(CodecError::Malformed);
                }
                c = Chunk::CookieEcho(read_cookie(buf, pos + 1));
                proof {
                    assert(buf@.skip(pos + 1) =~= s.skip(1));
                }
                took = 21;
            } else if tag == 3 {
                c = Chunk::CookieAck;
                took = 1;
            } else if tag == 4 {
                if left < 11 {
                    return Err(CodecError::Malformed);
                }
                let plen = read_u16(buf, pos + 9) as usize;
                if left < 11 + plen {
                    return Err(CodecError::Malformed);
                }
                let payload = copy_range(buf, pos + 11, pos + 11 + plen);
                proof {
                    assert(buf@.subrange(pos + 11, pos + 11 + plen) =~= s.subrange(
                        11,
                        11 + plen,
                    ));
                }
                c = Chunk::Data {
                    stream_id: read_u32(buf, pos + 1),
                    ordinal: read_u32(buf, pos + 5),
                    payload,
                };
                took = 11 + plen;
            } else if tag == 5 {
                if left < 9 {
                    return Err(CodecError::Malformed);
                }
                c = Chunk::DataAck { stream_id: read_u32(buf, pos + 1), ordinal: read_u32(
                    buf,
                    pos + 5,
                ) };
                took = 9;
            } else if tag == 6 {
                c = Chunk::Shutdown;
                took = 1;
            } else if tag == 7 {
                c = Chunk::ShutdownAck;
                took = 1;
            } else {
                return Err(CodecError::Malformed);
            }
            proof {
                assert(s.skip(took as int) =~= buf@.skip(pos + took));
                assert(parse_chunks(s) == opt_prepend(seq![c@], parse_chunks(s.skip(took as int))));
                lemma_decode_step(buf@, pos as int, took as int, c@, acc);
            }
            chunks.push(c);
            assert(chunks@.map_values(|c: Chunk| c@) =~= acc.push(c@));
            pos = pos + took;
        }
        assert(buf@.skip(pos as int) =~= Seq::<u8>::empty());
        let g = Gram { token, chunks };
        proof {
            let e: Seq<ChunkV> = Seq::empty();
            assert(g@.chunks + e =~= g@.chunks);
        }
        Ok(g)
    }
}

} // verus!

verus! {

proof fn lemma_u32_le_of_from(b0: u8, b1: u8, b2: u8, b3: u8)
    ensures
        u32_le(u32_from(b0, b1, b2, b3)) == seq![b0, b1, b2, b3],
{
    let x = u32_from(b0, b1, b2, b3);
    assert(((b0 as u32) | ((b1 as u32) << 8u32) | ((b2 as u32) << 16u32) | ((b3 as u32)
        << 24u32)) & 0xff == b0) by (bit_vector);
    assert((((b0 as u32) | ((b1 as u32) << 8u32) | ((b2 as u32) << 16u32) | ((b3 as u32)
        << 24u32)) >> 8u32) & 0xff == b1) by (bit_vector);
    assert((((b0 as u32) | ((b1 as u32) << 8u32) | ((b2 as u32) << 16u32) | ((b3 as u32)
        << 24u32)) >> 16u32) & 0xff == b2) by (bit_vector);
    assert((((b0 as u32) | ((b1 as u32) << 8u32) | ((b2 as u32) << 16u32) | ((b3 as u32)
        << 24u32)) >> 24u32) & 0xff == b3) by (bit_vector);
    assert(u32_le(x) =~= seq![b0, b1, b2, b3]);
}

proof fn lemma_u16_le_of_from(b0: u8, b1: u8)
    ensures
        u16_le(u16_from(b0, b1)) == seq![b0, b1],
{
    assert(((b0 as u16) | ((b1 as u16) << 8u16)) & 0xff == b0) by (bit_vector);
    assert((((b0 as u16) | ((b1 as u16) << 8u16)) >> 8u16) & 0xff == b1) by (bit_vector);
    assert(u16_le(u16_from(b0, b1)) =~= seq![b0, b1]);
}

proof fn lemma_cookie_bytes_of_parse(b: Seq<u8>)
    requires
        b.len() >= 20,
    ensures
        cookie_bytes(parse_cookie(b)) == b.take(20),
{
    lemma_u32_le_of_from(b[0], b[1], b[2], b[3]);
    lemma_u32_le_of_from(b[4], b[5], b[6], b[7]);
    lemma_u32_le_of_from(b[8], b[9], b[10], b[11]);
    lemma_u32_le_of_from(b[12], b[13], b[14], b[15]);
    lemma_u32_le_of_from(b[16], b[17], b[18], b[19]);
    assert(cookie_bytes(parse_cookie(b)) =~= b.take(20));
}

proof fn lemma_parse_chunks_exact(b: Seq<u8>)
    ensures
        parse_chunks(b) matches Some(cs) ==> chunks_bytes(cs) == b,
    decreases b.len(),
{
    if b.len() == 0 {
        if parse_chunks(b) is Some {
            assert(chunks_bytes(parse_chunks(b).unwrap()) =~= b);
        }
    } else if parse_chunks(b) is Some {
        let cs = parse_chunks(b).unwrap();
        let tag = b[0];
        if tag == 0u8 {
            lemma_parse_chunks_exact(b.skip(9));
            lemma_u32_le_of_from(b[1], b[2], b[3], b[4]);
            lemma_u32_le_of_from(b[5], b[6], b[7], b[8]);
            assert(cs.skip(1) =~= parse_chunks(b.skip(9)).unwrap());
            assert(chunks_bytes(cs) =~= b);
        } else if tag == 1u8 {
            lemma_parse_chunks_exact(b.skip(29));
            lemma_u32_le_of_from(b[1], b[2], b[3], b[4]);
            lemma_u32_le_of_from(b[5], b[6], b[7], b[8]);
            lemma_cookie_bytes_of_parse(b.skip(9));
            assert(cs.skip(1) =~= parse_chunks(b.skip(29)).unwrap());
            assert(b.skip(9).take(20) =~= b.subrange(9, 29));
            assert(chunks_bytes(cs) =~= b);
        } else if tag == 2u8 {
            lemma_parse_chunks_exact(b.skip(21));
            lemma_cookie_bytes_of_parse(b.skip(1));
            assert(cs.skip(1) =~= parse_chunks(b.skip(21)).unwrap());
            assert(b.skip(1).take(20) =~= b.subrange(1, 21));
            assert(chunks_bytes(cs) =~= b);
        } else if tag == 3u8 || tag == 6u8 || tag == 7u8 {
            lemma_parse_chunks_exact(b.skip(1));
            assert(cs.skip(1) =~= parse_chunks(b.skip(1)).unwrap());
            assert(chunks_bytes(cs) =~= b);
        } else if tag == 4u8 {
            let len = u16_from(b[9], b[10]) as int;
            lemma_parse_chunks_exact(b.skip(11 + len));
            lemma_u32_le_of_from(b[1], b[2], b[3], b[4]);
            lemma_u32_le_of_from(b[5], b[6], b[7], b[8]);
            let payload = b.subrange(11, 11 + len);
            assert(payload.len() == len);
            assert(payload.len() as u16 == u16_from(b[9], b[10]));
            lemma_u16_le_of_from(b[9], b[10]);
            assert(cs.skip(1) =~= parse_chunks(b.skip(11 + len)).unwrap());
            assert(chunks_bytes(cs) =~= b);
        } else {
            assert(tag == 5u8);
            lemma_parse_chunks_exact(b.skip(9));
            lemma_u32_le_of_from(b[1], b[2], b[3], b[4]);
            lemma_u32_le_of_from(b[5], b[6], b[7], b[8]);
            assert(cs.skip(1) =~= parse_chunks(b.skip(9)).unwrap());
            assert(chunks_bytes(cs) =~= b);
        }
    }
}

/// Law: decoding is unambiguous. A byte string that parses at all is the
/// exact encoding of the gram it parses to, so no byte string decodes to
/// two different messages, and every accepted message has exactly one
/// wire form.
pub proof fn lemma_decode_unambiguous(b: Seq<u8>, g: GramV)
    requires
        parse_gram(b) == Some(g),
    ensures
        b == gram_bytes(g),
{
    lemma_parse_chunks_exact(b.skip(4));
    lemma_u32_le_of_from(b[0], b[1], b[2], b[3]);
    assert(gram_bytes(g) =~= b);
}

} // verus!
