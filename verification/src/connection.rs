//! The connection state machine.
//!
//! A connection consumes its event stream strictly in order and turns each
//! event into a new state plus a sequence of outbound [`Action`]s; it does
//! no input or output of its own. The whole transition relation is given
//! by the specification function [`spec_step`], which the executable
//! [`Connection::step`] is proved to implement exactly.
//!
//! The initiator walks `Closed -> InitSent -> CookieEchoed -> Established
//! -> Closing -> Closed`. A responder stays stateless — see
//! [`respond_to_init`] — and allocates a connection, already
//! `Established`, only once a valid cookie echo arrives
//! ([`accept_cookie_echo`]).

use vstd::prelude::*;

use crate::cookie::{Cookie, cookie_ok, make_cookie, spec_make_cookie, verify_cookie};
use crate::event::{Api, ApiV, Event, EventV};
use crate::gram::{Chunk, ChunkV, Gram, GramV, MAX_PAYLOAD};
use crate::timer::{Timer, TimerKind, bump, next_gen};

verus! {

/// How many times a handshake message or the unacknowledged data set is
/// resent before the connection gives up.
pub const MAX_RETRIES: u32 = 5;

/// The handshake progress of a connection.
#[derive(Copy, Clone, Debug, PartialEq, Eq, Structural)]
pub enum HandshakeState {
    Closed,
    InitSent,
    CookieEchoed,
    Established,
    Closing,
}

/// An error surfaced to the owning application; every other failure is
/// absorbed silently.
#[derive(Copy, Clone, Debug, PartialEq, Eq, Structural)]
pub enum ConnError {
    /// An application call on a connection that is not open for it.
    NotConnected,
    /// The retry budget was exhausted at a handshake or data stage.
    Timeout,
    /// A queued payload cannot fit one frame.
    Oversize,
    /// A stream's ordinal space is used up.
    StreamExhausted,
}

/// One instruction to the embedding, emitted by a transition.
#[derive(Clone, Debug, PartialEq, Eq)]
pub enum Action {
    /// Encode and transmit this gram to the peer.
    Send(Gram),
    /// Release this payload to the application, in order for its stream.
    Deliver { stream_id: u32, payload: Vec<u8> },
    /// Schedule the timer of this kind under this generation, superseding
    /// any earlier schedule of the same kind. The embedding chooses the
    /// delay, growing it with the connection's visible attempt counters
    /// for retry backoff.
    Start { kind: TimerKind, generation: u64 },
    /// No firing of this kind is wanted any more.
    Stop { kind: TimerKind },
    /// Surface this connection-fatal error to the application.
    Fail(ConnError),
}

/// The mathematical model of an [`Action`].
#[verifier::ext_equal]
pub enum ActionV {
    Send(GramV),
    Deliver { stream_id: u32, payload: Seq<u8> },
    Start { kind: TimerKind, generation: u64 },
    Stop { kind: TimerKind },
    Fail(ConnError),
}

impl View for Action {
    type V = ActionV;

    open spec fn view(&self) -> ActionV {
        match self {
            Action::Send(g) => ActionV::Send(g@),
            Action::Deliver { stream_id, payload } => ActionV::Deliver {
                stream_id: *stream_id,
                payload: payload@,
            },
            Action::Start { kind, generation } => ActionV::Start {
                kind: *kind,
                generation: *generation,
            },
            Action::Stop { kind } => ActionV::Stop { kind: *kind },
            Action::Fail(e) => ActionV::Fail(*e),
        }
    }
}

/// The models of a sequence of actions.
pub open spec fn acts(s: Seq<Action>) -> Seq<ActionV> {
    s.map_values(|a: Action| a@)
}

/// A buffered out-of-order arrival on a receive stream.
#[derive(Clone, Debug, PartialEq, Eq)]
pub struct Slot {
    pub ordinal: u32,
    pub payload: Vec<u8>,
}

/// The mathematical model of a [`Slot`].
#[verifier::ext_equal]
pub struct SlotV {
    pub ordinal: u32,
    pub payload: Seq<u8>,
}

impl View for Slot {
    type V = SlotV;

    open spec fn view(&self) -> SlotV {
        SlotV { ordinal: self.ordinal, payload: self.payload@ }
    }
}

/// The receive side of one stream: the next ordinal owed to the
/// application and the buffer of later arrivals.
#[derive(Clone, Debug, PartialEq, Eq)]
pub struct StreamIn {
    pub stream_id: u32,
    pub next: u32,
    pub buf: Vec<Slot>,
}

/// The mathematical model of a [`StreamIn`].
#[verifier::ext_equal]
pub struct StreamInV {
    pub stream_id: u32,
    pub next: u32,
    pub buf: Seq<SlotV>,
}

impl View for StreamIn {
    type V = StreamInV;

    open spec fn view(&self) -> StreamInV {
        StreamInV {
            stream_id: self.stream_id,
            next: self.next,
            buf: self.buf@.map_values(|s: Slot| s@),
        }
    }
}

/// The send side of one stream: the ordinal the next payload will carry.
#[derive(Copy, Clone, Debug, PartialEq, Eq, Structural)]
pub struct StreamOut {
    pub stream_id: u32,
    pub next: u32,
}

/// A sent data unit awaiting acknowledgment; resent on retransmit timer
/// firings.
#[derive(Clone, Debug, PartialEq, Eq)]
pub struct Unacked {
    pub stream_id: u32,
    pub ordinal: u32,
    pub payload: Vec<u8>,
}

/// The mathematical model of an [`Unacked`].
#[verifier::ext_equal]
pub struct UnackedV {
    pub stream_id: u32,
    pub ordinal: u32,
    pub payload: Seq<u8>,
}

impl View for Unacked {
    type V = UnackedV;

    open spec fn view(&self) -> UnackedV {
        UnackedV { stream_id: self.stream_id, ordinal: self.ordinal, payload: self.payload@ }
    }
}

/// Per-peer connection state.
#[derive(Clone, Debug, PartialEq, Eq)]
pub struct Connection {
    pub state: HandshakeState,
    /// The association token, chosen by the responder; zero until the
    /// initiator learns it from `InitAck`. Every gram of the association
    /// carries it, and inbound grams carrying any other value are dropped
    /// without touching state.
    pub peer_token: u32,
    /// This side's initial sequence number.
    pub local_tsn: u32,
    /// The peer's initial sequence number.
    pub peer_tsn: u32,
    /// The cookie to echo while waiting for `CookieAck`.
    pub cookie: Option<Cookie>,
    /// Receive state per stream.
    pub ins: Vec<StreamIn>,
    /// Send state per stream.
    pub outs: Vec<StreamOut>,
    /// Sent data units not yet acknowledged.
    pub unacked: Vec<Unacked>,
    /// Handshake resends so far for the current handshake message.
    pub hs_attempts: u32,
    /// Resends so far of the current unacknowledged data set.
    pub data_attempts: u32,
    /// Current generations of the four timer kinds; older firings are
    /// stale.
    pub hs_gen: u64,
    pub rtx_gen: u64,
    pub linger_gen: u64,
    pub idle_gen: u64,
}

/// The mathematical model of a [`Connection`].
#[verifier::ext_equal]
pub struct ConnV {
    pub state: HandshakeState,
    pub peer_token: u32,
    pub local_tsn: u32,
    pub peer_tsn: u32,
    pub cookie: Option<Cookie>,
    pub ins: Seq<StreamInV>,
    pub outs: Seq<StreamOut>,
    pub unacked: Seq<UnackedV>,
    pub hs_attempts: u32,
    pub data_attempts: u32,
    pub hs_gen: u64,
    pub rtx_gen: u64,
    pub linger_gen: u64,
    pub idle_gen: u64,
}

impl View for Connection {
    type V = ConnV;

    open spec fn view(&self) -> ConnV {
        ConnV {
            state: self.state,
            peer_token: self.peer_token,
            local_tsn: self.local_tsn,
            peer_tsn: self.peer_tsn,
            cookie: self.cookie,
            ins: self.ins@.map_values(|s: StreamIn| s@),
            outs: self.outs@,
            unacked: self.unacked@.map_values(|u: Unacked| u@),
            hs_attempts: self.hs_attempts,
            data_attempts: self.data_attempts,
            hs_gen: self.hs_gen,
            rtx_gen: self.rtx_gen,
            linger_gen: self.linger_gen,
            idle_gen: self.idle_gen,
        }
    }
}

/// The index of the first element satisfying `p`, or `-1`.
pub open spec fn find_first<T>(s: Seq<T>, p: spec_fn(T) -> bool) -> int
    decreases s.len(),
{
    if s.len() == 0 {
        -1
    } else if p(s[0]) {
        0
    } else if find_first(s.skip(1), p) == -1 {
        -1
    } else {
        find_first(s.skip(1), p) + 1
    }
}

/// `find_first` returns `-1` exactly when nothing matches, and otherwise
/// the least matching index.
pub proof fn lemma_find_first<T>(s: Seq<T>, p: spec_fn(T) -> bool)
    ensures
        find_first(s, p) == -1 ==> forall|i: int| 0 <= i < s.len() ==> !p(#[trigger] s[i]),
        find_first(s, p) != -1 ==> 0 <= find_first(s, p) < s.len() && p(s[find_first(s, p)])
            && forall|i: int| 0 <= i < find_first(s, p) ==> !p(#[trigger] s[i]),
    decreases s.len(),
{
    if s.len() == 0 {
    } else if p(s[0]) {
    } else {
        let t = s.skip(1);
        lemma_find_first(t, p);
        assert(forall|i: int| 0 <= i < t.len() ==> #[trigger] t[i] == s[i + 1]);
        if find_first(t, p) == -1 {
            assert forall|i: int| 0 <= i < s.len() implies !p(#[trigger] s[i]) by {
                if i > 0 {
                    assert(!p(t[i - 1]));
                }
            }
        } else {
            let k = find_first(t, p);
            assert(p(s[k + 1]));
            assert forall|i: int| 0 <= i < k + 1 implies !p(#[trigger] s[i]) by {
                if i > 0 {
                    assert(!p(t[i - 1]));
                }
            }
        }
    }
}

/// Whether the buffer holds an arrival with this ordinal.
pub open spec fn has_ord(buf: Seq<SlotV>, ord: u32) -> bool {
    find_first(buf, |sl: SlotV| sl.ordinal == ord) != -1
}

/// The buffered slot with this ordinal.
pub open spec fn slot_at(buf: Seq<SlotV>, ord: u32) -> SlotV
    recommends
        has_ord(buf, ord),
{
    buf[find_first(buf, |sl: SlotV| sl.ordinal == ord)]
}

/// The contiguous run of buffered payloads starting at `from`: what the
/// receiver owes the application, in ordinal order, once `from` itself has
/// arrived.
pub open spec fn run_payloads(buf: Seq<SlotV>, from: u32) -> Seq<Seq<u8>>
    decreases u32::MAX - from,
{
    if has_ord(buf, from) && from < u32::MAX {
        seq![slot_at(buf, from).payload] + run_payloads(buf, (from + 1) as u32)
    } else if has_ord(buf, from) {
        seq![slot_at(buf, from).payload]
    } else {
        seq![]
    }
}

/// One step of the receiver's release loop: extract the slot holding
/// `nxt`, if any, and continue at the following ordinal. Returns the
/// remaining buffer, the released payloads in order, and the new next
/// expected ordinal. On a well-formed buffer this releases exactly the
/// contiguous run starting at `nxt`: see
/// [`lemma_release_is_contiguous_run`].
pub open spec fn deliver_loop(buf: Seq<SlotV>, nxt: u32) -> (Seq<SlotV>, Seq<Seq<u8>>, u32)
    decreases buf.len(),
{
    let k = find_first(buf, |sl: SlotV| sl.ordinal == nxt);
    if 0 <= k < buf.len() && nxt < u32::MAX {
        let r = deliver_loop(buf.remove(k), (nxt + 1) as u32);
        (r.0, seq![buf[k].payload] + r.1, r.2)
    } else if 0 <= k < buf.len() {
        (buf.remove(k), seq![buf[k].payload], nxt)
    } else {
        (buf, seq![], nxt)
    }
}

/// Well-formedness of one receive stream: buffered ordinals are distinct,
/// strictly later than the next expected one, and below the ordinal
/// ceiling.
pub open spec fn stream_in_wf(s: StreamInV) -> bool {
    &&& forall|a: int, b: int|
        0 <= a < b < s.buf.len() ==> (#[trigger] s.buf[a]).ordinal != (#[trigger] s.buf[b]).ordinal
    &&& forall|a: int| 0 <= a < s.buf.len() ==> (#[trigger] s.buf[a]).ordinal > s.next
    &&& forall|a: int| 0 <= a < s.buf.len() ==> (#[trigger] s.buf[a]).ordinal < u32::MAX
}

/// Well-formedness of a connection: constructors establish it and `step`
/// preserves it.
pub open spec fn conn_wf(c: ConnV) -> bool {
    &&& forall|i: int| 0 <= i < c.ins.len() ==> stream_in_wf(#[trigger] c.ins[i])
    &&& forall|i: int, j: int|
        0 <= i < j < c.ins.len() ==> (#[trigger] c.ins[i]).stream_id != (
        #[trigger] c.ins[j]).stream_id
    &&& forall|i: int, j: int|
        0 <= i < j < c.outs.len() ==> (#[trigger] c.outs[i]).stream_id != (
        #[trigger] c.outs[j]).stream_id
    &&& c.state == HandshakeState::CookieEchoed ==> c.cookie is Some
}

/// Adding a well-formed receive stream for a fresh stream id keeps the
/// connection well formed.
proof fn lemma_wf_push_stream(c: ConnV, c2: ConnV, st: StreamInV)
    requires
        conn_wf(c),
        c2.ins == c.ins.push(st),
        stream_in_wf(st),
        find_first(c.ins, |s: StreamInV| s.stream_id == st.stream_id) == -1,
        c2.outs == c.outs,
        c2.state == c.state,
        c2.cookie == c.cookie,
    ensures
        conn_wf(c2),
{
    lemma_find_first(c.ins, |s: StreamInV| s.stream_id == st.stream_id);
    assert forall|i: int, j: int|
        0 <= i < j < c2.ins.len() implies (#[trigger] c2.ins[i]).stream_id != (
        #[trigger] c2.ins[j]).stream_id by {
        if j < c.ins.len() {
            assert(c2.ins[i] == c.ins[i] && c2.ins[j] == c.ins[j]);
        } else {
            assert(c2.ins[i] == c.ins[i] && c2.ins[j] == st);
            assert(c.ins[i].stream_id != st.stream_id);
        }
    }
    assert forall|i: int| 0 <= i < c2.ins.len() implies stream_in_wf(#[trigger] c2.ins[i]) by {
        if i < c.ins.len() {
            assert(c2.ins[i] == c.ins[i]);
        } else {
            assert(c2.ins[i] == st);
        }
    }
}

/// Replacing a receive stream by a well-formed one with the same id keeps
/// the connection well formed.
proof fn lemma_wf_update_stream(c: ConnV, c2: ConnV, i: int, st: StreamInV)
    requires
        conn_wf(c),
        0 <= i < c.ins.len(),
        st.stream_id == c.ins[i].stream_id,
        stream_in_wf(st),
        c2.ins == c.ins.update(i, st),
        c2.outs == c.outs,
        c2.state == c.state,
        c2.cookie == c.cookie,
    ensures
        conn_wf(c2),
{
    assert forall|a: int, b: int|
        0 <= a < b < c2.ins.len() implies (#[trigger] c2.ins[a]).stream_id != (
        #[trigger] c2.ins[b]).stream_id by {
        assert(c.ins[a].stream_id != c.ins[b].stream_id);
        assert(c2.ins[a].stream_id == c.ins[a].stream_id);
        assert(c2.ins[b].stream_id == c.ins[b].stream_id);
    }
    assert forall|a: int| 0 <= a < c2.ins.len() implies stream_in_wf(#[trigger] c2.ins[a]) by {
        if a != i {
            assert(c2.ins[a] == c.ins[a]);
        } else {
            assert(c2.ins[a] == st);
        }
    }
}

/// A gram of this association holding one chunk.
pub open spec fn gram1(token: u32, c: ChunkV) -> GramV {
    GramV { token, chunks: seq![c] }
}

/// The action of sending a one-chunk gram.
pub open spec fn send1(token: u32, c: ChunkV) -> ActionV {
    ActionV::Send(gram1(token, c))
}

/// The connection with every timer generation invalidated and the state
/// `Closed`; destruction cancels all pending work.
pub open spec fn closed(c: ConnV) -> ConnV {
    ConnV {
        state: HandshakeState::Closed,
        hs_gen: bump(c.hs_gen),
        rtx_gen: bump(c.rtx_gen),
        linger_gen: bump(c.linger_gen),
        idle_gen: bump(c.idle_gen),
        ..c
    }
}

/// Cancellations of every timer kind, emitted on every close.
pub open spec fn stop_all() -> Seq<ActionV> {
    seq![
        ActionV::Stop { kind: TimerKind::Handshake },
        ActionV::Stop { kind: TimerKind::Retransmit },
        ActionV::Stop { kind: TimerKind::Linger },
        ActionV::Stop { kind: TimerKind::Idle },
    ]
}

/// Which inbound gram tokens the connection accepts: none when closed,
/// only the placeholder zero before the association token is known, and
/// only the association token afterwards.
pub open spec fn admits(c: ConnV, token: u32) -> bool {
    match c.state {
        HandshakeState::Closed => false,
        HandshakeState::InitSent => token == 0,
        _ => token == c.peer_token,
    }
}

/// The freshly connecting initiator and its first actions. The caller
/// supplies the randomized initial sequence number.
pub open spec fn spec_connect(local_tsn: u32) -> (ConnV, Seq<ActionV>) {
    (
        ConnV {
            state: HandshakeState::InitSent,
            peer_token: 0,
            local_tsn,
            peer_tsn: 0,
            cookie: None,
            ins: Seq::empty(),
            outs: Seq::empty(),
            unacked: Seq::empty(),
            hs_attempts: 0,
            data_attempts: 0,
            hs_gen: 1,
            rtx_gen: 0,
            linger_gen: 0,
            idle_gen: 0,
        },
        seq![
            send1(0, ChunkV::Init { token: 0, tsn: local_tsn }),
            ActionV::Start { kind: TimerKind::Handshake, generation: 1 },
        ],
    )
}

/// The transition on an inbound data chunk.
pub open spec fn spec_recv_data(c: ConnV, sid: u32, ord: u32, payload: Seq<u8>) -> (
    ConnV,
    Seq<ActionV>,
) {
    if c.state != HandshakeState::Established {
        (c, seq![])
    } else if ord == 0 || ord == u32::MAX {
        (c, seq![])
    } else {
        let ack = send1(c.peer_token, ChunkV::DataAck { stream_id: sid, ordinal: ord });
        let i = find_first(c.ins, |s: StreamInV| s.stream_id == sid);
        let st = if i == -1 {
            StreamInV { stream_id: sid, next: 1, buf: Seq::empty() }
        } else {
            c.ins[i]
        };
        if ord < st.next || has_ord(st.buf, ord) {
            (c, seq![ack])
        } else {
            let st1 = if ord == st.next {
                let r = deliver_loop(st.buf.push(SlotV { ordinal: ord, payload }), st.next);
                StreamInV { stream_id: sid, next: r.2, buf: r.0 }
            } else {
                StreamInV { stream_id: sid, next: st.next, buf: st.buf.push(
                    SlotV { ordinal: ord, payload },
                ) }
            };
            let delivered = if ord == st.next {
                deliver_loop(st.buf.push(SlotV { ordinal: ord, payload }), st.next).1.map_values(
                    |p: Seq<u8>| ActionV::Deliver { stream_id: sid, payload: p },
                )
            } else {
                seq![]
            };
            let ins1 = if i == -1 {
                c.ins.push(st1)
            } else {
                c.ins.update(i, st1)
            };
            (ConnV { ins: ins1, ..c }, seq![ack] + delivered)
        }
    }
}

/// The transition on an inbound data acknowledgment.
pub open spec fn spec_recv_ack(c: ConnV, sid: u32, ord: u32) -> (ConnV, Seq<ActionV>) {
    if c.state != HandshakeState::Established {
        (c, seq![])
    } else {
        let j = find_first(c.unacked, |u: UnackedV| u.stream_id == sid && u.ordinal == ord);
        if j == -1 {
            (c, seq![])
        } else {
            let u1 = c.unacked.remove(j);
            if u1.len() == 0 {
                (
                    ConnV { unacked: u1, data_attempts: 0, rtx_gen: bump(c.rtx_gen), ..c },
                    seq![ActionV::Stop { kind: TimerKind::Retransmit }],
                )
            } else {
                (ConnV { unacked: u1, ..c }, seq![])
            }
        }
    }
}

/// The transition on a single admitted chunk.
pub open spec fn spec_chunk(c: ConnV, ch: ChunkV) -> (ConnV, Seq<ActionV>) {
    match ch {
        ChunkV::Init { .. } => (c, seq![]),
        ChunkV::InitAck { token, tsn, state_cookie } => if c.state == HandshakeState::InitSent {
            (
                ConnV {
                    state: HandshakeState::CookieEchoed,
                    peer_token: token,
                    peer_tsn: tsn,
                    cookie: Some(state_cookie),
                    hs_attempts: 0,
                    hs_gen: bump(c.hs_gen),
                    ..c
                },
                seq![
                    send1(token, ChunkV::CookieEcho(state_cookie)),
                    ActionV::Start { kind: TimerKind::Handshake, generation: bump(c.hs_gen) },
                ],
            )
        } else {
            (c, seq![])
        },
        ChunkV::CookieEcho(_) => (c, seq![]),
        ChunkV::CookieAck => if c.state == HandshakeState::CookieEchoed {
            (
                ConnV {
                    state: HandshakeState::Established,
                    hs_gen: bump(c.hs_gen),
                    idle_gen: bump(c.idle_gen),
                    ..c
                },
                seq![
                    ActionV::Stop { kind: TimerKind::Handshake },
                    ActionV::Start { kind: TimerKind::Idle, generation: bump(c.idle_gen) },
                ],
            )
        } else {
            (c, seq![])
        },
        ChunkV::Data { stream_id, ordinal, payload } => spec_recv_data(
            c,
            stream_id,
            ordinal,
            payload,
        ),
        ChunkV::DataAck { stream_id, ordinal } => spec_recv_ack(c, stream_id, ordinal),
        ChunkV::Shutdown => if c.state == HandshakeState::Established || c.state
            == HandshakeState::Closing {
            (closed(c), seq![send1(c.peer_token, ChunkV::ShutdownAck)] + stop_all())
        } else {
            (c, seq![])
        },
        ChunkV::ShutdownAck => if c.state == HandshakeState::Closing {
            (closed(c), stop_all())
        } else {
            (c, seq![])
        },
    }
}

/// The chunks of one admitted gram, processed strictly in order.
pub open spec fn spec_chunks(c: ConnV, chs: Seq<ChunkV>) -> (ConnV, Seq<ActionV>)
    decreases chs.len(),
{
    if chs.len() == 0 {
        (c, seq![])
    } else {
        let first = spec_chunk(c, chs[0]);
        let rest = spec_chunks(first.0, chs.skip(1));
        (rest.0, first.1 + rest.1)
    }
}

/// The grams resending every unacknowledged data unit, in order.
pub open spec fn resends(u: Seq<UnackedV>, token: u32) -> Seq<ActionV> {
    u.map_values(
        |x: UnackedV| send1(
            token,
            ChunkV::Data { stream_id: x.stream_id, ordinal: x.ordinal, payload: x.payload },
        ),
    )
}

/// The transition on a timer firing. A firing whose generation is not the
/// current one for its kind is stale and ignored.
pub open spec fn spec_timer(c: ConnV, t: Timer) -> (ConnV, Seq<ActionV>) {
    match t.kind {
        TimerKind::Handshake => if t.generation == c.hs_gen && c.state
            == HandshakeState::InitSent {
            if c.hs_attempts < MAX_RETRIES {
                (
                    ConnV {
                        hs_attempts: (c.hs_attempts + 1) as u32,
                        hs_gen: bump(c.hs_gen),
                        ..c
                    },
                    seq![
                        send1(0, ChunkV::Init { token: 0, tsn: c.local_tsn }),
                        ActionV::Start { kind: TimerKind::Handshake, generation: bump(c.hs_gen) },
                    ],
                )
            } else {
                (closed(c), seq![ActionV::Fail(ConnError::Timeout)] + stop_all())
            }
        } else if t.generation == c.hs_gen && c.state == HandshakeState::CookieEchoed {
            if c.hs_attempts < MAX_RETRIES {
                (
                    ConnV {
                        hs_attempts: (c.hs_attempts + 1) as u32,
                        hs_gen: bump(c.hs_gen),
                        ..c
                    },
                    seq![
                        send1(c.peer_token, ChunkV::CookieEcho(c.cookie.unwrap())),
                        ActionV::Start { kind: TimerKind::Handshake, generation: bump(c.hs_gen) },
                    ],
                )
            } else {
                (closed(c), seq![ActionV::Fail(ConnError::Timeout)] + stop_all())
            }
        } else {
            (c, seq![])
        },
        TimerKind::Retransmit => if t.generation == c.rtx_gen && c.state
            == HandshakeState::Established && c.unacked.len() > 0 {
            if c.data_attempts < MAX_RETRIES {
                (
                    ConnV {
                        data_attempts: (c.data_attempts + 1) as u32,
                        rtx_gen: bump(c.rtx_gen),
                        ..c
                    },
                    resends(c.unacked, c.peer_token) + seq![
                        ActionV::Start { kind: TimerKind::Retransmit, generation: bump(c.rtx_gen) },
                    ],
                )
            } else {
                (closed(c), seq![ActionV::Fail(ConnError::Timeout)] + stop_all())
            }
        } else {
            (c, seq![])
        },
        TimerKind::Linger => if t.generation == c.linger_gen && c.state
            == HandshakeState::Closing {
            (closed(c), stop_all())
        } else {
            (c, seq![])
        },
        TimerKind::Idle => if t.generation == c.idle_gen && c.state
            == HandshakeState::Established {
            (closed(c), stop_all())
        } else {
            (c, seq![])
        },
    }
}

/// The transition on an application call.
pub open spec fn spec_api(c: ConnV, a: ApiV) -> (ConnV, Seq<ActionV>) {
    match a {
        ApiV::Conn => if c.state == HandshakeState::Closed {
            (c, seq![ActionV::Fail(ConnError::NotConnected)])
        } else {
            (c, seq![])
        },
        ApiV::Disc => match c.state {
            HandshakeState::Closed => (c, seq![ActionV::Fail(ConnError::NotConnected)]),
            HandshakeState::Established => (
                ConnV {
                    state: HandshakeState::Closing,
                    rtx_gen: bump(c.rtx_gen),
                    idle_gen: bump(c.idle_gen),
                    linger_gen: bump(c.linger_gen),
                    ..c
                },
                seq![
                    send1(c.peer_token, ChunkV::Shutdown),
                    ActionV::Stop { kind: TimerKind::Retransmit },
                    ActionV::Stop { kind: TimerKind::Idle },
                    ActionV::Start { kind: TimerKind::Linger, generation: bump(c.linger_gen) },
                ],
            ),
            HandshakeState::Closing => (c, seq![]),
            _ => (closed(c), stop_all()),
        },
        ApiV::Tx { stream_id, payload } => if c.state != HandshakeState::Established {
            (c, seq![ActionV::Fail(ConnError::NotConnected)])
        } else if payload.len() > MAX_PAYLOAD {
            (closed(c), seq![ActionV::Fail(ConnError::Oversize)] + stop_all())
        } else {
            let j = find_first(c.outs, |s: StreamOut| s.stream_id == stream_id);
            let st = if j == -1 {
                StreamOut { stream_id, next: 1 }
            } else {
                c.outs[j]
            };
            if st.next == u32::MAX {
                (closed(c), seq![ActionV::Fail(ConnError::StreamExhausted)] + stop_all())
            } else {
                let st1 = StreamOut { stream_id, next: (st.next + 1) as u32 };
                let outs1 = if j == -1 {
                    c.outs.push(st1)
                } else {
                    c.outs.update(j, st1)
                };
                let starts: Seq<ActionV> = if c.unacked.len() == 0 {
                    seq![
                        ActionV::Start {
                            kind: TimerKind::Retransmit,
                            generation: bump(c.rtx_gen),
                        },
                    ]
                } else {
                    seq![]
                };
                (
                    ConnV {
                        outs: outs1,
                        unacked: c.unacked.push(
                            UnackedV { stream_id, ordinal: st.next, payload },
                        ),
                        rtx_gen: if c.unacked.len() == 0 {
                            bump(c.rtx_gen)
                        } else {
                            c.rtx_gen
                        },
                        ..c
                    },
                    seq![
                        send1(
                            c.peer_token,
                            ChunkV::Data { stream_id, ordinal: st.next, payload },
                        ),
                    ] + starts,
                )
            }
        },
    }
}

/// The whole transition relation of a connection: one event in, the new
/// state and the ordered actions out.
pub open spec fn spec_step(c: ConnV, e: EventV) -> (ConnV, Seq<ActionV>) {
    match e {
        EventV::Api(a) => spec_api(c, a),
        EventV::Timer(t) => spec_timer(c, t),
        EventV::InvalidGram => (c, seq![]),
        EventV::Chunk(ch) => if c.state == HandshakeState::Closed {
            (c, seq![])
        } else {
            spec_chunk(c, ch)
        },
        EventV::Gram(g) => if !admits(c, g.token) {
            (c, seq![])
        } else {
            let c0 = if c.state == HandshakeState::Established {
                ConnV { idle_gen: bump(c.idle_gen), ..c }
            } else {
                c
            };
            let pre: Seq<ActionV> = if c.state == HandshakeState::Established {
                seq![ActionV::Start { kind: TimerKind::Idle, generation: bump(c.idle_gen) }]
            } else {
                seq![]
            };
            let r = spec_chunks(c0, g.chunks);
            (r.0, pre + r.1)
        },
    }
}

} // verus!

verus! {

fn clone_bytes(v: &Vec<u8>) -> (r: Vec<u8>)
    ensures
        r@ == v@,
{
    let mut r: Vec<u8> = Vec::new();
    let mut j: usize = 0;
    while j < v.len()
        invariant
            j <= v@.len(),
            r@ == v@.take(j as int),
        decreases v@.len() - j,
    {
        r.push(v[j]);
        assert(r@ =~= v@.take(j as int + 1));
        j = j + 1;
    }
    assert(v@.take(v@.len() as int) =~= v@);
    r
}

fn gram1_exec(token: u32, c: Chunk) -> (g: Gram)
    ensures
        g@ == gram1(token, c@),
{
    let mut chunks: Vec<Chunk> = Vec::new();
    chunks.push(c);
    let g = Gram { token, chunks };
    assert(g@.chunks =~= seq![g.chunks@[0]@]);
    g
}

fn push_stop_all(out: &mut Vec<Action>)
    ensures
        acts(final(out)@) == acts(old(out)@) + stop_all(),
{
    out.push(Action::Stop { kind: TimerKind::Handshake });
    out.push(Action::Stop { kind: TimerKind::Retransmit });
    out.push(Action::Stop { kind: TimerKind::Linger });
    out.push(Action::Stop { kind: TimerKind::Idle });
    assert(acts(out@) =~= acts(old(out)@) + stop_all());
}

fn find_stream(ins: &Vec<StreamIn>, sid: u32) -> (r: Option<usize>)
    ensures
        ({
            let f = find_first(
                ins@.map_values(|s: StreamIn| s@),
                |s: StreamInV| s.stream_id == sid,
            );
            match r {
                Some(i) => f == i && i < ins@.len(),
                None => f == -1,
            }
        }),
{
    let ghost sv = ins@.map_values(|s: StreamIn| s@);
    let ghost p = |s: StreamInV| s.stream_id == sid;
    proof {
        lemma_find_first(sv, p);
    }
    let mut i: usize = 0;
    while i < ins.len()
        invariant
            i <= ins@.len() == sv.len(),
            sv == ins@.map_values(|s: StreamIn| s@),
            p == (|s: StreamInV| s.stream_id == sid),
            forall|j: int| 0 <= j < i ==> !p(#[trigger] sv[j]),
        decreases ins@.len() - i,
    {
        if ins[i].stream_id == sid {
            proof {
                lemma_find_first(sv, p);
                assert(p(sv[i as int]));
                let f = find_first(sv, p);
                assert(f != -1);
                assert(f <= i && i <= f);
            }
            return Some(i);
        }
        assert(!p(sv[i as int]));
        i = i + 1;
    }
    proof {
        lemma_find_first(sv, p);
        let f = find_first(sv, p);
        if f != -1 {
            assert(p(sv[f]));
            assert(false);
        }
    }
    None
}

fn find_out_stream(outs: &Vec<StreamOut>, sid: u32) -> (r: Option<usize>)
    ensures
        ({
            let f = find_first(outs@, |s: StreamOut| s.stream_id == sid);
            match r {
                Some(i) => f == i && i < outs@.len(),
                None => f == -1,
            }
        }),
{
    let ghost p = |s: StreamOut| s.stream_id == sid;
    proof {
        lemma_find_first(outs@, p);
    }
    let mut i: usize = 0;
    while i < outs.len()
        invariant
            i <= outs@.len(),
            p == (|s: StreamOut| s.stream_id == sid),
            forall|j: int| 0 <= j < i ==> !p(#[trigger] outs@[j]),
        decreases outs@.len() - i,
    {
        if outs[i].stream_id == sid {
            proof {
                lemma_find_first(outs@, p);
                assert(p(outs@[i as int]));
                let f = find_first(outs@, p);
                assert(f != -1);
                assert(f <= i && i <= f);
            }
            return Some(i);
        }
        assert(!p(outs@[i as int]));
        i = i + 1;
    }
    proof {
        lemma_find_first(outs@, p);
        let f = find_first(outs@, p);
        if f != -1 {
            assert(p(outs@[f]));
            assert(false);
        }
    }
    None
}

fn find_unacked_at(unacked: &Vec<Unacked>, sid: u32, ord: u32) -> (r: Option<usize>)
    ensures
        ({
            let f = find_first(
                unacked@.map_values(|u: Unacked| u@),
                |u: UnackedV| u.stream_id == sid && u.ordinal == ord,
            );
            match r {
                Some(i) => f == i && i < unacked@.len(),
                None => f == -1,
            }
        }),
{
    let ghost sv = unacked@.map_values(|u: Unacked| u@);
    let ghost p = |u: UnackedV| u.stream_id == sid && u.ordinal == ord;
    proof {
        lemma_find_first(sv, p);
    }
    let mut i: usize = 0;
    while i < unacked.len()
        invariant
            i <= unacked@.len() == sv.len(),
            sv == unacked@.map_values(|u: Unacked| u@),
            p == (|u: UnackedV| u.stream_id == sid && u.ordinal == ord),
            forall|j: int| 0 <= j < i ==> !p(#[trigger] sv[j]),
        decreases unacked@.len() - i,
    {
        if unacked[i].stream_id == sid && unacked[i].ordinal == ord {
            proof {
                lemma_find_first(sv, p);
                assert(p(sv[i as int]));
                let f = find_first(sv, p);
                assert(f != -1);
                assert(f <= i && i <= f);
            }
            return Some(i);
        }
        assert(!p(sv[i as int]));
        i = i + 1;
    }
    proof {
        lemma_find_first(sv, p);
        let f = find_first(sv, p);
        if f != -1 {
            assert(p(sv[f]));
            assert(false);
        }
    }
    None
}

fn find_slot_at(buf: &Vec<Slot>, ord: u32) -> (r: Option<usize>)
    ensures
        ({
            let f = find_first(buf@.map_values(|s: Slot| s@), |sl: SlotV| sl.ordinal == ord);
            match r {
                Some(i) => f == i && i < buf@.len(),
                None => f == -1,
            }
        }),
{
    let ghost sv = buf@.map_values(|s: Slot| s@);
    let ghost p = |sl: SlotV| sl.ordinal == ord;
    proof {
        lemma_find_first(sv, p);
    }
    let mut i: usize = 0;
    while i < buf.len()
        invariant
            i <= buf@.len() == sv.len(),
            sv == buf@.map_values(|s: Slot| s@),
            p == (|sl: SlotV| sl.ordinal == ord),
            forall|j: int| 0 <= j < i ==> !p(#[trigger] sv[j]),
        decreases buf@.len() - i,
    {
        if buf[i].ordinal == ord {
            proof {
                lemma_find_first(sv, p);
                assert(p(sv[i as int]));
                let f = find_first(sv, p);
                assert(f != -1);
                assert(f <= i && i <= f);
            }
            return Some(i);
        }
        assert(!p(sv[i as int]));
        i = i + 1;
    }
    proof {
        lemma_find_first(sv, p);
        let f = find_first(sv, p);
        if f != -1 {
            assert(p(sv[f]));
            assert(false);
        }
    }
    None
}

} // verus!

verus! {

impl Connection {
    /// Closes the connection: every timer generation is invalidated and a
    /// cancellation for each kind is emitted, so no stale work survives
    /// destruction.
    fn do_close(&mut self, out: &mut Vec<Action>)
        ensures
            final(self)@ == closed(old(self)@),
            acts(final(out)@) == acts(old(out)@) + stop_all(),
            conn_wf(old(self)@) ==> conn_wf(final(self)@),
    {
        self.state = HandshakeState::Closed;
        self.hs_gen = next_gen(self.hs_gen);
        self.rtx_gen = next_gen(self.rtx_gen);
        self.linger_gen = next_gen(self.linger_gen);
        self.idle_gen = next_gen(self.idle_gen);
        push_stop_all(out);
        assert(self@ =~= closed(old(self)@));
    }

    /// Creates the initiating side of a connection and the actions that
    /// open the handshake. The caller supplies the randomized initial
    /// sequence number; the association token is the responder's to
    /// choose, so the opening gram and its `Init` carry token zero.
    pub fn connect(local_tsn: u32) -> (r: (Connection, Vec<Action>))
        ensures
            r.0@ == spec_connect(local_tsn).0,
            acts(r.1@) == spec_connect(local_tsn).1,
            conn_wf(r.0@),
    {
        let conn = Connection {
            state: HandshakeState::InitSent,
            peer_token: 0,
            local_tsn,
            peer_tsn: 0,
            cookie: None,
            ins: Vec::new(),
            outs: Vec::new(),
            unacked: Vec::new(),
            hs_attempts: 0,
            data_attempts: 0,
            hs_gen: 1,
            rtx_gen: 0,
            linger_gen: 0,
            idle_gen: 0,
        };
        let mut out: Vec<Action> = Vec::new();
        out.push(Action::Send(gram1_exec(0, Chunk::Init { token: 0, tsn: local_tsn })));
        out.push(Action::Start { kind: TimerKind::Handshake, generation: 1 });
        assert(conn@ =~~= spec_connect(local_tsn).0);
        assert(acts(out@) =~~= spec_connect(local_tsn).1);
        (conn, out)
    }

    fn on_api(&mut self, a: Api) -> (out: Vec<Action>)
        requires
            conn_wf(old(self)@),
        ensures
            final(self)@ == spec_api(old(self)@, a@).0,
            acts(out@) == spec_api(old(self)@, a@).1,
            conn_wf(final(self)@),
    {
        let mut out: Vec<Action> = Vec::new();
        match a {
            Api::Conn => {
                if self.state == HandshakeState::Closed {
                    out.push(Action::Fail(ConnError::NotConnected));
                    assert(acts(out@) =~= spec_api(old(self)@, a@).1);
                } else {
                    assert(acts(out@) =~= spec_api(old(self)@, a@).1);
                }
                out
            },
            Api::Disc => {
                match self.state {
                    HandshakeState::Closed => {
                        out.push(Action::Fail(ConnError::NotConnected));
                        assert(acts(out@) =~= spec_api(old(self)@, ApiV::Disc).1);
                    },
                    HandshakeState::Established => {
                        out.push(Action::Send(gram1_exec(self.peer_token, Chunk::Shutdown)));
                        self.rtx_gen = next_gen(self.rtx_gen);
                        self.idle_gen = next_gen(self.idle_gen);
                        self.linger_gen = next_gen(self.linger_gen);
                        out.push(Action::Stop { kind: TimerKind::Retransmit });
                        out.push(Action::Stop { kind: TimerKind::Idle });
                        out.push(
                            Action::Start {
                                kind: TimerKind::Linger,
                                generation: self.linger_gen,
                            },
                        );
                        self.state = HandshakeState::Closing;
                        assert(self@ =~~= spec_api(old(self)@, ApiV::Disc).0);
                        assert(acts(out@) =~~= spec_api(old(self)@, ApiV::Disc).1);
                    },
                    HandshakeState::Closing => {
                        assert(acts(out@) =~= spec_api(old(self)@, ApiV::Disc).1);
                    },
                    _ => {
                        self.do_close(&mut out);
                        assert(acts(out@) =~= spec_api(old(self)@, ApiV::Disc).1);
                    },
                }
                out
            },
            Api::Tx { stream_id, payload } => self.api_tx(stream_id, payload),
        }
    }

    fn api_tx(&mut self, stream_id: u32, payload: Vec<u8>) -> (out: Vec<Action>)
        requires
            conn_wf(old(self)@),
        ensures
            final(self)@ == spec_api(
                old(self)@,
                ApiV::Tx { stream_id, payload: payload@ },
            ).0,
            acts(out@) == spec_api(old(self)@, ApiV::Tx { stream_id, payload: payload@ }).1,
            conn_wf(final(self)@),
    {
        let ghost av = ApiV::Tx { stream_id, payload: payload@ };
        let mut out: Vec<Action> = Vec::new();
        if self.state != HandshakeState::Established {
            out.push(Action::Fail(ConnError::NotConnected));
            assert(acts(out@) =~= spec_api(old(self)@, av).1);
            return out;
        }
        if payload.len() > MAX_PAYLOAD {
            out.push(Action::Fail(ConnError::Oversize));
            self.do_close(&mut out);
            assert(acts(out@) =~= spec_api(old(self)@, av).1);
            return out;
        }
        let found = find_out_stream(&self.outs, stream_id);
        let st: StreamOut = match found {
            Some(j) => self.outs[j],
            None => StreamOut { stream_id, next: 1 },
        };
        if st.next == u32::MAX {
            out.push(Action::Fail(ConnError::StreamExhausted));
            self.do_close(&mut out);
            assert(acts(out@) =~= spec_api(old(self)@, av).1);
            return out;
        }
        let ord = st.next;
        let st1 = StreamOut { stream_id, next: ord + 1 };
        match found {
            Some(j) => {
                self.outs.set(j, st1);
            },
            None => {
                self.outs.push(st1);
                proof {
                    lemma_find_first(old(self)@.outs, |s: StreamOut| s.stream_id == stream_id);
                }
            },
        }
        let data = Chunk::Data { stream_id, ordinal: ord, payload: clone_bytes(&payload) };
        out.push(Action::Send(gram1_exec(self.peer_token, data)));
        if self.unacked.len() == 0 {
            self.rtx_gen = next_gen(self.rtx_gen);
            out.push(Action::Start { kind: TimerKind::Retransmit, generation: self.rtx_gen });
        }
        self.unacked.push(Unacked { stream_id, ordinal: ord, payload });
        proof {
            if found is Some {
                lemma_find_first(old(self)@.outs, |s: StreamOut| s.stream_id == stream_id);
            }
            assert(self@.unacked =~= old(self)@.unacked.push(
                UnackedV { stream_id, ordinal: ord, payload: av->Tx_payload },
            ));
            assert(self@ =~~= spec_api(old(self)@, av).0);
            assert(acts(out@) =~~= spec_api(old(self)@, av).1);
        }
        out
    }

    fn on_timer(&mut self, t: Timer) -> (out: Vec<Action>)
        requires
            conn_wf(old(self)@),
        ensures
            final(self)@ == spec_timer(old(self)@, t).0,
            acts(out@) == spec_timer(old(self)@, t).1,
            conn_wf(final(self)@),
    {
        let mut out: Vec<Action> = Vec::new();
        match t.kind {
            TimerKind::Handshake => {
                if t.generation == self.hs_gen && self.state == HandshakeState::InitSent {
                    if self.hs_attempts < MAX_RETRIES {
                        self.hs_attempts = self.hs_attempts + 1;
                        self.hs_gen = next_gen(self.hs_gen);
                        out.push(
                            Action::Send(
                                gram1_exec(0, Chunk::Init { token: 0, tsn: self.local_tsn }),
                            ),
                        );
                        out.push(
                            Action::Start {
                                kind: TimerKind::Handshake,
                                generation: self.hs_gen,
                            },
                        );
                        assert(self@ =~~= spec_timer(old(self)@, t).0);
                        assert(acts(out@) =~~= spec_timer(old(self)@, t).1);
                    } else {
                        out.push(Action::Fail(ConnError::Timeout));
                        self.do_close(&mut out);
                        assert(acts(out@) =~= spec_timer(old(self)@, t).1);
                    }
                } else if t.generation == self.hs_gen && self.state
                    == HandshakeState::CookieEchoed {
                    if self.hs_attempts < MAX_RETRIES {
                        self.hs_attempts = self.hs_attempts + 1;
                        self.hs_gen = next_gen(self.hs_gen);
                        let ck = self.cookie.unwrap();
                        out.push(
                            Action::Send(gram1_exec(self.peer_token, Chunk::CookieEcho(ck))),
                        );
                        out.push(
                            Action::Start {
                                kind: TimerKind::Handshake,
                                generation: self.hs_gen,
                            },
                        );
                        assert(self@ =~~= spec_timer(old(self)@, t).0);
                        assert(acts(out@) =~~= spec_timer(old(self)@, t).1);
                    } else {
                        out.push(Action::Fail(ConnError::Timeout));
                        self.do_close(&mut out);
                        assert(acts(out@) =~= spec_timer(old(self)@, t).1);
                    }
                } else {
                    assert(acts(out@) =~= spec_timer(old(self)@, t).1);
                }
            },
            TimerKind::Retransmit => {
                if t.generation == self.rtx_gen && self.state == HandshakeState::Established
                    && self.unacked.len() > 0 {
                    if self.data_attempts < MAX_RETRIES {
                        let ghost uv = self@.unacked;
                        let ghost tok = self.peer_token;
                        let mut k: usize = 0;
                        while k < self.unacked.len()
                            invariant
                                k <= self.unacked@.len(),
                                *self == *old(self),
                                uv == self@.unacked,
                                tok == self.peer_token,
                                acts(out@) == resends(uv.take(k as int), tok),
                            decreases self.unacked@.len() - k,
                        {
                            let u = &self.unacked[k];
                            let data = Chunk::Data {
                                stream_id: u.stream_id,
                                ordinal: u.ordinal,
                                payload: clone_bytes(&u.payload),
                            };
                            let ghost prev = out@;
                            out.push(Action::Send(gram1_exec(self.peer_token, data)));
                            proof {
                                let ki = k as int;
                                assert(acts(prev).len() == ki);
                                assert(prev.len() == ki);
                                assert(out@ == prev.push(out@[ki]));
                                assert(uv[ki] == self.unacked@[ki]@);
                                assert forall|j: int|
                                    0 <= j < ki + 1 implies acts(out@)[j] == resends(
                                    uv.take(ki + 1),
                                    tok,
                                )[j] by {
                                    assert(uv.take(ki + 1)[j] == uv[j]);
                                    if j < ki {
                                        assert(out@[j] == prev[j]);
                                        assert(acts(out@)[j] == acts(prev)[j]);
                                        assert(acts(prev)[j] == resends(uv.take(ki), tok)[j]);
                                        assert(uv.take(ki)[j] == uv[j]);
                                    }
                                }
                                assert(acts(out@) =~~= resends(uv.take(ki + 1), tok));
                            }
                            k = k + 1;
                        }
                        assert(uv.take(uv.len() as int) =~= uv);
                        self.data_attempts = self.data_attempts + 1;
                        self.rtx_gen = next_gen(self.rtx_gen);
                        out.push(
                            Action::Start {
                                kind: TimerKind::Retransmit,
                                generation: self.rtx_gen,
                            },
                        );
                        assert(self@ =~~= spec_timer(old(self)@, t).0);
                        assert(acts(out@) =~~= spec_timer(old(self)@, t).1);
                    } else {
                        out.push(Action::Fail(ConnError::Timeout));
                        self.do_close(&mut out);
                        assert(acts(out@) =~= spec_timer(old(self)@, t).1);
                    }
                } else {
                    assert(acts(out@) =~= spec_timer(old(self)@, t).1);
                }
            },
            TimerKind::Linger => {
                if t.generation == self.linger_gen && self.state == HandshakeState::Closing {
                    self.do_close(&mut out);
                    assert(acts(out@) =~= spec_timer(old(self)@, t).1);
                } else {
                    assert(acts(out@) =~= spec_timer(old(self)@, t).1);
                }
            },
            TimerKind::Idle => {
                if t.generation == self.idle_gen && self.state == HandshakeState::Established {
                    self.do_close(&mut out);
                    assert(acts(out@) =~= spec_timer(old(self)@, t).1);
                } else {
                    assert(acts(out@) =~= spec_timer(old(self)@, t).1);
                }
            },
        }
        out
    }
}

} // verus!

verus! {

impl Connection {
    fn recv_ack(&mut self, sid: u32, ord: u32) -> (out: Vec<Action>)
        requires
            conn_wf(old(self)@),
        ensures
            final(self)@ == spec_recv_ack(old(self)@, sid, ord).0,
            acts(out@) == spec_recv_ack(old(self)@, sid, ord).1,
            conn_wf(final(self)@),
    {
        let mut out: Vec<Action> = Vec::new();
        if self.state != HandshakeState::Established {
            assert(acts(out@) =~= spec_recv_ack(old(self)@, sid, ord).1);
            return out;
        }
        match find_unacked_at(&self.unacked, sid, ord) {
            None => {
                assert(acts(out@) =~= spec_recv_ack(old(self)@, sid, ord).1);
                out
            },
            Some(j) => {
                let _dropped = self.unacked.remove(j);
                assert(self@.unacked =~= old(self)@.unacked.remove(j as int));
                if self.unacked.len() == 0 {
                    self.data_attempts = 0;
                    self.rtx_gen = next_gen(self.rtx_gen);
                    out.push(Action::Stop { kind: TimerKind::Retransmit });
                    assert(self@ =~~= spec_recv_ack(old(self)@, sid, ord).0);
                    assert(acts(out@) =~~= spec_recv_ack(old(self)@, sid, ord).1);
                } else {
                    assert(self@ =~~= spec_recv_ack(old(self)@, sid, ord).0);
                    assert(acts(out@) =~~= spec_recv_ack(old(self)@, sid, ord).1);
                }
                out
            },
        }
    }

    #[verifier::rlimit(100)]
    fn recv_data(&mut self, sid: u32, ord: u32, payload: Vec<u8>) -> (out: Vec<Action>)
        requires
            conn_wf(old(self)@),
        ensures
            final(self)@ == spec_recv_data(old(self)@, sid, ord, payload@).0,
            acts(out@) == spec_recv_data(old(self)@, sid, ord, payload@).1,
            conn_wf(final(self)@),
    {
        let ghost pv = payload@;
        let mut out: Vec<Action> = Vec::new();
        if self.state != HandshakeState::Established {
            assert(acts(out@) =~= spec_recv_data(old(self)@, sid, ord, pv).1);
            return out;
        }
        if ord == 0 || ord == u32::MAX {
            assert(acts(out@) =~= spec_recv_data(old(self)@, sid, ord, pv).1);
            return out;
        }
        let ack = Action::Send(
            gram1_exec(self.peer_token, Chunk::DataAck { stream_id: sid, ordinal: ord }),
        );
        let ghost ackv = ack@;
        assert(ackv == send1(old(self)@.peer_token, ChunkV::DataAck { stream_id: sid, ordinal: ord }));
        match find_stream(&self.ins, sid) {
            None => {
                proof {
                    lemma_find_first(
                        old(self)@.ins,
                        |s: StreamInV| s.stream_id == sid,
                    );
                }
                out.push(ack);
                if ord == 1 {
                    out.push(Action::Deliver { stream_id: sid, payload });
                    self.ins.push(StreamIn { stream_id: sid, next: 2, buf: Vec::new() });
                    proof {
                        let slot = SlotV { ordinal: 1, payload: pv };
                        let b1 = Seq::<SlotV>::empty().push(slot);
                        assert(find_first(b1, |sl: SlotV| sl.ordinal == 1u32) == 0);
                        assert(b1.remove(0) =~= Seq::<SlotV>::empty());
                        assert(find_first(
                            Seq::<SlotV>::empty(),
                            |sl: SlotV| sl.ordinal == 2u32,
                        ) == -1);
                        let r2 = deliver_loop(b1.remove(0), 2u32);
                        assert(r2.0 =~= Seq::<SlotV>::empty());
                        assert(r2.1 =~= Seq::<Seq<u8>>::empty());
                        assert(r2.2 == 2u32);
                        assert(deliver_loop(b1, 1).0 =~= Seq::<SlotV>::empty());
                        assert(deliver_loop(b1, 1).1 =~= seq![pv]);
                        assert(deliver_loop(b1, 1).2 == 2u32);
                        assert(self@.ins =~~= old(self)@.ins.push(
                            StreamInV { stream_id: sid, next: 2, buf: Seq::empty() },
                        ));
                        assert(self@ =~~= spec_recv_data(old(self)@, sid, ord, pv).0);
                        assert(acts(out@) =~~= spec_recv_data(old(self)@, sid, ord, pv).1);
                        let st_new = StreamInV { stream_id: sid, next: 2, buf: Seq::empty() };
                        assert(stream_in_wf(st_new));
                        lemma_wf_push_stream(old(self)@, self@, st_new);
                    }
                } else {
                    let mut buf: Vec<Slot> = Vec::new();
                    buf.push(Slot { ordinal: ord, payload });
                    self.ins.push(StreamIn { stream_id: sid, next: 1, buf });
                    proof {
                        assert(find_first(
                            Seq::<SlotV>::empty(),
                            |sl: SlotV| sl.ordinal == ord,
                        ) == -1);
                        assert(self@.ins =~~= old(self)@.ins.push(
                            StreamInV {
                                stream_id: sid,
                                next: 1,
                                buf: seq![SlotV { ordinal: ord, payload: pv }],
                            },
                        ));
                        assert(self@ =~~= spec_recv_data(old(self)@, sid, ord, pv).0);
                        assert(acts(out@) =~~= spec_recv_data(old(self)@, sid, ord, pv).1);
                        let st_new = StreamInV {
                            stream_id: sid,
                            next: 1,
                            buf: seq![SlotV { ordinal: ord, payload: pv }],
                        };
                        assert(stream_in_wf(st_new));
                        lemma_wf_push_stream(old(self)@, self@, st_new);
                    }
                }
                out
            },
            Some(i) => {
                let mut st = self.ins.remove(i);
                let ghost stv = old(self)@.ins[i as int];
                assert(st@ == stv);
                proof {
                    lemma_find_first(old(self)@.ins, |s: StreamInV| s.stream_id == sid);
                    assert(stv.stream_id == sid);
                }
                let dup = ord < st.next || find_slot_at(&st.buf, ord).is_some();
                if dup {
                    self.ins.insert(i, st);
                    out.push(ack);
                    proof {
                        assert(self@.ins =~~= old(self)@.ins);
                        assert(self@ =~~= old(self)@);
                        assert(acts(out@) =~~= spec_recv_data(old(self)@, sid, ord, pv).1);
                    }
                    out
                } else if ord > st.next {
                    st.buf.push(Slot { ordinal: ord, payload });
                    assert(st@.buf =~= stv.buf.push(SlotV { ordinal: ord, payload: pv }));
                    self.ins.insert(i, st);
                    out.push(ack);
                    proof {
                        let st1 = StreamInV {
                            stream_id: sid,
                            next: stv.next,
                            buf: stv.buf.push(SlotV { ordinal: ord, payload: pv }),
                        };
                        assert(self@.ins =~~= old(self)@.ins.update(i as int, st1));
                        assert(self@ =~~= spec_recv_data(old(self)@, sid, ord, pv).0);
                        assert(acts(out@) =~~= spec_recv_data(old(self)@, sid, ord, pv).1);
                        lemma_find_first(stv.buf, |sl: SlotV| sl.ordinal == ord);
                        assert forall|a: int, b: int|
                            0 <= a < b < st1.buf.len() implies (
                            #[trigger] st1.buf[a]).ordinal != (
                            #[trigger] st1.buf[b]).ordinal by {
                            if b < stv.buf.len() {
                                assert(st1.buf[a] == stv.buf[a] && st1.buf[b] == stv.buf[b]);
                            } else {
                                assert(st1.buf[a] == stv.buf[a]);
                                assert(stv.buf[a].ordinal != ord);
                            }
                        }
                        assert(stream_in_wf(st1));
                        lemma_wf_update_stream(old(self)@, self@, i as int, st1);
                    }
                    out
                } else {
                    // ord == st.next and not yet buffered: release the
                    // contiguous run to the application.
                    st.buf.push(Slot { ordinal: ord, payload });
                    out.push(ack);
                    let ghost b1 = st.buf@.map_values(|s: Slot| s@);
                    let ghost next0 = st.next;
                    let ghost full = deliver_loop(b1, next0);
                    let ghost self_snap = *self;
                    assert(b1 =~= stv.buf.push(SlotV { ordinal: ord, payload: pv }));
                    let mut nxt: u32 = st.next;
                    let mut go: bool = true;
                    while go
                        invariant
                            st.stream_id == sid,
                            *self == self_snap,
                            full == deliver_loop(b1, next0),
                            next0 <= nxt,
                            nxt - next0 <= full.1.len(),
                            forall|a: int, b: int|
                                0 <= a < b < st@.buf.len() ==> (#[trigger] st@.buf[a]).ordinal
                                    != (#[trigger] st@.buf[b]).ordinal,
                            forall|a: int|
                                0 <= a < st@.buf.len() ==> (#[trigger] st@.buf[a]).ordinal
                                    >= nxt,
                            forall|a: int|
                                0 <= a < st@.buf.len() ==> (#[trigger] st@.buf[a]).ordinal
                                    < u32::MAX,
                            full.0 == deliver_loop(st@.buf, nxt).0,
                            full.2 == deliver_loop(st@.buf, nxt).2,
                            full.1.skip(nxt - next0) == deliver_loop(st@.buf, nxt).1,
                            acts(out@) == seq![ackv] + full.1.take(nxt - next0).map_values(
                                |p: Seq<u8>| ActionV::Deliver { stream_id: sid, payload: p },
                            ),
                            !go ==> find_first(st@.buf, |sl: SlotV| sl.ordinal == nxt) == -1,
                        decreases st@.buf.len() + (if go {
                            1int
                        } else {
                            0int
                        }),
                    {
                        let ghost cur = st@.buf;
                        let ghost d = nxt - next0;
                        match find_slot_at(&st.buf, nxt) {
                            Some(k) => {
                                proof {
                                    lemma_find_first(cur, |sl: SlotV| sl.ordinal == nxt);
                                    assert(cur[k as int].ordinal == nxt);
                                    assert(nxt < u32::MAX);
                                }
                                let slot = st.buf.remove(k);
                                assert(slot@ == cur[k as int]);
                                assert(st@.buf =~= cur.remove(k as int));
                                let ghost prev = out@;
                                out.push(
                                    Action::Deliver { stream_id: sid, payload: slot.payload },
                                );
                                proof {
                                    // one unfold of the release recursion
                                    let r2 = deliver_loop(cur.remove(k as int), (nxt + 1) as u32);
                                    assert(deliver_loop(cur, nxt) == (
                                        r2.0,
                                        seq![cur[k as int].payload] + r2.1,
                                        r2.2,
                                    ));
                                    assert(full.1.skip(d).len() == full.1.len() - d);
                                    assert(full.1.skip(d).len() >= 1);
                                    assert(d < full.1.len());
                                    assert(full.1.skip(d)[0] == cur[k as int].payload);
                                    assert(full.1[d] == cur[k as int].payload);
                                    assert(full.1.skip(d + 1) =~= full.1.skip(d).skip(1));
                                    assert(full.1.skip(d + 1) =~= r2.1);
                                    assert(full.1.take(d + 1) =~= full.1.take(d).push(
                                        full.1[d],
                                    ));
                                    let f = |p: Seq<u8>| ActionV::Deliver {
                                        stream_id: sid,
                                        payload: p,
                                    };
                                    let rhs = seq![ackv] + full.1.take(d + 1).map_values(f);
                                    assert(acts(prev).len() == 1 + d);
                                    assert(prev.len() == 1 + d);
                                    assert(out@ == prev.push(out@[1 + d]));
                                    assert(out@[1 + d]@ == f(full.1[d]));
                                    assert forall|j: int|
                                        0 <= j < 2 + d implies acts(out@)[j] == rhs[j] by {
                                        if j < 1 + d {
                                            assert(out@[j] == prev[j]);
                                            assert(acts(prev)[j] == (seq![ackv] + full.1.take(
                                                d,
                                            ).map_values(f))[j]);
                                            if j >= 1 {
                                                assert(full.1.take(d)[j - 1] == full.1[j - 1]);
                                                assert(full.1.take(d + 1)[j - 1] == full.1[j
                                                    - 1]);
                                            }
                                        } else {
                                            assert(rhs[j] == full.1.take(d + 1).map_values(f)[
                                                d]);
                                            assert(full.1.take(d + 1)[d] == full.1[d]);
                                        }
                                    }
                                    assert(acts(out@) =~~= rhs);
                                    // remaining ordinals moved past nxt
                                    assert forall|a: int|
                                        0 <= a < st@.buf.len() implies (
                                        #[trigger] st@.buf[a]).ordinal >= nxt + 1 by {
                                        if a < k {
                                            assert(st@.buf[a] == cur[a]);
                                            assert(cur[a].ordinal != nxt);
                                        } else {
                                            assert(st@.buf[a] == cur[a + 1]);
                                            assert(cur[a + 1].ordinal != nxt);
                                        }
                                    }
                                }
                                nxt = nxt + 1;
                            },
                            None => {
                                go = false;
                            },
                        }
                    }
                    proof {
                        assert(deliver_loop(st@.buf, nxt) == (st@.buf, Seq::<Seq<u8>>::empty(), nxt));
                        assert(full.0 == st@.buf);
                        assert(full.2 == nxt);
                        assert(full.1.skip(nxt - next0).len() == 0);
                        assert(full.1.take(nxt - next0) =~= full.1);
                    }
                    st.next = nxt;
                    self.ins.insert(i, st);
                    proof {
                        let st1 = StreamInV { stream_id: sid, next: full.2, buf: full.0 };
                        assert(st@ =~~= st1);
                        assert(self@.ins =~~= old(self)@.ins.update(i as int, st1));
                        assert(self@ =~~= spec_recv_data(old(self)@, sid, ord, pv).0);
                        assert(acts(out@) =~~= spec_recv_data(old(self)@, sid, ord, pv).1);
                        // remaining buffered ordinals are strictly later
                        assert forall|a: int|
                            0 <= a < st1.buf.len() implies (#[trigger] st1.buf[a]).ordinal
                                > st1.next by {
                            lemma_find_first(st1.buf, |sl: SlotV| sl.ordinal == nxt);
                        }
                        assert(stream_in_wf(st1));
                        lemma_wf_update_stream(old(self)@, self@, i as int, st1);
                    }
                    out
                }
            },
        }
    }

    fn on_chunk(&mut self, c: Chunk) -> (out: Vec<Action>)
        requires
            conn_wf(old(self)@),
        ensures
            final(self)@ == spec_chunk(old(self)@, c@).0,
            acts(out@) == spec_chunk(old(self)@, c@).1,
            conn_wf(final(self)@),
    {
        match c {
            Chunk::Init { .. } => {
                let out: Vec<Action> = Vec::new();
                assert(acts(out@) =~= spec_chunk(old(self)@, c@).1);
                out
            },
            Chunk::InitAck { token, tsn, state_cookie } => {
                let mut out: Vec<Action> = Vec::new();
                if self.state == HandshakeState::InitSent {
                    self.state = HandshakeState::CookieEchoed;
                    self.peer_token = token;
                    self.peer_tsn = tsn;
                    self.cookie = Some(state_cookie);
                    self.hs_attempts = 0;
                    self.hs_gen = next_gen(self.hs_gen);
                    out.push(
                        Action::Send(gram1_exec(token, Chunk::CookieEcho(state_cookie))),
                    );
                    out.push(
                        Action::Start { kind: TimerKind::Handshake, generation: self.hs_gen },
                    );
                    assert(self@ =~~= spec_chunk(old(self)@, c@).0);
                    assert(acts(out@) =~~= spec_chunk(old(self)@, c@).1);
                } else {
                    assert(acts(out@) =~= spec_chunk(old(self)@, c@).1);
                }
                out
            },
            Chunk::CookieEcho(_) => {
                let out: Vec<Action> = Vec::new();
                assert(acts(out@) =~= spec_chunk(old(self)@, c@).1);
                out
            },
            Chunk::CookieAck => {
                let mut out: Vec<Action> = Vec::new();
                if self.state == HandshakeState::CookieEchoed {
                    self.state = HandshakeState::Established;
                    self.hs_gen = next_gen(self.hs_gen);
                    self.idle_gen = next_gen(self.idle_gen);
                    out.push(Action::Stop { kind: TimerKind::Handshake });
                    out.push(
                        Action::Start { kind: TimerKind::Idle, generation: self.idle_gen },
                    );
                    assert(self@ =~~= spec_chunk(old(self)@, c@).0);
                    assert(acts(out@) =~~= spec_chunk(old(self)@, c@).1);
                } else {
                    assert(acts(out@) =~= spec_chunk(old(self)@, c@).1);
                }
                out
            },
            Chunk::Data { stream_id, ordinal, payload } => self.recv_data(
                stream_id,
                ordinal,
                payload,
            ),
            Chunk::DataAck { stream_id, ordinal } => self.recv_ack(stream_id, ordinal),
            Chunk::Shutdown => {
                let mut out: Vec<Action> = Vec::new();
                if self.state == HandshakeState::Established || self.state
                    == HandshakeState::Closing {
                    out.push(Action::Send(gram1_exec(self.peer_token, Chunk::ShutdownAck)));
                    self.do_close(&mut out);
                    assert(acts(out@) =~= spec_chunk(old(self)@, c@).1);
                } else {
                    assert(acts(out@) =~= spec_chunk(old(self)@, c@).1);
                }
                out
            },
            Chunk::ShutdownAck => {
                let mut out: Vec<Action> = Vec::new();
                if self.state == HandshakeState::Closing {
                    self.do_close(&mut out);
                    assert(acts(out@) =~= spec_chunk(old(self)@, c@).1);
                } else {
                    assert(acts(out@) =~= spec_chunk(old(self)@, c@).1);
                }
                out
            },
        }
    }
}

} // verus!

verus! {

impl Connection {
    #[verifier::rlimit(60)]
    fn on_gram(&mut self, g: Gram) -> (out: Vec<Action>)
        requires
            conn_wf(old(self)@),
        ensures
            final(self)@ == spec_step(old(self)@, EventV::Gram(g@)).0,
            acts(out@) == spec_step(old(self)@, EventV::Gram(g@)).1,
            conn_wf(final(self)@),
    {
        let ghost gv = g@;
        let accepted = match self.state {
            HandshakeState::Closed => false,
            HandshakeState::InitSent => g.token == 0,
            _ => g.token == self.peer_token,
        };
        assert(accepted == admits(old(self)@, gv.token));
        if !accepted {
            let out: Vec<Action> = Vec::new();
            assert(acts(out@) =~= spec_step(old(self)@, EventV::Gram(gv)).1);
            return out;
        }
        let mut out: Vec<Action> = Vec::new();
        if self.state == HandshakeState::Established {
            self.idle_gen = next_gen(self.idle_gen);
            out.push(Action::Start { kind: TimerKind::Idle, generation: self.idle_gen });
        }
        let ghost c0 = self@;
        let ghost pre_n = out@.len() as int;
        let ghost pre_acts = acts(out@);
        let ghost cs = gv.chunks;
        assert(c0 =~~= (if old(self)@.state == HandshakeState::Established {
            ConnV { idle_gen: bump(old(self)@.idle_gen), ..old(self)@ }
        } else {
            old(self)@
        }));
        let mut chunks = g.chunks;
        assert(chunks@.map_values(|c: Chunk| c@) =~= cs);
        proof {
            assert(chunks@.len() == cs.len());
            assert(cs.skip(0) =~= cs);
            assert(acts(out@).skip(pre_n) =~= Seq::<ActionV>::empty());
            assert(acts(out@).take(pre_n) =~= pre_acts);
            assert(Seq::<ActionV>::empty() + spec_chunks(c0, cs).1 =~= spec_chunks(c0, cs).1);
        }
        while chunks.len() > 0
            invariant
                conn_wf(self@),
                chunks@.map_values(|c: Chunk| c@) == cs.skip(cs.len() - chunks@.len()),
                chunks@.len() <= cs.len(),
                pre_n == pre_acts.len(),
                pre_n <= out@.len(),
                acts(out@).take(pre_n) == pre_acts,
                spec_chunks(c0, cs).0 == spec_chunks(self@, cs.skip(cs.len() - chunks@.len())).0,
                spec_chunks(c0, cs).1 == acts(out@).skip(pre_n) + spec_chunks(
                    self@,
                    cs.skip(cs.len() - chunks@.len()),
                ).1,
            decreases chunks@.len(),
        {
            let ghost done = cs.len() - chunks@.len();
            let ghost pre_self = self@;
            let ghost pre_out = out@;
            let ghost pre_chunks = chunks@;
            let c = chunks.remove(0);
            assert(cs.skip(done)[0] == cs[done]);
            assert(pre_chunks.map_values(|c: Chunk| c@)[0] == cs.skip(done)[0]);
            assert(c@ == cs[done]);
            proof {
                assert forall|j: int|
                    0 <= j < chunks@.len() implies chunks@.map_values(|c: Chunk| c@)[j] == #[trigger] cs.skip(done + 1)[j] by {
                    assert(chunks@[j] == pre_chunks[j + 1]);
                    assert(pre_chunks.map_values(|c: Chunk| c@)[j + 1] == cs.skip(done)[j + 1]);
                    assert(cs.skip(done)[j + 1] == cs[done + 1 + j]);
                    assert(cs.skip(done + 1)[j] == cs[done + 1 + j]);
                }
                assert(chunks@.map_values(|c: Chunk| c@) =~= cs.skip(done + 1));
            }
            let mut o2 = self.on_chunk(c);
            out.append(&mut o2);
            proof {
                let tail = cs.skip(done);
                assert(tail.skip(1) =~= cs.skip(done + 1));
                let first = spec_chunk(pre_self, cs[done]);
                let rest = spec_chunks(self@, cs.skip(done + 1));
                assert(spec_chunks(pre_self, tail).0 == rest.0);
                assert(spec_chunks(pre_self, tail).1 == first.1 + rest.1);
                assert(acts(out@) =~= acts(pre_out) + first.1);
                assert forall|j: int| 0 <= j < pre_n implies acts(out@)[j] == pre_acts[j] by {
                    assert(acts(pre_out)[j] == pre_acts[j]);
                }
                assert(acts(out@).take(pre_n) =~= pre_acts);
                assert(acts(out@).skip(pre_n) =~= acts(pre_out).skip(pre_n) + first.1);
                assert(spec_chunks(c0, cs).1 =~= acts(out@).skip(pre_n) + rest.1);
            }
        }
        proof {
            assert(cs.skip(cs.len() - 0) =~= Seq::<ChunkV>::empty());
            assert(spec_chunks(self@, Seq::<ChunkV>::empty()).1 =~= Seq::<ActionV>::empty());
            assert(spec_chunks(c0, cs).0 == self@);
            assert(spec_chunks(c0, cs).1 =~= acts(out@).skip(pre_n));
            assert(acts(out@) =~= pre_acts + acts(out@).skip(pre_n));
            assert(acts(out@) =~~= spec_step(old(self)@, EventV::Gram(gv)).1);
        }
        out
    }

    /// Consumes one event and returns the outbound actions, exactly as
    /// [`spec_step`] prescribes: the whole behaviour of the connection —
    /// handshake, token gating, ordered delivery, retries and closure —
    /// is this one contract.
    pub fn step(&mut self, e: Event) -> (out: Vec<Action>)
        requires
            conn_wf(old(self)@),
        ensures
            final(self)@ == spec_step(old(self)@, e@).0,
            acts(out@) == spec_step(old(self)@, e@).1,
            conn_wf(final(self)@),
    {
        match e {
            Event::Api(a) => self.on_api(a),
            Event::Timer(t) => self.on_timer(t),
            Event::InvalidGram => {
                let out: Vec<Action> = Vec::new();
                assert(acts(out@) =~= spec_step(old(self)@, e@).1);
                out
            },
            Event::Chunk(c) => {
                if self.state == HandshakeState::Closed {
                    let out: Vec<Action> = Vec::new();
                    assert(acts(out@) =~= spec_step(old(self)@, e@).1);
                    out
                } else {
                    self.on_chunk(c)
                }
            },
            Event::Gram(g) => self.on_gram(g),
        }
    }
}

/// The connection a responder allocates once a cookie echo validates:
/// already established, with the association parameters carried by the
/// cookie itself.
pub open spec fn spec_accept(ck: Cookie) -> ConnV {
    ConnV {
        state: HandshakeState::Established,
        peer_token: ck.token,
        local_tsn: ck.tsn,
        peer_tsn: ck.peer_tsn,
        cookie: None,
        ins: Seq::empty(),
        outs: Seq::empty(),
        unacked: Seq::empty(),
        hs_attempts: 0,
        data_attempts: 0,
        hs_gen: 0,
        rtx_gen: 0,
        linger_gen: 0,
        idle_gen: 1,
    }
}

/// The stateless answer to an `Init`: an `InitAck` carrying the chosen
/// association token, the chosen initial sequence number and the cookie,
/// computed without allocating anything. The caller supplies the
/// randomized `local_token` and `local_tsn`; resource allocation is
/// deferred until the cookie comes back.
pub fn respond_to_init(
    init_tsn: u32,
    addr: u64,
    local_token: u32,
    local_tsn: u32,
    now: u32,
    secret: u32,
) -> (g: Gram)
    ensures
        g@ == gram1(
            0,
            ChunkV::InitAck {
                token: local_token,
                tsn: local_tsn,
                state_cookie: spec_make_cookie(addr, init_tsn, local_token, local_tsn, now, secret),
            },
        ),
        cookie_ok(
            spec_make_cookie(addr, init_tsn, local_token, local_tsn, now, secret),
            addr,
            now,
            secret,
        ),
{
    let ck = make_cookie(addr, init_tsn, local_token, local_tsn, now, secret);
    gram1_exec(0, Chunk::InitAck { token: local_token, tsn: local_tsn, state_cookie: ck })
}

/// Validates an echoed cookie by recomputation. A forged, corrupted or
/// expired cookie yields `None` — the unit is dropped silently and no
/// state is allocated. A valid one yields, exactly once, the established
/// connection plus the `CookieAck` reply and its idle timer.
pub fn accept_cookie_echo(ck: Cookie, addr: u64, now: u32, secret: u32) -> (r: Option<
    (Connection, Vec<Action>),
>)
    ensures
        cookie_ok(ck, addr, now, secret) ==> (r matches Some(p) && p.0@ == spec_accept(ck)
            && conn_wf(p.0@) && acts(p.1@) == seq![
            send1(ck.token, ChunkV::CookieAck),
            ActionV::Start { kind: TimerKind::Idle, generation: 1 },
        ]),
        !cookie_ok(ck, addr, now, secret) ==> r is None,
{
    if verify_cookie(&ck, addr, now, secret) {
        let conn = Connection {
            state: HandshakeState::Established,
            peer_token: ck.token,
            local_tsn: ck.tsn,
            peer_tsn: ck.peer_tsn,
            cookie: None,
            ins: Vec::new(),
            outs: Vec::new(),
            unacked: Vec::new(),
            hs_attempts: 0,
            data_attempts: 0,
            hs_gen: 0,
            rtx_gen: 0,
            linger_gen: 0,
            idle_gen: 1,
        };
        let mut out: Vec<Action> = Vec::new();
        out.push(Action::Send(gram1_exec(ck.token, Chunk::CookieAck)));
        out.push(Action::Start { kind: TimerKind::Idle, generation: 1 });
        assert(conn@ =~~= spec_accept(ck));
        assert(acts(out@) =~~= seq![
            send1(ck.token, ChunkV::CookieAck),
            ActionV::Start { kind: TimerKind::Idle, generation: 1u64 },
        ]);
        Some((conn, out))
    } else {
        None
    }
}

} // verus!

verus! {

/// Law: a gram whose token differs from the association token leaves the
/// connection exactly as it was and produces nothing — stale or foreign
/// units cannot mutate state.
pub proof fn lemma_token_isolation(c: ConnV, g: GramV)
    requires
        c.state == HandshakeState::CookieEchoed || c.state == HandshakeState::Established
            || c.state == HandshakeState::Closing,
        g.token != c.peer_token,
    ensures
        spec_step(c, EventV::Gram(g)).0 == c,
        spec_step(c, EventV::Gram(g)).1 == Seq::<ActionV>::empty(),
{
    assert(!admits(c, g.token));
    assert(spec_step(c, EventV::Gram(g)).1 =~= Seq::<ActionV>::empty());
}

/// Law: a closed connection reacts to no timer firing at all — after
/// closure no timer work is observable for the connection.
pub proof fn lemma_closed_is_quiescent(c: ConnV, t: Timer)
    requires
        c.state == HandshakeState::Closed,
    ensures
        spec_step(c, EventV::Timer(t)).0 == c,
        spec_step(c, EventV::Timer(t)).1 == Seq::<ActionV>::empty(),
{
    assert(spec_step(c, EventV::Timer(t)).1 =~= Seq::<ActionV>::empty());
}

/// Law: a firing whose generation is not the current one for its kind is
/// stale — superseded by a newer attempt — and is ignored entirely.
pub proof fn lemma_stale_timer_ignored(c: ConnV, t: Timer)
    requires
        match t.kind {
            TimerKind::Handshake => t.generation != c.hs_gen,
            TimerKind::Retransmit => t.generation != c.rtx_gen,
            TimerKind::Linger => t.generation != c.linger_gen,
            TimerKind::Idle => t.generation != c.idle_gen,
        },
    ensures
        spec_step(c, EventV::Timer(t)).0 == c,
        spec_step(c, EventV::Timer(t)).1 == Seq::<ActionV>::empty(),
{
    assert(spec_step(c, EventV::Timer(t)).1 =~= Seq::<ActionV>::empty());
}

/// Law: when the handshake retry budget is exhausted, the next current
/// handshake firing closes the connection, surfaces the timeout error
/// exactly once, and cancels every timer; with the connection then
/// `Closed`, `lemma_closed_is_quiescent` shows nothing further happens.
pub proof fn lemma_retry_exhaustion(c: ConnV, t: Timer)
    requires
        c.state == HandshakeState::InitSent || c.state == HandshakeState::CookieEchoed,
        t.kind == TimerKind::Handshake,
        t.generation == c.hs_gen,
        c.hs_attempts >= MAX_RETRIES,
    ensures
        spec_step(c, EventV::Timer(t)).0.state == HandshakeState::Closed,
        spec_step(c, EventV::Timer(t)).1 == seq![ActionV::Fail(ConnError::Timeout)] + stop_all(),
{
}

/// Law: a decode failure is absorbed silently; it never reaches the
/// connection's state or its peer.
pub proof fn lemma_invalid_gram_absorbed(c: ConnV)
    ensures
        spec_step(c, EventV::InvalidGram).0 == c,
        spec_step(c, EventV::InvalidGram).1 == Seq::<ActionV>::empty(),
{
    assert(spec_step(c, EventV::InvalidGram).1 =~= Seq::<ActionV>::empty());
}

} // verus!

verus! {

proof fn lemma_has_ord_remove(buf: Seq<SlotV>, k: int, o: u32)
    requires
        forall|a: int, b: int|
            0 <= a < b < buf.len() ==> (#[trigger] buf[a]).ordinal != (#[trigger] buf[b]).ordinal,
        0 <= k < buf.len(),
        buf[k].ordinal != o,
    ensures
        has_ord(buf.remove(k), o) <==> has_ord(buf, o),
        has_ord(buf, o) ==> slot_at(buf.remove(k), o) == slot_at(buf, o),
{
    let r = buf.remove(k);
    let p = |sl: SlotV| sl.ordinal == o;
    lemma_find_first(buf, p);
    lemma_find_first(r, p);
    if find_first(buf, p) != -1 {
        let j = find_first(buf, p);
        assert(j != k);
        if j < k {
            assert(r[j] == buf[j]);
            assert(p(r[j]));
        } else {
            assert(r[j - 1] == buf[j]);
            assert(p(r[j - 1]));
        }
        assert(has_ord(r, o));
        let j2 = find_first(r, p);
        let m: int = if j2 < k {
            j2
        } else {
            j2 + 1
        };
        assert(r[j2] == buf[m]);
        assert(buf[m].ordinal == o);
        if m != j {
            assert(buf[m].ordinal != buf[j].ordinal);
            assert(false);
        }
        assert(slot_at(r, o) == slot_at(buf, o));
    } else {
        if find_first(r, p) != -1 {
            let j2 = find_first(r, p);
            let m: int = if j2 < k {
                j2
            } else {
                j2 + 1
            };
            assert(r[j2] == buf[m]);
            assert(p(buf[m]));
            assert(false);
        }
    }
}

proof fn lemma_run_remove(buf: Seq<SlotV>, k: int, o: u32)
    requires
        forall|a: int, b: int|
            0 <= a < b < buf.len() ==> (#[trigger] buf[a]).ordinal != (#[trigger] buf[b]).ordinal,
        0 <= k < buf.len(),
        buf[k].ordinal < o,
    ensures
        run_payloads(buf.remove(k), o) == run_payloads(buf, o),
    decreases u32::MAX - o,
{
    lemma_has_ord_remove(buf, k, o);
    let r = buf.remove(k);
    if has_ord(buf, o) {
        if o < u32::MAX {
            lemma_run_remove(buf, k, (o + 1) as u32);
            assert(run_payloads(r, o) =~= run_payloads(buf, o));
        } else {
            assert(run_payloads(r, o) =~= run_payloads(buf, o));
        }
    } else {
        assert(run_payloads(r, o) =~= run_payloads(buf, o));
    }
}

/// Law: the receiver's release loop hands the application exactly the
/// contiguous run of buffered payloads that starts at the next expected
/// ordinal, in ordinal order, and advances the expectation to the first
/// gap — later arrivals stay buffered and are never delivered out of
/// order.
pub proof fn lemma_release_is_contiguous_run(buf: Seq<SlotV>, from: u32)
    requires
        forall|a: int, b: int|
            0 <= a < b < buf.len() ==> (#[trigger] buf[a]).ordinal != (#[trigger] buf[b]).ordinal,
        forall|a: int| 0 <= a < buf.len() ==> (#[trigger] buf[a]).ordinal < u32::MAX,
    ensures
        deliver_loop(buf, from).1 == run_payloads(buf, from),
        deliver_loop(buf, from).2 == from + run_payloads(buf, from).len(),
    decreases buf.len(),
{
    let p = |sl: SlotV| sl.ordinal == from;
    lemma_find_first(buf, p);
    let k = find_first(buf, p);
    if k == -1 {
        assert(!has_ord(buf, from));
        assert(run_payloads(buf, from) =~= Seq::<Seq<u8>>::empty());
    } else {
        assert(buf[k].ordinal == from);
        assert(from < u32::MAX);
        let r2 = buf.remove(k);
        assert(slot_at(buf, from) == buf[k]);
        lemma_release_is_contiguous_run(r2, (from + 1) as u32);
        lemma_run_remove(buf, k, (from + 1) as u32);
        assert(deliver_loop(buf, from).1 =~= run_payloads(buf, from));
    }
}

} // verus!
