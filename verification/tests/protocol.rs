use miknet::connection::{
    accept_cookie_echo, respond_to_init, Action, ConnError, Connection, HandshakeState,
};
use miknet::event::{Api, Event};
use miknet::gram::{Chunk, Gram};
use miknet::timer::{Timer, TimerKind};

const ADDR: u64 = 0x7f00_0001_1234;
const SECRET: u32 = 0x5eed_cafe;
const NOW: u32 = 10;

fn first_sent(acts: &[Action]) -> Gram {
    for a in acts {
        if let Action::Send(g) = a {
            return g.clone();
        }
    }
    panic!("no gram was sent");
}

fn sent_grams(acts: &[Action]) -> Vec<Gram> {
    let mut out = Vec::new();
    for a in acts {
        if let Action::Send(g) = a {
            out.push(g.clone());
        }
    }
    out
}

fn deliveries(acts: &[Action]) -> Vec<(u32, Vec<u8>)> {
    let mut out = Vec::new();
    for a in acts {
        if let Action::Deliver { stream_id, payload } = a {
            out.push((*stream_id, payload.clone()));
        }
    }
    out
}

fn failures(acts: &[Action]) -> Vec<ConnError> {
    let mut out = Vec::new();
    for a in acts {
        if let Action::Fail(e) = a {
            out.push(*e);
        }
    }
    out
}

/// Runs the four-way handshake and returns the two established ends.
fn establish() -> (Connection, Connection) {
    let (mut a, acts) = Connection::connect(100);
    let init = first_sent(&acts);
    let init_tsn = match init.chunks[0] {
        Chunk::Init { tsn, .. } => tsn,
        _ => panic!("expected an init chunk"),
    };
    let init_ack = respond_to_init(init_tsn, ADDR, 42, 7, NOW, SECRET);
    let acts = a.step(Event::Gram(init_ack));
    let echo = first_sent(&acts);
    let cookie = match echo.chunks[0] {
        Chunk::CookieEcho(c) => c,
        _ => panic!("expected a cookie echo chunk"),
    };
    let (b, b_acts) = accept_cookie_echo(cookie, ADDR, NOW, SECRET).expect("valid cookie");
    let cookie_ack = first_sent(&b_acts);
    let _ = a.step(Event::Gram(cookie_ack));
    (a, b)
}

#[test]
fn end_to_end_handshake() {
    // Init(token=0, seq=100) -> InitAck(token=42, seq=7, cookie) ->
    // CookieEcho -> CookieAck: both sides established after exactly four
    // units, with zero retransmissions.
    let (mut a, acts) = Connection::connect(100);
    let mut units = 0;
    let init = first_sent(&acts);
    units += init.chunks.len();
    assert_eq!(init.token, 0);
    assert!(matches!(init.chunks[0], Chunk::Init { token: 0, tsn: 100 }));

    let init_tsn = match init.chunks[0] {
        Chunk::Init { tsn, .. } => tsn,
        _ => unreachable!(),
    };
    let init_ack = respond_to_init(init_tsn, ADDR, 42, 7, NOW, SECRET);
    units += init_ack.chunks.len();
    assert!(
        matches!(init_ack.chunks[0], Chunk::InitAck { token: 42, tsn: 7, .. })
    );

    let acts = a.step(Event::Gram(init_ack));
    assert_eq!(a.state, HandshakeState::CookieEchoed);
    assert_eq!(a.peer_token, 42);
    let echo = first_sent(&acts);
    units += echo.chunks.len();
    assert_eq!(echo.token, 42);
    let cookie = match echo.chunks[0] {
        Chunk::CookieEcho(c) => c,
        _ => unreachable!(),
    };

    let (b, b_acts) = accept_cookie_echo(cookie, ADDR, NOW, SECRET).expect("valid cookie");
    assert_eq!(b.state, HandshakeState::Established);
    assert_eq!(b.peer_token, 42);
    let cookie_ack = first_sent(&b_acts);
    units += cookie_ack.chunks.len();
    assert!(matches!(cookie_ack.chunks[0], Chunk::CookieAck));

    let acts = a.step(Event::Gram(cookie_ack));
    assert_eq!(a.state, HandshakeState::Established);
    assert!(sent_grams(&acts).is_empty());
    assert_eq!(units, 4);
}

#[test]
fn token_isolation() {
    // A gram whose token differs from the association token leaves the
    // connection state untouched and produces no action.
    let (mut a, _) = establish();
    let before = a.clone();
    let foreign = Gram {
        token: 41,
        chunks: vec![Chunk::Data { stream_id: 0, ordinal: 1, payload: vec![1] }],
    };
    let acts = a.step(Event::Gram(foreign));
    assert!(acts.is_empty());
    assert_eq!(a, before);
}

#[test]
fn ordered_delivery() {
    // Ordinals arriving as [3, 1, 2] on one stream are released as
    // [1, 2, 3], the last two only once 2 completes the run.
    let (mut a, _) = establish();
    let tok = a.peer_token;
    let data = |ord: u32| Gram {
        token: tok,
        chunks: vec![Chunk::Data { stream_id: 9, ordinal: ord, payload: vec![ord as u8] }],
    };

    let acts = a.step(Event::Gram(data(3)));
    assert!(deliveries(&acts).is_empty());

    let acts = a.step(Event::Gram(data(1)));
    assert_eq!(deliveries(&acts), vec![(9, vec![1])]);

    let acts = a.step(Event::Gram(data(2)));
    assert_eq!(deliveries(&acts), vec![(9, vec![2]), (9, vec![3])]);
}

#[test]
fn partial_prefix_delivers_immediately() {
    let (mut a, _) = establish();
    let tok = a.peer_token;
    let g = Gram {
        token: tok,
        chunks: vec![Chunk::Data { stream_id: 2, ordinal: 1, payload: vec![7, 8] }],
    };
    let acts = a.step(Event::Gram(g));
    assert_eq!(deliveries(&acts), vec![(2, vec![7, 8])]);
    // Each data unit is acknowledged.
    let sent = sent_grams(&acts);
    assert!(sent
        .iter()
        .any(|g| matches!(g.chunks[0], Chunk::DataAck { stream_id: 2, ordinal: 1 })));
}

#[test]
fn duplicate_data_is_reacked_not_redelivered() {
    let (mut a, _) = establish();
    let tok = a.peer_token;
    let g = Gram {
        token: tok,
        chunks: vec![Chunk::Data { stream_id: 0, ordinal: 1, payload: vec![5] }],
    };
    let acts = a.step(Event::Gram(g.clone()));
    assert_eq!(deliveries(&acts).len(), 1);
    let mut before = a.clone();
    let acts = a.step(Event::Gram(g));
    assert!(deliveries(&acts).is_empty());
    assert_eq!(sent_grams(&acts).len(), 1);
    // Only the idle timer was refreshed by the admitted gram; stream and
    // delivery state are untouched.
    before.idle_gen = a.idle_gen;
    assert_eq!(a, before);
}

#[test]
fn retry_termination() {
    // With every acknowledgment suppressed, the handshake is retried up
    // to the budget, then the connection closes, surfaces one timeout,
    // and answers no further firing.
    let (mut a, acts) = Connection::connect(100);
    let mut gen = match acts[1] {
        Action::Start { kind: TimerKind::Handshake, generation } => generation,
        _ => panic!("expected a handshake timer start"),
    };
    let mut resends = 0;
    let mut timeouts = 0;
    loop {
        let acts = a.step(Event::Timer(Timer { kind: TimerKind::Handshake, generation: gen }));
        resends += sent_grams(&acts).len();
        timeouts += failures(&acts)
            .iter()
            .filter(|e| **e == ConnError::Timeout)
            .count();
        let mut rescheduled = false;
        for act in &acts {
            if let Action::Start { kind: TimerKind::Handshake, generation } = act {
                gen = *generation;
                rescheduled = true;
            }
        }
        if !rescheduled {
            break;
        }
    }
    assert_eq!(a.state, HandshakeState::Closed);
    assert_eq!(resends, 5);
    assert_eq!(timeouts, 1);
    // Nothing further is observable, whatever generation fires.
    for g in 0..10u64 {
        let acts = a.step(Event::Timer(Timer { kind: TimerKind::Handshake, generation: g }));
        assert!(acts.is_empty());
    }
}

#[test]
fn stale_timer_is_ignored() {
    let (mut a, _) = establish();
    let before = a.clone();
    let acts = a.step(Event::Timer(Timer { kind: TimerKind::Retransmit, generation: 999 }));
    assert!(acts.is_empty());
    assert_eq!(a, before);
}

#[test]
fn invalid_gram_is_absorbed() {
    let (mut a, _) = establish();
    let before = a.clone();
    let acts = a.step(Event::InvalidGram);
    assert!(acts.is_empty());
    assert_eq!(a, before);
}

#[test]
fn send_assigns_increasing_ordinals_and_retransmits() {
    let (mut a, _) = establish();
    let acts = a.step(Event::Api(Api::Tx { stream_id: 4, payload: vec![1] }));
    let g1 = first_sent(&acts);
    assert!(matches!(g1.chunks[0], Chunk::Data { stream_id: 4, ordinal: 1, .. }));
    let rtx_gen = acts
        .iter()
        .find_map(|a| match a {
            Action::Start { kind: TimerKind::Retransmit, generation } => Some(*generation),
            _ => None,
        })
        .expect("retransmit timer started");

    let acts = a.step(Event::Api(Api::Tx { stream_id: 4, payload: vec![2] }));
    let g2 = first_sent(&acts);
    assert!(matches!(g2.chunks[0], Chunk::Data { stream_id: 4, ordinal: 2, .. }));

    // The retransmit firing resends everything unacknowledged.
    let acts = a.step(Event::Timer(Timer { kind: TimerKind::Retransmit, generation: rtx_gen }));
    assert_eq!(sent_grams(&acts).len(), 2);
}

#[test]
fn ack_clears_unacked_and_stops_timer() {
    let (mut a, _) = establish();
    let tok = a.peer_token;
    let _ = a.step(Event::Api(Api::Tx { stream_id: 4, payload: vec![1] }));
    assert_eq!(a.unacked.len(), 1);
    let ack = Gram { token: tok, chunks: vec![Chunk::DataAck { stream_id: 4, ordinal: 1 }] };
    let acts = a.step(Event::Gram(ack));
    assert_eq!(a.unacked.len(), 0);
    assert!(acts
        .iter()
        .any(|a| matches!(a, Action::Stop { kind: TimerKind::Retransmit })));
}

#[test]
fn api_on_closed_connection_fails_not_connected() {
    let (mut a, _) = Connection::connect(1);
    a.state = HandshakeState::Closed;
    let acts = a.step(Event::Api(Api::Tx { stream_id: 0, payload: vec![1] }));
    assert_eq!(failures(&acts), vec![ConnError::NotConnected]);
    let acts = a.step(Event::Api(Api::Disc));
    assert_eq!(failures(&acts), vec![ConnError::NotConnected]);
}

#[test]
fn oversize_send_is_connection_fatal() {
    let (mut a, _) = establish();
    let acts = a.step(Event::Api(Api::Tx { stream_id: 0, payload: vec![0; 1386] }));
    assert_eq!(failures(&acts), vec![ConnError::Oversize]);
    assert_eq!(a.state, HandshakeState::Closed);
}

#[test]
fn disconnect_flow() {
    let (mut a, mut b) = establish();
    let acts = a.step(Event::Api(Api::Disc));
    assert_eq!(a.state, HandshakeState::Closing);
    let shutdown = first_sent(&acts);
    assert!(matches!(shutdown.chunks[0], Chunk::Shutdown));

    let b_acts = b.step(Event::Gram(shutdown));
    assert_eq!(b.state, HandshakeState::Closed);
    let shutdown_ack = first_sent(&b_acts);
    assert!(matches!(shutdown_ack.chunks[0], Chunk::ShutdownAck));

    let _ = a.step(Event::Gram(shutdown_ack));
    assert_eq!(a.state, HandshakeState::Closed);
}

#[test]
fn linger_timeout_forces_closed() {
    let (mut a, _) = establish();
    let acts = a.step(Event::Api(Api::Disc));
    let gen = acts
        .iter()
        .find_map(|a| match a {
            Action::Start { kind: TimerKind::Linger, generation } => Some(*generation),
            _ => None,
        })
        .expect("linger timer started");
    let acts = a.step(Event::Timer(Timer { kind: TimerKind::Linger, generation: gen }));
    assert_eq!(a.state, HandshakeState::Closed);
    assert!(failures(&acts).is_empty());
}

#[test]
fn gram_fans_out_into_chunk_events() {
    let gram = Gram {
        token: 1,
        chunks: vec![Chunk::CookieAck, Chunk::Shutdown],
    };
    let events = gram.into_events();
    assert_eq!(
        events,
        vec![Event::Chunk(Chunk::CookieAck), Event::Chunk(Chunk::Shutdown)]
    );
}
