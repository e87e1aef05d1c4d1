//! event defines events, the atomic temporal unit of the miknet protocol.
//!
//! Four sources multiplex into one ordered per-connection event stream:
//! application calls, decoded wire grams (fanned out into per-chunk
//! events), timer firings, and decode failures.

use vstd::prelude::*;

use crate::gram::{Chunk, ChunkV, Gram, GramV};
use crate::timer::Timer;

verus! {

/// An application call on a connection.
#[derive(Debug, PartialEq, Eq)]
pub enum Api {
    /// Queue `payload` for reliable, ordered delivery on a stream.
    Tx { stream_id: u32, payload: Vec<u8> },
    /// Request an orderly disconnect.
    Disc,
    /// Request a connect (meaningful only through `Connection::connect`;
    /// on an existing connection it is a no-op or an error).
    Conn,
}

/// The mathematical model of an [`Api`] call.
pub enum ApiV {
    Tx { stream_id: u32, payload: Seq<u8> },
    Disc,
    Conn,
}

impl View for Api {
    type V = ApiV;

    open spec fn view(&self) -> ApiV {
        match self {
            Api::Tx { stream_id, payload } => ApiV::Tx {
                stream_id: *stream_id,
                payload: payload@,
            },
            Api::Disc => ApiV::Disc,
            Api::Conn => ApiV::Conn,
        }
    }
}

/// One input to the connection state machine.
#[derive(Debug, PartialEq, Eq)]
pub enum Event {
    /// An application call.
    Api(Api),
    /// A decoded inbound gram.
    Gram(Gram),
    /// A single decoded chunk, fanned out of an admitted gram.
    Chunk(Chunk),
    /// A timer firing.
    Timer(Timer),
    /// A decode failure: absorbed silently, never fatal.
    InvalidGram,
}

/// The mathematical model of an [`Event`].
pub enum EventV {
    Api(ApiV),
    Gram(GramV),
    Chunk(ChunkV),
    Timer(Timer),
    InvalidGram,
}

impl View for Event {
    type V = EventV;

    open spec fn view(&self) -> EventV {
        match self {
            Event::Api(a) => EventV::Api(a@),
            Event::Gram(g) => EventV::Gram(g@),
            Event::Chunk(c) => EventV::Chunk(c@),
            Event::Timer(t) => EventV::Timer(*t),
            Event::InvalidGram => EventV::InvalidGram,
        }
    }
}

impl Chunk {
    /// The chunk as a per-unit event.
    pub fn into_event(self) -> (e: Event)
        ensures
            e@ == EventV::Chunk(self@),
    {
        Event::Chunk(self)
    }
}

impl Gram {
    /// Fans a decoded gram out into one event per chunk, in order.
    pub fn into_events(self) -> (evs: Vec<Event>)
        ensures
            evs@.map_values(|e: Event| e@) == self@.chunks.map_values(|c: ChunkV| EventV::Chunk(c)),
    {
        let ghost cs = self.chunks@;
        let mut chunks = self.chunks;
        let mut evs: Vec<Event> = Vec::new();
        while chunks.len() > 0
            invariant
                evs@.len() + chunks@.len() == cs.len(),
                chunks@ == cs.skip(evs@.len() as int),
                forall|i: int|
                    0 <= i < evs@.len() ==> (#[trigger] evs@[i])@ == EventV::Chunk(cs[i]@),
            decreases chunks@.len(),
        {
            let ghost k = evs@.len() as int;
            let c = chunks.remove(0);
            assert(c == cs[k]);
            assert(chunks@ =~= cs.skip(k + 1));
            evs.push(Event::Chunk(c));
        }
        proof {
            let lhs = evs@.map_values(|e: Event| e@);
            let rhs = self@.chunks.map_values(|c: ChunkV| EventV::Chunk(c));
            assert forall|i: int| 0 <= i < cs.len() implies lhs[i] == rhs[i] by {
                assert(evs@[i]@ == EventV::Chunk(cs[i]@));
            }
            assert(lhs =~= rhs);
        }
        evs
    }
}

} // verus!
