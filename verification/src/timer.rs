//! Timers, keyed by purpose and generation.
//!
//! The state machine never cancels a scheduled firing synchronously:
//! instead each logical timer carries a generation counter, and the
//! connection remembers the current generation per purpose. A firing whose
//! generation is older than the current one is stale — superseded by a
//! newer attempt of the same logical action — and is ignored. The
//! embedding schedules a callback when it sees a `Start` action and may
//! drop pending ones on `Stop`, but correctness never depends on it doing
//! so.

use vstd::prelude::*;

verus! {

/// What a timer is for.
#[derive(Copy, Clone, Debug, PartialEq, Eq, Structural)]
pub enum TimerKind {
    /// Retry of the current handshake message.
    Handshake,
    /// Retry of unacknowledged data.
    Retransmit,
    /// Bounded wait for the peer's close acknowledgment.
    Linger,
    /// Idle timeout of an established connection.
    Idle,
}

/// A timer firing: the purpose and the generation it was scheduled under.
#[derive(Copy, Clone, Debug, PartialEq, Eq, Structural)]
pub struct Timer {
    pub kind: TimerKind,
    pub generation: u64,
}

/// The next generation of a timer: one more, saturating at the top.
pub open spec fn bump(g: u64) -> u64 {
    if g < u64::MAX {
        (g + 1) as u64
    } else {
        g
    }
}

/// Advances a generation counter, superseding any firing scheduled under
/// the old one.
pub fn next_gen(g: u64) -> (r: u64)
    ensures
        r == bump(g),
{
    if g < u64::MAX {
        g + 1
    } else {
        g
    }
}

} // verus!
