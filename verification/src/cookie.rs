//! The stateless cookie of the handshake.
//!
//! A responder answers an `Init` with an `InitAck` carrying a cookie and
//! stores nothing. The cookie carries the association parameters together
//! with a keyed integrity tag, so the responder can validate an echoed
//! cookie purely by recomputation. The tag is a lightweight keyed mix, not
//! a cryptographic one: authentication strength is outside this crate's
//! goals, but the mix is linear over the cookie fields, which makes every
//! single-bit corruption of an echoed cookie detectable (see
//! `lemma_cookie_single_bit_flip`).

use vstd::prelude::*;

verus! {

/// How long an issued cookie stays valid, in the issuer's clock units.
pub const COOKIE_LIFE: u32 = 60;

/// The value issued in `InitAck` and echoed unmodified in `CookieEcho`.
///
/// It carries everything the responder needs to build its connection state
/// once the echo proves the initiator reachable: the initiator's initial
/// sequence number, the association token the responder chose, the
/// responder's own initial sequence number, and the issue time, sealed by
/// the keyed tag `mac`.
#[derive(Copy, Clone, Debug, PartialEq, Eq, Structural)]
pub struct Cookie {
    /// The initiator's proposed initial sequence number.
    pub peer_tsn: u32,
    /// The association token the responder chose.
    pub token: u32,
    /// The responder's initial sequence number.
    pub tsn: u32,
    /// When the cookie was issued.
    pub issued_at: u32,
    /// Keyed integrity tag over the fields above, the peer address and the
    /// process-wide secret.
    pub mac: u32,
}

/// Left rotation by 1.
pub open spec fn rot1(x: u32) -> u32 {
    (x << 1u32) | (x >> 31u32)
}

/// Left rotation by 7.
pub open spec fn rot7(x: u32) -> u32 {
    (x << 7u32) | (x >> 25u32)
}

/// Left rotation by 13.
pub open spec fn rot13(x: u32) -> u32 {
    (x << 13u32) | (x >> 19u32)
}

/// Left rotation by 19.
pub open spec fn rot19(x: u32) -> u32 {
    (x << 19u32) | (x >> 13u32)
}

/// The part of the tag contributed by the peer address and the secret.
pub open spec fn key_mix(addr: u64, secret: u32) -> u32 {
    #[verifier::truncate] ((addr ^ (addr >> 32u64)) as u32) ^ secret
}

/// The keyed integrity tag: a GF(2)-linear mix of the cookie fields,
/// keyed by the peer address and the process-wide secret.
pub open spec fn mac32(addr: u64, peer_tsn: u32, token: u32, tsn: u32, issued_at: u32, secret: u32) -> u32 {
    rot1(peer_tsn) ^ rot7(token) ^ rot13(tsn) ^ rot19(issued_at) ^ key_mix(addr, secret)
}

/// The cookie a responder issues for a given `Init`.
pub open spec fn spec_make_cookie(addr: u64, peer_tsn: u32, token: u32, tsn: u32, now: u32, secret: u32) -> Cookie {
    Cookie {
        peer_tsn,
        token,
        tsn,
        issued_at: now,
        mac: mac32(addr, peer_tsn, token, tsn, now, secret),
    }
}

/// A cookie is valid when its tag recomputes from its fields, the sender's
/// address and the secret, and it has not expired.
pub open spec fn cookie_ok(c: Cookie, addr: u64, now: u32, secret: u32) -> bool {
    &&& c.mac == mac32(addr, c.peer_tsn, c.token, c.tsn, c.issued_at, secret)
    &&& c.issued_at <= now
    &&& now - c.issued_at <= COOKIE_LIFE
}

/// Builds the cookie for an `Init` carrying `peer_tsn`, binding it to the
/// peer's address, the chosen association parameters, the issue time and
/// the process-wide secret.
pub fn make_cookie(addr: u64, peer_tsn: u32, token: u32, tsn: u32, now: u32, secret: u32) -> (c: Cookie)
    ensures
        c == spec_make_cookie(addr, peer_tsn, token, tsn, now, secret),
        cookie_ok(c, addr, now, secret),
{
    Cookie {
        peer_tsn,
        token,
        tsn,
        issued_at: now,
        mac: exec_mac32(addr, peer_tsn, token, tsn, now, secret),
    }
}

/// Recomputes the tag and checks freshness; true exactly on valid cookies.
pub fn verify_cookie(c: &Cookie, addr: u64, now: u32, secret: u32) -> (r: bool)
    ensures
        r == cookie_ok(*c, addr, now, secret),
{
    let tag = exec_mac32(addr, c.peer_tsn, c.token, c.tsn, c.issued_at, secret);
    c.mac == tag && c.issued_at <= now && now - c.issued_at <= COOKIE_LIFE
}

fn exec_mac32(addr: u64, peer_tsn: u32, token: u32, tsn: u32, issued_at: u32, secret: u32) -> (r: u32)
    ensures
        r == mac32(addr, peer_tsn, token, tsn, issued_at, secret),
{
    let k: u32 = #[verifier::truncate] ((addr ^ (addr >> 32u64)) as u32) ^ secret;
    ((peer_tsn << 1u32) | (peer_tsn >> 31u32))
        ^ ((token << 7u32) | (token >> 25u32))
        ^ ((tsn << 13u32) | (tsn >> 19u32))
        ^ ((issued_at << 19u32) | (issued_at >> 13u32))
        ^ k
}

/// The cookie with bit `b` of field `f` inverted; fields are numbered in
/// declaration order, `4` being the tag itself.
pub open spec fn flip_cookie(c: Cookie, f: int, b: u32) -> Cookie {
    if f == 0 {
        Cookie { peer_tsn: c.peer_tsn ^ (1u32 << b), ..c }
    } else if f == 1 {
        Cookie { token: c.token ^ (1u32 << b), ..c }
    } else if f == 2 {
        Cookie { tsn: c.tsn ^ (1u32 << b), ..c }
    } else if f == 3 {
        Cookie { issued_at: c.issued_at ^ (1u32 << b), ..c }
    } else {
        Cookie { mac: c.mac ^ (1u32 << b), ..c }
    }
}

/// Law: a cookie that validates stops validating when any single bit of
/// any of its fields is inverted, so a corrupted or forged echo is
/// rejected and no connection state is allocated for it.
pub proof fn lemma_cookie_single_bit_flip(c: Cookie, addr: u64, now: u32, secret: u32, f: int, b: u32)
    requires
        cookie_ok(c, addr, now, secret),
        0 <= f < 5,
        b < 32,
    ensures
        !cookie_ok(flip_cookie(c, f, b), addr, now, secret),
{
    let e = 1u32 << b;
    let k = key_mix(addr, secret);
    let pt = c.peer_tsn;
    let tk = c.token;
    let ts = c.tsn;
    let ia = c.issued_at;
    if f == 0 {
        assert(((((pt ^ e) << 1u32) | ((pt ^ e) >> 31u32)) ^ ((tk << 7u32) | (tk >> 25u32))
            ^ ((ts << 13u32) | (ts >> 19u32)) ^ ((ia << 19u32) | (ia >> 13u32)) ^ k) != (((pt
            << 1u32) | (pt >> 31u32)) ^ ((tk << 7u32) | (tk >> 25u32)) ^ ((ts << 13u32) | (ts
            >> 19u32)) ^ ((ia << 19u32) | (ia >> 13u32)) ^ k)) by (bit_vector)
            requires
                e == 1u32 << b,
                b < 32u32,
        ;
    } else if f == 1 {
        assert((((pt << 1u32) | (pt >> 31u32)) ^ (((tk ^ e) << 7u32) | ((tk ^ e) >> 25u32)) ^ ((ts
            << 13u32) | (ts >> 19u32)) ^ ((ia << 19u32) | (ia >> 13u32)) ^ k) != (((pt << 1u32)
            | (pt >> 31u32)) ^ ((tk << 7u32) | (tk >> 25u32)) ^ ((ts << 13u32) | (ts >> 19u32))
            ^ ((ia << 19u32) | (ia >> 13u32)) ^ k)) by (bit_vector)
            requires
                e == 1u32 << b,
                b < 32u32,
        ;
    } else if f == 2 {
        assert((((pt << 1u32) | (pt >> 31u32)) ^ ((tk << 7u32) | (tk >> 25u32)) ^ (((ts ^ e)
            << 13u32) | ((ts ^ e) >> 19u32)) ^ ((ia << 19u32) | (ia >> 13u32)) ^ k) != (((pt
            << 1u32) | (pt >> 31u32)) ^ ((tk << 7u32) | (tk >> 25u32)) ^ ((ts << 13u32) | (ts
            >> 19u32)) ^ ((ia << 19u32) | (ia >> 13u32)) ^ k)) by (bit_vector)
            requires
                e == 1u32 << b,
                b < 32u32,
        ;
    } else if f == 3 {
        assert((((pt << 1u32) | (pt >> 31u32)) ^ ((tk << 7u32) | (tk >> 25u32)) ^ ((ts << 13u32)
            | (ts >> 19u32)) ^ (((ia ^ e) << 19u32) | ((ia ^ e) >> 13u32)) ^ k) != (((pt << 1u32)
            | (pt >> 31u32)) ^ ((tk << 7u32) | (tk >> 25u32)) ^ ((ts << 13u32) | (ts >> 19u32))
            ^ ((ia << 19u32) | (ia >> 13u32)) ^ k)) by (bit_vector)
            requires
                e == 1u32 << b,
                b < 32u32,
        ;
    } else {
        let m = c.mac;
        assert(m ^ e != m) by (bit_vector)
            requires
                e == 1u32 << b,
                b < 32u32,
        ;
    }
}

} // verus!
