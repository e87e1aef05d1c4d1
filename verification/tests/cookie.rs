use miknet::connection::{accept_cookie_echo, respond_to_init};
use miknet::cookie::{make_cookie, verify_cookie, Cookie, COOKIE_LIFE};
use miknet::gram::Chunk;

const ADDR: u64 = 0x7f00_0001_1234;
const SECRET: u32 = 0x5eed_cafe;

fn issued_cookie() -> Cookie {
    let gram = respond_to_init(100, ADDR, 42, 7, 10, SECRET);
    match gram.chunks[0] {
        Chunk::InitAck { state_cookie, .. } => state_cookie,
        _ => panic!("expected an init ack"),
    }
}

fn flip(c: &Cookie, field: usize, bit: u32) -> Cookie {
    let mut c = *c;
    let mask = 1u32 << bit;
    match field {
        0 => c.peer_tsn ^= mask,
        1 => c.token ^= mask,
        2 => c.tsn ^= mask,
        3 => c.issued_at ^= mask,
        _ => c.mac ^= mask,
    }
    c
}

#[test]
fn valid_cookie_establishes_exactly_once() {
    let cookie = issued_cookie();
    let (conn, _acts) = accept_cookie_echo(cookie, ADDR, 11, SECRET).expect("valid cookie");
    assert_eq!(conn.peer_token, 42);
    assert_eq!(conn.local_tsn, 7);
    assert_eq!(conn.peer_tsn, 100);
}

#[test]
fn every_single_bit_flip_is_rejected() {
    let cookie = issued_cookie();
    assert!(verify_cookie(&cookie, ADDR, 11, SECRET));
    for field in 0..5 {
        for bit in 0..32 {
            let bad = flip(&cookie, field, bit);
            assert!(
                !verify_cookie(&bad, ADDR, 11, SECRET),
                "flip of bit {} in field {} was accepted",
                bit,
                field
            );
            assert!(accept_cookie_echo(bad, ADDR, 11, SECRET).is_none());
        }
    }
}

#[test]
fn cookie_from_wrong_address_is_rejected() {
    let cookie = issued_cookie();
    assert!(accept_cookie_echo(cookie, ADDR + 1, 11, SECRET).is_none());
}

#[test]
fn cookie_with_wrong_secret_is_rejected() {
    let cookie = issued_cookie();
    assert!(accept_cookie_echo(cookie, ADDR, 11, SECRET ^ 1).is_none());
}

#[test]
fn expired_cookie_is_rejected() {
    let cookie = make_cookie(ADDR, 100, 42, 7, 10, SECRET);
    assert!(verify_cookie(&cookie, ADDR, 10 + COOKIE_LIFE, SECRET));
    assert!(!verify_cookie(&cookie, ADDR, 11 + COOKIE_LIFE, SECRET));
    // A cookie "issued in the future" is invalid too.
    assert!(!verify_cookie(&cookie, ADDR, 9, SECRET));
}
