//! Payloads of the packets the connection stages exchange. A frame body is
//! the packet id as a varint followed by the payload.
use vstd::prelude::*;
use crate::cipher::{concat_bytes, copy_slice};
use crate::codec::MAX_FRAME_LEN;
use crate::varint::{
    lemma_varint_read_len, lemma_varint_round_trip, read_varint_at, varint_bytes, varint_read,
    write_varint,
};

verus! {

/// Serverbound, handshake stage.
pub const HANDSHAKE_ID: i32 = 0;

/// Serverbound, status stage.
pub const STATUS_REQUEST_ID: i32 = 0;

pub const PING_REQUEST_ID: i32 = 1;

/// Clientbound, status stage.
pub const STATUS_RESPONSE_ID: i32 = 0;

pub const PING_RESPONSE_ID: i32 = 1;

/// Serverbound, login stage.
pub const LOGIN_START_ID: i32 = 0;

pub const ENCRYPTION_RESPONSE_ID: i32 = 1;

pub const LOGIN_ACKNOWLEDGED_ID: i32 = 3;

/// Clientbound, login stage.
pub const ENCRYPTION_REQUEST_ID: i32 = 1;

pub const LOGIN_SUCCESS_ID: i32 = 2;

/// Longest server address a handshake may carry, in bytes.
pub const MAX_ADDRESS_LEN: usize = 255;

/// Longest player name a login start may carry, in bytes.
pub const MAX_NAME_LEN: usize = 16;

/// Length of a profile's unique id.
pub const PROFILE_ID_LEN: usize = 16;

/// Length of a ping payload (a 64-bit integer).
pub const PING_PAYLOAD_LEN: usize = 8;

/// A varint field at `pos`: its value and the position after it.
pub open spec fn field_varint(s: Seq<u8>, pos: int) -> Option<(i32, int)> {
    if 0 <= pos <= s.len() {
        match varint_read(s.skip(pos)) {
            Ok((v, k)) => Some((v, pos + k)),
            Err(_) => None,
        }
    } else {
        None
    }
}

/// `n` bytes at `pos` and the position after them.
pub open spec fn field_fixed(s: Seq<u8>, pos: int, n: int) -> Option<(Seq<u8>, int)> {
    if 0 <= pos && 0 <= n && pos + n <= s.len() {
        Some((s.subrange(pos, pos + n), pos + n))
    } else {
        None
    }
}

/// A length-prefixed byte string at `pos`, at most `max` bytes long, and the position after it.
pub open spec fn field_bytes(s: Seq<u8>, pos: int, max: int) -> Option<(Seq<u8>, int)> {
    match field_varint(s, pos) {
        Some((n, q)) => if 0 <= n <= max {
            field_fixed(s, q, n as int)
        } else {
            None
        },
        None => None,
    }
}

/// The length-prefixed form of `b`.
pub open spec fn prefixed(b: Seq<u8>) -> Seq<u8> {
    varint_bytes(b.len() as i32) + b
}

/// A handshake's fields: protocol version, server address, port and requested next state.
pub open spec fn parse_handshake(p: Seq<u8>) -> Option<(i32, Seq<u8>, u16, i32)> {
    match field_varint(p, 0) {
        Some((version, a)) => match field_bytes(p, a, MAX_ADDRESS_LEN as int) {
            Some((address, b)) => match field_fixed(p, b, 2) {
                Some((port, c)) => match field_varint(p, c) {
                    Some((next, _)) => Some(
                        (version, address, (port[0] as int * 256 + port[1] as int) as u16, next),
                    ),
                    None => None,
                },
                None => None,
            },
            None => None,
        },
        None => None,
    }
}

/// A login start's fields: the player name and the 16-byte profile id.
pub open spec fn parse_login_start(p: Seq<u8>) -> Option<(Seq<u8>, Seq<u8>)> {
    match field_bytes(p, 0, MAX_NAME_LEN as int) {
        Some((name, a)) => match field_fixed(p, a, PROFILE_ID_LEN as int) {
            Some((id, _)) => Some((name, id)),
            None => None,
        },
        None => None,
    }
}

/// An encryption response's fields: the encrypted shared secret, then the encrypted token.
pub open spec fn parse_encryption_response(p: Seq<u8>) -> Option<(Seq<u8>, Seq<u8>)> {
    match field_bytes(p, 0, MAX_FRAME_LEN as int) {
        Some((secret, a)) => match field_bytes(p, a, MAX_FRAME_LEN as int) {
            Some((token, _)) => Some((secret, token)),
            None => None,
        },
        None => None,
    }
}

/// A ping request's 8-byte value.
pub open spec fn parse_ping(p: Seq<u8>) -> Option<Seq<u8>> {
    match field_fixed(p, 0, PING_PAYLOAD_LEN as int) {
        Some((x, _)) => Some(x),
        None => None,
    }
}

pub open spec fn status_response_body(status: Seq<u8>) -> Seq<u8> {
    varint_bytes(STATUS_RESPONSE_ID) + prefixed(status)
}

pub open spec fn ping_response_body(x: Seq<u8>) -> Seq<u8> {
    varint_bytes(PING_RESPONSE_ID) + x
}

/// Empty server id, the public key, the verify token, and no client-side authentication.
pub open spec fn encryption_request_body(public_key: Seq<u8>, token: Seq<u8>) -> Seq<u8> {
    varint_bytes(ENCRYPTION_REQUEST_ID) + prefixed(Seq::empty()) + prefixed(public_key) + prefixed(
        token,
    ) + seq![0u8]
}

/// The profile id, the name, and an empty property list.
pub open spec fn login_success_body(id: Seq<u8>, name: Seq<u8>) -> Seq<u8> {
    varint_bytes(LOGIN_SUCCESS_ID) + id + prefixed(name) + varint_bytes(0)
}

/// A decoded handshake.
#[derive(Clone, Debug)]
pub struct Handshake {
    pub protocol_version: i32,
    pub server_address: Vec<u8>,
    pub server_port: u16,
    pub next_state: i32,
}

fn read_field_varint(s: &[u8], pos: usize) -> (r: Option<(i32, usize)>)
    requires
        pos <= s@.len(),
    ensures
        match field_varint(s@, pos as int) {
            Some((v, q)) => r == Some((v, q as usize)) && pos < q <= s@.len(),
            None => r is None,
        },
{
    proof {
        lemma_varint_read_len(s@.skip(pos as int));
        if let Ok((v, k)) = varint_read(s@.skip(pos as int)) {
            assert(k <= s@.len() - pos);
        }
    }
    let len = s.len();
    match read_varint_at(s, pos) {
        Ok((v, k)) => {
            assert(pos + k <= len);
            Some((v, pos + k))
        },
        Err(_) => None,
    }
}

fn read_field_fixed(s: &[u8], pos: usize, n: usize) -> (r: Option<(Vec<u8>, usize)>)
    requires
        pos <= s@.len(),
    ensures
        match field_fixed(s@, pos as int, n as int) {
            Some((b, q)) => r matches Some((v, q2)) && v@ == b && q2 == q && q <= s@.len(),
            None => r is None,
        },
{
    if n <= s.len() - pos {
        Some((copy_slice(s, pos, pos + n), pos + n))
    } else {
        None
    }
}

fn read_field_bytes(s: &[u8], pos: usize, max: usize) -> (r: Option<(Vec<u8>, usize)>)
    requires
        pos <= s@.len(),
    ensures
        match field_bytes(s@, pos as int, max as int) {
            Some((b, q)) => r matches Some((v, q2)) && v@ == b && q2 == q && q <= s@.len(),
            None => r is None,
        },
{
    let len = s.len();
    match read_field_varint(s, pos) {
        Some((n, q)) => {
            assert(q <= len);
            if n < 0 || n as usize > max {
                None
            } else {
                assert((n as usize) as int == n as int);
                read_field_fixed(s, q, n as usize)
            }
        },
        None => None,
    }
}

/// Decodes a handshake payload.
pub fn decode_handshake(p: &[u8]) -> (r: Option<Handshake>)
    ensures
        match parse_handshake(p@) {
            Some((v, a, port, n)) => r matches Some(h) && h.protocol_version == v
                && h.server_address@ == a && h.server_port == port && h.next_state == n,
            None => r is None,
        },
{
    let _len = p.len();
    match read_field_varint(p, 0) {
        None => None,
        Some((version, a)) => match read_field_bytes(p, a, MAX_ADDRESS_LEN) {
            None => None,
            Some((address, b)) => match read_field_fixed(p, b, 2) {
                None => None,
                Some((port, c)) => match read_field_varint(p, c) {
                    None => None,
                    Some((next, _)) => {
                        let hi = port[0];
                        let lo = port[1];
                        let server_port: u16 = (hi as u16) * 256 + lo as u16;
                        assert(server_port == (port@[0] as int * 256 + port@[1] as int) as u16);
                        Some(
                            Handshake {
                                protocol_version: version,
                                server_address: address,
                                server_port,
                                next_state: next,
                            },
                        )
                    },
                },
            },
        },
    }
}

/// Decodes a login start payload into the player name and profile id.
pub fn decode_login_start(p: &[u8]) -> (r: Option<(Vec<u8>, Vec<u8>)>)
    ensures
        match parse_login_start(p@) {
            Some((name, id)) => r matches Some((n, i)) && n@ == name && i@ == id,
            None => r is None,
        },
{
    let _len = p.len();
    match read_field_bytes(p, 0, MAX_NAME_LEN) {
        None => None,
        Some((name, a)) => match read_field_fixed(p, a, PROFILE_ID_LEN) {
            None => None,
            Some((id, _)) => Some((name, id)),
        },
    }
}

/// Decodes an encryption response payload into the encrypted shared secret and token.
pub fn decode_encryption_response(p: &[u8]) -> (r: Option<(Vec<u8>, Vec<u8>)>)
    ensures
        match parse_encryption_response(p@) {
            Some((secret, token)) => r matches Some((s, t)) && s@ == secret && t@ == token,
            None => r is None,
        },
{
    let _len = p.len();
    match read_field_bytes(p, 0, MAX_FRAME_LEN) {
        None => None,
        Some((secret, a)) => match read_field_bytes(p, a, MAX_FRAME_LEN) {
            None => None,
            Some((token, _)) => Some((secret, token)),
        },
    }
}

/// Decodes a ping request payload into its 8-byte value.
pub fn decode_ping(p: &[u8]) -> (r: Option<Vec<u8>>)
    ensures
        match parse_ping(p@) {
            Some(x) => r matches Some(v) && v@ == x,
            None => r is None,
        },
{
    match read_field_fixed(p, 0, PING_PAYLOAD_LEN) {
        None => None,
        Some((x, _)) => Some(x),
    }
}

fn write_prefixed(out: &mut Vec<u8>, b: &[u8])
    requires
        b@.len() <= MAX_FRAME_LEN,
    ensures
        final(out)@ == old(out)@ + prefixed(b@),
{
    write_varint(b.len() as i32, out);
    let joined = concat_bytes(out.as_slice(), b);
    proof {
        assert(joined@ =~= old(out)@ + prefixed(b@));
    }
    *out = joined;
}

/// The body of a status response carrying `status`.
pub fn status_response(status: &[u8]) -> (r: Vec<u8>)
    requires
        status@.len() <= MAX_FRAME_LEN,
    ensures
        r@ == status_response_body(status@),
{
    let mut out: Vec<u8> = Vec::new();
    write_varint(STATUS_RESPONSE_ID, &mut out);
    write_prefixed(&mut out, status);
    proof {
        assert(out@ =~= status_response_body(status@));
    }
    out
}

/// The body of a ping response echoing `x`.
pub fn ping_response(x: &[u8]) -> (r: Vec<u8>)
    ensures
        r@ == ping_response_body(x@),
{
    let mut out: Vec<u8> = Vec::new();
    write_varint(PING_RESPONSE_ID, &mut out);
    concat_bytes(out.as_slice(), x)
}

/// The body of an encryption request.
pub fn encryption_request(public_key: &[u8], token: &[u8]) -> (r: Vec<u8>)
    requires
        public_key@.len() <= MAX_FRAME_LEN,
        token@.len() <= MAX_FRAME_LEN,
    ensures
        r@ == encryption_request_body(public_key@, token@),
{
    let mut out: Vec<u8> = Vec::new();
    write_varint(ENCRYPTION_REQUEST_ID, &mut out);
    let empty: Vec<u8> = Vec::new();
    write_prefixed(&mut out, empty.as_slice());
    write_prefixed(&mut out, public_key);
    write_prefixed(&mut out, token);
    out.push(0u8);
    proof {
        assert(empty@ =~= Seq::<u8>::empty());
        assert(out@ =~= encryption_request_body(public_key@, token@));
    }
    out
}

/// The body of a login success for profile `id` named `name`.
pub fn login_success(id: &[u8], name: &[u8]) -> (r: Vec<u8>)
    requires
        name@.len() <= MAX_FRAME_LEN,
    ensures
        r@ == login_success_body(id@, name@),
{
    let mut out: Vec<u8> = Vec::new();
    write_varint(LOGIN_SUCCESS_ID, &mut out);
    let mut out = concat_bytes(out.as_slice(), id);
    write_prefixed(&mut out, name);
    write_varint(0, &mut out);
    proof {
        assert(out@ =~= login_success_body(id@, name@));
    }
    out
}

/// A handshake payload as a client writes it.
pub open spec fn handshake_payload(version: i32, address: Seq<u8>, port: u16, next: i32) -> Seq<
    u8,
> {
    varint_bytes(version) + prefixed(address) + seq![(port / 256) as u8, (port % 256) as u8]
        + varint_bytes(next)
}

/// A login start payload as a client writes it.
pub open spec fn login_start_payload(name: Seq<u8>, id: Seq<u8>) -> Seq<u8> {
    prefixed(name) + id
}

/// An encryption response payload as a client writes it.
pub open spec fn encryption_response_payload(secret: Seq<u8>, token: Seq<u8>) -> Seq<u8> {
    prefixed(secret) + prefixed(token)
}

/// A varint written at `pre.len()` reads back there, with the position after it.
pub proof fn lemma_field_varint(pre: Seq<u8>, v: i32, rest: Seq<u8>)
    ensures
        field_varint(pre + varint_bytes(v) + rest, pre.len() as int) == Some(
            (v, (pre.len() + varint_bytes(v).len()) as int),
        ),
{
    let s = pre + varint_bytes(v) + rest;
    assert(s.skip(pre.len() as int) =~= varint_bytes(v) + rest);
    lemma_varint_round_trip(v, rest);
}

/// A length-prefixed byte string written at `pre.len()` reads back there.
pub proof fn lemma_field_bytes(pre: Seq<u8>, b: Seq<u8>, rest: Seq<u8>, max: int)
    requires
        b.len() <= max,
        b.len() <= MAX_FRAME_LEN,
    ensures
        field_bytes(pre + prefixed(b) + rest, pre.len() as int, max) == Some(
            (b, (pre.len() + prefixed(b).len()) as int),
        ),
{
    let n = b.len() as i32;
    let s = pre + prefixed(b) + rest;
    assert(s =~= pre + varint_bytes(n) + (b + rest));
    lemma_field_varint(pre, n, b + rest);
    let q = pre.len() + varint_bytes(n).len();
    assert(s.subrange(q as int, (q + b.len()) as int) =~= b);
}

/// A handshake reads back as the fields it was written from.
pub proof fn lemma_handshake_round_trip(version: i32, address: Seq<u8>, port: u16, next: i32)
    requires
        address.len() <= MAX_ADDRESS_LEN,
    ensures
        parse_handshake(handshake_payload(version, address, port, next)) == Some(
            (version, address, port, next),
        ),
{
    let pb = seq![(port / 256) as u8, (port % 256) as u8];
    let p = handshake_payload(version, address, port, next);
    let a = varint_bytes(version);
    let b = a + prefixed(address);
    let c = b + pb;
    assert(p =~= Seq::<u8>::empty() + a + (prefixed(address) + pb + varint_bytes(next)));
    lemma_field_varint(Seq::empty(), version, prefixed(address) + pb + varint_bytes(next));
    assert(p =~= a + prefixed(address) + (pb + varint_bytes(next)));
    lemma_field_bytes(a, address, pb + varint_bytes(next), MAX_ADDRESS_LEN as int);
    assert(p.subrange(b.len() as int, (b.len() + 2) as int) =~= pb);
    assert(p =~= c + varint_bytes(next) + Seq::empty());
    lemma_field_varint(c, next, Seq::empty());
    assert((pb[0] as int * 256 + pb[1] as int) as u16 == port);
}

/// A login start reads back as the name and id it was written from.
pub proof fn lemma_login_start_round_trip(name: Seq<u8>, id: Seq<u8>)
    requires
        name.len() <= MAX_NAME_LEN,
        id.len() == PROFILE_ID_LEN,
    ensures
        parse_login_start(login_start_payload(name, id)) == Some((name, id)),
{
    let p = login_start_payload(name, id);
    assert(p =~= Seq::<u8>::empty() + prefixed(name) + id);
    lemma_field_bytes(Seq::empty(), name, id, MAX_NAME_LEN as int);
    let q = prefixed(name).len();
    assert(p.subrange(q as int, (q + PROFILE_ID_LEN) as int) =~= id);
}

/// An encryption response reads back as the two byte strings it was written from.
pub proof fn lemma_encryption_response_round_trip(secret: Seq<u8>, token: Seq<u8>)
    requires
        secret.len() <= MAX_FRAME_LEN,
        token.len() <= MAX_FRAME_LEN,
    ensures
        parse_encryption_response(encryption_response_payload(secret, token)) == Some(
            (secret, token),
        ),
{
    let p = encryption_response_payload(secret, token);
    assert(p =~= Seq::<u8>::empty() + prefixed(secret) + prefixed(token));
    lemma_field_bytes(Seq::empty(), secret, prefixed(token), MAX_FRAME_LEN as int);
    assert(p =~= prefixed(secret) + prefixed(token) + Seq::empty());
    lemma_field_bytes(prefixed(secret), token, Seq::empty(), MAX_FRAME_LEN as int);
}

/// An 8-byte ping payload reads back as itself.
pub proof fn lemma_ping_round_trip(x: Seq<u8>)
    requires
        x.len() == PING_PAYLOAD_LEN,
    ensures
        parse_ping(x) == Some(x),
{
    assert(x.subrange(0, PING_PAYLOAD_LEN as int) =~= x);
}

} // verus!
