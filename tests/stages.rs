use bytes::BytesMut;
use spacetimemc_proxy::codec::{MCCodec, RawFrame};
use spacetimemc_proxy::packets::{decode_handshake, Handshake};
use spacetimemc_proxy::socket::{MCSocket, TransportWrite};
use spacetimemc_proxy::stages::{
    bytes_eq, Command, ConnectionState, Connection, Event, HandshakeHandler, LoginHandler,
    READ_TIMEOUT_SECS,
};

fn frame(id: i32, payload: &[u8]) -> Event {
    Event::Frame(RawFrame { id, payload: payload.to_vec() })
}

/// Protocol 769, "localhost", port 25565, then the requested state.
fn handshake(next: u8) -> Vec<u8> {
    let mut p = vec![0x81, 0x06, 9];
    p.extend_from_slice(b"localhost");
    p.extend_from_slice(&[0x63, 0xdd, next]);
    p
}

const NAME: &[u8] = b"Steve";
const PROFILE_ID: [u8; 16] = [0xa5; 16];
const TOKEN: [u8; 4] = [9, 8, 7, 6];
const SECRET: [u8; 16] = [0x42; 16];

fn login_start() -> Vec<u8> {
    let mut p = vec![NAME.len() as u8];
    p.extend_from_slice(NAME);
    p.extend_from_slice(&PROFILE_ID);
    p
}

fn encryption_response() -> Vec<u8> {
    vec![3, 0xe1, 0xe2, 0xe3, 2, 0xd1, 0xd2]
}

fn login_success_body() -> Vec<u8> {
    let mut b = vec![0x02];
    b.extend_from_slice(&PROFILE_ID);
    b.push(NAME.len() as u8);
    b.extend_from_slice(NAME);
    b.push(0x00);
    b
}

/// Drives a connection through handshake, login start, key and encryption response.
fn login_until_decryption() -> Connection {
    let mut c = Connection::new();
    assert_eq!(c.start(), vec![Command::ReadFrame]);
    assert_eq!(c.step_with_token(frame(0, &handshake(2)), &TOKEN), vec![Command::ReadFrame]);
    assert_eq!(c.step_with_token(frame(0, &login_start()), &TOKEN), vec![Command::AskPublicKey]);
    assert_eq!(
        c.step_with_token(Event::PublicKeyReply(Some(vec![1, 2, 3])), &TOKEN),
        vec![
            Command::Send(vec![0x01, 0x00, 0x03, 1, 2, 3, 0x04, 9, 8, 7, 6, 0x00]),
            Command::ReadFrame
        ]
    );
    assert_eq!(
        c.step_with_token(frame(1, &encryption_response()), &TOKEN),
        vec![Command::AskDecrypt { secret: vec![0xe1, 0xe2, 0xe3], token: vec![0xd1, 0xd2] }]
    );
    c
}

#[test]
fn status_exchange() {
    let mut c = Connection::new();
    assert_eq!(c.step_with_token(frame(0, &handshake(1)), &TOKEN), vec![Command::AskStatus]);
    assert_eq!(
        c.step_with_token(Event::StatusReply(Some(b"{}".to_vec())), &TOKEN),
        vec![Command::ReadFrame]
    );
    assert_eq!(
        c.step_with_token(frame(0, &[]), &TOKEN),
        vec![Command::Send(vec![0x00, 0x02, b'{', b'}']), Command::ReadFrame]
    );
    let ping = [0, 0, 0, 0, 0, 0, 0, 0x2a];
    assert_eq!(
        c.step_with_token(frame(1, &ping), &TOKEN),
        vec![Command::Send(vec![0x01, 0, 0, 0, 0, 0, 0, 0, 0x2a]), Command::Close]
    );
    assert!(c.is_closed());
}

#[test]
fn status_without_coordinator_closes() {
    let mut c = Connection::new();
    c.step(frame(0, &handshake(1)));
    assert_eq!(c.step(Event::StatusReply(None)), vec![Command::Close]);
    assert!(c.is_closed());
}

#[test]
fn status_then_no_ping_closes() {
    let mut c = Connection::new();
    c.step(frame(0, &handshake(1)));
    c.step(Event::StatusReply(Some(b"x".to_vec())));
    c.step(frame(0, &[]));
    assert_eq!(c.step(Event::NoFrame), vec![Command::Close]);
}

#[test]
fn login_token_mismatch_closes() {
    let mut c = login_until_decryption();
    let out = c.step_with_token(
        Event::DecryptReplies { token: Some(vec![9, 8, 7, 5]), secret: Some(SECRET.to_vec()) },
        &TOKEN,
    );
    assert_eq!(out, vec![Command::Close]);
    assert!(c.is_closed());
    assert_eq!(c.step(Event::CipherEnabled(true)), vec![Command::Close]);
}

#[test]
fn login_missing_token_reply_closes() {
    let mut c = login_until_decryption();
    let out = c.step(Event::DecryptReplies { token: None, secret: Some(SECRET.to_vec()) });
    assert_eq!(out, vec![Command::Close]);
}

#[test]
fn login_short_secret_closes() {
    let mut c = login_until_decryption();
    let out = c.step(Event::DecryptReplies {
        token: Some(TOKEN.to_vec()),
        secret: Some(vec![1; 15]),
    });
    assert_eq!(out, vec![Command::Close]);
}

#[test]
fn login_completes() {
    let mut c = login_until_decryption();
    assert_eq!(
        c.step(Event::DecryptReplies {
            token: Some(TOKEN.to_vec()),
            secret: Some(SECRET.to_vec())
        }),
        vec![Command::EnableCipher(SECRET.to_vec())]
    );
    assert_eq!(
        c.step(Event::CipherEnabled(true)),
        vec![Command::Send(login_success_body()), Command::ReadFrame]
    );
    assert_eq!(c.step(frame(3, &[])), vec![Command::Close]);
    assert!(!c.is_closed());
}

#[test]
fn login_success_reaches_peer_enciphered() {
    let mut server = MCSocket::new(());
    let (s, res) = server.encrypt(MCSocket::<()>::prepare_encryption(&SECRET).unwrap());
    assert!(res.is_ok());
    server = s;
    let mut codec = MCCodec::new();
    let mut framed = BytesMut::new();
    codec.encode(&login_success_body(), &mut framed).unwrap();
    let wire = server.begin_write(&framed);
    server.end_write(TransportWrite::Accepted(wire.len()));
    assert_ne!(&wire[..], &framed[..]);

    let (mut peer, _) = MCSocket::new(())
        .encrypt(MCSocket::<()>::prepare_encryption(&SECRET).unwrap());
    let mut received = BytesMut::new();
    for piece in wire.chunks(3) {
        received.extend_from_slice(&peer.on_read(piece));
    }
    let mut peer_codec = MCCodec::new();
    let f = peer_codec.decode(&mut received).unwrap().unwrap();
    assert_eq!(f.id, 2);
    assert_eq!(f.payload, login_success_body()[1..].to_vec());
}

#[test]
fn idle_handshake_closes() {
    assert_eq!(READ_TIMEOUT_SECS, 5);
    let mut c = Connection::new();
    assert_eq!(c.step(Event::NoFrame), vec![Command::Close]);
    assert!(c.is_closed());
}

#[test]
fn unexpected_packet_closes() {
    let mut c = Connection::new();
    assert_eq!(c.step(frame(5, &handshake(1))), vec![Command::Close]);
    let mut c = Connection::new();
    c.step(frame(0, &handshake(2)));
    assert_eq!(c.step(frame(1, &login_start())), vec![Command::Close]);
}

#[test]
fn unknown_next_state_closes() {
    let mut c = Connection::new();
    assert_eq!(c.step(frame(0, &handshake(3))), vec![Command::Close]);
    let mut c = Connection::new();
    assert_eq!(c.step(frame(0, &handshake(7))), vec![Command::Close]);
}

#[test]
fn handshake_fields() {
    let h: Handshake = decode_handshake(&handshake(2)).unwrap();
    assert_eq!(h.protocol_version, 769);
    assert_eq!(h.server_address, b"localhost".to_vec());
    assert_eq!(h.server_port, 25565);
    assert_eq!(HandshakeHandler::handle_handshake(&h), Some(ConnectionState::Login));
    assert!(decode_handshake(&handshake(2)[..5]).is_none());
}

#[test]
fn encryption_response_check() {
    let ok = LoginHandler::check_encryption_response(
        &TOKEN,
        &Some(TOKEN.to_vec()),
        &Some(SECRET.to_vec()),
    );
    assert_eq!(ok, Some(SECRET.to_vec()));
    let bad = LoginHandler::check_encryption_response(
        &TOKEN,
        &Some(vec![0; 4]),
        &Some(SECRET.to_vec()),
    );
    assert_eq!(bad, None);
    let none = LoginHandler::check_encryption_response(&TOKEN, &Some(TOKEN.to_vec()), &None);
    assert_eq!(none, None);
    assert!(bytes_eq(b"abc", b"abc"));
    assert!(!bytes_eq(b"abc", b"abd"));
}
