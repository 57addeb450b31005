use aes::cipher::{AsyncStreamCipher, KeyIvInit};
use spacetimemc_proxy::socket::{MCSocket, TransportWrite};

const SECRET: [u8; 16] = [
    0x00, 0x11, 0x22, 0x33, 0x44, 0x55, 0x66, 0x77, 0x88, 0x99, 0xaa, 0xbb, 0xcc, 0xdd, 0xee, 0xff,
];

fn reference_encrypt(plain: &[u8]) -> Vec<u8> {
    let mut out = plain.to_vec();
    cfb8::Encryptor::<aes::Aes128>::new((&SECRET).into(), (&SECRET).into()).encrypt(&mut out);
    out
}

fn encrypted_socket() -> MCSocket<()> {
    let (socket, res) = MCSocket::new(())
        .encrypt(MCSocket::<()>::prepare_encryption(&SECRET).unwrap());
    assert!(res.is_ok());
    socket
}

/// Writes `plain` through `socket`, the transport taking at most `chunk`
/// bytes per write and refusing every other attempt.
fn write_all(socket: &mut MCSocket<()>, plain: &[u8], chunk: usize) -> Vec<u8> {
    let mut wire = Vec::new();
    let mut rest = plain;
    let mut refuse = true;
    while !rest.is_empty() {
        let out = socket.begin_write(rest);
        if refuse {
            socket.end_write(TransportWrite::NotReady);
        } else {
            let n = out.len().min(chunk);
            wire.extend_from_slice(&out[..n]);
            socket.end_write(TransportWrite::Accepted(n));
            rest = &rest[n..];
        }
        refuse = !refuse;
    }
    wire
}

#[test]
fn cleartext_passes_through() {
    let mut socket = MCSocket::new(());
    assert!(!socket.is_encrypted());
    assert_eq!(socket.begin_write(b"abc"), b"abc".to_vec());
    socket.end_write(TransportWrite::Accepted(2));
    assert_eq!(socket.on_read(b"xyz"), b"xyz".to_vec());
}

#[test]
fn encrypted_write_matches_cfb8() {
    let mut socket = encrypted_socket();
    let plain = b"the quick brown fox jumps over the lazy dog".to_vec();
    let out = socket.begin_write(&plain);
    assert_ne!(out, plain);
    assert_eq!(out, reference_encrypt(&plain));
}

#[test]
fn encrypted_round_trip_in_small_chunks() {
    let plain: Vec<u8> = (0..200u32).map(|i| (i * 7 + 3) as u8).collect();
    for chunk in [1usize, 3, 16, 17, 64] {
        let mut writer = encrypted_socket();
        let wire = write_all(&mut writer, &plain, chunk);
        assert_eq!(wire, reference_encrypt(&plain));
        let mut reader = encrypted_socket();
        let mut read_back = Vec::new();
        for piece in wire.chunks(chunk + 2) {
            read_back.extend(reader.on_read(piece));
        }
        assert_eq!(read_back, plain);
    }
}

#[test]
fn several_messages_round_trip() {
    let messages: [&[u8]; 3] = [b"first", b"", b"third message, a little longer than the rest"];
    let mut writer = encrypted_socket();
    let mut reader = encrypted_socket();
    let mut wire = Vec::new();
    for m in messages {
        wire.extend(write_all(&mut writer, m, 4));
    }
    let mut read_back = Vec::new();
    for piece in wire.chunks(5) {
        read_back.extend(reader.on_read(piece));
    }
    assert_eq!(read_back, messages.concat());
}

#[test]
fn second_encryption_fails_and_keeps_state() {
    let mut socket = encrypted_socket();
    let first = socket.begin_write(b"ab");
    socket.end_write(TransportWrite::Accepted(1));
    let other = MCSocket::<()>::prepare_encryption(&[7u8; 16]).unwrap();
    let (mut socket, res) = socket.encrypt(other);
    assert!(res.is_err());
    assert!(socket.is_encrypted());
    // the unwritten byte is still pending, under the first secret
    let out = socket.begin_write(b"bc");
    assert_eq!(out[0], first[1]);
    let mut expected = first.clone();
    expected.extend_from_slice(&out[1..]);
    assert_eq!(expected, reference_encrypt(b"abc"));
}

#[test]
fn wrong_key_length_is_refused() {
    assert!(MCSocket::<()>::prepare_encryption(&[0u8; 15]).is_err());
    assert!(MCSocket::<()>::prepare_encryption(&[0u8; 17]).is_err());
    assert!(MCSocket::<()>::prepare_encryption(&[0u8; 16]).is_ok());
}

#[test]
fn failed_write_keeps_pending_bytes() {
    let mut socket = encrypted_socket();
    let out = socket.begin_write(b"xyz");
    socket.end_write(TransportWrite::Failed);
    assert_eq!(socket.begin_write(b"xyz"), out);
}
