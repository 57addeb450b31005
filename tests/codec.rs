use bytes::BytesMut;
use spacetimemc_proxy::codec::{FrameError, MCCodec, RawFrame, MAX_FRAME_LEN};
use spacetimemc_proxy::varint::{read_varint, write_varint, VarIntError};

fn encoded(v: i32) -> Vec<u8> {
    let mut out = Vec::new();
    write_varint(v, &mut out);
    out
}

#[test]
fn varint_shortest_encodings() {
    assert_eq!(encoded(0), vec![0x00]);
    assert_eq!(encoded(1), vec![0x01]);
    assert_eq!(encoded(127), vec![0x7f]);
    assert_eq!(encoded(128), vec![0x80, 0x01]);
    assert_eq!(encoded(255), vec![0xff, 0x01]);
    assert_eq!(encoded(25565), vec![0xdd, 0xc7, 0x01]);
    assert_eq!(encoded(2097151), vec![0xff, 0xff, 0x7f]);
    assert_eq!(encoded(2147483647), vec![0xff, 0xff, 0xff, 0xff, 0x07]);
    assert_eq!(encoded(-1), vec![0xff, 0xff, 0xff, 0xff, 0x0f]);
    assert_eq!(encoded(-2147483648), vec![0x80, 0x80, 0x80, 0x80, 0x08]);
}

#[test]
fn varint_reads_back() {
    for v in [0, 1, 127, 128, 255, 25565, 2097151, 2147483647, -1, -2147483648] {
        let mut bytes = encoded(v);
        let len = bytes.len();
        bytes.extend_from_slice(&[0xaa, 0xbb]);
        assert_eq!(read_varint(&bytes), Ok((v, len)));
    }
}

#[test]
fn varint_tolerates_longer_forms() {
    assert_eq!(read_varint(&[0x81, 0x80, 0x00]), Ok((1, 3)));
}

#[test]
fn varint_incomplete_and_too_long() {
    assert_eq!(read_varint(&[]), Err(VarIntError::Incomplete));
    assert_eq!(read_varint(&[0x80, 0x80]), Err(VarIntError::Incomplete));
    assert_eq!(read_varint(&[0x80, 0x80, 0x80, 0x80, 0x80, 0x01]), Err(VarIntError::TooLong));
}

fn frame_bytes(id: i32, payload: &[u8]) -> Vec<u8> {
    let mut body = encoded(id);
    body.extend_from_slice(payload);
    let mut dst = BytesMut::new();
    let mut codec = MCCodec::new();
    codec.encode(&body, &mut dst).unwrap();
    dst.to_vec()
}

#[test]
fn encode_prefixes_length() {
    let mut codec = MCCodec::new();
    let mut dst = BytesMut::new();
    codec.encode(&[0x00, 0x2a, 0x2b], &mut dst).unwrap();
    assert_eq!(&dst[..], &[0x03, 0x00, 0x2a, 0x2b]);
    codec.encode(&[], &mut dst).unwrap();
    assert_eq!(&dst[..], &[0x03, 0x00, 0x2a, 0x2b, 0x00]);
}

#[test]
fn encode_takes_payload_beyond_decode_limit() {
    let mut codec = MCCodec::new();
    let mut dst = BytesMut::from(&[9u8][..]);
    let data = vec![7u8; MAX_FRAME_LEN + 1];
    assert_eq!(codec.encode(&data, &mut dst), Ok(()));
    assert_eq!(&dst[..5], &[9u8, 0x80, 0x80, 0x80, 0x01]);
    assert_eq!(dst.len(), 5 + MAX_FRAME_LEN + 1);
}

#[test]
fn frame_round_trip() {
    for (id, payload) in [(0, vec![]), (1, vec![1, 2, 3]), (300, vec![7u8; 200])] {
        let mut src = BytesMut::from(&frame_bytes(id, &payload)[..]);
        src.extend_from_slice(&[0x05]);
        let mut codec = MCCodec::new();
        let frame = codec.decode(&mut src).unwrap().unwrap();
        assert_eq!(frame, RawFrame { id, payload });
        assert_eq!(&src[..], &[0x05]);
    }
}

#[test]
fn frame_one_byte_at_a_time() {
    let bytes = frame_bytes(0x25, &[0x10; 150]);
    let mut codec = MCCodec::new();
    let mut src = BytesMut::new();
    for (i, b) in bytes.iter().enumerate() {
        src.extend_from_slice(&[*b]);
        let out = codec.decode(&mut src).unwrap();
        if i + 1 < bytes.len() {
            assert!(out.is_none());
        } else {
            assert_eq!(out, Some(RawFrame { id: 0x25, payload: vec![0x10; 150] }));
            assert!(src.is_empty());
        }
    }
}

#[test]
fn no_frame_leaves_buffer_alone() {
    let mut codec = MCCodec::new();
    let mut src = BytesMut::from(&[0x80u8][..]);
    assert_eq!(codec.decode(&mut src), Ok(None));
    assert_eq!(&src[..], &[0x80]);
    let mut src = BytesMut::from(&[0x02u8, 0x00][..]);
    assert_eq!(codec.decode(&mut src), Ok(None));
    assert_eq!(&src[..], &[0x02, 0x00]);
    let mut src = BytesMut::from(&[0x04u8, 0x00, 0x01][..]);
    assert_eq!(codec.decode(&mut src), Ok(None));
    assert_eq!(&src[..], &[0x04, 0x00, 0x01]);
    assert!(src.capacity() >= 5);
    src.extend_from_slice(&[0x02, 0x03]);
    assert_eq!(codec.decode(&mut src), Ok(Some(RawFrame { id: 0, payload: vec![1, 2, 3] })));
    assert!(src.is_empty());
}

#[test]
fn frame_split_at_any_boundary() {
    let bytes = frame_bytes(0x101, &[0x33; 40]);
    for cut in [1usize, 2, 3, 7, 20] {
        let mut codec = MCCodec::new();
        let mut src = BytesMut::new();
        let pieces: Vec<&[u8]> = bytes.chunks(cut).collect();
        for (i, piece) in pieces.iter().enumerate() {
            src.extend_from_slice(piece);
            let out = codec.decode(&mut src).unwrap();
            if i + 1 < pieces.len() {
                assert!(out.is_none());
            } else {
                assert_eq!(out, Some(RawFrame { id: 0x101, payload: vec![0x33; 40] }));
            }
        }
        assert!(src.is_empty());
    }
}

#[test]
fn two_frames_in_one_buffer() {
    let mut all = frame_bytes(1, &[0xaa]);
    all.extend(frame_bytes(2, &[0xbb, 0xcc]));
    let mut src = BytesMut::from(&all[..]);
    let mut codec = MCCodec::new();
    assert_eq!(codec.decode(&mut src), Ok(Some(RawFrame { id: 1, payload: vec![0xaa] })));
    assert_eq!(codec.decode(&mut src), Ok(Some(RawFrame { id: 2, payload: vec![0xbb, 0xcc] })));
    assert_eq!(codec.decode(&mut src), Ok(None));
}

#[test]
fn decode_errors() {
    let mut codec = MCCodec::new();
    let mut src = BytesMut::from(&[0x80u8, 0x80, 0x80, 0x80, 0x80, 0x01][..]);
    assert_eq!(codec.decode(&mut src), Err(FrameError::MalformedLength));

    let mut codec = MCCodec::new();
    let mut src = BytesMut::from(&[0xff, 0xff, 0xff, 0xff, 0x0f][..]);
    assert_eq!(codec.decode(&mut src), Err(FrameError::LengthOutOfRange));

    let mut codec = MCCodec::new();
    let mut src = BytesMut::from(&[0x80, 0x80, 0x80, 0x01][..]);
    assert_eq!(codec.decode(&mut src), Err(FrameError::LengthOutOfRange));

    let mut codec = MCCodec::new();
    let mut src = BytesMut::from(&[0x00, 0x05][..]);
    assert_eq!(codec.decode(&mut src), Err(FrameError::MalformedId));

    let mut codec = MCCodec::new();
    let mut src = BytesMut::from(&[0x01, 0x80][..]);
    assert_eq!(codec.decode(&mut src), Err(FrameError::MalformedId));
}

#[test]
fn codec_settings() {
    let mut codec = MCCodec::new();
    codec.set_compression(64);
    let mut src = BytesMut::from(&[0x01u8, 0x07][..]);
    assert_eq!(codec.decode(&mut src), Ok(Some(RawFrame { id: 7, payload: vec![] })));
}
