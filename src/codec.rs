//! Length-prefixed frames: `[length][packet id][payload]`, where the length
//! counts the encoded id and the payload, and both integers are varints.
use vstd::prelude::*;
use bytes::BytesMut;
use crate::buffer::{
    buffer_advance, buffer_byte, buffer_contents, buffer_extend, buffer_len, buffer_reserve,
};
use crate::varint::{
    lemma_varint_prefix_incomplete, lemma_varint_read_len, lemma_varint_round_trip, parse_groups,
    read_varint, varint_bytes, varint_read, write_varint, VarIntError, VARINT_MAX_BYTES,
};

verus! {

/// Largest frame length the decoder accepts: what a three-byte varint can carry.
pub const MAX_FRAME_LEN: usize = 2097151;

/// Largest payload the encoder can frame: what a length prefix can carry.
pub const MAX_ENCODED_LEN: usize = 2147483647;

/// One decoded frame.
#[derive(Clone, Debug, PartialEq, Eq)]
pub struct RawFrame {
    pub id: i32,
    pub payload: Vec<u8>,
}

/// Why a frame could not be decoded or encoded; each is fatal to the connection.
#[derive(Clone, Copy, Debug, PartialEq, Eq)]
pub enum FrameError {
    /// The length prefix runs over five bytes.
    MalformedLength,
    /// The length prefix is negative or above `MAX_FRAME_LEN`.
    LengthOutOfRange,
    /// The frame's bytes do not start with a complete packet id.
    MalformedId,
    /// A payload to encode is longer than a length prefix can carry.
    PayloadTooLong,
}

/// What one decode call yields: a frame as its id and payload, no frame yet, or an error.
pub type FrameOutcome = Result<Option<(i32, Seq<u8>)>, FrameError>;

/// One decode call on buffered bytes `s`: the outcome and what stays
/// buffered. Only a complete frame is taken off the front; with no frame yet,
/// or on an error, the buffer stays as it was.
pub open spec fn decode_step(s: Seq<u8>) -> (FrameOutcome, Seq<u8>) {
    match varint_read(s) {
        Err(VarIntError::Incomplete) => (Ok(None), s),
        Err(VarIntError::TooLong) => (Err(FrameError::MalformedLength), s),
        Ok((n, k)) => if n < 0 || n > MAX_FRAME_LEN {
            (Err(FrameError::LengthOutOfRange), s)
        } else if s.len() < k + n {
            (Ok(None), s)
        } else {
            match varint_read(s.subrange(k as int, k + n)) {
                Ok((id, j)) => (
                    Ok(Some((id, s.subrange((k + j) as int, k + n)))),
                    s.skip(k + n),
                ),
                Err(_) => (Err(FrameError::MalformedId), s),
            }
        },
    }
}

/// The wire form of a frame whose id and payload are `body`.
pub open spec fn frame_bytes(body: Seq<u8>) -> Seq<u8> {
    varint_bytes(body.len() as i32) + body
}

/// The body of a frame carrying `id` and `payload`.
pub open spec fn frame_body(id: i32, payload: Seq<u8>) -> Seq<u8> {
    varint_bytes(id) + payload
}

pub open spec fn outcome_of(r: Result<Option<RawFrame>, FrameError>) -> FrameOutcome {
    match r {
        Ok(Some(f)) => Ok(Some((f.id, f.payload@))),
        Ok(None) => Ok(None),
        Err(e) => Err(e),
    }
}

/// The chunks laid end to end.
pub open spec fn concat_chunks(chunks: Seq<Seq<u8>>) -> Seq<u8>
    decreases chunks.len(),
{
    if chunks.len() == 0 {
        Seq::empty()
    } else {
        chunks[0] + concat_chunks(chunks.skip(1))
    }
}

/// Bytes arriving in `chunks` onto the buffered bytes `buf`, with one decode
/// call after each chunk: the outcome of each call and what stays buffered at the end.
pub open spec fn deliver(buf: Seq<u8>, chunks: Seq<Seq<u8>>) -> (Seq<FrameOutcome>, Seq<u8>)
    decreases chunks.len(),
{
    if chunks.len() == 0 {
        (Seq::empty(), buf)
    } else {
        let (o, rest) = decode_step(buf + chunks[0]);
        let (os, last) = deliver(rest, chunks.skip(1));
        (seq![o] + os, last)
    }
}

/// `n` outcomes of no frame yet.
pub open spec fn no_frames(n: nat) -> Seq<FrameOutcome> {
    Seq::new(n, |i: int| Ok::<Option<(i32, Seq<u8>)>, FrameError>(None))
}

/// Decoding the encoding of a frame, followed by anything, yields that
/// frame's id and payload and leaves exactly what followed it buffered.
pub proof fn lemma_frame_round_trip(id: i32, payload: Seq<u8>, rest: Seq<u8>)
    requires
        frame_body(id, payload).len() <= MAX_FRAME_LEN,
    ensures
        decode_step(frame_bytes(frame_body(id, payload)) + rest) == (
            Ok::<Option<(i32, Seq<u8>)>, FrameError>(Some((id, payload))),
            rest,
        ),
{
    let body = frame_body(id, payload);
    let n = body.len();
    let s = frame_bytes(body) + rest;
    let h = varint_bytes(n as i32).len();
    assert(s =~= varint_bytes(n as i32) + (body + rest));
    lemma_varint_round_trip(n as i32, body + rest);
    assert(s.subrange(h as int, (h + n) as int) =~= varint_bytes(id) + payload);
    lemma_varint_round_trip(id, payload);
    let j = varint_bytes(id).len();
    assert(s.subrange((h + j) as int, (h + n) as int) =~= payload);
    assert(s.skip((h + n) as int) =~= rest);
}

/// Any strict prefix of a frame's encoding decodes to no frame yet and stays buffered.
pub proof fn lemma_frame_prefix_waits(id: i32, payload: Seq<u8>, i: nat)
    requires
        frame_body(id, payload).len() <= MAX_FRAME_LEN,
        i < frame_bytes(frame_body(id, payload)).len(),
    ensures
        decode_step(frame_bytes(frame_body(id, payload)).take(i as int)) == (
            Ok::<Option<(i32, Seq<u8>)>, FrameError>(None),
            frame_bytes(frame_body(id, payload)).take(i as int),
        ),
{
    let body = frame_body(id, payload);
    let n = body.len();
    let enc = frame_bytes(body);
    let h = varint_bytes(n as i32).len();
    let s = enc.take(i as int);
    if i < h {
        assert(s =~= varint_bytes(n as i32).take(i as int));
        lemma_varint_prefix_incomplete(n as i32, i);
    } else {
        assert(s =~= varint_bytes(n as i32) + body.take(i - h));
        lemma_varint_round_trip(n as i32, body.take(i - h));
    }
}

proof fn lemma_deliver_from(id: i32, payload: Seq<u8>, j: nat, chunks: Seq<Seq<u8>>)
    requires
        frame_body(id, payload).len() <= MAX_FRAME_LEN,
        j < frame_bytes(frame_body(id, payload)).len(),
        concat_chunks(chunks) == frame_bytes(frame_body(id, payload)).skip(j as int),
        forall|c: int| 0 <= c < chunks.len() ==> #[trigger] chunks[c].len() > 0,
    ensures
        chunks.len() >= 1,
        deliver(frame_bytes(frame_body(id, payload)).take(j as int), chunks) == (
            no_frames((chunks.len() - 1) as nat).push(
                Ok::<Option<(i32, Seq<u8>)>, FrameError>(Some((id, payload))),
            ),
            Seq::<u8>::empty(),
        ),
    decreases chunks.len(),
{
    let enc = frame_bytes(frame_body(id, payload));
    if chunks.len() == 0 {
        assert(enc.skip(j as int).len() > 0);
    }
    let c0 = chunks[0];
    let rest = chunks.skip(1);
    let j2 = j + c0.len();
    let t = enc.skip(j as int);
    assert(t =~= c0 + concat_chunks(rest));
    assert(j2 <= enc.len());
    assert forall|i: int| 0 <= i < c0.len() implies c0[i] == enc[j + i] by {
        assert(t[i] == (c0 + concat_chunks(rest))[i]);
    }
    assert forall|i: int| 0 <= i < enc.len() - j2 implies concat_chunks(rest)[i] == enc[j2 + i] by {
        assert(t[c0.len() + i] == (c0 + concat_chunks(rest))[c0.len() + i]);
    }
    assert(enc.take(j as int) + c0 =~= enc.take(j2 as int));
    assert(concat_chunks(rest) =~= enc.skip(j2 as int));
    assert forall|c: int| 0 <= c < rest.len() implies #[trigger] rest[c].len() > 0 by {
        assert(rest[c] == chunks[c + 1]);
    }
    if j2 < enc.len() {
        lemma_frame_prefix_waits(id, payload, j2);
        lemma_deliver_from(id, payload, j2, rest);
        assert(decode_step(enc.take(j as int) + c0) == (
            Ok::<Option<(i32, Seq<u8>)>, FrameError>(None),
            enc.take(j2 as int),
        ));
        let (os, last) = deliver(enc.take(j2 as int), rest);
        assert(deliver(enc.take(j as int), chunks) == (
            seq![Ok::<Option<(i32, Seq<u8>)>, FrameError>(None)] + os,
            last,
        ));
        assert(no_frames((chunks.len() - 1) as nat).push(
            Ok::<Option<(i32, Seq<u8>)>, FrameError>(Some((id, payload))),
        ) =~= seq![Ok::<Option<(i32, Seq<u8>)>, FrameError>(None)] + no_frames(
            (rest.len() - 1) as nat,
        ).push(Ok::<Option<(i32, Seq<u8>)>, FrameError>(Some((id, payload)))));
    } else {
        assert(enc.take(j2 as int) =~= enc + Seq::<u8>::empty());
        lemma_frame_round_trip(id, payload, Seq::empty());
        if rest.len() > 0 {
            assert(concat_chunks(rest) =~= rest[0] + concat_chunks(rest.skip(1)));
            assert(rest[0].len() > 0);
        }
        assert(rest.len() == 0);
        assert(decode_step(enc.take(j as int) + c0) == (
            Ok::<Option<(i32, Seq<u8>)>, FrameError>(Some((id, payload))),
            Seq::<u8>::empty(),
        ));
        assert(deliver(Seq::<u8>::empty(), rest) == (
            Seq::<FrameOutcome>::empty(),
            Seq::<u8>::empty(),
        ));
        assert(no_frames(0).push(
            Ok::<Option<(i32, Seq<u8>)>, FrameError>(Some((id, payload))),
        ) =~= seq![Ok::<Option<(i32, Seq<u8>)>, FrameError>(Some((id, payload)))]);
        assert(seq![Ok::<Option<(i32, Seq<u8>)>, FrameError>(Some((id, payload)))] + Seq::<
            FrameOutcome,
        >::empty() =~= seq![Ok::<Option<(i32, Seq<u8>)>, FrameError>(Some((id, payload)))]);
    }
}

/// A frame's bytes arriving split at any boundaries (one byte at a time
/// included), with a decode call after each piece: every call but the last
/// yields no frame, none fails, and the last yields the frame and leaves
/// nothing buffered.
pub proof fn lemma_frame_split_delivery(id: i32, payload: Seq<u8>, chunks: Seq<Seq<u8>>)
    requires
        frame_body(id, payload).len() <= MAX_FRAME_LEN,
        concat_chunks(chunks) == frame_bytes(frame_body(id, payload)),
        forall|c: int| 0 <= c < chunks.len() ==> #[trigger] chunks[c].len() > 0,
    ensures
        chunks.len() >= 1,
        deliver(Seq::empty(), chunks) == (
            no_frames((chunks.len() - 1) as nat).push(
                Ok::<Option<(i32, Seq<u8>)>, FrameError>(Some((id, payload))),
            ),
            Seq::<u8>::empty(),
        ),
{
    let enc = frame_bytes(frame_body(id, payload));
    assert(enc.skip(0) =~= enc);
    assert(enc.take(0) =~= Seq::<u8>::empty());
    lemma_frame_prefix_waits(id, payload, 0);
    lemma_deliver_from(id, payload, 0, chunks);
}

/// Frame decoder and encoder.
pub struct MCCodec {
    compression: Option<u8>,
}

proof fn lemma_parse_take(s: Seq<u8>, m: nat, budget: nat)
    requires
        m == s.len() || m >= budget,
        m <= s.len(),
    ensures
        parse_groups(s.take(m as int), budget) == parse_groups(s, budget),
    decreases budget,
{
    let t = s.take(m as int);
    if budget > 0 && s.len() > 0 {
        assert(m >= 1);
        assert(t[0] == s[0]);
        if s[0] >= 128 {
            assert(t.skip(1) =~= s.skip(1).take(m - 1));
            lemma_parse_take(s.skip(1), (m - 1) as nat, (budget - 1) as nat);
        }
    } else if budget > 0 {
        assert(t.len() == 0);
    }
}

/// Reading a varint from the first `min(5, len)` bytes is reading it from the whole sequence.
proof fn lemma_varint_read_take(s: Seq<u8>, m: nat)
    requires
        m == s.len() || m >= VARINT_MAX_BYTES,
        m <= s.len(),
    ensures
        varint_read(s.take(m as int)) == varint_read(s),
{
    lemma_parse_take(s, m, VARINT_MAX_BYTES as nat);
}

/// Copies the bytes `from..to` of `src`.
fn copy_range(src: &BytesMut, from: usize, to: usize) -> (r: Vec<u8>)
    requires
        from <= to <= buffer_contents(*src).len(),
    ensures
        r@ == buffer_contents(*src).subrange(from as int, to as int),
{
    let mut out: Vec<u8> = Vec::new();
    let mut i: usize = from;
    while i < to
        invariant
            from <= i <= to <= buffer_contents(*src).len(),
            out@ == buffer_contents(*src).subrange(from as int, i as int),
        decreases to - i,
    {
        out.push(buffer_byte(src, i));
        assert(out@ =~= buffer_contents(*src).subrange(from as int, i + 1));
        i = i + 1;
    }
    out
}

impl MCCodec {
    pub closed spec fn compression_threshold(&self) -> Option<u8> {
        self.compression
    }

    /// A codec without compression.
    pub fn new() -> (r: Self)
        ensures
            r.compression_threshold() == None::<u8>,
    {
        MCCodec { compression: None }
    }

    /// Records a compression threshold; framing is not yet affected by it.
    pub fn set_compression(&mut self, compression: u8)
        ensures
            final(self).compression_threshold() == Some(compression),
    {
        self.compression = Some(compression);
    }

    /// Decodes at most one frame from the front of `src`. Only a complete
    /// frame is taken off; with no complete frame buffered it yields
    /// `Ok(None)` and leaves `src` as it was (after reserving room for the
    /// rest of the frame), so a later call with more bytes appended resumes.
    pub fn decode(&mut self, src: &mut BytesMut) -> (r: Result<Option<RawFrame>, FrameError>)
        ensures
            ({
                let (o, rest) = decode_step(buffer_contents(*old(src)));
                &&& outcome_of(r) == o
                &&& buffer_contents(*final(src)) == rest
            }),
            outcome_of(r) == Ok::<Option<(i32, Seq<u8>)>, FrameError>(None) ==> buffer_contents(
                *final(src),
            ) == buffer_contents(*old(src)),
            r is Err ==> buffer_contents(*final(src)) == buffer_contents(*old(src)),
            *final(self) == *old(self),
    {
        let ghost s = buffer_contents(*src);
        let len = buffer_len(src);
        let m: usize = if len < VARINT_MAX_BYTES {
            len
        } else {
            VARINT_MAX_BYTES
        };
        let head = copy_range(src, 0, m);
        proof {
            assert(head@ =~= s.take(m as int));
            lemma_varint_read_take(s, m as nat);
            lemma_varint_read_len(head@);
        }
        let (v, k) = match read_varint(head.as_slice()) {
            Err(VarIntError::Incomplete) => {
                return Ok(None);
            },
            Err(VarIntError::TooLong) => {
                return Err(FrameError::MalformedLength);
            },
            Ok(p) => p,
        };
        if v < 0 || v as usize > MAX_FRAME_LEN {
            return Err(FrameError::LengthOutOfRange);
        }
        let n = v as usize;
        if len - k < n {
            let missing = n - (len - k);
            if len < isize::MAX as usize && missing <= isize::MAX as usize - len {
                buffer_reserve(src, missing);
            }
            return Ok(None);
        }
        let m2: usize = if n < VARINT_MAX_BYTES {
            n
        } else {
            VARINT_MAX_BYTES
        };
        let id_head = copy_range(src, k, k + m2);
        proof {
            let body = s.subrange(k as int, k + n);
            assert(id_head@ =~= body.take(m2 as int));
            lemma_varint_read_take(body, m2 as nat);
            lemma_varint_read_len(id_head@);
        }
        match read_varint(id_head.as_slice()) {
            Ok((id, j)) => {
                let payload = copy_range(src, k + j, k + n);
                buffer_advance(src, k + n);
                Ok(Some(RawFrame { id, payload }))
            },
            Err(_) => Err(FrameError::MalformedId),
        }
    }

    /// Appends the frame for `data` (an encoded packet id followed by its
    /// payload) to `dst`: the length of `data` as a varint, then `data`.
    pub fn encode(&mut self, data: &[u8], dst: &mut BytesMut) -> (r: Result<(), FrameError>)
        requires
            buffer_contents(*old(dst)).len() + VARINT_MAX_BYTES + data@.len() <= isize::MAX,
        ensures
            *final(self) == *old(self),
            r is Ok <==> data@.len() <= MAX_ENCODED_LEN,
            r is Ok ==> buffer_contents(*final(dst)) == buffer_contents(*old(dst))
                + frame_bytes(data@),
            r is Err ==> r == Err::<(), FrameError>(FrameError::PayloadTooLong)
                && buffer_contents(*final(dst)) == buffer_contents(*old(dst)),
    {
        if data.len() > MAX_ENCODED_LEN {
            return Err(FrameError::PayloadTooLong);
        }
        let mut prefix: Vec<u8> = Vec::new();
        write_varint(data.len() as i32, &mut prefix);
        proof {
            lemma_varint_round_trip(data@.len() as i32, Seq::empty());
            assert(prefix@ =~= varint_bytes(data@.len() as i32));
        }
        buffer_extend(dst, prefix.as_slice());
        buffer_extend(dst, data);
        proof {
            assert(buffer_contents(*dst) =~= buffer_contents(*old(dst)) + frame_bytes(data@));
        }
        Ok(())
    }
}

} // verus!
