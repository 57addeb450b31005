//! A duplex byte stream that starts in cleartext and can be switched, once,
//! to the protocol's stream cipher. The transport itself is driven by the
//! caller: this type decides which bytes cross it.
use vstd::prelude::*;
use crate::cipher::{
    cfb8_decrypt, cfb8_decrypt_bytes, cfb8_encrypt, cfb8_encrypt_bytes, concat_bytes, copy_slice,
    lemma_decrypt_concat, lemma_decrypt_encrypt, lemma_decrypt_len, lemma_encrypt_concat,
    lemma_encrypt_len, lemma_encrypt_prefix, lemma_shift_twice, next_register, shift_register,
    CIPHER_BLOCK,
};

verus! {

/// Cipher state of one connection, both directions.
pub struct CipherSession {
    key: Vec<u8>,
    enc_register: Vec<u8>,
    dec_register: Vec<u8>,
    pending: Vec<u8>,
    accepted: Ghost<Seq<u8>>,
    sent: Ghost<Seq<u8>>,
    received: Ghost<Seq<u8>>,
}

/// The part of `buf` a write encrypts: what lies past the `pending_len`
/// bytes already encrypted and pending for its front.
pub open spec fn fresh_part(pending_len: nat, buf: Seq<u8>) -> Seq<u8> {
    if buf.len() > pending_len {
        buf.skip(pending_len as int)
    } else {
        Seq::empty()
    }
}

/// Whether `a` is the front of `m`.
pub open spec fn is_prefix(a: Seq<u8>, m: Seq<u8>) -> bool {
    a.len() <= m.len() && m.take(a.len() as int) == a
}

/// What the transport did with the bytes it was offered.
#[derive(Clone, Copy, Debug, PartialEq, Eq)]
pub enum TransportWrite {
    /// Not ready: nothing was taken.
    NotReady,
    /// The first `n` bytes were taken.
    Accepted(usize),
    /// The write failed: nothing was taken.
    Failed,
}

impl CipherSession {
    /// The shared secret.
    pub closed spec fn key(&self) -> Seq<u8> {
        self.key@
    }

    /// Plaintext handed in for writing so far, in order.
    pub closed spec fn accepted(&self) -> Seq<u8> {
        self.accepted@
    }

    /// Ciphertext the transport has taken so far.
    pub closed spec fn sent(&self) -> Seq<u8> {
        self.sent@
    }

    /// Encrypted bytes offered to the transport and not yet taken.
    pub closed spec fn pending(&self) -> Seq<u8> {
        self.pending@
    }

    /// Ciphertext read from the transport so far.
    pub closed spec fn received(&self) -> Seq<u8> {
        self.received@
    }

    /// Plaintext handed up from what was read so far.
    pub open spec fn delivered(&self) -> Seq<u8> {
        cfb8_decrypt(self.key(), self.key(), self.received())
    }

    /// The ciphertext sent and pending is the encryption of all accepted
    /// plaintext; each register holds the last 16 ciphertext bytes of its direction.
    pub closed spec fn wf(&self) -> bool {
        &&& self.key@.len() == CIPHER_BLOCK
        &&& self.sent@ + self.pending@ == cfb8_encrypt(self.key@, self.key@, self.accepted@)
        &&& self.enc_register@ == shift_register(self.key@, self.sent@ + self.pending@)
        &&& self.dec_register@ == shift_register(self.key@, self.received@)
    }

    proof fn lemma_registers(&self)
        requires
            self.wf(),
        ensures
            self.enc_register@.len() == CIPHER_BLOCK,
            self.dec_register@.len() == CIPHER_BLOCK,
    {
    }
}

/// Whether the stream is still cleartext or already enciphered.
pub enum CipherState {
    Cleartext,
    Encrypted(CipherSession),
}

/// A transport together with its cipher state.
pub struct MCSocket<T> {
    stream: T,
    state: CipherState,
}

impl<T> MCSocket<T> {
    /// Builds the cipher state for a shared secret; only a 16-byte secret is accepted.
    pub fn prepare_encryption(key: &[u8]) -> (r: Result<CipherSession, &'static str>)
        ensures
            r is Ok <==> key@.len() == CIPHER_BLOCK,
            r matches Ok(s) ==> s.wf() && s.key() == key@ && s.accepted() == Seq::<u8>::empty()
                && s.sent() == Seq::<u8>::empty() && s.pending() == Seq::<u8>::empty()
                && s.received() == Seq::<u8>::empty(),
    {
        if key.len() != CIPHER_BLOCK {
            return Err("Invalid key");
        }
        let k = copy_slice(key, 0, CIPHER_BLOCK);
        let enc_register = copy_slice(key, 0, CIPHER_BLOCK);
        let dec_register = copy_slice(key, 0, CIPHER_BLOCK);
        proof {
            assert(k@ =~= key@);
            assert(shift_register(k@, Seq::empty()) =~= k@);
            assert(Seq::<u8>::empty() + Seq::<u8>::empty() =~= Seq::<u8>::empty());
            assert(cfb8_encrypt(k@, k@, Seq::empty()) =~= Seq::<u8>::empty());
        }
        Ok(
            CipherSession {
                key: k,
                enc_register,
                dec_register,
                pending: Vec::new(),
                accepted: Ghost(Seq::empty()),
                sent: Ghost(Seq::empty()),
                received: Ghost(Seq::empty()),
            },
        )
    }

    pub closed spec fn stream_view(&self) -> T {
        self.stream
    }

    /// The cipher state, when enciphered.
    pub closed spec fn session(&self) -> Option<CipherSession> {
        match &self.state {
            CipherState::Cleartext => None,
            CipherState::Encrypted(s) => Some(*s),
        }
    }

    pub open spec fn wf(&self) -> bool {
        self.session() matches Some(s) ==> s.wf()
    }

    /// A cleartext socket over `stream`.
    pub fn new(stream: T) -> (r: Self)
        ensures
            r.stream_view() == stream,
            r.session() == None::<CipherSession>,
            r.wf(),
    {
        MCSocket { stream, state: CipherState::Cleartext }
    }

    pub fn is_encrypted(&self) -> (r: bool)
        ensures
            r == self.session() is Some,
    {
        match &self.state {
            CipherState::Cleartext => false,
            CipherState::Encrypted(_) => true,
        }
    }

    /// The one switch from cleartext to enciphered. On a socket that is
    /// already enciphered it fails and hands the socket back unchanged.
    pub fn encrypt(self, crypto: CipherSession) -> (r: (Self, Result<(), &'static str>))
        requires
            self.wf(),
            crypto.wf(),
        ensures
            r.0.wf(),
            r.0.stream_view() == self.stream_view(),
            self.session() is None ==> r.1 is Ok && r.0.session() == Some(crypto),
            self.session() is Some ==> r.1 is Err && r.0 == self,
    {
        match self.state {
            CipherState::Cleartext => (
                MCSocket { stream: self.stream, state: CipherState::Encrypted(crypto) },
                Ok(()),
            ),
            CipherState::Encrypted(s) => (
                MCSocket { stream: self.stream, state: CipherState::Encrypted(s) },
                Err("Socket is already encrypted"),
            ),
        }
    }

    /// The transport, to read from or write to.
    pub fn stream_mut(&mut self) -> (r: &mut T)
        ensures
            *r == old(self).stream_view(),
            final(self).stream_view() == *final(r),
            final(self).session() == old(self).session(),
    {
        &mut self.stream
    }

    /// Turns bytes just read from the transport into the bytes handed up:
    /// unchanged in cleartext, deciphered (continuing the stream) otherwise.
    pub fn on_read(&mut self, fresh: &[u8]) -> (r: Vec<u8>)
        requires
            old(self).wf(),
        ensures
            final(self).wf(),
            final(self).stream_view() == old(self).stream_view(),
            r@.len() == fresh@.len(),
            match old(self).session() {
                None => r@ == fresh@ && final(self).session() == None::<CipherSession>,
                Some(s) => final(self).session() matches Some(t) && t.key() == s.key()
                    && t.accepted() == s.accepted() && t.sent() == s.sent() && t.pending()
                    == s.pending() && t.received() == s.received() + fresh@ && t.delivered()
                    == s.delivered() + r@,
            },
    {
        match &mut self.state {
            CipherState::Cleartext => copy_slice(fresh, 0, fresh.len()),
            CipherState::Encrypted(s) => {
                proof {
                    s.lemma_registers();
                    assert(fresh@.subrange(0, fresh@.len() as int) =~= fresh@);
                }
                let plain = cfb8_decrypt_bytes(s.key.as_slice(), s.dec_register.as_slice(), fresh);
                let reg = next_register(s.dec_register.as_slice(), fresh);
                proof {
                    lemma_decrypt_concat(s.key@, s.key@, s.received@, fresh@);
                    lemma_decrypt_len(s.key@, s.dec_register@, fresh@);
                    lemma_shift_twice(s.key@, s.received@, fresh@);
                }
                s.dec_register = reg;
                s.received = Ghost(s.received@ + fresh@);
                plain
            },
        }
    }

    /// The bytes to offer the transport for a write of `buf`. In cleartext
    /// they are `buf`. Enciphered, they are the encrypted bytes still pending
    /// from an earlier call (which stand for the front of `buf`, as the caller
    /// offers the same bytes again), followed by the encryption of the rest of
    /// `buf`; the whole is kept pending until the transport takes it.
    pub fn begin_write(&mut self, buf: &[u8]) -> (r: Vec<u8>)
        requires
            old(self).wf(),
        ensures
            final(self).wf(),
            final(self).stream_view() == old(self).stream_view(),
            match old(self).session() {
                None => r@ == buf@ && final(self).session() == None::<CipherSession>,
                Some(s) => {
                    let fresh = fresh_part(s.pending().len(), buf@);
                    final(self).session() matches Some(t) && t.key() == s.key() && t.sent()
                        == s.sent() && t.received() == s.received() && t.accepted()
                        == s.accepted() + fresh && t.pending() == r@ && r@ == s.pending()
                        + cfb8_encrypt(
                        s.key(),
                        shift_register(s.key(), s.sent() + s.pending()),
                        fresh,
                    )
                },
            },
    {
        match &mut self.state {
            CipherState::Cleartext => copy_slice(buf, 0, buf.len()),
            CipherState::Encrypted(s) => {
                proof {
                    s.lemma_registers();
                    assert(buf@.subrange(0, buf@.len() as int) =~= buf@);
                }
                let already = s.pending.len();
                let fresh = if buf.len() > already {
                    copy_slice(buf, already, buf.len())
                } else {
                    Vec::new()
                };
                proof {
                    assert(buf@.len() > already ==> fresh@ =~= buf@.skip(already as int));
                    assert(buf@.len() <= already ==> fresh@ =~= Seq::<u8>::empty());
                }
                let ct = cfb8_encrypt_bytes(
                    s.key.as_slice(),
                    s.enc_register.as_slice(),
                    fresh.as_slice(),
                );
                let reg = next_register(s.enc_register.as_slice(), ct.as_slice());
                proof {
                    lemma_encrypt_concat(s.key@, s.key@, s.accepted@, fresh@);
                    lemma_shift_twice(s.key@, s.sent@ + s.pending@, ct@);
                    assert(s.sent@ + (s.pending@ + ct@) =~= (s.sent@ + s.pending@) + ct@);
                }
                let pending = concat_bytes(s.pending.as_slice(), ct.as_slice());
                s.pending = pending;
                s.enc_register = reg;
                s.accepted = Ghost(s.accepted@ + fresh@);
                copy_slice(s.pending.as_slice(), 0, s.pending.len())
            },
        }
    }

    /// Records what the transport did with the bytes from `begin_write`:
    /// what it took is sent, the rest stays pending for the next write.
    pub fn end_write(&mut self, outcome: TransportWrite)
        requires
            old(self).wf(),
            outcome matches TransportWrite::Accepted(n) ==> old(self).session() matches Some(s)
                ==> n <= s.pending().len(),
        ensures
            final(self).wf(),
            final(self).stream_view() == old(self).stream_view(),
            match old(self).session() {
                None => final(self).session() == None::<CipherSession>,
                Some(s) => final(self).session() matches Some(t) && t.key() == s.key()
                    && t.accepted() == s.accepted() && t.received() == s.received() && match
                outcome {
                    TransportWrite::Accepted(n) => t.sent() == s.sent() + s.pending().take(
                        n as int,
                    ) && t.pending() == s.pending().skip(n as int),
                    _ => t.sent() == s.sent() && t.pending() == s.pending(),
                },
            },
    {
        match &mut self.state {
            CipherState::Cleartext => {},
            CipherState::Encrypted(s) => {
                if let TransportWrite::Accepted(n) = outcome {
                    let rest = copy_slice(s.pending.as_slice(), n, s.pending.len());
                    proof {
                        assert(s.sent@ + s.pending@.take(n as int) + rest@ =~= s.sent@
                            + s.pending@);
                    }
                    s.sent = Ghost(s.sent@ + s.pending@.take(n as int));
                    s.pending = rest;
                }
            },
        }
    }
}

/// Whatever the writer's transport has taken, read back by a reader holding
/// the same secret, is handed up as the writer's plaintext, in order, with
/// nothing lost or repeated: the first as many bytes as were sent.
pub proof fn lemma_cipher_round_trip(writer: CipherSession, reader: CipherSession)
    requires
        writer.wf(),
        reader.wf(),
        writer.key() == reader.key(),
        reader.received() == writer.sent(),
    ensures
        reader.delivered() == writer.accepted().take(writer.sent().len() as int),
{
    let k = writer.key();
    let p = writer.accepted();
    let j = writer.sent().len() as int;
    reveal(CipherSession::wf);
    lemma_encrypt_len(k, k, p);
    assert(writer.sent() =~= cfb8_encrypt(k, k, p).take(j));
    lemma_encrypt_prefix(k, k, p, j);
    lemma_decrypt_encrypt(k, k, p.take(j));
}

/// Whatever the transport has taken is the encryption, from the secret, of
/// the front of the plaintext written, as long as it was taken in: nothing
/// lost, repeated or reordered, however the writes were split or refused.
pub proof fn lemma_sent_is_encryption(writer: CipherSession, m: Seq<u8>)
    requires
        writer.wf(),
        is_prefix(writer.accepted(), m),
    ensures
        writer.sent().len() <= writer.accepted().len(),
        writer.sent() == cfb8_encrypt(
            writer.key(),
            writer.key(),
            m.take(writer.sent().len() as int),
        ),
{
    let k = writer.key();
    let p = writer.accepted();
    let j = writer.sent().len() as int;
    reveal(CipherSession::wf);
    lemma_encrypt_len(k, k, p);
    assert(writer.sent() =~= cfb8_encrypt(k, k, p).take(j));
    lemma_encrypt_prefix(k, k, p, j);
    assert(p.take(j) =~= m.take(j));
}

/// A caller that, on each write, offers everything of `m` the transport has
/// not yet taken keeps the plaintext taken in a front of `m`.
pub proof fn lemma_retry_keeps_prefix(s: CipherSession, m: Seq<u8>, buf: Seq<u8>)
    requires
        s.wf(),
        is_prefix(s.accepted(), m),
        buf == m.skip(s.sent().len() as int),
    ensures
        is_prefix(s.accepted() + fresh_part(s.pending().len(), buf), m),
{
    let k = s.key();
    reveal(CipherSession::wf);
    lemma_encrypt_len(k, k, s.accepted());
    let a = s.accepted().len() as int;
    let p = s.pending().len();
    if buf.len() > p {
        assert(fresh_part(p, buf) =~= m.skip(a));
        assert(s.accepted() + fresh_part(p, buf) =~= m);
        assert(m.take(m.len() as int) =~= m);
    } else {
        assert(s.accepted() + fresh_part(p, buf) =~= s.accepted());
    }
}

} // verus!
