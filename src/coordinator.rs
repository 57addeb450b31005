//! The coordinator: the one shared actor that owns the cached status text and
//! the server's key pair. Its task takes one request at a time from its
//! mailbox; this module decides what each request does.
use vstd::prelude::*;
use rsa::RsaPrivateKey;
use crate::cipher::copy_slice;
use crate::status::{status_json, status_text, StatusConfig};

verus! {

#[verifier::external_type_specification]
#[verifier::external_body]
pub struct ExRsaPrivateKey(rsa::RsaPrivateKey);

/// Size of the generated key, in bits.
pub const KEY_BITS: usize = 1024;

/// Relies on RsaPrivateKey::new with rand's thread-local generator: a fresh
/// key pair of `bits` bits, or `None` if generation failed.
#[verifier::external_body]
fn generate_private_key(bits: usize) -> (r: Option<RsaPrivateKey>) {
    RsaPrivateKey::new(&mut rand::thread_rng(), bits).ok()
}

/// Relies on EncodePublicKey::to_public_key_der for the key's public half:
/// its DER encoding, or `None` if encoding failed.
#[verifier::external_body]
fn public_key_der(key: &RsaPrivateKey) -> (r: Option<Vec<u8>>) {
    rsa::pkcs8::EncodePublicKey::to_public_key_der(&key.to_public_key()).ok().map(
        |d| d.into_vec(),
    )
}

/// Relies on RsaPrivateKey::decrypt with PKCS#1 v1.5 padding: the plaintext,
/// or `None` if `data` does not decrypt under the key.
#[verifier::external_body]
fn rsa_decrypt(key: &RsaPrivateKey, data: &[u8]) -> (r: Option<Vec<u8>>) {
    key.decrypt(rsa::Pkcs1v15Encrypt, data).ok()
}

/// A request taken from the coordinator's mailbox; the reply channel, where
/// there is one, stays with the caller.
#[derive(Debug)]
pub enum Request {
    Shutdown,
    GetStatus,
    StartListener,
    UpdateConfig(StatusConfig),
    CertificatePublicDer,
    Decrypt(Vec<u8>),
}

/// What the coordinator's task does with a request.
#[derive(Clone, Debug, PartialEq, Eq)]
pub enum Action {
    /// Send these bytes on the request's reply channel.
    Reply(Vec<u8>),
    /// Drop the reply channel unanswered, which the asker sees as closed.
    DropReply,
    /// Spawn the accept loop.
    SpawnListener,
    /// Nothing further.
    Nothing,
    /// Stop tracking new tasks, wait for every spawned task, then close the mailbox.
    DrainAndStop,
}

/// The cached status after `req`: rebuilt wholesale on a configuration update.
pub open spec fn status_step(status: Seq<u8>, req: Request) -> Seq<u8> {
    match req {
        Request::UpdateConfig(c) => status_json(c),
        _ => status,
    }
}

/// The cached status after the requests `reqs`, taken in mailbox order.
pub open spec fn status_after(status: Seq<u8>, reqs: Seq<Request>) -> Seq<u8>
    decreases reqs.len(),
{
    if reqs.len() == 0 {
        status
    } else {
        status_step(status_after(status, reqs.drop_last()), reqs.last())
    }
}

pub open spec fn no_update(reqs: Seq<Request>) -> bool {
    forall|i: int| 0 <= i < reqs.len() ==> !(#[trigger] reqs[i] is UpdateConfig)
}

/// Coordinator state.
pub struct Coordinator {
    status: Vec<u8>,
    use_whitelist: bool,
    key: RsaPrivateKey,
    public_der: Vec<u8>,
    listener_started: bool,
    stopping: bool,
}

/// The decision on a decryption outcome: reply with the plaintext, or drop
/// the reply channel when decryption failed.
pub fn decrypt_reply(outcome: Option<Vec<u8>>) -> (r: Action)
    ensures
        match outcome {
            Some(p) => r matches Action::Reply(v) && v@ == p@,
            None => r is DropReply,
        },
{
    match outcome {
        Some(p) => Action::Reply(p),
        None => Action::DropReply,
    }
}

impl Coordinator {
    /// The cached status text.
    pub closed spec fn status(&self) -> Seq<u8> {
        self.status@
    }

    /// DER encoding of the public key.
    pub closed spec fn public_der(&self) -> Seq<u8> {
        self.public_der@
    }

    pub closed spec fn listener_started(&self) -> bool {
        self.listener_started
    }

    pub closed spec fn stopping(&self) -> bool {
        self.stopping
    }

    pub closed spec fn use_whitelist(&self) -> bool {
        self.use_whitelist
    }

    /// A coordinator with a fresh key pair and the status text for `config`;
    /// `None` if the key could not be generated or encoded.
    pub fn new(config: &StatusConfig, use_whitelist: bool) -> (r: Option<Self>)
        ensures
            r matches Some(c) ==> c.status() == status_json(*config) && c.use_whitelist()
                == use_whitelist && !c.listener_started() && !c.stopping(),
    {
        let key = match generate_private_key(KEY_BITS) {
            Some(k) => k,
            None => return None,
        };
        let public_der = match public_key_der(&key) {
            Some(d) => d,
            None => return None,
        };
        Some(
            Coordinator {
                status: status_text(config),
                use_whitelist,
                key,
                public_der,
                listener_started: false,
                stopping: false,
            },
        )
    }

    /// Handles one request.
    pub fn handle(&mut self, req: Request) -> (r: Action)
        ensures
            final(self).status() == status_step(old(self).status(), req),
            final(self).public_der() == old(self).public_der(),
            final(self).use_whitelist() == old(self).use_whitelist(),
            match req {
                Request::GetStatus => r matches Action::Reply(v) && v@ == old(self).status(),
                Request::CertificatePublicDer => r matches Action::Reply(v) && v@ == old(
                    self,
                ).public_der(),
                Request::Decrypt(_) => r is Reply || r is DropReply,
                Request::StartListener => (if old(self).listener_started() {
                    r is Nothing
                } else {
                    r is SpawnListener
                }) && final(self).listener_started(),
                Request::UpdateConfig(_) => r is Nothing,
                Request::Shutdown => r is DrainAndStop && final(self).stopping(),
            },
            !(req is StartListener) ==> final(self).listener_started() == old(
                self,
            ).listener_started(),
            !(req is Shutdown) ==> final(self).stopping() == old(self).stopping(),
    {
        match req {
            Request::Shutdown => {
                self.stopping = true;
                Action::DrainAndStop
            },
            Request::GetStatus => Action::Reply(
                copy_slice(self.status.as_slice(), 0, self.status.len()),
            ),
            Request::StartListener => {
                if self.listener_started {
                    Action::Nothing
                } else {
                    self.listener_started = true;
                    Action::SpawnListener
                }
            },
            Request::UpdateConfig(c) => {
                self.status = status_text(&c);
                Action::Nothing
            },
            Request::CertificatePublicDer => Action::Reply(
                copy_slice(self.public_der.as_slice(), 0, self.public_der.len()),
            ),
            Request::Decrypt(data) => decrypt_reply(rsa_decrypt(&self.key, data.as_slice())),
        }
    }
}

/// Requests other than configuration updates leave the cached status as it
/// was: every status query between two updates sees the same text.
pub proof fn lemma_status_stable(status: Seq<u8>, reqs: Seq<Request>)
    requires
        no_update(reqs),
    ensures
        status_after(status, reqs) == status,
    decreases reqs.len(),
{
    if reqs.len() > 0 {
        assert(no_update(reqs.drop_last()));
        lemma_status_stable(status, reqs.drop_last());
        assert(!(reqs[reqs.len() - 1] is UpdateConfig));
    }
}

/// Taking requests in two runs is taking them in one.
pub proof fn lemma_status_after_concat(status: Seq<u8>, a: Seq<Request>, b: Seq<Request>)
    ensures
        status_after(status, a + b) == status_after(status_after(status, a), b),
    decreases b.len(),
{
    if b.len() == 0 {
        assert(a + b =~= a);
    } else {
        assert((a + b).drop_last() =~= a + b.drop_last());
        assert((a + b).last() == b.last());
        lemma_status_after_concat(status, a, b.drop_last());
    }
}

/// After a configuration update, every later status query sees exactly the
/// text built from that configuration, until the next update.
pub proof fn lemma_status_after_update(
    status: Seq<u8>,
    before: Seq<Request>,
    config: StatusConfig,
    after: Seq<Request>,
)
    requires
        no_update(after),
    ensures
        status_after(status, before.push(Request::UpdateConfig(config)) + after) == status_json(
            config,
        ),
{
    lemma_status_after_concat(status, before.push(Request::UpdateConfig(config)), after);
    assert(before.push(Request::UpdateConfig(config)).drop_last() =~= before);
    lemma_status_stable(status_json(config), after);
}

/// The accept loop's counter of connection ids.
pub struct Listener {
    next_id: usize,
}

/// What the accept loop saw.
#[derive(Clone, Copy, Debug, PartialEq, Eq)]
pub enum ListenerEvent {
    /// A connection was accepted.
    Accepted,
    /// Accepting failed.
    AcceptFailed,
    /// A termination signal (interrupt, hangup, terminate) arrived.
    Signal,
}

/// What the accept loop does next.
#[derive(Clone, Copy, Debug, PartialEq, Eq)]
pub enum ListenerAction {
    /// Start the handshake stage for the accepted connection with this id.
    Spawn(usize),
    /// Stop accepting and signal the process's death channel.
    Stop,
}

impl Listener {
    pub closed spec fn next_id(&self) -> usize {
        self.next_id
    }

    pub fn new() -> (r: Self)
        ensures
            r.next_id() == 0,
    {
        Listener { next_id: 0 }
    }

    /// Accepted connections get consecutive ids, wrapping past the largest.
    pub fn on_event(&mut self, event: ListenerEvent) -> (r: ListenerAction)
        ensures
            match event {
                ListenerEvent::Accepted => r == ListenerAction::Spawn(old(self).next_id())
                    && final(self).next_id() == (if old(self).next_id() == usize::MAX {
                    0usize
                } else {
                    (old(self).next_id() + 1) as usize
                }),
                _ => r == ListenerAction::Stop && final(self).next_id() == old(self).next_id(),
            },
    {
        match event {
            ListenerEvent::Accepted => {
                let id = self.next_id;
                self.next_id = if id == usize::MAX {
                    0
                } else {
                    id + 1
                };
                ListenerAction::Spawn(id)
            },
            _ => ListenerAction::Stop,
        }
    }
}

} // verus!
