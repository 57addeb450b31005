//! The per-connection protocol state machine: handshake, then status or
//! login, then configuration. It performs no I/O: each event (a frame read,
//! a reply from the coordinator, ...) yields the next stage and the commands
//! the connection's task carries out, in order.
use vstd::prelude::*;
use crate::cipher::{cfb8_encrypt, copy_slice, CIPHER_BLOCK};
use crate::socket::{
    is_prefix, lemma_cipher_round_trip, lemma_sent_is_encryption, CipherSession,
};
use crate::codec::{RawFrame, MAX_FRAME_LEN};
use crate::packets::{
    decode_encryption_response, decode_handshake, decode_login_start, decode_ping,
    encryption_request, encryption_request_body, encryption_response_payload, handshake_payload,
    lemma_encryption_response_round_trip, lemma_handshake_round_trip, lemma_login_start_round_trip,
    lemma_ping_round_trip, login_start_payload, login_success, login_success_body,
    parse_encryption_response, parse_handshake, parse_login_start, parse_ping, ping_response,
    ping_response_body, status_response, status_response_body, ENCRYPTION_RESPONSE_ID, HANDSHAKE_ID,
    Handshake, LOGIN_ACKNOWLEDGED_ID, LOGIN_START_ID, MAX_ADDRESS_LEN, MAX_NAME_LEN,
    PING_PAYLOAD_LEN, PING_REQUEST_ID, PROFILE_ID_LEN, STATUS_REQUEST_ID,
};

verus! {

/// Seconds a stage waits for a frame before giving the connection up.
pub const READ_TIMEOUT_SECS: u64 = 5;

/// Length of the verification token sent in the encryption request.
pub const VERIFY_TOKEN_LEN: usize = 4;

/// Protocol states a connection can be in.
#[derive(Clone, Copy, Debug, PartialEq, Eq)]
pub enum ConnectionState {
    HandShake,
    Status,
    Login,
    Transfer,
    Configuration,
    Play,
}

/// The state a handshake's next-state field asks for.
pub open spec fn requested_state(next: i32) -> Option<ConnectionState> {
    if next == 1 {
        Some(ConnectionState::Status)
    } else if next == 2 {
        Some(ConnectionState::Login)
    } else if next == 3 {
        Some(ConnectionState::Transfer)
    } else {
        None
    }
}

/// A player's identity as claimed at login start.
#[derive(Clone, Debug, PartialEq, Eq)]
pub struct PlayerProfile {
    /// The 16-byte unique id.
    pub id: Vec<u8>,
    /// The display name as UTF-8 bytes.
    pub name: Vec<u8>,
}

pub struct ProfileView {
    pub id: Seq<u8>,
    pub name: Seq<u8>,
}

impl View for PlayerProfile {
    type V = ProfileView;

    open spec fn view(&self) -> ProfileView {
        ProfileView { id: self.id@, name: self.name@ }
    }
}

/// Where a connection stands.
#[derive(Debug)]
pub enum Phase {
    AwaitHandshake,
    AwaitStatus,
    AwaitStatusRequest { status: Vec<u8> },
    AwaitPing,
    AwaitLoginStart,
    AwaitPublicKey { profile: PlayerProfile },
    AwaitEncryptionResponse { profile: PlayerProfile, token: Vec<u8> },
    AwaitDecryption { profile: PlayerProfile, token: Vec<u8> },
    AwaitCipher { profile: PlayerProfile },
    AwaitLoginAck { profile: PlayerProfile },
    Configuration { profile: PlayerProfile },
    Closed,
}

pub enum PhaseView {
    AwaitHandshake,
    AwaitStatus,
    AwaitStatusRequest { status: Seq<u8> },
    AwaitPing,
    AwaitLoginStart,
    AwaitPublicKey { profile: ProfileView },
    AwaitEncryptionResponse { profile: ProfileView, token: Seq<u8> },
    AwaitDecryption { profile: ProfileView, token: Seq<u8> },
    AwaitCipher { profile: ProfileView },
    AwaitLoginAck { profile: ProfileView },
    Configuration { profile: ProfileView },
    Closed,
}

impl View for Phase {
    type V = PhaseView;

    open spec fn view(&self) -> PhaseView {
        match self {
            Phase::AwaitHandshake => PhaseView::AwaitHandshake,
            Phase::AwaitStatus => PhaseView::AwaitStatus,
            Phase::AwaitStatusRequest { status } => PhaseView::AwaitStatusRequest {
                status: status@,
            },
            Phase::AwaitPing => PhaseView::AwaitPing,
            Phase::AwaitLoginStart => PhaseView::AwaitLoginStart,
            Phase::AwaitPublicKey { profile } => PhaseView::AwaitPublicKey { profile: profile@ },
            Phase::AwaitEncryptionResponse { profile, token } =>
                PhaseView::AwaitEncryptionResponse { profile: profile@, token: token@ },
            Phase::AwaitDecryption { profile, token } => PhaseView::AwaitDecryption {
                profile: profile@,
                token: token@,
            },
            Phase::AwaitCipher { profile } => PhaseView::AwaitCipher { profile: profile@ },
            Phase::AwaitLoginAck { profile } => PhaseView::AwaitLoginAck { profile: profile@ },
            Phase::Configuration { profile } => PhaseView::Configuration { profile: profile@ },
            Phase::Closed => PhaseView::Closed,
        }
    }
}

/// What the connection's task observed.
#[derive(Debug)]
pub enum Event {
    /// A frame was read.
    Frame(RawFrame),
    /// No frame: the read timed out, the stream closed or failed to decode.
    NoFrame,
    /// The coordinator's status text; `None` if it could not be asked or dropped the reply.
    StatusReply(Option<Vec<u8>>),
    /// The coordinator's public key (DER); `None` if it could not be asked or dropped the reply.
    PublicKeyReply(Option<Vec<u8>>),
    /// The coordinator's decryptions of the token and of the shared secret;
    /// `None` for one whose reply never came.
    DecryptReplies { token: Option<Vec<u8>>, secret: Option<Vec<u8>> },
    /// Whether the socket switched to the cipher.
    CipherEnabled(bool),
}

pub enum EventView {
    Frame(i32, Seq<u8>),
    NoFrame,
    StatusReply(Option<Seq<u8>>),
    PublicKeyReply(Option<Seq<u8>>),
    DecryptReplies { token: Option<Seq<u8>>, secret: Option<Seq<u8>> },
    CipherEnabled(bool),
}

pub open spec fn opt_view(o: Option<Vec<u8>>) -> Option<Seq<u8>> {
    match o {
        Some(v) => Some(v@),
        None => None,
    }
}

impl View for Event {
    type V = EventView;

    open spec fn view(&self) -> EventView {
        match self {
            Event::Frame(f) => EventView::Frame(f.id, f.payload@),
            Event::NoFrame => EventView::NoFrame,
            Event::StatusReply(s) => EventView::StatusReply(opt_view(*s)),
            Event::PublicKeyReply(k) => EventView::PublicKeyReply(opt_view(*k)),
            Event::DecryptReplies { token, secret } => EventView::DecryptReplies {
                token: opt_view(*token),
                secret: opt_view(*secret),
            },
            Event::CipherEnabled(b) => EventView::CipherEnabled(*b),
        }
    }
}

/// What the connection's task is to do next.
#[derive(Clone, Debug, PartialEq, Eq)]
pub enum Command {
    /// Read one frame, within `READ_TIMEOUT_SECS`.
    ReadFrame,
    /// Send a frame whose body (packet id, then payload) is given.
    Send(Vec<u8>),
    /// Ask the coordinator for its status text.
    AskStatus,
    /// Ask the coordinator for its public key.
    AskPublicKey,
    /// Ask the coordinator to decrypt both, as two independent requests.
    AskDecrypt { secret: Vec<u8>, token: Vec<u8> },
    /// Switch the socket to the cipher keyed with this 16-byte secret.
    EnableCipher(Vec<u8>),
    /// Shut the stream down; nothing follows.
    Close,
}

pub enum CommandView {
    ReadFrame,
    Send(Seq<u8>),
    AskStatus,
    AskPublicKey,
    AskDecrypt { secret: Seq<u8>, token: Seq<u8> },
    EnableCipher(Seq<u8>),
    Close,
}

impl View for Command {
    type V = CommandView;

    open spec fn view(&self) -> CommandView {
        match self {
            Command::ReadFrame => CommandView::ReadFrame,
            Command::Send(b) => CommandView::Send(b@),
            Command::AskStatus => CommandView::AskStatus,
            Command::AskPublicKey => CommandView::AskPublicKey,
            Command::AskDecrypt { secret, token } => CommandView::AskDecrypt {
                secret: secret@,
                token: token@,
            },
            Command::EnableCipher(k) => CommandView::EnableCipher(k@),
            Command::Close => CommandView::Close,
        }
    }
}

/// Lengths every stage keeps within bounds: a status text fits a frame, a
/// name is no longer than a login start allows.
pub open spec fn phase_wf(p: PhaseView) -> bool {
    match p {
        PhaseView::AwaitStatusRequest { status } => status.len() <= MAX_FRAME_LEN,
        PhaseView::AwaitPublicKey { profile } => profile.name.len() <= MAX_NAME_LEN,
        PhaseView::AwaitEncryptionResponse { profile, .. } => profile.name.len() <= MAX_NAME_LEN,
        PhaseView::AwaitDecryption { profile, .. } => profile.name.len() <= MAX_NAME_LEN,
        PhaseView::AwaitCipher { profile } => profile.name.len() <= MAX_NAME_LEN,
        PhaseView::AwaitLoginAck { profile } => profile.name.len() <= MAX_NAME_LEN,
        PhaseView::Configuration { profile } => profile.name.len() <= MAX_NAME_LEN,
        _ => true,
    }
}

pub open spec fn commands_view(v: Seq<Command>) -> Seq<CommandView> {
    v.map_values(|c: Command| c@)
}

pub open spec fn close_now() -> (PhaseView, Seq<CommandView>) {
    (PhaseView::Closed, seq![CommandView::Close])
}

/// Whether the decrypted replies accept the login: the token matches the one
/// issued, and the secret is exactly 16 bytes.
pub open spec fn login_accepted(
    issued: Seq<u8>,
    token: Option<Seq<u8>>,
    secret: Option<Seq<u8>>,
) -> bool {
    &&& token == Some(issued)
    &&& secret matches Some(s) && s.len() == CIPHER_BLOCK
}

/// The next stage and the commands for `event` in stage `p`; `token` is the
/// verification token issued if this step sends the encryption request.
pub open spec fn step_spec(p: PhaseView, event: EventView, token: Seq<u8>) -> (
    PhaseView,
    Seq<CommandView>,
) {
    match (p, event) {
        (PhaseView::AwaitHandshake, EventView::Frame(id, payload)) => {
            if id != HANDSHAKE_ID {
                close_now()
            } else {
                match parse_handshake(payload) {
                    Some((_, _, _, next)) => match requested_state(next) {
                        Some(ConnectionState::Status) => (
                            PhaseView::AwaitStatus,
                            seq![CommandView::AskStatus],
                        ),
                        Some(ConnectionState::Login) => (
                            PhaseView::AwaitLoginStart,
                            seq![CommandView::ReadFrame],
                        ),
                        _ => close_now(),
                    },
                    None => close_now(),
                }
            }
        },
        (PhaseView::AwaitStatus, EventView::StatusReply(Some(status))) => {
            if status.len() <= MAX_FRAME_LEN {
                (PhaseView::AwaitStatusRequest { status }, seq![CommandView::ReadFrame])
            } else {
                close_now()
            }
        },
        (PhaseView::AwaitStatusRequest { status }, EventView::Frame(id, _)) => {
            if id == STATUS_REQUEST_ID {
                (
                    PhaseView::AwaitPing,
                    seq![CommandView::Send(status_response_body(status)), CommandView::ReadFrame],
                )
            } else {
                close_now()
            }
        },
        (PhaseView::AwaitPing, EventView::Frame(id, payload)) => {
            if id != PING_REQUEST_ID {
                close_now()
            } else {
                match parse_ping(payload) {
                    Some(x) => (
                        PhaseView::Closed,
                        seq![CommandView::Send(ping_response_body(x)), CommandView::Close],
                    ),
                    None => close_now(),
                }
            }
        },
        (PhaseView::AwaitLoginStart, EventView::Frame(id, payload)) => {
            if id != LOGIN_START_ID {
                close_now()
            } else {
                match parse_login_start(payload) {
                    Some((name, pid)) => (
                        PhaseView::AwaitPublicKey { profile: ProfileView { id: pid, name } },
                        seq![CommandView::AskPublicKey],
                    ),
                    None => close_now(),
                }
            }
        },
        (PhaseView::AwaitPublicKey { profile }, EventView::PublicKeyReply(Some(der))) => {
            if der.len() <= MAX_FRAME_LEN && token.len() == VERIFY_TOKEN_LEN {
                (
                    PhaseView::AwaitEncryptionResponse { profile, token },
                    seq![
                        CommandView::Send(encryption_request_body(der, token)),
                        CommandView::ReadFrame,
                    ],
                )
            } else {
                close_now()
            }
        },
        (
            PhaseView::AwaitEncryptionResponse { profile, token: issued },
            EventView::Frame(id, payload),
        ) => {
            if id != ENCRYPTION_RESPONSE_ID {
                close_now()
            } else {
                match parse_encryption_response(payload) {
                    Some((secret, tok)) => (
                        PhaseView::AwaitDecryption { profile, token: issued },
                        seq![CommandView::AskDecrypt { secret, token: tok }],
                    ),
                    None => close_now(),
                }
            }
        },
        (
            PhaseView::AwaitDecryption { profile, token: issued },
            EventView::DecryptReplies { token: t, secret: s },
        ) => {
            if login_accepted(issued, t, s) {
                (PhaseView::AwaitCipher { profile }, seq![CommandView::EnableCipher(s->0)])
            } else {
                close_now()
            }
        },
        (PhaseView::AwaitCipher { profile }, EventView::CipherEnabled(true)) => (
            PhaseView::AwaitLoginAck { profile },
            seq![
                CommandView::Send(login_success_body(profile.id, profile.name)),
                CommandView::ReadFrame,
            ],
        ),
        (PhaseView::AwaitLoginAck { profile }, EventView::Frame(id, _)) => {
            if id == LOGIN_ACKNOWLEDGED_ID {
                (PhaseView::Configuration { profile }, seq![CommandView::Close])
            } else {
                close_now()
            }
        },
        _ => close_now(),
    }
}

/// Relies on rand::random for a `[u8; 4]`: four bytes from the thread-local generator.
#[verifier::external_body]
fn random_token() -> (r: Vec<u8>)
    ensures
        r@.len() == VERIFY_TOKEN_LEN,
{
    rand::random::<[u8; 4]>().to_vec()
}

/// Whether `a` and `b` hold the same bytes.
pub fn bytes_eq(a: &[u8], b: &[u8]) -> (r: bool)
    ensures
        r == (a@ == b@),
{
    if a.len() != b.len() {
        return false;
    }
    let mut i: usize = 0;
    while i < a.len()
        invariant
            i <= a@.len() == b@.len(),
            a@.take(i as int) == b@.take(i as int),
        decreases a.len() - i,
    {
        if a[i] != b[i] {
            assert(a@[i as int] != b@[i as int]);
            return false;
        }
        assert(a@.take(i + 1) =~= a@.take(i as int).push(a@[i as int]));
        assert(b@.take(i + 1) =~= b@.take(i as int).push(b@[i as int]));
        i = i + 1;
    }
    assert(a@ =~= a@.take(i as int));
    assert(b@ =~= b@.take(i as int));
    true
}

fn one(c: Command) -> (r: Vec<Command>)
    ensures
        commands_view(r@) == seq![c@],
{
    let mut v: Vec<Command> = Vec::new();
    v.push(c);
    assert(commands_view(v@) =~= seq![c@]);
    v
}

fn two(a: Command, b: Command) -> (r: Vec<Command>)
    ensures
        commands_view(r@) == seq![a@, b@],
{
    let mut v: Vec<Command> = Vec::new();
    v.push(a);
    v.push(b);
    assert(commands_view(v@) =~= seq![a@, b@]);
    v
}

fn close_commands() -> (r: Vec<Command>)
    ensures
        (PhaseView::Closed, commands_view(r@)) == close_now(),
{
    one(Command::Close)
}

/// The handshake stage's decision.
pub struct HandshakeHandler;

impl HandshakeHandler {
    /// The state the handshake asks for; `None` for a value naming no state.
    /// The protocol version is accepted whatever it is.
    pub fn handle_handshake(handshake: &Handshake) -> (r: Option<ConnectionState>)
        ensures
            r == requested_state(handshake.next_state),
    {
        if handshake.next_state == 1 {
            Some(ConnectionState::Status)
        } else if handshake.next_state == 2 {
            Some(ConnectionState::Login)
        } else if handshake.next_state == 3 {
            Some(ConnectionState::Transfer)
        } else {
            None
        }
    }
}

/// The status stage: answers one status request and one ping, then closes.
pub struct StatusHandler;

/// The login stage's decision on the encryption response.
pub struct LoginHandler;

impl LoginHandler {
    /// The shared secret to switch the socket to, if the decrypted token is
    /// the one issued and the decrypted secret is 16 bytes; otherwise `None`.
    pub fn check_encryption_response(
        issued: &[u8],
        token: &Option<Vec<u8>>,
        secret: &Option<Vec<u8>>,
    ) -> (r: Option<Vec<u8>>)
        ensures
            r is Some <==> login_accepted(issued@, opt_view(*token), opt_view(*secret)),
            r matches Some(k) ==> opt_view(*secret) == Some(k@),
    {
        match (token, secret) {
            (Some(t), Some(s)) => {
                if bytes_eq(t.as_slice(), issued) && s.len() == CIPHER_BLOCK {
                    Some(copy_slice(s.as_slice(), 0, s.len()))
                } else {
                    None
                }
            },
            _ => None,
        }
    }
}

/// The configuration stage: reached after an authenticated, enciphered
/// login; it closes the connection at once.
pub struct ConfigurationHandler;

/// One connection's protocol state machine.
pub struct Connection {
    phase: Phase,
}

impl Connection {
    pub closed spec fn phase(&self) -> PhaseView {
        self.phase@
    }

    pub open spec fn wf(&self) -> bool {
        phase_wf(self.phase())
    }

    /// A connection awaiting its handshake; its first command is to read a frame.
    pub fn new() -> (r: Self)
        ensures
            r.phase() == PhaseView::AwaitHandshake,
            r.wf(),
    {
        Connection { phase: Phase::AwaitHandshake }
    }

    /// The commands a fresh connection starts with.
    pub fn start(&self) -> (r: Vec<Command>)
        ensures
            commands_view(r@) == seq![CommandView::ReadFrame],
    {
        one(Command::ReadFrame)
    }

    pub fn is_closed(&self) -> (r: bool)
        ensures
            r == (self.phase() is Closed),
    {
        match &self.phase {
            Phase::Closed => true,
            _ => false,
        }
    }

    /// Takes `event` with `token` as the verification token to issue, should
    /// this step send the encryption request.
    pub fn step_with_token(&mut self, event: Event, token: &[u8]) -> (r: Vec<Command>)
        requires
            old(self).wf(),
        ensures
            final(self).wf(),
            (final(self).phase(), commands_view(r@)) == step_spec(
                old(self).phase(),
                event@,
                token@,
            ),
    {
        let mut phase = Phase::Closed;
        core::mem::swap(&mut phase, &mut self.phase);
        match phase {
            Phase::AwaitHandshake => {
                if let Event::Frame(f) = event {
                    if f.id == HANDSHAKE_ID {
                        if let Some(h) = decode_handshake(f.payload.as_slice()) {
                            match HandshakeHandler::handle_handshake(&h) {
                                Some(ConnectionState::Status) => {
                                    self.phase = Phase::AwaitStatus;
                                    return one(Command::AskStatus);
                                },
                                Some(ConnectionState::Login) => {
                                    self.phase = Phase::AwaitLoginStart;
                                    return one(Command::ReadFrame);
                                },
                                _ => {},
                            }
                        }
                    }
                }
                close_commands()
            },
            Phase::AwaitStatus => {
                if let Event::StatusReply(Some(status)) = event {
                    if status.len() <= MAX_FRAME_LEN {
                        self.phase = Phase::AwaitStatusRequest { status };
                        return one(Command::ReadFrame);
                    }
                }
                close_commands()
            },
            Phase::AwaitStatusRequest { status } => {
                if let Event::Frame(f) = event {
                    if f.id == STATUS_REQUEST_ID {
                        let body = status_response(status.as_slice());
                        self.phase = Phase::AwaitPing;
                        return two(Command::Send(body), Command::ReadFrame);
                    }
                }
                close_commands()
            },
            Phase::AwaitPing => {
                if let Event::Frame(f) = event {
                    if f.id == PING_REQUEST_ID {
                        if let Some(x) = decode_ping(f.payload.as_slice()) {
                            return two(Command::Send(ping_response(x.as_slice())), Command::Close);
                        }
                    }
                }
                close_commands()
            },
            Phase::AwaitLoginStart => {
                if let Event::Frame(f) = event {
                    if f.id == LOGIN_START_ID {
                        if let Some((name, id)) = decode_login_start(f.payload.as_slice()) {
                            self.phase = Phase::AwaitPublicKey {
                                profile: PlayerProfile { id, name },
                            };
                            return one(Command::AskPublicKey);
                        }
                    }
                }
                close_commands()
            },
            Phase::AwaitPublicKey { profile } => {
                if let Event::PublicKeyReply(Some(der)) = event {
                    if der.len() <= MAX_FRAME_LEN && token.len() == VERIFY_TOKEN_LEN {
                        let body = encryption_request(der.as_slice(), token);
                        self.phase = Phase::AwaitEncryptionResponse {
                            profile,
                            token: copy_slice(token, 0, token.len()),
                        };
                        proof {
                            assert(token@.subrange(0, token@.len() as int) =~= token@);
                        }
                        return two(Command::Send(body), Command::ReadFrame);
                    }
                }
                close_commands()
            },
            Phase::AwaitEncryptionResponse { profile, token: issued } => {
                if let Event::Frame(f) = event {
                    if f.id == ENCRYPTION_RESPONSE_ID {
                        if let Some((secret, tok)) = decode_encryption_response(
                            f.payload.as_slice(),
                        ) {
                            self.phase = Phase::AwaitDecryption { profile, token: issued };
                            return one(Command::AskDecrypt { secret, token: tok });
                        }
                    }
                }
                close_commands()
            },
            Phase::AwaitDecryption { profile, token: issued } => {
                if let Event::DecryptReplies { token: t, secret: s } = event {
                    if let Some(key) = LoginHandler::check_encryption_response(
                        issued.as_slice(),
                        &t,
                        &s,
                    ) {
                        self.phase = Phase::AwaitCipher { profile };
                        return one(Command::EnableCipher(key));
                    }
                }
                close_commands()
            },
            Phase::AwaitCipher { profile } => {
                if let Event::CipherEnabled(true) = event {
                    let body = login_success(profile.id.as_slice(), profile.name.as_slice());
                    self.phase = Phase::AwaitLoginAck { profile };
                    return two(Command::Send(body), Command::ReadFrame);
                }
                close_commands()
            },
            Phase::AwaitLoginAck { profile } => {
                if let Event::Frame(f) = event {
                    if f.id == LOGIN_ACKNOWLEDGED_ID {
                        self.phase = Phase::Configuration { profile };
                        return one(Command::Close);
                    }
                }
                close_commands()
            },
            Phase::Configuration { profile } => close_commands(),
            Phase::Closed => close_commands(),
        }
    }

    /// Takes `event`; a step that sends the encryption request issues a fresh
    /// random verification token.
    pub fn step(&mut self, event: Event) -> (r: Vec<Command>)
        requires
            old(self).wf(),
        ensures
            final(self).wf(),
            exists|t: Seq<u8>|
                t.len() == VERIFY_TOKEN_LEN && (final(self).phase(), commands_view(r@))
                    == #[trigger] step_spec(old(self).phase(), event@, t),
    {
        let token = random_token();
        self.step_with_token(event, token.as_slice())
    }
}

/// Whatever the stage, a read that yields no frame (timeout, closed or
/// failing stream) ends the connection.
pub proof fn lemma_no_frame_closes(p: PhaseView, token: Seq<u8>)
    ensures
        step_spec(p, EventView::NoFrame, token) == close_now(),
{
}

/// A status exchange: a handshake asking for status, the coordinator's
/// status text, a status request, then a ping. The client gets exactly one
/// status response carrying that text, then one ping response echoing the
/// ping's value, then the stream closes.
pub proof fn lemma_status_flow(
    version: i32,
    address: Seq<u8>,
    port: u16,
    status: Seq<u8>,
    request: Seq<u8>,
    ping: Seq<u8>,
    token: Seq<u8>,
)
    requires
        address.len() <= MAX_ADDRESS_LEN,
        status.len() <= MAX_FRAME_LEN,
        ping.len() == PING_PAYLOAD_LEN,
    ensures
        step_spec(
            PhaseView::AwaitHandshake,
            EventView::Frame(HANDSHAKE_ID, handshake_payload(version, address, port, 1)),
            token,
        ) == (PhaseView::AwaitStatus, seq![CommandView::AskStatus]),
        step_spec(PhaseView::AwaitStatus, EventView::StatusReply(Some(status)), token) == (
            PhaseView::AwaitStatusRequest { status },
            seq![CommandView::ReadFrame],
        ),
        step_spec(
            PhaseView::AwaitStatusRequest { status },
            EventView::Frame(STATUS_REQUEST_ID, request),
            token,
        ) == (
            PhaseView::AwaitPing,
            seq![CommandView::Send(status_response_body(status)), CommandView::ReadFrame],
        ),
        step_spec(PhaseView::AwaitPing, EventView::Frame(PING_REQUEST_ID, ping), token) == (
            PhaseView::Closed,
            seq![CommandView::Send(ping_response_body(ping)), CommandView::Close],
        ),
{
    lemma_handshake_round_trip(version, address, port, 1);
    lemma_ping_round_trip(ping);
}

/// The login steps up to the decryption requests: a handshake asking for
/// login, a login start for a profile, the coordinator's public key, then the
/// client's encryption response. The encryption request carries the key and
/// the issued token, and both encrypted values go to the coordinator.
pub proof fn lemma_login_until_decryption(
    version: i32,
    address: Seq<u8>,
    port: u16,
    name: Seq<u8>,
    id: Seq<u8>,
    public_key: Seq<u8>,
    token: Seq<u8>,
    secret_ct: Seq<u8>,
    token_ct: Seq<u8>,
)
    requires
        address.len() <= MAX_ADDRESS_LEN,
        name.len() <= MAX_NAME_LEN,
        id.len() == PROFILE_ID_LEN,
        public_key.len() <= MAX_FRAME_LEN,
        token.len() == VERIFY_TOKEN_LEN,
        secret_ct.len() <= MAX_FRAME_LEN,
        token_ct.len() <= MAX_FRAME_LEN,
    ensures
        ({
            let profile = ProfileView { id, name };
            &&& step_spec(
                PhaseView::AwaitHandshake,
                EventView::Frame(HANDSHAKE_ID, handshake_payload(version, address, port, 2)),
                token,
            ) == (PhaseView::AwaitLoginStart, seq![CommandView::ReadFrame])
            &&& step_spec(
                PhaseView::AwaitLoginStart,
                EventView::Frame(LOGIN_START_ID, login_start_payload(name, id)),
                token,
            ) == (PhaseView::AwaitPublicKey { profile }, seq![CommandView::AskPublicKey])
            &&& step_spec(
                PhaseView::AwaitPublicKey { profile },
                EventView::PublicKeyReply(Some(public_key)),
                token,
            ) == (
                PhaseView::AwaitEncryptionResponse { profile, token },
                seq![
                    CommandView::Send(encryption_request_body(public_key, token)),
                    CommandView::ReadFrame,
                ],
            )
            &&& step_spec(
                PhaseView::AwaitEncryptionResponse { profile, token },
                EventView::Frame(
                    ENCRYPTION_RESPONSE_ID,
                    encryption_response_payload(secret_ct, token_ct),
                ),
                token,
            ) == (
                PhaseView::AwaitDecryption { profile, token },
                seq![CommandView::AskDecrypt { secret: secret_ct, token: token_ct }],
            )
        }),
{
    lemma_handshake_round_trip(version, address, port, 2);
    lemma_login_start_round_trip(name, id);
    lemma_encryption_response_round_trip(secret_ct, token_ct);
}

/// A decrypted token other than the one issued (or none at all) ends the
/// connection at once: no cipher switch and no login success is sent.
pub proof fn lemma_login_rejects_token_mismatch(
    profile: ProfileView,
    issued: Seq<u8>,
    token: Option<Seq<u8>>,
    secret: Option<Seq<u8>>,
    next_token: Seq<u8>,
)
    requires
        token != Some(issued),
    ensures
        step_spec(
            PhaseView::AwaitDecryption { profile, token: issued },
            EventView::DecryptReplies { token, secret },
            next_token,
        ) == close_now(),
{
}

/// A login whose decrypted token matches and whose decrypted secret is 16
/// bytes switches the socket to the cipher keyed with that secret, then sends
/// exactly one login success carrying the profile's id and name, and on the
/// client's acknowledgment enters configuration (which closes at once).
pub proof fn lemma_login_completes(
    profile: ProfileView,
    issued: Seq<u8>,
    secret: Seq<u8>,
    ack: Seq<u8>,
    next_token: Seq<u8>,
)
    requires
        secret.len() == CIPHER_BLOCK,
    ensures
        step_spec(
            PhaseView::AwaitDecryption { profile, token: issued },
            EventView::DecryptReplies { token: Some(issued), secret: Some(secret) },
            next_token,
        ) == (PhaseView::AwaitCipher { profile }, seq![CommandView::EnableCipher(secret)]),
        step_spec(PhaseView::AwaitCipher { profile }, EventView::CipherEnabled(true), next_token)
            == (
            PhaseView::AwaitLoginAck { profile },
            seq![
                CommandView::Send(login_success_body(profile.id, profile.name)),
                CommandView::ReadFrame,
            ],
        ),
        step_spec(
            PhaseView::AwaitLoginAck { profile },
            EventView::Frame(LOGIN_ACKNOWLEDGED_ID, ack),
            next_token,
        ) == (PhaseView::Configuration { profile }, seq![CommandView::Close]),
        step_spec(PhaseView::AwaitCipher { profile }, EventView::CipherEnabled(false), next_token)
            == close_now(),
{
}

/// End to end after a completed login: the socket is switched to the cipher
/// keyed with the decrypted secret before the login success is queued. From
/// then on, with `m` the bytes written after the switch (the login success
/// frame first), whatever the transport takes is the encryption of the front
/// of `m` under that secret, and a peer holding the same secret that reads
/// those bytes recovers exactly that front of `m`.
pub proof fn lemma_login_enciphered(
    profile: ProfileView,
    issued: Seq<u8>,
    secret: Seq<u8>,
    next_token: Seq<u8>,
    writer: CipherSession,
    m: Seq<u8>,
    peer: CipherSession,
)
    requires
        secret.len() == CIPHER_BLOCK,
        writer.wf(),
        writer.key() == secret,
        is_prefix(writer.accepted(), m),
        peer.wf(),
        peer.key() == secret,
        peer.received() == writer.sent(),
    ensures
        step_spec(
            PhaseView::AwaitDecryption { profile, token: issued },
            EventView::DecryptReplies { token: Some(issued), secret: Some(secret) },
            next_token,
        ) == (PhaseView::AwaitCipher { profile }, seq![CommandView::EnableCipher(secret)]),
        step_spec(PhaseView::AwaitCipher { profile }, EventView::CipherEnabled(true), next_token)
            == (
            PhaseView::AwaitLoginAck { profile },
            seq![
                CommandView::Send(login_success_body(profile.id, profile.name)),
                CommandView::ReadFrame,
            ],
        ),
        writer.sent() == cfb8_encrypt(secret, secret, m.take(writer.sent().len() as int)),
        peer.delivered() == m.take(writer.sent().len() as int),
{
    lemma_sent_is_encryption(writer, m);
    lemma_cipher_round_trip(writer, peer);
    assert(writer.accepted().take(writer.sent().len() as int) =~= m.take(
        writer.sent().len() as int,
    ));
}

} // verus!
