use rsa::pkcs8::DecodePublicKey;
use rsa::{Pkcs1v15Encrypt, RsaPublicKey};
use spacetimemc_proxy::config::PermissionLvl;
use spacetimemc_proxy::coordinator::{
    decrypt_reply, Action, Coordinator, Listener, ListenerAction, ListenerEvent, Request,
};
use spacetimemc_proxy::errors::{SendError, TrySendError};
use spacetimemc_proxy::status::{status_text, StatusConfig};

fn config(motd: &str, max: u32) -> StatusConfig {
    StatusConfig {
        motd: motd.as_bytes().to_vec(),
        max_players: max,
        version_name: b"1.21.4".to_vec(),
        protocol: 769,
    }
}

#[test]
fn status_text_is_json() {
    let text = status_text(&config("A \"quoted\" line\n\\", 20));
    let expected = "{\"version\":{\"name\":\"1.21.4\",\"protocol\":769},\"players\":{\"max\":20,\"online\":0},\"description\":{\"text\":\"A \\\"quoted\\\" line\\u000a\\\\\"}}";
    assert_eq!(String::from_utf8(text).unwrap(), expected);
    let zero = status_text(&config("", 0));
    assert!(String::from_utf8(zero).unwrap().contains("\"max\":0,"));
}

#[test]
fn coordinator_requests() {
    let mut c = Coordinator::new(&config("hello", 10), false).expect("key generation");
    let first = status_text(&config("hello", 10));
    assert_eq!(c.handle(Request::GetStatus), Action::Reply(first.clone()));
    assert_eq!(c.handle(Request::GetStatus), Action::Reply(first.clone()));
    assert_eq!(c.handle(Request::StartListener), Action::SpawnListener);
    assert_eq!(c.handle(Request::StartListener), Action::Nothing);
    assert_eq!(c.handle(Request::GetStatus), Action::Reply(first));
    assert_eq!(c.handle(Request::UpdateConfig(config("changed", 3))), Action::Nothing);
    let second = status_text(&config("changed", 3));
    assert_eq!(c.handle(Request::GetStatus), Action::Reply(second.clone()));
    assert_eq!(c.handle(Request::GetStatus), Action::Reply(second));

    let der = match c.handle(Request::CertificatePublicDer) {
        Action::Reply(d) => d,
        other => panic!("unexpected {other:?}"),
    };
    let public = RsaPublicKey::from_public_key_der(&der).unwrap();
    let secret = [0x42u8; 16];
    let ct = public.encrypt(&mut rand::thread_rng(), Pkcs1v15Encrypt, &secret).unwrap();
    assert_eq!(c.handle(Request::Decrypt(ct)), Action::Reply(secret.to_vec()));
    assert_eq!(c.handle(Request::Decrypt(vec![1, 2, 3])), Action::DropReply);
    assert_eq!(c.handle(Request::Shutdown), Action::DrainAndStop);
}

#[test]
fn decrypt_outcomes() {
    assert_eq!(decrypt_reply(Some(vec![5])), Action::Reply(vec![5]));
    assert_eq!(decrypt_reply(None), Action::DropReply);
}

#[test]
fn listener_ids() {
    let mut l = Listener::new();
    assert_eq!(l.on_event(ListenerEvent::Accepted), ListenerAction::Spawn(0));
    assert_eq!(l.on_event(ListenerEvent::Accepted), ListenerAction::Spawn(1));
    assert_eq!(l.on_event(ListenerEvent::AcceptFailed), ListenerAction::Stop);
    assert_eq!(l.on_event(ListenerEvent::Accepted), ListenerAction::Spawn(2));
    assert_eq!(l.on_event(ListenerEvent::Signal), ListenerAction::Stop);
}

#[test]
fn small_types() {
    assert_eq!(PermissionLvl::default(), PermissionLvl::Zero);
    assert_eq!(PermissionLvl::Four.level(), 4);
    assert_ne!(TrySendError::ChannelFull, TrySendError::ChannelClosed);
    assert_eq!(SendError, SendError);
}
