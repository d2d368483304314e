//! Reconciler behavior: the registration handshake, roster replacement,
//! timeline growth, visibility gating, media classification, input
//! clearing, and the isolation of malformed frames.

use chat_core::chat::Chat;
use chat_core::chat::Msg;
use chat_core::chat::Phase;
use chat_core::chat::Session;
use chat_core::chat::is_media;
use chat_core::chat::make_avatar;
use chat_core::codec::ChatMessage;
use chat_core::codec::DecodeError;

fn bv(s: &str) -> Vec<u8> {
    s.as_bytes().to_vec()
}

fn new_core(name: &str) -> (Chat, Vec<u8>) {
    Chat::new(Session { username: bv(name) })
}

fn avatar(name: &str) -> Vec<u8> {
    bv(&format!("https://avatars.dicebear.com/api/adventurer-neutral/{name}.svg"))
}

#[test]
fn scenario_register_handshake_first() {
    let (core, frame) = new_core("alice");
    assert_eq!(frame, bv(r#"{"messageType":"register","data":"alice"}"#));
    assert_eq!(core.phase(), Phase::Registered);
    assert!(core.users().is_empty());
    assert!(core.messages().is_empty());
    assert!(core.chat_input().is_empty());
}

#[test]
fn scenario_users_snapshot_builds_roster() {
    let (mut core, _) = new_core("alice");
    let outcome = core.update(Msg::HandleMsg(bv(
        r#"{"messageType":"users","dataArray":["alice","bob"]}"#,
    )));
    assert!(outcome.changed);
    assert_eq!(outcome.error, None);
    assert_eq!(core.phase(), Phase::Active);
    let users = core.users();
    assert_eq!(users.len(), 2);
    assert_eq!(users[0].name, bv("alice"));
    assert_eq!(users[0].avatar, avatar("alice"));
    assert_eq!(users[1].name, bv("bob"));
    assert_eq!(users[1].avatar, avatar("bob"));
}

#[test]
fn scenario_message_appends_and_renders_plain() {
    let (mut core, _) = new_core("alice");
    core.update(Msg::HandleMsg(bv(r#"{"messageType":"users","dataArray":["alice","bob"]}"#)));
    let outcome = core.update(Msg::HandleMsg(bv(
        r#"{"messageType":"message","data":"{\"from\":\"bob\",\"message\":\"hi\"}"}"#,
    )));
    assert!(outcome.changed);
    assert_eq!(core.messages().len(), 1);
    assert_eq!(core.messages()[0], ChatMessage { from: bv("bob"), message: bv("hi") });
    let view = core.rendered();
    assert_eq!(view.len(), 1);
    assert_eq!(view[0].from, bv("bob"));
    assert_eq!(view[0].avatar, avatar("bob"));
    assert_eq!(view[0].message, bv("hi"));
    assert!(!view[0].media);
}

#[test]
fn scenario_unmatched_sender_is_kept_but_invisible() {
    let (mut core, _) = new_core("alice");
    core.update(Msg::HandleMsg(bv(r#"{"messageType":"users","dataArray":["alice","bob"]}"#)));
    core.update(Msg::HandleMsg(bv(
        r#"{"messageType":"message","data":"{\"from\":\"bob\",\"message\":\"hi\"}"}"#,
    )));
    let before = core.rendered();
    let outcome = core.update(Msg::HandleMsg(bv(
        r#"{"messageType":"message","data":"{\"from\":\"carol\",\"message\":\"yo\"}"}"#,
    )));
    assert!(outcome.changed);
    assert_eq!(core.messages().len(), 2);
    assert_eq!(core.messages()[1], ChatMessage { from: bv("carol"), message: bv("yo") });
    let after = core.rendered();
    assert_eq!(after, before);
}

#[test]
fn scenario_gif_message_renders_as_media() {
    let (mut core, _) = new_core("alice");
    core.update(Msg::HandleMsg(bv(r#"{"messageType":"users","dataArray":["alice","bob"]}"#)));
    core.update(Msg::HandleMsg(bv(
        r#"{"messageType":"message","data":"{\"from\":\"bob\",\"message\":\"look.gif\"}"}"#,
    )));
    let view = core.rendered();
    assert_eq!(view.len(), 1);
    assert!(view[0].media);
    assert_eq!(view[0].message, bv("look.gif"));
}

#[test]
fn submit_clears_input_whether_or_not_send_succeeds() {
    let (mut core, _) = new_core("alice");
    core.set_input(bv("hello"));
    assert_eq!(core.chat_input(), &bv("hello"));
    let outcome = core.update(Msg::SubmitMessage);
    assert!(core.chat_input().is_empty());
    assert!(!outcome.changed);
    assert_eq!(outcome.error, None);
    assert_eq!(
        outcome.outbound.unwrap(),
        bv(r#"{"messageType":"message","data":"{\"from\":\"alice\",\"message\":\"hello\"}"}"#),
    );
    let again = core.update(Msg::SubmitMessage);
    assert!(core.chat_input().is_empty());
    assert_eq!(
        again.outbound.unwrap(),
        bv(r#"{"messageType":"message","data":"{\"from\":\"alice\",\"message\":\"\"}"}"#),
    );
}

#[test]
fn roster_is_replaced_wholesale_with_duplicates_kept() {
    let (mut core, _) = new_core("alice");
    core.update(Msg::HandleMsg(bv(r#"{"messageType":"users","dataArray":["a","a","b"]}"#)));
    let users = core.users();
    assert_eq!(users.len(), 3);
    assert_eq!(users[0].name, bv("a"));
    assert_eq!(users[1].name, bv("a"));
    assert_eq!(users[2].name, bv("b"));
    core.update(Msg::HandleMsg(bv(r#"{"messageType":"users","dataArray":[]}"#)));
    assert!(core.users().is_empty());
}

#[test]
fn timeline_keeps_order_and_duplicates() {
    let (mut core, _) = new_core("alice");
    for text in ["one", "two", "two"] {
        let frame = format!(
            r#"{{"messageType":"message","data":"{{\"from\":\"bob\",\"message\":\"{text}\"}}"}}"#
        );
        core.update(Msg::HandleMsg(frame.into_bytes()));
    }
    let msgs = core.messages();
    assert_eq!(msgs.len(), 3);
    assert_eq!(msgs[0].message, bv("one"));
    assert_eq!(msgs[1].message, bv("two"));
    assert_eq!(msgs[2].message, bv("two"));
}

#[test]
fn media_classification_is_exact_suffix_match() {
    let m = |text: &str| ChatMessage { from: bv("x"), message: bv(text) };
    assert!(is_media(&m("look.gif")));
    assert!(is_media(&m(".gif")));
    assert!(!is_media(&m("gif")));
    assert!(!is_media(&m("look.gifs")));
    assert!(!is_media(&m("look.GIF")));
    assert!(!is_media(&m("")));
}

#[test]
fn avatar_is_deterministic_in_the_name() {
    assert_eq!(make_avatar(&bv("alice")), avatar("alice"));
    assert_eq!(make_avatar(&bv("alice")), make_avatar(&bv("alice")));
    assert_ne!(make_avatar(&bv("alice")), make_avatar(&bv("bob")));
}

#[test]
fn inbound_register_and_unknown_kinds_are_noops() {
    let (mut core, _) = new_core("alice");
    core.update(Msg::HandleMsg(bv(r#"{"messageType":"users","dataArray":["bob"]}"#)));
    let reg = core.update(Msg::HandleMsg(bv(r#"{"messageType":"register","data":"zed"}"#)));
    assert!(!reg.changed);
    assert_eq!(reg.error, None);
    let unknown = core.update(Msg::HandleMsg(bv(r#"{"messageType":"presence"}"#)));
    assert!(!unknown.changed);
    assert_eq!(unknown.error, None);
    assert_eq!(core.users().len(), 1);
    assert!(core.messages().is_empty());
}

#[test]
fn malformed_frame_is_isolated_and_core_keeps_going() {
    let (mut core, _) = new_core("alice");
    core.update(Msg::HandleMsg(bv(r#"{"messageType":"users","dataArray":["bob"]}"#)));
    let bad = core.update(Msg::HandleMsg(bv("garbage")));
    assert!(!bad.changed);
    assert_eq!(bad.error, Some(DecodeError::MalformedEnvelope));
    assert_eq!(core.users().len(), 1);
    let bad_payload = core.update(Msg::HandleMsg(bv(
        r#"{"messageType":"message","data":"nope"}"#,
    )));
    assert_eq!(bad_payload.error, Some(DecodeError::MalformedPayload));
    assert!(core.messages().is_empty());
    let good = core.update(Msg::HandleMsg(bv(
        r#"{"messageType":"message","data":"{\"from\":\"bob\",\"message\":\"still here\"}"}"#,
    )));
    assert!(good.changed);
    assert_eq!(core.messages().len(), 1);
}

#[test]
fn phase_goes_active_on_first_inbound_frame() {
    let (mut core, _) = new_core("alice");
    assert_eq!(core.phase(), Phase::Registered);
    core.update(Msg::HandleMsg(bv("garbage")));
    assert_eq!(core.phase(), Phase::Active);
    let (mut other, _) = new_core("bob");
    other.update(Msg::HandleMsg(bv(r#"{"messageType":"users","dataArray":[]}"#)));
    assert_eq!(other.phase(), Phase::Active);
}
