//! Codec behavior: canonical encodings, the decode round trip, the
//! tolerances decoding grants, and the two error kinds.

use chat_core::codec::ChatMessage;
use chat_core::codec::DecodeError;
use chat_core::codec::Envelope;
use chat_core::codec::MsgTypes;
use chat_core::codec::decode;
use chat_core::codec::decode_chat;
use chat_core::codec::encode;
use chat_core::codec::encode_chat;

fn bv(s: &str) -> Vec<u8> {
    s.as_bytes().to_vec()
}

fn register(name: &str) -> Envelope {
    Envelope::Register(bv(name))
}

fn users(names: &[&str]) -> Envelope {
    Envelope::Users(names.iter().map(|n| bv(n)).collect())
}

fn message(from: &str, text: &str) -> Envelope {
    Envelope::Message(ChatMessage { from: bv(from), message: bv(text) })
}

#[test]
fn encode_register_canonical() {
    let frame = encode(&register("alice"));
    assert_eq!(frame, bv(r#"{"messageType":"register","data":"alice"}"#));
}

#[test]
fn encode_users_canonical() {
    let frame = encode(&users(&["alice", "bob"]));
    assert_eq!(frame, bv(r#"{"messageType":"users","dataArray":["alice","bob"]}"#));
    let empty = encode(&users(&[]));
    assert_eq!(empty, bv(r#"{"messageType":"users","dataArray":[]}"#));
}

#[test]
fn encode_message_canonical() {
    let frame = encode(&message("bob", "hi"));
    assert_eq!(
        frame,
        bv(r#"{"messageType":"message","data":"{\"from\":\"bob\",\"message\":\"hi\"}"}"#),
    );
}

#[test]
fn encode_other_canonical() {
    let frame = encode(&Envelope::Other);
    assert_eq!(frame, bv(r#"{"messageType":"unknown"}"#));
}

#[test]
fn round_trip_register() {
    let e = register("alice");
    assert_eq!(decode(&encode(&e)), Ok(e));
    let empty = register("");
    assert_eq!(decode(&encode(&empty)), Ok(empty));
}

#[test]
fn round_trip_users() {
    for names in [vec![], vec!["alice"], vec!["alice", "bob"], vec!["a", "a", "b"]] {
        let e = users(&names);
        assert_eq!(decode(&encode(&e)), Ok(e));
    }
}

#[test]
fn round_trip_message() {
    let e = message("bob", "hi");
    assert_eq!(decode(&encode(&e)), Ok(e));
    let tricky = message("a\"b\\c", "line1\nline2\ttab\r\u{1}\u{1f}");
    assert_eq!(decode(&encode(&tricky)), Ok(tricky));
}

#[test]
fn round_trip_other() {
    assert_eq!(decode(&encode(&Envelope::Other)), Ok(Envelope::Other));
}

#[test]
fn round_trip_every_byte_in_register_data() {
    let mut data: Vec<u8> = Vec::new();
    let mut b: u8 = 0;
    loop {
        data.push(b);
        if b == 255 {
            break;
        }
        b += 1;
    }
    let e = Envelope::Register(data);
    assert_eq!(decode(&encode(&e)), Ok(e));
}

#[test]
fn decode_absent_optional_fields_read_as_empty() {
    assert_eq!(decode(&bv(r#"{"messageType":"users"}"#)), Ok(users(&[])));
    assert_eq!(decode(&bv(r#"{"messageType":"register"}"#)), Ok(register("")));
}

#[test]
fn decode_null_optional_fields_read_as_empty() {
    assert_eq!(decode(&bv(r#"{"messageType":"users","dataArray":null}"#)), Ok(users(&[])));
    assert_eq!(decode(&bv(r#"{"messageType":"register","data":null}"#)), Ok(register("")));
}

#[test]
fn decode_unknown_fields_tolerated() {
    let frame = bv(r#"{"messageType":"register","data":"x","extra":"y","more":null,"arr":["z"]}"#);
    assert_eq!(decode(&frame), Ok(register("x")));
}

#[test]
fn decode_unknown_kind_is_other() {
    assert_eq!(decode(&bv(r#"{"messageType":"typing"}"#)), Ok(Envelope::Other));
    assert_eq!(decode(&bv(r#"{"messageType":"typing","data":"x"}"#)), Ok(Envelope::Other));
}

#[test]
fn decode_first_occurrence_of_a_field_wins() {
    let frame = bv(r#"{"messageType":"register","data":"a","data":"b"}"#);
    assert_eq!(decode(&frame), Ok(register("a")));
}

#[test]
fn decode_accepts_standard_escapes() {
    let frame = bv(r#"{"messageType":"register","data":"a\/bA\n"}"#);
    assert_eq!(decode(&frame), Ok(register("a/bA\n")));
}

#[test]
fn decode_malformed_envelope() {
    let cases = [
        "",
        "{",
        "not structured",
        "{}",
        r#"{"messageType":123}"#,
        r#"{"messageType":["users"]}"#,
        r#"{"messageType":null}"#,
        r#"{"data":"x"}"#,
        r#"{"messageType":"users","dataArray":"alice"}"#,
        r#"{"messageType":"register","data":["a"]}"#,
        r#"{"messageType":"message","data":["a"]}"#,
        r#"{"messageType":"unknown"}x"#,
        r#" {"messageType":"unknown"}"#,
        r#"{"messageType":"register","data":"a}"#,
        r#"{"messageType":"register","data":"\q"}"#,
    ];
    for c in cases {
        assert_eq!(decode(&bv(c)), Err(DecodeError::MalformedEnvelope), "case: {c}");
    }
}

#[test]
fn decode_malformed_payload() {
    let cases = [
        r#"{"messageType":"message"}"#,
        r#"{"messageType":"message","data":null}"#,
        r#"{"messageType":"message","data":"not an object"}"#,
        r#"{"messageType":"message","data":"{\"from\":\"bob\"}"}"#,
        r#"{"messageType":"message","data":"{\"from\":\"bob\",\"message\":null}"}"#,
    ];
    for c in cases {
        assert_eq!(decode(&bv(c)), Err(DecodeError::MalformedPayload), "case: {c}");
    }
}

#[test]
fn decode_chat_payload_alone() {
    let m = decode_chat(&bv(r#"{"from":"bob","message":"hi","extra":null}"#));
    assert_eq!(m, Some(ChatMessage { from: bv("bob"), message: bv("hi") }));
    assert_eq!(decode_chat(&bv(r#"{"from":"bob"}"#)), None);
    let inner = encode_chat(&ChatMessage { from: bv("x"), message: bv("y\"z") });
    assert_eq!(
        decode_chat(&inner),
        Some(ChatMessage { from: bv("x"), message: bv("y\"z") }),
    );
}

#[test]
fn envelope_kinds() {
    assert_eq!(register("a").kind(), Some(MsgTypes::Register));
    assert_eq!(users(&[]).kind(), Some(MsgTypes::Users));
    assert_eq!(message("a", "b").kind(), Some(MsgTypes::Message));
    assert_eq!(Envelope::Other.kind(), None);
}

#[test]
fn encoded_frames_are_plain_json_to_serde() {
    let frame = encode(&users(&["alice", "bob"]));
    let v: serde_json::Value = serde_json::from_slice(&frame).unwrap();
    assert_eq!(v.get("messageType").unwrap().as_str().unwrap(), "users");
    let arr = v.get("dataArray").unwrap().as_array().unwrap();
    assert_eq!(arr.len(), 2);
    assert_eq!(arr[0].as_str().unwrap(), "alice");
    assert_eq!(arr[1].as_str().unwrap(), "bob");

    let frame = encode(&message("bob", "say \"hi\"\n"));
    let v: serde_json::Value = serde_json::from_slice(&frame).unwrap();
    assert_eq!(v.get("messageType").unwrap().as_str().unwrap(), "message");
    let inner: serde_json::Value =
        serde_json::from_str(v.get("data").unwrap().as_str().unwrap()).unwrap();
    assert_eq!(inner.get("from").unwrap().as_str().unwrap(), "bob");
    assert_eq!(inner.get("message").unwrap().as_str().unwrap(), "say \"hi\"\n");
}

#[test]
fn decode_accepts_fields_in_any_order() {
    let frame = bv(r#"{"dataArray":["alice","bob"],"messageType":"users"}"#);
    assert_eq!(decode(&frame), Ok(users(&["alice", "bob"])));
    let frame = bv(r#"{"data":"{\"message\":\"hi\",\"from\":\"bob\"}","messageType":"message"}"#);
    assert_eq!(decode(&frame), Ok(message("bob", "hi")));
}

#[test]
fn serde_written_frames_decode() {
    let mut obj = serde_json::Map::new();
    obj.insert(
        "messageType".to_string(),
        serde_json::Value::String("register".to_string()),
    );
    obj.insert("data".to_string(), serde_json::Value::String("alice".to_string()));
    obj.insert("dataArray".to_string(), serde_json::Value::Null);
    let text = serde_json::to_string(&serde_json::Value::Object(obj)).unwrap();
    assert_eq!(decode(&text.into_bytes()), Ok(register("alice")));
}
