use chat_hub::client_message::{
    CreateRoom, JoinRoom, JoinUser, LeaveRoom, LeaveUser, Login, Message,
};
use chat_hub::{decode_client, encode_client, encode_server, ClientMessage, DecodeError, ServerMessage};

fn envelope(topic: &str, message: Option<Message>) -> ClientMessage {
    ClientMessage { topic: topic.into(), message }
}

#[test]
fn encode() {
    println!("encode run");
    let message = ClientMessage {
        topic: "a".into(),
        message: Some(Message::SendMessage("hello world".into())),
    };
    let x: String = encode_client(&message);
    assert_eq!(r#"{"topic":"a","message":{"send_message":"hello world"}}"#, &x);

    let message = ClientMessage {
        topic: "".into(),
        message: Some(Message::Login(Login { name: "hello world".into() })),
    };
    let x: String = encode_client(&message);
    assert_eq!(r#"{"topic":"","message":{"login":{"name":"hello world"}}}"#, &x);

    let message = ClientMessage {
        topic: "room1".into(),
        message: Some(Message::JoinRoom(JoinRoom {})),
    };
    let x: String = encode_client(&message);
    assert_eq!(r#"{"topic":"room1","message":{"join_room":{}}}"#, &x);
}

#[test]
fn decode() {
    let data = r#"{"topic":"a","message":{"send_message":"hello world"}}"#;
    let result: ClientMessage = decode_client(data).unwrap();
    assert_eq!(
        ClientMessage {
            topic: "a".into(),
            message: Some(Message::SendMessage("hello world".into())),
        },
        result
    );
}

#[test]
fn decode_then_encode_gives_the_same_text() {
    let data = r#"{"topic":"a","message":{"send_message":"hello world"}}"#;
    let m = decode_client(data).unwrap();
    assert_eq!(encode_client(&m), data);
}

#[test]
fn round_trip_every_command() {
    let all = vec![
        envelope("t", None),
        envelope("", Some(Message::Login(Login { name: "bob".into() }))),
        envelope("room1", Some(Message::JoinRoom(JoinRoom {}))),
        envelope("bob", Some(Message::JoinUser(JoinUser {}))),
        envelope("new", Some(Message::CreateRoom(CreateRoom {}))),
        envelope("room1", Some(Message::LeaveRoom(LeaveRoom {}))),
        envelope("bob", Some(Message::LeaveUser(LeaveUser {}))),
        envelope("room1", Some(Message::SendMessage("hi \"there\" \\ \n\t\u{1}\u{8}\u{c}\r é".into()))),
    ];
    for m in all {
        let text = encode_client(&m);
        let back = decode_client(&text).unwrap();
        assert_eq!(back, m);
        assert_eq!(encode_client(&back), text);
    }
}

#[test]
fn encode_escapes_like_json() {
    let m = envelope("q\"t", Some(Message::SendMessage("a\\b\nc\u{1f}d\u{8}".into())));
    assert_eq!(
        encode_client(&m),
        r#"{"topic":"q\"t","message":{"send_message":"a\\b\nc\u001fd\b"}}"#
    );
}

#[test]
fn encode_empty_command_as_null() {
    assert_eq!(encode_client(&envelope("x", None)), r#"{"topic":"x","message":null}"#);
}

#[test]
fn decode_rejects_malformed_text() {
    let bad = [
        "",
        "{}",
        "not json",
        r#"{"topic":"a","message":{"send_message":"unterminated}}"#,
        r#"{"topic":"a","message":{"unknown":{}}}"#,
        r#"{"topic":"a","message":{"join_room":{}}} "#,
        r#"{"topic":"a","message":{"send_message":"\u0041"}}"#,
        r#"{"topic":"a","message":{"send_message":"\u000a"}}"#,
        "{\"topic\":\"a\u{1}\",\"message\":null}",
        r#"{"topic":"a","message":{"send_message":"\q"}}"#,
    ];
    for b in bad.iter() {
        assert_eq!(decode_client(b), Err(DecodeError), "{}", b);
    }
}

#[test]
fn decode_reads_escapes() {
    let m = decode_client(r#"{"topic":"a","message":{"login":{"name":"x\"y\u0001\\"}}}"#).unwrap();
    assert_eq!(m, envelope("a", Some(Message::Login(Login { name: "x\"y\u{1}\\".into() }))));
}

#[test]
fn encode_server_message() {
    let m = ServerMessage { topic: "topic_id".into(), sequence: 1, message: Some("xxx".into()) };
    assert_eq!(encode_server(&m), r#"{"topic":"topic_id","sequence":1,"message":"xxx"}"#);
    let m = ServerMessage { topic: "t".into(), sequence: u64::MAX, message: None };
    assert_eq!(
        encode_server(&m),
        r#"{"topic":"t","sequence":18446744073709551615,"message":null}"#
    );
    let m = ServerMessage { topic: "t".into(), sequence: 120, message: Some("\"".into()) };
    assert_eq!(encode_server(&m), r#"{"topic":"t","sequence":120,"message":"\""}"#);
}

#[test]
fn get_message_string_of_send_message_only() {
    let m = envelope("a", Some(Message::SendMessage("hello".into())));
    assert_eq!(m.get_message_string(), Some("hello".to_string()));
    let m = envelope("a", Some(Message::JoinRoom(JoinRoom {})));
    assert_eq!(m.get_message_string(), None);
    assert_eq!(envelope("a", None).get_message_string(), None);
}

#[test]
fn convert_err_keeps_the_message() {
    let e = chat_hub::convert_err(std::fmt::Error);
    assert_eq!(e.to_string(), std::fmt::Error.to_string());
}

#[test]
fn server_round_trip() {
    let all = vec![
        ServerMessage { topic: "topic_id".into(), sequence: 1, message: Some("xxx".into()) },
        ServerMessage { topic: "".into(), sequence: 0, message: None },
        ServerMessage { topic: "r\"\\".into(), sequence: u64::MAX, message: Some("a\nb\u{2}".into()) },
        ServerMessage { topic: "t".into(), sequence: 1000, message: Some("".into()) },
    ];
    for m in all {
        let text = encode_server(&m);
        assert_eq!(chat_hub::decode_server(&text), Ok(m));
    }
}

#[test]
fn decode_server_rejects_malformed_text() {
    let bad = [
        r#"{"topic":"t","sequence":01,"message":null}"#,
        r#"{"topic":"t","sequence":18446744073709551616,"message":null}"#,
        r#"{"topic":"t","sequence":-1,"message":null}"#,
        r#"{"topic":"t","sequence":,"message":null}"#,
        r#"{"topic":"t","sequence":1,"message":nul}"#,
        r#"{"topic":"t","sequence":1,"message":"x"} "#,
        r#"{"topic":"t","message":"x","sequence":1}"#,
    ];
    for b in bad.iter() {
        assert_eq!(chat_hub::decode_server(b), Err(DecodeError), "{}", b);
    }
}

#[test]
fn decode_server_reads_exact_values() {
    let m = chat_hub::decode_server(r#"{"topic":"room","sequence":42,"message":"hi"}"#).unwrap();
    assert_eq!(m, ServerMessage { topic: "room".into(), sequence: 42, message: Some("hi".into()) });
}
