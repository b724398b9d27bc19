use rust_chat::client::LoggedInState;
use rust_chat::client::WaitingForConnectionInfoState;
use rust_chat::command::Command;
use rust_chat::command::CommandType as UiCommand;
use rust_chat::command::GatherLoginDataCommand;
use rust_chat::command::LoginCommand;
use rust_chat::connection::ConnectionClosedReason;
use rust_chat::envelope::decode_login;
use rust_chat::envelope::decode_message;
use rust_chat::envelope::encode_login;
use rust_chat::envelope::encode_message;
use rust_chat::envelope::message_from_fields;
use rust_chat::incoming_packet::PacketError;
use rust_chat::server::ChatServer;
use rust_chat::ByteStream;
use rust_chat::Connection;
use rust_chat::ConvertibleToChatResult;
use rust_chat::MesasgeFromUser;
use rust_chat::PacketReceiver;

fn frame(payload: &[u8]) -> Vec<u8> {
    let mut v = (payload.len() as u32).to_be_bytes().to_vec();
    v.extend_from_slice(payload);
    v
}

fn payloads_of(wire: &[u8]) -> Vec<Vec<u8>> {
    let mut stream = ByteStream::new();
    stream.deliver(wire);
    let mut receiver = PacketReceiver::new();
    receiver.advance(&mut stream).expect("receive failed");
    let mut out = Vec::new();
    while let Some(p) = receiver.pop_packet() {
        out.push(p);
    }
    out
}

const HI: &str = r#"{"Type":"MessageFromUser","Data":{"username":"a","text":"hi"}}"#;

#[test]
fn handshake_success_then_broadcast() {
    let mut server = ChatServer::new();
    let a = server.accept_connection("127.0.0.1:5001".to_string());
    let b = server.accept_connection("127.0.0.1:5002".to_string());
    server.deliver(a, &frame(br#"{"username":"a"}"#));
    server.deliver(b, &frame(br#"{"username":"b"}"#));
    let removed = server.tick();
    assert_eq!(removed, vec![false, false]);
    assert!(server.is_established(a));
    assert!(server.is_established(b));

    server.deliver(a, &frame(HI.as_bytes()));
    let removed = server.tick();
    assert_eq!(removed, vec![false, false]);
    let to_a = server.take_written(a);
    let to_b = server.take_written(b);
    assert_eq!(payloads_of(&to_a), vec![HI.as_bytes().to_vec()]);
    assert_eq!(payloads_of(&to_b), vec![HI.as_bytes().to_vec()]);
}

#[test]
fn handshake_failure() {
    let mut server = ChatServer::new();
    let c = server.accept_connection("127.0.0.1:5003".to_string());
    server.deliver(c, &frame(br#"{"user":"a"}"#));
    server.deliver(c, &frame(HI.as_bytes()));
    let removed = server.tick();
    assert_eq!(removed, vec![true]);
    assert_eq!(server.len(), 0);
}

#[test]
fn handshake_reasons() {
    let mut conn = Connection::new("peer".to_string());
    conn.deliver(&frame(b"not json"));
    match conn.receive() {
        Connection::Closed(c) => assert_eq!(c.reason(), ConnectionClosedReason::InvalidHandshakeMessage),
        _ => panic!("Unexpected connection state"),
    }
    let mut conn = Connection::new("peer".to_string());
    conn.deliver(&[0, 0]);
    conn.close_stream();
    match conn.receive() {
        Connection::Closed(c) => assert_eq!(
            c.reason(),
            ConnectionClosedReason::PacketReceiveError(PacketError::StreamClosed)
        ),
        _ => panic!("Unexpected connection state"),
    }
    let mut conn = Connection::new("peer".to_string());
    conn.deliver(&frame(br#"{"username":"zed"}"#));
    conn.deliver(&frame(b"x"));
    match conn.receive() {
        Connection::Established(e) => {
            assert_eq!(e.user_name(), "zed");
            assert_eq!(e.peer_address(), "peer");
            // the bytes after the login frame are read by the session
            let mut conn = Connection::Established(e).receive();
            assert_eq!(conn.take_message(), Some(b"x".to_vec()));
            assert_eq!(conn.take_message(), None);
        }
        _ => panic!("Unexpected connection state"),
    }
}

#[test]
fn partial_login_waits() {
    let mut conn = Connection::new("peer".to_string());
    let login = frame(br#"{"username":"a"}"#);
    conn.deliver(&login[..6]);
    let mut conn = conn.receive();
    assert!(!conn.is_established() && !conn.is_closed());
    conn.deliver(&login[6..]);
    let conn = conn.receive();
    assert!(conn.is_established());
}

#[test]
fn bad_envelopes_are_dropped() {
    let mut server = ChatServer::new();
    let a = server.accept_connection("x".to_string());
    server.deliver(a, &frame(br#"{"username":"a"}"#));
    server.tick();
    server.deliver(a, &frame(b"garbage"));
    server.deliver(a, &frame(br#"{"Type":"Other","Data":{"username":"a","text":"t"}}"#));
    server.deliver(a, &frame(br#"{"Type":"MessageFromUser","Data":{"username":"a"}}"#));
    server.deliver(a, &frame(HI.as_bytes()));
    let removed = server.tick();
    assert_eq!(removed, vec![false]);
    assert_eq!(payloads_of(&server.take_written(a)), vec![HI.as_bytes().to_vec()]);
}

#[test]
fn messages_keep_dispatch_order() {
    let mut server = ChatServer::new();
    let a = server.accept_connection("a".to_string());
    let b = server.accept_connection("b".to_string());
    server.deliver(a, &frame(br#"{"username":"a"}"#));
    server.deliver(b, &frame(br#"{"username":"b"}"#));
    server.tick();
    let m = |u: &str, t: &str| {
        encode_message(&MesasgeFromUser { username: u.to_string(), text: t.to_string() }).into_bytes()
    };
    server.deliver(a, &frame(&m("a", "1")));
    server.deliver(a, &frame(&m("a", "2")));
    server.deliver(b, &frame(&m("b", "3")));
    server.tick();
    let expected = vec![m("a", "1"), m("a", "2"), m("b", "3")];
    assert_eq!(payloads_of(&server.take_written(a)), expected);
    assert_eq!(payloads_of(&server.take_written(b)), expected);
}

#[test]
fn closed_peer_is_reaped() {
    let mut server = ChatServer::new();
    let a = server.accept_connection("a".to_string());
    let b = server.accept_connection("b".to_string());
    server.deliver(a, &frame(br#"{"username":"a"}"#));
    server.deliver(b, &frame(br#"{"username":"b"}"#));
    server.tick();
    server.close_stream(a);
    let removed = server.tick();
    assert_eq!(removed, vec![true, false]);
    assert_eq!(server.len(), 1);
    assert!(server.is_established(0));
}

#[test]
fn envelope_text_is_exact() {
    let msg = MesasgeFromUser { username: "a".to_string(), text: "hi".to_string() };
    assert_eq!(encode_message(&msg), HI);
    let quoted = MesasgeFromUser { username: "q\"x".to_string(), text: "line\nnext".to_string() };
    assert_eq!(
        encode_message(&quoted),
        r#"{"Type":"MessageFromUser","Data":{"username":"q\"x","text":"line\nnext"}}"#
    );
    assert_eq!(encode_login("a"), br#"{"username":"a"}"#.to_vec());
}

#[test]
fn envelope_decoding() {
    let m = decode_message(HI.as_bytes()).expect("a message");
    assert_eq!(m.username, "a");
    assert_eq!(m.text, "hi");
    let m = decode_message(br#"{"Data":{"text":"t\"q","username":"u"},"Type":"MessageFromUser"}"#).expect("a message");
    assert_eq!(m.username, "u");
    assert_eq!(m.text, "t\"q");
    assert!(decode_message(br#"{"Type":"MessageFromUser","Data":{"username":1,"text":"t"}}"#).is_none());
    assert!(decode_message(b"[1,2]").is_none());
    assert_eq!(decode_login(br#"{"username":"bob","extra":3}"#), Some("bob".to_string()));
    assert_eq!(decode_login(br#"{"user":"a"}"#), None);
    assert!(message_from_fields(Some("MessageFromUser".to_string()), Some("u".to_string()), Some("t".to_string())).is_some());
    assert!(message_from_fields(Some("Other".to_string()), Some("u".to_string()), Some("t".to_string())).is_none());
    assert!(message_from_fields(Some("MessageFromUser".to_string()), None, Some("t".to_string())).is_none());
}

#[test]
fn client_session() {
    let mut session = LoggedInState::new("a".to_string());
    session.tick().expect("tick failed");
    assert!(session.all_sent());
    let wire = session.stream_mut().take_written();
    assert_eq!(payloads_of(&wire), vec![br#"{"username":"a"}"#.to_vec()]);

    session.set_input("hi".to_string());
    session.send_message();
    session.send_message();
    session.stream_mut().deliver(&frame(HI.as_bytes()));
    session.stream_mut().deliver(&frame(b"noise"));
    session.tick().expect("tick failed");
    assert_eq!(payloads_of(&session.stream_mut().take_written()), vec![HI.as_bytes().to_vec()]);
    let got = session.received_messages();
    assert_eq!(got.len(), 1);
    assert_eq!(got[0].username, "a");
    assert_eq!(got[0].text, "hi");

    session.stream_mut().close();
    assert!(session.tick().is_err());
}

#[test]
fn default_server_address() {
    assert_eq!(WaitingForConnectionInfoState::new().address, "127.0.0.1:8787");
}

#[test]
fn ui_commands() {
    let login = LoginCommand::new("a".to_string());
    assert_eq!(login.get_type(), UiCommand::Login);
    assert_eq!(login.to_json(), r#"{"username":"a"}"#);
    let gather = GatherLoginDataCommand {};
    assert_eq!(gather.get_type(), UiCommand::GatherLoginData);
    assert_eq!(gather.to_json(), "{}");
}

#[test]
fn chat_result_conversion() {
    let ok: Result<u8, String> = Ok(3);
    assert_eq!(ok.to_chat_result().ok(), Some(3));
    let err: Result<u8, String> = Err("boom".to_string());
    assert!(err.to_chat_result().unwrap_err().0.contains("boom"));
}

#[test]
fn control_characters_are_escaped() {
    let msg = MesasgeFromUser { username: "t\u{1}b".to_string(), text: "a\tb\\c\u{7f}é".to_string() };
    assert_eq!(
        encode_message(&msg),
        "{\"Type\":\"MessageFromUser\",\"Data\":{\"username\":\"t\\u0001b\",\"text\":\"a\\tb\\\\c\u{7f}é\"}}"
    );
}
