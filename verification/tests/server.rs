use magnetited::codec::decode;
use magnetited::codec::encode;
use magnetited::codec::DecodeError;
use magnetited::codec::Message;
use magnetited::codec::MsgType;
use magnetited::server::Store;

#[test]
fn get_returns_the_stored_value() {
    let mut s = Store::new();
    s.set("alpha".to_string(), "1".to_string());
    assert!(s.get(&"alpha".to_string()) == "1");
}

#[test]
fn unknown_key_returns_the_sentinel() {
    let mut s = Store::new();
    assert!(s.get(&"missing".to_string()) == "NONE");

    let get = Message { id: 4, msgtype: MsgType::Get, payload: b"missing".to_vec() };
    let reply = s.handle(&get).unwrap();
    assert_eq!(reply.id, 4);
    assert_eq!(reply.msgtype, MsgType::Notification);
    assert_eq!(reply.payload, b"NONE".to_vec());
}

#[test]
fn set_then_get_resolves_to_the_value() {
    let mut s = Store::new();
    let set = Message { id: 1, msgtype: MsgType::SetValue, payload: b"alpha=42".to_vec() };
    let ack = s.handle(&set).unwrap();
    assert_eq!(ack.id, 1);
    assert_eq!(ack.msgtype, MsgType::Notification);
    assert_eq!(ack.payload, b"Ok".to_vec());

    let get = Message { id: 2, msgtype: MsgType::Get, payload: b"alpha".to_vec() };
    let reply = s.handle(&get).unwrap();
    assert_eq!(reply.id, 2);
    assert_eq!(reply.payload, b"42".to_vec());
}

#[test]
fn last_writer_wins() {
    let mut s = Store::new();
    s.set("k".to_string(), "old".to_string());
    s.set("k".to_string(), "new".to_string());
    assert!(s.get(&"k".to_string()) == "new");
    assert_eq!(s.entries.len(), 1);
}

#[test]
fn set_value_may_contain_the_separator() {
    let mut s = Store::new();
    let set = Message { id: 1, msgtype: MsgType::SetValue, payload: b"eq=a=b".to_vec() };
    assert!(s.handle(&set).is_some());
    assert!(s.get(&"eq".to_string()) == "a=b");
}

#[test]
fn set_without_separator_is_dropped() {
    let mut s = Store::new();
    let set = Message { id: 1, msgtype: MsgType::SetValue, payload: b"nopair".to_vec() };
    assert!(s.handle(&set).is_none());
    assert!(s.entries.is_empty());
}

#[test]
fn invalid_utf8_payloads_are_dropped() {
    let mut s = Store::new();
    let get = Message { id: 1, msgtype: MsgType::Get, payload: vec![0xff] };
    assert!(s.handle(&get).is_none());
    let set = Message { id: 2, msgtype: MsgType::SetValue, payload: vec![0xff, b'=', b'v'] };
    assert!(s.handle(&set).is_none());
    assert!(s.entries.is_empty());
}

#[test]
fn control_and_notification_are_ignored_by_the_server() {
    let mut s = Store::new();
    let control = Message { id: 1, msgtype: MsgType::Control, payload: Vec::new() };
    assert!(s.handle(&control).is_none());
    let notification = Message { id: 2, msgtype: MsgType::Notification, payload: b"x".to_vec() };
    assert!(s.handle(&notification).is_none());
}

#[test]
fn undecodable_bytes_are_a_typed_error() {
    let mut s = Store::new();
    assert_eq!(s.process(&[0u8; 3]), Err(DecodeError::Truncated));
}

#[test]
fn drain_answers_every_request_in_order() {
    let mut s = Store::new();
    s.set("a".to_string(), "1".to_string());
    let delivered = vec![
        encode(&Message { id: 0, msgtype: MsgType::Get, payload: b"a".to_vec() }),
        vec![9, 9],
        encode(&Message { id: 1, msgtype: MsgType::Get, payload: b"b".to_vec() }),
    ];
    let replies = s.drain(&delivered);
    assert_eq!(replies.len(), 2);
    let first = decode(&replies[0]).unwrap();
    assert_eq!(first.id, 0);
    assert_eq!(first.payload, b"1".to_vec());
    let second = decode(&replies[1]).unwrap();
    assert_eq!(second.id, 1);
    assert_eq!(second.payload, b"NONE".to_vec());
}
