use magnetited::codec::decode;
use magnetited::codec::encode;
use magnetited::codec::DecodeError;
use magnetited::codec::Message;
use magnetited::codec::MsgType;

#[test]
fn round_trip_notification() {
    let m = Message { id: 7, msgtype: MsgType::Notification, payload: b"Hello".to_vec() };
    let bytes = encode(&m);
    assert_eq!(decode(&bytes), Ok(m));
}

#[test]
fn round_trip_every_kind() {
    let kinds = [MsgType::Control, MsgType::Notification, MsgType::SetValue, MsgType::Get];
    for (i, kind) in kinds.iter().enumerate() {
        let m = Message { id: i as u64, msgtype: *kind, payload: vec![i as u8; i] };
        let bytes = encode(&m);
        assert_eq!(decode(&bytes), Ok(m));
    }
}

#[test]
fn round_trip_empty_payload() {
    let m = Message { id: u64::MAX, msgtype: MsgType::Get, payload: Vec::new() };
    let bytes = encode(&m);
    assert_eq!(bytes.len(), 9);
    assert_eq!(decode(&bytes), Ok(m));
}

#[test]
fn encoding_is_id_le_then_tag_then_payload() {
    let m = Message { id: 0x0102, msgtype: MsgType::Get, payload: b"k".to_vec() };
    let bytes = encode(&m);
    assert_eq!(bytes, vec![0x02, 0x01, 0, 0, 0, 0, 0, 0, 3, b'k']);
}

#[test]
fn truncated_input_is_a_typed_error() {
    assert_eq!(decode(&[]), Err(DecodeError::Truncated));
    assert_eq!(decode(&[0u8; 8]), Err(DecodeError::Truncated));
}

#[test]
fn unknown_tag_is_a_typed_error() {
    let mut bytes = vec![0u8; 8];
    bytes.push(4);
    assert_eq!(decode(&bytes), Err(DecodeError::UnknownTag));
    bytes[8] = 200;
    assert_eq!(decode(&bytes), Err(DecodeError::UnknownTag));
}

#[test]
fn default_message_is_hello_notification() {
    let m = Message::default();
    assert_eq!(m.id, 0);
    assert_eq!(m.msgtype, MsgType::Notification);
    assert_eq!(m.payload, b"Hello".to_vec());
}
