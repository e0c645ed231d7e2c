use magnetited::client::Client;
use magnetited::client::ClientState;
use magnetited::client::DeliverOutcome;
use magnetited::client::NotifyOutcome;
use magnetited::codec::decode;
use magnetited::codec::encode;
use magnetited::codec::Message;
use magnetited::codec::MsgType;

fn client_ab() -> Client {
    Client::new(vec!["a".to_string(), "b".to_string()])
}

#[test]
fn default_client_wants_the_configservice_keys() {
    let mut c = Client::default();
    assert_eq!(c.id, 0);
    assert!(c.wants);
    assert_eq!(c.wanted.len(), 3);
    assert!(c.wanted[0].key == "configservice.address");
    assert!(c.wanted[1].key == "configservice.port");
    assert!(c.wanted[2].key == "configservice.user");
    assert!(c.wanted.iter().all(|e| e.value.is_none()));
    assert!(c.mapping.is_empty());
    assert_eq!(c.poll(), ClientState::Resolving);
}

#[test]
fn ask_all_mints_fresh_monotone_ids() {
    let mut c = client_ab();
    let out = c.ask_all();
    assert_eq!(out.len(), 2);
    assert_eq!(c.id, 2);
    assert_eq!(c.mapping.len(), 2);
    assert_eq!(c.mapping[0].id, 0);
    assert!(c.mapping[0].key == "a");
    assert_eq!(c.mapping[1].id, 1);
    assert!(c.mapping[1].key == "b");

    let first = decode(&out[0]).unwrap();
    assert_eq!(first.id, 0);
    assert_eq!(first.msgtype, MsgType::Get);
    assert_eq!(first.payload, b"a".to_vec());
    let second = decode(&out[1]).unwrap();
    assert_eq!(second.id, 1);
    assert_eq!(second.payload, b"b".to_vec());
}

#[test]
fn reasking_uses_new_ids_for_the_same_keys() {
    let mut c = client_ab();
    c.ask_all();
    let out = c.ask_all();
    assert_eq!(out.len(), 2);
    assert_eq!(c.id, 4);
    assert_eq!(c.mapping.len(), 4);
    assert_eq!(c.mapping[2].id, 2);
    assert!(c.mapping[2].key == "a");
    assert_eq!(c.mapping[3].id, 3);
    assert!(c.mapping[3].key == "b");
}

#[test]
fn notification_resolves_the_correlated_key() {
    let mut c = client_ab();
    c.ask_all();
    let r = c.on_notification(0, b"value42".to_vec());
    assert_eq!(r, NotifyOutcome::Resolved);
    assert!(c.wanted[0].value.as_deref() == Some("value42"));
    assert!(c.wanted[1].value.is_none());
    // the consumed entry leaves the correlation table
    assert_eq!(c.mapping.len(), 1);
    assert_eq!(c.mapping[0].id, 1);
}

#[test]
fn unknown_id_notification_is_a_no_op() {
    let mut c = client_ab();
    c.ask_all();
    let r = c.on_notification(99, b"zzz".to_vec());
    assert_eq!(r, NotifyOutcome::UnknownId);
    assert!(c.wanted[0].value.is_none());
    assert!(c.wanted[1].value.is_none());
    assert_eq!(c.mapping.len(), 2);
}

#[test]
fn duplicate_notification_keeps_the_correct_value() {
    let mut c = client_ab();
    c.ask_all();
    assert_eq!(c.on_notification(0, b"1".to_vec()), NotifyOutcome::Resolved);
    // the id is stale once consumed: the duplicate is discarded as unknown
    assert_eq!(c.on_notification(0, b"1".to_vec()), NotifyOutcome::UnknownId);
    assert!(c.wanted[0].value.as_deref() == Some("1"));
    assert!(c.wanted[1].value.is_none());
}

#[test]
fn invalid_utf8_payload_is_discarded() {
    let mut c = client_ab();
    c.ask_all();
    let r = c.on_notification(0, vec![0xff, 0xfe]);
    assert_eq!(r, NotifyOutcome::BadPayload);
    assert!(c.wanted[0].value.is_none());
    // an unconsumed entry stays in the table
    assert_eq!(c.mapping.len(), 2);
}

#[test]
fn other_roles_traffic_is_ignored() {
    let mut c = client_ab();
    let get = Message { id: 5, msgtype: MsgType::Get, payload: b"a".to_vec() };
    assert_eq!(c.on_delivered(&encode(&get)), DeliverOutcome::Ignored);
    let control = Message { id: 6, msgtype: MsgType::Control, payload: Vec::new() };
    assert_eq!(c.on_delivered(&encode(&control)), DeliverOutcome::Ignored);
    assert!(c.wanted.iter().all(|e| e.value.is_none()));
}

#[test]
fn undecodable_delivery_is_reported_not_fatal() {
    let mut c = client_ab();
    assert_eq!(c.on_delivered(&[1, 2, 3]), DeliverOutcome::Undecodable);
}

#[test]
fn gate_suppresses_asking_below_two_peers() {
    let mut c = client_ab();
    let out = c.tick(1, &Vec::new());
    assert!(out.is_empty());
    assert!(c.mapping.is_empty());
    assert_eq!(c.id, 0);

    let out = c.tick(2, &Vec::new());
    assert_eq!(out.len(), 2);
}

#[test]
fn converged_client_never_asks_again() {
    let mut c = client_ab();
    c.ask_all();
    c.on_notification(0, b"x".to_vec());
    c.on_notification(1, b"y".to_vec());
    assert_eq!(c.poll(), ClientState::Converged);
    assert!(!c.wants);
    let out = c.tick(2, &Vec::new());
    assert!(out.is_empty());
}
