use magnetited::client::Client;
use magnetited::client::ClientState;
use magnetited::server::Store;

#[test]
fn example_scenario_two_keys_one_known() {
    let mut client = Client::new(vec!["a".to_string(), "b".to_string()]);
    let mut server = Store::new();
    server.set("a".to_string(), "1".to_string());

    // The client asks Get("a") under id 0 and Get("b") under id 1.
    let requests = client.tick(2, &Vec::new());
    assert_eq!(requests.len(), 2);

    // The server answers Notification(0, "1") and Notification(1, "NONE").
    let replies = server.drain(&requests);
    assert_eq!(replies.len(), 2);

    // The client consumes both and converges.
    for r in &replies {
        client.on_delivered(r);
    }
    assert!(client.wanted[0].value.as_deref() == Some("1"));
    assert!(client.wanted[1].value.as_deref() == Some("NONE"));
    assert_eq!(client.poll(), ClientState::Converged);
    assert!(!client.wants);
}

#[test]
fn a_fully_seeded_server_converges_the_client_in_one_cycle() {
    let keys = ["k0", "k1", "k2"];
    let mut client = Client::new(keys.iter().map(|k| k.to_string()).collect());
    let mut server = Store::new();
    for (i, k) in keys.iter().enumerate() {
        server.set(k.to_string(), format!("v{}", i));
    }

    let mut inbox: Vec<Vec<u8>> = Vec::new();
    let mut cycles = 0;
    while client.poll() == ClientState::Resolving && cycles < keys.len() {
        let requests = client.tick(2, &inbox);
        inbox = server.drain(&requests);
        cycles += 1;
    }
    // One more tick consumes the last answers without re-asking logic mattering.
    client.tick(2, &inbox);
    assert_eq!(client.poll(), ClientState::Converged);
    for (i, _) in keys.iter().enumerate() {
        assert!(client.wanted[i].value.as_deref() == Some(format!("v{}", i).as_str()));
    }
    assert!(cycles <= keys.len());
}

#[test]
fn out_of_order_and_duplicated_replies_still_converge() {
    let mut client = Client::new(vec!["a".to_string(), "b".to_string()]);
    let mut server = Store::new();
    server.set("a".to_string(), "1".to_string());
    server.set("b".to_string(), "2".to_string());

    let requests = client.tick(2, &Vec::new());
    let mut replies = server.drain(&requests);
    replies.reverse();
    let duplicate = replies[0].clone();
    replies.push(duplicate);

    for r in &replies {
        client.on_delivered(r);
    }
    assert!(client.wanted[0].value.as_deref() == Some("1"));
    assert!(client.wanted[1].value.as_deref() == Some("2"));
    assert_eq!(client.poll(), ClientState::Converged);
}
