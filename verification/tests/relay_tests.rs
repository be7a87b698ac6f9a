use lanchat::host::Host;
use lanchat::relay::{conn_step, ConnAction, ConnEvent, Mailbox, RelayedMessage, SessionDirectory};

fn msg(producer: &str, text: &str) -> RelayedMessage {
    RelayedMessage {
        producer: producer.to_string(),
        text: text.to_string(),
    }
}

#[test]
fn mailbox_is_first_in_first_out() {
    let mut mb = Mailbox::new(10);
    assert!(mb.try_send(msg("a", "one\n")));
    assert!(mb.try_send(msg("a", "two\n")));
    let first = mb.recv().unwrap();
    assert_eq!(first.text, "one\n".to_string());
    assert_eq!(first.producer, "a".to_string());
    assert_eq!(mb.recv().unwrap().text, "two\n".to_string());
    assert!(mb.recv().is_none());
}

#[test]
fn full_mailbox_drops_the_message() {
    let mut mb = Mailbox::new(2);
    assert!(mb.try_send(msg("a", "1")));
    assert!(mb.try_send(msg("a", "2")));
    assert!(!mb.try_send(msg("a", "3")));
    assert_eq!(mb.len(), 2);
    assert!(mb.is_full());
    assert_eq!(mb.recv().unwrap().text, "1".to_string());
    assert_eq!(mb.len(), 1);
}

#[test]
fn registration_is_once_per_address() {
    let mut dir = SessionDirectory::new();
    assert!(dir.register("10.0.0.1:5000".to_string(), 10));
    assert!(!dir.register("10.0.0.1:5000".to_string(), 10));
    assert!(dir.register("10.0.0.2:5000".to_string(), 10));
    assert_eq!(dir.len(), 2);
    assert!(dir.contains(&"10.0.0.1:5000".to_string()));
    assert!(dir.deregister(&"10.0.0.1:5000".to_string()));
    assert!(!dir.deregister(&"10.0.0.1:5000".to_string()));
    assert!(!dir.contains(&"10.0.0.1:5000".to_string()));
    assert_eq!(dir.len(), 1);
}

#[test]
fn fan_out_reaches_everyone_but_the_sender() {
    let a = "127.0.0.1:5001".to_string();
    let b = "127.0.0.1:5002".to_string();
    let c = "127.0.0.1:5003".to_string();
    let mut dir = SessionDirectory::new();
    dir.register(a.clone(), 10);
    dir.register(b.clone(), 10);
    dir.register(c.clone(), 10);

    let dropped = dir.fan_out(&a, &"hello\n".to_string());
    assert_eq!(dropped.len(), 0);

    let got_b = dir.pop_message(&b).unwrap();
    assert_eq!(got_b.text, "hello\n".to_string());
    assert_eq!(got_b.producer, a);
    let got_c = dir.pop_message(&c).unwrap();
    assert_eq!(got_c.text, "hello\n".to_string());
    assert!(dir.pop_message(&a).is_none());
}

#[test]
fn order_from_one_sender_is_preserved() {
    let a = "127.0.0.1:5001".to_string();
    let b = "127.0.0.1:5002".to_string();
    let mut dir = SessionDirectory::new();
    dir.register(a.clone(), 10);
    dir.register(b.clone(), 10);
    dir.fan_out(&a, &"first\n".to_string());
    dir.fan_out(&a, &"second\n".to_string());
    assert_eq!(dir.pop_message(&b).unwrap().text, "first\n".to_string());
    assert_eq!(dir.pop_message(&b).unwrap().text, "second\n".to_string());
}

#[test]
fn full_recipient_is_skipped_but_others_still_receive() {
    let a = "127.0.0.1:5001".to_string();
    let b = "127.0.0.1:5002".to_string();
    let c = "127.0.0.1:5003".to_string();
    let mut dir = SessionDirectory::new();
    dir.register(a.clone(), 10);
    dir.register(b.clone(), 1);
    dir.register(c.clone(), 10);

    let dropped = dir.fan_out(&a, &"one\n".to_string());
    assert_eq!(dropped.len(), 0);
    // b's mailbox (capacity 1) is now full; the next line is dropped for b
    // alone and still reaches c.
    let dropped = dir.fan_out(&a, &"two\n".to_string());
    assert_eq!(dropped, vec![b.clone()]);
    assert_eq!(dir.pop_message(&b).unwrap().text, "one\n".to_string());
    assert!(dir.pop_message(&b).is_none());
    assert_eq!(dir.pop_message(&c).unwrap().text, "one\n".to_string());
    assert_eq!(dir.pop_message(&c).unwrap().text, "two\n".to_string());
}

#[test]
fn two_clients_one_line() {
    // A host serves two clients; client 1 sends "hello"; client 2 receives
    // exactly that line and client 1 receives nothing.
    let mut host = Host::new();
    let c1 = "127.0.0.1:6001".to_string();
    let c2 = "127.0.0.1:6002".to_string();
    host.clients.register(c1.clone(), 10);
    host.clients.register(c2.clone(), 10);

    let act = conn_step(
        &mut host.clients,
        &c1,
        ConnEvent::LineRead {
            line: "hello\n".to_string(),
        },
    );
    match act {
        ConnAction::Relayed { dropped } => assert_eq!(dropped.len(), 0),
        _ => panic!("expected the line to be relayed"),
    }

    let act = conn_step(&mut host.clients, &c2, ConnEvent::PollInbox);
    match act {
        ConnAction::WriteOut { text } => assert_eq!(text, "hello\n".to_string()),
        _ => panic!("expected a pending line for client 2"),
    }
    assert!(matches!(
        conn_step(&mut host.clients, &c2, ConnEvent::PollInbox),
        ConnAction::Continue
    ));
    assert!(matches!(
        conn_step(&mut host.clients, &c1, ConnEvent::PollInbox),
        ConnAction::Continue
    ));
}

#[test]
fn end_of_stream_removes_the_entry_before_any_later_fan_out() {
    let a = "127.0.0.1:7001".to_string();
    let b = "127.0.0.1:7002".to_string();
    let mut dir = SessionDirectory::new();
    dir.register(a.clone(), 10);
    dir.register(b.clone(), 10);

    let act = conn_step(&mut dir, &b, ConnEvent::EndOfStream);
    assert!(matches!(act, ConnAction::Stop));
    assert!(!dir.contains(&b));
    assert_eq!(dir.len(), 1);

    // A line fanned out afterwards cannot reach the departed connection.
    dir.fan_out(&a, &"late\n".to_string());
    assert!(dir.pop_message(&b).is_none());
    assert!(!dir.contains(&b));
}

#[test]
fn read_and_write_errors_also_remove_the_entry() {
    let a = "127.0.0.1:7001".to_string();
    let mut dir = SessionDirectory::new();
    dir.register(a.clone(), 10);
    assert!(matches!(
        conn_step(&mut dir, &a, ConnEvent::ReadError),
        ConnAction::Stop
    ));
    assert!(!dir.contains(&a));

    dir.register(a.clone(), 10);
    assert!(matches!(
        conn_step(&mut dir, &a, ConnEvent::WriteError),
        ConnAction::Stop
    ));
    assert!(!dir.contains(&a));
}
