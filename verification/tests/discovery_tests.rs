use lanchat::client::{render_incoming, Client};
use lanchat::discovery::{
    announce_payload, broadcast_target, endpoint_string, DiscoveredPeerSet, DiscoveryMessage,
};

#[test]
fn payload_is_the_fixed_greeting() {
    assert_eq!(announce_payload(), "Hello from cli broadcaster!".to_string());
}

#[test]
fn endpoint_strings_join_host_and_port() {
    assert_eq!(
        endpoint_string(&"127.0.0.1".to_string(), 9000),
        "127.0.0.1:9000".to_string()
    );
    assert_eq!(broadcast_target(9001), "255.255.255.255:9001".to_string());
}

#[test]
fn discovery_message_keeps_its_parts() {
    let m = DiscoveryMessage::new("10.0.0.2".to_string(), 9000);
    assert_eq!(m.ip, "10.0.0.2".to_string());
    assert_eq!(m.port, 9000);
}

#[test]
fn announcement_from_one_source_is_recorded_once() {
    // A host announcing from 127.0.0.1:9000 is listed after its first
    // datagram; repeats from the same source change nothing.
    let mut set = DiscoveredPeerSet::new();
    assert!(set.record("127.0.0.1".to_string(), 9000));
    assert!(set.contains(&"127.0.0.1".to_string(), 9000));
    assert!(!set.record("127.0.0.1".to_string(), 9000));
    assert!(!set.record("127.0.0.1".to_string(), 9000));
    assert_eq!(set.len(), 1);
}

#[test]
fn distinct_sources_are_each_recorded() {
    let mut set = DiscoveredPeerSet::new();
    assert!(set.record("10.0.0.1".to_string(), 9000));
    assert!(set.record("10.0.0.2".to_string(), 9000));
    assert!(set.record("10.0.0.1".to_string(), 9001));
    assert!(!set.record("10.0.0.2".to_string(), 9000));
    assert_eq!(set.len(), 3);
}

#[test]
fn peers_are_listed_in_discovery_order() {
    let mut set = DiscoveredPeerSet::new();
    set.record("10.0.0.9".to_string(), 9000);
    set.record("10.0.0.3".to_string(), 9000);
    assert_eq!(set.peer_at(0).ip, "10.0.0.9".to_string());
    assert_eq!(set.peer_at(1).ip, "10.0.0.3".to_string());
    assert!(!set.is_empty());
}

#[test]
fn fresh_client_has_no_hosts() {
    let c = Client::new("alice".to_string());
    assert_eq!(c.name, "alice".to_string());
    assert!(c.hosts.is_empty());
}

#[test]
fn incoming_lines_are_trimmed_and_prefixed() {
    assert_eq!(
        render_incoming(&" hello \n".to_string()),
        "> hello".to_string()
    );
    assert_eq!(render_incoming(&"\n".to_string()), "> ".to_string());
}
