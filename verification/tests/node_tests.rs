use p2p_node::node::{
    message_is_well_formed, Intervals, MessageAction, Node, PeerTable,
};
use p2p_node::peer::{handshake_message, ping_message, pong_message, Peer, PeerDirection};
use p2p_node::protocols::{Base, Handshake, PeerInfo, ProtoImpl, KIND_PEER_INFO};

fn msg(kind: &str, data: Vec<u8>) -> Vec<u8> {
    Base { kind: kind.to_string(), data }.to_bytes()
}

fn table_with(entries: &[(&str, u16, u64, Option<u32>)]) -> PeerTable<u32> {
    let mut t = PeerTable::new();
    for (ip, port, ts, tx) in entries {
        match tx {
            Some(c) => {
                assert!(Node::register_inbound(&mut t, ip.to_string(), *c, *ts));
                // registering inbound sets port 0; set the port by a handshake
                let hs = msg("HANDSHAKE", Handshake { port: *port as u32 }.to_bytes());
                Node::handle_message(&mut t, &hs, ip, *ts);
            }
            None => {
                let info = msg("PEER_INFO", PeerInfo { port: *port as u32, ip: ip.to_string() }.to_bytes());
                Node::handle_message(&mut t, &info, "seed", *ts);
            }
        }
    }
    t
}

#[test]
fn init_knows_only_the_seed() {
    let n: Node<u32> = Node::init("0.0.0.0".to_string(), 7000, Some(("1.2.3.4".to_string(), 9000)), 42);
    assert_eq!(n.port, 7000);
    assert_eq!(n.peers.len(), 1);
    let p = n.peers.get("1.2.3.4").unwrap();
    assert_eq!((p.port, p.ts, p.direction, p.tx), (9000, 42, PeerDirection::UNKNOWN, None));
    let empty: Node<u32> = Node::init("0.0.0.0".to_string(), 7000, None, 42);
    assert_eq!(empty.peers.len(), 0);
}

#[test]
fn test_message_pauses() {
    let mut t = table_with(&[]);
    assert!(matches!(Node::handle_message(&mut t, &msg("TEST", vec![]), "a", 1), MessageAction::Pause));
    assert_eq!(t.len(), 0);
}

#[test]
fn handshake_records_port_and_broadcasts() {
    let mut t = table_with(&[("a", 1, 1, Some(10)), ("b", 2, 1, Some(11)), ("c", 3, 1, None)]);
    let hs = msg("HANDSHAKE", Handshake { port: 5555 }.to_bytes());
    match Node::handle_message(&mut t, &hs, "a", 9) {
        MessageAction::Broadcast { message, targets } => {
            assert_eq!(targets, vec!["b".to_string()]);
            let b = Base::from_bytes(&message).unwrap();
            assert_eq!(b.kind, KIND_PEER_INFO);
            assert_eq!(PeerInfo::from_bytes(&b.data), Ok(PeerInfo { port: 5555, ip: "a".to_string() }));
        }
        _ => panic!("expected a broadcast"),
    }
    assert_eq!(t.get("a").unwrap().port, 5555);
    assert_eq!(t.get("a").unwrap().ts, 1);
}

#[test]
fn handshake_port_is_truncated_to_16_bits() {
    let mut t = table_with(&[("a", 1, 1, Some(10))]);
    let hs = msg("HANDSHAKE", Handshake { port: 65536 + 80 }.to_bytes());
    Node::handle_message(&mut t, &hs, "a", 2);
    assert_eq!(t.get("a").unwrap().port, 80);
}

#[test]
fn handshake_from_unknown_ip_changes_nothing() {
    let mut t = table_with(&[("a", 1, 1, Some(10))]);
    let hs = msg("HANDSHAKE", Handshake { port: 7 }.to_bytes());
    match Node::handle_message(&mut t, &hs, "z", 2) {
        MessageAction::Broadcast { targets, .. } => assert_eq!(targets, vec!["a".to_string()]),
        _ => panic!("expected a broadcast"),
    }
    assert_eq!(t.len(), 1);
    assert!(t.get("z").is_none());
}

#[test]
fn peer_info_adds_unknown_peers_only() {
    let mut t = table_with(&[("a", 1, 1, Some(10))]);
    let info = msg("PEER_INFO", PeerInfo { port: 4000, ip: "d".to_string() }.to_bytes());
    assert!(matches!(Node::handle_message(&mut t, &info, "a", 5), MessageAction::Nothing));
    let d = t.get("d").unwrap();
    assert_eq!((d.port, d.ts, d.direction, d.tx), (4000, 5, PeerDirection::UNKNOWN, None));
    let again = msg("PEER_INFO", PeerInfo { port: 1, ip: "a".to_string() }.to_bytes());
    Node::handle_message(&mut t, &again, "a", 6);
    assert_eq!(t.get("a").unwrap().port, 1);
    assert_eq!(t.get("a").unwrap().tx, Some(10));
    assert_eq!(t.len(), 2);
}

#[test]
fn ping_is_answered_by_pong_when_connected() {
    let mut t = table_with(&[("a", 1, 1, Some(10)), ("c", 3, 1, None)]);
    match Node::handle_message(&mut t, &ping_message(), "a", 50) {
        MessageAction::Reply(m) => assert_eq!(m, pong_message()),
        _ => panic!("expected a pong"),
    }
    assert_eq!(t.get("a").unwrap().ts, 50);
    assert!(matches!(Node::handle_message(&mut t, &ping_message(), "c", 60), MessageAction::Nothing));
    assert_eq!(t.get("c").unwrap().ts, 60);
    assert!(matches!(Node::handle_message(&mut t, &ping_message(), "x", 70), MessageAction::Nothing));
    assert!(t.get("x").is_none());
}

#[test]
fn pong_refreshes_the_sender() {
    let mut t = table_with(&[("a", 1, 1, Some(10))]);
    assert!(matches!(Node::handle_message(&mut t, &pong_message(), "a", 77), MessageAction::Nothing));
    assert_eq!(t.get("a").unwrap().ts, 77);
}

#[test]
fn unknown_kind_is_reported() {
    let mut t = table_with(&[("a", 1, 1, Some(10))]);
    assert!(matches!(Node::handle_message(&mut t, &msg("HELLO", vec![]), "a", 2), MessageAction::Unknown));
    assert_eq!(t.get("a").unwrap().ts, 1);
}

#[test]
fn well_formedness_check() {
    assert!(message_is_well_formed(&ping_message()));
    assert!(message_is_well_formed(&handshake_message(1)));
    assert!(!message_is_well_formed(&[0xff]));
    assert!(!message_is_well_formed(&msg("HANDSHAKE", vec![0x0a])));
    assert!(!message_is_well_formed(&msg("PEER_INFO", vec![0x12, 1, 0xff])));
    assert!(message_is_well_formed(&msg("OTHER", vec![0xff])));
}

#[test]
fn inbound_registration() {
    let mut t = table_with(&[("c", 3, 1, None)]);
    assert!(Node::register_inbound(&mut t, "c".to_string(), 20, 9));
    let c = t.get("c").unwrap();
    assert_eq!((c.port, c.ts, c.direction, c.tx), (3, 1, PeerDirection::INBOUND, Some(20)));
    assert!(!Node::register_inbound(&mut t, "c".to_string(), 21, 9));
    assert_eq!(t.get("c").unwrap().tx, Some(20));
    assert!(Node::register_inbound(&mut t, "n".to_string(), 22, 9));
    let n = t.get("n").unwrap();
    assert_eq!((n.port, n.ts, n.direction, n.tx), (0, 9, PeerDirection::INBOUND, Some(22)));
}

#[test]
fn outbound_registration_sends_handshake() {
    let mut t = table_with(&[("c", 3, 1, None), ("a", 1, 1, Some(10))]);
    assert_eq!(Node::register_outbound(&mut t, "c", 30, 7000), Some(handshake_message(7000)));
    let c = t.get("c").unwrap();
    assert_eq!((c.direction, c.tx), (PeerDirection::OUTBOUND, Some(30)));
    assert_eq!(Node::register_outbound(&mut t, "a", 31, 7000), None);
    assert_eq!(t.get("a").unwrap().tx, Some(10));
    assert_eq!(Node::register_outbound(&mut t, "q", 32, 7000), None);
    assert!(t.get("q").is_none());
}

#[test]
fn disconnect_forgets() {
    let mut t = table_with(&[("a", 1, 1, Some(10)), ("b", 2, 1, None), ("c", 3, 1, None)]);
    Node::disconnect(&mut t, "a");
    assert!(t.get("a").is_none());
    assert_eq!(t.len(), 2);
    assert!(t.get("b").is_some() && t.get("c").is_some());
    Node::disconnect(&mut t, "zz");
    assert_eq!(t.len(), 2);
}

#[test]
fn ping_target_is_least_recently_heard() {
    let t = table_with(&[("a", 1, 30, Some(10)), ("b", 2, 10, None), ("c", 3, 20, None)]);
    assert_eq!(Node::ping_target(&t).unwrap().port, 2);
    let empty: PeerTable<u32> = PeerTable::new();
    assert!(Node::ping_target(&empty).is_none());
}

#[test]
fn outbound_target_is_unconnected() {
    let t = table_with(&[("a", 1, 30, Some(10)), ("b", 2, 10, None)]);
    assert_eq!(Node::outbound_target(&t), Some(("b".to_string(), 2)));
    let all = table_with(&[("a", 1, 30, Some(10))]);
    assert_eq!(Node::outbound_target(&all), None);
}

#[test]
fn counts_of_peers() {
    let t = table_with(&[("a", 1, 30, Some(10)), ("b", 2, 10, None), ("c", 2, 10, Some(3))]);
    assert_eq!(Node::peer_counts(&t), (2, 3));
    let empty: PeerTable<u32> = PeerTable::new();
    assert_eq!(Node::peer_counts(&empty), (0, 0));
}

#[test]
fn intervals_default_and_parse() {
    assert_eq!(
        Node::<u32>::run_intervals(None, None, None),
        Intervals { outbound: 5, logging: 5, pinging: 300 }
    );
    assert_eq!(
        Node::<u32>::run_intervals(Some("1"), Some("+2"), Some("60")),
        Intervals { outbound: 1, logging: 2, pinging: 60 }
    );
}

#[test]
fn peer_sends_only_when_connected() {
    let connected = Peer { port: 1, ts: 0, direction: PeerDirection::INBOUND, tx: Some(1u32) };
    let idle: Peer<u32> = Peer { port: 1, ts: 0, direction: PeerDirection::UNKNOWN, tx: None };
    assert_eq!(connected.send_ping(), Some(ping_message()));
    assert_eq!(connected.send_pong(), Some(pong_message()));
    assert_eq!(connected.send_handshake(8), Some(handshake_message(8)));
    assert_eq!(idle.send_ping(), None);
    assert_eq!(idle.send_pong(), None);
    assert_eq!(idle.send_handshake(8), None);
}

#[test]
fn entries_list_every_peer() {
    let t = table_with(&[("a", 1, 30, Some(10)), ("b", 2, 10, None)]);
    let mut names: Vec<String> = (0..t.len()).map(|i| t.entry(i).0.clone()).collect();
    names.sort();
    assert_eq!(names, vec!["a".to_string(), "b".to_string()]);
}

#[test]
fn checked_handling_refuses_malformed_messages() {
    let mut t = table_with(&[("a", 1, 1, Some(10))]);
    assert!(Node::handle_message_checked(&mut t, &[0xff], "a", 5).is_none());
    assert_eq!(t.get("a").unwrap().ts, 1);
    let bad_info = msg("PEER_INFO", vec![0x12, 1, 0xff]);
    assert!(Node::handle_message_checked(&mut t, &bad_info, "a", 5).is_none());
    assert_eq!(t.len(), 1);
    match Node::handle_message_checked(&mut t, &pong_message(), "a", 5) {
        Some(MessageAction::Nothing) => {}
        _ => panic!("expected the pong to be handled"),
    }
    assert_eq!(t.get("a").unwrap().ts, 5);
}

#[test]
fn handling_adds_at_most_one_peer_and_keeps_connections() {
    let mut t = table_with(&[("a", 1, 1, Some(10)), ("b", 2, 1, None)]);
    let messages = vec![
        msg("PEER_INFO", PeerInfo { port: 7, ip: "c".to_string() }.to_bytes()),
        msg("PEER_INFO", PeerInfo { port: 8, ip: "a".to_string() }.to_bytes()),
        msg("HANDSHAKE", Handshake { port: 9 }.to_bytes()),
        ping_message(),
        pong_message(),
        msg("TEST", Vec::new()),
        msg("OTHER", Vec::new()),
    ];
    for m in messages {
        let before: Vec<(String, Option<u32>, PeerDirection)> = (0..t.len())
            .map(|i| {
                let (k, p) = t.entry(i);
                (k.clone(), p.tx, p.direction)
            })
            .collect();
        Node::handle_message(&mut t, &m, "a", 9);
        assert!(t.len() <= before.len() + 1);
        for (k, tx, dir) in before {
            let p = t.get(&k).expect("no peer is forgotten");
            assert_eq!((p.tx, p.direction), (tx, dir));
        }
    }
    assert_eq!(t.len(), 3);
}
