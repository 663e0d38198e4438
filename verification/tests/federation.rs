use hot_potato::federation::{forward_params, Peer, Peers, MAX_HOPS};
use hot_potato::message::{Message, MsgType};

fn fleet() -> Peer {
    Peer {
        name: "fleet".into(),
        url: "http://203.0.113.10:8081".into(),
        token: "t2".into(),
        agents: vec!["patricia".into(), "diana".into(), "victoria".into(), "isabella".into()],
    }
}

#[test]
fn parses_peer_config() {
    let p = Peers::from_entries(vec![fleet()]).unwrap();
    assert_eq!(p.len(), 1);
    assert!(!p.is_empty());
}

#[test]
fn empty_config_is_no_federation() {
    let p = Peers::from_entries(Vec::new()).unwrap();
    assert!(p.is_empty());
    assert!(Peers::empty().is_empty());
    assert!(Peers::default().is_empty());
}

#[test]
fn rejects_incomplete_peer_entry() {
    let bad = Peer { name: "x".into(), url: String::new(), token: String::new(), agents: Vec::new() };
    let err = Peers::from_entries(vec![fleet(), bad]).unwrap_err();
    assert_eq!(err, "HOT_POTATO_PEERS: peer `x` needs name, url and a non-empty agents list");
}

#[test]
fn resolves_remote_agents_only() {
    let p = Peers::from_entries(vec![fleet()]).unwrap();
    assert!(p.claims("patricia"));
    assert_eq!(p.resolve("patricia").unwrap().name(), "fleet");
    assert!(!p.claims("anastasia"));
    assert!(p.resolve("anastasia").is_none());
}

#[test]
fn forward_refuses_hops_over_limit() {
    let mut letter = Message::new("anastasia", "diana", MsgType::Task, "s", "b", None);
    letter.hops = MAX_HOPS;
    let err = forward_params(&letter, "sho").unwrap_err();
    assert!(err.contains("hop limit"));
    assert_eq!(err, "hop limit 2 reached (path: ?)");
}

#[test]
fn forward_adds_a_hop_and_names_this_pool() {
    let mut letter = Message::new("anastasia", "diana", MsgType::AckOnly, "s", "b", Some("r1".into()));
    letter.hops = 1;
    let p = forward_params(&letter, "sho").unwrap();
    assert_eq!(p.hops, 2);
    assert_eq!(p.forwarded_from, "sho");
    assert_eq!(p.msg_type, "ack_only");
    assert_eq!(hot_potato::server::parse_msg_type(&p.msg_type), MsgType::AckOnly);
    assert_eq!(p.ref_id.as_deref(), Some("r1"));
    assert_eq!((p.sender.as_str(), p.receiver.as_str()), ("anastasia", "diana"));
}

#[test]
fn the_first_peer_claiming_an_agent_wins() {
    let mut other = fleet();
    other.name = "second".into();
    let p = Peers::from_entries(vec![fleet(), other]).unwrap();
    assert_eq!(p.resolve("diana").unwrap().name(), "fleet");
    assert_eq!(p.all().len(), 2);
    assert_eq!(p.clone().len(), 2);
    assert!(fleet().contains("isabella"));
}

#[test]
fn a_letter_crosses_at_most_two_links() {
    let mut letter = Message::new("anastasia", "diana", MsgType::Task, "s", "b", None);
    let mut links = 0;
    while let Ok(p) = forward_params(&letter, "ring") {
        letter.hops = p.hops;
        letter.forwarded_from = Some(p.forwarded_from);
        links += 1;
        assert!(links <= 10, "the ring must stop");
    }
    assert_eq!(links, 2);
    assert_eq!(forward_params(&letter, "ring").unwrap_err(), "hop limit 2 reached (path: ring)");
}
