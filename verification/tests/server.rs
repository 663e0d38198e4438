use hot_potato::bus::Role;
use hot_potato::deliver::DeliverVia;
use hot_potato::error::BusError;
use hot_potato::federation::{Peer, Peers};
use hot_potato::handshake::DynamicPeers;
use hot_potato::message::{Message, MessageStatus, MsgType};
use hot_potato::server::{
    admit_federated,
    bearer_matches, deliver_via_from, fifo_last, forward_failed_text, inbound_check,
    list_letters, merge_peers, missing_param_text, parse_msg_type, parse_role, render_log, request_authorized,
    poll_agent, route_peer, send_route, thread_of, unknown_method_text, SendRoute, ServerConfig,
};
use hot_potato::sweeper::NANOS_PER_SEC;

fn config(token: Option<&str>) -> ServerConfig {
    ServerConfig::with_settings(
        Some("test".into()),
        Some("d".into()),
        Some("http://test".into()),
        "0.1.0".into(),
        token.map(|t| t.to_string()),
        Peers::empty(),
        Some("test".into()),
    )
}

#[test]
fn agent_card_is_served() {
    let card = config(None).agent_card();
    assert_eq!(card.protocol_version, "1.0");
    assert_eq!(card.skills.len(), 4);
    assert_eq!(card.url, "http://test");
    assert_eq!(card.skills[0].id, "bus-send");
    assert_eq!(card.skills[3].tags, ["bus", "status"]);
    assert!(card.capabilities.state_transition_history && !card.capabilities.streaming);
    assert_eq!(card.default_input_modes, ["application/json"]);
}

#[test]
fn unset_settings_take_their_defaults() {
    let c = ServerConfig::with_settings(None, None, None, "1.3.0".into(), None, Peers::empty(), None);
    assert_eq!(c.name, "hot-potato");
    assert_eq!(c.description, "EventMessageBus for AI agents - a mailbox with a state machine");
    assert_eq!(c.public_url, "http://localhost:8080");
    assert_eq!(c.pool_name, "local");
    assert!(c.bearer_token.is_none());
}

#[test]
fn bearer_token_rejects_when_set() {
    let cfg = config(Some("secret"));
    assert!(!request_authorized(&cfg.bearer_token, Some("Bearer wrong")));
    assert!(!request_authorized(&cfg.bearer_token, None));
    assert!(request_authorized(&cfg.bearer_token, Some("Bearer secret")));
    assert!(request_authorized(&None, None));
    assert!(!bearer_matches("secret", Some("bearer secret")));
}

#[test]
fn parameters_read_as_the_endpoint_reads_them() {
    assert_eq!(parse_role("pm"), Role::Pm);
    assert_eq!(parse_role("PM"), Role::Worker);
    assert_eq!(parse_msg_type("reply"), MsgType::Reply);
    assert_eq!(parse_msg_type("broadcast"), MsgType::Broadcast);
    assert_eq!(parse_msg_type("ack_only"), MsgType::AckOnly);
    assert_eq!(parse_msg_type("whatever"), MsgType::Task);
    assert!(matches!(deliver_via_from(Some("a2a"), Some("http://a")), DeliverVia::A2a { ref url } if url == "http://a"));
    assert!(matches!(deliver_via_from(Some("webhook"), None), DeliverVia::Webhook { ref url } if url.is_empty()));
    assert!(matches!(deliver_via_from(Some("relay"), Some("http://r")), DeliverVia::Relay { .. }));
    assert!(matches!(deliver_via_from(Some("carrier pigeon"), Some("x")), DeliverVia::Poll));
    assert!(matches!(deliver_via_from(None, Some("x")), DeliverVia::Poll));
}

#[test]
fn federation_inbound_requires_token_and_envelope() {
    assert_eq!(
        inbound_check(true, false, Some(1), true, "fleet").unwrap_err(),
        "federated send requires the pool bearer token"
    );
    assert!(inbound_check(true, true, Some(0), true, "fleet").unwrap_err().contains("hops"));
    assert!(inbound_check(true, true, None, true, "fleet").unwrap_err().contains("hops"));
    assert!(inbound_check(false, false, Some(1), false, "fleet").unwrap_err().contains("forwarded_from"));
    assert_eq!(inbound_check(true, true, Some(1), true, "fleet"), Ok(1));
    assert_eq!(inbound_check(false, false, Some(2), true, "fleet"), Ok(2));
}

#[test]
fn federation_inbound_hops_over_limit_rejected() {
    assert_eq!(inbound_check(true, true, Some(9), true, "fleet").unwrap_err(), "hop limit 2 exceeded (from pool `fleet`)");
    // a count past a byte is refused too, never wrapped
    assert!(inbound_check(true, true, Some(258), true, "fleet").unwrap_err().contains("hop limit"));
    assert!(inbound_check(true, true, Some(u64::MAX), true, "fleet").is_err());
}

fn aged(subject: &str, age_secs: i64, now: i128) -> Message {
    let mut m = Message::new("patricia", "anastasia", MsgType::AckOnly, subject, "x", None);
    m.created_at = now - (age_secs as i128) * NANOS_PER_SEC;
    m
}

#[test]
fn freshness_window_matrix() {
    let now = hot_potato::message::now_nanos();
    let all: Vec<Message> =
        [10i64, 70, 300, 900, 3000, 10800].iter().rev().map(|a| aged(&format!("age-{a}"), *a, now)).collect();
    let cases: Vec<(Option<i64>, usize)> =
        vec![(None, 6), (Some(0), 0), (Some(30), 1), (Some(60), 1), (Some(120), 2), (Some(3600), 5), (Some(7200), 5), (Some(86400), 6)];
    for (window, expect) in cases {
        let got = list_letters(&all, None, window, 0, now).len();
        assert_eq!(got, expect, "window {:?}: expected {} letters, got {}", window, expect, got);
    }
    let res = list_letters(&all, None, Some(3600), 0, now);
    let subjects: Vec<String> = res.iter().map(|l| l.subject.clone()).collect();
    assert!(subjects.contains(&"age-900".to_string()));
    assert!(!subjects.contains(&"age-10800".to_string()));
    assert_eq!(list_letters(&all, Some("queued"), Some(120), 0, now).len(), 2);
}

#[test]
fn message_list_is_read_only_observer_view() {
    let now = 100 * NANOS_PER_SEC;
    let mut a = aged("one", 5, now);
    let b = aged("two", 1, now);
    a.status = MessageStatus::Delivered;
    let all = vec![a.clone(), b];
    assert_eq!(list_letters(&all, None, None, 0, now).len(), 2);
    assert_eq!(list_letters(&all, Some("queued"), None, 0, now).len(), 1);
    let delivered = list_letters(&all, Some("Delivered"), None, 0, now);
    assert_eq!(delivered.len(), 1);
    assert_eq!(delivered[0].id, a.id);
    // the newest window
    let last = list_letters(&all, None, None, 1, now);
    assert_eq!(last[0].subject, "two");
}

#[test]
fn fifo_last_keeps_the_newest() {
    let mut v: Vec<Message> = (0..5).map(|i| aged(&format!("m{i}"), 10 - i, 100 * NANOS_PER_SEC)).collect();
    fifo_last(&mut v, 0);
    assert_eq!(v.len(), 5);
    fifo_last(&mut v, 2);
    assert_eq!(v.iter().map(|m| m.subject.as_str()).collect::<Vec<_>>(), ["m3", "m4"]);
    fifo_last(&mut v, 7);
    assert_eq!(v.len(), 2);
}

fn thread_letters() -> (Vec<Message>, String, String, String) {
    let root = Message::with_identity("root".into(), 1, "patricia", "diana", MsgType::Task, "root", "b", None);
    let r1 = Message::with_identity("r1".into(), 2, "diana", "patricia", MsgType::Reply, "re: root", "b", Some("root".into()));
    let r2 =
        Message::with_identity("r2".into(), 3, "patricia", "diana", MsgType::Reply, "re: re: root", "b", Some("r1".into()));
    let stray = Message::with_identity("stray".into(), 4, "victoria", "patricia", MsgType::Task, "unrelated", "b", None);
    (vec![root, r1, r2, stray], "root".into(), "r1".into(), "stray".into())
}

#[test]
fn thread_query_walks_ref_chain_from_any_member() {
    let (all, root, r1, _stray) = thread_letters();
    for anchor in [&root, &r1] {
        let arr = thread_of(&all, anchor).unwrap();
        assert_eq!(arr.len(), 3, "anchor={}", anchor);
        assert_eq!(arr[0].subject, "root");
        assert_eq!(arr[1].subject, "re: root");
        assert_eq!(arr[2].subject, "re: re: root");
        assert!(arr[0].created_at < arr[1].created_at);
    }
}

#[test]
fn thread_query_excludes_unrelated_and_errors_on_missing() {
    let (all, root, _r1, stray) = thread_letters();
    let ids: Vec<String> = thread_of(&all, &root).unwrap().iter().map(|m| m.id.clone()).collect();
    assert!(!ids.contains(&stray));
    let err = thread_of(&all, "does-not-exist").unwrap_err();
    assert!(matches!(err, BusError::NotFound(_)));
    assert!(err.describe().contains("not found"));
}

#[test]
fn log_page_renders_plain_text() {
    let m = Message::with_identity("abc".into(), 1, "patricia", "diana", MsgType::AckOnly, "hello log", "b", None);
    let text = render_log(&[m], 50);
    assert!(text.contains("hello log"), "log page missing subject: {text}");
    assert!(text.contains("patricia"));
    let lines: Vec<&str> = text.lines().collect();
    assert_eq!(lines[0], "\u{1f954} hot-potato lifecycle log");
    assert_eq!(lines[2], "status sender     receiver   type        id                         subject");
    assert_eq!(lines[3], "-".repeat(90));
    assert_eq!(lines[4], "queued patricia   diana      ackonly     abc                        hello log");
    assert!(text.ends_with("\n1 letters shown (1 total)\n"));
}

#[test]
fn log_page_shows_the_newest_window() {
    let all: Vec<Message> = (0..3)
        .map(|i| Message::with_identity(format!("id{i}"), i, "p", "d", MsgType::Task, &format!("s{i}"), "b", None))
        .collect();
    let text = render_log(&all, 2);
    assert!(!text.contains("s0") && text.contains("s1") && text.contains("s2"));
    assert!(text.ends_with("\n2 letters shown (3 total)\n"));
}

fn peer(name: &str, agents: &[&str]) -> Peer {
    Peer { name: name.into(), url: format!("http://{name}"), token: String::new(), agents: agents.iter().map(|a| a.to_string()).collect() }
}

#[test]
fn peer_list_puts_configured_peers_first() {
    let merged = merge_peers(vec![peer("fleet", &["a"])], vec![peer("fleet", &["b"]), peer("dock", &["c"]), peer("dock", &["d"])]);
    assert_eq!(merged.iter().map(|p| p.name.as_str()).collect::<Vec<_>>(), ["fleet", "dock"]);
    assert_eq!(merged[0].agents, ["a"]);
    assert_eq!(merged[1].agents, ["c"]);
}

#[test]
fn configured_peers_win_routing() {
    let peers = Peers::from_entries(vec![peer("fleet", &["diana"])]).unwrap();
    let mut learned = DynamicPeers::new();
    learned.add(peer("dock", &["diana", "victoria"]));
    assert_eq!(route_peer(&peers, &learned, "diana").unwrap().name, "fleet");
    assert_eq!(route_peer(&peers, &learned, "victoria").unwrap().name, "dock");
    assert!(route_peer(&peers, &learned, "patricia").is_none());
}

#[test]
fn endpoint_error_texts() {
    assert_eq!(missing_param_text("agent"), "missing required param: agent");
    assert_eq!(unknown_method_text("x/y"), "unknown method: x/y (call rpc.discover for the method table)");
    let t = forward_failed_text("fleet", "connect refused");
    assert!(t.contains("stays queued"));
    assert_eq!(t, "forward to pool `fleet` failed: connect refused (letter stays queued)");
}

#[test]
fn federated_agents_are_admitted_once() {
    let mut bus = hot_potato::bus::EventBus::new(hot_potato::store::memory::InMemoryStore::new());
    let mut reg = hot_potato::deliver::Registry::new();
    bus.register("victoria", Role::Pm).unwrap();
    assert!(admit_federated(&mut bus, &mut reg, "patricia", "fleet", true));
    assert_eq!(bus.role_of("patricia"), Some(Role::Worker));
    let e = reg.lookup("patricia").unwrap();
    assert_eq!(e.description, "federated from fleet");
    assert_eq!(e.tags, ["fleet"]);
    assert!(matches!(e.deliver_via, DeliverVia::Poll));
    // a known agent is left alone
    assert!(!admit_federated(&mut bus, &mut reg, "victoria", "dock", false));
    assert_eq!(bus.role_of("victoria"), Some(Role::Pm));
    assert!(reg.lookup("victoria").is_none());
    assert!(admit_federated(&mut bus, &mut reg, "diana", "dock", false));
    assert_eq!(reg.lookup("diana").unwrap().description, "federated at dock");
}

#[test]
fn a_send_naming_its_pool_is_inbound_before_any_routing() {
    let peers = Peers::from_entries(vec![peer("fleet", &["diana"])]).unwrap();
    let learned = DynamicPeers::new();
    assert!(matches!(send_route(&peers, &learned, "diana", Some("dock".into())), SendRoute::Inbound(p) if p == "dock"));
    assert!(matches!(send_route(&peers, &learned, "diana", None), SendRoute::Outbound(p) if p.name == "fleet"));
    assert!(matches!(send_route(&peers, &learned, "patricia", None), SendRoute::Local));
}

#[test]
fn a_poll_needs_an_agent_that_is_not_the_missing_param_text() {
    assert_eq!(poll_agent(None), Err("missing param: agent".to_string()));
    assert_eq!(poll_agent(Some("missing param: x")), Err("missing param: x".to_string()));
    assert_eq!(poll_agent(Some("diana")), Ok("diana".to_string()));
    assert_eq!(poll_agent(Some("missing")), Ok("missing".to_string()));
}
