use hot_potato::bus::{EventBus, Role};
use hot_potato::deliver::{DeliverVia, PushOutcome, Registry};
use hot_potato::federation::Peer;
use hot_potato::message::{Message, MessageStatus, MsgType};
use hot_potato::state::MAX_ATTEMPTS;
use hot_potato::store::memory::InMemoryStore;
use hot_potato::sweeper::{
    auth_stuck_letters, context_id, due_for_retry, is_retry_due, is_stale_pushing, rearm_receiver, retry_window,
    secs_between, settle_push, stale_pushing_letters, stale_reason, unwell_peer_lines, watch_step, watch_summary,
    MIN_BACKOFF,
    NANOS_PER_SEC,
};

#[test]
fn backoff_fresh_letter_waits_one_minute() {
    let w = retry_window(30, MIN_BACKOFF);
    assert_eq!(w, 60);
    assert!(30 < w);
}

#[test]
fn backoff_windows_grow_and_cap() {
    let mb = 60;
    // ~1m old → window 1m (retry now)
    assert_eq!(retry_window(61, mb), mb);
    // ~2.5m old → window 2m
    assert_eq!(retry_window(150, mb), 120);
    // ~4m old → window 4m
    assert_eq!(retry_window(245, mb), 240);
    // 4h old → capped at 32m
    assert_eq!(retry_window(14400, mb), 60 << 5);
}

#[test]
fn a_zero_floor_steps_by_one_second() {
    assert_eq!(retry_window(0, 0), 1);
    assert_eq!(retry_window(3, 0), 2);
    assert_eq!(retry_window(1000, 0), 32);
}

const S: i128 = NANOS_PER_SEC;

fn letter(id: &str, to: &str, created_at: i128) -> Message {
    Message::with_identity(id.into(), created_at, "alice", to, MsgType::Task, "s", "b", None)
}

#[test]
fn whole_seconds_round_toward_zero() {
    assert_eq!(secs_between(0, 2 * S - 1), 1);
    assert_eq!(secs_between(2 * S - 1, 0), -1);
    assert_eq!(secs_between(i64::MIN as i128, i64::MAX as i128), 18_446_744_073);
    assert_eq!(secs_between(i128::MIN, i128::MAX), 340_282_366_920_938_463_463_374_607_431);
    assert_eq!(secs_between(i128::MAX, i128::MIN), -340_282_366_920_938_463_463_374_607_431);
    assert_eq!(secs_between(-1, 0), 0);
    assert_eq!(secs_between(1_500_000_000, -1_000_000_000), -2);
}

#[test]
fn stale_pushing_is_past_the_liveness_window() {
    let mut m = letter("l", "bob", 0);
    m.status = MessageStatus::Pushing;
    m.last_push_at = Some(10 * S);
    assert!(!is_stale_pushing(&m, 160 * S)); // exactly 150s: not yet
    assert!(is_stale_pushing(&m, 161 * S));
    assert_eq!(stale_reason(&m, 161 * S), "pushing stale 151s (dispatcher died mid-push)");
    let q = letter("q", "bob", 0); // queued letters are never stale pushes
    assert!(!is_stale_pushing(&q, 1000 * S));
    let all = vec![q, m.clone()];
    let stale = stale_pushing_letters(&all, 161 * S);
    assert_eq!(stale.len(), 1);
    assert_eq!(stale[0].id, "l");
}

#[test]
fn retry_waits_for_the_backoff_window() {
    let m = letter("l", "bob", 0);
    assert!(!is_retry_due(&m, 30 * S, MIN_BACKOFF)); // fresh letter waits a minute
    assert!(is_retry_due(&m, 60 * S, MIN_BACKOFF));
    assert!(is_retry_due(&m, 150 * S, MIN_BACKOFF)); // window 2m at 2.5m old: due
    assert!(is_retry_due(&m, 0, 0)); // zero floor: always due
    let mut d = letter("d", "bob", 0);
    d.status = MessageStatus::Delivered;
    assert!(!is_retry_due(&d, 1000 * S, 0)); // never re-push a delivered letter
    let due = due_for_retry(&[m, d], 1000 * S, 0);
    assert_eq!(due.len(), 1);
}

#[test]
fn context_id_is_the_thread_root() {
    let a = letter("root", "bob", 1);
    let mut b = letter("child", "alice", 2);
    b.ref_id = Some("root".into());
    assert_eq!(context_id(&[a, b], "child"), "bus-t-root");
}

fn bus_with_letter() -> (EventBus, String) {
    let mut bus = EventBus::new(InMemoryStore::new());
    bus.register("alice", Role::Pm).unwrap();
    bus.register("carol", Role::Worker).unwrap();
    let id = bus.send("alice", "carol", MsgType::Task, "subject", "body", None).unwrap();
    (bus, id)
}

#[test]
fn a_failed_push_stays_queued_then_recovers() {
    let (mut bus, id) = bus_with_letter();
    assert!(matches!(bus.claim_push_at("carol", &id, 1), Ok(true)));
    let m = settle_push(&mut bus, "carol", &id, &PushOutcome::Failed { error: "receiver down".into() }, 2).unwrap();
    assert_eq!(m.status, MessageStatus::Queued);
    assert!(m.delivered_at.is_none());
    assert!(matches!(bus.claim_push_at("carol", &id, 3), Ok(true)));
    let m = settle_push(&mut bus, "carol", &id, &PushOutcome::Pushed, 4).unwrap();
    assert_eq!(m.status, MessageStatus::Delivered);
    assert_eq!(m.delivered_at, Some(4));
}

#[test]
fn rejected_pushes_go_dead_after_max_attempts() {
    let (mut bus, id) = bus_with_letter();
    for i in 0..MAX_ATTEMPTS {
        assert!(matches!(bus.claim_push_at("carol", &id, i as i128), Ok(true)));
        let m = settle_push(&mut bus, "carol", &id, &PushOutcome::Failed { error: "401 invalid token".into() }, 0)
            .unwrap();
        assert!(m.delivered_at.is_none(), "refused push must not claim delivery (attempt {i})");
    }
    let letters = bus.list_all().unwrap();
    let m = letters.iter().find(|l| l.id == id).unwrap();
    assert_eq!(m.status, MessageStatus::Dead);
    assert_eq!(m.attempts, MAX_ATTEMPTS);
    assert_eq!(m.last_error.as_deref(), Some("401 invalid token"));
    assert_eq!(m.dead_reason.as_deref(), Some("401 invalid token"));
}

#[test]
fn a_skipped_push_releases_the_claim() {
    let (mut bus, id) = bus_with_letter();
    assert!(matches!(bus.claim_push_at("carol", &id, 1), Ok(true)));
    let m = settle_push(&mut bus, "carol", &id, &PushOutcome::Skipped { reason: "poll-only".into() }, 2).unwrap();
    assert_eq!(m.status, MessageStatus::Queued);
    assert_eq!(m.last_error.as_deref(), Some("poll-only"));
}

#[test]
fn auth_failures_are_spotted_and_reported_once() {
    let mut a = letter("a", "carol", 0);
    a.last_error = Some("HTTP 401 Unauthorized".into());
    let mut b = letter("b", "dave", 0);
    b.last_error = Some("connection refused".into());
    let mut c = letter("c", "carol", 0);
    c.last_error = Some("403".into());
    c.status = MessageStatus::Dead;
    let stuck = auth_stuck_letters(&[a, b, c]);
    assert_eq!(stuck.len(), 1);
    assert_eq!(stuck[0].id, "a");

    let (n1, send1) = watch_step(false, true);
    assert!(n1 && send1);
    let (n2, send2) = watch_step(n1, true);
    assert!(n2 && !send2);
    let (n3, send3) = watch_step(n2, false);
    assert!(!n3 && !send3);
}

#[test]
fn watch_summary_lists_unwell_pools() {
    assert_eq!(
        watch_summary(3, 1, &Vec::new()),
        "watch: 3 letter(s) stuck on push auth; registry re-armed for 1 receiver(s)."
    );
    let lines = vec!["- a".to_string(), "- b".to_string()];
    assert_eq!(
        watch_summary(1, 2, &lines),
        "watch: 1 letter(s) stuck on push auth; registry re-armed for 2 receiver(s).\nPeer pools:\n- a\n- b"
    );
}

#[test]
fn only_a2a_entries_with_a_url_are_rearmed() {
    let mut reg = Registry::new();
    reg.register("carol", "c", DeliverVia::A2a { url: "http://carol/a2a".into() });
    reg.register("dave", "d", DeliverVia::A2a { url: String::new() });
    reg.register("erin", "e", DeliverVia::Webhook { url: "http://erin".into() });
    assert!(rearm_receiver(&mut reg, "carol"));
    assert!(!rearm_receiver(&mut reg, "dave"));
    assert!(!rearm_receiver(&mut reg, "erin"));
    assert!(!rearm_receiver(&mut reg, "ghost"));
    assert_eq!(reg.lookup("carol").unwrap().description, "c");
    assert_eq!(reg.all().len(), 3);
}

#[test]
fn only_unwell_peer_pools_get_a_line() {
    let peer = |name: &str| Peer { name: name.into(), url: format!("http://{name}"), token: "t".into(), agents: vec!["a".into()] };
    let reports = vec![
        (peer("fine"), true, "ok".to_string()),
        (peer("down"), false, "ok".to_string()),
        (peer("stale"), true, "failed: 401".to_string()),
    ];
    let lines = unwell_peer_lines(&reports);
    assert_eq!(
        lines,
        vec![
            "- Peer { name: \"down\", url: \"http://down\", token: \"t\", agents: [\"a\"] }: reachable=false our_token_probe=ok".to_string(),
            "- Peer { name: \"stale\", url: \"http://stale\", token: \"t\", agents: [\"a\"] }: reachable=true our_token_probe=failed: 401".to_string(),
        ]
    );
}
