use hot_potato::error::BusError;
use hot_potato::message::{now_nanos, Message, MessageStatus, MsgType};
use hot_potato::store::memory::InMemoryStore;
use hot_potato::store::{fifo, group_by_receiver, letter_key, sorted_receivers, validate_ack};

fn setup() -> InMemoryStore {
    let mut s = InMemoryStore::new();
    s.register("alice").unwrap();
    s.register("bob").unwrap();
    s
}

#[test]
fn full_lifecycle() {
    let mut s = setup();
    let m = Message::new("alice", "bob", MsgType::Task, "T", "b", None);
    s.push(&m).unwrap();

    // peek doesn't mark
    assert_eq!(s.peek("bob").unwrap().len(), 1);
    assert_eq!(s.peek("bob").unwrap().len(), 1);

    // poll marks delivered
    let drained = s.poll("bob", 10, now_nanos()).unwrap();
    assert_eq!(drained.len(), 1);
    assert_eq!(drained[0].status, MessageStatus::Delivered);
    assert!(s.peek("bob").unwrap().is_empty());

    // ack requires delivered
    let acked = s.ack("bob", &m.id, "done", now_nanos()).unwrap();
    assert_eq!(acked.status, MessageStatus::Acked);

    // audit trail
    assert_eq!(s.archive().unwrap().len(), 1);
    assert_eq!(s.sent_by("alice").unwrap().len(), 1);
}

#[test]
fn ack_before_poll_rejected() {
    let mut s = setup();
    let m = Message::new("alice", "bob", MsgType::Task, "T", "b", None);
    s.push(&m).unwrap();
    let err = s.ack("bob", &m.id, "cheat", now_nanos()).unwrap_err();
    assert!(matches!(err, BusError::NotDeliverable(_, _)));
}

#[test]
fn ack_from_delivered_auto_stamps_read_at_memory() {
    let mut s = setup();
    let m = Message::new("alice", "bob", MsgType::Task, "T", "b", None);
    s.push(&m).unwrap();
    s.mark_delivered("bob", &m.id, now_nanos()).unwrap();
    let out = s.ack("bob", &m.id, "skipped read", now_nanos()).unwrap();
    assert!(out.read_at.is_some(), "ack from delivered must auto-stamp read_at, got {:?}", out.read_at);

    // the explicit read path keeps its own read stamp
    let m = Message::new("alice", "bob", MsgType::Task, "T", "b", None);
    s.push(&m).unwrap();
    s.mark_delivered("bob", &m.id, now_nanos()).unwrap();
    s.mark_read("bob", &m.id, now_nanos()).unwrap();
    let out = s.ack("bob", &m.id, "normal path", now_nanos()).unwrap();
    assert_eq!(out.status, MessageStatus::Acked);
    assert!(out.read_at.is_some(), "explicit read keeps read_at");
}

#[test]
fn fifo_order_preserved() {
    let mut s = setup();
    for i in 0..5 {
        s.push(&Message::new("alice", "bob", MsgType::Task, &format!("m{i}"), "b", None)).unwrap();
    }
    let drained = s.poll("bob", 10, now_nanos()).unwrap();
    let subjects: Vec<_> = drained.iter().map(|m| m.subject.clone()).collect();
    assert_eq!(subjects, ["m0", "m1", "m2", "m3", "m4"]);
}

#[test]
fn mailbox_full_is_an_error() {
    let mut s = InMemoryStore::with_capacity(2);
    s.register("bob").unwrap();
    for _ in 0..2 {
        s.push(&Message::new("p", "bob", MsgType::Task, "s", "b", None)).unwrap();
    }
    let err = s.push(&Message::new("p", "bob", MsgType::Task, "s3", "b", None)).unwrap_err();
    assert!(matches!(err, BusError::MailboxFull(_, 2)));
}

#[test]
fn ack_is_idempotent_and_keeps_the_first_note() {
    let mut s = setup();
    let m = Message::new("alice", "bob", MsgType::Task, "T", "b", None);
    s.push(&m).unwrap();
    s.poll("bob", 10, now_nanos()).unwrap();
    let first = s.ack("bob", &m.id, "first note", 100).unwrap();
    let again = s.ack("bob", &m.id, "second note", 200).unwrap();
    assert_eq!(again.ack_note.as_deref(), Some("first note"));
    assert_eq!(again.acked_at, first.acked_at);
    assert_eq!(s.archive().unwrap().len(), 1);
}

#[test]
fn ack_note_is_cut_at_80_characters() {
    let mut s = setup();
    let m = Message::new("alice", "bob", MsgType::Task, "T", "b", None);
    s.push(&m).unwrap();
    s.poll("bob", 10, now_nanos()).unwrap();
    let long = "x".repeat(100);
    let out = s.ack("bob", &m.id, &long, now_nanos()).unwrap();
    assert_eq!(out.ack_note.unwrap().chars().count(), 80);
}

#[test]
fn poll_with_limit_takes_the_oldest_first() {
    let mut s = setup();
    for i in 0..3 {
        s.push(&Message::with_identity(format!("id{i}"), 10 + i, "alice", "bob", MsgType::Task, &format!("m{i}"), "b", None))
            .unwrap();
    }
    let first = s.poll("bob", 2, 50).unwrap();
    assert_eq!(first.iter().map(|m| m.subject.as_str()).collect::<Vec<_>>(), ["m0", "m1"]);
    assert!(first.iter().all(|m| m.delivered_at == Some(50)));
    let rest = s.poll("bob", 2, 60).unwrap();
    assert_eq!(rest.len(), 1);
    assert_eq!(rest[0].subject, "m2");
}

#[test]
fn unknown_letter_is_not_found() {
    let mut s = setup();
    let err = s.mark_read("bob", "nope", 1).unwrap_err();
    assert!(matches!(err, BusError::NotFound(ref id) if id == "nope"));
    assert_eq!(err.describe(), "message nope not found");
}

#[test]
fn push_claim_and_settle_on_the_store() {
    let mut s = setup();
    let m = Message::with_identity("l1".into(), 1, "alice", "bob", MsgType::Task, "T", "b", None);
    s.push(&m).unwrap();
    assert!(matches!(s.claim_push("bob", "l1", 5), Ok(true)));
    // a second racer loses the CAS
    assert!(matches!(s.claim_push("bob", "l1", 6), Ok(false)));
    let back = s.push_failed("bob", "l1", "503").unwrap();
    assert_eq!(back.status, MessageStatus::Queued);
    assert_eq!(back.attempts, 1);
    assert_eq!(back.last_error.as_deref(), Some("503"));
    assert!(back.delivered_at.is_none());
    assert!(matches!(s.claim_push("bob", "l1", 7), Ok(true)));
    let done = s.push_succeeded("bob", "l1", 8).unwrap();
    assert_eq!(done.status, MessageStatus::Delivered);
    assert_eq!(done.delivered_at, Some(8));
    // a push outcome on a letter that is not being pushed is refused
    assert!(matches!(s.push_failed("bob", "l1", "x"), Err(BusError::NotDeliverable(_, _))));
}

#[test]
fn delete_one_and_delete_all() {
    let mut s = setup();
    s.push(&Message::with_identity("a".into(), 1, "alice", "bob", MsgType::Task, "T", "b", None)).unwrap();
    s.push(&Message::with_identity("b".into(), 2, "bob", "alice", MsgType::Task, "T", "b", None)).unwrap();
    assert_eq!(s.delete_one("a").unwrap().id, "a");
    assert!(s.delete_one("a").is_err());
    assert_eq!(s.delete_all().unwrap(), 1);
    assert!(s.list_all().unwrap().is_empty());
}

#[test]
fn fifo_sorts_by_time_then_id() {
    let mut v = vec![
        Message::with_identity("b".into(), 2, "p", "d", MsgType::Task, "s", "x", None),
        Message::with_identity("z".into(), 1, "p", "d", MsgType::Task, "s", "x", None),
        Message::with_identity("a".into(), 2, "p", "d", MsgType::Task, "s", "x", None),
    ];
    fifo(&mut v);
    assert_eq!(v.iter().map(|m| m.id.as_str()).collect::<Vec<_>>(), ["z", "a", "b"]);
}

#[test]
fn validate_ack_accepts_delivered_and_read_only() {
    let mut m = Message::new("p", "d", MsgType::Task, "s", "b", None);
    assert!(validate_ack(&m).is_err());
    m.status = MessageStatus::Delivered;
    assert!(validate_ack(&m).is_ok());
    m.status = MessageStatus::Read;
    assert!(validate_ack(&m).is_ok());
    m.status = MessageStatus::Acked;
    let e = validate_ack(&m).unwrap_err();
    assert!(matches!(e, BusError::NotDeliverable(_, ref st) if st == "Acked"));
}

#[test]
fn group_by_receiver_sorts_receivers_and_keeps_order() {
    let v = vec![
        Message::with_identity("1".into(), 1, "p", "zoe", MsgType::Task, "s1", "x", None),
        Message::with_identity("2".into(), 2, "p", "amy", MsgType::Task, "s2", "x", None),
        Message::with_identity("3".into(), 3, "p", "zoe", MsgType::Task, "s3", "x", None),
    ];
    let g = group_by_receiver(&v);
    assert_eq!(g.len(), 2);
    assert_eq!(g[0].0, "amy");
    assert_eq!(g[0].1.len(), 1);
    assert_eq!(g[1].0, "zoe");
    assert_eq!(g[1].1.iter().map(|m| m.id.as_str()).collect::<Vec<_>>(), ["1", "3"]);
    assert_eq!(sorted_receivers(&v), ["amy", "zoe"]);
}

#[test]
fn agents_register_once_and_unregister() {
    let mut s = setup();
    s.register("alice").unwrap();
    assert_eq!(s.agents().unwrap(), ["alice", "bob"]);
    s.unregister("alice").unwrap();
    assert_eq!(s.agents().unwrap(), ["bob"]);
}

#[test]
fn letter_keys_sort_a_mailbox_oldest_first() {
    let m = Message::with_identity("abc".into(), 1_700_000_000_123_456_789, "p", "bob", MsgType::Task, "s", "b", None);
    assert_eq!(letter_key("bob", &m), "bob::00000001700000000123::abc");
    let early = Message::with_identity("e".into(), -1, "p", "bob", MsgType::Task, "s", "b", None);
    assert_eq!(letter_key("bob", &early), "bob::-0000000000000000001::e");
    let later = Message::with_identity("z".into(), 1_700_000_000_124_000_000, "p", "bob", MsgType::Task, "s", "b", None);
    assert!(letter_key("bob", &m) < letter_key("bob", &later));
}

#[test]
fn a_poll_with_limit_zero_claims_nothing() {
    let mut s = setup();
    s.push(&Message::with_identity("a".into(), 1, "alice", "bob", MsgType::Task, "T", "b", None)).unwrap();
    assert!(s.poll("bob", 0, 5).unwrap().is_empty());
    assert_eq!(s.peek("bob").unwrap().len(), 1);
    assert!(s.poll("nobody", 3, 5).unwrap().is_empty());
}

#[test]
fn registering_twice_keeps_one_mailbox_and_one_roster_place() {
    let mut s = setup();
    s.register("bob").unwrap();
    assert_eq!(s.agents().unwrap(), vec!["alice".to_string(), "bob".to_string()]);
    let m = Message::new("alice", "bob", MsgType::Task, "T", "b", None);
    s.push(&m).unwrap();
    s.register("bob").unwrap();
    assert_eq!(s.peek("bob").unwrap().len(), 1);
    assert_eq!(s.list_all().unwrap().len(), 1);
}

#[test]
fn letters_past_2262_keep_their_own_times() {
    // 3e19 ns is in the year 2920, past what i64 nanoseconds can hold
    let far = Message::with_identity("f".into(), 30_000_000_000_000_000_000, "p", "bob", MsgType::Task, "s", "b", None);
    assert_eq!(letter_key("bob", &far), "bob::00000030000000000000::f");
    let farther =
        Message::with_identity("g".into(), 30_000_000_000_001_000_000, "p", "bob", MsgType::Task, "s", "b", None);
    assert!(letter_key("bob", &far) < letter_key("bob", &farther));
    let early = Message::with_identity("h".into(), -1_000_001, "p", "bob", MsgType::Task, "s", "b", None);
    assert_eq!(letter_key("bob", &early), "bob::-0000000000000000002::h");
}
