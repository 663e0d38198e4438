use hot_potato::message::{find_last, new_letter_id, now_nanos, Message, MessageStatus, MsgType};

#[test]
fn new_message_starts_queued() {
    let m = Message::new("alice", "bob", MsgType::Task, "do X", "body", None);
    assert_eq!(m.status, MessageStatus::Queued);
    assert!(m.delivered_at.is_none());
    assert_eq!(m.sender, "alice");
}

#[test]
fn thread_root_walks_full_chain_and_survives_cycles() {
    // a <- b <- c : root is a
    let a = Message::new("p", "d", MsgType::Task, "s", "b", None);
    let mut b = Message::new("d", "p", MsgType::Reply, "s", "b", None);
    b.id = "bbbb".into();
    b.ref_id = Some(a.id.clone());
    let mut c = Message::new("p", "d", MsgType::Reply, "s", "b", None);
    c.id = "cccc".into();
    c.ref_id = Some(b.id.clone());
    let all = vec![a.clone(), b.clone(), c.clone()];
    assert_eq!(Message::thread_root_id(&all, "cccc"), a.id);
    assert_eq!(Message::thread_root_id(&all, "bbbb"), a.id);
    assert_eq!(Message::thread_root_id(&all, &a.id), a.id);
    // cycle a<->b must not hang
    let mut x = Message::new("p", "d", MsgType::Task, "s", "b", None);
    x.id = "xxxx".into();
    let mut y = Message::new("d", "p", MsgType::Reply, "s", "b", None);
    y.id = "yyyy".into();
    y.ref_id = Some("xxxx".into());
    x.ref_id = Some("yyyy".into());
    let all2 = vec![x, y];
    let root = Message::thread_root_id(&all2, "yyyy");
    assert!(root == "xxxx" || root == "yyyy");
    // dangling ref: treated as root (self)
    let mut d = Message::new("p", "d", MsgType::Reply, "s", "b", None);
    d.id = "dddd".into();
    d.ref_id = Some("ghost".into());
    assert_eq!(Message::thread_root_id(&[d.clone()], "dddd"), "dddd");
}

#[test]
fn letter_ids_are_32_lowercase_hex_and_fresh() {
    let a = new_letter_id();
    let b = new_letter_id();
    assert_eq!(a.chars().count(), 32);
    assert!(a.chars().all(|c| c.is_ascii_digit() || ('a'..='f').contains(&c)));
    assert_ne!(a, b);
    let m = Message::new("p", "d", MsgType::Task, "s", "b", None);
    assert_eq!(m.id.len(), 32);
}

#[test]
fn the_clock_reads_after_2020() {
    // 2020-01-01 in nanoseconds since the epoch.
    assert!(now_nanos() > 1_577_836_800_000_000_000);
}

#[test]
fn with_identity_keeps_every_field() {
    let m = Message::with_identity("id-1".into(), 42, "p", "d", MsgType::Reply, "s", "b", Some("r".into()));
    assert_eq!(m.id, "id-1");
    assert_eq!(m.created_at, 42);
    assert_eq!(m.msg_type, MsgType::Reply);
    assert_eq!(m.ref_id.as_deref(), Some("r"));
    assert_eq!(m.hops, 0);
    assert_eq!(m.attempts, 0);
    assert!(m.forwarded_from.is_none() && m.last_error.is_none() && m.dead_reason.is_none());
}

#[test]
fn find_last_takes_the_last_duplicate() {
    let a = Message::with_identity("x".into(), 1, "p", "d", MsgType::Task, "first", "b", None);
    let b = Message::with_identity("y".into(), 2, "p", "d", MsgType::Task, "other", "b", None);
    let c = Message::with_identity("x".into(), 3, "p", "d", MsgType::Task, "second", "b", None);
    let all = vec![a, b, c];
    assert_eq!(find_last(&all, "x"), Some(2));
    assert_eq!(find_last(&all, "y"), Some(1));
    assert_eq!(find_last(&all, "z"), None);
}

#[test]
fn thread_walk_stops_after_32_hops() {
    // A chain of 40 letters: each refs the previous one.
    let mut all = Vec::new();
    for i in 0..40 {
        let r = if i == 0 { None } else { Some(format!("m{}", i - 1)) };
        all.push(Message::with_identity(format!("m{i}"), i, "p", "d", MsgType::Reply, "s", "b", r));
    }
    assert_eq!(Message::thread_root_id(&all, "m39"), "m7");
    assert_eq!(Message::thread_root_id(&all, "m20"), "m0");
}
