use hot_potato::bus::{EventBus, Role};
use hot_potato::error::BusError;
use hot_potato::message::{MessageStatus, MsgType};
use hot_potato::store::memory::InMemoryStore;

fn bus() -> EventBus {
    let mut bus = EventBus::new(InMemoryStore::new());
    bus.register("patricia", Role::Pm).unwrap();
    bus.register("diana", Role::Worker).unwrap();
    bus.register("victoria", Role::Worker).unwrap();
    bus
}

#[test]
fn send_poll_reply_ack_roundtrip() {
    let mut b = bus();
    let id = b.send("patricia", "diana", MsgType::Task, "run X", "body", None).unwrap();

    let mail = b.poll("diana", 0).unwrap();
    assert_eq!(mail.len(), 1);
    assert_eq!(mail[0].id, id);

    let reply_id = b
        .send("diana", "patricia", MsgType::Reply, "re: run X", "done, see csv", Some(id.clone()))
        .unwrap();
    assert!(!reply_id.is_empty());

    let acked = b.ack("diana", &id, "delivered csv").unwrap();
    assert_eq!(acked.status, MessageStatus::Acked);

    let p_status = b.status("patricia").unwrap();
    assert_eq!(p_status.len(), 1); // only the task she sent (reply is diana's)
}

#[test]
fn worker_cannot_broadcast() {
    let mut b = bus();
    let err = b.send("diana", "*", MsgType::Broadcast, "spam", "body", None).unwrap_err();
    assert!(err.describe().contains("not allowed to broadcast"));
}

#[test]
fn pm_can_broadcast_fans_out() {
    let mut b = bus();
    let ids = b.broadcast("patricia", "standup 9:00", "be there").unwrap();
    assert_eq!(ids.len(), 2); // diana + victoria, not patricia
    assert_eq!(b.peek("diana").unwrap().len(), 1);
    assert_eq!(b.peek("victoria").unwrap().len(), 1);
}

#[test]
fn reply_without_ref_rejected() {
    let mut b = bus();
    let err = b.send("diana", "patricia", MsgType::Reply, "re:", "x", None).unwrap_err();
    assert!(err.describe().contains("must carry `ref`"));
}

#[test]
fn unregistered_sender_rejected() {
    let mut b = bus();
    let err = b.send("mallory", "diana", MsgType::Task, "hi", "b", None).unwrap_err();
    assert!(matches!(err, BusError::UnknownAgent(_)));
}

#[test]
fn chatlog_timestamps_flow() {
    let mut b = bus();
    let id = b.send("patricia", "diana", MsgType::Task, "t", "b", None).unwrap();

    // queued: no read receipt yet
    let s0 = b.status("patricia").unwrap();
    assert!(s0[0].read_at.is_none());

    b.poll("diana", 0).unwrap();
    let read = b.mark_read("diana", &id).unwrap();
    assert_eq!(read.status, MessageStatus::Read);
    assert!(read.read_at.is_some());
    assert!(read.delivered_at.is_some());

    // read->ack legal; delivered_at <= read_at
    let acked = b.ack("diana", &id, "done").unwrap();
    assert!(acked.delivered_at.unwrap() <= acked.read_at.unwrap());
    assert!(acked.read_at.unwrap() <= acked.acked_at.unwrap());
}

#[test]
fn read_before_delivery_rejected() {
    let mut b = bus();
    let id = b.send("patricia", "diana", MsgType::Task, "t", "b", None).unwrap();
    let err = b.mark_read("diana", &id).unwrap_err();
    assert!(matches!(err, BusError::NotDeliverable(_, _)));
}

#[test]
fn archive_only_counts_acked() {
    let mut b = bus();
    let id = b.send("patricia", "diana", MsgType::Task, "t", "b", None).unwrap();
    assert!(b.archive().unwrap().is_empty());
    b.poll("diana", 0).unwrap();
    b.ack("diana", &id, "done").unwrap();
    assert_eq!(b.archive().unwrap().len(), 1);
}

#[test]
fn unknown_receiver_is_refused() {
    let mut b = bus();
    let err = b.send("patricia", "ghost", MsgType::Task, "t", "b", None).unwrap_err();
    assert!(matches!(err, BusError::UnknownAgent(ref a) if a == "ghost"));
}

#[test]
fn registering_again_updates_the_role() {
    let mut b = bus();
    assert_eq!(b.role_of("diana"), Some(Role::Worker));
    b.register("diana", Role::Pm).unwrap();
    assert_eq!(b.role_of("diana"), Some(Role::Pm));
    assert!(b.is_registered("patricia"));
    assert!(!b.is_registered("mallory"));
}

#[test]
fn envelope_is_kept_on_the_letter() {
    let mut b = bus();
    let id = b
        .send_envelope("patricia", "victoria", MsgType::Task, "x", "b", None, 1, Some("fleet".into()))
        .unwrap();
    let peek = b.peek("victoria").unwrap();
    assert_eq!(peek[0].id, id);
    assert_eq!(peek[0].hops, 1);
    assert_eq!(peek[0].forwarded_from.as_deref(), Some("fleet"));
}

#[test]
fn broadcast_from_a_worker_or_stranger_is_refused() {
    let mut b = bus();
    assert!(b.broadcast("diana", "s", "b").unwrap_err().describe().contains("not allowed to broadcast"));
    assert!(matches!(b.broadcast("mallory", "s", "b"), Err(BusError::UnknownAgent(_))));
}

#[test]
fn poll_by_a_stranger_is_refused() {
    let mut b = bus();
    assert!(matches!(b.poll("mallory", 0), Err(BusError::UnknownAgent(_))));
}

#[test]
fn the_bus_drives_a_push_through_its_states() {
    let mut b = bus();
    let id = b.send("patricia", "diana", MsgType::Task, "t", "b", None).unwrap();
    assert!(matches!(b.claim_push("diana", &id), Ok(true)));
    assert!(matches!(b.claim_push("diana", &id), Ok(false)));
    let m = b.push_succeeded("diana", &id).unwrap();
    assert_eq!(m.status, MessageStatus::Delivered);
    // already delivered: a receipt changes nothing
    let again = b.mark_delivered("diana", &id).unwrap();
    assert_eq!(again.delivered_at, m.delivered_at);
}

#[test]
fn delete_one_and_all_through_the_bus() {
    let mut b = bus();
    let id = b.send("patricia", "diana", MsgType::Task, "t", "b", None).unwrap();
    b.send("patricia", "victoria", MsgType::Task, "t", "b", None).unwrap();
    assert_eq!(b.delete_one(&id).unwrap().id, id);
    assert_eq!(b.delete_all().unwrap(), 1);
    assert!(b.list_all().unwrap().is_empty());
}

#[test]
fn a_broadcast_reaches_an_agent_registered_twice_only_once() {
    let mut b = bus();
    b.register("diana", Role::Worker).unwrap();
    let ids = b.broadcast("patricia", "s", "b").unwrap();
    assert_eq!(ids.len(), 2);
    assert_eq!(b.peek("diana").unwrap().len(), 1);
}

#[test]
fn a_broadcast_stops_at_a_full_mailbox_and_keeps_earlier_letters() {
    let mut b = EventBus::new(InMemoryStore::with_capacity(1));
    b.register("patricia", Role::Pm).unwrap();
    b.register("diana", Role::Worker).unwrap();
    b.register("victoria", Role::Worker).unwrap();
    b.send("patricia", "victoria", MsgType::Task, "t", "b", None).unwrap();
    match b.broadcast("patricia", "s", "b") {
        Err(BusError::MailboxFull(agent, cap)) => {
            assert_eq!(agent, "victoria");
            assert_eq!(cap, 1);
        }
        other => panic!("expected a full mailbox, got {:?}", other),
    }
    assert_eq!(b.peek("diana").unwrap().len(), 1);
    assert_eq!(b.peek("victoria").unwrap().len(), 1);
}
