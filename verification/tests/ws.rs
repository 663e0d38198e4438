use hot_potato::message::{Message, MessageStatus, MsgType};
use hot_potato::ws::{bus_stats, mailbox_backlog, BusEvent};

fn letter(id: &str, to: &str, status: MessageStatus) -> Message {
    let mut m = Message::with_identity(id.into(), 1, "patricia", to, MsgType::Task, "s", "b", None);
    m.status = status;
    if status == MessageStatus::Acked {
        m.acked_at = Some(5);
    }
    m
}

#[test]
fn hello_stats_count_letters_and_acks() {
    let all = vec![
        letter("1", "diana", MessageStatus::Queued),
        letter("2", "diana", MessageStatus::Acked),
        letter("3", "victoria", MessageStatus::Delivered),
    ];
    let s = bus_stats(&all);
    assert_eq!(s.total_letters, 3);
    assert_eq!(s.acked, 1);
}

#[test]
fn backlog_per_mailbox_in_name_order() {
    let all = vec![
        letter("1", "victoria", MessageStatus::Queued),
        letter("2", "diana", MessageStatus::Queued),
        letter("3", "diana", MessageStatus::Delivered),
        letter("4", "diana", MessageStatus::Queued),
        letter("5", "anna", MessageStatus::Acked),
    ];
    let b = mailbox_backlog(&all);
    let names: Vec<&str> = b.iter().map(|x| x.receiver.as_str()).collect();
    assert_eq!(names, ["anna", "diana", "victoria"]);
    assert_eq!((b[0].queued, b[0].unread), (0, 0));
    assert_eq!((b[1].queued, b[1].unread), (2, 1));
    assert_eq!((b[2].queued, b[2].unread), (1, 0));
}

#[test]
fn events_carry_their_letter() {
    let m = Message::new("patricia", "diana", MsgType::Task, "run X", "b", None);
    let ev = BusEvent { event: "delivered", message: m.clone() };
    let copy = ev.clone();
    assert_eq!(copy.event, "delivered");
    assert_eq!(copy.message.receiver, "diana");
    assert_eq!(copy.message.id, m.id);
}
