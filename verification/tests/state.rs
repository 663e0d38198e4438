use hot_potato::message::MessageStatus as S;
use hot_potato::state::{
    apply, bookkeep, should_give_up, transitions, Event, Transition, MAX_ATTEMPTS, PUSHING_TIMEOUT_SECS,
};

fn legal(status: S, event: Event) -> S {
    match apply(status, &event).expect("expected legal transition") {
        Transition::To(s) => s,
        Transition::NoOp(s) => s,
    }
}

#[test]
fn happy_path_queued_to_acked() {
    assert_eq!(legal(S::Queued, Event::PushStarted), S::Pushing);
    assert_eq!(legal(S::Pushing, Event::PushOk), S::Delivered);
    assert_eq!(legal(S::Delivered, Event::ReadReceipt), S::Read);
    assert_eq!(legal(S::Read, Event::Ack { note: Some("done".into()) }), S::Acked);
}

#[test]
fn rejected_push_is_honest_back_to_queued() {
    assert_eq!(legal(S::Pushing, Event::PushRejected { reason: "403".into() }), S::Queued);
    assert_eq!(legal(S::Pushing, Event::PushErrored { reason: "conn refused".into() }), S::Queued);
}

#[test]
fn push_started_is_cas_gated() {
    assert_eq!(apply(S::Pushing, &Event::PushStarted), Ok(Transition::NoOp(S::Pushing)));
}

#[test]
fn illegal_transitions_are_refused() {
    assert!(apply(S::Queued, &Event::ReadReceipt).is_err());
    assert!(apply(S::Queued, &Event::Ack { note: None }).is_err());
    assert!(apply(S::Pushing, &Event::PollClaimed).is_err());
    assert!(apply(S::Dead, &Event::PushStarted).is_err());
    assert!(apply(S::Dead, &Event::Ack { note: None }).is_err());
}

#[test]
fn give_up_is_legal_from_queued_and_pushing_only() {
    assert_eq!(legal(S::Queued, Event::GiveUp { reason: "poison".into() }), S::Dead);
    assert_eq!(legal(S::Pushing, Event::GiveUp { reason: "poison".into() }), S::Dead);
    assert!(apply(S::Delivered, &Event::GiveUp { reason: "x".into() }).is_err());
}

#[test]
fn ack_from_delivered_skips_read() {
    assert_eq!(legal(S::Delivered, Event::Ack { note: None }), S::Acked);
}

#[test]
fn bookkeeping_tracks_attempts_and_errors() {
    let now: i128 = hot_potato::message::now_nanos();
    let bk = bookkeep(&Event::PushStarted, 3, now);
    assert_eq!(bk.attempts, Some(4));
    assert_eq!(bk.last_push_at, Some(now));

    let bk = bookkeep(&Event::PushRejected { reason: "401".into() }, 4, now);
    assert_eq!(bk.last_error.as_deref(), Some("401"));

    let bk = bookkeep(&Event::GiveUp { reason: "poison".into() }, 8, now);
    assert_eq!(bk.dead_reason.as_deref(), Some("poison"));
}

#[test]
fn poison_policy_threshold() {
    assert!(!should_give_up(MAX_ATTEMPTS - 1));
    assert!(should_give_up(MAX_ATTEMPTS));
}

#[test]
fn dead_is_fully_terminal() {
    for ev in [
        Event::PushStarted,
        Event::PushOk,
        Event::PushRejected { reason: "x".into() },
        Event::PushErrored { reason: "x".into() },
        Event::ReadReceipt,
        Event::PollClaimed,
        Event::Ack { note: None },
        Event::GiveUp { reason: "x".into() },
    ] {
        assert!(apply(S::Dead, &ev).is_err(), "Dead must refuse {ev:?}");
    }
}

#[test]
fn every_state_event_pair_has_a_verdict() {
    let states = [S::Queued, S::Pushing, S::Delivered, S::Read, S::Acked, S::Dead];
    let events = [
        Event::PushStarted,
        Event::PushOk,
        Event::PushRejected { reason: "r".into() },
        Event::PushErrored { reason: "r".into() },
        Event::ReadReceipt,
        Event::PollClaimed,
        Event::Ack { note: None },
        Event::GiveUp { reason: "r".into() },
    ];
    for st in states {
        for ev in &events {
            let _ = apply(st, ev);
        }
    }
}

#[test]
fn event_names_are_the_table_keys() {
    assert_eq!(Event::PushStarted.name(), "push_started");
    assert_eq!(Event::PushOk.name(), "push_ok");
    assert_eq!(Event::PushRejected { reason: "r".into() }.name(), "push_rejected");
    assert_eq!(Event::PushErrored { reason: "r".into() }.name(), "push_errored");
    assert_eq!(Event::PollClaimed.name(), "poll_claimed");
    assert_eq!(Event::ReadReceipt.name(), "read_receipt");
    assert_eq!(Event::Ack { note: None }.name(), "ack");
    assert_eq!(Event::GiveUp { reason: "r".into() }.name(), "give_up");
}

#[test]
fn illegal_names_the_event_and_state() {
    let e = apply(S::Acked, &Event::ReadReceipt).unwrap_err();
    assert_eq!(e.event, "read_receipt");
    assert_eq!(e.from, S::Acked);
}

#[test]
fn table_has_ten_rows_starting_with_the_claim() {
    let t = transitions();
    assert_eq!(t.len(), 10);
    assert_eq!(t[0], (S::Queued, "push_started", S::Pushing));
    assert_eq!(t[9], (S::Pushing, "give_up", S::Dead));
}

#[test]
fn acked_refuses_a_second_ack_in_the_table() {
    // An ack on an acked letter is not a table row: the store answers it
    // (idempotent), the state machine refuses it.
    assert!(apply(S::Acked, &Event::Ack { note: None }).is_err());
}

#[test]
fn bookkeeping_counts_up_to_the_last_attempt() {
    let bk = bookkeep(&Event::PushStarted, u32::MAX - 1, 5);
    assert_eq!(bk.attempts, Some(u32::MAX));
    let bk = bookkeep(&Event::PushErrored { reason: "dns".into() }, 2, 5);
    assert_eq!(bk.last_error.as_deref(), Some("dns"));
    assert_eq!(bk.attempts, None);
    let bk = bookkeep(&Event::ReadReceipt, 2, 5);
    assert!(bk.attempts.is_none() && bk.last_error.is_none() && bk.last_push_at.is_none() && bk.dead_reason.is_none());
    assert_eq!(PUSHING_TIMEOUT_SECS, 150);
}
