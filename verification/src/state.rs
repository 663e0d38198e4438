//! Declarative letter state machine — the single source of truth.
//!
//! Every status change in the bus goes through [`apply`]. The table returned
//! by [`transitions`] is the only place a (state, event) → state mapping
//! exists; anything not in the table is an [`Illegal`] transition and is
//! refused instead of silently rewritten.

use vstd::prelude::*;
use crate::message::MessageStatus as S;
use crate::text::same_text;

verus! {

/// What happened to a letter — the only inputs the state machine accepts.
#[derive(Debug, Clone, PartialEq, Eq)]
pub enum Event {
    /// A dispatcher (push-on-arrival or sweeper) starts pushing the letter.
    /// Only legal from `Queued` — prevents double delivery.
    PushStarted,
    /// The push returned HTTP 2xx.
    PushOk,
    /// The push got a 4xx/5xx: refused ≠ delivered. Back to `Queued`.
    PushRejected { reason: String },
    /// The push failed at the transport level.
    PushErrored { reason: String },
    /// A poll-only receiver claimed the letter via drain.
    PollClaimed,
    /// Chatlog-style read receipt.
    ReadReceipt,
    /// Recipient finished their part and filed the result.
    Ack { note: Option<String> },
    /// The letter exhausted its attempts (or was judged dead by an operator).
    GiveUp { reason: String },
}

/// The machine-readable name of each event.
pub open spec fn event_name(e: Event) -> Seq<char> {
    match e {
        Event::PushStarted => "push_started"@,
        Event::PushOk => "push_ok"@,
        Event::PushRejected { .. } => "push_rejected"@,
        Event::PushErrored { .. } => "push_errored"@,
        Event::PollClaimed => "poll_claimed"@,
        Event::ReadReceipt => "read_receipt"@,
        Event::Ack { .. } => "ack"@,
        Event::GiveUp { .. } => "give_up"@,
    }
}

impl Event {
    /// Short machine-readable name for logs and metrics.
    pub fn name(&self) -> (r: &'static str)
        ensures
            r@ == event_name(*self),
    {
        match self {
            Event::PushStarted => "push_started",
            Event::PushOk => "push_ok",
            Event::PushRejected { .. } => "push_rejected",
            Event::PushErrored { .. } => "push_errored",
            Event::PollClaimed => "poll_claimed",
            Event::ReadReceipt => "read_receipt",
            Event::Ack { .. } => "ack",
            Event::GiveUp { .. } => "give_up",
        }
    }
}

/// An (event, state) pair that is not in the table.
#[derive(Debug, Clone, Copy, PartialEq, Eq)]
pub struct Illegal {
    pub event: &'static str,
    pub from: S,
}

/// Outcome of applying an event to a letter's status.
#[derive(Debug, Clone, Copy, PartialEq, Eq, Structural)]
pub enum Transition {
    /// Status changed to the returned state.
    To(S),
    /// The event does not change the status (a second dispatcher racing on
    /// a letter that is already `Pushing`).
    NoOp(S),
}

/// One row of the truth table: (from, event name, to).
pub type Row = (S, Seq<char>, S);

/// The truth table. One row per legal (from, event) → to.
pub open spec fn table() -> Seq<Row> {
    seq![
        (S::Queued, "push_started"@, S::Pushing),
        (S::Pushing, "push_ok"@, S::Delivered),
        (S::Pushing, "push_rejected"@, S::Queued),
        (S::Pushing, "push_errored"@, S::Queued),
        (S::Queued, "poll_claimed"@, S::Delivered),
        (S::Delivered, "read_receipt"@, S::Read),
        (S::Delivered, "ack"@, S::Acked),
        (S::Read, "ack"@, S::Acked),
        (S::Queued, "give_up"@, S::Dead),
        (S::Pushing, "give_up"@, S::Dead),
    ]
}

/// The first row of `rows` for (`from`, `name`), if any.
pub open spec fn lookup(rows: Seq<Row>, from: S, name: Seq<char>) -> Option<S>
    decreases rows.len(),
{
    if rows.len() == 0 {
        None
    } else if rows[0].0 == from && rows[0].1 == name {
        Some(rows[0].2)
    } else {
        lookup(rows.drop_first(), from, name)
    }
}

/// The executable truth table (one row per legal transition).
pub fn transitions() -> (t: [(S, &'static str, S); 10])
    ensures
        t@.len() == table().len(),
        forall|i: int|
            0 <= i < t@.len() ==> (#[trigger] t@[i]).0 == table()[i].0 && t@[i].1@ == table()[i].1
                && t@[i].2 == table()[i].2,
{
    let t = [
        (S::Queued, "push_started", S::Pushing),
        (S::Pushing, "push_ok", S::Delivered),
        (S::Pushing, "push_rejected", S::Queued),
        (S::Pushing, "push_errored", S::Queued),
        (S::Queued, "poll_claimed", S::Delivered),
        (S::Delivered, "read_receipt", S::Read),
        (S::Delivered, "ack", S::Acked),
        (S::Read, "ack", S::Acked),
        (S::Queued, "give_up", S::Dead),
        (S::Pushing, "give_up", S::Dead),
    ];
    assert(t@.len() == 10);
    t
}

/// What [`apply`] answers: the table's row, the benign `NoOp` for a second
/// `PushStarted` on a `Pushing` letter, or a refusal.
pub open spec fn spec_apply(status: S, e: Event) -> Option<Transition> {
    match lookup(table(), status, event_name(e)) {
        Some(to) => Some(Transition::To(to)),
        None => if (e is PushStarted) && status == S::Pushing {
            Some(Transition::NoOp(status))
        } else {
            None
        },
    }
}

/// The same answer written as a plain case split on status and event.
pub open spec fn next_status(status: S, e: Event) -> Option<S> {
    match (status, e) {
        (S::Queued, Event::PushStarted) => Some(S::Pushing),
        (S::Pushing, Event::PushOk) => Some(S::Delivered),
        (S::Pushing, Event::PushRejected { .. }) => Some(S::Queued),
        (S::Pushing, Event::PushErrored { .. }) => Some(S::Queued),
        (S::Queued, Event::PollClaimed) => Some(S::Delivered),
        (S::Delivered, Event::ReadReceipt) => Some(S::Read),
        (S::Delivered, Event::Ack { .. }) => Some(S::Acked),
        (S::Read, Event::Ack { .. }) => Some(S::Acked),
        (S::Queued, Event::GiveUp { .. }) => Some(S::Dead),
        (S::Pushing, Event::GiveUp { .. }) => Some(S::Dead),
        _ => None,
    }
}

proof fn lemma_lookup_skip(rows: Seq<Row>, i: int, from: S, name: Seq<char>)
    requires
        0 <= i < rows.len(),
        !(rows[i].0 == from && rows[i].1 == name),
    ensures
        lookup(rows.skip(i), from, name) == lookup(rows.skip(i + 1), from, name),
{
    assert(rows.skip(i).drop_first() =~= rows.skip(i + 1));
}

/// The table, read row by row, says exactly what the case split says.
pub proof fn lemma_table_matches_cases(status: S, e: Event)
    ensures
        lookup(table(), status, event_name(e)) == next_status(status, e),
{
    reveal_strlit("push_started");
    reveal_strlit("push_ok");
    reveal_strlit("push_rejected");
    reveal_strlit("push_errored");
    reveal_strlit("poll_claimed");
    reveal_strlit("read_receipt");
    reveal_strlit("ack");
    reveal_strlit("give_up");
    assert("push_started"@.len() == 12 && "push_started"@[1] == 'u' && "push_started"@[5] == 's' && "push_started"@[0] == 'p');
    assert("push_ok"@.len() == 7 && "push_ok"@[0] == 'p');
    assert("push_rejected"@.len() == 13);
    assert("push_errored"@.len() == 12 && "push_errored"@[1] == 'u' && "push_errored"@[5] == 'e' && "push_errored"@[0] == 'p');
    assert("poll_claimed"@.len() == 12 && "poll_claimed"@[1] == 'o' && "poll_claimed"@[0] == 'p');
    assert("read_receipt"@.len() == 12 && "read_receipt"@[0] == 'r');
    assert("ack"@.len() == 3);
    assert("give_up"@.len() == 7 && "give_up"@[0] == 'g');
    reveal_with_fuel(lookup, 11);
}

/// Apply `event` to `status`. Pure function — no I/O, no side effects.
/// `Err` carries the event name and the refused state.
pub fn apply(status: S, event: &Event) -> (r: Result<Transition, Illegal>)
    ensures
        match r {
            Ok(t) => spec_apply(status, *event) == Some(t),
            Err(ill) => spec_apply(status, *event) is None && ill.event@ == event_name(*event)
                && ill.from == status,
        },
{
    let name = event.name();
    let rows = transitions();
    let mut i: usize = 0;
    proof {
        assert(table().skip(0) =~= table());
    }
    while i < 10
        invariant
            0 <= i <= 10,
            rows@.len() == table().len(),
            name@ == event_name(*event),
            forall|k: int|
                0 <= k < rows@.len() ==> (#[trigger] rows@[k]).0 == table()[k].0 && rows@[k].1@
                    == table()[k].1 && rows@[k].2 == table()[k].2,
            lookup(table(), status, name@) == lookup(table().skip(i as int), status, name@),
        decreases 10 - i,
    {
        let (from, ev, to) = rows[i];
        if from == status && same_text(ev, name) {
            proof {
                assert(table().skip(i as int)[0] == table()[i as int]);
            }
            return Ok(Transition::To(to));
        }
        proof {
            lemma_lookup_skip(table(), i as int, status, name@);
        }
        i = i + 1;
    }
    proof {
        assert(table().skip(10).len() == 0);
    }
    if let Event::PushStarted = event {
        if status == S::Pushing {
            return Ok(Transition::NoOp(status));
        }
    }
    Err(Illegal { event: name, from: status })
}

/// Law: the table and the case split agree, so `apply` moves a letter exactly
/// along the documented lifecycle.
pub proof fn law_apply_follows_lifecycle(status: S, e: Event)
    ensures
        match spec_apply(status, e) {
            Some(Transition::To(to)) => next_status(status, e) == Some(to),
            Some(Transition::NoOp(s)) => s == status && status == S::Pushing && (e is PushStarted),
            None => next_status(status, e) is None && !((e is PushStarted) && status == S::Pushing),
        },
{
    lemma_table_matches_cases(status, e);
}

/// Law: `Dead` and `Acked` are terminal — no event leaves them, not even the
/// benign `NoOp`.
pub proof fn law_terminal_states(e: Event)
    ensures
        spec_apply(S::Dead, e) is None,
        spec_apply(S::Acked, e) is None,
{
    lemma_table_matches_cases(S::Dead, e);
    lemma_table_matches_cases(S::Acked, e);
}

/// Law: only a landed push or a poll claim moves a letter into `Delivered`,
/// and only an ack into `Acked`.
pub proof fn law_delivery_and_ack_entries(status: S, e: Event)
    ensures
        spec_apply(status, e) == Some(Transition::To(S::Delivered)) ==> (e is PushOk) || (
        e is PollClaimed),
        spec_apply(status, e) == Some(Transition::To(S::Acked)) ==> (e is Ack) && (status
            == S::Delivered || status == S::Read),
        spec_apply(status, e) == Some(Transition::To(S::Read)) ==> (e is ReadReceipt) && status
            == S::Delivered,
{
    lemma_table_matches_cases(status, e);
}

/// Poison-letter policy: after this many failed push attempts the letter is
/// declared Dead instead of retrying forever.
pub const MAX_ATTEMPTS: u32 = 8;

/// A push that has not come back within this window is treated as errored by
/// the sweeper.
pub const PUSHING_TIMEOUT_SECS: i128 = 150;

/// Side-channel facts updated alongside a transition.
#[derive(Debug, Default)]
pub struct Bookkeeping {
    pub attempts: Option<u32>,
    pub last_error: Option<String>,
    pub last_push_at: Option<i128>,
    pub dead_reason: Option<String>,
}

/// Derive bookkeeping deltas for a transition. `prev_attempts` is the letter's
/// current attempt count; `now` the time in nanoseconds.
pub fn bookkeep(event: &Event, prev_attempts: u32, now: i128) -> (bk: Bookkeeping)
    requires
        (event is PushStarted) ==> prev_attempts < u32::MAX,
    ensures
        bk.attempts == (if event is PushStarted { Some((prev_attempts + 1) as u32) } else { None }),
        bk.last_push_at == (if event is PushStarted { Some(now) } else { None }),
        match *event {
            Event::PushRejected { reason } => bk.last_error == Some(reason),
            Event::PushErrored { reason } => bk.last_error == Some(reason),
            _ => bk.last_error is None,
        },
        match *event {
            Event::GiveUp { reason } => bk.dead_reason == Some(reason),
            _ => bk.dead_reason is None,
        },
{
    match event {
        Event::PushStarted => Bookkeeping {
            attempts: Some(prev_attempts + 1),
            last_error: None,
            last_push_at: Some(now),
            dead_reason: None,
        },
        Event::PushRejected { reason } => Bookkeeping {
            attempts: None,
            last_error: Some(reason.clone()),
            last_push_at: None,
            dead_reason: None,
        },
        Event::PushErrored { reason } => Bookkeeping {
            attempts: None,
            last_error: Some(reason.clone()),
            last_push_at: None,
            dead_reason: None,
        },
        Event::GiveUp { reason } => Bookkeeping {
            attempts: None,
            last_error: None,
            last_push_at: None,
            dead_reason: Some(reason.clone()),
        },
        _ => Bookkeeping { attempts: None, last_error: None, last_push_at: None, dead_reason: None },
    }
}

/// Should this letter be declared dead? Called after a failed push.
pub fn should_give_up(attempts: u32) -> (r: bool)
    ensures
        r == (attempts >= MAX_ATTEMPTS),
{
    attempts >= MAX_ATTEMPTS
}

} // verus!
