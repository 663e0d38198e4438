//! What the mailbox operations promise across calls: polling only claims
//! queued letters and loses none, a refused push is never a delivery and
//! never loses its letter, and an ack is idempotent.

use vstd::prelude::*;
use crate::error::BusError;
use crate::message::{Message, MessageStatus};
use crate::state::{spec_apply, Event, Transition};
use crate::store::memory::{
    ack_outcome, acked_with, claimed_letter, delivered_letter, failed_letter, letter_index, locate, owner_index,
    poll_step, push_failed_outcome, read_letter, released_letter, set_box, unchanged, BoxesView, InMemoryStore,
};

verus! {

/// How many queued letters `s` holds.
pub open spec fn count_queued(s: Seq<Message>) -> nat
    decreases s.len(),
{
    if s.len() == 0 {
        0
    } else {
        (if s[0].status == MessageStatus::Queued { 1nat } else { 0nat }) + count_queued(s.drop_first())
    }
}

/// Law: poll = claim. A poll step keeps every letter of the mailbox in
/// place, changes only queued letters, each into its delivered form stamped
/// `now`, and returns only delivered letters: exactly `min(limit, queued)`
/// of them (none for a limit of 0). A limit covering the queued letters
/// drains the mailbox of them.
pub proof fn law_poll_claims_only_queued(s: Seq<Message>, limit: nat, now: i128)
    ensures
        poll_step(s, limit, now).0.len() == s.len(),
        forall|i: int|
            0 <= i < s.len() ==> #[trigger] poll_step(s, limit, now).0[i] == s[i] || (s[i].status
                == MessageStatus::Queued && poll_step(s, limit, now).0[i] == delivered_letter(s[i], now)),
        forall|i: int|
            0 <= i < poll_step(s, limit, now).1.len() ==> (#[trigger] poll_step(s, limit, now).1[i]).status
                == MessageStatus::Delivered && poll_step(s, limit, now).1[i].delivered_at == Some(now),
        poll_step(s, limit, now).1.len() == (if limit < count_queued(s) { limit } else { count_queued(s) }),
        limit >= count_queued(s) ==> forall|i: int|
            0 <= i < s.len() ==> (#[trigger] poll_step(s, limit, now).0[i]).status != MessageStatus::Queued,
    decreases s.len(),
{
    if s.len() > 0 && limit > 0 {
        let t = s.drop_first();
        let lim2: nat = if s[0].status == MessageStatus::Queued { (limit - 1) as nat } else { limit };
        law_poll_claims_only_queued(t, lim2, now);
        let rest = poll_step(t, lim2, now);
        let p = poll_step(s, limit, now);
        assert(p.0 =~= seq![p.0[0]] + rest.0);
        assert forall|i: int| 0 <= i < s.len() implies #[trigger] poll_step(s, limit, now).0[i] == s[i] || (
        s[i].status == MessageStatus::Queued && poll_step(s, limit, now).0[i] == delivered_letter(s[i], now)) by {
            if i > 0 {
                assert(p.0[i] == rest.0[i - 1]);
                assert(t[i - 1] == s[i]);
            }
        }
        if s[0].status == MessageStatus::Queued {
            assert forall|i: int| 0 <= i < poll_step(s, limit, now).1.len() implies (#[trigger] poll_step(
                s,
                limit,
                now,
            ).1[i]).status == MessageStatus::Delivered && poll_step(s, limit, now).1[i].delivered_at == Some(now) by {
                if i > 0 {
                    assert(p.1[i] == rest.1[i - 1]);
                }
            }
        }
        if limit >= count_queued(s) {
            assert forall|i: int| 0 <= i < s.len() implies (#[trigger] poll_step(s, limit, now).0[i]).status
                != MessageStatus::Queued by {
                if i > 0 {
                    assert(p.0[i] == rest.0[i - 1]);
                }
            }
        }
    } else if s.len() > 0 && limit >= count_queued(s) {
        assert forall|i: int| 0 <= i < s.len() implies (#[trigger] poll_step(s, limit, now).0[i]).status
            != MessageStatus::Queued by {
            lemma_no_queued(s, i);
        }
    }
}

/// A list without queued letters has none at any position.
proof fn lemma_no_queued(s: Seq<Message>, i: int)
    requires
        count_queued(s) == 0,
        0 <= i < s.len(),
    ensures
        s[i].status != MessageStatus::Queued,
    decreases s.len(),
{
    if i > 0 {
        assert(s.drop_first()[i - 1] == s[i]);
        lemma_no_queued(s.drop_first(), i - 1);
    }
}

proof fn lemma_owner_index_same_names(m: BoxesView, k: int, letters: Seq<Message>, agent: Seq<char>)
    requires
        0 <= k < m.len(),
    ensures
        owner_index(set_box(m, k, letters), agent) == owner_index(m, agent),
    decreases m.len(),
{
    let b = set_box(m, k, letters);
    assert(b[0].0 == m[0].0);
    if k > 0 {
        assert(b.drop_first() =~= set_box(m.drop_first(), k - 1, letters));
        lemma_owner_index_same_names(m.drop_first(), k - 1, letters, agent);
    } else {
        assert(b.drop_first() =~= m.drop_first());
    }
}

proof fn lemma_letter_index_update(s: Seq<Message>, j: int, x: Message, id: Seq<char>)
    requires
        letter_index(s, id) == j,
        0 <= j < s.len(),
        x.id@ == id,
    ensures
        letter_index(s.update(j, x), id) == j,
    decreases s.len(),
{
    if j > 0 {
        assert(s.update(j, x).drop_first() =~= s.drop_first().update(j - 1, x));
        lemma_letter_index_update(s.drop_first(), j - 1, x, id);
    }
}

/// Replacing a letter by one with the same id leaves it where it was found.
proof fn lemma_locate_after_replace(m: BoxesView, agent: Seq<char>, id: Seq<char>, x: Message)
    requires
        locate(m, agent, id) is Some,
        x.id@ == id,
    ensures
        ({
            let (k, j) = locate(m, agent, id).unwrap();
            locate(set_box(m, k, m[k].1.update(j, x)), agent, id) == locate(m, agent, id)
        }),
{
    let (k, j) = locate(m, agent, id).unwrap();
    crate::store::memory::lemma_owner_index_range(m, agent);
    crate::store::memory::lemma_letter_index_range(m[k].1, id);
    lemma_owner_index_same_names(m, k, m[k].1.update(j, x), agent);
    lemma_letter_index_update(m[k].1, j, x, id);
}

/// Law: a refused push is never a delivery and never loses its letter. The
/// letter stays where it was, back in `Queued` (or `Dead` once its attempts
/// are used up), with no delivery stamp it did not already have.
pub proof fn law_failed_push_keeps_letter(
    before: InMemoryStore,
    after: InMemoryStore,
    agent: Seq<char>,
    id: Seq<char>,
    error: Seq<char>,
    r: Result<Message, BusError>,
)
    requires
        push_failed_outcome(before, after, agent, id, error, r),
        r is Ok,
    ensures
        locate(after.boxes(), agent, id) == locate(before.boxes(), agent, id),
        ({
            let (k, j) = locate(before.boxes(), agent, id).unwrap();
            let n = r->Ok_0;
            &&& n.status == MessageStatus::Queued || n.status == MessageStatus::Dead
            &&& n.delivered_at == before.boxes()[k].1[j].delivered_at
            &&& after.boxes()[k].1[j] == n
            &&& after.boxes()[k].1.len() == before.boxes()[k].1.len()
        }),
{
    let (k, j) = locate(before.boxes(), agent, id).unwrap();
    crate::store::memory::lemma_owner_index_range(before.boxes(), agent);
    crate::store::memory::lemma_letter_index_range(before.boxes()[k].1, id);
    let n = r->Ok_0;
    lemma_locate_after_replace(before.boxes(), agent, id, n);
}

/// Law: an ack is idempotent. Acking a letter again — with any note, at any
/// time — gives back the same letter and changes nothing.
pub proof fn law_ack_idempotent(
    before: InMemoryStore,
    mid: InMemoryStore,
    after: InMemoryStore,
    agent: Seq<char>,
    id: Seq<char>,
    first_note: Seq<char>,
    second_note: Seq<char>,
    first_at: i128,
    second_at: i128,
    first: Result<Message, BusError>,
    second: Result<Message, BusError>,
)
    requires
        ack_outcome(before, mid, agent, id, first_note, first_at, first),
        first is Ok,
        ack_outcome(mid, after, agent, id, second_note, second_at, second),
    ensures
        second == first,
        unchanged(mid, after),
{
    let (k, j) = locate(before.boxes(), agent, id).unwrap();
    crate::store::memory::lemma_owner_index_range(before.boxes(), agent);
    crate::store::memory::lemma_letter_index_range(before.boxes()[k].1, id);
    let m = before.boxes()[k].1[j];
    if m.status != MessageStatus::Acked {
        let a = first->Ok_0;
        lemma_locate_after_replace(before.boxes(), agent, id, a);
        assert(mid.boxes()[k].1[j] == a);
    }
}

/// Law: an ack files the letter and keeps its read receipt. Acking a
/// delivered or read letter at `now` answers with that letter acked at
/// `now`, stores exactly that answer in its place, and keeps an earlier
/// `read_at` as it was; only a letter never read gets `read_at = now`.
/// Everything else on the letter (id, parties, content, earlier receipts)
/// is kept.
pub proof fn law_ack_keeps_the_read_receipt(
    before: InMemoryStore,
    after: InMemoryStore,
    agent: Seq<char>,
    id: Seq<char>,
    note: Seq<char>,
    now: i128,
    r: Result<Message, BusError>,
    k: int,
    j: int,
)
    requires
        ack_outcome(before, after, agent, id, note, now, r),
        locate(before.boxes(), agent, id) == Some((k, j)),
        before.boxes()[k].1[j].status == MessageStatus::Delivered || before.boxes()[k].1[j].status
            == MessageStatus::Read,
    ensures
        ({
            let m = before.boxes()[k].1[j];
            r matches Ok(a) && {
                &&& a.status == MessageStatus::Acked
                &&& a.acked_at == Some(now)
                &&& (m.read_at matches Some(t) ==> a.read_at == Some(t))
                &&& (m.read_at is None ==> a.read_at == Some(now))
                &&& a.id == m.id && a.sender == m.sender && a.receiver == m.receiver
                &&& a.subject == m.subject && a.body == m.body && a.created_at == m.created_at
                &&& a.delivered_at == m.delivered_at
                &&& after.boxes()[k].1[j] == a
            }
        }),
{
    crate::store::memory::lemma_owner_index_range(before.boxes(), agent);
    crate::store::memory::lemma_letter_index_range(before.boxes()[k].1, id);
}

/// Law: every status change the store makes is a row of the truth table.
/// A claim by poll or receipt (`PollClaimed`), a landed push (`PushOk`), a
/// read receipt, an ack, a push claim (`PushStarted`), a refused push
/// (`PushRejected`, or `GiveUp` once the attempts are used up) and a
/// released claim (`PushErrored`) each move the letter to exactly the state
/// `apply` names for that event, from the states the store accepts.
pub proof fn law_store_moves_follow_the_table(m: Message, n: Message, now: i128, text: Seq<char>, reason: String, note: Option<String>)
    ensures
        m.status == MessageStatus::Queued ==> spec_apply(m.status, Event::PollClaimed) == Some(
            Transition::To(delivered_letter(m, now).status),
        ),
        m.status == MessageStatus::Pushing ==> spec_apply(m.status, Event::PushOk) == Some(
            Transition::To(delivered_letter(m, now).status),
        ),
        m.status == MessageStatus::Delivered ==> spec_apply(m.status, Event::ReadReceipt) == Some(
            Transition::To(read_letter(m, now).status),
        ),
        (m.status == MessageStatus::Delivered || m.status == MessageStatus::Read) && acked_with(m, n, text, now)
            ==> spec_apply(m.status, Event::Ack { note }) == Some(Transition::To(n.status)),
        m.status == MessageStatus::Queued ==> spec_apply(m.status, Event::PushStarted) == Some(
            Transition::To(claimed_letter(m, now).status),
        ),
        m.status == MessageStatus::Pushing && failed_letter(m, n, text) && n.status == MessageStatus::Queued
            ==> spec_apply(m.status, Event::PushRejected { reason }) == Some(Transition::To(n.status)),
        m.status == MessageStatus::Pushing && failed_letter(m, n, text) && n.status == MessageStatus::Dead
            ==> spec_apply(m.status, Event::GiveUp { reason }) == Some(Transition::To(n.status)),
        m.status == MessageStatus::Pushing && released_letter(m, n, text) ==> spec_apply(
            m.status,
            Event::PushErrored { reason },
        ) == Some(Transition::To(n.status)),
{
    crate::state::law_apply_follows_lifecycle(m.status, Event::PollClaimed);
    crate::state::law_apply_follows_lifecycle(m.status, Event::PushOk);
    crate::state::law_apply_follows_lifecycle(m.status, Event::ReadReceipt);
    crate::state::law_apply_follows_lifecycle(m.status, Event::Ack { note });
    crate::state::law_apply_follows_lifecycle(m.status, Event::PushStarted);
    crate::state::law_apply_follows_lifecycle(m.status, Event::PushRejected { reason });
    crate::state::law_apply_follows_lifecycle(m.status, Event::GiveUp { reason });
    crate::state::law_apply_follows_lifecycle(m.status, Event::PushErrored { reason });
}

} // verus!
