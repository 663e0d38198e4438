//! The live feed's content: one event per lifecycle transition, and the
//! snapshot every hello frame and heartbeat carries — bus totals and each
//! mailbox's backlog, so a reconnecting agent sees its queue depth at once.

use vstd::prelude::*;
use crate::message::{Message, MessageStatus};
use crate::store::{receivers_of, sorted_receivers};
use crate::text::{same_text, strictly_sorted, text_views};

verus! {

/// One lifecycle event, as observers see it.
#[derive(Debug)]
pub struct BusEvent {
    /// `queued`, `delivered`, `read` or `acked`.
    pub event: &'static str,
    pub message: Message,
}

impl Clone for BusEvent {
    fn clone(&self) -> (r: Self)
        ensures
            r == *self,
    {
        BusEvent { event: self.event, message: self.message.clone() }
    }
}

/// Letters with an ack stamp, as a filter.
pub open spec fn acked_stamp_pred() -> spec_fn(Message) -> bool {
    |m: Message| m.acked_at is Some
}

/// Letters to `receiver` in status `status`, as a filter.
pub open spec fn to_in_status(receiver: Seq<char>, status: MessageStatus) -> spec_fn(Message) -> bool {
    |m: Message| m.receiver@ == receiver && m.status == status
}

/// Bus totals: every letter, and those acked.
#[derive(Debug, Clone, Copy)]
pub struct BusStats {
    pub total_letters: usize,
    pub acked: usize,
}

/// One mailbox's backlog: letters waiting (`queued`) and delivered but not
/// yet read (`unread`).
#[derive(Debug)]
pub struct Backlog {
    pub receiver: String,
    pub queued: usize,
    pub unread: usize,
}

/// Totals over every letter on the bus.
pub fn bus_stats(all: &[Message]) -> (r: BusStats)
    ensures
        r.total_letters == all@.len(),
        r.acked == all@.filter(acked_stamp_pred()).len(),
{
    let ghost pred = acked_stamp_pred();
    let n = all.len();
    let mut acked: usize = 0;
    let mut i: usize = 0;
    while i < n
        invariant
            n == all@.len(),
            0 <= i <= n,
            pred == acked_stamp_pred(),
            acked == all@.take(i as int).filter(pred).len(),
            acked <= i,
        decreases n - i,
    {
        proof {
            assert(all@.take(i + 1) =~= all@.take(i as int).push(all@[i as int]));
            all@.take(i as int).lemma_filter_push(all@[i as int], pred);
        }
        if all[i].acked_at.is_some() {
            acked = acked + 1;
        }
        i = i + 1;
    }
    proof {
        assert(all@.take(n as int) =~= all@);
    }
    BusStats { total_letters: n, acked }
}

/// How many letters to `receiver` are in `status`.
pub fn count_in_status(all: &[Message], receiver: &str, status: MessageStatus) -> (r: usize)
    ensures
        r == all@.filter(to_in_status(receiver@, status)).len(),
{
    let ghost pred = to_in_status(receiver@, status);
    let n = all.len();
    let mut count: usize = 0;
    let mut i: usize = 0;
    while i < n
        invariant
            n == all@.len(),
            0 <= i <= n,
            pred == to_in_status(receiver@, status),
            count == all@.take(i as int).filter(pred).len(),
            count <= i,
        decreases n - i,
    {
        proof {
            assert(all@.take(i + 1) =~= all@.take(i as int).push(all@[i as int]));
            all@.take(i as int).lemma_filter_push(all@[i as int], pred);
        }
        if all[i].status == status && same_text(all[i].receiver.as_str(), receiver) {
            count = count + 1;
        }
        i = i + 1;
    }
    proof {
        assert(all@.take(n as int) =~= all@);
    }
    count
}

/// The receiver names of a backlog.
pub open spec fn backlog_receivers(b: Seq<Backlog>) -> Seq<Seq<char>> {
    b.map_values(|x: Backlog| x.receiver@)
}

/// Each mailbox's backlog, one entry per receiver that has any letter,
/// receivers in ascending byte order.
pub fn mailbox_backlog(all: &[Message]) -> (r: Vec<Backlog>)
    ensures
        strictly_sorted(backlog_receivers(r@)),
        forall|t: Seq<char>| backlog_receivers(r@).contains(t) <==> receivers_of(all@).contains(t),
        forall|k: int|
            0 <= k < r@.len() ==> {
                &&& (#[trigger] r@[k]).queued == all@.filter(to_in_status(r@[k].receiver@, MessageStatus::Queued)).len()
                &&& r@[k].unread == all@.filter(to_in_status(r@[k].receiver@, MessageStatus::Delivered)).len()
            },
{
    let keys = sorted_receivers(all);
    let mut out: Vec<Backlog> = Vec::new();
    let n = keys.len();
    let mut i: usize = 0;
    while i < n
        invariant
            n == keys@.len(),
            0 <= i <= n,
            out@.len() == i,
            forall|k: int| 0 <= k < i ==> (#[trigger] out@[k]).receiver@ == keys@[k]@,
            forall|k: int|
                0 <= k < i ==> {
                    &&& (#[trigger] out@[k]).queued == all@.filter(to_in_status(out@[k].receiver@, MessageStatus::Queued)).len()
                    &&& out@[k].unread == all@.filter(to_in_status(out@[k].receiver@, MessageStatus::Delivered)).len()
                },
        decreases n - i,
    {
        let queued = count_in_status(all, keys[i].as_str(), MessageStatus::Queued);
        let unread = count_in_status(all, keys[i].as_str(), MessageStatus::Delivered);
        out.push(Backlog { receiver: keys[i].clone(), queued, unread });
        i = i + 1;
    }
    proof {
        assert(backlog_receivers(out@) =~= text_views(keys@));
    }
    out
}

} // verus!
