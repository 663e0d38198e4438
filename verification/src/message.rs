//! Message model — the hot potato itself.
//!
//! Times are nanoseconds since the Unix epoch (UTC), as `i128`: wide enough
//! for every instant chrono's `DateTime<Utc>` can hold.

use vstd::prelude::*;
use crate::text::same_text;

verus! {

/// Message priority-free by design: a mailbox, not a queue with SLAs.
#[derive(Debug, Clone, Copy, PartialEq, Eq, Structural)]
pub enum MsgType {
    /// A task assignment.
    Task,
    /// A reply threading on a previous message (`ref` must be set).
    Reply,
    /// Broadcast to all agents. Permission-gated at the bus.
    Broadcast,
    /// Pure lifecycle notification (no payload beyond the note).
    AckOnly,
}

/// Where a letter stands in its lifecycle.
#[derive(Debug, Clone, Copy, PartialEq, Eq, Structural)]
pub enum MessageStatus {
    /// Written to the recipient's mailbox, recipient unaware.
    Queued,
    /// A dispatcher has claimed the letter and is pushing it.
    Pushing,
    /// Recipient polled it, or a push landed — the potato is in their hands.
    Delivered,
    /// Recipient opened/read the payload (chatlog-style read receipt).
    Read,
    /// Recipient finished their part and filed the result.
    Acked,
    /// The letter exhausted its push attempts; terminal.
    Dead,
}

/// One letter.
#[derive(Debug)]
pub struct Message {
    pub id: String,
    pub sender: String,
    pub receiver: String,
    pub msg_type: MsgType,
    /// One-line summary — a scanning receiver decides urgency from this.
    pub subject: String,
    /// Full payload. Keep files as paths, not contents.
    pub body: String,
    /// Thread parent for replies (`ref` on the wire).
    pub ref_id: Option<String>,
    pub status: MessageStatus,
    pub created_at: i128,
    pub delivered_at: Option<i128>,
    /// Chatlog-style read receipt: when the recipient actually opened it.
    pub read_at: Option<i128>,
    pub acked_at: Option<i128>,
    /// At most 80 characters of completion summary, written on ack.
    pub ack_note: Option<String>,
    /// Federation: how many inter-bus links this letter has crossed.
    pub hops: u8,
    /// Federation: pool that handed this letter over, if any.
    pub forwarded_from: Option<String>,
    /// How many pushes have been started for this letter.
    pub attempts: u32,
    pub last_push_at: Option<i128>,
    pub last_error: Option<String>,
    pub dead_reason: Option<String>,
}

/// A copy of an optional text.
pub fn clone_opt_text(o: &Option<String>) -> (r: Option<String>)
    ensures
        r == *o,
{
    match o {
        Some(s) => Some(s.clone()),
        None => None,
    }
}

impl Clone for Message {
    fn clone(&self) -> (r: Self)
        ensures
            r == *self,
    {
        Message {
            id: self.id.clone(),
            sender: self.sender.clone(),
            receiver: self.receiver.clone(),
            msg_type: self.msg_type,
            subject: self.subject.clone(),
            body: self.body.clone(),
            ref_id: clone_opt_text(&self.ref_id),
            status: self.status,
            created_at: self.created_at,
            delivered_at: self.delivered_at,
            read_at: self.read_at,
            acked_at: self.acked_at,
            ack_note: clone_opt_text(&self.ack_note),
            hops: self.hops,
            forwarded_from: clone_opt_text(&self.forwarded_from),
            attempts: self.attempts,
            last_push_at: self.last_push_at,
            last_error: clone_opt_text(&self.last_error),
            dead_reason: clone_opt_text(&self.dead_reason),
        }
    }
}

/// A lowercase hexadecimal digit.
pub open spec fn is_lower_hex(c: char) -> bool {
    ('0' <= c && c <= '9') || ('a' <= c && c <= 'f')
}

/// `uuid::Uuid::new_v4().simple()` rendered as text: a random version-4 UUID in
/// the "simple" format. uuid documents that format as 32 lowercase
/// hexadecimal digits; which digits come out is chance and is not stated.
#[verifier::external_body]
fn fresh_letter_id() -> (id: String)
    ensures
        id@.len() == 32,
        forall|i: int| 0 <= i < 32 ==> is_lower_hex(#[trigger] id@[i]),
{
    uuid::Uuid::new_v4().simple().to_string()
}

/// `chrono::Utc::now()`, read as whole seconds since the epoch
/// (`timestamp()`) and the nanoseconds past that second
/// (`timestamp_subsec_nanos()`). chrono documents the latter as below
/// 1,000,000,000, or below 2,000,000,000 during a leap second; the time
/// itself is not stated.
#[verifier::external_body]
fn clock_parts() -> (t: (i64, u32))
    ensures
        t.1 < 2_000_000_000,
{
    let now = chrono::Utc::now();
    (now.timestamp(), now.timestamp_subsec_nanos())
}

/// The current time in nanoseconds since the epoch (over the whole range of
/// chrono's `DateTime<Utc>`).
pub fn now_nanos() -> (t: i128) {
    let (secs, sub) = clock_parts();
    proof {
        assert(-0x8000_0000_0000_0000 * 1_000_000_000 <= secs * 1_000_000_000 <= 0x7fff_ffff_ffff_ffff * 1_000_000_000)
            by (nonlinear_arith)
            requires
                -0x8000_0000_0000_0000 <= secs <= 0x7fff_ffff_ffff_ffff,
        ;
    }
    (secs as i128) * 1_000_000_000 + (sub as i128)
}

/// A fresh letter id (32 lowercase hex digits, random).
pub fn new_letter_id() -> (id: String)
    ensures
        id@.len() == 32,
        forall|i: int| 0 <= i < 32 ==> is_lower_hex(#[trigger] id@[i]),
{
    fresh_letter_id()
}

/// A freshly written letter: the given fields, `Queued`, no receipts yet.
pub open spec fn fresh_letter(
    m: Message,
    id: Seq<char>,
    created_at: i128,
    sender: Seq<char>,
    receiver: Seq<char>,
    msg_type: MsgType,
    subject: Seq<char>,
    body: Seq<char>,
    ref_id: Option<String>,
) -> bool {
    &&& m.id@ == id
    &&& m.sender@ == sender
    &&& m.receiver@ == receiver
    &&& m.msg_type == msg_type
    &&& m.subject@ == subject
    &&& m.body@ == body
    &&& m.ref_id == ref_id
    &&& m.status == MessageStatus::Queued
    &&& m.created_at == created_at
    &&& m.delivered_at is None
    &&& m.read_at is None
    &&& m.acked_at is None
    &&& m.ack_note is None
    &&& m.hops == 0
    &&& m.forwarded_from is None
    &&& m.attempts == 0
    &&& m.last_push_at is None
    &&& m.last_error is None
    &&& m.dead_reason is None
}

impl Message {
    /// A new letter with a given id and creation time.
    pub fn with_identity(
        id: String,
        created_at: i128,
        sender: &str,
        receiver: &str,
        msg_type: MsgType,
        subject: &str,
        body: &str,
        ref_id: Option<String>,
    ) -> (m: Message)
        ensures
            fresh_letter(m, id@, created_at, sender@, receiver@, msg_type, subject@, body@, ref_id),
    {
        Message {
            id,
            sender: String::from_str(sender),
            receiver: String::from_str(receiver),
            msg_type,
            subject: String::from_str(subject),
            body: String::from_str(body),
            ref_id,
            status: MessageStatus::Queued,
            created_at,
            delivered_at: None,
            read_at: None,
            acked_at: None,
            ack_note: None,
            hops: 0,
            forwarded_from: None,
            attempts: 0,
            last_push_at: None,
            last_error: None,
            dead_reason: None,
        }
    }

    /// A new letter: random id, stamped now, `Queued`.
    pub fn new(
        sender: &str,
        receiver: &str,
        msg_type: MsgType,
        subject: &str,
        body: &str,
        ref_id: Option<String>,
    ) -> (m: Message)
        ensures
            m.id@.len() == 32,
            fresh_letter(m, m.id@, m.created_at, sender@, receiver@, msg_type, subject@, body@, ref_id),
    {
        let id = new_letter_id();
        let now = now_nanos();
        Message::with_identity(id, now, sender, receiver, msg_type, subject, body, ref_id)
    }
}

/// Index of the last letter in `all` with id `id`, or -1. (A map keyed by id,
/// collected in order, keeps the last one.)
pub open spec fn last_index_of(all: Seq<Message>, id: Seq<char>) -> int
    decreases all.len(),
{
    if all.len() == 0 {
        -1
    } else if all.last().id@ == id {
        all.len() - 1
    } else {
        last_index_of(all.drop_last(), id)
    }
}

pub proof fn lemma_last_index_of_range(all: Seq<Message>, id: Seq<char>)
    ensures
        -1 <= last_index_of(all, id) < all.len(),
        last_index_of(all, id) >= 0 ==> all[last_index_of(all, id)].id@ == id,
        last_index_of(all, id) == -1 ==> forall|i: int| 0 <= i < all.len() ==> all[i].id@ != id,
    decreases all.len(),
{
    if all.len() > 0 {
        lemma_last_index_of_range(all.drop_last(), id);
        if last_index_of(all, id) == -1 {
            assert forall|i: int| 0 <= i < all.len() implies all[i].id@ != id by {
                if i < all.len() - 1 {
                    assert(all.drop_last()[i] == all[i]);
                }
            }
        }
    }
}

/// The id of the parent that the letter with id `cur` points to, if any.
pub open spec fn parent_of(all: Seq<Message>, cur: Seq<char>) -> Option<Seq<char>> {
    let k = last_index_of(all, cur);
    if k >= 0 {
        match all[k].ref_id {
            Some(r) => Some(r@),
            None => None,
        }
    } else {
        None
    }
}

/// Follow `ref` links from `cur` for at most `fuel` hops, stopping at a letter
/// with no parent, a dangling parent, or a self-reference.
pub open spec fn root_walk(all: Seq<Message>, cur: Seq<char>, fuel: nat) -> Seq<char>
    decreases fuel,
{
    if fuel == 0 {
        cur
    } else {
        match parent_of(all, cur) {
            Some(next) => if last_index_of(all, next) >= 0 && next != cur {
                root_walk(all, next, (fuel - 1) as nat)
            } else {
                cur
            },
            None => cur,
        }
    }
}

/// How many hops the thread-root walk may take.
pub const THREAD_WALK_LIMIT: u32 = 32;

/// Position of the last letter with the given id.
pub fn find_last(all: &[Message], id: &str) -> (r: Option<usize>)
    ensures
        match r {
            Some(k) => k as int == last_index_of(all@, id@),
            None => last_index_of(all@, id@) == -1,
        },
{
    let mut i = all.len();
    proof {
        assert(all@.take(all@.len() as int) =~= all@);
    }
    while i > 0
        invariant
            i <= all@.len(),
            last_index_of(all@, id@) == last_index_of(all@.take(i as int), id@),
        decreases i,
    {
        let ghost prefix = all@.take(i as int);
        if same_text(all[i - 1].id.as_str(), id) {
            return Some(i - 1);
        }
        proof {
            assert(prefix.drop_last() =~= all@.take(i - 1));
        }
        i = i - 1;
    }
    None
}

impl Message {
    /// Walk the ref-chain from `id` to its thread root using the full letter
    /// list. Robust against cycles and dangling refs (caps at 32 hops). The
    /// root id is the stable per-thread key used for A2A `contextId`.
    pub fn thread_root_id(all: &[Message], id: &str) -> (r: String)
        ensures
            r@ == root_walk(all@, id@, THREAD_WALK_LIMIT as nat),
    {
        proof {
            assert(all@.take(all@.len() as int) =~= all@);
        }
        let mut cur = String::from_str(id);
        let mut step: u32 = 0;
        while step < THREAD_WALK_LIMIT
            invariant
                step <= THREAD_WALK_LIMIT,
                root_walk(all@, id@, THREAD_WALK_LIMIT as nat)
                    == root_walk(all@, cur@, (THREAD_WALK_LIMIT - step) as nat),
            decreases THREAD_WALK_LIMIT - step,
        {
            let k = find_last(all, cur.as_str());
            match k {
                None => {
                    return cur;
                },
                Some(k) => {
                    proof {
                        lemma_last_index_of_range(all@, cur@);
                    }
                    match &all[k].ref_id {
                        None => {
                            return cur;
                        },
                        Some(next) => {
                            let found = find_last(all, next.as_str());
                            if found.is_none() || same_text(next.as_str(), cur.as_str()) {
                                return cur;
                            }
                            cur = next.clone();
                        },
                    }
                },
            }
            step = step + 1;
        }
        cur
    }
}

} // verus!
