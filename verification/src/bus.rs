//! The bus itself — mailbox semantics on top of the store.
//!
//! It enforces the rules the mailbox lives by:
//! - senders must be registered (know your agents)
//! - replies must carry `ref` (threads are first-class, everything else is chat)
//! - broadcasts are permission-gated (only the PM role broadcasts)
//! - `status` gives senders a zero-LLM answer to "did my potato land?"

use vstd::prelude::*;
use crate::error::BusError;
use crate::message::{fresh_letter, new_letter_id, now_nanos, Message, MsgType};
use crate::store::fifo_order;
use crate::store::memory::{InMemoryStore, owner_index, lemma_filter_no_duplicates, lemma_mailbox_full_letters, lemma_push_keeps_other_letters, roster_with, set_box, with_box, letters_of,
    poll_outcome, read_outcome, delivered_outcome, ack_outcome, claim_outcome, push_ok_outcome,
    push_failed_outcome, reclaim_outcome, queued_pred, sent_by_pred, acked_pred, box_with_letter,
    letter_index, not_found, emptied, unchanged, other_than, texts_view};
use crate::text::{join3, same_text, text_of};

verus! {

/// Roles for permission checks. Nothing here is a topic router.
#[derive(Debug, Clone, Copy, PartialEq, Eq, Structural)]
pub enum Role {
    /// Project manager — may broadcast.
    Pm,
    /// Worker agent — sends tasks/replies to named peers.
    Worker,
}

/// The role recorded for `agent` (first entry), if any.
pub open spec fn role_lookup(t: Seq<(Seq<char>, Role)>, agent: Seq<char>) -> Option<Role>
    decreases t.len(),
{
    if t.len() == 0 {
        None
    } else if t[0].0 == agent {
        Some(t[0].1)
    } else {
        role_lookup(t.drop_first(), agent)
    }
}

/// What the bus rules say about a send, before anything is stored.
pub enum SendVerdict {
    UnknownSender,
    NotPermitted,
    ReplyWithoutRef,
    UnknownReceiver,
    Accepted,
}

/// The rules, in the order the bus checks them.
pub open spec fn send_verdict(
    roles: Seq<(Seq<char>, Role)>,
    sender: Seq<char>,
    receiver: Seq<char>,
    msg_type: MsgType,
    has_ref: bool,
) -> SendVerdict {
    if role_lookup(roles, sender) is None {
        SendVerdict::UnknownSender
    } else if msg_type == MsgType::Broadcast && role_lookup(roles, sender) != Some(Role::Pm) {
        SendVerdict::NotPermitted
    } else if msg_type == MsgType::Reply && !has_ref {
        SendVerdict::ReplyWithoutRef
    } else if msg_type != MsgType::Broadcast && role_lookup(roles, receiver) is None {
        SendVerdict::UnknownReceiver
    } else {
        SendVerdict::Accepted
    }
}

/// The refusal text for a broadcast by a non-PM sender.
pub open spec fn not_permitted_text(sender: Seq<char>) -> Seq<char> {
    "`"@ + sender + "` is not allowed to broadcast (PM role required)"@
}

/// The refusal text for a reply without a parent.
pub open spec fn missing_ref_text() -> Seq<char> {
    "reply messages must carry `ref` (the parent id)"@
}

/// The error a verdict refuses with (for refusing verdicts).
pub open spec fn verdict_error(v: SendVerdict, e: BusError, sender: Seq<char>, receiver: Seq<char>) -> bool {
    match v {
        SendVerdict::UnknownSender => e matches BusError::UnknownAgent(a) && a@ == sender,
        SendVerdict::NotPermitted => e matches BusError::Storage(t) && t@ == not_permitted_text(sender),
        SendVerdict::ReplyWithoutRef => e matches BusError::Storage(t) && t@ == missing_ref_text(),
        SendVerdict::UnknownReceiver => e matches BusError::UnknownAgent(a) && a@ == receiver,
        SendVerdict::Accepted => false,
    }
}

/// What a send refused by the bus rules answers: the verdict's error, and
/// the store as it was.
pub open spec fn send_refusals_hold(
    before: EventBus,
    after: EventBus,
    sender: Seq<char>,
    receiver: Seq<char>,
    msg_type: MsgType,
    has_ref: bool,
    r: Result<String, BusError>,
) -> bool {
    let v = send_verdict(before.roles(), sender, receiver, msg_type, has_ref);
    !(v is Accepted) ==> (r matches Err(e) && verdict_error(v, e, sender, receiver) && after.store()
        == before.store())
}

/// The letter a send writes: fresh, with the federation envelope set.
pub open spec fn envelope_letter(
    m: Message,
    id: Seq<char>,
    now: i128,
    sender: Seq<char>,
    receiver: Seq<char>,
    msg_type: MsgType,
    subject: Seq<char>,
    body: Seq<char>,
    ref_id: Option<String>,
    hops: u8,
    forwarded_from: Option<String>,
) -> bool {
    &&& fresh_letter(
        Message { hops: 0, forwarded_from: None, ..m },
        id,
        now,
        sender,
        receiver,
        msg_type,
        subject,
        body,
        ref_id,
    )
    &&& m.hops == hops
    &&& m.forwarded_from == forwarded_from
}

/// The store after appending `letter` to `receiver`'s mailbox (which comes
/// into existence if needed), when there is room.
pub open spec fn stored_after_push(before: InMemoryStore, after: InMemoryStore, receiver: Seq<char>, letter: Message) -> bool {
    let m1 = with_box(before.boxes(), receiver);
    let k = owner_index(m1, receiver);
    &&& after.boxes() == set_box(m1, k, m1[k].1.push(letter))
    &&& after.roster() == before.roster()
    &&& after.cap() == before.cap()
}

/// The receiver's mailbox is full (as the store sees it before the push).
pub open spec fn mailbox_full(before: InMemoryStore, receiver: Seq<char>) -> bool {
    let m1 = with_box(before.boxes(), receiver);
    m1[owner_index(m1, receiver)].1.len() >= before.cap()
}

/// No agent holds two rows of the role table: one role per agent.
pub open spec fn one_role_per_agent(t: Seq<(Seq<char>, Role)>) -> bool {
    forall|i: int, j: int| 0 <= i < j < t.len() ==> #[trigger] t[i].0 != #[trigger] t[j].0
}

/// The bus: a store plus the role table.
pub struct EventBus {
    store: InMemoryStore,
    roles: Vec<(String, Role)>,
}

impl EventBus {
    /// The mailboxes and roster underneath.
    pub closed spec fn store(self) -> InMemoryStore {
        self.store
    }

    /// Agent → role, first entry per agent.
    pub closed spec fn roles(self) -> Seq<(Seq<char>, Role)> {
        self.roles@.map_values(|p: (String, Role)| (p.0@, p.1))
    }

    /// The role of `agent`, if registered on the bus.
    pub open spec fn role_of_spec(self, agent: Seq<char>) -> Option<Role> {
        role_lookup(self.roles(), agent)
    }

    /// The bus's invariant: the store's (one mailbox and one roster place
    /// per agent) and one role per agent. Every operation keeps it.
    pub open spec fn well_formed(self) -> bool {
        &&& self.store().well_formed()
        &&& one_role_per_agent(self.roles())
    }

    pub fn new(store: InMemoryStore) -> (b: Self)
        ensures
            store.well_formed() ==> b.well_formed(),
            b.store() == store,
            b.roles() == Seq::<(Seq<char>, Role)>::empty(),
    {
        let b = EventBus { store, roles: Vec::new() };
        assert(b.roles() =~= Seq::<(Seq<char>, Role)>::empty());
        b
    }

    /// The role recorded for `agent`.
    pub fn role_of(&self, agent: &str) -> (r: Option<Role>)
        ensures
            r == self.role_of_spec(agent@),
    {
        let n = self.roles.len();
        let mut i: usize = 0;
        let ghost t = self.roles();
        proof {
            assert(t.skip(0) =~= t);
        }
        while i < n
            invariant
                n == self.roles@.len(),
                t == self.roles(),
                t.len() == n,
                0 <= i <= n,
                role_lookup(t, agent@) == role_lookup(t.skip(i as int), agent@),
            decreases n - i,
        {
            proof {
                assert(t.skip(i as int)[0] == t[i as int]);
                assert(t.skip(i as int).drop_first() =~= t.skip(i + 1));
            }
            if same_text(self.roles[i].0.as_str(), agent) {
                return Some(self.roles[i].1);
            }
            i = i + 1;
        }
        None
    }

    /// Is `agent` registered (has a role)?
    pub fn is_registered(&self, agent: &str) -> (r: bool)
        ensures
            r == (self.role_of_spec(agent@) is Some),
    {
        self.role_of(agent).is_some()
    }

    fn ensure_registered(&self, agent: &str) -> (r: Result<(), BusError>)
        ensures
            r is Ok <==> self.role_of_spec(agent@) is Some,
            r matches Err(e) ==> (e matches BusError::UnknownAgent(a) && a@ == agent@),
    {
        if self.is_registered(agent) {
            Ok(())
        } else {
            Err(BusError::UnknownAgent(String::from_str(agent)))
        }
    }
}

proof fn lemma_role_lookup_update(t: Seq<(Seq<char>, Role)>, i: int, agent: Seq<char>, role: Role, other: Seq<char>)
    requires
        0 <= i < t.len(),
        t[i].0 == agent,
        forall|j: int| 0 <= j < i ==> t[j].0 != agent,
    ensures
        role_lookup(t.update(i, (agent, role)), agent) == Some(role),
        other != agent ==> role_lookup(t.update(i, (agent, role)), other) == role_lookup(t, other),
    decreases i,
{
    if i > 0 {
        assert forall|j: int| 0 <= j < i - 1 implies t.drop_first()[j].0 != agent by {
            assert(t.drop_first()[j] == t[j + 1]);
        }
        assert(t.drop_first()[i - 1] == t[i]);
        lemma_role_lookup_update(t.drop_first(), i - 1, agent, role, other);
        assert(t.update(i, (agent, role)).drop_first() =~= t.drop_first().update(i - 1, (agent, role)));
    } else {
        assert(t.update(i, (agent, role)).drop_first() =~= t.drop_first());
    }
}

proof fn lemma_role_lookup_push(t: Seq<(Seq<char>, Role)>, agent: Seq<char>, role: Role, other: Seq<char>)
    requires
        role_lookup(t, agent) is None,
    ensures
        role_lookup(t.push((agent, role)), agent) == Some(role),
        other != agent ==> role_lookup(t.push((agent, role)), other) == role_lookup(t, other),
    decreases t.len(),
{
    let u = t.push((agent, role));
    if t.len() > 0 {
        lemma_role_lookup_push(t.drop_first(), agent, role, other);
        assert(u[0] == t[0]);
        assert(u.drop_first() =~= t.drop_first().push((agent, role)));
        if t[0].0 != other {
            assert(role_lookup(u, other) == role_lookup(u.drop_first(), other));
            assert(role_lookup(t, other) == role_lookup(t.drop_first(), other));
        }
    } else {
        assert(u[0] == (agent, role));
        assert(u.drop_first().len() == 0);
        if other != agent {
            assert(role_lookup(u, other) == role_lookup(u.drop_first(), other));
            assert(role_lookup(u.drop_first(), other) is None);
        }
    }
}

impl EventBus {
    /// Register an agent with a role (its mailbox comes into existence).
    /// Idempotent; a second registration replaces the role.
    pub fn register(&mut self, agent: &str, role: Role) -> (r: Result<(), BusError>)
        ensures
            old(self).well_formed() ==> final(self).well_formed(),
            r is Ok,
            final(self).role_of_spec(agent@) == Some(role),
            forall|a: Seq<char>| a != agent@ ==> #[trigger] final(self).role_of_spec(a) == old(self).role_of_spec(a),
            final(self).store().roster() == roster_with(old(self).store().roster(), agent@),
            final(self).store().boxes() == with_box(old(self).store().boxes(), agent@),
            final(self).store().cap() == old(self).store().cap(),
    {
        let _ = self.store.register(agent);
        let n = self.roles.len();
        let mut i: usize = 0;
        let ghost t = self.roles();
        let ghost st = self.store;
        while i < n
            invariant
                self.store == st,
                st.roster() == roster_with(old(self).store().roster(), agent@),
                st.boxes() == with_box(old(self).store().boxes(), agent@),
                st.cap() == old(self).store().cap(),
                old(self).store().well_formed() ==> st.well_formed(),
                t == old(self).roles(),
                n == self.roles@.len(),
                t == self.roles(),
                t.len() == n,
                0 <= i <= n,
                forall|j: int| 0 <= j < i ==> t[j].0 != agent@,
            decreases n - i,
        {
            if same_text(self.roles[i].0.as_str(), agent) {
                self.roles.set(i, (String::from_str(agent), role));
                proof {
                    assert(self.roles() =~= t.update(i as int, (agent@, role)));
                    assert forall|a: Seq<char>| a != agent@ implies #[trigger] role_lookup(self.roles(), a) == role_lookup(t, a) by {
                        lemma_role_lookup_update(t, i as int, agent@, role, a);
                    }
                    lemma_role_lookup_update(t, i as int, agent@, role, agent@);
                    let u = self.roles();
                    if one_role_per_agent(t) {
                        assert forall|x: int, y: int| 0 <= x < y < u.len() implies #[trigger] u[x].0
                            != #[trigger] u[y].0 by {
                            assert(u[x].0 == t[x].0 && u[y].0 == t[y].0);
                        }
                    }
                }
                return Ok(());
            }
            i = i + 1;
        }
        proof {
            assert forall|j: int| 0 <= j < t.len() implies t[j].0 != agent@ by {}
            lemma_role_lookup_none(t, agent@);
        }
        self.roles.push((String::from_str(agent), role));
        proof {
            assert(self.roles() =~= t.push((agent@, role)));
            assert forall|a: Seq<char>| a != agent@ implies #[trigger] role_lookup(self.roles(), a) == role_lookup(t, a) by {
                lemma_role_lookup_push(t, agent@, role, a);
            }
            lemma_role_lookup_push(t, agent@, role, agent@);
            let u = self.roles();
            if one_role_per_agent(t) {
                assert forall|x: int, y: int| 0 <= x < y < u.len() implies #[trigger] u[x].0 != #[trigger] u[y].0 by {
                    if y == t.len() {
                        assert(u[x] == t[x]);
                    } else {
                        assert(u[x] == t[x] && u[y] == t[y]);
                    }
                }
            }
        }
        Ok(())
    }
}

proof fn lemma_role_lookup_none(t: Seq<(Seq<char>, Role)>, agent: Seq<char>)
    requires
        forall|j: int| 0 <= j < t.len() ==> t[j].0 != agent,
    ensures
        role_lookup(t, agent) is None,
    decreases t.len(),
{
    if t.len() > 0 {
        assert forall|j: int| 0 <= j < t.drop_first().len() implies t.drop_first()[j].0 != agent by {
            assert(t.drop_first()[j] == t[j + 1]);
        }
        lemma_role_lookup_none(t.drop_first(), agent);
    }
}


impl EventBus {
    /// Write a letter with the given id and creation time, after the bus
    /// rules (see [`send_verdict`]); the letter carries the federation
    /// envelope (`hops`, `forwarded_from`). Returns the letter's id.
    pub fn send_with(
        &mut self,
        id: String,
        now: i128,
        sender: &str,
        receiver: &str,
        msg_type: MsgType,
        subject: &str,
        body: &str,
        ref_id: Option<String>,
        hops: u8,
        forwarded_from: Option<String>,
    ) -> (r: Result<String, BusError>)
        ensures
            old(self).well_formed() ==> final(self).well_formed(),
            final(self).roles() == old(self).roles(),
            send_refusals_hold(*old(self), *final(self), sender@, receiver@, msg_type, ref_id is Some, r),
            ({
                let v = send_verdict(old(self).roles(), sender@, receiver@, msg_type, ref_id is Some);
                if !(v is Accepted) {
                    r matches Err(e) && verdict_error(v, e, sender@, receiver@) && final(self).store()
                        == old(self).store()
                } else if mailbox_full(old(self).store(), receiver@) {
                    &&& r matches Err(BusError::MailboxFull(a, c)) && a@ == receiver@ && c
                        == old(self).store().cap()
                    &&& final(self).store().boxes() == with_box(old(self).store().boxes(), receiver@)
                    &&& final(self).store().roster() == old(self).store().roster()
                    &&& final(self).store().cap() == old(self).store().cap()
                } else {
                    let m1 = with_box(old(self).store().boxes(), receiver@);
                    let l = final(self).store().boxes()[owner_index(m1, receiver@)].1.last();
                    &&& r matches Ok(x) && x@ == id@
                    &&& envelope_letter(
                        l,
                        id@,
                        now,
                        sender@,
                        receiver@,
                        msg_type,
                        subject@,
                        body@,
                        ref_id,
                        hops,
                        forwarded_from,
                    )
                    &&& stored_after_push(old(self).store(), final(self).store(), receiver@, l)
                }
            }),
    {
        if let Err(e) = self.ensure_registered(sender) {
            return Err(e);
        }
        if msg_type == MsgType::Broadcast {
            let permitted = match self.role_of(sender) {
                Some(Role::Pm) => true,
                _ => false,
            };
            if !permitted {
                return Err(BusError::Storage(join3("`", sender, "` is not allowed to broadcast (PM role required)")));
            }
        }
        if msg_type == MsgType::Reply && ref_id.is_none() {
            return Err(BusError::Storage(text_of("reply messages must carry `ref` (the parent id)")));
        }
        if msg_type != MsgType::Broadcast {
            if let Err(e) = self.ensure_registered(receiver) {
                return Err(e);
            }
        }
        let mut msg = Message::with_identity(id, now, sender, receiver, msg_type, subject, body, ref_id);
        msg.hops = hops;
        msg.forwarded_from = forwarded_from;
        let out = msg.id.clone();
        let ghost before = self.store;
        match self.store.push(&msg) {
            Ok(()) => {
                proof {
                    let m1 = with_box(before.boxes(), receiver@);
                    let k = owner_index(m1, receiver@);
                    crate::store::memory::lemma_with_box(before.boxes(), receiver@);
                    assert(self.store.boxes()[k].1 == m1[k].1.push(msg));
                }
                Ok(out)
            },
            Err(e) => Err(e),
        }
    }

    /// Hot potato: write the letter and let go. Returns the id to track.
    /// The id is fresh and random and the letter is stamped with the clock;
    /// everything else is as [`EventBus::send_with`] states.
    pub fn send(
        &mut self,
        sender: &str,
        receiver: &str,
        msg_type: MsgType,
        subject: &str,
        body: &str,
        ref_id: Option<String>,
    ) -> (r: Result<String, BusError>)
        ensures
            old(self).well_formed() ==> final(self).well_formed(),
            final(self).roles() == old(self).roles(),
            send_refusals_hold(*old(self), *final(self), sender@, receiver@, msg_type, ref_id is Some, r),
            ({
                let v = send_verdict(old(self).roles(), sender@, receiver@, msg_type, ref_id is Some);
                if !(v is Accepted) {
                    r matches Err(e) && verdict_error(v, e, sender@, receiver@) && final(self).store()
                        == old(self).store()
                } else if mailbox_full(old(self).store(), receiver@) {
                    &&& r matches Err(BusError::MailboxFull(a, c)) && a@ == receiver@ && c
                        == old(self).store().cap()
                    &&& final(self).store().boxes() == with_box(old(self).store().boxes(), receiver@)
                    &&& final(self).store().roster() == old(self).store().roster()
                    &&& final(self).store().cap() == old(self).store().cap()
                } else {
                    let m1 = with_box(old(self).store().boxes(), receiver@);
                    let l = final(self).store().boxes()[owner_index(m1, receiver@)].1.last();
                    &&& r matches Ok(x) && x@ == l.id@ && x@.len() == 32
                    &&& envelope_letter(l, l.id@, l.created_at, sender@, receiver@, msg_type, subject@, body@, ref_id, 0, None)
                    &&& stored_after_push(old(self).store(), final(self).store(), receiver@, l)
                }
            }),
    {
        let id = new_letter_id();
        let now = now_nanos();
        self.send_with(id, now, sender, receiver, msg_type, subject, body, ref_id, 0, None)
    }

    /// A send that carries the federation envelope: how many inter-bus links
    /// the letter crossed and the pool it came from.
    pub fn send_envelope(
        &mut self,
        sender: &str,
        receiver: &str,
        msg_type: MsgType,
        subject: &str,
        body: &str,
        ref_id: Option<String>,
        hops: u8,
        forwarded_from: Option<String>,
    ) -> (r: Result<String, BusError>)
        ensures
            old(self).well_formed() ==> final(self).well_formed(),
            final(self).roles() == old(self).roles(),
            send_refusals_hold(*old(self), *final(self), sender@, receiver@, msg_type, ref_id is Some, r),
            ({
                let v = send_verdict(old(self).roles(), sender@, receiver@, msg_type, ref_id is Some);
                if !(v is Accepted) {
                    r matches Err(e) && verdict_error(v, e, sender@, receiver@) && final(self).store()
                        == old(self).store()
                } else if mailbox_full(old(self).store(), receiver@) {
                    &&& r matches Err(BusError::MailboxFull(a, c)) && a@ == receiver@ && c
                        == old(self).store().cap()
                    &&& final(self).store().boxes() == with_box(old(self).store().boxes(), receiver@)
                    &&& final(self).store().roster() == old(self).store().roster()
                    &&& final(self).store().cap() == old(self).store().cap()
                } else {
                    let m1 = with_box(old(self).store().boxes(), receiver@);
                    let l = final(self).store().boxes()[owner_index(m1, receiver@)].1.last();
                    &&& r matches Ok(x) && x@ == l.id@ && x@.len() == 32
                    &&& envelope_letter(l, l.id@, l.created_at, sender@, receiver@, msg_type, subject@, body@, ref_id, hops, forwarded_from)
                    &&& stored_after_push(old(self).store(), final(self).store(), receiver@, l)
                }
            }),
    {
        let id = new_letter_id();
        let now = now_nanos();
        self.send_with(id, now, sender, receiver, msg_type, subject, body, ref_id, hops, forwarded_from)
    }
}

/// Law: only a broadcast may leave its receiver unchecked. A task, reply or
/// ack-only letter from a registered sender (a reply carrying its `ref`) to
/// an agent with no role is refused with `UnknownAgent(receiver)`, and the
/// store is left exactly as it was: no letter, no new mailbox.
pub proof fn law_send_needs_a_registered_receiver(
    before: EventBus,
    after: EventBus,
    sender: Seq<char>,
    receiver: Seq<char>,
    msg_type: MsgType,
    has_ref: bool,
    r: Result<String, BusError>,
)
    requires
        send_refusals_hold(before, after, sender, receiver, msg_type, has_ref, r),
        msg_type != MsgType::Broadcast,
        before.role_of_spec(sender) is Some,
        msg_type == MsgType::Reply ==> has_ref,
        before.role_of_spec(receiver) is None,
    ensures
        r matches Err(e) && (e matches BusError::UnknownAgent(a) && a@ == receiver),
        after.store() == before.store(),
{
}

/// Law: a send is accepted only between registered agents. Whenever a send
/// succeeds, its sender has a role, and so does its receiver unless the
/// letter is a broadcast (whose receiver comes from the roster).
pub proof fn law_accepted_send_has_known_parties(
    before: EventBus,
    after: EventBus,
    sender: Seq<char>,
    receiver: Seq<char>,
    msg_type: MsgType,
    has_ref: bool,
    r: Result<String, BusError>,
)
    requires
        send_refusals_hold(before, after, sender, receiver, msg_type, has_ref, r),
        r is Ok,
    ensures
        before.role_of_spec(sender) is Some,
        msg_type != MsgType::Broadcast ==> before.role_of_spec(receiver) is Some,
        msg_type == MsgType::Reply ==> has_ref,
        msg_type == MsgType::Broadcast ==> before.role_of_spec(sender) == Some(Role::Pm),
{
}

/// `limit` 0 means "all".
pub open spec fn effective_limit(limit: usize) -> nat {
    (if limit == 0 { usize::MAX } else { limit }) as nat
}

/// A refusal because `agent` is not registered; nothing changed.
pub open spec fn refused_unknown<T>(before: EventBus, after: EventBus, agent: Seq<char>, r: Result<T, BusError>) -> bool {
    &&& r matches Err(e) && e matches BusError::UnknownAgent(a) && a@ == agent
    &&& bus_unchanged(before, after)
}

/// Neither the store nor the roles changed.
pub open spec fn bus_unchanged(before: EventBus, after: EventBus) -> bool {
    after.store() == before.store() && after.roles() == before.roles()
}

/// The bus's roles are unchanged and the store moved as `store_post` says.
pub open spec fn same_roles(before: EventBus, after: EventBus) -> bool {
    after.roles() == before.roles()
}

impl EventBus {
    /// Drain my mailbox at time `now` (marks delivered). `limit` 0 = all.
    pub fn poll_at(&mut self, agent: &str, limit: usize, now: i128) -> (r: Result<Vec<Message>, BusError>)
        ensures
            old(self).well_formed() ==> final(self).well_formed(),
            if old(self).role_of_spec(agent@) is None {
                refused_unknown(*old(self), *final(self), agent@, r)
            } else {
                same_roles(*old(self), *final(self)) && poll_outcome(
                    old(self).store(),
                    final(self).store(),
                    agent@,
                    effective_limit(limit),
                    now,
                    r,
                )
            },
    {
        if let Err(e) = self.ensure_registered(agent) {
            return Err(e);
        }
        let limit = if limit == 0 { usize::MAX } else { limit };
        self.store.poll(agent, limit, now)
    }

    /// Drain my mailbox (marks delivered, stamped with the clock).
    /// `limit` 0 = all.
    pub fn poll(&mut self, agent: &str, limit: usize) -> (r: Result<Vec<Message>, BusError>)
        ensures
            old(self).well_formed() ==> final(self).well_formed(),
            if old(self).role_of_spec(agent@) is None {
                refused_unknown(*old(self), *final(self), agent@, r)
            } else {
                same_roles(*old(self), *final(self)) && exists|now: i128| #[trigger] poll_outcome(
                    old(self).store(),
                    final(self).store(),
                    agent@,
                    effective_limit(limit),
                    now,
                    r,
                )
            },
    {
        let now = now_nanos();
        self.poll_at(agent, limit, now)
    }

    /// Read receipt at time `now`: I opened it.
    pub fn mark_read_at(&mut self, agent: &str, id: &str, now: i128) -> (r: Result<Message, BusError>)
        ensures
            old(self).well_formed() ==> final(self).well_formed(),
            if old(self).role_of_spec(agent@) is None {
                refused_unknown(*old(self), *final(self), agent@, r)
            } else {
                same_roles(*old(self), *final(self)) && read_outcome(old(self).store(), final(self).store(), agent@, id@, now, r)
            },
    {
        if let Err(e) = self.ensure_registered(agent) {
            return Err(e);
        }
        self.store.mark_read(agent, id, now)
    }

    /// Read receipt: I opened it (chatlog `read_at` timestamp from the clock).
    pub fn mark_read(&mut self, agent: &str, id: &str) -> (r: Result<Message, BusError>)
        ensures
            old(self).well_formed() ==> final(self).well_formed(),
            if old(self).role_of_spec(agent@) is None {
                refused_unknown(*old(self), *final(self), agent@, r)
            } else {
                same_roles(*old(self), *final(self)) && exists|now: i128| #[trigger] read_outcome(old(self).store(), final(self).store(), agent@, id@, now, r)
            },
    {
        let now = now_nanos();
        self.mark_read_at(agent, id, now)
    }

    /// Push receipt at time `now`: a queued letter left the shelf without a
    /// poll. Not gated on registration (the dispatcher calls it).
    pub fn mark_delivered_at(&mut self, agent: &str, id: &str, now: i128) -> (r: Result<Message, BusError>)
        ensures
            old(self).well_formed() ==> final(self).well_formed(),
            same_roles(*old(self), *final(self)),
            delivered_outcome(old(self).store(), final(self).store(), agent@, id@, now, r),
    {
        self.store.mark_delivered(agent, id, now)
    }

    /// Push receipt, stamped with the clock.
    pub fn mark_delivered(&mut self, agent: &str, id: &str) -> (r: Result<Message, BusError>)
        ensures
            old(self).well_formed() ==> final(self).well_formed(),
            same_roles(*old(self), *final(self)),
            exists|now: i128| #[trigger] delivered_outcome(old(self).store(), final(self).store(), agent@, id@, now, r),
    {
        let now = now_nanos();
        self.mark_delivered_at(agent, id, now)
    }

    /// Peek without marking — "what's waiting if I pick it up?"
    pub fn peek(&self, agent: &str) -> (r: Result<Vec<Message>, BusError>)
        ensures
            if self.role_of_spec(agent@) is None {
                r matches Err(e) && e matches BusError::UnknownAgent(a) && a@ == agent@
            } else {
                r matches Ok(v) && v@ == letters_of(self.store().boxes(), agent@).filter(queued_pred())
            },
    {
        if let Err(e) = self.ensure_registered(agent) {
            return Err(e);
        }
        self.store.peek(agent)
    }

    /// File the result at time `now`: I'm done with my part of this potato.
    pub fn ack_at(&mut self, agent: &str, id: &str, note: &str, now: i128) -> (r: Result<Message, BusError>)
        ensures
            old(self).well_formed() ==> final(self).well_formed(),
            if old(self).role_of_spec(agent@) is None {
                refused_unknown(*old(self), *final(self), agent@, r)
            } else {
                same_roles(*old(self), *final(self)) && ack_outcome(old(self).store(), final(self).store(), agent@, id@, note@, now, r)
            },
    {
        if let Err(e) = self.ensure_registered(agent) {
            return Err(e);
        }
        self.store.ack(agent, id, note, now)
    }

    /// File the result: I'm done with my part of this potato.
    pub fn ack(&mut self, agent: &str, id: &str, note: &str) -> (r: Result<Message, BusError>)
        ensures
            old(self).well_formed() ==> final(self).well_formed(),
            if old(self).role_of_spec(agent@) is None {
                refused_unknown(*old(self), *final(self), agent@, r)
            } else {
                same_roles(*old(self), *final(self)) && exists|now: i128| #[trigger] ack_outcome(old(self).store(), final(self).store(), agent@, id@, note@, now, r)
            },
    {
        let now = now_nanos();
        self.ack_at(agent, id, note, now)
    }

    /// Sender-side: status of everything I sent (the "did they get it?" view).
    pub fn status(&self, agent: &str) -> (r: Result<Vec<Message>, BusError>)
        ensures
            if self.role_of_spec(agent@) is None {
                r matches Err(e) && e matches BusError::UnknownAgent(a) && a@ == agent@
            } else {
                r matches Ok(v) && v@ == fifo_order(self.store().letters().filter(sent_by_pred(agent@)))
            },
    {
        if let Err(e) = self.ensure_registered(agent) {
            return Err(e);
        }
        self.store.sent_by(agent)
    }

    /// The audit log — every acked letter, FIFO.
    pub fn archive(&self) -> (r: Result<Vec<Message>, BusError>)
        ensures
            r matches Ok(v) && v@ == fifo_order(self.store().letters().filter(acked_pred())),
    {
        self.store.archive()
    }

    /// Observer view: every letter on the bus, any status. Read-only.
    pub fn list_all(&self) -> (r: Result<Vec<Message>, BusError>)
        ensures
            r matches Ok(v) && v@ == fifo_order(self.store().letters()),
    {
        self.store.list_all()
    }

    /// Claim a queued letter for pushing (CAS on `Queued`) at time `now`.
    pub fn claim_push_at(&mut self, agent: &str, id: &str, now: i128) -> (r: Result<bool, BusError>)
        ensures
            old(self).well_formed() ==> final(self).well_formed(),
            same_roles(*old(self), *final(self)),
            claim_outcome(old(self).store(), final(self).store(), agent@, id@, now, r),
    {
        self.store.claim_push(agent, id, now)
    }

    /// Claim a queued letter for pushing (CAS on `Queued`).
    pub fn claim_push(&mut self, agent: &str, id: &str) -> (r: Result<bool, BusError>)
        ensures
            old(self).well_formed() ==> final(self).well_formed(),
            same_roles(*old(self), *final(self)),
            exists|now: i128| #[trigger] claim_outcome(old(self).store(), final(self).store(), agent@, id@, now, r),
    {
        let now = now_nanos();
        self.claim_push_at(agent, id, now)
    }

    /// The push of a `Pushing` letter landed, at time `now`.
    pub fn push_succeeded_at(&mut self, agent: &str, id: &str, now: i128) -> (r: Result<Message, BusError>)
        ensures
            old(self).well_formed() ==> final(self).well_formed(),
            same_roles(*old(self), *final(self)),
            push_ok_outcome(old(self).store(), final(self).store(), agent@, id@, now, r),
    {
        self.store.push_succeeded(agent, id, now)
    }

    /// The push of a `Pushing` letter landed.
    pub fn push_succeeded(&mut self, agent: &str, id: &str) -> (r: Result<Message, BusError>)
        ensures
            old(self).well_formed() ==> final(self).well_formed(),
            same_roles(*old(self), *final(self)),
            exists|now: i128| #[trigger] push_ok_outcome(old(self).store(), final(self).store(), agent@, id@, now, r),
    {
        let now = now_nanos();
        self.push_succeeded_at(agent, id, now)
    }

    /// The push of a `Pushing` letter failed: back to queued, or dead once
    /// the attempts are used up.
    pub fn push_failed(&mut self, agent: &str, id: &str, error: &str) -> (r: Result<Message, BusError>)
        ensures
            old(self).well_formed() ==> final(self).well_formed(),
            same_roles(*old(self), *final(self)),
            push_failed_outcome(old(self).store(), final(self).store(), agent@, id@, error@, r),
    {
        self.store.push_failed(agent, id, error)
    }

    /// Release a `Pushing` letter back to queued (stale claim, or nothing
    /// was pushed).
    pub fn reclaim_stale_pushing(&mut self, agent: &str, id: &str, reason: &str) -> (r: Result<Message, BusError>)
        ensures
            old(self).well_formed() ==> final(self).well_formed(),
            same_roles(*old(self), *final(self)),
            reclaim_outcome(old(self).store(), final(self).store(), agent@, id@, reason@, r),
    {
        self.store.reclaim_stale_pushing(agent, id, reason)
    }

    /// Delete exactly one letter by id (any status).
    pub fn delete_one(&mut self, id: &str) -> (r: Result<Message, BusError>)
        ensures
            old(self).well_formed() ==> final(self).well_formed(),
            same_roles(*old(self), *final(self)),
            ({
                let m = old(self).store().boxes();
                let k = box_with_letter(m, id@);
                if k < 0 {
                    r matches Err(e) && not_found(e, id@) && unchanged(old(self).store(), final(self).store())
                } else {
                    let j = letter_index(m[k].1, id@);
                    &&& r == Ok::<Message, BusError>(m[k].1[j])
                    &&& final(self).store().boxes() == set_box(m, k, m[k].1.remove(j))
                    &&& final(self).store().roster() == old(self).store().roster()
                    &&& final(self).store().cap() == old(self).store().cap()
                }
            }),
    {
        self.store.delete_one(id)
    }

    /// Delete every letter in the bus, any status; returns how many.
    pub fn delete_all(&mut self) -> (r: Result<u64, BusError>)
        ensures
            old(self).well_formed() ==> final(self).well_formed(),
            same_roles(*old(self), *final(self)),
            r == Ok::<u64, BusError>(
                if old(self).store().letters().len() <= u64::MAX { old(self).store().letters().len() as u64 } else { u64::MAX },
            ),
            final(self).store().boxes() == emptied(old(self).store().boxes()),
            final(self).store().roster() == old(self).store().roster(),
            final(self).store().cap() == old(self).store().cap(),
    {
        self.store.delete_all()
    }
}

/// One fan-out step: `after` is `before` with a broadcast letter (id `id`)
/// appended to `target`'s mailbox.
pub open spec fn broadcast_step(
    before: InMemoryStore,
    after: InMemoryStore,
    target: Seq<char>,
    id: Seq<char>,
    sender: Seq<char>,
    subject: Seq<char>,
    body: Seq<char>,
) -> bool {
    let m1 = with_box(before.boxes(), target);
    let l = after.boxes()[owner_index(m1, target)].1.last();
    &&& !mailbox_full(before, target)
    &&& l.id@ == id
    &&& envelope_letter(l, id, l.created_at, sender, target, MsgType::Broadcast, subject, body, None, 0, None)
    &&& stored_after_push(before, after, target, l)
}

/// `states` walks from the first store to the last through one broadcast
/// letter per target, in order, with the given ids.
pub open spec fn broadcast_walk(
    states: Seq<InMemoryStore>,
    targets: Seq<Seq<char>>,
    ids: Seq<Seq<char>>,
    sender: Seq<char>,
    subject: Seq<char>,
    body: Seq<char>,
) -> bool {
    &&& states.len() == targets.len() + 1
    &&& ids.len() == targets.len()
    &&& forall|i: int|
        0 <= i < targets.len() ==> #[trigger] broadcast_step(
            states[i],
            states[i + 1],
            targets[i],
            ids[i],
            sender,
            subject,
            body,
        )
}

/// What a PM's broadcast does to the store: it walks the targets in order,
/// writing one broadcast letter each, until a target's mailbox is full at
/// its turn. Having reached every target it returns their ids; otherwise it
/// refuses with that target's `MailboxFull`, keeping the letters written to
/// the targets before it (and the full target's mailbox, which exists).
pub open spec fn broadcast_outcome(
    before: InMemoryStore,
    after: InMemoryStore,
    targets: Seq<Seq<char>>,
    sender: Seq<char>,
    subject: Seq<char>,
    body: Seq<char>,
    r: Result<Vec<String>, BusError>,
) -> bool {
    exists|states: Seq<InMemoryStore>, ids: Seq<Seq<char>>|
        #[trigger] broadcast_walk(states, targets.take(ids.len() as int), ids, sender, subject, body)
            && states[0] == before && ids.len() <= targets.len() && if ids.len() == targets.len() {
            r matches Ok(v) && texts_view(v@) == ids && after == states.last()
        } else {
            let t = targets[ids.len() as int];
            &&& mailbox_full(states.last(), t)
            &&& r matches Err(BusError::MailboxFull(a, c)) && a@ == t && c == before.cap()
            &&& after.boxes() == with_box(states.last().boxes(), t)
            &&& after.roster() == before.roster()
            &&& after.cap() == before.cap()
        }
}

/// Along a broadcast walk, an agent that is not one of the targets keeps
/// its letters, and the capacity stays put.
proof fn lemma_walk_keeps_other_letters(
    states: Seq<InMemoryStore>,
    targets: Seq<Seq<char>>,
    ids: Seq<Seq<char>>,
    sender: Seq<char>,
    subject: Seq<char>,
    body: Seq<char>,
    agent: Seq<char>,
    i: int,
)
    requires
        broadcast_walk(states, targets, ids, sender, subject, body),
        0 <= i <= targets.len(),
        forall|j: int| 0 <= j < targets.len() ==> targets[j] != agent,
    ensures
        letters_of(states[i].boxes(), agent) == letters_of(states[0].boxes(), agent),
        states[i].cap() == states[0].cap(),
    decreases i,
{
    if i > 0 {
        let j = i - 1;
        lemma_walk_keeps_other_letters(states, targets, ids, sender, subject, body, agent, j);
        assert(broadcast_step(states[j], states[j + 1], targets[j], ids[j], sender, subject, body));
        let m1 = with_box(states[j].boxes(), targets[j]);
        let l = states[j + 1].boxes()[owner_index(m1, targets[j])].1.last();
        lemma_push_keeps_other_letters(states[j].boxes(), targets[j], l, agent);
    }
}

/// A broadcast walk over distinct targets, each with room for one more
/// letter, reaches every target.
proof fn lemma_walk_with_room_reaches_all(
    before: InMemoryStore,
    after: InMemoryStore,
    targets: Seq<Seq<char>>,
    sender: Seq<char>,
    subject: Seq<char>,
    body: Seq<char>,
    r: Result<Vec<String>, BusError>,
)
    requires
        targets.no_duplicates(),
        forall|i: int| 0 <= i < targets.len() ==> #[trigger] letters_of(before.boxes(), targets[i]).len() < before.cap(),
        broadcast_outcome(before, after, targets, sender, subject, body, r),
    ensures
        r matches Ok(v) && v@.len() == targets.len(),
{
    let (states, ids) = choose|states: Seq<InMemoryStore>, ids: Seq<Seq<char>>|
        #[trigger] broadcast_walk(states, targets.take(ids.len() as int), ids, sender, subject, body)
            && states[0] == before && ids.len() <= targets.len() && if ids.len() == targets.len() {
            r matches Ok(v) && texts_view(v@) == ids && after == states.last()
        } else {
            let t = targets[ids.len() as int];
            &&& mailbox_full(states.last(), t)
            &&& r matches Err(BusError::MailboxFull(a, c)) && a@ == t && c == before.cap()
            &&& after.boxes() == with_box(states.last().boxes(), t)
            &&& after.roster() == before.roster()
            &&& after.cap() == before.cap()
        };
    let k = ids.len() as int;
    if k < targets.len() {
        let t = targets[k];
        let done = targets.take(k);
        assert forall|j: int| 0 <= j < done.len() implies done[j] != t by {
            assert(done[j] == targets[j]);
        }
        lemma_walk_keeps_other_letters(states, done, ids, sender, subject, body, t, k);
        assert(states.last() == states[k]);
        lemma_mailbox_full_letters(states[k].boxes(), t, states[k].cap());
        assert(letters_of(before.boxes(), targets[k]).len() < before.cap());
        assert(false);
    } else {
        if let Ok(v) = r {
            assert(texts_view(v@).len() == v@.len());
        }
    }
}

/// Law: a PM's broadcast on a well-formed store is owed success when every
/// registered agent other than the sender has room for one more letter:
/// the fan-out reaches each of them and returns one id per target.
pub proof fn law_broadcast_reaches_every_target_with_room(
    before: InMemoryStore,
    after: InMemoryStore,
    sender: Seq<char>,
    subject: Seq<char>,
    body: Seq<char>,
    r: Result<Vec<String>, BusError>,
)
    requires
        before.well_formed(),
        forall|a: Seq<char>|
            #[trigger] before.roster().filter(other_than(sender)).contains(a) ==> letters_of(before.boxes(), a).len()
                < before.cap(),
        broadcast_outcome(before, after, before.roster().filter(other_than(sender)), sender, subject, body, r),
    ensures
        r matches Ok(v) && v@.len() == before.roster().filter(other_than(sender)).len(),
{
    let targets = before.roster().filter(other_than(sender));
    lemma_filter_no_duplicates(before.roster(), other_than(sender));
    assert forall|i: int| 0 <= i < targets.len() implies #[trigger] letters_of(before.boxes(), targets[i]).len()
        < before.cap() by {
        assert(targets.contains(targets[i]));
    }
    lemma_walk_with_room_reaches_all(before, after, targets, sender, subject, body, r);
}

impl EventBus {
    /// Broadcast = one letter per registered agent other than the sender
    /// (fan-out at the bus edge, not inside the store), in roster order.
    /// Returns the new letters' ids. A full mailbox stops the fan-out with
    /// the letters written so far kept.
    pub fn broadcast(&mut self, sender: &str, subject: &str, body: &str) -> (r: Result<Vec<String>, BusError>)
        ensures
            old(self).well_formed() ==> final(self).well_formed(),
            same_roles(*old(self), *final(self)),
            ({
                let targets = old(self).store().roster().filter(other_than(sender@));
                if targets.len() == 0 {
                    r matches Ok(ids) && ids@.len() == 0 && bus_unchanged(*old(self), *final(self))
                } else if old(self).role_of_spec(sender@) is None {
                    refused_unknown(*old(self), *final(self), sender@, r)
                } else if old(self).role_of_spec(sender@) != Some(Role::Pm) {
                    &&& r matches Err(e) && e matches BusError::Storage(t) && t@ == not_permitted_text(sender@)
                    &&& bus_unchanged(*old(self), *final(self))
                } else {
                    broadcast_outcome(old(self).store(), final(self).store(), targets, sender@, subject@, body@, r)
                }
            }),
    {
        let agents = match self.store.agents() {
            Ok(a) => a,
            Err(e) => {
                return Err(e);
            },
        };
        let ghost roster = self.store.roster();
        let ghost pred = other_than(sender@);
        let ghost start = *self;
        let mut ids: Vec<String> = Vec::new();
        let ghost mut states: Seq<InMemoryStore> = seq![self.store];
        let n = agents.len();
        let mut i: usize = 0;
        proof {
            assert(roster.take(0) =~= Seq::<Seq<char>>::empty());
            reveal_with_fuel(Seq::filter, 1);
            assert(texts_view(ids@) =~= Seq::<Seq<char>>::empty());
        }
        while i < n
            invariant
                n == agents@.len(),
                start == *old(self),
                texts_view(agents@) == roster,
                roster == start.store().roster(),
                pred == other_than(sender@),
                0 <= i <= n,
                self.roles() == start.roles(),
                start.well_formed() ==> self.well_formed(),
                ids@.len() == 0 ==> bus_unchanged(start, *self),
                ({
                    let done = roster.take(i as int).filter(pred);
                    done.len() == 0 || start.role_of_spec(sender@) == Some(Role::Pm)
                }),
                start.role_of_spec(sender@) == Some(Role::Pm) ==> broadcast_walk(
                    states,
                    roster.take(i as int).filter(pred),
                    texts_view(ids@),
                    sender@,
                    subject@,
                    body@,
                ),
                states.len() >= 1,
                states[0] == start.store(),
                states.last() == self.store(),
                ids@.len() == roster.take(i as int).filter(pred).len(),
                self.store().roster() == roster,
                self.store().cap() == start.store().cap(),
            decreases n - i,
        {
            let ghost x = roster[i as int];
            proof {
                assert(roster.take(i + 1) =~= roster.take(i as int).push(x));
                roster.take(i as int).lemma_filter_push(x, pred);
                assert(x == agents@[i as int]@);
            }
            if same_text(agents[i].as_str(), sender) {
                i = i + 1;
                continue;
            }
            let ghost before = *self;
            let ghost done = roster.take(i as int).filter(pred);
            let res = self.send(sender, agents[i].as_str(), MsgType::Broadcast, subject, body, None);
            match res {
                Ok(id) => {
                    proof {
                        let after = self.store();
                        assert(broadcast_step(before.store(), after, x, id@, sender@, subject@, body@));
                        let ids2 = texts_view(ids@.push(id));
                        crate::store::memory::lemma_texts_view_push(ids@, id);
                        let tg = done.push(x);
                        assert(pred(x));
                        assert(roster.take(i + 1).filter(pred) == tg);
                        assert(tg.drop_last() =~= done);
                        assert(tg.last() == x);
                        assert(ids2.drop_last() =~= texts_view(ids@));
                        assert(ids2.last() == id@);
                        assert(start.role_of_spec(sender@) == Some(Role::Pm));
                        let st2 = states.push(after);
                        assert forall|t: int| 0 <= t < tg.len() implies #[trigger] broadcast_step(
                            st2[t], st2[t + 1], tg[t], ids2[t], sender@, subject@, body@) by {
                            if t < done.len() {
                                assert(st2[t] == states[t] && st2[t + 1] == states[t + 1]);
                                assert(tg[t] == done[t]);
                                assert(ids2[t] == texts_view(ids@)[t]);
                            } else {
                                assert(st2[t] == before.store());
                            }
                        }
                        assert(broadcast_walk(st2, tg, ids2, sender@, subject@, body@));
                    }
                    proof {
                        states = states.push(self.store());
                    }
                    ids.push(id);
                },
                Err(e) => {
                    proof {
                        assert(pred(x));
                        assert(roster.take(i + 1).filter(pred) == done.push(x));
                        assert(done.push(x)[done.len() as int] == x);
                        assert(roster.take(i + 1).filter(pred).contains(x));
                        lemma_filter_prefix_contains(roster, pred, i + 1, x);
                        if start.role_of_spec(sender@) == Some(Role::Pm) {
                            let targets = roster.filter(pred);
                            let k = done.len() as int;
                            lemma_filter_prefix(roster, pred, i + 1);
                            assert(targets.take(k + 1) == done.push(x));
                            assert(targets.take(k) =~= done) by {
                                assert(targets.take(k) =~= targets.take(k + 1).drop_last());
                            }
                            assert(targets[k] == targets.take(k + 1)[k]);
                            assert(targets[k] == x);
                            let idv = texts_view(ids@);
                            assert(broadcast_walk(states, targets.take(idv.len() as int), idv, sender@, subject@, body@));
                            assert(idv.len() == k);
                            assert(before.roles() == start.roles());
                            assert(send_verdict(before.roles(), sender@, x, MsgType::Broadcast, false) is Accepted);
                            assert(mailbox_full(before.store(), x));
                            assert(states.last() == before.store());
                            assert(broadcast_outcome(start.store(), self.store(), targets, sender@, subject@, body@, Err::<Vec<String>, BusError>(e)));
                        }
                    }
                    return Err(e);
                },
            }
            i = i + 1;
        }
        proof {
            assert(roster.take(n as int) =~= roster);
            if start.role_of_spec(sender@) == Some(Role::Pm) {
                let targets = roster.filter(pred);
                let idv = texts_view(ids@);
                assert(targets.take(idv.len() as int) =~= targets);
                assert(broadcast_walk(states, targets.take(idv.len() as int), idv, sender@, subject@, body@));
            }
        }
        Ok(ids)
    }
}

/// Filtering a prefix gives a prefix of the filtered whole.
proof fn lemma_filter_prefix(s: Seq<Seq<char>>, p: spec_fn(Seq<char>) -> bool, k: int)
    requires
        0 <= k <= s.len(),
    ensures
        s.take(k).filter(p).len() <= s.filter(p).len(),
        s.filter(p).take(s.take(k).filter(p).len() as int) == s.take(k).filter(p),
{
    assert(s =~= s.take(k) + s.skip(k));
    Seq::filter_distributes_over_add(s.take(k), s.skip(k), p);
    let a = s.take(k).filter(p);
    let b = s.skip(k).filter(p);
    assert(s.filter(p) == a + b);
    assert((a + b).take(a.len() as int) =~= a);
}

proof fn lemma_filter_prefix_contains(s: Seq<Seq<char>>, p: spec_fn(Seq<char>) -> bool, k: int, x: Seq<char>)
    requires
        0 <= k <= s.len(),
        s.take(k).filter(p).contains(x),
    ensures
        s.filter(p).contains(x),
{
    s.take(k).lemma_filter_contains_rev(p, x);
    let j = choose|j: int| 0 <= j < s.take(k).len() && s.take(k)[j] == x;
    assert(s[j] == x);
    s.lemma_filter_contains(p, j);
}

} // verus!
