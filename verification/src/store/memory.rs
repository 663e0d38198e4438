//! In-memory store — the default backend.
//!
//! One mailbox per agent, in the order the mailboxes came into existence;
//! every letter addressed to an agent stays in its mailbox (queued, delivered,
//! read and acked alike), so the sender-side view and the archive are queries
//! over the same letters.

use vstd::prelude::*;
use crate::error::BusError;
use crate::message::{Message, MessageStatus};
use crate::state::{apply, bookkeep, should_give_up, Event, Transition};
use crate::store::{fifo, fifo_order, not_deliverable, not_deliverable_error, validate_ack};
use crate::text::{same_text, take_chars};

verus! {

/// One agent's mailbox.
pub struct Mailbox {
    pub owner: String,
    pub letters: Vec<Message>,
}

/// Abstract view of the mailboxes: (owner, letters), in creation order.
pub type BoxesView = Seq<(Seq<char>, Seq<Message>)>;

/// Index of the first mailbox owned by `agent`, or -1.
pub open spec fn owner_index(m: BoxesView, agent: Seq<char>) -> int
    decreases m.len(),
{
    if m.len() == 0 {
        -1
    } else if m[0].0 == agent {
        0
    } else {
        let r = owner_index(m.drop_first(), agent);
        if r < 0 { -1 } else { r + 1 }
    }
}

/// Index of the first letter with id `id`, or -1.
pub open spec fn letter_index(s: Seq<Message>, id: Seq<char>) -> int
    decreases s.len(),
{
    if s.len() == 0 {
        -1
    } else if s[0].id@ == id {
        0
    } else {
        let r = letter_index(s.drop_first(), id);
        if r < 0 { -1 } else { r + 1 }
    }
}

/// The letters in `agent`'s mailbox (empty when there is none).
pub open spec fn letters_of(m: BoxesView, agent: Seq<char>) -> Seq<Message> {
    let k = owner_index(m, agent);
    if k >= 0 { m[k].1 } else { Seq::empty() }
}

/// The mailboxes with one for `agent` added if it had none.
pub open spec fn with_box(m: BoxesView, agent: Seq<char>) -> BoxesView {
    if owner_index(m, agent) >= 0 { m } else { m.push((agent, Seq::empty())) }
}

/// Replace the letters of mailbox `k`.
pub open spec fn set_box(m: BoxesView, k: int, letters: Seq<Message>) -> BoxesView {
    m.update(k, (m[k].0, letters))
}

/// No two mailboxes share an owner: each agent has at most one mailbox.
pub open spec fn one_box_per_agent(m: BoxesView) -> bool {
    forall|i: int, j: int| 0 <= i < j < m.len() ==> #[trigger] m[i].0 != #[trigger] m[j].0
}

/// An agent without a mailbox owns none of them.
proof fn lemma_owner_index_absent(m: BoxesView, agent: Seq<char>, i: int)
    requires
        owner_index(m, agent) == -1,
        0 <= i < m.len(),
    ensures
        m[i].0 != agent,
    decreases m.len(),
{
    if i > 0 {
        assert(m.drop_first()[i - 1] == m[i]);
        lemma_owner_index_absent(m.drop_first(), agent, i - 1);
    }
}

/// Adding a mailbox for an agent that had none keeps one mailbox per agent.
pub proof fn lemma_with_box_keeps_one_box(m: BoxesView, agent: Seq<char>)
    requires
        one_box_per_agent(m),
    ensures
        one_box_per_agent(with_box(m, agent)),
{
    if owner_index(m, agent) < 0 {
        lemma_owner_index_range(m, agent);
        let w = with_box(m, agent);
        assert forall|i: int, j: int| 0 <= i < j < w.len() implies #[trigger] w[i].0 != #[trigger] w[j].0 by {
            if j == m.len() {
                lemma_owner_index_absent(m, agent, i);
            } else {
                assert(w[i] == m[i] && w[j] == m[j]);
            }
        }
    }
}

/// Replacing one mailbox's letters keeps its owner, so one mailbox per agent.
pub proof fn lemma_set_box_keeps_one_box(m: BoxesView, k: int, letters: Seq<Message>)
    requires
        one_box_per_agent(m),
        0 <= k < m.len(),
    ensures
        one_box_per_agent(set_box(m, k, letters)),
{
    let w = set_box(m, k, letters);
    assert forall|i: int, j: int| 0 <= i < j < w.len() implies #[trigger] w[i].0 != #[trigger] w[j].0 by {
        assert(w[i].0 == m[i].0 && w[j].0 == m[j].0);
    }
}

/// Filtering a list without duplicates leaves none.
pub proof fn lemma_filter_no_duplicates<A>(s: Seq<A>, p: spec_fn(A) -> bool)
    requires
        s.no_duplicates(),
    ensures
        s.filter(p).no_duplicates(),
    decreases s.len(),
{
    reveal(Seq::filter);
    if s.len() > 0 {
        let rest = s.drop_last();
        assert forall|i: int, j: int| 0 <= i < rest.len() && 0 <= j < rest.len() && i != j implies rest[i]
            != rest[j] by {
            assert(rest[i] == s[i] && rest[j] == s[j]);
        }
        lemma_filter_no_duplicates(rest, p);
        if p(s.last()) {
            let f = rest.filter(p);
            if f.contains(s.last()) {
                rest.lemma_filter_contains_rev(p, s.last());
                let t = choose|t: int| 0 <= t < rest.len() && rest[t] == s.last();
                assert(s[t] == s[s.len() - 1]);
            }
            let g = f.push(s.last());
            assert forall|i: int, j: int| 0 <= i < g.len() && 0 <= j < g.len() && i != j implies g[i] != g[j] by {
                if i == f.len() {
                    assert(!f.contains(s.last()));
                    assert(f[j] == g[j]);
                } else if j == f.len() {
                    assert(!f.contains(s.last()));
                    assert(f[i] == g[i]);
                } else {
                    assert(f[i] == g[i] && f[j] == g[j]);
                }
            }
        }
    }
}

/// Registering an agent keeps the roster free of duplicates.
pub proof fn lemma_roster_with_no_duplicates(r: Seq<Seq<char>>, agent: Seq<char>)
    requires
        r.no_duplicates(),
    ensures
        roster_with(r, agent).no_duplicates(),
{
    if !r.contains(agent) {
        let g = r.push(agent);
        assert forall|i: int, j: int| 0 <= i < g.len() && 0 <= j < g.len() && i != j implies g[i] != g[j] by {
            if i == r.len() {
                assert(r[j] == g[j]);
            } else if j == r.len() {
                assert(r[i] == g[i]);
            } else {
                assert(r[i] == g[i] && r[j] == g[j]);
            }
        }
    }
}

/// Where the letter `id` sits in `agent`'s mailbox: (mailbox, position).
pub open spec fn locate(m: BoxesView, agent: Seq<char>, id: Seq<char>) -> Option<(int, int)> {
    let k = owner_index(m, agent);
    if k < 0 {
        None
    } else {
        let j = letter_index(m[k].1, id);
        if j < 0 { None } else { Some((k, j)) }
    }
}

/// Every letter, mailbox after mailbox.
pub open spec fn all_letters(m: BoxesView) -> Seq<Message>
    decreases m.len(),
{
    if m.len() == 0 {
        Seq::empty()
    } else {
        m[0].1 + all_letters(m.drop_first())
    }
}

/// A `NotFound` refusal for the given id.
pub open spec fn not_found(e: BusError, id: Seq<char>) -> bool {
    e matches BusError::NotFound(x) && x@ == id
}

/// The letter after a claim (poll) or a landed push receipt.
pub open spec fn delivered_letter(m: Message, now: i128) -> Message {
    Message { status: MessageStatus::Delivered, delivered_at: Some(now), ..m }
}

/// The letter after its read receipt.
pub open spec fn read_letter(m: Message, now: i128) -> Message {
    Message { status: MessageStatus::Read, read_at: Some(now), ..m }
}

/// The letter after an ack with the given (already truncated) note.
pub open spec fn acked_letter(m: Message, note: Option<String>, now: i128) -> Message {
    Message {
        status: MessageStatus::Acked,
        read_at: if m.read_at is Some { m.read_at } else { Some(now) },
        acked_at: Some(now),
        ack_note: note,
        ..m
    }
}

/// Stepping through `s` front to back, claim queued letters until `limit` have
/// been taken (none for a limit of 0). Returns the new mailbox contents and
/// the claimed letters in order.
pub open spec fn poll_step(s: Seq<Message>, limit: nat, now: i128) -> (Seq<Message>, Seq<Message>)
    decreases s.len(),
{
    if s.len() == 0 || limit == 0 {
        (s, Seq::empty())
    } else if s[0].status == MessageStatus::Queued {
        let h = delivered_letter(s[0], now);
        let rest = poll_step(s.drop_first(), (limit - 1) as nat, now);
        (seq![h] + rest.0, seq![h] + rest.1)
    } else {
        let rest = poll_step(s.drop_first(), limit, now);
        (seq![s[0]] + rest.0, rest.1)
    }
}

pub open spec fn is_queued(m: Message) -> bool {
    m.status == MessageStatus::Queued
}

/// The character views of a list of texts.
pub open spec fn texts_view(v: Seq<String>) -> Seq<Seq<char>> {
    v.map_values(|a: String| a@)
}

pub proof fn lemma_texts_view_push(v: Seq<String>, a: String)
    ensures
        texts_view(v.push(a)) == texts_view(v).push(a@),
{
    assert(texts_view(v.push(a)) =~= texts_view(v).push(a@));
}

/// What `InMemoryStore::mark_delivered` does.
pub open spec fn delivered_outcome(before: InMemoryStore, after: InMemoryStore, agent: Seq<char>, id: Seq<char>, now: i128, r: Result<Message, BusError>) -> bool {
    match locate(before.boxes(), agent, id) {
        None => r matches Err(e) && not_found(e, id) && unchanged(before, after),
        Some((k, j)) => {
            let m = before.boxes()[k].1[j];
            if m.status == MessageStatus::Queued {
                r == Ok::<Message, BusError>(delivered_letter(m, now))
                    && replaced(before, after, k, j, delivered_letter(m, now))
            } else {
                r == Ok::<Message, BusError>(m) && unchanged(before, after)
            }
        },
    }
}

/// What `InMemoryStore::mark_read` does.
pub open spec fn read_outcome(before: InMemoryStore, after: InMemoryStore, agent: Seq<char>, id: Seq<char>, now: i128, r: Result<Message, BusError>) -> bool {
    match locate(before.boxes(), agent, id) {
        None => r matches Err(e) && not_found(e, id) && unchanged(before, after),
        Some((k, j)) => {
            let m = before.boxes()[k].1[j];
            if m.status == MessageStatus::Delivered {
                r == Ok::<Message, BusError>(read_letter(m, now))
                    && replaced(before, after, k, j, read_letter(m, now))
            } else {
                r matches Err(e) && not_deliverable(e, m) && unchanged(before, after)
            }
        },
    }
}

/// What `InMemoryStore::ack` does.
pub open spec fn ack_outcome(before: InMemoryStore, after: InMemoryStore, agent: Seq<char>, id: Seq<char>, note: Seq<char>, now: i128, r: Result<Message, BusError>) -> bool {
    match locate(before.boxes(), agent, id) {
        None => r matches Err(e) && not_found(e, id) && unchanged(before, after),
        Some((k, j)) => {
            let m = before.boxes()[k].1[j];
            if m.status == MessageStatus::Acked {
                r == Ok::<Message, BusError>(m) && unchanged(before, after)
            } else if m.status == MessageStatus::Delivered || m.status == MessageStatus::Read {
                r matches Ok(a) && acked_with(m, a, note, now) && replaced(
                    before,
                    after,
                    k,
                    j,
                    a,
                )
            } else {
                r matches Err(e) && not_deliverable(e, m) && unchanged(before, after)
            }
        },
    }
}

/// What `InMemoryStore::claim_push` does.
pub open spec fn claim_outcome(before: InMemoryStore, after: InMemoryStore, agent: Seq<char>, id: Seq<char>, now: i128, r: Result<bool, BusError>) -> bool {
    match locate(before.boxes(), agent, id) {
        None => r matches Err(e) && not_found(e, id) && unchanged(before, after),
        Some((k, j)) => {
            let m = before.boxes()[k].1[j];
            if m.status == MessageStatus::Queued {
                r == Ok::<bool, BusError>(true)
                    && replaced(before, after, k, j, claimed_letter(m, now))
            } else if m.status == MessageStatus::Pushing {
                r == Ok::<bool, BusError>(false) && unchanged(before, after)
            } else {
                r matches Err(e) && not_deliverable(e, m) && unchanged(before, after)
            }
        },
    }
}

/// What `InMemoryStore::push_succeeded` does.
pub open spec fn push_ok_outcome(before: InMemoryStore, after: InMemoryStore, agent: Seq<char>, id: Seq<char>, now: i128, r: Result<Message, BusError>) -> bool {
    match locate(before.boxes(), agent, id) {
        None => r matches Err(e) && not_found(e, id) && unchanged(before, after),
        Some((k, j)) => {
            let m = before.boxes()[k].1[j];
            if m.status == MessageStatus::Pushing {
                r == Ok::<Message, BusError>(delivered_letter(m, now))
                    && replaced(before, after, k, j, delivered_letter(m, now))
            } else {
                r matches Err(e) && not_deliverable(e, m) && unchanged(before, after)
            }
        },
    }
}

/// What `InMemoryStore::push_failed` does.
pub open spec fn push_failed_outcome(before: InMemoryStore, after: InMemoryStore, agent: Seq<char>, id: Seq<char>, error: Seq<char>, r: Result<Message, BusError>) -> bool {
    match locate(before.boxes(), agent, id) {
        None => r matches Err(e) && not_found(e, id) && unchanged(before, after),
        Some((k, j)) => {
            let m = before.boxes()[k].1[j];
            if m.status == MessageStatus::Pushing {
                r matches Ok(n) && failed_letter(m, n, error) && replaced(
                    before,
                    after,
                    k,
                    j,
                    n,
                )
            } else {
                r matches Err(e) && not_deliverable(e, m) && unchanged(before, after)
            }
        },
    }
}

/// What `InMemoryStore::reclaim_stale_pushing` does.
pub open spec fn reclaim_outcome(before: InMemoryStore, after: InMemoryStore, agent: Seq<char>, id: Seq<char>, reason: Seq<char>, r: Result<Message, BusError>) -> bool {
    match locate(before.boxes(), agent, id) {
        None => r matches Err(e) && not_found(e, id) && unchanged(before, after),
        Some((k, j)) => {
            let m = before.boxes()[k].1[j];
            if m.status == MessageStatus::Pushing {
                r matches Ok(n) && released_letter(m, n, reason) && replaced(
                    before,
                    after,
                    k,
                    j,
                    n,
                )
            } else {
                r matches Err(e) && not_deliverable(e, m) && unchanged(before, after)
            }
        },
    }
}

/// What `InMemoryStore::poll` does.
pub open spec fn poll_outcome(
    before: InMemoryStore,
    after: InMemoryStore,
    agent: Seq<char>,
    limit: nat,
    now: i128,
    r: Result<Vec<Message>, BusError>,
) -> bool {
    r matches Ok(out) && ({
        let k = owner_index(before.boxes(), agent);
        if k < 0 {
            out@ == Seq::<Message>::empty() && unchanged(before, after)
        } else {
            let p = poll_step(fifo_order(before.boxes()[k].1), limit, now);
            &&& out@ == p.1
            &&& after.boxes() == set_box(before.boxes(), k, p.0)
            &&& after.roster() == before.roster()
            &&& after.cap() == before.cap()
        }
    })
}

/// Simple, dependency-free in-memory backend.
pub struct InMemoryStore {
    mailboxes: Vec<Mailbox>,
    agents: Vec<String>,
    capacity: usize,
}

impl InMemoryStore {
    /// The mailboxes, as (owner, letters).
    pub closed spec fn boxes(self) -> BoxesView {
        self.mailboxes@.map_values(|b: Mailbox| (b.owner@, b.letters@))
    }

    /// The registered agents, in registration order.
    pub closed spec fn roster(self) -> Seq<Seq<char>> {
        texts_view(self.agents@)
    }

    /// How many letters one mailbox may hold.
    pub closed spec fn cap(self) -> nat {
        self.capacity as nat
    }

    /// Every letter in the store, mailbox after mailbox.
    pub open spec fn letters(self) -> Seq<Message> {
        all_letters(self.boxes())
    }

    /// The store's invariant: each agent has at most one mailbox and at most
    /// one place on the roster. Constructors establish it and every
    /// operation keeps it.
    pub open spec fn well_formed(self) -> bool {
        &&& one_box_per_agent(self.boxes())
        &&& self.roster().no_duplicates()
    }

    pub fn new() -> (s: Self)
        ensures
            s.boxes() == Seq::<(Seq<char>, Seq<Message>)>::empty(),
            s.roster() == Seq::<Seq<char>>::empty(),
            s.cap() == 1024,
            s.well_formed(),
    {
        let s = InMemoryStore { mailboxes: Vec::new(), agents: Vec::new(), capacity: 1024 };
        assert(s.boxes() =~= Seq::<(Seq<char>, Seq<Message>)>::empty());
        assert(s.roster() =~= Seq::<Seq<char>>::empty());
        s
    }

    pub fn with_capacity(capacity: usize) -> (s: Self)
        ensures
            s.boxes() == Seq::<(Seq<char>, Seq<Message>)>::empty(),
            s.roster() == Seq::<Seq<char>>::empty(),
            s.cap() == capacity,
            s.well_formed(),
    {
        let s = InMemoryStore { mailboxes: Vec::new(), agents: Vec::new(), capacity };
        assert(s.boxes() =~= Seq::<(Seq<char>, Seq<Message>)>::empty());
        assert(s.roster() =~= Seq::<Seq<char>>::empty());
        s
    }

    /// Sanity hook for backends with capacity.
    pub fn mailbox_capacity(&self) -> (c: usize)
        ensures
            c == self.cap(),
    {
        self.capacity
    }

    /// Position of `agent`'s mailbox.
    fn box_position(&self, agent: &str) -> (r: Option<usize>)
        ensures
            match r {
                Some(k) => k == owner_index(self.boxes(), agent@) && k < self.mailboxes@.len(),
                None => owner_index(self.boxes(), agent@) == -1,
            },
    {
        let n = self.mailboxes.len();
        let mut i: usize = 0;
        let ghost m = self.boxes();
        proof {
            assert(m.skip(0) =~= m);
        }
        while i < n
            invariant
                n == self.mailboxes@.len(),
                m == self.boxes(),
                m.len() == n,
                0 <= i <= n,
                forall|t: int| 0 <= t < i ==> m[t].0 != agent@,
                owner_index(m, agent@) == (if owner_index(m.skip(i as int), agent@) < 0 {
                    -1
                } else {
                    owner_index(m.skip(i as int), agent@) + i
                }),
            decreases n - i,
        {
            assert(m[i as int].0 == self.mailboxes@[i as int].owner@);
            if same_text(self.mailboxes[i].owner.as_str(), agent) {
                proof {
                    assert(m.skip(i as int)[0] == m[i as int]);
                }
                return Some(i);
            }
            proof {
                assert(m.skip(i as int).drop_first() =~= m.skip(i + 1));
                assert(m.skip(i as int)[0] == m[i as int]);
            }
            i = i + 1;
        }
        proof {
            assert(m.skip(n as int).len() == 0);
        }
        None
    }
}

impl InMemoryStore {
    /// Replace one letter in place.
    fn set_letter(&mut self, k: usize, j: usize, m: Message)
        requires
            k < old(self).mailboxes@.len(),
            j < old(self).mailboxes@[k as int].letters@.len(),
        ensures
            final(self).boxes() == set_box(old(self).boxes(), k as int, old(self).boxes()[k as int].1.update(j as int, m)),
            final(self).roster() == old(self).roster(),
            final(self).cap() == old(self).cap(),
            final(self).mailboxes@.len() == old(self).mailboxes@.len(),
    {
        let ghost before = self.boxes();
        self.mailboxes[k].letters.set(j, m);
        proof {
            assert(self.boxes() =~= set_box(before, k as int, before[k as int].1.update(j as int, m)));
            assert(self.roster() =~= old(self).roster());
        }
    }

    /// Replace all letters of mailbox `k`.
    fn set_letters(&mut self, k: usize, letters: Vec<Message>)
        requires
            k < old(self).mailboxes@.len(),
        ensures
            final(self).boxes() == set_box(old(self).boxes(), k as int, letters@),
            final(self).roster() == old(self).roster(),
            final(self).cap() == old(self).cap(),
            final(self).mailboxes@.len() == old(self).mailboxes@.len(),
    {
        let ghost before = self.boxes();
        self.mailboxes[k].letters = letters;
        proof {
            assert(self.boxes() =~= set_box(before, k as int, letters@));
            assert(self.roster() =~= old(self).roster());
        }
    }

    /// The position of `agent`'s mailbox, creating an empty one if needed.
    fn ensure_box(&mut self, agent: &str) -> (k: usize)
        ensures
            final(self).boxes() == with_box(old(self).boxes(), agent@),
            k == owner_index(final(self).boxes(), agent@),
            k < final(self).mailboxes@.len(),
            final(self).roster() == old(self).roster(),
            final(self).cap() == old(self).cap(),
            old(self).well_formed() ==> final(self).well_formed(),
    {
        proof {
            if old(self).well_formed() {
                lemma_with_box_keeps_one_box(old(self).boxes(), agent@);
            }
        }
        match self.box_position(agent) {
            Some(k) => k,
            None => {
                let ghost before = self.boxes();
                let k = self.mailboxes.len();
                self.mailboxes.push(Mailbox { owner: String::from_str(agent), letters: Vec::new() });
                proof {
                    assert(self.boxes() =~= before.push((agent@, Seq::<Message>::empty())));
                    assert(self.roster() =~= old(self).roster());
                    lemma_owner_index_push(before, agent@, Seq::<Message>::empty());
                }
                k
            },
        }
    }

    /// Find the letter `id` in `agent`'s mailbox.
    fn find_letter(&self, agent: &str, id: &str) -> (r: Option<(usize, usize)>)
        ensures
            match r {
                Some((k, j)) => locate(self.boxes(), agent@, id@) == Some((k as int, j as int))
                    && k < self.mailboxes@.len() && j < self.mailboxes@[k as int].letters@.len(),
                None => locate(self.boxes(), agent@, id@) is None,
            },
    {
        match self.box_position(agent) {
            None => None,
            Some(k) => {
                assert(self.boxes()[k as int].1 == self.mailboxes@[k as int].letters@);
                match letter_position(&self.mailboxes[k].letters, id) {
                    None => None,
                    Some(j) => Some((k, j)),
                }
            },
        }
    }
}

proof fn lemma_owner_index_push(m: BoxesView, agent: Seq<char>, letters: Seq<Message>)
    requires
        owner_index(m, agent) == -1,
    ensures
        owner_index(m.push((agent, letters)), agent) == m.len(),
    decreases m.len(),
{
    if m.len() > 0 {
        lemma_owner_index_push(m.drop_first(), agent, letters);
        assert(m.push((agent, letters)).drop_first() =~= m.drop_first().push((agent, letters)));
    }
}

pub proof fn lemma_owner_index_range(m: BoxesView, agent: Seq<char>)
    ensures
        -1 <= owner_index(m, agent) < m.len(),
        owner_index(m, agent) >= 0 ==> m[owner_index(m, agent)].0 == agent,
    decreases m.len(),
{
    if m.len() > 0 {
        lemma_owner_index_range(m.drop_first(), agent);
    }
}

/// Replacing a mailbox's letters moves no owner.
pub proof fn lemma_owner_index_set_box(m: BoxesView, k: int, letters: Seq<Message>, agent: Seq<char>)
    requires
        0 <= k < m.len(),
    ensures
        owner_index(set_box(m, k, letters), agent) == owner_index(m, agent),
    decreases m.len(),
{
    let w = set_box(m, k, letters);
    if k > 0 {
        assert(w.drop_first() =~= set_box(m.drop_first(), k - 1, letters));
        lemma_owner_index_set_box(m.drop_first(), k - 1, letters, agent);
    } else {
        assert(w.drop_first() =~= m.drop_first());
    }
}

/// A mailbox added for someone else leaves `agent`'s position alone.
pub proof fn lemma_owner_index_push_other(m: BoxesView, x: (Seq<char>, Seq<Message>), agent: Seq<char>)
    requires
        x.0 != agent,
    ensures
        owner_index(m.push(x), agent) == owner_index(m, agent),
    decreases m.len(),
{
    if m.len() > 0 {
        assert(m.push(x)[0] == m[0]);
        assert(m.push(x).drop_first() =~= m.drop_first().push(x));
        lemma_owner_index_push_other(m.drop_first(), x, agent);
    } else {
        assert(m.push(x)[0] == x);
        assert(m.push(x).drop_first().len() == 0);
        assert(owner_index(m.push(x).drop_first(), agent) == -1);
    }
}

/// A mailbox is full exactly when the letters its owner already has reach
/// the capacity (an agent without a mailbox has none).
pub proof fn lemma_mailbox_full_letters(m: BoxesView, agent: Seq<char>, cap: nat)
    ensures
        (with_box(m, agent)[owner_index(with_box(m, agent), agent)].1.len() >= cap) == (letters_of(m, agent).len()
            >= cap),
{
    lemma_with_box(m, agent);
}

/// Storing a letter for `target` leaves every other agent's letters alone.
pub proof fn lemma_push_keeps_other_letters(m: BoxesView, target: Seq<char>, letter: Message, agent: Seq<char>)
    requires
        agent != target,
    ensures
        ({
            let m1 = with_box(m, target);
            let k = owner_index(m1, target);
            letters_of(set_box(m1, k, m1[k].1.push(letter)), agent) == letters_of(m, agent)
        }),
{
    let m1 = with_box(m, target);
    let k = owner_index(m1, target);
    lemma_with_box(m, target);
    lemma_owner_index_set_box(m1, k, m1[k].1.push(letter), agent);
    if owner_index(m, target) < 0 {
        lemma_owner_index_push_other(m, (target, Seq::<Message>::empty()), agent);
    }
    lemma_owner_index_range(m, agent);
    lemma_owner_index_range(m1, agent);
}

/// After `with_box`, the agent owns a mailbox.
pub proof fn lemma_with_box(m: BoxesView, agent: Seq<char>)
    ensures
        0 <= owner_index(with_box(m, agent), agent) < with_box(m, agent).len(),
        with_box(m, agent)[owner_index(with_box(m, agent), agent)].0 == agent,
        owner_index(m, agent) >= 0 ==> with_box(m, agent) == m,
        owner_index(m, agent) < 0 ==> letters_of(with_box(m, agent), agent) == Seq::<Message>::empty(),
{
    lemma_owner_index_range(m, agent);
    if owner_index(m, agent) < 0 {
        lemma_owner_index_push(m, agent, Seq::<Message>::empty());
    }
    lemma_owner_index_range(with_box(m, agent), agent);
}

pub proof fn lemma_letter_index_range(s: Seq<Message>, id: Seq<char>)
    ensures
        -1 <= letter_index(s, id) < s.len(),
        letter_index(s, id) >= 0 ==> s[letter_index(s, id)].id@ == id,
    decreases s.len(),
{
    if s.len() > 0 {
        lemma_letter_index_range(s.drop_first(), id);
    }
}

/// The letter after a push was claimed: `Pushing`, one more attempt
/// (saturating), stamped now.
pub open spec fn claimed_letter(m: Message, now: i128) -> Message {
    Message {
        status: MessageStatus::Pushing,
        attempts: if m.attempts < u32::MAX { (m.attempts + 1) as u32 } else { u32::MAX },
        last_push_at: Some(now),
        ..m
    }
}

/// `new` is `old` after a failed push with the given error: back to `Queued`
/// with the error recorded, or `Dead` with it as the reason once the attempts
/// are used up.
pub open spec fn failed_letter(old: Message, new: Message, error: Seq<char>) -> bool {
    &&& new.last_error matches Some(e) && e@ == error
    &&& if old.attempts >= crate::state::MAX_ATTEMPTS {
        &&& new.dead_reason matches Some(d) && d@ == error
        &&& new == Message {
            status: MessageStatus::Dead,
            last_error: new.last_error,
            dead_reason: new.dead_reason,
            ..old
        }
    } else {
        new == Message { status: MessageStatus::Queued, last_error: new.last_error, ..old }
    }
}

/// `new` is `old` released from `Pushing` back to `Queued` with `reason` as
/// its last error.
pub open spec fn released_letter(old: Message, new: Message, reason: Seq<char>) -> bool {
    &&& new.last_error matches Some(e) && e@ == reason
    &&& new == Message { status: MessageStatus::Queued, last_error: new.last_error, ..old }
}

/// The ack note kept on a letter: the first 80 characters.
pub open spec fn ack_note_text(note: Seq<char>) -> Seq<char> {
    note.take(if note.len() < 80 { note.len() as int } else { 80 })
}

/// `new` is `old` acked at `now` with `note`.
pub open spec fn acked_with(old: Message, new: Message, note: Seq<char>, now: i128) -> bool {
    &&& new.ack_note matches Some(n) && n@ == ack_note_text(note)
    &&& new == acked_letter(old, new.ack_note, now)
}

/// A store operation on one letter left every other letter, the roster and
/// the capacity alone, and replaced the letter at `(k, j)` by `m`.
pub open spec fn replaced(before: InMemoryStore, after: InMemoryStore, k: int, j: int, m: Message) -> bool {
    &&& after.boxes() == set_box(before.boxes(), k, before.boxes()[k].1.update(j, m))
    &&& after.roster() == before.roster()
    &&& after.cap() == before.cap()
}

/// Nothing changed.
pub open spec fn unchanged(before: InMemoryStore, after: InMemoryStore) -> bool {
    &&& after.boxes() == before.boxes()
    &&& after.roster() == before.roster()
    &&& after.cap() == before.cap()
}

impl InMemoryStore {
    /// Append a message to its receiver's mailbox (the mailbox comes into
    /// existence if needed). Refused when the mailbox is at capacity.
    pub fn push(&mut self, msg: &Message) -> (r: Result<(), BusError>)
        ensures
            old(self).well_formed() ==> final(self).well_formed(),
            ({
                let m1 = with_box(old(self).boxes(), msg.receiver@);
                let k = owner_index(m1, msg.receiver@);
                if m1[k].1.len() >= old(self).cap() {
                    &&& r matches Err(BusError::MailboxFull(a, c)) && a@ == msg.receiver@ && c
                        == old(self).cap()
                    &&& final(self).boxes() == m1
                } else {
                    &&& r is Ok
                    &&& final(self).boxes() == set_box(m1, k, m1[k].1.push(*msg))
                }
            }),
            final(self).roster() == old(self).roster(),
            final(self).cap() == old(self).cap(),
    {
        let k = self.ensure_box(msg.receiver.as_str());
        assert(self.boxes()[k as int].1 == self.mailboxes@[k as int].letters@);
        if self.mailboxes[k].letters.len() >= self.capacity {
            return Err(BusError::MailboxFull(msg.receiver.clone(), self.capacity));
        }
        let ghost before = self.boxes();
        let ghost mid = *self;
        self.mailboxes[k].letters.push(msg.clone());
        proof {
            assert(self.boxes() =~= set_box(before, k as int, before[k as int].1.push(*msg)));
            assert(self.roster() =~= mid.roster());
        }
        Ok(())
    }

    /// Push receipt: a queued letter left the shelf without a poll
    /// (queued → delivered through the table's claim row); any other status
    /// is kept as it is. Returns the letter as it now stands.
    pub fn mark_delivered(&mut self, agent: &str, id: &str, now: i128) -> (r: Result<Message, BusError>)
        ensures
            old(self).well_formed() ==> final(self).well_formed(),
            delivered_outcome(*old(self), *final(self), agent@, id@, now, r),

    {
        match self.find_letter(agent, id) {
            None => Err(BusError::NotFound(String::from_str(id))),
            Some((k, j)) => {
                assert(self.boxes()[k as int].1 == self.mailboxes@[k as int].letters@);
                let mut m = self.mailboxes[k].letters[j].clone();
                let ev = Event::PollClaimed;
                proof { crate::state::law_apply_follows_lifecycle(m.status, ev); }
                if let Ok(Transition::To(to)) = apply(m.status, &ev) {
                    m.status = to;
                    m.delivered_at = Some(now);
                    self.set_letter(k, j, m.clone());
                }
                Ok(m)
            },
        }
    }

    /// Mark one delivered message as read (chatlog receipt: `read_at` set).
    /// Refused with `NotDeliverable` unless the letter is `Delivered`.
    pub fn mark_read(&mut self, agent: &str, id: &str, now: i128) -> (r: Result<Message, BusError>)
        ensures
            old(self).well_formed() ==> final(self).well_formed(),
            read_outcome(*old(self), *final(self), agent@, id@, now, r),

    {
        match self.find_letter(agent, id) {
            None => Err(BusError::NotFound(String::from_str(id))),
            Some((k, j)) => {
                assert(self.boxes()[k as int].1 == self.mailboxes@[k as int].letters@);
                let mut m = self.mailboxes[k].letters[j].clone();
                let ev = Event::ReadReceipt;
                proof { crate::state::law_apply_follows_lifecycle(m.status, ev); }
                match apply(m.status, &ev) {
                    Ok(Transition::To(to)) => {
                        m.status = to;
                        m.read_at = Some(now);
                        self.set_letter(k, j, m.clone());
                        Ok(m)
                    },
                    _ => Err(not_deliverable_error(&m)),
                }
            },
        }
    }

    /// Mark an agent's message acked with a note (first 80 characters kept);
    /// returns the updated message. Re-acking an acked letter returns it
    /// unchanged. Acking straight from `delivered` stamps `read_at` too, so
    /// the audit trail keeps its full chain.
    pub fn ack(&mut self, agent: &str, id: &str, note: &str, now: i128) -> (r: Result<Message, BusError>)
        ensures
            old(self).well_formed() ==> final(self).well_formed(),
            ack_outcome(*old(self), *final(self), agent@, id@, note@, now, r),

    {
        match self.find_letter(agent, id) {
            None => Err(BusError::NotFound(String::from_str(id))),
            Some((k, j)) => {
                assert(self.boxes()[k as int].1 == self.mailboxes@[k as int].letters@);
                let mut m = self.mailboxes[k].letters[j].clone();
                if m.status == MessageStatus::Acked {
                    return Ok(m);
                }
                if let Err(e) = validate_ack(&m) {
                    return Err(e);
                }
                let kept = take_chars(note, 80);
                let ev = Event::Ack { note: Some(kept) };
                proof { crate::state::law_apply_follows_lifecycle(m.status, ev); }
                match apply(m.status, &ev) {
                    Ok(Transition::To(to)) => {
                        if m.read_at.is_none() {
                            m.read_at = Some(now);
                        }
                        m.status = to;
                        m.acked_at = Some(now);
                        m.ack_note = match ev {
                            Event::Ack { note } => note,
                            _ => None,
                        };
                        self.set_letter(k, j, m.clone());
                        Ok(m)
                    },
                    _ => Err(not_deliverable_error(&m)),
                }
            },
        }
    }
}

impl InMemoryStore {
    /// Claim a queued letter for pushing (compare-and-set on `Queued`): the
    /// winner gets `Ok(true)` and the letter goes `Pushing` with one more
    /// attempt; a letter already `Pushing` gives `Ok(false)` (a racing
    /// dispatcher owns it); any other status is refused.
    pub fn claim_push(&mut self, agent: &str, id: &str, now: i128) -> (r: Result<bool, BusError>)
        ensures
            old(self).well_formed() ==> final(self).well_formed(),
            claim_outcome(*old(self), *final(self), agent@, id@, now, r),

    {
        match self.find_letter(agent, id) {
            None => Err(BusError::NotFound(String::from_str(id))),
            Some((k, j)) => {
                assert(self.boxes()[k as int].1 == self.mailboxes@[k as int].letters@);
                let mut m = self.mailboxes[k].letters[j].clone();
                let ev = Event::PushStarted;
                proof { crate::state::law_apply_follows_lifecycle(m.status, ev); }
                match apply(m.status, &ev) {
                    Ok(Transition::To(to)) => {
                        let prev = if m.attempts < u32::MAX { m.attempts } else { u32::MAX - 1 };
                        let bk = bookkeep(&ev, prev, now);
                        m.status = to;
                        m.attempts = match bk.attempts {
                            Some(a) => a,
                            None => m.attempts,
                        };
                        m.last_push_at = bk.last_push_at;
                        self.set_letter(k, j, m);
                        Ok(true)
                    },
                    Ok(Transition::NoOp(_)) => Ok(false),
                    Err(_) => Err(not_deliverable_error(&m)),
                }
            },
        }
    }

    /// The push of a `Pushing` letter landed: it is `Delivered` now.
    pub fn push_succeeded(&mut self, agent: &str, id: &str, now: i128) -> (r: Result<Message, BusError>)
        ensures
            old(self).well_formed() ==> final(self).well_formed(),
            push_ok_outcome(*old(self), *final(self), agent@, id@, now, r),

    {
        match self.find_letter(agent, id) {
            None => Err(BusError::NotFound(String::from_str(id))),
            Some((k, j)) => {
                assert(self.boxes()[k as int].1 == self.mailboxes@[k as int].letters@);
                let mut m = self.mailboxes[k].letters[j].clone();
                let ev = Event::PushOk;
                proof { crate::state::law_apply_follows_lifecycle(m.status, ev); }
                match apply(m.status, &ev) {
                    Ok(Transition::To(to)) => {
                        m.status = to;
                        m.delivered_at = Some(now);
                        self.set_letter(k, j, m.clone());
                        Ok(m)
                    },
                    _ => Err(not_deliverable_error(&m)),
                }
            },
        }
    }

    /// The push of a `Pushing` letter failed: honest failure — back to
    /// `Queued` with the error recorded for a later retry, or `Dead` (with the
    /// error as its reason) once `MAX_ATTEMPTS` pushes have been started.
    pub fn push_failed(&mut self, agent: &str, id: &str, error: &str) -> (r: Result<Message, BusError>)
        ensures
            old(self).well_formed() ==> final(self).well_formed(),
            push_failed_outcome(*old(self), *final(self), agent@, id@, error@, r),

    {
        match self.find_letter(agent, id) {
            None => Err(BusError::NotFound(String::from_str(id))),
            Some((k, j)) => {
                assert(self.boxes()[k as int].1 == self.mailboxes@[k as int].letters@);
                let mut m = self.mailboxes[k].letters[j].clone();
                if m.status != MessageStatus::Pushing {
                    return Err(not_deliverable_error(&m));
                }
                let ev = if should_give_up(m.attempts) {
                    Event::GiveUp { reason: String::from_str(error) }
                } else {
                    Event::PushErrored { reason: String::from_str(error) }
                };
                proof { crate::state::law_apply_follows_lifecycle(m.status, ev); }
                match apply(m.status, &ev) {
                    Ok(Transition::To(to)) => {
                        let bk = bookkeep(&ev, m.attempts, 0);
                        m.status = to;
                        match bk.dead_reason {
                            Some(reason) => {
                                m.dead_reason = Some(reason);
                                m.last_error = Some(String::from_str(error));
                            },
                            None => {
                                m.last_error = bk.last_error;
                            },
                        }
                        self.set_letter(k, j, m.clone());
                        Ok(m)
                    },
                    _ => Err(not_deliverable_error(&m)),
                }
            },
        }
    }

    /// Release a `Pushing` letter back to `Queued` without counting a failure
    /// of the receiver (its dispatcher died mid-push, or nothing was pushed);
    /// `reason` becomes its last error.
    pub fn reclaim_stale_pushing(&mut self, agent: &str, id: &str, reason: &str) -> (r: Result<Message, BusError>)
        ensures
            old(self).well_formed() ==> final(self).well_formed(),
            reclaim_outcome(*old(self), *final(self), agent@, id@, reason@, r),

    {
        match self.find_letter(agent, id) {
            None => Err(BusError::NotFound(String::from_str(id))),
            Some((k, j)) => {
                assert(self.boxes()[k as int].1 == self.mailboxes@[k as int].letters@);
                let mut m = self.mailboxes[k].letters[j].clone();
                let ev = Event::PushErrored { reason: String::from_str(reason) };
                proof { crate::state::law_apply_follows_lifecycle(m.status, ev); }
                match apply(m.status, &ev) {
                    Ok(Transition::To(to)) => {
                        let bk = bookkeep(&ev, m.attempts, 0);
                        m.status = to;
                        m.last_error = bk.last_error;
                        self.set_letter(k, j, m.clone());
                        Ok(m)
                    },
                    _ => Err(not_deliverable_error(&m)),
                }
            },
        }
    }
}

impl InMemoryStore {
    /// Take the letters of mailbox `k` out (leaving it empty).
    fn take_letters(&mut self, k: usize) -> (v: Vec<Message>)
        requires
            k < old(self).mailboxes@.len(),
        ensures
            v@ == old(self).boxes()[k as int].1,
            final(self).boxes() == set_box(old(self).boxes(), k as int, Seq::empty()),
            final(self).roster() == old(self).roster(),
            final(self).cap() == old(self).cap(),
            final(self).mailboxes@.len() == old(self).mailboxes@.len(),
    {
        let ghost before = self.boxes();
        let mut v: Vec<Message> = Vec::new();
        std::mem::swap(&mut v, &mut self.mailboxes[k].letters);
        proof {
            assert(self.boxes() =~= set_box(before, k as int, Seq::empty()));
            assert(self.roster() =~= old(self).roster());
        }
        v
    }

    /// Drain up to `limit` queued messages for `agent` (none for a limit of
    /// 0), marking them delivered. The mailbox is put in FIFO order first;
    /// claims follow that order.
    pub fn poll(&mut self, agent: &str, limit: usize, now: i128) -> (r: Result<Vec<Message>, BusError>)
        ensures
            old(self).well_formed() ==> final(self).well_formed(),
            poll_outcome(*old(self), *final(self), agent@, limit as nat, now, r),
    {
        let k = match self.box_position(agent) {
            None => {
                return Ok(Vec::new());
            },
            Some(k) => k,
        };
        let ghost start = self.boxes();
        let mut letters = self.take_letters(k);
        fifo(&mut letters);
        let ghost sorted = letters@;
        let mut out: Vec<Message> = Vec::new();
        let n = letters.len();
        let mut i: usize = 0;
        proof {
            assert(sorted.take(0) =~= Seq::<Message>::empty());
            assert(sorted.skip(0) =~= sorted);
            assert(poll_step(sorted, limit as nat, now).0 =~= Seq::<Message>::empty() + poll_step(sorted, limit as nat, now).0);
            assert(poll_step(sorted, limit as nat, now).1 =~= Seq::<Message>::empty() + poll_step(sorted, limit as nat, now).1);
        }
        while i < n
            invariant_except_break
                n == sorted.len(),
                letters@.len() == n,
                0 <= i <= n,
                out@.len() <= limit,
                letters@.skip(i as int) == sorted.skip(i as int),
                ({
                    let rest = poll_step(sorted.skip(i as int), (limit - out@.len()) as nat, now);
                    poll_step(sorted, limit as nat, now) == (letters@.take(i as int) + rest.0, out@ + rest.1)
                }),
            ensures
                poll_step(sorted, limit as nat, now) == (letters@, out@),
            decreases n - i,
        {
            let ghost li = letters@;
            let ghost rest_now = poll_step(sorted.skip(i as int), (limit - out@.len()) as nat, now);
            if out.len() >= limit {
                proof {
                    assert(rest_now == (sorted.skip(i as int), Seq::<Message>::empty()));
                    assert(li =~= li.take(i as int) + li.skip(i as int));
                    assert(out@ + rest_now.1 =~= out@);
                }
                break;
            }
            proof {
                assert(sorted.skip(i as int)[0] == sorted[i as int]);
                assert(sorted.skip(i as int).drop_first() =~= sorted.skip(i + 1));
                assert(li[i as int] == sorted[i as int]) by {
                    assert(li.skip(i as int)[0] == li[i as int]);
                }
            }
            if letters[i].status == MessageStatus::Queued {
                let mut m = letters[i].clone();
                let ev = Event::PollClaimed;
                proof { crate::state::law_apply_follows_lifecycle(m.status, ev); }
                if let Ok(Transition::To(to)) = apply(m.status, &ev) {
                    m.status = to;
                    m.delivered_at = Some(now);
                }
                letters.set(i, m.clone());
                out.push(m);
                proof {
                    let r2 = poll_step(sorted.skip(i + 1), (limit - out@.len()) as nat, now);
                    assert(rest_now.0 =~= seq![m] + r2.0);
                    assert(letters@.take(i + 1) =~= li.take(i as int).push(m));
                    assert(li.take(i as int) + rest_now.0 =~= letters@.take(i + 1) + r2.0);
                    assert(out@ + r2.1 =~= out@.drop_last() + rest_now.1);
                    assert(letters@.skip(i + 1) =~= li.skip(i + 1));
                    assert(li.skip(i + 1) =~= li.skip(i as int).drop_first());
                }
            } else {
                proof {
                    let r2 = poll_step(sorted.skip(i + 1), (limit - out@.len()) as nat, now);
                    assert(li.take(i + 1) =~= li.take(i as int).push(li[i as int]));
                    assert(li.take(i as int) + rest_now.0 =~= li.take(i + 1) + r2.0);
                    assert(li.skip(i + 1) =~= li.skip(i as int).drop_first());
                }
            }
            i = i + 1;
        }
        self.set_letters(k, letters);
        proof {
            assert(set_box(set_box(start, k as int, Seq::empty()), k as int, letters@) =~= set_box(start, k as int, letters@));
        }
        Ok(out)
    }
}

/// Letters sent by `agent`.
pub open spec fn sent_by_pred(agent: Seq<char>) -> spec_fn(Message) -> bool {
    |m: Message| m.sender@ == agent
}

/// Letters that are acked.
pub open spec fn acked_pred() -> spec_fn(Message) -> bool {
    |m: Message| m.status == MessageStatus::Acked
}

/// Letters that are queued.
pub open spec fn queued_pred() -> spec_fn(Message) -> bool {
    |m: Message| m.status == MessageStatus::Queued
}

proof fn lemma_all_letters_push(m: BoxesView, x: (Seq<char>, Seq<Message>))
    ensures
        all_letters(m.push(x)) == all_letters(m) + x.1,
    decreases m.len(),
{
    if m.len() == 0 {
        let e = Seq::<(Seq<char>, Seq<Message>)>::empty();
        assert(m.push(x).drop_first() =~= e);
        assert(all_letters(e) == Seq::<Message>::empty());
        assert(m.push(x)[0] == x);
        assert(all_letters(m.push(x)) == x.1 + all_letters(e));
        assert(all_letters(m.push(x)) =~= x.1);
        assert(all_letters(m) + x.1 =~= x.1);
    } else {
        lemma_all_letters_push(m.drop_first(), x);
        assert(m.push(x).drop_first() =~= m.drop_first().push(x));
        assert(all_letters(m.push(x)) =~= m[0].1 + (all_letters(m.drop_first()) + x.1));
    }
}

/// The letters of `s` that satisfy `p`, in order.
fn filter_letters(s: &Vec<Message>, p: Ghost<spec_fn(Message) -> bool>, status: Option<MessageStatus>, sender: Option<&str>) -> (r: Vec<Message>)
    requires
        forall|m: Message|
            #[trigger] (p@)(m) == ((status matches Some(st) ==> m.status == st) && (sender matches Some(a)
                ==> m.sender@ == a@)),
    ensures
        r@ == s@.filter(p@),
{
    let mut out: Vec<Message> = Vec::new();
    let n = s.len();
    let mut i: usize = 0;
    proof {
        assert(s@.take(0) =~= Seq::<Message>::empty());
        reveal_with_fuel(Seq::filter, 1);
    }
    while i < n
        invariant
            n == s@.len(),
            0 <= i <= n,
            out@ == s@.take(i as int).filter(p@),
            forall|m: Message|
                #[trigger] (p@)(m) == ((status matches Some(st) ==> m.status == st) && (sender matches Some(a)
                    ==> m.sender@ == a@)),
        decreases n - i,
    {
        let keep_status = match status {
            Some(st) => s[i].status == st,
            None => true,
        };
        let keep_sender = match sender {
            Some(a) => same_text(s[i].sender.as_str(), a),
            None => true,
        };
        proof {
            assert(s@.take(i + 1) =~= s@.take(i as int).push(s@[i as int]));
            s@.take(i as int).lemma_filter_push(s@[i as int], p@);
        }
        if keep_status && keep_sender {
            out.push(s[i].clone());
        }
        i = i + 1;
    }
    proof {
        assert(s@.take(n as int) =~= s@);
    }
    out
}

impl InMemoryStore {
    /// Every letter, mailbox after mailbox (unsorted).
    fn collect_all(&self) -> (r: Vec<Message>)
        ensures
            r@ == self.letters(),
    {
        let mut out: Vec<Message> = Vec::new();
        let n = self.mailboxes.len();
        let mut i: usize = 0;
        let ghost m = self.boxes();
        proof {
            assert(m.take(0) =~= Seq::<(Seq<char>, Seq<Message>)>::empty());
        }
        while i < n
            invariant
                n == self.mailboxes@.len(),
                m == self.boxes(),
                m.len() == n,
                0 <= i <= n,
                out@ == all_letters(m.take(i as int)),
            decreases n - i,
        {
            let letters = &self.mailboxes[i].letters;
            let k = letters.len();
            let mut j: usize = 0;
            let ghost base = out@;
            assert(m[i as int].1 == letters@);
            while j < k
                invariant
                    k == letters@.len(),
                    0 <= j <= k,
                    out@ == base + letters@.take(j as int),
                decreases k - j,
            {
                out.push(letters[j].clone());
                j = j + 1;
                assert(out@ =~= base + letters@.take(j as int));
            }
            proof {
                assert(letters@.take(k as int) =~= letters@);
                assert(m.take(i + 1) =~= m.take(i as int).push(m[i as int]));
                lemma_all_letters_push(m.take(i as int), m[i as int]);
            }
            i = i + 1;
        }
        proof {
            assert(m.take(n as int) =~= m);
        }
        out
    }

    /// Peek without marking: the queued letters of `agent`'s mailbox, in the
    /// order they are stored.
    pub fn peek(&self, agent: &str) -> (r: Result<Vec<Message>, BusError>)
        ensures
            r matches Ok(v) && v@ == letters_of(self.boxes(), agent@).filter(queued_pred()),
    {
        match self.box_position(agent) {
            None => {
                proof {
                    reveal_with_fuel(Seq::filter, 1);
                }
                Ok(Vec::new())
            },
            Some(k) => {
                assert(self.boxes()[k as int].1 == self.mailboxes@[k as int].letters@);
                Ok(filter_letters(&self.mailboxes[k].letters, Ghost(queued_pred()), Some(MessageStatus::Queued), None))
            },
        }
    }

    /// Sender-side status: all messages sent by `agent`, FIFO.
    pub fn sent_by(&self, agent: &str) -> (r: Result<Vec<Message>, BusError>)
        ensures
            r matches Ok(v) && v@ == fifo_order(self.letters().filter(sent_by_pred(agent@))),
    {
        let all = self.collect_all();
        let mut out = filter_letters(&all, Ghost(sent_by_pred(agent@)), None, Some(agent));
        fifo(&mut out);
        Ok(out)
    }

    /// Everything ever acked — the audit log, FIFO.
    pub fn archive(&self) -> (r: Result<Vec<Message>, BusError>)
        ensures
            r matches Ok(v) && v@ == fifo_order(self.letters().filter(acked_pred())),
    {
        let all = self.collect_all();
        let mut out = filter_letters(&all, Ghost(acked_pred()), Some(MessageStatus::Acked), None);
        fifo(&mut out);
        Ok(out)
    }

    /// Every letter in the bus, any status, FIFO. Read-only.
    pub fn list_all(&self) -> (r: Result<Vec<Message>, BusError>)
        ensures
            r matches Ok(v) && v@ == fifo_order(self.letters()),
    {
        let mut out = self.collect_all();
        fifo(&mut out);
        Ok(out)
    }
}

/// The first mailbox (in order) holding a letter with id `id`, or -1.
pub open spec fn box_with_letter(m: BoxesView, id: Seq<char>) -> int
    decreases m.len(),
{
    if m.len() == 0 {
        -1
    } else if letter_index(m[0].1, id) >= 0 {
        0
    } else {
        let r = box_with_letter(m.drop_first(), id);
        if r < 0 { -1 } else { r + 1 }
    }
}

/// The mailboxes with every letter removed (owners kept).
pub open spec fn emptied(m: BoxesView) -> BoxesView {
    m.map_values(|p: (Seq<char>, Seq<Message>)| (p.0, Seq::<Message>::empty()))
}

/// Names other than `agent`.
pub open spec fn other_than(agent: Seq<char>) -> spec_fn(Seq<char>) -> bool {
    |a: Seq<char>| a != agent
}

/// The roster after registering `agent` (no duplicates).
pub open spec fn roster_with(r: Seq<Seq<char>>, agent: Seq<char>) -> Seq<Seq<char>> {
    if r.contains(agent) { r } else { r.push(agent) }
}

proof fn lemma_all_letters_take(m: BoxesView, i: int)
    requires
        0 <= i < m.len(),
    ensures
        all_letters(m.take(i + 1)) == all_letters(m.take(i)) + m[i].1,
{
    assert(m.take(i + 1) =~= m.take(i).push(m[i]));
    lemma_all_letters_push(m.take(i), m[i]);
}

impl InMemoryStore {
    /// Delete exactly one letter by id (any status), searching the mailboxes
    /// in order. Returns the removed letter.
    pub fn delete_one(&mut self, id: &str) -> (r: Result<Message, BusError>)
        ensures
            old(self).well_formed() ==> final(self).well_formed(),
            ({
                let k = box_with_letter(old(self).boxes(), id@);
                if k < 0 {
                    r matches Err(e) && not_found(e, id@) && unchanged(*old(self), *final(self))
                } else {
                    let j = letter_index(old(self).boxes()[k].1, id@);
                    &&& r == Ok::<Message, BusError>(old(self).boxes()[k].1[j])
                    &&& final(self).boxes() == set_box(old(self).boxes(), k, old(self).boxes()[k].1.remove(j))
                    &&& final(self).roster() == old(self).roster()
                    &&& final(self).cap() == old(self).cap()
                }
            }),
    {
        let n = self.mailboxes.len();
        let mut i: usize = 0;
        let ghost m = self.boxes();
        proof {
            assert(m.skip(0) =~= m);
        }
        while i < n
            invariant
                n == self.mailboxes@.len(),
                m == self.boxes(),
                *self == *old(self),
                m.len() == n,
                0 <= i <= n,
                box_with_letter(m, id@) == (if box_with_letter(m.skip(i as int), id@) < 0 {
                    -1
                } else {
                    box_with_letter(m.skip(i as int), id@) + i
                }),
            decreases n - i,
        {
            assert(m[i as int].1 == self.mailboxes@[i as int].letters@);
            proof {
                assert(m.skip(i as int)[0] == m[i as int]);
                assert(m.skip(i as int).drop_first() =~= m.skip(i + 1));
            }
            if let Some(j) = letter_position(&self.mailboxes[i].letters, id) {
                let ghost before = self.boxes();
                let removed = self.mailboxes[i].letters.remove(j);
                proof {
                    assert(self.boxes() =~= set_box(before, i as int, before[i as int].1.remove(j as int)));
                    assert(self.roster() =~= old(self).roster());
                }
                return Ok(removed);
            }
            i = i + 1;
        }
        proof {
            assert(m.skip(n as int).len() == 0);
        }
        Err(BusError::NotFound(String::from_str(id)))
    }

    /// Delete every letter in the bus, any status. Returns how many were
    /// removed (saturating at `u64::MAX`).
    pub fn delete_all(&mut self) -> (r: Result<u64, BusError>)
        ensures
            old(self).well_formed() ==> final(self).well_formed(),
            r == Ok::<u64, BusError>(
                if old(self).letters().len() <= u64::MAX { old(self).letters().len() as u64 } else { u64::MAX },
            ),
            final(self).boxes() == emptied(old(self).boxes()),
            final(self).roster() == old(self).roster(),
            final(self).cap() == old(self).cap(),
    {
        let n = self.mailboxes.len();
        let mut i: usize = 0;
        let mut removed: u64 = 0;
        let ghost m = self.boxes();
        proof {
            assert(m.take(0) =~= Seq::<(Seq<char>, Seq<Message>)>::empty());
        }
        while i < n
            invariant
                n == self.mailboxes@.len(),
                m == old(self).boxes(),
                m.len() == n,
                0 <= i <= n,
                removed == (if all_letters(m.take(i as int)).len() <= u64::MAX {
                    all_letters(m.take(i as int)).len() as u64
                } else {
                    u64::MAX
                }),
                forall|t: int| 0 <= t < i ==> #[trigger] self.boxes()[t] == (m[t].0, Seq::<Message>::empty()),
                forall|t: int| i <= t < n ==> #[trigger] self.boxes()[t] == m[t],
                self.roster() == old(self).roster(),
                self.cap() == old(self).cap(),
            decreases n - i,
        {
            let ghost before = self.boxes();
            assert(before[i as int] == m[i as int]);
            let len = self.mailboxes[i].letters.len() as u64;
            removed = removed.saturating_add(len);
            self.mailboxes[i].letters.clear();
            proof {
                lemma_all_letters_take(m, i as int);
                assert(self.boxes() =~= set_box(before, i as int, Seq::empty()));
                assert(self.roster() =~= old(self).roster());
            }
            i = i + 1;
        }
        proof {
            assert(m.take(n as int) =~= m);
            assert(self.boxes() =~= emptied(m));
        }
        Ok(removed)
    }

    /// Register an agent (its mailbox comes into existence). Idempotent.
    pub fn register(&mut self, agent: &str) -> (r: Result<(), BusError>)
        ensures
            old(self).well_formed() ==> final(self).well_formed(),
            r is Ok,
            final(self).roster() == roster_with(old(self).roster(), agent@),
            final(self).boxes() == with_box(old(self).boxes(), agent@),
            final(self).cap() == old(self).cap(),
    {
        let n = self.agents.len();
        let mut i: usize = 0;
        let mut found = false;
        while i < n
            invariant
                n == self.agents@.len(),
                *self == *old(self),
                0 <= i <= n,
                found == (exists|t: int| 0 <= t < i && self.roster()[t] == agent@),
            decreases n - i,
        {
            assert(self.roster()[i as int] == self.agents@[i as int]@);
            if same_text(self.agents[i].as_str(), agent) {
                found = true;
            }
            i = i + 1;
        }
        if !found {
            let ghost before = self.roster();
            self.agents.push(String::from_str(agent));
            proof {
                assert(self.roster() =~= before.push(agent@));
                assert(!before.contains(agent@));
                assert(self.boxes() =~= old(self).boxes());
            }
        } else {
            proof {
                let t = choose|t: int| 0 <= t < n && self.roster()[t] == agent@;
                assert(self.roster().contains(agent@));
            }
        }
        proof {
            if old(self).well_formed() {
                lemma_roster_with_no_duplicates(old(self).roster(), agent@);
            }
        }
        self.ensure_box(agent);
        Ok(())
    }

    /// Take an agent off the roster. The mailbox itself is intentionally
    /// kept: letters already on the shelf stay visible.
    pub fn unregister(&mut self, agent: &str) -> (r: Result<(), BusError>)
        ensures
            old(self).well_formed() ==> final(self).well_formed(),
            r is Ok,
            final(self).roster() == old(self).roster().filter(other_than(agent@)),
            final(self).boxes() == old(self).boxes(),
            final(self).cap() == old(self).cap(),
    {
        let ghost pred = other_than(agent@);
        let mut kept: Vec<String> = Vec::new();
        let n = self.agents.len();
        let mut i: usize = 0;
        proof {
            assert(self.roster().take(0) =~= Seq::<Seq<char>>::empty());
            reveal_with_fuel(Seq::filter, 1);
            assert(texts_view(kept@) =~= Seq::<Seq<char>>::empty());
        }
        while i < n
            invariant
                n == self.agents@.len(),
                *self == *old(self),
                0 <= i <= n,
                pred == other_than(agent@),
                texts_view(kept@) == self.roster().take(i as int).filter(pred),
            decreases n - i,
        {
            let ghost before = kept@;
            proof {
                assert(self.roster().take(i + 1) =~= self.roster().take(i as int).push(self.roster()[i as int]));
                self.roster().take(i as int).lemma_filter_push(self.roster()[i as int], pred);
                assert(self.roster()[i as int] == self.agents@[i as int]@);
            }
            let ghost x = self.roster()[i as int];
            if !same_text(self.agents[i].as_str(), agent) {
                kept.push(self.agents[i].clone());
                proof {
                    lemma_texts_view_push(before, self.agents@[i as int]);
                    assert(pred(x));
                    assert(texts_view(kept@) == self.roster().take(i as int).filter(pred).push(x));
                }
            } else {
                assert(!pred(x));
            }
            assert(texts_view(kept@) == self.roster().take(i + 1).filter(pred));
            i = i + 1;
        }
        proof {
            assert(self.roster().take(n as int) =~= self.roster());
        }
        self.agents = kept;
        proof {
            assert(self.boxes() =~= old(self).boxes());
            if old(self).well_formed() {
                lemma_filter_no_duplicates(old(self).roster(), pred);
            }
        }
        Ok(())
    }

    /// Known agents, in registration order.
    pub fn agents(&self) -> (r: Result<Vec<String>, BusError>)
        ensures
            r matches Ok(v) && texts_view(v@) == self.roster(),
    {
        let mut out: Vec<String> = Vec::new();
        let n = self.agents.len();
        let mut i: usize = 0;
        while i < n
            invariant
                n == self.agents@.len(),
                0 <= i <= n,
                out@ == self.agents@.take(i as int),
            decreases n - i,
        {
            out.push(self.agents[i].clone());
            proof {
                assert(out@ =~= self.agents@.take(i + 1));
            }
            i = i + 1;
        }
        proof {
            assert(self.agents@.take(n as int) =~= self.agents@);
        }
        Ok(out)
    }
}

/// Position of the first letter with the given id.
fn letter_position(letters: &Vec<Message>, id: &str) -> (r: Option<usize>)
    ensures
        match r {
            Some(j) => j == letter_index(letters@, id@) && j < letters@.len(),
            None => letter_index(letters@, id@) == -1,
        },
{
    let n = letters.len();
    let mut i: usize = 0;
    let ghost s = letters@;
    proof {
        assert(s.skip(0) =~= s);
    }
    while i < n
        invariant
            n == s.len(),
            s == letters@,
            0 <= i <= n,
            letter_index(s, id@) == (if letter_index(s.skip(i as int), id@) < 0 {
                -1
            } else {
                letter_index(s.skip(i as int), id@) + i
            }),
        decreases n - i,
    {
        if same_text(letters[i].id.as_str(), id) {
            proof {
                assert(s.skip(i as int)[0] == s[i as int]);
            }
            return Some(i);
        }
        proof {
            assert(s.skip(i as int).drop_first() =~= s.skip(i + 1));
            assert(s.skip(i as int)[0] == s[i as int]);
        }
        i = i + 1;
    }
    proof {
        assert(s.skip(n as int).len() == 0);
    }
    None
}

impl Default for InMemoryStore {
    /// An empty store with the default capacity.
    fn default() -> (s: Self)
        ensures
            s.boxes() == Seq::<(Seq<char>, Seq<Message>)>::empty(),
            s.roster() == Seq::<Seq<char>>::empty(),
            s.cap() == 1024,
            s.well_formed(),
    {
        InMemoryStore::new()
    }
}

} // verus!
