//! Delivery registry + push decisions.
//!
//! Agents register once (name, description, deliver_via); the bus then
//! pushes letters to them on arrival instead of waiting for a poll. A push
//! failure never loses a letter: it stays queued, poll still works.

use vstd::prelude::*;
use crate::text::{same_text, text_le, text_le_exec, text_of};

verus! {

/// How the bus should deliver to a registered agent.
#[derive(Debug, PartialEq, Eq)]
pub enum DeliverVia {
    /// Push a notification to an A2A endpoint (SendMessage with the letter).
    A2a { url: String },
    /// POST the letter as JSON to a webhook.
    Webhook { url: String },
    /// Fire-and-forget door-knock via an HTTP relay.
    Relay { url: String },
    /// No push — classic poll-only semantics.
    Poll,
}

impl DeliverVia {
    /// Does this mode push?
    pub fn is_push(&self) -> (r: bool)
        ensures
            r == !(self is Poll),
    {
        match self {
            DeliverVia::Poll => false,
            _ => true,
        }
    }
}

impl Clone for DeliverVia {
    fn clone(&self) -> (r: Self)
        ensures
            r == *self,
    {
        match self {
            DeliverVia::A2a { url } => DeliverVia::A2a { url: url.clone() },
            DeliverVia::Webhook { url } => DeliverVia::Webhook { url: url.clone() },
            DeliverVia::Relay { url } => DeliverVia::Relay { url: url.clone() },
            DeliverVia::Poll => DeliverVia::Poll,
        }
    }
}

impl Default for DeliverVia {
    fn default() -> (r: Self)
        ensures
            r is Poll,
    {
        DeliverVia::Poll
    }
}

/// A copy of a list of texts.
pub fn clone_texts(v: &Vec<String>) -> (r: Vec<String>)
    ensures
        r@ == v@,
{
    let mut out: Vec<String> = Vec::new();
    let n = v.len();
    let mut i: usize = 0;
    while i < n
        invariant
            n == v@.len(),
            0 <= i <= n,
            out@ == v@.take(i as int),
        decreases n - i,
    {
        out.push(v[i].clone());
        i = i + 1;
        assert(out@ =~= v@.take(i as int));
    }
    assert(v@.take(n as int) =~= v@);
    out
}

/// One agent's registry entry: who they are + how to reach them.
#[derive(Debug)]
pub struct AgentEntry {
    pub agent: String,
    pub description: String,
    pub deliver_via: DeliverVia,
    /// Team tags (dashboard legend).
    pub tags: Vec<String>,
}

/// What an entry says: agent, description, delivery mode, tags.
pub struct AgentView {
    pub agent: Seq<char>,
    pub description: Seq<char>,
    pub deliver_via: DeliverVia,
    pub tags: Seq<String>,
}

impl View for AgentEntry {
    type V = AgentView;

    open spec fn view(&self) -> AgentView {
        AgentView {
            agent: self.agent@,
            description: self.description@,
            deliver_via: self.deliver_via,
            tags: self.tags@,
        }
    }
}

/// The views of a list of entries.
pub open spec fn entry_views(v: Seq<AgentEntry>) -> Seq<AgentView> {
    v.map_values(|e: AgentEntry| e@)
}

impl Clone for AgentEntry {
    fn clone(&self) -> (r: Self)
        ensures
            r@ == self@,
    {
        let tags = clone_texts(&self.tags);
        assert(tags@ == self.tags@);
        AgentEntry {
            agent: self.agent.clone(),
            description: self.description.clone(),
            deliver_via: self.deliver_via.clone(),
            tags,
        }
    }
}

/// The first entry for `agent`, if any.
pub open spec fn entry_index(s: Seq<AgentView>, agent: Seq<char>) -> int
    decreases s.len(),
{
    if s.len() == 0 {
        -1
    } else if s[0].agent == agent {
        0
    } else {
        let r = entry_index(s.drop_first(), agent);
        if r < 0 { -1 } else { r + 1 }
    }
}

pub proof fn lemma_entry_index_range(s: Seq<AgentView>, agent: Seq<char>)
    ensures
        -1 <= entry_index(s, agent) < s.len(),
        entry_index(s, agent) >= 0 ==> s[entry_index(s, agent)].agent == agent,
        entry_index(s, agent) < 0 ==> forall|i: int| 0 <= i < s.len() ==> s[i].agent != agent,
    decreases s.len(),
{
    if s.len() > 0 {
        lemma_entry_index_range(s.drop_first(), agent);
        if entry_index(s, agent) < 0 {
            assert forall|i: int| 0 <= i < s.len() implies s[i].agent != agent by {
                if i > 0 {
                    assert(s.drop_first()[i - 1] == s[i]);
                }
            }
        }
    }
}

/// Order registry entries by agent name (byte order).
pub open spec fn agent_le(a: AgentView, b: AgentView) -> bool {
    text_le(a.agent, b.agent)
}

/// Stable insertion of one entry into a run ordered by agent name.
pub open spec fn insert_by_agent(s: Seq<AgentView>, e: AgentView) -> Seq<AgentView>
    decreases s.len(),
{
    if s.len() == 0 {
        seq![e]
    } else if agent_le(s.last(), e) {
        s.push(e)
    } else {
        insert_by_agent(s.drop_last(), e).push(s.last())
    }
}

/// Entries ordered by agent name (stable insertion sort).
pub open spec fn by_agent(s: Seq<AgentView>) -> Seq<AgentView>
    decreases s.len(),
{
    if s.len() == 0 {
        s
    } else {
        insert_by_agent(by_agent(s.drop_last()), s.last())
    }
}

/// No two entries name the same agent: one registry entry per agent.
pub open spec fn one_entry_per_agent(s: Seq<AgentView>) -> bool {
    forall|i: int, j: int| 0 <= i < j < s.len() ==> #[trigger] s[i].agent != #[trigger] s[j].agent
}

/// The central registry: "register once, the bus finds you."
pub struct Registry {
    agents: Vec<AgentEntry>,
}

impl Registry {
    /// The entries, in the order the agents first registered.
    pub closed spec fn entries(self) -> Seq<AgentView> {
        entry_views(self.agents@)
    }

    /// The entry for `agent`, if registered.
    pub open spec fn lookup_spec(self, agent: Seq<char>) -> Option<AgentView> {
        let k = entry_index(self.entries(), agent);
        if k >= 0 { Some(self.entries()[k]) } else { None }
    }

    /// The registry's invariant: one entry per agent. Constructors
    /// establish it and registering keeps it.
    pub open spec fn well_formed(self) -> bool {
        one_entry_per_agent(self.entries())
    }

    pub fn new() -> (r: Self)
        ensures
            r.entries() == Seq::<AgentView>::empty(),
            r.well_formed(),
    {
        let r = Registry { agents: Vec::new() };
        assert(r.entries() =~= Seq::<AgentView>::empty());
        r
    }

    fn position(&self, agent: &str) -> (r: Option<usize>)
        ensures
            match r {
                Some(k) => k == entry_index(self.entries(), agent@) && k < self.entries().len(),
                None => entry_index(self.entries(), agent@) == -1,
            },
    {
        let n = self.agents.len();
        let mut i: usize = 0;
        let ghost s = self.entries();
        proof {
            assert(s.skip(0) =~= s);
        }
        while i < n
            invariant
                n == s.len(),
                n == self.agents@.len(),
                s == self.entries(),
                0 <= i <= n,
                entry_index(s, agent@) == (if entry_index(s.skip(i as int), agent@) < 0 {
                    -1
                } else {
                    entry_index(s.skip(i as int), agent@) + i
                }),
            decreases n - i,
        {
            proof {
                assert(s.skip(i as int)[0] == s[i as int]);
                assert(s.skip(i as int).drop_first() =~= s.skip(i + 1));
                assert(s[i as int] == self.agents@[i as int]@);
            }
            if same_text(self.agents[i].agent.as_str(), agent) {
                return Some(i);
            }
            i = i + 1;
        }
        proof {
            assert(s.skip(n as int).len() == 0);
        }
        None
    }

    /// Register or update, with team tags. Description, delivery mode and
    /// tags are idempotent overwrites. Returns the stored entry.
    pub fn register_tagged(
        &mut self,
        agent: &str,
        description: &str,
        deliver_via: DeliverVia,
        tags: Vec<String>,
    ) -> (e: AgentEntry)
        ensures
            old(self).well_formed() ==> final(self).well_formed(),
            e@ == (AgentView { agent: agent@, description: description@, deliver_via, tags: tags@ }),
            ({
                let k = entry_index(old(self).entries(), agent@);
                if k >= 0 {
                    final(self).entries() == old(self).entries().update(k, e@)
                } else {
                    final(self).entries() == old(self).entries().push(e@)
                }
            }),
    {
        let entry = AgentEntry {
            agent: String::from_str(agent),
            description: String::from_str(description),
            deliver_via,
            tags,
        };
        let out = entry.clone();
        proof {
            lemma_entry_index_range(old(self).entries(), agent@);
        }
        match self.position(agent) {
            Some(k) => {
                self.agents.set(k, entry);
                assert(self.entries() =~= old(self).entries().update(k as int, out@));
            },
            None => {
                self.agents.push(entry);
                assert(self.entries() =~= old(self).entries().push(out@));
            },
        }
        out
    }

    /// Register or update (no tags).
    pub fn register(&mut self, agent: &str, description: &str, deliver_via: DeliverVia) -> (e: AgentEntry)
        ensures
            old(self).well_formed() ==> final(self).well_formed(),
            e@ == (AgentView { agent: agent@, description: description@, deliver_via, tags: Seq::empty() }),
            ({
                let k = entry_index(old(self).entries(), agent@);
                if k >= 0 {
                    final(self).entries() == old(self).entries().update(k, e@)
                } else {
                    final(self).entries() == old(self).entries().push(e@)
                }
            }),
    {
        self.register_tagged(agent, description, deliver_via, Vec::new())
    }

    /// The entry for `agent`.
    pub fn lookup(&self, agent: &str) -> (r: Option<AgentEntry>)
        ensures
            match r {
                Some(e) => self.lookup_spec(agent@) == Some(e@),
                None => self.lookup_spec(agent@) is None,
            },
    {
        match self.position(agent) {
            Some(k) => {
                assert(self.entries()[k as int] == self.agents@[k as int]@);
                Some(self.agents[k].clone())
            },
            None => None,
        }
    }

    /// All entries, ordered by agent name.
    pub fn all(&self) -> (r: Vec<AgentEntry>)
        ensures
            entry_views(r@) == by_agent(self.entries()),
    {
        let ghost s = self.entries();
        let mut out: Vec<AgentEntry> = Vec::new();
        let n = self.agents.len();
        let mut i: usize = 0;
        proof {
            assert(s.take(0) =~= Seq::<AgentView>::empty());
            assert(entry_views(out@) =~= Seq::<AgentView>::empty());
        }
        while i < n
            invariant
                s == self.entries(),
                n == s.len(),
                n == self.agents@.len(),
                0 <= i <= n,
                entry_views(out@) == by_agent(s.take(i as int)),
            decreases n - i,
        {
            let e = self.agents[i].clone();
            assert(e@ == s[i as int]);
            insert_by_agent_exec(&mut out, e);
            proof {
                assert(s.take(i + 1).drop_last() =~= s.take(i as int));
                assert(s.take(i + 1).last() == s[i as int]);
            }
            i = i + 1;
        }
        proof {
            assert(s.take(n as int) =~= s);
        }
        out
    }

    /// Every registered agent name, in registration order.
    pub fn names(&self) -> (r: Vec<String>)
        ensures
            r@.len() == self.entries().len(),
            forall|i: int| 0 <= i < r@.len() ==> #[trigger] r@[i]@ == self.entries()[i].agent,
    {
        let mut out: Vec<String> = Vec::new();
        let n = self.agents.len();
        let mut i: usize = 0;
        while i < n
            invariant
                n == self.agents@.len(),
                0 <= i <= n,
                out@.len() == i,
                forall|t: int| 0 <= t < i ==> #[trigger] out@[t]@ == self.entries()[t].agent,
            decreases n - i,
        {
            assert(self.entries()[i as int] == self.agents@[i as int]@);
            out.push(self.agents[i].agent.clone());
            i = i + 1;
        }
        out
    }
}

proof fn lemma_insert_by_agent_split(s: Seq<AgentView>, m: AgentView, j: int)
    requires
        0 < j <= s.len(),
        !agent_le(s[j - 1], m),
    ensures
        insert_by_agent(s.take(j), m) + s.skip(j) == insert_by_agent(s.take(j - 1), m) + s.skip(j - 1),
{
    let p = s.take(j);
    assert(p.last() == s[j - 1]);
    assert(p.drop_last() =~= s.take(j - 1));
    assert(insert_by_agent(p, m) == insert_by_agent(s.take(j - 1), m).push(s[j - 1]));
    assert(insert_by_agent(s.take(j - 1), m).push(s[j - 1]) + s.skip(j) =~= insert_by_agent(
        s.take(j - 1),
        m,
    ) + s.skip(j - 1));
}

fn insert_by_agent_exec(out: &mut Vec<AgentEntry>, m: AgentEntry)
    ensures
        entry_views(final(out)@) == insert_by_agent(entry_views(old(out)@), m@),
{
    let ghost s = entry_views(out@);
    let ghost mv = m@;
    let mut j = out.len();
    proof {
        assert(s.take(s.len() as int) =~= s);
        assert(s.skip(s.len() as int) =~= Seq::<AgentView>::empty());
        assert(insert_by_agent(s, mv) =~= insert_by_agent(s.take(j as int), mv) + s.skip(j as int));
    }
    while j > 0
        invariant_except_break
            entry_views(out@) == s,
            out@.len() == s.len(),
            mv == m@,
            0 <= j <= s.len(),
            insert_by_agent(s, mv) == insert_by_agent(s.take(j as int), mv) + s.skip(j as int),
        ensures
            entry_views(out@) == s,
            out@.len() == s.len(),
            mv == m@,
            0 <= j <= s.len(),
            insert_by_agent(s, mv) == insert_by_agent(s.take(j as int), mv) + s.skip(j as int),
            j == 0 || agent_le(s[j - 1], mv),
        decreases j,
    {
        assert(s[j - 1] == out@[j - 1]@);
        if text_le_exec(out[j - 1].agent.as_str(), m.agent.as_str()) {
            break;
        }
        proof {
            lemma_insert_by_agent_split(s, mv, j as int);
        }
        j = j - 1;
    }
    proof {
        let p = s.take(j as int);
        if j == 0 {
            assert(p.len() == 0);
        } else {
            assert(p.last() == s[j - 1]);
        }
        assert(insert_by_agent(p, mv) =~= p.push(mv));
        assert(s.insert(j as int, mv) =~= p.push(mv) + s.skip(j as int));
    }
    let ghost before = out@;
    out.insert(j, m);
    proof {
        assert(entry_views(out@) =~= s.insert(j as int, mv));
    }
}

/// What a push attempt came to.
#[derive(Debug, Clone)]
pub enum PushOutcome {
    Pushed,
    Failed { error: String },
    Skipped { reason: String },
}

/// Where to push a letter for `receiver`: the registered push mode, or why
/// nothing is pushed (not in the registry, or poll-only).
pub fn push_target(registry: &Registry, receiver: &str) -> (r: Result<DeliverVia, PushOutcome>)
    ensures
        match registry.lookup_spec(receiver@) {
            None => r matches Err(PushOutcome::Skipped { reason }) && reason@ == "not in registry"@,
            Some(e) => if e.deliver_via is Poll {
                r matches Err(PushOutcome::Skipped { reason }) && reason@ == "poll-only"@
            } else {
                r == Ok::<DeliverVia, PushOutcome>(e.deliver_via)
            },
        },
{
    match registry.lookup(receiver) {
        None => Err(PushOutcome::Skipped { reason: text_of("not in registry") }),
        Some(entry) => {
            if !entry.deliver_via.is_push() {
                Err(PushOutcome::Skipped { reason: text_of("poll-only") })
            } else {
                Ok(entry.deliver_via)
            }
        },
    }
}

/// The outcome of a transport's answer: a failed push is reported, never
/// fatal.
pub fn push_outcome(result: Result<(), String>) -> (r: PushOutcome)
    ensures
        match result {
            Ok(()) => r is Pushed,
            Err(e) => r == PushOutcome::Failed { error: e },
        },
{
    match result {
        Ok(()) => PushOutcome::Pushed,
        Err(e) => PushOutcome::Failed { error: e },
    }
}

/// How an A2A push ends. A2A `message/send` waits for the receiving agent
/// to finish its task, so a call that timed out still counts as notified
/// (the agent holds the task); any other outcome stands as it came back.
pub fn a2a_push_result(result: Result<(), String>, timed_out: bool) -> (r: Result<(), String>)
    ensures
        r == (if timed_out { Ok::<(), String>(()) } else { result }),
{
    if timed_out {
        Ok(())
    } else {
        result
    }
}

impl Default for Registry {
    /// An empty registry.
    fn default() -> (r: Self)
        ensures
            r.entries() == Seq::<AgentView>::empty(),
            r.well_formed(),
    {
        Registry::new()
    }
}

} // verus!
