//! Bus federation — pools connect directly, bus-to-bus, over the same
//! JSON-RPC the agents already speak.
//!
//! A letter addressed to an agent in a peer's list is forwarded to that
//! peer's bus. Loop safety: `hops` counts the inter-bus links a letter has
//! crossed; a letter that already crossed `MAX_HOPS` links is refused, so a
//! misconfigured ring of pools cannot ping-pong forever.

use vstd::prelude::*;
use crate::deliver::clone_texts;
use crate::message::{clone_opt_text, Message, MsgType};
use crate::store::memory::texts_view;
use crate::text::{join3, same_text, text_of};

verus! {

/// A letter may cross at most this many inter-bus links.
pub const MAX_HOPS: u8 = 2;

/// One remote pool: where it lives, how to auth, and which agents are at home there.
#[derive(Debug)]
pub struct Peer {
    /// Pool name — used in logs and the `forwarded_from` envelope field.
    pub name: String,
    /// Base URL of the peer bus (its JSON-RPC endpoint).
    pub url: String,
    /// The peer bus's bearer token.
    pub token: String,
    /// Agent names whose home is this pool.
    pub agents: Vec<String>,
}

/// What a peer entry says.
pub struct PeerView {
    pub name: Seq<char>,
    pub url: Seq<char>,
    pub token: Seq<char>,
    pub agents: Seq<Seq<char>>,
}

impl View for Peer {
    type V = PeerView;

    open spec fn view(&self) -> PeerView {
        PeerView {
            name: self.name@,
            url: self.url@,
            token: self.token@,
            agents: texts_view(self.agents@),
        }
    }
}

impl Clone for Peer {
    fn clone(&self) -> (r: Self)
        ensures
            r@ == self@,
    {
        let agents = clone_texts(&self.agents);
        Peer { name: self.name.clone(), url: self.url.clone(), token: self.token.clone(), agents }
    }
}

/// The views of a list of peers.
pub open spec fn peer_views(v: Seq<Peer>) -> Seq<PeerView> {
    v.map_values(|p: Peer| p@)
}

impl Peer {
    pub fn name(&self) -> (r: &str)
        ensures
            r@ == self.name@,
    {
        self.name.as_str()
    }

    /// Is `agent` at home in this pool?
    pub fn contains(&self, agent: &str) -> (r: bool)
        ensures
            r == self@.agents.contains(agent@),
    {
        let n = self.agents.len();
        let mut i: usize = 0;
        while i < n
            invariant
                n == self.agents@.len(),
                0 <= i <= n,
                forall|t: int| 0 <= t < i ==> self@.agents[t] != agent@,
            decreases n - i,
        {
            if same_text(self.agents[i].as_str(), agent) {
                assert(self@.agents[i as int] == agent@);
                return true;
            }
            i = i + 1;
        }
        false
    }
}

/// The first peer that is home to `agent`, or -1.
pub open spec fn home_index(peers: Seq<PeerView>, agent: Seq<char>) -> int
    decreases peers.len(),
{
    if peers.len() == 0 {
        -1
    } else if peers[0].agents.contains(agent) {
        0
    } else {
        let r = home_index(peers.drop_first(), agent);
        if r < 0 { -1 } else { r + 1 }
    }
}

pub proof fn lemma_home_index_range(peers: Seq<PeerView>, agent: Seq<char>)
    ensures
        -1 <= home_index(peers, agent) < peers.len(),
        home_index(peers, agent) >= 0 ==> peers[home_index(peers, agent)].agents.contains(agent),
    decreases peers.len(),
{
    if peers.len() > 0 {
        lemma_home_index_range(peers.drop_first(), agent);
    }
}

/// A peer entry is usable: a name, a URL and at least one agent.
pub open spec fn peer_complete(p: PeerView) -> bool {
    p.name.len() > 0 && p.url.len() > 0 && p.agents.len() > 0
}

/// The first incomplete peer, or -1.
pub open spec fn first_incomplete(peers: Seq<PeerView>) -> int
    decreases peers.len(),
{
    if peers.len() == 0 {
        -1
    } else if !peer_complete(peers[0]) {
        0
    } else {
        let r = first_incomplete(peers.drop_first());
        if r < 0 { -1 } else { r + 1 }
    }
}

/// The refusal text for an incomplete peer entry.
pub open spec fn incomplete_peer_text(name: Seq<char>) -> Seq<char> {
    "HOT_POTATO_PEERS: peer `"@ + name + "` needs name, url and a non-empty agents list"@
}

/// The federation routing table. Empty = no federation.
#[derive(Debug)]
pub struct Peers {
    peers: Vec<Peer>,
}

impl Peers {
    /// The peers, in configuration order.
    pub closed spec fn entries(self) -> Seq<PeerView> {
        peer_views(self.peers@)
    }

    /// No peers.
    pub fn empty() -> (r: Self)
        ensures
            r.entries() == Seq::<PeerView>::empty(),
    {
        let r = Peers { peers: Vec::new() };
        assert(r.entries() =~= Seq::<PeerView>::empty());
        r
    }

    /// Build the table from parsed entries, refusing the first entry without
    /// a name, a URL or any agent.
    pub fn from_entries(peers: Vec<Peer>) -> (r: Result<Peers, String>)
        ensures
            ({
                let k = first_incomplete(peer_views(peers@));
                if k < 0 {
                    r matches Ok(p) && p.entries() == peer_views(peers@)
                } else {
                    r matches Err(t) && t@ == incomplete_peer_text(peers@[k].name@)
                }
            }),
    {
        let n = peers.len();
        let mut i: usize = 0;
        let ghost s = peer_views(peers@);
        proof {
            assert(s.skip(0) =~= s);
        }
        while i < n
            invariant
                n == peers@.len(),
                s == peer_views(peers@),
                0 <= i <= n,
                first_incomplete(s) == (if first_incomplete(s.skip(i as int)) < 0 {
                    -1
                } else {
                    first_incomplete(s.skip(i as int)) + i
                }),
            decreases n - i,
        {
            proof {
                assert(s.skip(i as int)[0] == s[i as int]);
                assert(s.skip(i as int).drop_first() =~= s.skip(i + 1));
                assert(s[i as int] == peers@[i as int]@);
            }
            let p = &peers[i];
            if p.name.as_str().is_empty() || p.url.as_str().is_empty() || p.agents.len() == 0 {
                return Err(join3(
                    "HOT_POTATO_PEERS: peer `",
                    p.name.as_str(),
                    "` needs name, url and a non-empty agents list",
                ));
            }
            i = i + 1;
        }
        proof {
            assert(s.skip(n as int).len() == 0);
        }
        Ok(Peers { peers })
    }

    pub fn is_empty(&self) -> (r: bool)
        ensures
            r == (self.entries().len() == 0),
    {
        self.peers.len() == 0
    }

    pub fn len(&self) -> (r: usize)
        ensures
            r == self.entries().len(),
    {
        self.peers.len()
    }

    /// A copy of every peer.
    pub fn all(&self) -> (r: Vec<Peer>)
        ensures
            peer_views(r@) == self.entries(),
    {
        let mut out: Vec<Peer> = Vec::new();
        let n = self.peers.len();
        let mut i: usize = 0;
        while i < n
            invariant
                n == self.peers@.len(),
                0 <= i <= n,
                peer_views(out@) == self.entries().take(i as int),
            decreases n - i,
        {
            let p = self.peers[i].clone();
            assert(self.entries()[i as int] == self.peers@[i as int]@);
            let ghost before = out@;
            out.push(p);
            assert(peer_views(out@) =~= peer_views(before).push(p@));
            i = i + 1;
            assert(peer_views(out@) =~= self.entries().take(i as int));
        }
        assert(self.entries().take(n as int) =~= self.entries());
        out
    }

    /// Which pool is home for this agent? `None` = treat as local.
    pub fn resolve(&self, agent: &str) -> (r: Option<Peer>)
        ensures
            ({
                let k = home_index(self.entries(), agent@);
                match r {
                    Some(p) => k >= 0 && p@ == self.entries()[k],
                    None => k == -1,
                }
            }),
    {
        let n = self.peers.len();
        let mut i: usize = 0;
        let ghost s = self.entries();
        proof {
            assert(s.skip(0) =~= s);
        }
        while i < n
            invariant
                n == self.peers@.len(),
                s == self.entries(),
                s.len() == n,
                0 <= i <= n,
                home_index(s, agent@) == (if home_index(s.skip(i as int), agent@) < 0 {
                    -1
                } else {
                    home_index(s.skip(i as int), agent@) + i
                }),
            decreases n - i,
        {
            proof {
                assert(s.skip(i as int)[0] == s[i as int]);
                assert(s.skip(i as int).drop_first() =~= s.skip(i + 1));
                assert(s[i as int] == self.peers@[i as int]@);
            }
            if self.peers[i].contains(agent) {
                return Some(self.peers[i].clone());
            }
            i = i + 1;
        }
        proof {
            assert(s.skip(n as int).len() == 0);
        }
        None
    }

    /// Does any peer claim this agent?
    pub fn claims(&self, agent: &str) -> (r: bool)
        ensures
            r == (home_index(self.entries(), agent@) >= 0),
    {
        self.resolve(agent).is_some()
    }
}

impl Default for Peers {
    /// No peers: no federation.
    fn default() -> (r: Self)
        ensures
            r.entries() == Seq::<PeerView>::empty(),
    {
        Peers::empty()
    }
}

impl Clone for Peers {
    fn clone(&self) -> (r: Self)
        ensures
            r.entries() == self.entries(),
    {
        Peers { peers: self.all() }
    }
}

/// The wire name of a letter type: the name `message/send` reads
/// (`task`, `reply`, `broadcast`, `ack_only`).
pub open spec fn msg_type_wire_name(t: MsgType) -> Seq<char> {
    match t {
        MsgType::Task => "task"@,
        MsgType::Reply => "reply"@,
        MsgType::Broadcast => "broadcast"@,
        MsgType::AckOnly => "ack_only"@,
    }
}

/// The `message/send` parameters a forwarder hands to the peer bus.
#[derive(Debug)]
pub struct ForwardParams {
    pub sender: String,
    pub receiver: String,
    pub msg_type: String,
    pub subject: String,
    pub body: String,
    pub ref_id: Option<String>,
    pub hops: u8,
    pub forwarded_from: String,
}

/// The refusal text when a letter has crossed too many links.
pub open spec fn hop_limit_text(path: Seq<char>) -> Seq<char> {
    "hop limit 2 reached (path: "@ + path + ")"@
}

/// Prepare a letter for its home pool: refused once it has crossed
/// `MAX_HOPS` links (before anything is dialed); otherwise the envelope
/// carries one more hop and this pool's name.
pub fn forward_params(letter: &Message, from_pool: &str) -> (r: Result<ForwardParams, String>)
    ensures
        letter.hops >= MAX_HOPS ==> (r matches Err(t) && t@ == hop_limit_text(
            match letter.forwarded_from {
                Some(f) => f@,
                None => "?"@,
            },
        )),
        letter.hops < MAX_HOPS ==> (r matches Ok(p) && {
            &&& p.sender@ == letter.sender@
            &&& p.receiver@ == letter.receiver@
            &&& p.msg_type@ == msg_type_wire_name(letter.msg_type)
            &&& p.subject@ == letter.subject@
            &&& p.body@ == letter.body@
            &&& p.ref_id == letter.ref_id
            &&& p.hops == letter.hops + 1
            &&& p.forwarded_from@ == from_pool@
        }),
{
    if letter.hops >= MAX_HOPS {
        let path = match &letter.forwarded_from {
            Some(f) => f.as_str(),
            None => "?",
        };
        return Err(join3("hop limit 2 reached (path: ", path, ")"));
    }
    let kind_name = match letter.msg_type {
        MsgType::Task => "task",
        MsgType::Reply => "reply",
        MsgType::Broadcast => "broadcast",
        MsgType::AckOnly => "ack_only",
    };
    Ok(ForwardParams {
        sender: letter.sender.clone(),
        receiver: letter.receiver.clone(),
        msg_type: text_of(kind_name),
        subject: letter.subject.clone(),
        body: letter.body.clone(),
        ref_id: clone_opt_text(&letter.ref_id),
        hops: letter.hops + 1,
        forwarded_from: text_of(from_pool),
    })
}

/// Law: loop safety. Along any chain of hand-overs the forwarder accepts —
/// each from a letter under the hop limit, each adding one hop — a letter
/// crosses at most `MAX_HOPS` links, so a ring of pools cannot pass it
/// around forever.
pub proof fn law_forward_chain_is_bounded(chain: Seq<u8>)
    requires
        forall|i: int| 0 <= i < chain.len() - 1 ==> #[trigger] chain[i] < MAX_HOPS && chain[i + 1] == chain[i] + 1,
    ensures
        chain.len() <= MAX_HOPS + 1,
{
    if chain.len() > MAX_HOPS + 1 {
        assert forall|i: int| 0 <= i <= 2 implies chain[i] >= i by {
            if i >= 1 {
                assert(chain[0] < MAX_HOPS);
            }
            if i == 2 {
                assert(chain[1] < MAX_HOPS && chain[2] == chain[1] + 1);
            }
        }
        assert(chain[2] < MAX_HOPS);
    }
}

} // verus!
