//! The bus's HTTP face, minus the HTTP: the run configuration, the A2A agent
//! card, and every decision the JSON-RPC endpoint makes — who is let in,
//! how parameters read, which letters a listing shows, where a letter is
//! routed, and the plain-text lifecycle log.

use vstd::prelude::*;
use crate::bus::{EventBus, Role};
use crate::deliver::{entry_index, DeliverVia, Registry};
use crate::error::BusError;
use crate::federation::{msg_type_wire_name, home_index, peer_views, Peer, PeerView, Peers, MAX_HOPS};
use crate::handshake::DynamicPeers;
use crate::message::{find_last, last_index_of, root_walk, Message, MessageStatus, MsgType, THREAD_WALK_LIMIT};
use crate::store::memory::{roster_with, texts_view, with_box};
use crate::store::{status_key, status_key_exec};
use crate::sweeper::{secs_between, whole_secs_between};
use crate::text::{decimal, decimal_text, join2, join3, occurs_at, pad_right, pad_right_exec, push_char, same_text, take_chars, text_of};

verus! {

/// Run configuration.
pub struct ServerConfig {
    pub name: String,
    pub description: String,
    pub public_url: String,
    pub version: String,
    pub bearer_token: Option<String>,
    /// Federation peers (remote pools and the agents at home there).
    pub peers: Peers,
    /// This pool's own name (goes into `forwarded_from`).
    pub pool_name: String,
}

/// A text setting, or its default when unset.
pub open spec fn or_default(v: Option<String>, default: Seq<char>) -> Seq<char> {
    match v {
        Some(s) => s@,
        None => default,
    }
}

fn setting_or(v: Option<String>, default: &str) -> (r: String)
    ensures
        r@ == or_default(v, default@),
{
    match v {
        Some(s) => s,
        None => text_of(default),
    }
}

/// The capabilities an agent card declares.
#[derive(Debug, Clone, Copy)]
pub struct Capabilities {
    pub streaming: bool,
    pub push_notifications: bool,
    pub state_transition_history: bool,
}

/// One skill an agent card offers.
#[derive(Debug)]
pub struct Skill {
    pub id: String,
    pub name: String,
    pub description: String,
    pub tags: Vec<String>,
}

/// A2A agent card (v1.0 shape, trimmed to what matters for a bus).
#[derive(Debug)]
pub struct AgentCard {
    pub name: String,
    pub description: String,
    pub url: String,
    pub version: String,
    pub protocol_version: String,
    pub capabilities: Capabilities,
    pub default_input_modes: Vec<String>,
    pub default_output_modes: Vec<String>,
    pub skills: Vec<Skill>,
}

/// A skill's fields as texts: id, name, description, tags.
pub open spec fn skill_view(s: Skill) -> (Seq<char>, Seq<char>, Seq<char>, Seq<Seq<char>>) {
    (s.id@, s.name@, s.description@, texts_view(s.tags@))
}

/// The four skills the bus offers.
pub open spec fn bus_skills() -> Seq<(Seq<char>, Seq<char>, Seq<char>, Seq<Seq<char>>)> {
    seq![
        ("bus-send"@, "Send a message"@, "Pass a potato to a registered agent (task/reply/broadcast)"@, seq!["bus"@, "send"@]),
        ("bus-poll"@, "Poll my mailbox"@, "Drain queued messages (marks them delivered)"@, seq!["bus"@, "poll"@]),
        ("bus-ack"@, "Ack a message"@, "File the result note; closes the loop"@, seq!["bus"@, "ack"@]),
        ("bus-status"@, "Check my sent messages"@, "Lifecycle status of everything I sent"@, seq!["bus"@, "status"@]),
    ]
}

fn skill(id: &str, name: &str, description: &str, tag: &str) -> (r: Skill)
    ensures
        skill_view(r) == (id@, name@, description@, seq!["bus"@, tag@]),
{
    let mut tags: Vec<String> = Vec::new();
    tags.push(text_of("bus"));
    tags.push(text_of(tag));
    assert(texts_view(tags@) =~= seq!["bus"@, tag@]);
    Skill { id: text_of(id), name: text_of(name), description: text_of(description), tags }
}

fn json_modes() -> (r: Vec<String>)
    ensures
        texts_view(r@) == seq!["application/json"@],
{
    let mut v: Vec<String> = Vec::new();
    v.push(text_of("application/json"));
    assert(texts_view(v@) =~= seq!["application/json"@]);
    v
}

impl ServerConfig {
    /// Assemble a configuration from its settings, each unset one taking its
    /// default: name `hot-potato`, the stock description, URL
    /// `http://localhost:8080`, pool `local`.
    pub fn with_settings(
        name: Option<String>,
        description: Option<String>,
        public_url: Option<String>,
        version: String,
        bearer_token: Option<String>,
        peers: Peers,
        pool_name: Option<String>,
    ) -> (r: Self)
        ensures
            r.name@ == or_default(name, "hot-potato"@),
            r.description@ == or_default(description, "EventMessageBus for AI agents - a mailbox with a state machine"@),
            r.public_url@ == or_default(public_url, "http://localhost:8080"@),
            r.version == version,
            r.bearer_token == bearer_token,
            r.peers.entries() == peers.entries(),
            r.pool_name@ == or_default(pool_name, "local"@),
    {
        ServerConfig {
            name: setting_or(name, "hot-potato"),
            description: setting_or(description, "EventMessageBus for AI agents - a mailbox with a state machine"),
            public_url: setting_or(public_url, "http://localhost:8080"),
            version,
            bearer_token,
            peers,
            pool_name: setting_or(pool_name, "local"),
        }
    }

    /// The agent card served at `/.well-known/agent-card.json`.
    pub fn agent_card(&self) -> (r: AgentCard)
        ensures
            r.name@ == self.name@,
            r.description@ == self.description@,
            r.url@ == self.public_url@,
            r.version@ == self.version@,
            r.protocol_version@ == "1.0"@,
            r.capabilities == (Capabilities {
                streaming: false,
                push_notifications: false,
                state_transition_history: true,
            }),
            texts_view(r.default_input_modes@) == seq!["application/json"@],
            texts_view(r.default_output_modes@) == seq!["application/json"@],
            r.skills@.map_values(|s: Skill| skill_view(s)) == bus_skills(),
    {
        let mut skills: Vec<Skill> = Vec::new();
        skills.push(skill("bus-send", "Send a message", "Pass a potato to a registered agent (task/reply/broadcast)", "send"));
        skills.push(skill("bus-poll", "Poll my mailbox", "Drain queued messages (marks them delivered)", "poll"));
        skills.push(skill("bus-ack", "Ack a message", "File the result note; closes the loop", "ack"));
        skills.push(skill("bus-status", "Check my sent messages", "Lifecycle status of everything I sent", "status"));
        assert(skills@.map_values(|s: Skill| skill_view(s)) =~= bus_skills());
        AgentCard {
            name: self.name.clone(),
            description: self.description.clone(),
            url: self.public_url.clone(),
            version: self.version.clone(),
            protocol_version: text_of("1.0"),
            capabilities: Capabilities { streaming: false, push_notifications: false, state_transition_history: true },
            default_input_modes: json_modes(),
            default_output_modes: json_modes(),
            skills,
        }
    }
}

/// The `Authorization` header carries `Bearer <token>`.
pub open spec fn bearer_ok(token: Seq<char>, header: Option<Seq<char>>) -> bool {
    header matches Some(h) && h == "Bearer "@ + token
}

/// Does the `Authorization` header carry exactly `Bearer <token>`?
pub fn bearer_matches(token: &str, header: Option<&str>) -> (r: bool)
    ensures
        r == bearer_ok(token@, match header {
            Some(h) => Some(h@),
            None => None,
        }),
{
    match header {
        None => false,
        Some(h) => {
            let expected = join2("Bearer ", token);
            same_text(h, expected.as_str())
        },
    }
}

/// Is a request let in? Always, when the bus has no token; otherwise only
/// with the matching bearer header.
pub fn request_authorized(expected: &Option<String>, header: Option<&str>) -> (r: bool)
    ensures
        r == match expected {
            None => true,
            Some(t) => bearer_ok(t@, match header {
                Some(h) => Some(h@),
                None => None,
            }),
        },
{
    match expected {
        None => true,
        Some(t) => bearer_matches(t.as_str(), header),
    }
}

/// The role named on registration: `pm`, anything else a worker.
pub fn parse_role(s: &str) -> (r: Role)
    ensures
        r == (if s@ == "pm"@ { Role::Pm } else { Role::Worker }),
{
    if same_text(s, "pm") {
        Role::Pm
    } else {
        Role::Worker
    }
}

/// The letter type named on `message/send`; anything unknown is a task.
pub open spec fn msg_type_named(s: Seq<char>) -> MsgType {
    if s == "reply"@ {
        MsgType::Reply
    } else if s == "broadcast"@ {
        MsgType::Broadcast
    } else if s == "ack_only"@ {
        MsgType::AckOnly
    } else {
        MsgType::Task
    }
}

/// Law: the name a hand-over writes for a letter type is the name
/// `message/send` reads back as that type.
pub proof fn law_wire_type_names_round_trip(t: MsgType)
    ensures
        msg_type_named(msg_type_wire_name(t)) == t,
{
    reveal_strlit("task");
    reveal_strlit("reply");
    reveal_strlit("broadcast");
    reveal_strlit("ack_only");
    assert("task"@.len() == 4 && "reply"@.len() == 5 && "broadcast"@.len() == 9 && "ack_only"@.len() == 8);
}

pub fn parse_msg_type(s: &str) -> (r: MsgType)
    ensures
        r == msg_type_named(s@),
{
    if same_text(s, "reply") {
        MsgType::Reply
    } else if same_text(s, "broadcast") {
        MsgType::Broadcast
    } else if same_text(s, "ack_only") {
        MsgType::AckOnly
    } else {
        MsgType::Task
    }
}

/// How a registering agent wants its mail: `a2a`, `webhook` or `relay` with
/// the given URL (empty when absent); anything else is poll-only.
pub open spec fn deliver_via_named(mode: Option<Seq<char>>, url: Seq<char>, v: DeliverVia) -> bool {
    match mode {
        Some(m) => if m == "a2a"@ {
            v matches DeliverVia::A2a { url: u } && u@ == url
        } else if m == "webhook"@ {
            v matches DeliverVia::Webhook { url: u } && u@ == url
        } else if m == "relay"@ {
            v matches DeliverVia::Relay { url: u } && u@ == url
        } else {
            v is Poll
        },
        None => v is Poll,
    }
}

pub fn deliver_via_from(mode: Option<&str>, url: Option<&str>) -> (r: DeliverVia)
    ensures
        deliver_via_named(
            match mode {
                Some(m) => Some(m@),
                None => None,
            },
            match url {
                Some(u) => u@,
                None => Seq::empty(),
            },
            r,
        ),
{
    let u = match url {
        Some(u) => text_of(u),
        None => String::new(),
    };
    match mode {
        None => DeliverVia::Poll,
        Some(m) => {
            if same_text(m, "a2a") {
                DeliverVia::A2a { url: u }
            } else if same_text(m, "webhook") {
                DeliverVia::Webhook { url: u }
            } else if same_text(m, "relay") {
                DeliverVia::Relay { url: u }
            } else {
                DeliverVia::Poll
            }
        },
    }
}

/// The hop count a letter carries on the wire (absent = 0).
pub open spec fn wire_hops(raw: Option<u64>) -> u64 {
    match raw {
        Some(h) => h,
        None => 0,
    }
}

/// The refusal texts for an inbound federated letter. A hop count above the
/// limit is refused, however large it is.
pub open spec fn inbound_refusal(token_required: bool, authed: bool, hops: u64, has_forwarded_from: bool, from_pool: Seq<char>) -> Option<Seq<char>> {
    if token_required && !authed {
        Some("federated send requires the pool bearer token"@)
    } else if hops == 0 || !has_forwarded_from {
        Some("federated send must carry hops and forwarded_from"@)
    } else if hops > MAX_HOPS {
        Some("hop limit 2 exceeded (from pool `"@ + from_pool + "`)"@)
    } else {
        None
    }
}

/// Check an inbound federated letter: the pool token when this bus has
/// one, the envelope (`hops` and `forwarded_from`), and the hop limit. On
/// acceptance, the hop count the letter is stored with.
pub fn inbound_check(token_required: bool, authed: bool, hops: Option<u64>, has_forwarded_from: bool, from_pool: &str) -> (r: Result<u8, String>)
    ensures
        match inbound_refusal(token_required, authed, wire_hops(hops), has_forwarded_from, from_pool@) {
            None => r matches Ok(h) && h as u64 == wire_hops(hops) && 1 <= h <= MAX_HOPS,
            Some(t) => r matches Err(e) && e@ == t,
        },
{
    let h: u64 = match hops {
        Some(h) => h,
        None => 0,
    };
    if token_required && !authed {
        return Err(text_of("federated send requires the pool bearer token"));
    }
    if h == 0 || !has_forwarded_from {
        return Err(text_of("federated send must carry hops and forwarded_from"));
    }
    if h > MAX_HOPS as u64 {
        return Err(join3("hop limit 2 exceeded (from pool `", from_pool, "`)"));
    }
    Ok(h as u8)
}

/// The newest `limit` letters of a list (its tail); `limit` 0 keeps all.
pub open spec fn newest_window(s: Seq<Message>, limit: nat) -> Seq<Message> {
    if limit > 0 && s.len() > limit { s.skip(s.len() - limit) } else { s }
}

/// Keep the last `limit` letters (newest window); limit 0 = all.
pub fn fifo_last(msgs: &mut Vec<Message>, limit: usize)
    ensures
        final(msgs)@ == newest_window(old(msgs)@, limit as nat),
{
    let n = msgs.len();
    if limit > 0 && n > limit {
        let start = n - limit;
        let mut out: Vec<Message> = Vec::new();
        let mut i: usize = start;
        while i < n
            invariant
                n == msgs@.len(),
                start <= i <= n,
                out@ == msgs@.subrange(start as int, i as int),
            decreases n - i,
        {
            out.push(msgs[i].clone());
            i = i + 1;
            assert(out@ =~= msgs@.subrange(start as int, i as int));
        }
        assert(out@ =~= msgs@.skip(start as int));
        *msgs = out;
    }
}

/// `str::to_lowercase`: Unicode lower-casing of `s`.
pub uninterp spec fn lowercased(s: Seq<char>) -> Seq<char>;

/// `str::to_lowercase`. What it returns depends on `s` alone and is named,
/// not written out (Unicode's case tables).
#[verifier::external_body]
fn lowercase(s: &str) -> (r: String)
    ensures
        r@ == lowercased(s@),
{
    s.to_lowercase()
}

/// A letter a listing shows: its status name matches the (lower-cased)
/// filter, and it is at most `max_age` whole seconds old.
pub open spec fn listed(m: Message, status: Option<Seq<char>>, max_age: Option<i64>, now: i128) -> bool {
    &&& (status matches Some(s) ==> status_key(m.status) == s)
    &&& (max_age matches Some(a) ==> whole_secs_between(m.created_at, now) <= a)
}

/// Law: a status filter that is a status's wire key keeps exactly the
/// letters in that status (with no age window); a listing filtered by
/// `read` shows the read letters and nothing else.
pub proof fn law_status_filter_keeps_exactly_that_status(all: Seq<Message>, s: MessageStatus, now: i128, m: Message)
    ensures
        listed(m, Some(status_key(s)), None, now) <==> m.status == s,
        all.filter(list_pred(Some(status_key(s)), None, now)).contains(m) <==> (all.contains(m) && m.status == s),
{
    broadcast use vstd::seq_lib::group_filter_ensures;
    crate::store::law_status_key_is_the_lowercased_name(m.status, s);
    let p = list_pred(Some(status_key(s)), None, now);
    if all.contains(m) && m.status == s {
        let i = choose|i: int| 0 <= i < all.len() && all[i] == m;
        all.lemma_filter_contains(p, i);
    }
    if all.filter(p).contains(m) {
        all.lemma_filter_contains_rev(p, m);
        let i = choose|i: int| 0 <= i < all.filter(p).len() && all.filter(p)[i] == m;
        all.lemma_filter_pred(p, i);
    }
}

/// The listing filter.
pub open spec fn list_pred(status: Option<Seq<char>>, max_age: Option<i64>, now: i128) -> spec_fn(Message) -> bool {
    |m: Message| listed(m, status, max_age, now)
}

/// The observer's listing (`message/list`) at `now`: every letter matching
/// the status filter (compared lower-cased) and the age window, then the
/// newest `limit` of them (0 = all). Read-only.
pub fn list_letters(all: &[Message], status: Option<&str>, max_age_secs: Option<i64>, limit: usize, now: i128) -> (r: Vec<Message>)
    ensures
        r@ == newest_window(
            all@.filter(list_pred(
                match status {
                    Some(s) => Some(lowercased(s@)),
                    None => None,
                },
                max_age_secs,
                now,
            )),
            limit as nat,
        ),
{
    let wanted: Option<String> = match status {
        Some(s) => Some(lowercase(s)),
        None => None,
    };
    let ghost want = match status {
        Some(s) => Some(lowercased(s@)),
        None => None,
    };
    let ghost pred = list_pred(want, max_age_secs, now);
    let mut out: Vec<Message> = Vec::new();
    let n = all.len();
    let mut i: usize = 0;
    while i < n
        invariant
            n == all@.len(),
            0 <= i <= n,
            pred == list_pred(want, max_age_secs, now),
            want == (match wanted {
                Some(w) => Some(w@),
                None => None,
            }),
            out@ == all@.take(i as int).filter(pred),
        decreases n - i,
    {
        proof {
            assert(all@.take(i + 1) =~= all@.take(i as int).push(all@[i as int]));
            all@.take(i as int).lemma_filter_push(all@[i as int], pred);
        }
        let status_ok = match &wanted {
            None => true,
            Some(w) => same_text(status_key_exec(all[i].status), w.as_str()),
        };
        let age_ok = match max_age_secs {
            None => true,
            Some(a) => secs_between(all[i].created_at, now) <= a as i128,
        };
        if status_ok && age_ok {
            out.push(all[i].clone());
        }
        i = i + 1;
    }
    proof {
        assert(all@.take(n as int) =~= all@);
    }
    fifo_last(&mut out, limit);
    out
}

/// Letters whose thread root is `root`, as a filter.
pub open spec fn in_thread(all: Seq<Message>, root: Seq<char>) -> spec_fn(Message) -> bool {
    |m: Message| root_walk(all, m.id@, THREAD_WALK_LIMIT as nat) == root
}

/// The whole thread a letter belongs to (`message/thread`): every letter
/// sharing its thread root, in the order given. A missing id is refused.
pub fn thread_of(all: &[Message], id: &str) -> (r: Result<Vec<Message>, BusError>)
    ensures
        last_index_of(all@, id@) < 0 ==> (r matches Err(BusError::NotFound(x)) && x@ == id@),
        last_index_of(all@, id@) >= 0 ==> (r matches Ok(v) && v@ == all@.filter(
            in_thread(all@, root_walk(all@, id@, THREAD_WALK_LIMIT as nat)),
        )),
{
    if find_last(all, id).is_none() {
        return Err(BusError::NotFound(text_of(id)));
    }
    let root = Message::thread_root_id(all, id);
    let ghost pred = in_thread(all@, root@);
    let mut out: Vec<Message> = Vec::new();
    let n = all.len();
    let mut i: usize = 0;
    while i < n
        invariant
            n == all@.len(),
            0 <= i <= n,
            pred == in_thread(all@, root@),
            out@ == all@.take(i as int).filter(pred),
        decreases n - i,
    {
        proof {
            assert(all@.take(i + 1) =~= all@.take(i as int).push(all@[i as int]));
            all@.take(i as int).lemma_filter_push(all@[i as int], pred);
        }
        let r = Message::thread_root_id(all, all[i].id.as_str());
        if same_text(r.as_str(), root.as_str()) {
            out.push(all[i].clone());
        }
        i = i + 1;
    }
    proof {
        assert(all@.take(n as int) =~= all@);
    }
    Ok(out)
}

/// A letter type as the lifecycle log prints it: its name in lower case,
/// run together (`ackonly`).
pub open spec fn log_kind_name(t: MsgType) -> Seq<char> {
    match t {
        MsgType::Task => "task"@,
        MsgType::Reply => "reply"@,
        MsgType::Broadcast => "broadcast"@,
        MsgType::AckOnly => "ackonly"@,
    }
}

/// One row of the lifecycle log: fixed-width columns, subject last.
pub open spec fn log_row(
    status: Seq<char>,
    sender: Seq<char>,
    receiver: Seq<char>,
    kind: Seq<char>,
    id: Seq<char>,
    subject: Seq<char>,
) -> Seq<char> {
    pad_right(status, 6) + " "@ + pad_right(sender, 10) + " "@ + pad_right(receiver, 10) + " "@ + pad_right(kind, 11)
        + " "@ + pad_right(id, 26) + " "@ + subject + "\n"@
}

/// The log rows of a run of letters.
pub open spec fn log_rows(s: Seq<Message>) -> Seq<char>
    decreases s.len(),
{
    if s.len() == 0 {
        Seq::empty()
    } else {
        let m = s.last();
        log_rows(s.drop_last()) + log_row(
            status_key(m.status),
            m.sender@,
            m.receiver@,
            log_kind_name(m.msg_type),
            m.id@,
            m.subject@,
        )
    }
}

/// The human-readable lifecycle log (`GET /log`): a title, a header row, a
/// rule of 90 dashes, one row per letter for the newest `limit`, and a
/// count line.
pub open spec fn log_text(msgs: Seq<Message>, limit: nat) -> Seq<char> {
    let start: int = if msgs.len() > limit { msgs.len() - limit } else { 0 };
    "\u{1f954} hot-potato lifecycle log\n\n"@ + log_row("status"@, "sender"@, "receiver"@, "type"@, "id"@, "subject"@)
        + Seq::new(90, |i: int| '-') + "\n"@ + log_rows(msgs.skip(start)) + "\n"@ + decimal((msgs.len() - start) as nat)
        + " letters shown ("@ + decimal(msgs.len()) + " total)\n"@
}

fn row_exec(status: &str, sender: &str, receiver: &str, kind: &str, id: &str, subject: &str) -> (r: String)
    ensures
        r@ == log_row(status@, sender@, receiver@, kind@, id@, subject@),
{
    let a = pad_right_exec(status, 6);
    let b = pad_right_exec(sender, 10);
    let c = pad_right_exec(receiver, 10);
    let d = pad_right_exec(kind, 11);
    let e = pad_right_exec(id, 26);
    let ab = join3(a.as_str(), " ", b.as_str());
    let abc = join3(ab.as_str(), " ", c.as_str());
    let abcd = join3(abc.as_str(), " ", d.as_str());
    let abcde = join3(abcd.as_str(), " ", e.as_str());
    let all = join3(abcde.as_str(), " ", subject);
    join2(all.as_str(), "\n")
}

fn kind_name(t: MsgType) -> (r: &'static str)
    ensures
        r@ == log_kind_name(t),
{
    match t {
        MsgType::Task => "task",
        MsgType::Reply => "reply",
        MsgType::Broadcast => "broadcast",
        MsgType::AckOnly => "ackonly",
    }
}

/// Render the lifecycle log for the newest `limit` letters.
#[verifier::spinoff_prover]
#[verifier::rlimit(40)]
pub fn render_log(msgs: &[Message], limit: usize) -> (r: String)
    ensures
        r@ == log_text(msgs@, limit as nat),
{
    let n = msgs.len();
    let start: usize = if n > limit { n - limit } else { 0 };
    let header = row_exec("status", "sender", "receiver", "type", "id", "subject");
    let mut body = join2("\u{1f954} hot-potato lifecycle log\n\n", header.as_str());
    let ghost base = body@;
    let mut k: usize = 0;
    while k < 90
        invariant
            k <= 90,
            body@ == base + Seq::new(k as nat, |i: int| '-'),
        decreases 90 - k,
    {
        push_char(&mut body, '-');
        k = k + 1;
        assert(body@ =~= base + Seq::new(k as nat, |i: int| '-'));
    }
    push_char(&mut body, '\n');
    let ghost top = body@;
    let ghost shown = msgs@.skip(start as int);
    let mut i: usize = start;
    proof {
        assert(msgs@.subrange(start as int, start as int) =~= Seq::<Message>::empty());
        assert(body@ =~= top + log_rows(msgs@.subrange(start as int, start as int)));
    }
    while i < n
        invariant
            n == msgs@.len(),
            start <= i <= n,
            body@ == top + log_rows(msgs@.subrange(start as int, i as int)),
        decreases n - i,
    {
        let m = &msgs[i];
        let row = row_exec(
            status_key_exec(m.status),
            m.sender.as_str(),
            m.receiver.as_str(),
            kind_name(m.msg_type),
            m.id.as_str(),
            m.subject.as_str(),
        );
        proof {
            let s2 = msgs@.subrange(start as int, i + 1);
            assert(s2.drop_last() =~= msgs@.subrange(start as int, i as int));
            assert(s2.last() == msgs@[i as int]);
        }
        body = join2(body.as_str(), row.as_str());
        i = i + 1;
    }
    proof {
        assert(msgs@.subrange(start as int, n as int) =~= shown);
    }
    let shown_count = decimal_text((n - start) as u128);
    let total = decimal_text(n as u128);
    let tail1 = join3("\n", shown_count.as_str(), " letters shown (");
    let tail = join3(tail1.as_str(), total.as_str(), " total)\n");
    let r = join2(body.as_str(), tail.as_str());
    proof {
        let st: int = if msgs@.len() > limit { msgs@.len() - limit } else { 0 };
        assert(st == start);
        reveal_strlit("\n");
        assert(r@ =~= log_text(msgs@, limit as nat));
    }
    r
}

/// The names of a list of peers.
pub open spec fn peer_names(s: Seq<PeerView>) -> Seq<Seq<char>> {
    s.map_values(|p: PeerView| p.name)
}

/// Configured peers first, then each learned peer whose name is not taken
/// yet (configuration wins on a name clash).
pub open spec fn merged_peers(acc: Seq<PeerView>, learned: Seq<PeerView>) -> Seq<PeerView>
    decreases learned.len(),
{
    if learned.len() == 0 {
        acc
    } else {
        let m = merged_peers(acc, learned.drop_last());
        if peer_names(m).contains(learned.last().name) {
            m
        } else {
            m.push(learned.last())
        }
    }
}

fn has_peer_named(peers: &Vec<Peer>, name: &str) -> (r: bool)
    ensures
        r == peer_names(peer_views(peers@)).contains(name@),
{
    let n = peers.len();
    let mut i: usize = 0;
    let ghost names = peer_names(peer_views(peers@));
    while i < n
        invariant
            n == peers@.len(),
            names == peer_names(peer_views(peers@)),
            0 <= i <= n,
            forall|j: int| 0 <= j < i ==> names[j] != name@,
        decreases n - i,
    {
        assert(names[i as int] == peers@[i as int].name@);
        if same_text(peers[i].name.as_str(), name) {
            return true;
        }
        i = i + 1;
    }
    false
}

/// The peer list (`peer/list`): configured peers, then the learned ones
/// whose name is not taken.
pub fn merge_peers(env: Vec<Peer>, learned: Vec<Peer>) -> (r: Vec<Peer>)
    ensures
        peer_views(r@) == merged_peers(peer_views(env@), peer_views(learned@)),
{
    let mut out = env;
    let ghost start = peer_views(out@);
    let ghost d = peer_views(learned@);
    let n = learned.len();
    let mut i: usize = 0;
    proof {
        assert(d.take(0) =~= Seq::<PeerView>::empty());
    }
    while i < n
        invariant
            n == learned@.len(),
            d == peer_views(learned@),
            0 <= i <= n,
            peer_views(out@) == merged_peers(start, d.take(i as int)),
        decreases n - i,
    {
        proof {
            assert(d.take(i + 1).drop_last() =~= d.take(i as int));
            assert(d.take(i + 1).last() == learned@[i as int]@);
        }
        if !has_peer_named(&out, learned[i].name.as_str()) {
            let p = learned[i].clone();
            let ghost before = out@;
            out.push(p);
            assert(peer_views(out@) =~= peer_views(before).push(p@));
        }
        i = i + 1;
    }
    proof {
        assert(d.take(n as int) =~= d);
    }
    out
}

/// Where a letter for `receiver` goes: the configured peer that is its
/// home, else the learned one, else nowhere (local delivery).
pub fn route_peer(peers: &Peers, learned: &DynamicPeers, receiver: &str) -> (r: Option<Peer>)
    ensures
        ({
            let a = home_index(peers.entries(), receiver@);
            let b = home_index(learned.entries(), receiver@);
            match r {
                Some(p) => (a >= 0 && p@ == peers.entries()[a]) || (a < 0 && b >= 0 && p@ == learned.entries()[b]),
                None => a < 0 && b < 0,
            }
        }),
{
    match peers.resolve(receiver) {
        Some(p) => Some(p),
        None => learned.contains_agent(receiver),
    }
}

/// Where a `message/send` goes.
pub enum SendRoute {
    /// Inbound from the federated pool that named itself.
    Inbound(String),
    /// Handed over to the receiver's home pool.
    Outbound(Peer),
    /// Delivered on this bus.
    Local,
}

/// The order in which `message/send` picks its route: a letter whose
/// request names a pool is inbound from that federated peer; otherwise a
/// receiver that lives in a peer pool gets a hand-over (see [`route_peer`]);
/// otherwise the letter is delivered here.
pub fn send_route(peers: &Peers, learned: &DynamicPeers, receiver: &str, from_pool: Option<String>) -> (r: SendRoute)
    ensures
        ({
            let a = home_index(peers.entries(), receiver@);
            let b = home_index(learned.entries(), receiver@);
            match from_pool {
                Some(pool) => r == SendRoute::Inbound(pool),
                None => match r {
                    SendRoute::Outbound(p) => (a >= 0 && p@ == peers.entries()[a]) || (a < 0 && b >= 0 && p@
                        == learned.entries()[b]),
                    SendRoute::Local => a < 0 && b < 0,
                    SendRoute::Inbound(_) => false,
                },
            }
        }),
{
    match from_pool {
        Some(pool) => SendRoute::Inbound(pool),
        None => match route_peer(peers, learned, receiver) {
            Some(p) => SendRoute::Outbound(p),
            None => SendRoute::Local,
        },
    }
}

/// The `agent` of a `message/poll`: a missing one is refused as
/// `missing param: agent`, and so is any name that itself starts with
/// `missing param` (the refusal carries that name as its text).
pub fn poll_agent(agent: Option<&str>) -> (r: Result<String, String>)
    ensures
        match agent {
            None => r matches Err(t) && t@ == "missing param: agent"@,
            Some(a) => if occurs_at(a@, "missing param"@, 0) {
                r matches Err(t) && t@ == a@
            } else {
                r matches Ok(x) && x@ == a@
            },
        },
{
    match agent {
        None => Err(String::from_str("missing param: agent")),
        Some(a) => {
            let p = "missing param";
            let n = p.unicode_len();
            let head = take_chars(a, n);
            let refused = a.unicode_len() >= n && same_text(head.as_str(), p);
            proof {
                if a@.len() >= p@.len() {
                    assert(a@.take(p@.len() as int) =~= a@.subrange(0, p@.len() as int));
                }
            }
            if refused {
                Err(String::from_str(a))
            } else {
                Ok(String::from_str(a))
            }
        },
    }
}

/// The JSON-RPC error text for a missing parameter.
pub fn missing_param_text(name: &str) -> (r: String)
    ensures
        r@ == "missing required param: "@ + name@,
{
    join2("missing required param: ", name)
}

/// The JSON-RPC error text for a method the bus does not know.
pub fn unknown_method_text(method: &str) -> (r: String)
    ensures
        r@ == "unknown method: "@ + method@ + " (call rpc.discover for the method table)"@,
{
    join3("unknown method: ", method, " (call rpc.discover for the method table)")
}

/// The error a sender gets when the hand-over to a peer pool failed; the
/// letter stays queued here.
pub fn forward_failed_text(pool: &str, error: &str) -> (r: String)
    ensures
        r@ == "forward to pool `"@ + pool@ + "` failed: "@ + error@ + " (letter stays queued)"@,
{
    let a = join3("forward to pool `", pool, "` failed: ");
    join3(a.as_str(), error, " (letter stays queued)")
}

/// How a federated agent is described in the registry: where its letters
/// come from (inbound) or where it lives (outbound).
pub open spec fn federated_note(pool: Seq<char>, inbound: bool) -> Seq<char> {
    if inbound { "federated from "@ + pool } else { "federated at "@ + pool }
}

/// Let a federated agent take part in the bus rules: when `agent` is not
/// registered yet, record it as poll-only, tagged with its pool, and
/// register it as a worker. Returns whether it was newly admitted; a known
/// agent is left exactly as it was.
pub fn admit_federated(bus: &mut EventBus, registry: &mut Registry, agent: &str, pool: &str, inbound: bool) -> (r: bool)
    ensures
        r == (old(bus).role_of_spec(agent@) is None),
        !r ==> *final(bus) == *old(bus) && final(registry).entries() == old(registry).entries(),
        r ==> {
            let k = entry_index(old(registry).entries(), agent@);
            let i = if k >= 0 { k } else { old(registry).entries().len() as int };
            let e = final(registry).entries()[i];
            &&& final(bus).role_of_spec(agent@) == Some(Role::Worker)
            &&& forall|a: Seq<char>| a != agent@ ==> #[trigger] final(bus).role_of_spec(a) == old(bus).role_of_spec(a)
            &&& final(bus).store().roster() == roster_with(old(bus).store().roster(), agent@)
            &&& final(bus).store().boxes() == with_box(old(bus).store().boxes(), agent@)
            &&& final(bus).store().cap() == old(bus).store().cap()
            &&& e.agent == agent@
            &&& e.description == federated_note(pool@, inbound)
            &&& e.deliver_via is Poll
            &&& texts_view(e.tags) == seq![pool@]
            &&& if k >= 0 {
                final(registry).entries() == old(registry).entries().update(k, e)
            } else {
                final(registry).entries() == old(registry).entries().push(e)
            }
        },
{
    if bus.is_registered(agent) {
        return false;
    }
    let description = if inbound {
        join2("federated from ", pool)
    } else {
        join2("federated at ", pool)
    };
    let mut tags: Vec<String> = Vec::new();
    tags.push(text_of(pool));
    proof {
        assert(texts_view(tags@) =~= seq![pool@]);
    }
    proof {
        crate::deliver::lemma_entry_index_range(registry.entries(), agent@);
    }
    registry.register_tagged(agent, description.as_str(), DeliverVia::Poll, tags);
    let _ = bus.register(agent, Role::Worker);
    true
}

} // verus!
