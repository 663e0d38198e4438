//! Dashboard-driven federation: two bus operators connect by exchanging a
//! one-time invite code. The code carries the inviter's URL, lives ten
//! minutes and can be used once; peers learned this way sit beside the
//! configured ones.

use vstd::prelude::*;
pub use crate::base64::{b64url_decode, b64url_encode};
use crate::base64::{b64url_decode_spec, b64url_encode_spec, law_b64url_roundtrip};
use crate::federation::{home_index, lemma_home_index_range, peer_views, Peer, PeerView};
use crate::message::{is_lower_hex, new_letter_id, now_nanos};
use crate::text::{join2, join3, same_text};

verus! {

/// An invite stays valid this long after it was issued (ten minutes).
pub const INVITE_TTL_NANOS: i128 = 600_000_000_000;

/// One pending invite: single use, ten-minute lifetime. Times are
/// nanoseconds since the epoch.
#[derive(Debug)]
pub struct Invite {
    pub code: String,
    pub created_at: i128,
    pub expires_at: i128,
    pub used: bool,
}

impl Clone for Invite {
    fn clone(&self) -> (r: Self)
        ensures
            r == *self,
    {
        Invite {
            code: self.code.clone(),
            created_at: self.created_at,
            expires_at: self.expires_at,
            used: self.used,
        }
    }
}

/// A lowercase hexadecimal digit.
pub open spec fn hex_digit(d: int) -> char {
    seq!['0', '1', '2', '3', '4', '5', '6', '7', '8', '9', 'a', 'b', 'c', 'd', 'e', 'f'][d]
}

/// How one character stands inside a JSON string as serde_json writes it:
/// `"` and `\` and the control characters below U+0020 get a backslash
/// escape (the short ones where JSON has them, else `\u00XX`); every other
/// character stands as it is.
pub open spec fn json_escape_char(c: char) -> Seq<char> {
    if c == '"' {
        seq!['\\', '"']
    } else if c == '\\' {
        seq!['\\', '\\']
    } else if c == '\x08' {
        seq!['\\', 'b']
    } else if c == '\t' {
        seq!['\\', 't']
    } else if c == '\n' {
        seq!['\\', 'n']
    } else if c == '\x0c' {
        seq!['\\', 'f']
    } else if c == '\r' {
        seq!['\\', 'r']
    } else if (c as int) < 0x20 {
        seq!['\\', 'u', '0', '0', hex_digit((c as int) / 16), hex_digit((c as int) % 16)]
    } else {
        seq![c]
    }
}

/// The characters of a JSON string's contents, each escaped as above.
pub open spec fn json_escaped(s: Seq<char>) -> Seq<char>
    decreases s.len(),
{
    if s.len() == 0 {
        Seq::empty()
    } else {
        json_escape_char(s[0]) + json_escaped(s.drop_first())
    }
}

/// The compact text serde_json writes for a JSON object with the single
/// string field `key: value`: `{"key":"value"}`, both strings escaped.
pub open spec fn json_object_text(key: Seq<char>, value: Seq<char>) -> Seq<char> {
    seq!['{', '"'] + json_escaped(key) + seq!['"', ':', '"'] + json_escaped(value) + seq!['"', '}']
}

/// The text at `key` of the JSON object `raw`, when `raw` parses as an object
/// whose `key` holds a string.
pub uninterp spec fn json_text_field(raw: Seq<char>, key: Seq<char>) -> Option<Seq<char>>;

/// A `serde_json::Value::Object` with the one field `key` holding the string
/// `value`, written with `to_string()` (compact, strings escaped as
/// serde_json's `format_escaped_str` does), and serde_json's round trip:
/// reading `key` back out of that text gives `value`.
#[verifier::external_body]
fn json_object1(key: &str, value: &str) -> (r: String)
    ensures
        r@ == json_object_text(key@, value@),
        json_text_field(r@, key@) == Some(value@),
{
    let mut fields = serde_json::Map::new();
    fields.insert(key.to_string(), serde_json::Value::String(value.to_string()));
    serde_json::Value::Object(fields).to_string()
}

/// `serde_json::from_str::<Value>(raw)`, then `.get(key)` and `.as_str()`:
/// the string at `key`, or `None` when `raw` is not JSON, not an object, or
/// `key` holds no string. What it returns is named, not written out.
#[verifier::external_body]
fn json_field_text(raw: &str, key: &str) -> (r: Option<String>)
    ensures
        r is Some <==> json_text_field(raw@, key@) is Some,
        r matches Some(v) ==> json_text_field(raw@, key@) == Some(v@),
{
    match serde_json::from_str::<serde_json::Value>(raw) {
        Ok(v) => v.get(key).and_then(|x| x.as_str()).map(|x| x.to_string()),
        Err(_) => None,
    }
}

/// The JSON payload an invite carries: `{"url":<inviter url>}`.
pub open spec fn invite_payload(url: Seq<char>) -> Seq<char> {
    json_object_text("url"@, url)
}

/// The invite code for a nonce and an inviter URL:
/// `hp-<nonce>-<base64url of the payload>`.
pub open spec fn invite_code(nonce: Seq<char>, url: Seq<char>) -> Seq<char> {
    "hp-"@ + nonce + "-"@ + b64url_encode_spec(invite_payload(url))
}

/// When an invite issued at `now` expires (saturating at the end of time).
pub open spec fn invite_expiry(now: i128) -> i128 {
    if now <= i128::MAX - INVITE_TTL_NANOS {
        (now + INVITE_TTL_NANOS) as i128
    } else {
        i128::MAX
    }
}

/// `inv` is the invite issued with `nonce` for `url` at `now`.
/// The code reads back the URL it was issued for (whenever the nonce holds
/// no `-`, since the payload starts after the second `-`).
pub open spec fn issued(inv: Invite, nonce: Seq<char>, url: Seq<char>, now: i128) -> bool {
    &&& inv.code@ == invite_code(nonce, url)
    &&& inv.created_at == now
    &&& inv.expires_at == invite_expiry(now)
    &&& !inv.used
    &&& !nonce.contains('-') ==> inviter_url_of(inv.code@) == Some(url)
}

/// An invite can still be used at `now`: unused and not expired.
pub open spec fn invite_valid_at(inv: Invite, now: i128) -> bool {
    !inv.used && now < inv.expires_at
}

/// The invites still valid at `now`, as a filter.
pub open spec fn live_at(now: i128) -> spec_fn(Invite) -> bool {
    |inv: Invite| invite_valid_at(inv, now)
}

/// `inv` would be accepted for `code` at `now`.
pub open spec fn redeemable(inv: Invite, code: Seq<char>, now: i128) -> bool {
    inv.code@ == code && invite_valid_at(inv, now)
}

/// The invite marked as used.
pub open spec fn spent(inv: Invite) -> Invite {
    Invite { code: inv.code, created_at: inv.created_at, expires_at: inv.expires_at, used: true }
}

impl Invite {
    /// The invite for `inviter_url`, with `nonce` as its unique part, issued at `now`.
    pub fn issue(inviter_url: &str, nonce: &str, now: i128) -> (r: Invite)
        ensures
            issued(r, nonce@, inviter_url@, now),
    {
        let payload = json_object1("url", inviter_url);
        let encoded = b64url_encode(payload.as_str());
        let prefix = join3("hp-", nonce, "-");
        let code = join2(prefix.as_str(), encoded.as_str());
        proof {
            let e = encoded@;
            if !nonce@.contains('-') {
                reveal_strlit("hp-");
                reveal_strlit("-");
                reveal_strlit("hp");
                assert(code@ =~= "hp"@ + (seq!['-'] + (nonce@ + (seq!['-'] + e))));
                assert(!"hp"@.contains('-')) by {
                    assert("hp"@[0] == 'h' && "hp"@[1] == 'p');
                }
                lemma_after_dash_of(("hp"@), nonce@ + (seq!['-'] + e));
                lemma_after_dash_of(nonce@, e);
                law_b64url_roundtrip(payload@);
            }
        }
        let expires_at = if now <= i128::MAX - INVITE_TTL_NANOS {
            now + INVITE_TTL_NANOS
        } else {
            i128::MAX
        };
        Invite { code, created_at: now, expires_at, used: false }
    }

    /// A fresh invite for `inviter_url`: a random nonce, issued now. The
    /// code carries the URL: the joiner reads it back from the code alone.
    pub fn new(inviter_url: &str) -> (r: Invite)
        ensures
            exists|nonce: Seq<char>, now: i128| #[trigger] issued(r, nonce, inviter_url@, now),
            inviter_url_of(r.code@) == Some(inviter_url@),
    {
        let nonce = new_letter_id();
        proof {
            lemma_hex_has_no_dash(nonce@);
        }
        let now = now_nanos();
        Invite::issue(inviter_url, nonce.as_str(), now)
    }

    /// Still usable at `now`?
    pub fn valid_at(&self, now: i128) -> (r: bool)
        ensures
            r == invite_valid_at(*self, now),
    {
        !self.used && now < self.expires_at
    }

    /// Still usable by the clock? A used invite never is.
    pub fn valid(&self) -> (r: bool)
        ensures
            exists|now: i128| r == #[trigger] invite_valid_at(*self, now),
            self.used ==> !r,
    {
        self.valid_at(now_nanos())
    }
}

/// Issue an invite at `now` for `inviter_url` and keep it in `store`,
/// dropping the invites no longer valid at `now`.
pub fn create_invite_at(store: &mut Vec<Invite>, inviter_url: &str, nonce: &str, now: i128) -> (r: Invite)
    ensures
        issued(r, nonce@, inviter_url@, now),
        final(store)@ == old(store)@.filter(live_at(now)).push(r),
{
    let inv = Invite::issue(inviter_url, nonce, now);
    let ghost s = store@;
    let ghost pred = live_at(now);
    let mut kept: Vec<Invite> = Vec::new();
    let n = store.len();
    let mut i: usize = 0;
    while i < n
        invariant
            s == store@,
            n == s.len(),
            0 <= i <= n,
            pred == live_at(now),
            kept@ == s.take(i as int).filter(pred),
        decreases n - i,
    {
        proof {
            assert(s.take(i + 1) =~= s.take(i as int).push(s[i as int]));
            s.take(i as int).lemma_filter_push(s[i as int], pred);
        }
        if store[i].valid_at(now) {
            kept.push(store[i].clone());
        }
        i = i + 1;
    }
    proof {
        assert(s.take(n as int) =~= s);
    }
    kept.push(inv.clone());
    *store = kept;
    inv
}

/// Issue an invite for `inviter_url` now and keep it in `store` (the
/// dashboard's "Invite a peer" button).
pub fn create_invite(store: &mut Vec<Invite>, inviter_url: &str) -> (r: Invite)
    ensures
        exists|nonce: Seq<char>, now: i128|
            #[trigger] issued(r, nonce, inviter_url@, now) && final(store)@ == old(store)@.filter(live_at(now)).push(r),
        inviter_url_of(r.code@) == Some(inviter_url@),
{
    let nonce = new_letter_id();
    proof {
        lemma_hex_has_no_dash(nonce@);
    }
    let now = now_nanos();
    create_invite_at(store, inviter_url, nonce.as_str(), now)
}

/// What using up `code` at `now` does: `accepted` exactly when some invite
/// in `before` is redeemable; then the first such invite is marked used,
/// else nothing changes.
pub open spec fn consume_outcome(before: Seq<Invite>, after: Seq<Invite>, code: Seq<char>, now: i128, accepted: bool) -> bool {
    &&& accepted == exists|k: int| 0 <= k < before.len() && #[trigger] redeemable(before[k], code, now)
    &&& accepted ==> exists|k: int|
        0 <= k < before.len() && #[trigger] redeemable(before[k], code, now)
            && (forall|j: int| 0 <= j < k ==> !redeemable(#[trigger] before[j], code, now))
            && after == before.update(k, spent(before[k]))
    &&& !accepted ==> after == before
}

/// Use up the first invite with this code that is valid at `now`; `true`
/// when there was one.
pub fn consume_invite_at(store: &mut Vec<Invite>, code: &str, now: i128) -> (r: bool)
    ensures
        consume_outcome(old(store)@, final(store)@, code@, now, r),
{
    let n = store.len();
    let mut i: usize = 0;
    while i < n
        invariant
            store@ == old(store)@,
            n == store@.len(),
            0 <= i <= n,
            forall|j: int| 0 <= j < i ==> !redeemable(#[trigger] store@[j], code@, now),
        decreases n - i,
    {
        if same_text(store[i].code.as_str(), code) && store[i].valid_at(now) {
            let ghost before = store@;
            let mut inv = store[i].clone();
            inv.used = true;
            store.set(i, inv);
            proof {
                assert(redeemable(before[i as int], code@, now));
                assert(store@ =~= before.update(i as int, spent(before[i as int])));
                assert(exists|k: int| 0 <= k < before.len() && #[trigger] redeemable(before[k], code@, now)
                    && (forall|j: int| 0 <= j < k ==> !redeemable(#[trigger] before[j], code@, now))
                    && store@ == before.update(k, spent(before[k])));
            }
            return true;
        }
        i = i + 1;
    }
    assert(!exists|k: int| 0 <= k < store@.len() && #[trigger] redeemable(store@[k], code@, now));
    false
}

/// Use up an invite code by the clock; `true` when it was valid and unused.
pub fn consume_invite(store: &mut Vec<Invite>, code: &str) -> (r: bool)
    ensures
        exists|now: i128| #[trigger] consume_outcome(old(store)@, final(store)@, code@, now, r),
{
    let now = now_nanos();
    consume_invite_at(store, code, now)
}

/// At most one invite in `s` carries `code`.
pub open spec fn code_unique(s: Seq<Invite>, code: Seq<char>) -> bool {
    forall|i: int, j: int|
        0 <= i < s.len() && 0 <= j < s.len() && #[trigger] s[i].code@ == code && #[trigger] s[j].code@ == code
            ==> i == j
}

/// Law: an invite is single use. Once a code was accepted, using it again,
/// at any moment, is refused and changes nothing (when no other invite
/// shares the code).
pub proof fn law_invite_single_use(
    before: Seq<Invite>,
    after: Seq<Invite>,
    again: Seq<Invite>,
    code: Seq<char>,
    first: i128,
    later: i128,
    second: bool,
)
    requires
        code_unique(before, code),
        consume_outcome(before, after, code, first, true),
        consume_outcome(after, again, code, later, second),
    ensures
        !second,
        again == after,
{
    let k = choose|k: int|
        0 <= k < before.len() && #[trigger] redeemable(before[k], code, first)
            && (forall|j: int| 0 <= j < k ==> !redeemable(#[trigger] before[j], code, first))
            && after == before.update(k, spent(before[k]));
    assert forall|j: int| 0 <= j < after.len() implies !#[trigger] redeemable(after[j], code, later) by {
        if j != k && before[j].code@ == code {
            assert(before[k].code@ == code);
        }
    }
}

/// Law: an invite just kept in the store is accepted at its creation time
/// (unless it was issued at the very end of time).
pub proof fn law_fresh_invite_redeemable(s: Seq<Invite>, inv: Invite, now: i128)
    requires
        !inv.used,
        inv.expires_at == invite_expiry(now),
        now < i128::MAX,
    ensures
        exists|k: int| 0 <= k < s.push(inv).len() && #[trigger] redeemable(s.push(inv)[k], inv.code@, now),
{
    let t = s.push(inv);
    assert(redeemable(t[s.len() as int], inv.code@, now));
}

/// The text after the first `-` of `s` (nothing when it has none).
pub open spec fn after_dash(s: Seq<char>) -> Seq<char>
    decreases s.len(),
{
    if s.len() == 0 {
        s
    } else if s[0] == '-' {
        s.drop_first()
    } else {
        after_dash(s.drop_first())
    }
}

/// The inviter URL an invite code carries: the base64url payload after
/// `hp-<nonce>-` (the text after the second `-`), decoded, read as JSON,
/// field `url`.
pub open spec fn inviter_url_of(code: Seq<char>) -> Option<Seq<char>> {
    match b64url_decode_spec(after_dash(after_dash(code))) {
        Some(raw) => json_text_field(raw, "url"@),
        None => None,
    }
}

proof fn lemma_after_dash_of(pre: Seq<char>, tail: Seq<char>)
    requires
        !pre.contains('-'),
    ensures
        after_dash(pre + (seq!['-'] + tail)) == tail,
    decreases pre.len(),
{
    let whole = pre + (seq!['-'] + tail);
    if pre.len() == 0 {
        assert(whole =~= seq!['-'] + tail);
        assert(whole.drop_first() =~= tail);
    } else {
        assert(pre[0] != '-') by {
            if pre[0] == '-' {
                assert(pre.contains('-'));
            }
        }
        assert(!pre.drop_first().contains('-')) by {
            if pre.drop_first().contains('-') {
                let i = choose|i: int| 0 <= i < pre.drop_first().len() && pre.drop_first()[i] == '-';
                assert(pre[i + 1] == '-');
            }
        }
        assert(whole.drop_first() =~= pre.drop_first() + (seq!['-'] + tail));
        lemma_after_dash_of(pre.drop_first(), tail);
    }
}

proof fn lemma_hex_has_no_dash(id: Seq<char>)
    requires
        forall|i: int| 0 <= i < id.len() ==> is_lower_hex(#[trigger] id[i]),
    ensures
        !id.contains('-'),
{
    if id.contains('-') {
        let i = choose|i: int| 0 <= i < id.len() && id[i] == '-';
        assert(is_lower_hex(id[i]));
    }
}

/// The part of `s` after its first `-`.
fn after_first_dash(s: &str) -> (r: String)
    ensures
        r@ == after_dash(s@),
{
    let n = s.unicode_len();
    let ghost v = s@;
    let mut i: usize = 0;
    proof {
        assert(v.skip(0) =~= v);
    }
    while i < n
        invariant
            v == s@,
            n == v.len(),
            0 <= i <= n,
            after_dash(v) == after_dash(v.skip(i as int)),
        decreases n - i,
    {
        let c = s.get_char(i);
        proof {
            assert(v.skip(i as int)[0] == c);
            assert(v.skip(i as int).drop_first() =~= v.skip(i + 1));
        }
        if c == '-' {
            return s.substring_char(i + 1, n).to_string();
        }
        i = i + 1;
    }
    proof {
        assert(v.skip(n as int) =~= Seq::<char>::empty());
    }
    String::new()
}

/// A pool description in a handshake or registration is complete: it has a
/// name, a url and at least one agent.
pub fn peer_fields_complete(name: &str, url: &str, agents: &Vec<String>) -> (r: bool)
    ensures
        r == (name@.len() > 0 && url@.len() > 0 && agents@.len() > 0),
{
    name.unicode_len() > 0 && url.unicode_len() > 0 && agents.len() > 0
}

/// Read the inviter's URL out of an invite code; `None` when the code's tail
/// is not base64url of a JSON object with a `url` string.
pub fn invite_inviter_url(code: &str) -> (r: Option<String>)
    ensures
        match r {
            Some(u) => inviter_url_of(code@) == Some(u@),
            None => inviter_url_of(code@) is None,
        },
{
    let rest = after_first_dash(code);
    let tail = after_first_dash(rest.as_str());
    match b64url_decode(tail.as_str()) {
        Some(raw) => json_field_text(raw.as_str(), "url"),
        None => None,
    }
}

/// Every peer whose name differs from `name`, as a filter.
pub open spec fn named_otherwise(name: Seq<char>) -> spec_fn(PeerView) -> bool {
    |p: PeerView| p.name != name
}

/// Peers learned through the handshake.
#[derive(Debug)]
pub struct DynamicPeers {
    peers: Vec<Peer>,
}

impl DynamicPeers {
    /// The learned peers, oldest first.
    pub closed spec fn entries(self) -> Seq<PeerView> {
        peer_views(self.peers@)
    }

    pub fn new() -> (r: Self)
        ensures
            r.entries() == Seq::<PeerView>::empty(),
    {
        let r = DynamicPeers { peers: Vec::new() };
        assert(r.entries() =~= Seq::<PeerView>::empty());
        r
    }

    /// Learn a peer, replacing any earlier one of the same name.
    pub fn add(&mut self, peer: Peer)
        ensures
            final(self).entries() == old(self).entries().filter(named_otherwise(peer@.name)).push(peer@),
    {
        let ghost s = self.entries();
        let ghost pred = named_otherwise(peer@.name);
        let mut kept: Vec<Peer> = Vec::new();
        let n = self.peers.len();
        let mut i: usize = 0;
        while i < n
            invariant
                s == self.entries(),
                n == self.peers@.len(),
                s.len() == n,
                0 <= i <= n,
                pred == named_otherwise(peer@.name),
                peer_views(kept@) == s.take(i as int).filter(pred),
            decreases n - i,
        {
            proof {
                assert(s.take(i + 1) =~= s.take(i as int).push(s[i as int]));
                s.take(i as int).lemma_filter_push(s[i as int], pred);
                assert(s[i as int] == self.peers@[i as int]@);
            }
            if !same_text(self.peers[i].name.as_str(), peer.name.as_str()) {
                let p = self.peers[i].clone();
                let ghost before = kept@;
                kept.push(p);
                assert(peer_views(kept@) =~= peer_views(before).push(p@));
            }
            i = i + 1;
        }
        proof {
            assert(s.take(n as int) =~= s);
        }
        let ghost before = kept@;
        let ghost pv = peer@;
        kept.push(peer);
        assert(peer_views(kept@) =~= peer_views(before).push(pv));
        self.peers = kept;
    }

    /// A copy of every learned peer.
    pub fn all(&self) -> (r: Vec<Peer>)
        ensures
            peer_views(r@) == self.entries(),
    {
        let mut out: Vec<Peer> = Vec::new();
        let n = self.peers.len();
        let mut i: usize = 0;
        while i < n
            invariant
                n == self.peers@.len(),
                0 <= i <= n,
                peer_views(out@) == self.entries().take(i as int),
            decreases n - i,
        {
            let p = self.peers[i].clone();
            assert(self.entries()[i as int] == self.peers@[i as int]@);
            let ghost before = out@;
            out.push(p);
            assert(peer_views(out@) =~= peer_views(before).push(p@));
            i = i + 1;
            assert(peer_views(out@) =~= self.entries().take(i as int));
        }
        assert(self.entries().take(n as int) =~= self.entries());
        out
    }

    pub fn len(&self) -> (r: usize)
        ensures
            r == self.entries().len(),
    {
        self.peers.len()
    }

    /// The first learned peer that is home to `agent`.
    pub fn contains_agent(&self, agent: &str) -> (r: Option<Peer>)
        ensures
            ({
                let k = home_index(self.entries(), agent@);
                match r {
                    Some(p) => k >= 0 && p@ == self.entries()[k],
                    None => k == -1,
                }
            }),
    {
        let n = self.peers.len();
        let mut i: usize = 0;
        let ghost s = self.entries();
        proof {
            assert(s.skip(0) =~= s);
            lemma_home_index_range(s, agent@);
        }
        while i < n
            invariant
                n == self.peers@.len(),
                s == self.entries(),
                s.len() == n,
                0 <= i <= n,
                home_index(s, agent@) == (if home_index(s.skip(i as int), agent@) < 0 {
                    -1
                } else {
                    home_index(s.skip(i as int), agent@) + i
                }),
            decreases n - i,
        {
            proof {
                assert(s.skip(i as int)[0] == s[i as int]);
                assert(s.skip(i as int).drop_first() =~= s.skip(i + 1));
                assert(s[i as int] == self.peers@[i as int]@);
            }
            if self.peers[i].contains(agent) {
                return Some(self.peers[i].clone());
            }
            i = i + 1;
        }
        proof {
            assert(s.skip(n as int).len() == 0);
        }
        None
    }
}

impl Default for DynamicPeers {
    /// No learned peers.
    fn default() -> (r: Self)
        ensures
            r.entries() == Seq::<PeerView>::empty(),
    {
        DynamicPeers::new()
    }
}

} // verus!
