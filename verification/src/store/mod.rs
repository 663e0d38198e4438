//! Storage helpers — the ordering and checks every backend shares.
//!
//! Semantics are mailbox-shaped, not queue-shaped:
//! - one mailbox per agent
//! - `poll` drains *and marks* delivered (hot potato leaves the shelf)
//! - `ack` files the letter into the archive (audit trail = event sourcing)

pub mod memory;
pub mod laws;

use vstd::prelude::*;
use crate::error::BusError;
use crate::message::{Message, MessageStatus};
use crate::text::{text_le, text_le_exec, text_bytes,
    lemma_bytes_le_total, lemma_bytes_le_transitive, text_of, insert_sorted, same_text,
    strictly_sorted, text_views, decimal, decimal_text, join2, join3, push_char};
use vstd::relations::sorted_by;

verus! {

/// FIFO order: by creation time, then by id (byte order) for stability.
pub open spec fn fifo_le(a: Message, b: Message) -> bool {
    a.created_at < b.created_at || (a.created_at == b.created_at && text_le(a.id@, b.id@))
}

/// Insert `m` into `s` after every element that sorts at or before it,
/// scanning from the back (a stable insertion step).
pub open spec fn insert_fifo(s: Seq<Message>, m: Message) -> Seq<Message>
    decreases s.len(),
{
    if s.len() == 0 {
        seq![m]
    } else if fifo_le(s.last(), m) {
        s.push(m)
    } else {
        insert_fifo(s.drop_last(), m).push(s.last())
    }
}

/// `s` in FIFO order: a stable sort by [`fifo_le`].
pub open spec fn fifo_order(s: Seq<Message>) -> Seq<Message>
    decreases s.len(),
{
    if s.len() == 0 {
        s
    } else {
        insert_fifo(fifo_order(s.drop_last()), s.last())
    }
}

pub proof fn lemma_fifo_le_total(a: Message, b: Message)
    ensures
        fifo_le(a, b) || fifo_le(b, a),
{
    lemma_bytes_le_total(text_bytes(a.id@), text_bytes(b.id@));
}

pub proof fn lemma_fifo_le_transitive(a: Message, b: Message, c: Message)
    requires
        fifo_le(a, b),
        fifo_le(b, c),
    ensures
        fifo_le(a, c),
{
    if a.created_at == b.created_at && b.created_at == c.created_at {
        lemma_bytes_le_transitive(text_bytes(a.id@), text_bytes(b.id@), text_bytes(c.id@));
    }
}

proof fn lemma_insert_fifo_props(s: Seq<Message>, m: Message)
    ensures
        insert_fifo(s, m).len() == s.len() + 1,
        insert_fifo(s, m).to_multiset() =~= s.to_multiset().insert(m),
        forall|x: Message| #[trigger] insert_fifo(s, m).contains(x) ==> x == m || s.contains(x),
        sorted_by(s, |a: Message, b: Message| fifo_le(a, b)) ==> sorted_by(
            insert_fifo(s, m),
            |a: Message, b: Message| fifo_le(a, b),
        ),
    decreases s.len(),
{
    broadcast use vstd::seq_lib::group_to_multiset_ensures;

    let leq = |a: Message, b: Message| fifo_le(a, b);
    if s.len() == 0 {
        assert(seq![m].to_multiset() =~= Seq::<Message>::empty().to_multiset().insert(m)) by {
            assert(seq![m] =~= Seq::<Message>::empty().push(m));
        }
    } else if fifo_le(s.last(), m) {
        let r = s.push(m);
        if sorted_by(s, leq) {
            assert forall|i: int, j: int| 0 <= i < j < r.len() implies #[trigger] leq(r[i], r[j]) by {
                if j == s.len() {
                    if i < s.len() - 1 {
                        assert(leq(s[i], s[s.len() - 1]));
                        lemma_fifo_le_transitive(s[i], s.last(), m);
                    }
                }
            }
        }
    } else {
        let t = s.drop_last();
        let l = s.last();
        lemma_insert_fifo_props(t, m);
        let u = insert_fifo(t, m);
        let r = u.push(l);
        assert(s =~= t.push(l));
        assert forall|x: Message| #[trigger] r.contains(x) implies x == m || s.contains(x) by {
            if u.contains(x) {
                if x != m {
                    let k = choose|k: int| 0 <= k < t.len() && t[k] == x;
                    assert(s[k] == x);
                }
            } else {
                assert(x == l);
                assert(s[s.len() - 1] == l);
            }
        }
        if sorted_by(s, leq) {
            assert(sorted_by(t, leq)) by {
                assert forall|i: int, j: int| 0 <= i < j < t.len() implies #[trigger] leq(t[i], t[j]) by {
                    assert(leq(s[i], s[j]));
                }
            }
            lemma_fifo_le_total(l, m);
            assert forall|i: int, j: int| 0 <= i < j < r.len() implies #[trigger] leq(r[i], r[j]) by {
                if j == u.len() {
                    let x = u[i];
                    assert(u.contains(x));
                    if x != m {
                        let k = choose|k: int| 0 <= k < t.len() && t[k] == x;
                        assert(leq(s[k], s[s.len() - 1]));
                    }
                }
            }
        }
    }
}

/// Law: `fifo_order` is a permutation of its input, sorted by creation time
/// then id.
pub proof fn law_fifo_order_sorted_permutation(s: Seq<Message>)
    ensures
        fifo_order(s).len() == s.len(),
        fifo_order(s).to_multiset() =~= s.to_multiset(),
        sorted_by(fifo_order(s), |a: Message, b: Message| fifo_le(a, b)),
    decreases s.len(),
{
    broadcast use vstd::seq_lib::group_to_multiset_ensures;

    if s.len() > 0 {
        law_fifo_order_sorted_permutation(s.drop_last());
        lemma_insert_fifo_props(fifo_order(s.drop_last()), s.last());
        assert(s =~= s.drop_last().push(s.last()));
    }
}

/// `fifo_le` on two stored letters.
pub fn fifo_le_exec(a: &Message, b: &Message) -> (r: bool)
    ensures
        r == fifo_le(*a, *b),
{
    if a.created_at < b.created_at {
        true
    } else if a.created_at == b.created_at {
        text_le_exec(a.id.as_str(), b.id.as_str())
    } else {
        false
    }
}

proof fn lemma_insert_fifo_split(s: Seq<Message>, m: Message, j: int)
    requires
        0 < j <= s.len(),
        !fifo_le(s[j - 1], m),
    ensures
        insert_fifo(s.take(j), m) + s.skip(j) == insert_fifo(s.take(j - 1), m) + s.skip(j - 1),
{
    let p = s.take(j);
    assert(p.last() == s[j - 1]);
    assert(p.drop_last() =~= s.take(j - 1));
    assert(insert_fifo(p, m) == insert_fifo(s.take(j - 1), m).push(s[j - 1]));
    assert(insert_fifo(s.take(j - 1), m).push(s[j - 1]) + s.skip(j) =~= insert_fifo(
        s.take(j - 1),
        m,
    ) + s.skip(j - 1));
}

/// Insert one letter into a FIFO-ordered run (stable).
fn insert_fifo_exec(out: &mut Vec<Message>, m: Message)
    ensures
        final(out)@ == insert_fifo(old(out)@, m),
{
    let ghost s = out@;
    let mut j = out.len();
    proof {
        assert(s.take(s.len() as int) =~= s);
        assert(s.skip(s.len() as int) =~= Seq::<Message>::empty());
        assert(insert_fifo(s, m) =~= insert_fifo(s.take(j as int), m) + s.skip(j as int));
    }
    while j > 0
        invariant_except_break
            out@ == s,
            0 <= j <= s.len(),
            insert_fifo(s, m) == insert_fifo(s.take(j as int), m) + s.skip(j as int),
        ensures
            out@ == s,
            0 <= j <= s.len(),
            insert_fifo(s, m) == insert_fifo(s.take(j as int), m) + s.skip(j as int),
            j == 0 || fifo_le(s[j - 1], m),
        decreases j,
    {
        if fifo_le_exec(&out[j - 1], &m) {
            break;
        }
        proof {
            lemma_insert_fifo_split(s, m, j as int);
        }
        j = j - 1;
    }
    proof {
        let p = s.take(j as int);
        if j == 0 {
            assert(p.len() == 0);
        } else {
            assert(p.last() == s[j - 1]);
        }
        assert(insert_fifo(p, m) =~= p.push(m));
        assert(s.insert(j as int, m) =~= p.push(m) + s.skip(j as int));
    }
    out.insert(j, m);
}

/// Sort messages FIFO (by creation time, then id for stability).
pub fn fifo(messages: &mut Vec<Message>)
    ensures
        final(messages)@ == fifo_order(old(messages)@),
{
    let ghost s = messages@;
    let mut out: Vec<Message> = Vec::new();
    let n = messages.len();
    let mut i: usize = 0;
    proof {
        assert(s.take(0) =~= Seq::<Message>::empty());
    }
    while i < n
        invariant
            messages@ == s,
            n == s.len(),
            0 <= i <= n,
            out@ == fifo_order(s.take(i as int)),
        decreases n - i,
    {
        let m = messages[i].clone();
        insert_fifo_exec(&mut out, m);
        proof {
            assert(s.take(i + 1).drop_last() =~= s.take(i as int));
            assert(s.take(i + 1).last() == s[i as int]);
        }
        i = i + 1;
    }
    proof {
        assert(s.take(n as int) =~= s);
    }
    *messages = out;
}

/// The status names as the bus prints them.
pub open spec fn status_name(s: MessageStatus) -> Seq<char> {
    match s {
        MessageStatus::Queued => "Queued"@,
        MessageStatus::Pushing => "Pushing"@,
        MessageStatus::Delivered => "Delivered"@,
        MessageStatus::Read => "Read"@,
        MessageStatus::Acked => "Acked"@,
        MessageStatus::Dead => "Dead"@,
    }
}

/// The lower-case status names used on the wire.
pub open spec fn status_key(s: MessageStatus) -> Seq<char> {
    match s {
        MessageStatus::Queued => "queued"@,
        MessageStatus::Pushing => "pushing"@,
        MessageStatus::Delivered => "delivered"@,
        MessageStatus::Read => "read"@,
        MessageStatus::Acked => "acked"@,
        MessageStatus::Dead => "dead"@,
    }
}

/// An ASCII text lower-cased: `A`–`Z` become `a`–`z`, every other
/// character stays.
pub open spec fn ascii_lower(s: Seq<char>) -> Seq<char> {
    s.map_values(|c: char| if 'A' <= c && c <= 'Z' { ((c as int) + 32) as char } else { c })
}

/// Law: a status's wire key is its printed name lower-cased, and no two
/// statuses share a key (so a key names exactly one status).
pub proof fn law_status_key_is_the_lowercased_name(s: MessageStatus, t: MessageStatus)
    ensures
        status_key(s) == ascii_lower(status_name(s)),
        s != t ==> status_key(s) != status_key(t),
{
    reveal_strlit("Queued");
    reveal_strlit("Pushing");
    reveal_strlit("Delivered");
    reveal_strlit("Read");
    reveal_strlit("Acked");
    reveal_strlit("Dead");
    reveal_strlit("queued");
    reveal_strlit("pushing");
    reveal_strlit("delivered");
    reveal_strlit("read");
    reveal_strlit("acked");
    reveal_strlit("dead");
    assert(ascii_lower(status_name(s)) =~= status_key(s));
    if s != t {
        let a = status_key(s);
        let b = status_key(t);
        assert(a.len() != b.len() || a[0] != b[0]);
    }
}

pub fn status_name_exec(s: MessageStatus) -> (r: &'static str)
    ensures
        r@ == status_name(s),
{
    match s {
        MessageStatus::Queued => "Queued",
        MessageStatus::Pushing => "Pushing",
        MessageStatus::Delivered => "Delivered",
        MessageStatus::Read => "Read",
        MessageStatus::Acked => "Acked",
        MessageStatus::Dead => "Dead",
    }
}

pub fn status_key_exec(s: MessageStatus) -> (r: &'static str)
    ensures
        r@ == status_key(s),
{
    match s {
        MessageStatus::Queued => "queued",
        MessageStatus::Pushing => "pushing",
        MessageStatus::Delivered => "delivered",
        MessageStatus::Read => "read",
        MessageStatus::Acked => "acked",
        MessageStatus::Dead => "dead",
    }
}

/// The refusal given when a letter is not in a state that allows an ack or a
/// read: its id and current status name.
pub open spec fn not_deliverable(e: BusError, m: Message) -> bool {
    e matches BusError::NotDeliverable(id, st) && id@ == m.id@ && st@ == status_name(m.status)
}

pub fn not_deliverable_error(msg: &Message) -> (e: BusError)
    ensures
        not_deliverable(e, *msg),
{
    BusError::NotDeliverable(msg.id.clone(), text_of(status_name_exec(msg.status)))
}

/// Validate an ack target: only `Delivered` or `Read` letters may be acked.
pub fn validate_ack(msg: &Message) -> (r: Result<(), BusError>)
    ensures
        r is Ok <==> (msg.status == MessageStatus::Delivered || msg.status == MessageStatus::Read),
        r matches Err(e) ==> not_deliverable(e, *msg),
{
    match msg.status {
        MessageStatus::Delivered | MessageStatus::Read => Ok(()),
        _ => Err(not_deliverable_error(msg)),
    }
}

/// The receivers of a list of letters, in order.
pub open spec fn receivers_of(s: Seq<Message>) -> Seq<Seq<char>> {
    s.map_values(|m: Message| m.receiver@)
}

/// Letters addressed to `receiver`, as a filter.
pub open spec fn addressed_to(receiver: Seq<char>) -> spec_fn(Message) -> bool {
    |m: Message| m.receiver@ == receiver
}

/// The distinct receivers of `messages`, in ascending byte order.
pub fn sorted_receivers(messages: &[Message]) -> (r: Vec<String>)
    ensures
        strictly_sorted(text_views(r@)),
        forall|t: Seq<char>| text_views(r@).contains(t) <==> receivers_of(messages@).contains(t),
{
    let mut out: Vec<String> = Vec::new();
    let n = messages.len();
    let mut i: usize = 0;
    proof {
        assert(text_views(out@) =~= Seq::<Seq<char>>::empty());
    }
    while i < n
        invariant
            n == messages@.len(),
            0 <= i <= n,
            strictly_sorted(text_views(out@)),
            forall|t: Seq<char>| text_views(out@).contains(t) <==> receivers_of(messages@.take(i as int)).contains(t),
        decreases n - i,
    {
        let ghost before = text_views(out@);
        insert_sorted(&mut out, messages[i].receiver.as_str());
        proof {
            assert(receivers_of(messages@.take(i + 1)) =~= receivers_of(messages@.take(i as int)).push(
                messages@[i as int].receiver@,
            ));
            assert forall|t: Seq<char>| text_views(out@).contains(t) <==> receivers_of(messages@.take(i + 1)).contains(t) by {
                let p = receivers_of(messages@.take(i as int));
                if p.push(messages@[i as int].receiver@).contains(t) {
                    let j = choose|j: int| 0 <= j < p.len() + 1 && p.push(messages@[i as int].receiver@)[j] == t;
                    if j < p.len() {
                        assert(p[j] == t);
                    }
                }
                if p.contains(t) {
                    let j = choose|j: int| 0 <= j < p.len() && p[j] == t;
                    assert(p.push(messages@[i as int].receiver@)[j] == t);
                }
                if t == messages@[i as int].receiver@ {
                    assert(p.push(messages@[i as int].receiver@)[p.len() as int] == t);
                }
            }
        }
        i = i + 1;
    }
    proof {
        assert(messages@.take(n as int) =~= messages@);
    }
    out
}

/// The letters addressed to `receiver`, in order.
pub fn letters_to(messages: &[Message], receiver: &str) -> (r: Vec<Message>)
    ensures
        r@ == messages@.filter(addressed_to(receiver@)),
{
    let ghost pred = addressed_to(receiver@);
    let mut out: Vec<Message> = Vec::new();
    let n = messages.len();
    let mut i: usize = 0;
    while i < n
        invariant
            n == messages@.len(),
            0 <= i <= n,
            pred == addressed_to(receiver@),
            out@ == messages@.take(i as int).filter(pred),
        decreases n - i,
    {
        proof {
            assert(messages@.take(i + 1) =~= messages@.take(i as int).push(messages@[i as int]));
            messages@.take(i as int).lemma_filter_push(messages@[i as int], pred);
        }
        if same_text(messages[i].receiver.as_str(), receiver) {
            out.push(messages[i].clone());
        }
        i = i + 1;
    }
    proof {
        assert(messages@.take(n as int) =~= messages@);
    }
    out
}

/// Group letters by receiver (for status dashboards): one entry per
/// receiver, receivers in ascending byte order, each with its letters in
/// the order they came in.
pub fn group_by_receiver(messages: &[Message]) -> (r: Vec<(String, Vec<Message>)>)
    ensures
        strictly_sorted(r@.map_values(|g: (String, Vec<Message>)| g.0@)),
        forall|t: Seq<char>|
            r@.map_values(|g: (String, Vec<Message>)| g.0@).contains(t) <==> receivers_of(messages@).contains(t),
        forall|k: int| 0 <= k < r@.len() ==> (#[trigger] r@[k]).1@ == messages@.filter(addressed_to(r@[k].0@)),
{
    let keys = sorted_receivers(messages);
    let mut out: Vec<(String, Vec<Message>)> = Vec::new();
    let n = keys.len();
    let mut i: usize = 0;
    while i < n
        invariant
            n == keys@.len(),
            0 <= i <= n,
            out@.len() == i,
            forall|k: int| 0 <= k < i ==> (#[trigger] out@[k]).0@ == keys@[k]@,
            forall|k: int| 0 <= k < i ==> (#[trigger] out@[k]).1@ == messages@.filter(addressed_to(out@[k].0@)),
        decreases n - i,
    {
        let group = letters_to(messages, keys[i].as_str());
        out.push((keys[i].clone(), group));
        i = i + 1;
    }
    proof {
        assert(out@.map_values(|g: (String, Vec<Message>)| g.0@) =~= text_views(keys@));
    }
    out
}

/// `n` in decimal, left-padded with zeros to `width` characters.
pub open spec fn zero_padded(n: nat, width: nat) -> Seq<char> {
    let d = decimal(n);
    if d.len() < width { Seq::new((width - d.len()) as nat, |i: int| '0') + d } else { d }
}

/// A signed number as `{:020}` writes it: zero-padded to twenty characters,
/// the sign counted among them.
pub open spec fn padded_20(v: int) -> Seq<char> {
    if v >= 0 { zero_padded(v as nat, 20) } else { "-"@ + zero_padded((-v) as nat, 19) }
}

/// Whole milliseconds of a nanosecond stamp, rounded down.
pub open spec fn millis_of(nanos: i128) -> int {
    nanos as int / 1_000_000
}

/// The on-disk key of a letter: `receiver::millis::id`, so that a key scan
/// within one receiver's prefix walks its mailbox oldest first.
pub open spec fn letter_key_text(receiver: Seq<char>, created_at: i128, id: Seq<char>) -> Seq<char> {
    receiver + "::"@ + padded_20(millis_of(created_at)) + "::"@ + id
}

fn zero_pad_exec(n: u128, width: usize) -> (r: String)
    ensures
        r@ == zero_padded(n as nat, width as nat),
{
    let digits = decimal_text(n);
    let len = digits.as_str().unicode_len();
    if len >= width {
        return digits;
    }
    let mut out = String::new();
    let mut k: usize = 0;
    while k < width - len
        invariant
            len < width,
            k <= width - len,
            out@ == Seq::new(k as nat, |i: int| '0'),
        decreases width - len - k,
    {
        push_char(&mut out, '0');
        k = k + 1;
        assert(out@ =~= Seq::new(k as nat, |i: int| '0'));
    }
    let r = join2(out.as_str(), digits.as_str());
    assert(r@ =~= zero_padded(n as nat, width as nat));
    r
}

/// The on-disk key of `msg` in `receiver`'s mailbox.
pub fn letter_key(receiver: &str, msg: &Message) -> (r: String)
    ensures
        r@ == letter_key_text(receiver@, msg.created_at, msg.id@),
{
    let nanos = msg.created_at;
    let ms: i128 = if nanos >= 0 {
        nanos / 1_000_000
    } else {
        // rounding down: -((-(nanos + 1)) / 10^6) - 1, which never overflows
        let back: i128 = -(nanos + 1);
        let q: i128 = back / 1_000_000;
        proof {
            vstd::arithmetic::div_mod::lemma_fundamental_div_mod(back as int, 1_000_000);
            vstd::arithmetic::div_mod::lemma_mod_bound(back as int, 1_000_000);
            let r = (back as int) % 1_000_000;
            assert(nanos as int == (-q - 1) * 1_000_000 + (999_999 - r));
            vstd::arithmetic::div_mod::lemma_fundamental_div_mod_converse(nanos as int, 1_000_000, -q - 1, 999_999 - r);
        }
        -q - 1
    };
    assert(ms == millis_of(msg.created_at));
    let padded = if ms >= 0 {
        zero_pad_exec(ms as u128, 20)
    } else {
        let mag = zero_pad_exec((-ms) as u128, 19);
        join2("-", mag.as_str())
    };
    let head = join3(receiver, "::", padded.as_str());
    join3(head.as_str(), "::", msg.id.as_str())
}

} // verus!
