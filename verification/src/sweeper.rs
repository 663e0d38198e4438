//! Queue sweeper — the self-healing dispatcher's decisions.
//!
//! A push that fails at send time leaves a letter queued; the sweeper
//! re-dispatches queued letters on a fixed cadence with a per-letter
//! exponential backoff derived from the letter's age (1m → 2m → 4m … capped
//! at 32m), reclaims letters stuck in `Pushing` after their dispatcher died,
//! and settles each push through the state machine. Only letters still
//! `queued` are ever re-pushed.

use vstd::prelude::*;
use vstd::arithmetic::power2::pow2;
use crate::bus::{same_roles, EventBus};
use crate::deliver::{clone_texts, entry_index, lemma_entry_index_range, DeliverVia, PushOutcome, Registry};
use crate::error::BusError;
use crate::federation::{Peer, PeerView};
use crate::message::{root_walk, Message, MessageStatus, THREAD_WALK_LIMIT};
use crate::state::PUSHING_TIMEOUT_SECS;
use crate::store::memory::{push_failed_outcome, push_ok_outcome, reclaim_outcome};
use crate::text::{contains_exec, contains_text, decimal, decimal_text, join2, join3, same_text};

verus! {

/// Nanoseconds in a second.
pub const NANOS_PER_SEC: i128 = 1_000_000_000;

/// Production backoff floor for [`retry_window`], in seconds.
pub const MIN_BACKOFF: u64 = 60;

/// How many times the backoff window doubles for a letter `q` steps old:
/// `⌊log2 q⌋`, capped at 5, and 0 for a letter younger than one step.
pub open spec fn backoff_doublings(q: nat) -> nat {
    if q >= 32 {
        5
    } else if q >= 16 {
        4
    } else if q >= 8 {
        3
    } else if q >= 4 {
        2
    } else if q >= 2 {
        1
    } else {
        0
    }
}

/// `2^d` for the doublings above.
pub open spec fn two_to(d: nat) -> nat
    decreases d,
{
    if d == 0 { 1 } else { 2 * two_to((d - 1) as nat) }
}

/// The backoff step: the floor, at least one second.
pub open spec fn backoff_step(min_backoff: u64) -> u64 {
    if min_backoff == 0 { 1 } else { min_backoff }
}

/// The retry window of a letter `age` seconds old: the step shifted left by
/// the doublings (a `u64` shift, as the window is computed).
pub open spec fn retry_window_spec(age: u64, min_backoff: u64) -> u64 {
    let step = backoff_step(min_backoff);
    step << (backoff_doublings((age / step) as nat) as u64)
}

/// A queued letter is retried only when its age covers the next backoff
/// window: 1m, 2m, 4m, 8m, 16m, 32m (capped). Stateless — derived from the
/// age in seconds, with the floor `min_backoff` in seconds.
pub fn retry_window(age: u64, min_backoff: u64) -> (r: u64)
    ensures
        r == retry_window_spec(age, min_backoff),
{
    let step = if min_backoff > 0 { min_backoff } else { 1 };
    let q = age / step;
    let doublings: u64 = if q >= 32 {
        5
    } else if q >= 16 {
        4
    } else if q >= 8 {
        3
    } else if q >= 4 {
        2
    } else if q >= 2 {
        1
    } else {
        0
    };
    step << doublings
}

/// Law: the window doubles with each power of two of the age. With
/// `q = age / step` whole steps (step = the floor, at least one second): a
/// letter under two steps old waits one step; one with `2^d <= q < 2^(d+1)`
/// for `d < 5` waits `step * 2^d` (2, 4, 8, 16 steps); from 32 steps on it
/// waits 32 steps. So the production floor of 60s gives 1m, 2m, 4m, 8m,
/// 16m, 32m.
pub proof fn law_retry_window_tiers(age: u64, min_backoff: u64, d: nat)
    requires
        min_backoff <= 0x07ff_ffff_ffff_ffff,
    ensures
        ({
            let step = backoff_step(min_backoff) as int;
            let q = (age / backoff_step(min_backoff)) as int;
            let w = retry_window_spec(age, min_backoff) as int;
            &&& q < 2 ==> w == step
            &&& (d < 5 && pow2(d) <= q < pow2(d + 1)) ==> w == step * pow2(d)
            &&& q >= 32 ==> w == 32 * step
        }),
{
    reveal_with_fuel(two_to, 6);
    law_retry_window_grows_and_caps(age, age, min_backoff);
    vstd::arithmetic::power2::lemma2_to64();
    let q = (age / backoff_step(min_backoff)) as nat;
    let step = backoff_step(min_backoff) as int;
    let w = retry_window_spec(age, min_backoff) as int;
    assert(w == step * two_to(backoff_doublings(q)));
    if q < 2 {
        assert(backoff_doublings(q) == 0 && two_to(0) == 1);
        let t = two_to(backoff_doublings(q));
        assert(w == step) by (nonlinear_arith)
            requires
                w == step * t,
                t == 1,
        ;
    }
    if q >= 32 {
        assert(backoff_doublings(q) == 5 && two_to(5) == 32);
        let t = two_to(backoff_doublings(q));
        assert(w == 32 * step) by (nonlinear_arith)
            requires
                w == step * t,
                t == 32,
        ;
    }
    if d < 5 && pow2(d) <= q < pow2(d + 1) {
        if d == 0 {
            assert(backoff_doublings(q) == 0);
        } else if d == 1 {
            assert(backoff_doublings(q) == 1);
        } else if d == 2 {
            assert(backoff_doublings(q) == 2);
        } else if d == 3 {
            assert(backoff_doublings(q) == 3);
        } else {
            assert(backoff_doublings(q) == 4);
        }
        assert(two_to(d) == pow2(d));
        let t = two_to(backoff_doublings(q));
        assert(w == step * pow2(d)) by (nonlinear_arith)
            requires
                w == step * t,
                t == pow2(d),
        ;
    }
}

proof fn lemma_shift_is_mul(s: u64, d: u64)
    requires
        d <= 5,
        s <= 0x07ff_ffff_ffff_ffff,
    ensures
        (s << d) as int == s * two_to(d as nat),
{
    reveal_with_fuel(two_to, 6);
    if d == 0 {
        assert(s << 0u64 == s) by (bit_vector);
        assert(s << d == s << 0u64);
        assert(two_to(0) == 1);
        assert((s << d) as int == s * two_to(d as nat));
    } else if d == 1 {
        assert(s << 1u64 == s * 2) by (bit_vector)
            requires
                s <= 0x07ff_ffff_ffff_ffff,
        ;
        assert(two_to(1) == 2);
        assert(s << d == s << 1u64);
        assert((s << d) as int == s * two_to(d as nat));
    } else if d == 2 {
        assert(s << 2u64 == s * 4) by (bit_vector)
            requires
                s <= 0x07ff_ffff_ffff_ffff,
        ;
        assert(two_to(2) == 4);
        assert(s << d == s << 2u64);
        assert((s << d) as int == s * two_to(d as nat));
    } else if d == 3 {
        assert(s << 3u64 == s * 8) by (bit_vector)
            requires
                s <= 0x07ff_ffff_ffff_ffff,
        ;
        assert(two_to(3) == 8);
        assert(s << d == s << 3u64);
        assert((s << d) as int == s * two_to(d as nat));
    } else if d == 4 {
        assert(s << 4u64 == s * 16) by (bit_vector)
            requires
                s <= 0x07ff_ffff_ffff_ffff,
        ;
        assert(two_to(4) == 16);
        assert(s << d == s << 4u64);
        assert((s << d) as int == s * two_to(d as nat));
    } else {
        assert(s << 5u64 == s * 32) by (bit_vector)
            requires
                s <= 0x07ff_ffff_ffff_ffff,
        ;
        assert(two_to(5) == 32);
        assert(s << d == s << 5u64);
        assert((s << d) as int == s * two_to(d as nat));
    }
}

/// Law: the retry window is the step times `2^d`, where `d` grows with the
/// age and stops at 5 — so windows only grow as a letter ages, never drop
/// below the floor and never pass 32 floors (for any floor that leaves room
/// for the doubling).
pub proof fn law_retry_window_grows_and_caps(younger: u64, older: u64, min_backoff: u64)
    requires
        younger <= older,
        min_backoff <= 0x07ff_ffff_ffff_ffff,
    ensures
        retry_window_spec(younger, min_backoff) <= retry_window_spec(older, min_backoff),
        backoff_step(min_backoff) <= retry_window_spec(younger, min_backoff),
        retry_window_spec(older, min_backoff) <= 32 * backoff_step(min_backoff),
        retry_window_spec(older, min_backoff) as int
            == backoff_step(min_backoff) * two_to(backoff_doublings((older / backoff_step(min_backoff)) as nat)),
{
    reveal_with_fuel(two_to, 6);
    let step = backoff_step(min_backoff);
    let q1 = younger / step;
    let q2 = older / step;
    vstd::arithmetic::div_mod::lemma_div_is_ordered(younger as int, older as int, step as int);
    let d1 = backoff_doublings(q1 as nat);
    let d2 = backoff_doublings(q2 as nat);
    assert(d1 <= d2);
    lemma_shift_is_mul(step, d1 as u64);
    lemma_shift_is_mul(step, d2 as u64);
    assert(two_to(d1) <= two_to(d2));
    assert(step * two_to(d1) <= step * two_to(d2)) by (nonlinear_arith)
        requires
            two_to(d1) <= two_to(d2),
    ;
    assert(step * two_to(d2) <= 32 * step) by (nonlinear_arith)
        requires
            two_to(d2) <= 32,
    ;
    assert(step <= step * two_to(d1)) by (nonlinear_arith)
        requires
            1 <= two_to(d1),
    ;
}

/// When a `Pushing` letter's push began: its last push stamp, else its
/// creation time.
pub open spec fn push_started_at(m: Message) -> i128 {
    match m.last_push_at {
        Some(t) => t,
        None => m.created_at,
    }
}

/// Whole seconds from `from` to `to` (nanosecond stamps), rounded toward
/// zero.
pub open spec fn whole_secs_between(from: i128, to: i128) -> int {
    if to >= from {
        (to - from) / (NANOS_PER_SEC as int)
    } else {
        -((from - to) / (NANOS_PER_SEC as int))
    }
}

/// A letter stuck in `Pushing` past the timeout at `now`: its dispatcher
/// died between the claim and the outcome.
pub open spec fn stale_pushing(m: Message, now: i128) -> bool {
    m.status == MessageStatus::Pushing && whole_secs_between(push_started_at(m), now) > PUSHING_TIMEOUT_SECS
}

/// Stale pushing letters, as a filter.
pub open spec fn stale_pred(now: i128) -> spec_fn(Message) -> bool {
    |m: Message| stale_pushing(m, now)
}

/// `x` as whole seconds (rounded down) and the nanoseconds past them.
fn split_secs(x: i128) -> (r: (i128, i128))
    ensures
        x == r.0 * (NANOS_PER_SEC as int) + r.1,
        0 <= r.1 < NANOS_PER_SEC,
        (i128::MIN as int) / (NANOS_PER_SEC as int) - 1 <= r.0 <= (i128::MAX as int) / (NANOS_PER_SEC as int),
{
    let n: i128 = NANOS_PER_SEC;
    if x >= 0 {
        (x / n, x % n)
    } else {
        let y: i128 = -(x + 1);
        let q: i128 = y / n;
        let r: i128 = y % n;
        (-q - 1, n - 1 - r)
    }
}

/// Whole seconds from `from` to `to`, rounded toward zero.
pub fn secs_between(from: i128, to: i128) -> (r: i128)
    ensures
        r == whole_secs_between(from, to),
{
    let (a, r1) = split_secs(to);
    let (b, r2) = split_secs(from);
    let d: i128 = a - b;
    let e: i128 = r1 - r2;
    let ghost n: int = NANOS_PER_SEC as int;
    assert(to - from == d * n + e);
    if d > 0 {
        if e >= 0 {
            assert((d * n + e) / n == d) by (nonlinear_arith)
                requires n == 1_000_000_000, 0 <= e < n;
            d
        } else {
            assert((d * n + e) / n == d - 1) by (nonlinear_arith)
                requires n == 1_000_000_000, -n < e < 0;
            d - 1
        }
    } else if d == 0 {
        assert(e >= 0 ==> (e as int) / n == 0);
        assert(e < 0 ==> (-(e as int)) / n == 0);
        0
    } else {
        if e <= 0 {
            assert((-(d * n + e)) / n == -d) by (nonlinear_arith)
                requires n == 1_000_000_000, -n < e <= 0, d < 0;
            d
        } else {
            assert((-(d * n + e)) / n == -d - 1) by (nonlinear_arith)
                requires n == 1_000_000_000, 0 < e < n, d < 0;
            d + 1
        }
    }
}

/// Is this letter stuck in `Pushing` at `now`?
pub fn is_stale_pushing(m: &Message, now: i128) -> (r: bool)
    ensures
        r == stale_pushing(*m, now),
{
    let since = match m.last_push_at {
        Some(t) => t,
        None => m.created_at,
    };
    m.status == MessageStatus::Pushing && secs_between(since, now) > PUSHING_TIMEOUT_SECS
}

/// The letters to reclaim from `Pushing` back to queued, in listing order.
pub fn stale_pushing_letters(all: &[Message], now: i128) -> (r: Vec<Message>)
    ensures
        r@ == all@.filter(stale_pred(now)),
{
    let ghost pred = stale_pred(now);
    let mut out: Vec<Message> = Vec::new();
    let n = all.len();
    let mut i: usize = 0;
    while i < n
        invariant
            n == all@.len(),
            0 <= i <= n,
            pred == stale_pred(now),
            out@ == all@.take(i as int).filter(pred),
        decreases n - i,
    {
        proof {
            assert(all@.take(i + 1) =~= all@.take(i as int).push(all@[i as int]));
            all@.take(i as int).lemma_filter_push(all@[i as int], pred);
        }
        if is_stale_pushing(&all[i], now) {
            out.push(all[i].clone());
        }
        i = i + 1;
    }
    proof {
        assert(all@.take(n as int) =~= all@);
    }
    out
}

/// The reason a stale claim is released with.
pub open spec fn stale_reason_text(secs: nat) -> Seq<char> {
    "pushing stale "@ + decimal(secs) + "s (dispatcher died mid-push)"@
}

/// Why a stale `Pushing` letter is reclaimed at `now`.
pub fn stale_reason(m: &Message, now: i128) -> (r: String)
    requires
        stale_pushing(*m, now),
    ensures
        r@ == stale_reason_text(whole_secs_between(push_started_at(*m), now) as nat),
{
    let since = match m.last_push_at {
        Some(t) => t,
        None => m.created_at,
    };
    let secs = secs_between(since, now);
    let digits = decimal_text(secs as u128);
    join3("pushing stale ", digits.as_str(), "s (dispatcher died mid-push)")
}

/// How old a letter is at `now`, in nanoseconds (0 for a letter from the
/// future).
pub open spec fn age_nanos(m: Message, now: i128) -> nat {
    if now > m.created_at { (now - m.created_at) as nat } else { 0 }
}

/// A queued letter is due for a retry at `now`: a zero floor retries
/// everything; otherwise its age must cover its retry window.
pub open spec fn retry_due(m: Message, now: i128, min_backoff: u64) -> bool {
    &&& m.status == MessageStatus::Queued
    &&& (min_backoff == 0 || age_nanos(m, now) >= retry_window_spec(age_secs(m, now), min_backoff)
        * NANOS_PER_SEC)
}

/// A letter's age in whole seconds, as the window is computed (a `u64`,
/// saturating; a window never comes near it).
pub open spec fn age_secs(m: Message, now: i128) -> u64 {
    let s = age_nanos(m, now) / (NANOS_PER_SEC as nat);
    if s > u64::MAX { u64::MAX } else { s as u64 }
}

/// Letters due for a retry, as a filter.
pub open spec fn due_pred(now: i128, min_backoff: u64) -> spec_fn(Message) -> bool {
    |m: Message| retry_due(m, now, min_backoff)
}

/// Is this queued letter due for a retry at `now`?
pub fn is_retry_due(m: &Message, now: i128, min_backoff: u64) -> (r: bool)
    ensures
        r == retry_due(*m, now, min_backoff),
{
    if m.status != MessageStatus::Queued {
        return false;
    }
    if min_backoff == 0 {
        return true;
    }
    let c = m.created_at;
    let age: u128 = if now <= c {
        0
    } else if c >= 0 || now < 0 {
        (now - c) as u128
    } else {
        (now as u128) + ((-(c + 1)) as u128) + 1
    };
    assert(age == age_nanos(*m, now));
    let secs128: u128 = age / (NANOS_PER_SEC as u128);
    let secs: u64 = if secs128 > u64::MAX as u128 { u64::MAX } else { secs128 as u64 };
    let window = retry_window(secs, min_backoff);
    age >= (window as u128) * (NANOS_PER_SEC as u128)
}

/// The queued letters whose backoff window has elapsed, in listing order.
pub fn due_for_retry(all: &[Message], now: i128, min_backoff: u64) -> (r: Vec<Message>)
    ensures
        r@ == all@.filter(due_pred(now, min_backoff)),
{
    let ghost pred = due_pred(now, min_backoff);
    let mut out: Vec<Message> = Vec::new();
    let n = all.len();
    let mut i: usize = 0;
    while i < n
        invariant
            n == all@.len(),
            0 <= i <= n,
            pred == due_pred(now, min_backoff),
            out@ == all@.take(i as int).filter(pred),
        decreases n - i,
    {
        proof {
            assert(all@.take(i + 1) =~= all@.take(i as int).push(all@[i as int]));
            all@.take(i as int).lemma_filter_push(all@[i as int], pred);
        }
        if is_retry_due(&all[i], now, min_backoff) {
            out.push(all[i].clone());
        }
        i = i + 1;
    }
    proof {
        assert(all@.take(n as int) =~= all@);
    }
    out
}

/// The A2A `contextId` for a letter: `bus-t-` and its thread root, so
/// receivers keep reusing one session per thread.
pub fn context_id(all: &[Message], id: &str) -> (r: String)
    ensures
        r@ == "bus-t-"@ + root_walk(all@, id@, THREAD_WALK_LIMIT as nat),
{
    let root = Message::thread_root_id(all, id);
    join2("bus-t-", root.as_str())
}

/// Settle a claimed push at `now` through the state machine: a landed push
/// delivers the letter; a failed one goes back to queued (or dead once the
/// attempts are used up); a skipped one releases the claim with its reason.
pub fn settle_push(bus: &mut EventBus, receiver: &str, id: &str, outcome: &PushOutcome, now: i128) -> (r: Result<Message, BusError>)
    ensures
        same_roles(*old(bus), *final(bus)),
        match outcome {
            PushOutcome::Pushed => push_ok_outcome(old(bus).store(), final(bus).store(), receiver@, id@, now, r),
            PushOutcome::Failed { error } => push_failed_outcome(old(bus).store(), final(bus).store(), receiver@, id@, error@, r),
            PushOutcome::Skipped { reason } => reclaim_outcome(old(bus).store(), final(bus).store(), receiver@, id@, reason@, r),
        },
{
    match outcome {
        PushOutcome::Pushed => bus.push_succeeded_at(receiver, id, now),
        PushOutcome::Failed { error } => bus.push_failed(receiver, id, error.as_str()),
        PushOutcome::Skipped { reason } => bus.reclaim_stale_pushing(receiver, id, reason.as_str()),
    }
}

/// A push error that names an authentication failure.
pub open spec fn auth_error(e: Seq<char>) -> bool {
    contains_text(e, "401"@) || contains_text(e, "403"@) || contains_text(e, "Unauthorized"@)
}

/// A queued letter whose last push failed on auth: a stale registry
/// credential, not a network fault.
pub open spec fn stuck_on_auth(m: Message) -> bool {
    m.status == MessageStatus::Queued && (m.last_error matches Some(e) && auth_error(e@))
}

/// Letters stuck on auth, as a filter.
pub open spec fn auth_pred() -> spec_fn(Message) -> bool {
    |m: Message| stuck_on_auth(m)
}

/// Law: the auth watch picks out exactly the queued letters whose last push
/// error names an auth failure: any text holding `401`, `403` or
/// `Unauthorized`. A listing's letter is picked exactly when it is queued
/// with such an error, and every picked letter is one of the listing's.
pub proof fn law_auth_watch_spots_auth_failures(all: Seq<Message>, m: Message)
    ensures
        all.filter(auth_pred()).contains(m) <==> {
            &&& all.contains(m)
            &&& m.status == MessageStatus::Queued
            &&& m.last_error matches Some(e) && (contains_text(e@, "401"@) || contains_text(e@, "403"@)
                || contains_text(e@, "Unauthorized"@))
        },
{
    broadcast use vstd::seq_lib::group_filter_ensures;
    if all.contains(m) && stuck_on_auth(m) {
        let i = choose|i: int| 0 <= i < all.len() && all[i] == m;
        all.lemma_filter_contains(auth_pred(), i);
    }
    if all.filter(auth_pred()).contains(m) {
        all.lemma_filter_contains_rev(auth_pred(), m);
        let i = choose|i: int| 0 <= i < all.filter(auth_pred()).len() && all.filter(auth_pred())[i] == m;
        all.lemma_filter_pred(auth_pred(), i);
    }
}

/// Is this letter stuck on a push auth failure?
pub fn is_stuck_on_auth(m: &Message) -> (r: bool)
    ensures
        r == stuck_on_auth(*m),
{
    if m.status != MessageStatus::Queued {
        return false;
    }
    match &m.last_error {
        None => false,
        Some(e) => contains_exec(e.as_str(), "401") || contains_exec(e.as_str(), "403") || contains_exec(
            e.as_str(),
            "Unauthorized",
        ),
    }
}

/// The queued letters stuck on push auth, in listing order.
pub fn auth_stuck_letters(all: &[Message]) -> (r: Vec<Message>)
    ensures
        r@ == all@.filter(auth_pred()),
{
    let ghost pred = auth_pred();
    let mut out: Vec<Message> = Vec::new();
    let n = all.len();
    let mut i: usize = 0;
    while i < n
        invariant
            n == all@.len(),
            0 <= i <= n,
            pred == auth_pred(),
            out@ == all@.take(i as int).filter(pred),
        decreases n - i,
    {
        proof {
            assert(all@.take(i + 1) =~= all@.take(i as int).push(all@[i as int]));
            all@.take(i as int).lemma_filter_push(all@[i as int], pred);
        }
        if is_stuck_on_auth(&all[i]) {
            out.push(all[i].clone());
        }
        i = i + 1;
    }
    proof {
        assert(all@.take(n as int) =~= all@);
    }
    out
}

/// One tick of the auth watch's episode state: `(notified, notify_now)`.
/// No stuck letter ends the episode; the first tick of an episode notifies
/// the PM, later ticks of the same episode do not.
pub open spec fn watch_step_spec(notified: bool, stuck: bool) -> (bool, bool) {
    if !stuck { (false, false) } else { (true, !notified) }
}

/// Advance the watch's episode state; returns the new state and whether to
/// notify the PM now.
pub fn watch_step(notified: bool, stuck: bool) -> (r: (bool, bool))
    ensures
        r == watch_step_spec(notified, stuck),
{
    if !stuck {
        (false, false)
    } else {
        (true, !notified)
    }
}

/// Law: the PM hears of an auth episode once. However many ticks in a row
/// find stuck letters, only the first notifies; a clean tick re-arms it.
pub proof fn law_watch_notifies_once_per_episode(notified: bool)
    ensures
        !watch_step_spec(watch_step_spec(notified, true).0, true).1,
        watch_step_spec(watch_step_spec(notified, false).0, true).1,
{
}

/// What `format!("{:?}", peer)` writes for a peer entry: the derived
/// `Debug` rendering (struct and field names, each string quoted and escaped
/// as std's `Debug for str` does). Named, not written out.
pub uninterp spec fn peer_debug_text(name: Seq<char>, url: Seq<char>, token: Seq<char>, agents: Seq<Seq<char>>) -> Seq<char>;

/// `format!("{:?}", peer)` through the derived `Debug` impl; the text is
/// named by [`peer_debug_text`] over the peer's fields.
#[verifier::external_body]
fn peer_debug(p: &Peer) -> (r: String)
    ensures
        r@ == peer_debug_text(p.name@, p.url@, p.token@, crate::store::memory::texts_view(p.agents@)),
{
    format!("{:?}", p)
}

/// How a `bool` is written.
pub open spec fn bool_text(b: bool) -> Seq<char> {
    if b { "true"@ } else { "false"@ }
}

/// A probed peer pool is unwell when its bus is unreachable or our token
/// probe did not come back `ok`.
pub open spec fn peer_unwell(alive: bool, probe: Seq<char>) -> bool {
    !alive || probe != "ok"@
}

/// The summary line for one unwell peer pool.
pub open spec fn peer_line_text(p: PeerView, alive: bool, probe: Seq<char>) -> Seq<char> {
    "- "@ + peer_debug_text(p.name, p.url, p.token, p.agents) + ": reachable="@ + bool_text(alive)
        + " our_token_probe="@ + probe
}

/// The lines for the unwell reports among `reports` (peer, reachable,
/// token probe), in order.
pub open spec fn unwell_lines(reports: Seq<(Peer, bool, String)>) -> Seq<Seq<char>>
    decreases reports.len(),
{
    if reports.len() == 0 {
        Seq::empty()
    } else {
        let rest = unwell_lines(reports.drop_last());
        let r = reports.last();
        if peer_unwell(r.1, r.2@) {
            rest.push(peer_line_text(r.0@, r.1, r.2@))
        } else {
            rest
        }
    }
}

/// The peer-pool lines of the watch summary: one per probed pool that is
/// unreachable or whose token probe failed, in the order probed.
pub fn unwell_peer_lines(reports: &[(Peer, bool, String)]) -> (r: Vec<String>)
    ensures
        crate::store::memory::texts_view(r@) == unwell_lines(reports@),
{
    let mut out: Vec<String> = Vec::new();
    let n = reports.len();
    let mut i: usize = 0;
    proof {
        assert(reports@.take(0) =~= Seq::<(Peer, bool, String)>::empty());
        assert(crate::store::memory::texts_view(out@) =~= Seq::<Seq<char>>::empty());
    }
    while i < n
        invariant
            n == reports@.len(),
            0 <= i <= n,
            crate::store::memory::texts_view(out@) == unwell_lines(reports@.take(i as int)),
        decreases n - i,
    {
        proof {
            assert(reports@.take(i + 1).drop_last() =~= reports@.take(i as int));
            assert(reports@.take(i + 1).last() == reports@[i as int]);
        }
        let r = &reports[i];
        let ok = same_text(r.2.as_str(), "ok");
        if !r.1 || !ok {
            let dbg = peer_debug(&r.0);
            let reach = if r.1 { "true" } else { "false" };
            proof {
                reveal_strlit("true");
                reveal_strlit("false");
            }
            let a = join3("- ", dbg.as_str(), ": reachable=");
            let b = join3(a.as_str(), reach, " our_token_probe=");
            let line = join2(b.as_str(), r.2.as_str());
            let ghost before = out@;
            out.push(line);
            proof {
                crate::store::memory::lemma_texts_view_push(before, line);
            }
        }
        i = i + 1;
    }
    proof {
        assert(reports@.take(n as int) =~= reports@);
    }
    out
}

/// The watch's note to the PM.
pub open spec fn watch_summary_text(letters: nat, receivers: nat, peer_lines: Seq<Seq<char>>) -> Seq<char> {
    let head = "watch: "@ + decimal(letters) + " letter(s) stuck on push auth; registry re-armed for "@ + decimal(receivers)
        + " receiver(s)."@;
    if peer_lines.len() == 0 {
        head
    } else {
        head + "\nPeer pools:\n"@ + joined_lines(peer_lines)
    }
}

/// Lines joined with `\n`.
pub open spec fn joined_lines(lines: Seq<Seq<char>>) -> Seq<char>
    decreases lines.len(),
{
    if lines.len() == 0 {
        Seq::empty()
    } else if lines.len() == 1 {
        lines[0]
    } else {
        joined_lines(lines.drop_last()) + "\n"@ + lines.last()
    }
}

/// Write the watch's note: how many letters are stuck, how many receivers
/// were re-armed, and the peer pools that look unwell.
pub fn watch_summary(letters: u64, receivers: u64, peer_lines: &Vec<String>) -> (r: String)
    ensures
        r@ == watch_summary_text(letters as nat, receivers as nat, crate::store::memory::texts_view(peer_lines@)),
{
    let a = decimal_text(letters as u128);
    let b = decimal_text(receivers as u128);
    let head1 = join3("watch: ", a.as_str(), " letter(s) stuck on push auth; registry re-armed for ");
    let head = join3(head1.as_str(), b.as_str(), " receiver(s).");
    let ghost lines = crate::store::memory::texts_view(peer_lines@);
    if peer_lines.len() == 0 {
        return head;
    }
    let mut body = peer_lines[0].clone();
    let n = peer_lines.len();
    let mut i: usize = 1;
    proof {
        reveal_with_fuel(joined_lines, 2);
        assert(lines.take(1) =~= seq![lines[0]]);
    }
    while i < n
        invariant
            n == peer_lines@.len(),
            lines == crate::store::memory::texts_view(peer_lines@),
            1 <= i <= n,
            body@ == joined_lines(lines.take(i as int)),
        decreases n - i,
    {
        proof {
            assert(lines.take(i + 1).drop_last() =~= lines.take(i as int));
            assert(lines.take(i + 1).last() == peer_lines@[i as int]@);
        }
        body = join3(body.as_str(), "\n", peer_lines[i].as_str());
        i = i + 1;
    }
    proof {
        assert(lines.take(n as int) =~= lines);
    }
    join3(head.as_str(), "\nPeer pools:\n", body.as_str())
}

/// An entry the auth watch can re-arm: it pushes over A2A to a known URL.
pub open spec fn rearmable(via: DeliverVia) -> bool {
    via matches DeliverVia::A2a { url } && url@.len() > 0
}

/// Re-arm a receiver whose letters are stuck on push auth: re-register it
/// with its own stored fields, so the register re-push runs again. Only an
/// A2A entry with a URL can be re-armed; re-registering the same fields
/// leaves the registry as it was.
pub fn rearm_receiver(registry: &mut Registry, receiver: &str) -> (r: bool)
    ensures
        r == (old(registry).lookup_spec(receiver@) matches Some(e) && rearmable(e.deliver_via)),
        final(registry).entries() == old(registry).entries(),
{
    match registry.lookup(receiver) {
        None => false,
        Some(entry) => {
            let url_ok = match &entry.deliver_via {
                DeliverVia::A2a { url } => !url.as_str().is_empty(),
                _ => false,
            };
            if !url_ok {
                return false;
            }
            let ghost k = entry_index(registry.entries(), receiver@);
            let ghost before = registry.entries();
            proof {
                lemma_entry_index_range(before, receiver@);
            }
            let tags = clone_texts(&entry.tags);
            let via = entry.deliver_via.clone();
            let stored = registry.register_tagged(receiver, entry.description.as_str(), via, tags);
            proof {
                assert(k >= 0);
                assert(before[k] == entry@);
                assert(stored@ == entry@);
                assert(registry.entries() =~= before);
            }
            true
        },
    }
}

} // verus!
