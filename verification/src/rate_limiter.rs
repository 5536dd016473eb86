//! Sliding-window rate limiting keyed by client identity.
//!
//! Each key owns an ordered history of the timestamps (in milliseconds) of
//! its accepted requests. A check first evicts the entries that have left
//! the trailing window, then allows the request exactly when fewer than the
//! quota remain; an allowed request records its time, a rejected one leaves
//! no trace. Eviction is lazy and per key: only a key's own check touches
//! its history, and distinct keys never share quota.

use vstd::prelude::*;

verus! {

/// Length of the sliding window, in milliseconds.
pub const WINDOW_MILLIS: u64 = 60000;

/// Most accepted requests per key inside one window.
pub const MAX_REQUESTS: usize = 30;

/// Whether a stored timestamp still lies inside the window ending at `now`.
/// A timestamp not behind `now` counts as elapsed time zero, matching
/// saturating elapsed-time measurement.
pub open spec fn in_window(t: u64, now: u64) -> bool {
    t >= now || now - t < WINDOW_MILLIS
}

/// The timestamps that survive eviction at `now`, in their stored order.
pub open spec fn kept(ts: Seq<u64>, now: u64) -> Seq<u64>
    decreases ts.len(),
{
    if ts.len() == 0 {
        Seq::empty()
    } else {
        let rest = kept(ts.drop_last(), now);
        if in_window(ts.last(), now) {
            rest.push(ts.last())
        } else {
            rest
        }
    }
}

/// Whether a check at `now` against history `ts` is allowed.
pub open spec fn window_allows(ts: Seq<u64>, now: u64) -> bool {
    kept(ts, now).len() < MAX_REQUESTS
}

/// The history after a check at `now`: stale entries evicted, and `now`
/// appended exactly when the check was allowed.
pub open spec fn window_after(ts: Seq<u64>, now: u64) -> Seq<u64> {
    if window_allows(ts, now) {
        kept(ts, now).push(now)
    } else {
        kept(ts, now)
    }
}

struct RateEntry {
    key: String,
    times: Vec<u64>,
}

/// The rate-limiter state: one timestamp history per client key.
pub struct RateLimiter {
    entries: Vec<RateEntry>,
}

/// Index of the entry holding `key`, or `-1` when there is none.
spec fn find_key(es: Seq<RateEntry>, key: Seq<char>) -> int
    decreases es.len(),
{
    if es.len() == 0 {
        -1
    } else if es[0].key@ == key {
        0
    } else {
        let r = find_key(es.drop_first(), key);
        if r == -1 {
            -1
        } else {
            r + 1
        }
    }
}

proof fn lemma_find_key_is(es: Seq<RateEntry>, key: Seq<char>, r: int)
    requires
        0 <= r <= es.len(),
        forall|j: int| 0 <= j < r ==> es[j].key@ != key,
        r < es.len() ==> es[r].key@ == key,
    ensures
        find_key(es, key) == if r < es.len() {
            r
        } else {
            -1
        },
    decreases es.len(),
{
    if es.len() > 0 && es[0].key@ != key {
        lemma_find_key_is(es.drop_first(), key, r - 1);
    }
}

proof fn lemma_find_key_props(es: Seq<RateEntry>, key: Seq<char>)
    ensures
        -1 <= find_key(es, key) < es.len(),
        find_key(es, key) >= 0 ==> es[find_key(es, key)].key@ == key,
        find_key(es, key) == -1 ==> forall|j: int| 0 <= j < es.len() ==> es[j].key@ != key,
    decreases es.len(),
{
    if es.len() > 0 && es[0].key@ != key {
        lemma_find_key_props(es.drop_first(), key);
        let r = find_key(es.drop_first(), key);
        if r == -1 {
            assert forall|j: int| 0 <= j < es.len() implies es[j].key@ != key by {
                if j > 0 {
                    assert(es.drop_first()[j - 1].key@ != key);
                }
            }
        } else {
            assert(es[r + 1].key@ == es.drop_first()[r].key@);
        }
    }
}

proof fn lemma_find_key_push(es: Seq<RateEntry>, e: RateEntry, key: Seq<char>)
    ensures
        find_key(es.push(e), key) == if find_key(es, key) != -1 {
            find_key(es, key)
        } else if e.key@ == key {
            es.len() as int
        } else {
            -1
        },
    decreases es.len(),
{
    let p = es.push(e);
    if es.len() == 0 {
        assert(p[0] == e);
        assert(p.drop_first() =~= Seq::<RateEntry>::empty());
        assert(find_key(p.drop_first(), key) == -1);
    } else {
        lemma_find_key_push(es.drop_first(), e, key);
        lemma_find_key_props(es.drop_first(), key);
        lemma_find_key_props(es.drop_first().push(e), key);
        assert(p[0] == es[0]);
        assert(p.drop_first() =~= es.drop_first().push(e));
        assert(find_key(p.drop_first(), key) == find_key(es.drop_first().push(e), key));
    }
}

proof fn lemma_find_key_update(es: Seq<RateEntry>, i: int, e: RateEntry, key: Seq<char>)
    requires
        0 <= i < es.len(),
        es[i].key@ == e.key@,
    ensures
        find_key(es.update(i, e), key) == find_key(es, key),
    decreases es.len(),
{
    let es2 = es.update(i, e);
    if i == 0 {
        assert(es2[0].key@ == es[0].key@);
        assert(es2.drop_first() =~= es.drop_first());
    } else {
        assert(es2[0] == es[0]);
        assert(es2.drop_first() =~= es.drop_first().update(i - 1, e));
        lemma_find_key_update(es.drop_first(), i - 1, e, key);
    }
}

impl RateLimiter {
    /// The recorded timestamps of one key, oldest first; a key never seen
    /// has an empty history.
    pub closed spec fn times_for(self, key: Seq<char>) -> Seq<u64> {
        let i = find_key(self.entries@, key);
        if i == -1 {
            Seq::empty()
        } else {
            self.entries@[i].times@
        }
    }

    /// Well-formed state: one entry per key.
    pub closed spec fn wf(self) -> bool {
        forall|i: int, j: int|
            0 <= i < j < self.entries@.len() ==> self.entries@[i].key@ != self.entries@[j].key@
    }

    /// A fresh limiter with no recorded history.
    pub fn new() -> (r: RateLimiter)
        ensures
            r.wf(),
            forall|k: Seq<char>| r.times_for(k) == Seq::<u64>::empty(),
    {
        let r = RateLimiter { entries: Vec::new() };
        proof {
            assert forall|k: Seq<char>| r.times_for(k) == Seq::<u64>::empty() by {
                assert(find_key(r.entries@, k) == -1);
            }
        }
        r
    }
}

fn find_entry(entries: &Vec<RateEntry>, ip: &String) -> (r: Option<usize>)
    ensures
        match r {
            Option::Some(i) => {
                &&& i < entries@.len()
                &&& entries@[i as int].key@ == ip@
                &&& forall|j: int| 0 <= j < i ==> entries@[j].key@ != ip@
                &&& find_key(entries@, ip@) == i as int
            },
            Option::None => {
                &&& find_key(entries@, ip@) == -1
                &&& forall|j: int| 0 <= j < entries@.len() ==> entries@[j].key@ != ip@
            },
        },
{
    let n = entries.len();
    let mut i: usize = 0;
    while i < n
        invariant
            i <= n == entries@.len(),
            forall|j: int| 0 <= j < i ==> entries@[j].key@ != ip@,
        decreases n - i,
    {
        let e = &entries[i];
        if e.key == *ip {
            proof {
                lemma_find_key_is(entries@, ip@, i as int);
            }
            return Option::Some(i);
        }
        i = i + 1;
    }
    proof {
        lemma_find_key_is(entries@, ip@, n as int);
    }
    Option::None
}

fn in_window_exec(t: u64, now: u64) -> (r: bool)
    ensures
        r == in_window(t, now),
{
    t >= now || now - t < WINDOW_MILLIS
}

/// One rate-limit check for `ip` at time `now` (milliseconds): evicts the
/// key's stale history, then allows the request exactly when fewer than
/// `MAX_REQUESTS` accepted ones remain inside the window, recording it if
/// allowed. Other keys' histories are untouched.
pub fn check_rate_limit(limiter: &mut RateLimiter, ip: &String, now: u64) -> (allow: bool)
    requires
        old(limiter).wf(),
    ensures
        final(limiter).wf(),
        allow == window_allows(old(limiter).times_for(ip@), now),
        final(limiter).times_for(ip@) == window_after(old(limiter).times_for(ip@), now),
        forall|k: Seq<char>|
            k != ip@ ==> final(limiter).times_for(k) == old(limiter).times_for(k),
{
    let ghost old_times = old(limiter).times_for(ip@);
    let found = find_entry(&limiter.entries, ip);
    let idx: usize;
    match found {
        Option::Some(i) => {
            idx = i;
        },
        Option::None => {
            idx = limiter.entries.len();
            let entry = RateEntry { key: ip.clone(), times: Vec::new() };
            proof {
                lemma_find_key_push(old(limiter).entries@, entry, ip@);
            }
            limiter.entries.push(entry);
            proof {
                assert forall|k: Seq<char>| k != ip@ implies #[trigger] limiter.times_for(k)
                    == old(limiter).times_for(k) by {
                    lemma_find_key_push(old(limiter).entries@, entry, k);
                    lemma_find_key_props(old(limiter).entries@, k);
                }
            }
        },
    }
    let ghost mid = *limiter;
    proof {
        assert(mid.wf());
        assert(find_key(mid.entries@, ip@) == idx as int);
        assert(mid.entries@[idx as int].times@ == old_times);
        assert(forall|k: Seq<char>|
            k != ip@ ==> mid.times_for(k) == old(limiter).times_for(k));
    }
    let n_t = limiter.entries[idx].times.len();
    let mut fresh_times: Vec<u64> = Vec::new();
    let mut j: usize = 0;
    proof {
        assert(old_times.take(0) =~= Seq::<u64>::empty());
    }
    while j < n_t
        invariant
            j <= n_t,
            *limiter == mid,
            idx < limiter.entries@.len(),
            n_t == limiter.entries@[idx as int].times@.len(),
            old_times == limiter.entries@[idx as int].times@,
            fresh_times@ == kept(old_times.take(j as int), now),
        decreases n_t - j,
    {
        let t = limiter.entries[idx].times[j];
        proof {
            assert(old_times.take(j + 1).drop_last() =~= old_times.take(j as int));
            assert(old_times.take(j + 1).last() == old_times[j as int]);
        }
        if in_window_exec(t, now) {
            fresh_times.push(t);
        }
        j = j + 1;
    }
    proof {
        assert(old_times.take(n_t as int) =~= old_times);
    }
    let allow = fresh_times.len() < MAX_REQUESTS;
    if allow {
        fresh_times.push(now);
    }
    let entry = RateEntry { key: ip.clone(), times: fresh_times };
    proof {
        lemma_find_key_update(mid.entries@, idx as int, entry, ip@);
    }
    limiter.entries[idx] = entry;
    proof {
        assert(limiter.entries@ == mid.entries@.update(idx as int, entry));
        assert(limiter.times_for(ip@) == window_after(old_times, now));
        assert forall|k: Seq<char>| k != ip@ implies #[trigger] limiter.times_for(k)
            == mid.times_for(k) by {
            lemma_find_key_update(mid.entries@, idx as int, entry, k);
            lemma_find_key_props(mid.entries@, k);
            let r = find_key(mid.entries@, k);
            if r >= 0 {
                assert(mid.entries@[r].key@ == k);
                assert(r != idx as int);
            }
        }
        assert forall|i: int, j2: int|
            0 <= i < j2 < limiter.entries@.len() implies #[trigger] limiter.entries@[i].key@
            != #[trigger] limiter.entries@[j2].key@ by {
            assert(mid.entries@[i].key@ != mid.entries@[j2].key@);
            assert(limiter.entries@[i].key@ == mid.entries@[i].key@
                || (i == idx as int && limiter.entries@[i].key@ == ip@));
            assert(limiter.entries@[j2].key@ == mid.entries@[j2].key@
                || (j2 == idx as int && limiter.entries@[j2].key@ == ip@));
        }
    }
    allow
}

/// The history of one key after a run of successive checks at the given
/// call times, oldest call first.
pub open spec fn run_times(ts: Seq<u64>, calls: Seq<u64>) -> Seq<u64>
    decreases calls.len(),
{
    if calls.len() == 0 {
        ts
    } else {
        run_times(window_after(ts, calls[0]), calls.drop_first())
    }
}

/// Whether every check in a run of successive checks is allowed.
pub open spec fn all_allowed(ts: Seq<u64>, calls: Seq<u64>) -> bool
    decreases calls.len(),
{
    if calls.len() == 0 {
        true
    } else {
        window_allows(ts, calls[0]) && all_allowed(window_after(ts, calls[0]), calls.drop_first())
    }
}

proof fn lemma_kept_all_in_window(ts: Seq<u64>, now: u64)
    requires
        forall|i: int| 0 <= i < ts.len() ==> in_window(ts[i], now),
    ensures
        kept(ts, now) == ts,
    decreases ts.len(),
{
    if ts.len() > 0 {
        lemma_kept_all_in_window(ts.drop_last(), now);
        assert(ts.drop_last().push(ts.last()) =~= ts);
    }
}

proof fn lemma_burst_from(calls: Seq<u64>, k: int)
    requires
        0 < calls.len() <= MAX_REQUESTS,
        forall|i: int, j: int| 0 <= i <= j < calls.len() ==> calls[i] <= calls[j],
        in_window(calls[0], calls.last()),
        0 <= k <= calls.len(),
    ensures
        all_allowed(calls.take(k), calls.skip(k)),
        run_times(calls.take(k), calls.skip(k)) == calls,
    decreases calls.len() - k,
{
    if k == calls.len() {
        assert(calls.take(k) =~= calls);
        assert(calls.skip(k).len() == 0);
    } else {
        let pre = calls.take(k);
        let nowk = calls[k];
        assert forall|i: int| 0 <= i < pre.len() implies in_window(pre[i], nowk) by {
            assert(pre[i] == calls[i]);
            if calls[i] < nowk {
                assert(calls[0] <= calls[i]);
                assert(nowk <= calls.last());
                assert(in_window(calls[0], calls.last()));
            }
        }
        lemma_kept_all_in_window(pre, nowk);
        assert(window_allows(pre, nowk));
        assert(window_after(pre, nowk) =~= calls.take(k + 1));
        lemma_burst_from(calls, k + 1);
        assert(calls.skip(k).drop_first() =~= calls.skip(k + 1));
        assert(calls.skip(k)[0] == calls[k]);
    }
}

/// Law: a key with no history that issues at most `MAX_REQUESTS` requests,
/// at nondecreasing times whose oldest still lies inside the window at the
/// newest, has every one of them allowed, and its history then holds
/// exactly those times.
pub proof fn lemma_burst_allowed(calls: Seq<u64>)
    requires
        0 < calls.len() <= MAX_REQUESTS,
        forall|i: int, j: int| 0 <= i <= j < calls.len() ==> calls[i] <= calls[j],
        in_window(calls[0], calls.last()),
    ensures
        all_allowed(Seq::empty(), calls),
        run_times(Seq::empty(), calls) == calls,
{
    lemma_burst_from(calls, 0);
    assert(calls.take(0) =~= Seq::<u64>::empty());
    assert(calls.skip(0) =~= calls);
}

/// Law: the next request beyond a full window is rejected: after
/// `MAX_REQUESTS` accepted requests, one more check at a time at which the
/// oldest of them is still inside the window is refused.
pub proof fn lemma_burst_then_limit(calls: Seq<u64>, extra: u64)
    requires
        calls.len() == MAX_REQUESTS,
        forall|i: int, j: int| 0 <= i <= j < calls.len() ==> calls[i] <= calls[j],
        calls.last() <= extra,
        in_window(calls[0], extra),
    ensures
        all_allowed(Seq::empty(), calls),
        !window_allows(run_times(Seq::empty(), calls), extra),
{
    assert(in_window(calls[0], calls.last())) by {
        if calls[0] < calls.last() {
            assert(in_window(calls[0], extra));
        }
    }
    lemma_burst_allowed(calls);
    assert forall|i: int| 0 <= i < calls.len() implies in_window(calls[i], extra) by {
        if calls[i] < extra {
            assert(calls[0] <= calls[i]);
        }
    }
    lemma_kept_all_in_window(calls, extra);
}

proof fn lemma_window_monotone(t: u64, now1: u64, now2: u64)
    requires
        now1 <= now2,
        in_window(t, now2),
    ensures
        in_window(t, now1),
{
}

proof fn lemma_kept_compose(ts: Seq<u64>, now1: u64, now2: u64)
    requires
        now1 <= now2,
    ensures
        kept(kept(ts, now1), now2) == kept(ts, now2),
    decreases ts.len(),
{
    if ts.len() > 0 {
        lemma_kept_compose(ts.drop_last(), now1, now2);
        let k1 = kept(ts.drop_last(), now1);
        if in_window(ts.last(), now1) {
            assert(kept(ts, now1) == k1.push(ts.last()));
            assert(k1.push(ts.last()).drop_last() =~= k1);
        } else {
            if in_window(ts.last(), now2) {
                lemma_window_monotone(ts.last(), now1, now2);
            }
        }
    }
}

/// Law: a rejected attempt leaves no trace: after a rejection, any later
/// check sees exactly the history, the verdict and the follow-on history it
/// would have seen had the rejected attempt never been made.
pub proof fn lemma_rejection_leaves_no_trace(ts: Seq<u64>, now1: u64, now2: u64)
    requires
        now1 <= now2,
        !window_allows(ts, now1),
    ensures
        window_after(ts, now1) == kept(ts, now1),
        window_allows(window_after(ts, now1), now2) == window_allows(ts, now2),
        window_after(window_after(ts, now1), now2) == window_after(ts, now2),
{
    lemma_kept_compose(ts, now1, now2);
}

proof fn lemma_kept_stale_head(ts: Seq<u64>, now: u64)
    requires
        ts.len() > 0,
        !in_window(ts[0], now),
    ensures
        kept(ts, now).len() < ts.len(),
    decreases ts.len(),
{
    if ts.len() == 1 {
        assert(ts.last() == ts[0]);
        assert(kept(ts.drop_last(), now) =~= Seq::<u64>::empty());
        assert(kept(ts, now).len() == 0);
    } else {
        assert(ts.drop_last()[0] == ts[0]);
        lemma_kept_stale_head(ts.drop_last(), now);
    }
}

proof fn lemma_kept_in_window(ts: Seq<u64>, now: u64)
    ensures
        forall|i: int| 0 <= i < kept(ts, now).len() ==> in_window(kept(ts, now)[i], now),
    decreases ts.len(),
{
    if ts.len() > 0 {
        lemma_kept_in_window(ts.drop_last(), now);
        let rest = kept(ts.drop_last(), now);
        if in_window(ts.last(), now) {
            assert forall|i: int| 0 <= i < kept(ts, now).len() implies in_window(
                kept(ts, now)[i],
                now,
            ) by {
                if i < rest.len() {
                    assert(kept(ts, now)[i] == rest[i]);
                } else {
                    assert(kept(ts, now)[i] == ts.last());
                }
            }
        }
    }
}

/// Law: a stale oldest entry frees a slot: when a full history's oldest
/// timestamp has left the window, the key's next check evicts it and is
/// allowed, and everything still stored lies inside the window.
pub proof fn lemma_stale_eviction_frees_slot(ts: Seq<u64>, now: u64)
    requires
        ts.len() == MAX_REQUESTS,
        !in_window(ts[0], now),
    ensures
        kept(ts, now).len() < MAX_REQUESTS,
        window_allows(ts, now),
        forall|i: int| 0 <= i < kept(ts, now).len() ==> in_window(kept(ts, now)[i], now),
{
    lemma_kept_stale_head(ts, now);
    lemma_kept_in_window(ts, now);
}

} // verus!
