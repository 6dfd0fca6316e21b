//! Admission control: each client may make a limited number of requests in any
//! window of time that ends now.

use vstd::prelude::*;

verus! {

/// `dashmap::DashMap`, a map that can be shared between threads.
#[verifier::external_type_specification]
#[verifier::external_body]
#[verifier::reject_recursive_types(K)]
#[verifier::reject_recursive_types(V)]
#[verifier::reject_recursive_types(S)]
pub struct ExDashMap<K, V, S>(dashmap::DashMap<K, V, S>);

/// `std::time::Instant`, a moment on the monotonic clock.
#[verifier::external_type_specification]
#[verifier::external_body]
pub struct ExInstant(std::time::Instant);

/// The time between two sweeps of a limiter, in seconds.
pub const SWEEP_PERIOD_SECS: u64 = 60;

/// What the map of a limiter holds: for each client key the times of its
/// admitted requests, in milliseconds on the limiter's clock.
pub uninterp spec fn limiter_records(map: dashmap::DashMap<String, Vec<u64>>) -> Map<Seq<char>, Seq<u64>>;

/// Whether a request admitted at `t` still counts at `now`: less than the
/// window has passed since.
pub open spec fn within_window(t: u64, now: u64, window_seconds: u64) -> bool {
    now - t < window_seconds * 1000
}

/// The test by which the times of a record are kept.
pub open spec fn window_pred(now: u64, window_seconds: u64) -> spec_fn(u64) -> bool {
    |t: u64| within_window(t, now, window_seconds)
}

/// The times of a record that still count at `now`, in their order.
pub open spec fn pruned(times: Seq<u64>, now: u64, window_seconds: u64) -> Seq<u64> {
    times.filter(window_pred(now, window_seconds))
}

/// The record of a client: the times held for its key, none where the key is unknown.
pub open spec fn record_of(m: Map<Seq<char>, Seq<u64>>, key: Seq<char>) -> Seq<u64> {
    if m.contains_key(key) {
        m[key]
    } else {
        Seq::empty()
    }
}

/// Whether a request at `now` is admitted: fewer than `max_requests` earlier
/// ones still count.
pub open spec fn admits(times: Seq<u64>, now: u64, window_seconds: u64, max_requests: u32) -> bool {
    pruned(times, now, window_seconds).len() < max_requests
}

/// The record after a request at `now`: the times that still count, and `now`
/// itself where the request was admitted.
pub open spec fn record_after(times: Seq<u64>, now: u64, window_seconds: u64, max_requests: u32) -> Seq<
    u64,
> {
    if admits(times, now, window_seconds, max_requests) {
        pruned(times, now, window_seconds).push(now)
    } else {
        pruned(times, now, window_seconds)
    }
}

/// The records after a sweep at `now`: each record keeps the times that still
/// count, and a record that keeps none is dropped.
pub open spec fn swept(m: Map<Seq<char>, Seq<u64>>, now: u64, window_seconds: u64) -> Map<
    Seq<char>,
    Seq<u64>,
> {
    Map::new(
        |k: Seq<char>| m.contains_key(k) && pruned(m[k], now, window_seconds).len() > 0,
        |k: Seq<char>| pruned(m[k], now, window_seconds),
    )
}

/// No records at all.
pub open spec fn no_records() -> Map<Seq<char>, Seq<u64>> {
    Map::empty()
}

/// A record whose times all still count is kept whole.
pub proof fn lemma_pruned_keeps_all(times: Seq<u64>, now: u64, window_seconds: u64)
    requires
        forall|i: int| 0 <= i < times.len() ==> within_window(#[trigger] times[i], now, window_seconds),
    ensures
        pruned(times, now, window_seconds) == times,
    decreases times.len(),
{
    reveal(Seq::filter);
    if times.len() > 0 {
        let head = times.drop_last();
        assert forall|i: int| 0 <= i < head.len() implies within_window(
            #[trigger] head[i],
            now,
            window_seconds,
        ) by {
            assert(head[i] == times[i]);
        }
        lemma_pruned_keeps_all(head, now, window_seconds);
        assert(within_window(times[times.len() - 1], now, window_seconds));
        assert(head.push(times.last()) =~= times);
    }
}

/// A record none of whose times still counts is emptied.
pub proof fn lemma_pruned_drops_all(times: Seq<u64>, now: u64, window_seconds: u64)
    requires
        forall|i: int|
            0 <= i < times.len() ==> !within_window(#[trigger] times[i], now, window_seconds),
    ensures
        pruned(times, now, window_seconds) == Seq::<u64>::empty(),
    decreases times.len(),
{
    reveal(Seq::filter);
    if times.len() > 0 {
        let head = times.drop_last();
        assert forall|i: int| 0 <= i < head.len() implies !within_window(
            #[trigger] head[i],
            now,
            window_seconds,
        ) by {
            assert(head[i] == times[i]);
        }
        lemma_pruned_drops_all(head, now, window_seconds);
        assert(!within_window(times[times.len() - 1], now, window_seconds));
    }
}

/// The record of one client after the requests at the times `nows`, from no
/// record at all.
pub open spec fn record_after_all(nows: Seq<u64>, window_seconds: u64, max_requests: u32) -> Seq<u64>
    decreases nows.len(),
{
    if nows.len() == 0 {
        Seq::empty()
    } else {
        record_after(
            record_after_all(nows.drop_last(), window_seconds, max_requests),
            nows.last(),
            window_seconds,
            max_requests,
        )
    }
}

/// Within one window the limit holds exactly: of the requests of one client
/// that all fall into one window, the first `max_requests` are admitted and
/// every later one is turned away.
pub proof fn lemma_limit_within_window(nows: Seq<u64>, window_seconds: u64, max_requests: u32, i: int)
    requires
        forall|a: int, b: int| 0 <= a <= b < nows.len() ==> nows[a] <= nows[b],
        nows.len() > 0,
        nows.last() - nows[0] < window_seconds * 1000,
        0 <= i < nows.len(),
    ensures
        admits(
            record_after_all(nows.subrange(0, i), window_seconds, max_requests),
            nows[i],
            window_seconds,
            max_requests,
        ) == (i < max_requests),
        record_after_all(nows.subrange(0, i), window_seconds, max_requests) == nows.subrange(
            0,
            if i < max_requests {
                i
            } else {
                max_requests as int
            },
        ),
    decreases i,
{
    let before = nows.subrange(0, i);
    let kept = if i < max_requests {
        i
    } else {
        max_requests as int
    };
    if i == 0 {
        assert(record_after_all(before, window_seconds, max_requests) =~= nows.subrange(0, 0));
    } else {
        lemma_limit_within_window(nows, window_seconds, max_requests, i - 1);
        assert(before.drop_last() =~= nows.subrange(0, i - 1));
        assert(before.last() == nows[i - 1]);
        let earlier = record_after_all(nows.subrange(0, i - 1), window_seconds, max_requests);
        assert forall|j: int| 0 <= j < earlier.len() implies within_window(
            #[trigger] earlier[j],
            nows[i - 1],
            window_seconds,
        ) by {
            assert(earlier[j] == nows[j]);
            assert(nows[0] <= nows[j] <= nows[i - 1] <= nows[nows.len() - 1]);
        }
        lemma_pruned_keeps_all(earlier, nows[i - 1], window_seconds);
        if i - 1 < max_requests {
            assert(earlier.push(nows[i - 1]) =~= nows.subrange(0, i));
        }
    }
    let record = record_after_all(before, window_seconds, max_requests);
    assert(record == nows.subrange(0, kept));
    assert forall|j: int| 0 <= j < record.len() implies within_window(
        #[trigger] record[j],
        nows[i],
        window_seconds,
    ) by {
        assert(record[j] == nows[j]);
        assert(nows[0] <= nows[j] <= nows[i] <= nows[nows.len() - 1]);
    }
    lemma_pruned_keeps_all(record, nows[i], window_seconds);
}

/// After a quiet window the client is admitted again: when every time in its
/// record lies a whole window back or more, and the limit is not zero, the
/// next request is admitted and is then the only one that counts.
pub proof fn lemma_window_refills(times: Seq<u64>, now: u64, window_seconds: u64, max_requests: u32)
    requires
        max_requests > 0,
        forall|i: int| 0 <= i < times.len() ==> now - #[trigger] times[i] >= window_seconds * 1000,
    ensures
        admits(times, now, window_seconds, max_requests),
        record_after(times, now, window_seconds, max_requests) == seq![now],
{
    lemma_pruned_drops_all(times, now, window_seconds);
    assert(Seq::<u64>::empty().push(now) =~= seq![now]);
}

/// `DashMap::new`: a map that holds nothing.
#[verifier::external_body]
fn records_new() -> (fresh: dashmap::DashMap<String, Vec<u64>>)
    ensures
        limiter_records(fresh) == no_records(),
{
    dashmap::DashMap::new()
}

/// `DashMap::remove`: takes the value of a key out of the map, if the key is
/// there; every other key is as before.
#[verifier::external_body]
fn records_take(map: &mut dashmap::DashMap<String, Vec<u64>>, key: &str) -> (r: Option<Vec<u64>>)
    ensures
        limiter_records(*final(map)) == limiter_records(*old(map)).remove(key@),
        match r {
            Some(times) => limiter_records(*old(map)).contains_key(key@) && times@
                == limiter_records(*old(map))[key@],
            None => !limiter_records(*old(map)).contains_key(key@),
        },
{
    map.remove(key).map(|(_, times)| times)
}

/// `DashMap::insert`: the key holds the value; every other key is as before.
#[verifier::external_body]
fn records_put(map: &mut dashmap::DashMap<String, Vec<u64>>, key: String, times: Vec<u64>)
    ensures
        limiter_records(*final(map)) == limiter_records(*old(map)).insert(key@, times@),
{
    map.insert(key, times);
}

/// `DashMap::retain` with the sweep of one record as its function: every
/// record is swept, and those that the function does not keep are dropped.
#[verifier::external_body]
fn records_sweep(map: &mut dashmap::DashMap<String, Vec<u64>>, now: u64, window_seconds: u64)
    ensures
        limiter_records(*final(map)) == swept(limiter_records(*old(map)), now, window_seconds),
{
    map.retain(|_, times| sweep_record(times, now, window_seconds));
}

/// `Instant::now`: the present moment, from which a limiter counts its time.
#[verifier::external_body]
pub(crate) fn clock_start() -> (start: std::time::Instant) {
    std::time::Instant::now()
}

/// `Instant::elapsed`, in whole milliseconds: the time since `start`.
#[verifier::external_body]
pub(crate) fn clock_millis(start: &std::time::Instant) -> (millis: u64) {
    start.elapsed().as_millis() as u64
}

/// Tells whether a request admitted at `t` still counts at `now`.
pub fn still_counts(t: u64, now: u64, window_seconds: u64) -> (r: bool)
    ensures
        r == within_window(t, now, window_seconds),
{
    if t >= now {
        window_seconds > 0 || t > now
    } else {
        ((now - t) as u128) < (window_seconds as u128) * 1000
    }
}

/// Drops from a record the times that no longer count at `now`.
pub fn prune(times: &mut Vec<u64>, now: u64, window_seconds: u64)
    ensures
        final(times)@ == pruned(old(times)@, now, window_seconds),
{
    let mut kept: Vec<u64> = Vec::new();
    let mut i: usize = 0;
    proof {
        reveal(Seq::filter);
        assert(times@.subrange(0, 0) =~= Seq::<u64>::empty());
    }
    while i < times.len()
        invariant
            i <= times.len(),
            times@ == old(times)@,
            kept@ == pruned(times@.subrange(0, i as int), now, window_seconds),
        decreases times.len() - i,
    {
        let t: u64 = times[i];
        proof {
            reveal(Seq::filter);
            let next = times@.subrange(0, i + 1);
            assert(next.drop_last() =~= times@.subrange(0, i as int));
            assert(next.last() == t);
            assert(window_pred(now, window_seconds)(t) == within_window(t, now, window_seconds));
        }
        if still_counts(t, now, window_seconds) {
            kept.push(t);
        }
        i = i + 1;
    }
    assert(times@.subrange(0, i as int) =~= times@);
    *times = kept;
}

/// Sweeps one record: drops the times that no longer count, and tells whether
/// any is left.
pub fn sweep_record(times: &mut Vec<u64>, now: u64, window_seconds: u64) -> (keep: bool)
    ensures
        final(times)@ == pruned(old(times)@, now, window_seconds),
        keep == (pruned(old(times)@, now, window_seconds).len() > 0),
{
    prune(times, now, window_seconds);
    times.len() > 0
}

/// Decides on a request at `now` against the record of its client, and brings
/// the record up to date.
pub fn decide(times: &mut Vec<u64>, now: u64, window_seconds: u64, max_requests: u32) -> (ok: bool)
    ensures
        ok == admits(old(times)@, now, window_seconds, max_requests),
        final(times)@ == record_after(old(times)@, now, window_seconds, max_requests),
{
    prune(times, now, window_seconds);
    if times.len() >= max_requests as usize {
        false
    } else {
        times.push(now);
        true
    }
}

/// The admission control in front of the pool.
pub struct RateLimiter {
    requests: dashmap::DashMap<String, Vec<u64>>,
    max_requests: u32,
    window_seconds: u64,
    started: std::time::Instant,
}

impl RateLimiter {
    /// The records that the limiter keeps, by client key.
    pub closed spec fn records(&self) -> Map<Seq<char>, Seq<u64>> {
        limiter_records(self.requests)
    }

    /// The number of requests that a client may make within one window.
    pub closed spec fn max_requests(&self) -> u32 {
        self.max_requests
    }

    /// The length of the window, in seconds.
    pub closed spec fn window_seconds(&self) -> u64 {
        self.window_seconds
    }

    /// A limiter without records, whose clock starts now.
    pub fn new(max_requests: u32, window_seconds: u64) -> (limiter: RateLimiter)
        ensures
            limiter.records() == no_records(),
            limiter.max_requests() == max_requests,
            limiter.window_seconds() == window_seconds,
    {
        RateLimiter { requests: records_new(), max_requests, window_seconds, started: clock_start() }
    }

    /// The time on the limiter's clock, in milliseconds since it was made.
    pub fn now(&self) -> (millis: u64) {
        clock_millis(&self.started)
    }

    /// Decides on a request of the client `ip` at the time `now`: it is
    /// admitted when fewer than the allowed number of its earlier requests lie
    /// within the window, and then counts itself. The client's record keeps
    /// only the times that still count.
    pub fn check_rate_limit_at(&mut self, ip: &str, now: u64) -> (ok: bool)
        ensures
            ok == admits(
                record_of(old(self).records(), ip@),
                now,
                old(self).window_seconds(),
                old(self).max_requests(),
            ),
            final(self).records() == old(self).records().insert(
                ip@,
                record_after(
                    record_of(old(self).records(), ip@),
                    now,
                    old(self).window_seconds(),
                    old(self).max_requests(),
                ),
            ),
            final(self).max_requests() == old(self).max_requests(),
            final(self).window_seconds() == old(self).window_seconds(),
    {
        let mut times: Vec<u64> = match records_take(&mut self.requests, ip) {
            Some(times) => times,
            None => Vec::new(),
        };
        let ok = decide(&mut times, now, self.window_seconds, self.max_requests);
        let ghost mid = self.records();
        records_put(&mut self.requests, ip.to_owned(), times);
        assert(mid.insert(ip@, times@) =~= old(self).records().insert(ip@, times@));
        ok
    }

    /// Decides on a request of the client `ip` that arrives now.
    pub fn check_rate_limit(&mut self, ip: &str) -> (ok: bool)
        ensures
            exists|now: u64|
                ok == #[trigger] admits(
                    record_of(old(self).records(), ip@),
                    now,
                    old(self).window_seconds(),
                    old(self).max_requests(),
                ) && final(self).records() == old(self).records().insert(
                    ip@,
                    record_after(
                        record_of(old(self).records(), ip@),
                        now,
                        old(self).window_seconds(),
                        old(self).max_requests(),
                    ),
                ),
            final(self).max_requests() == old(self).max_requests(),
            final(self).window_seconds() == old(self).window_seconds(),
    {
        let now = self.now();
        self.check_rate_limit_at(ip, now)
    }

    /// One sweep at the time `now`: every record keeps only the times that
    /// still count, and the records that keep none are dropped.
    pub fn cleanup_at(&mut self, now: u64)
        ensures
            final(self).records() == swept(old(self).records(), now, old(self).window_seconds()),
            final(self).max_requests() == old(self).max_requests(),
            final(self).window_seconds() == old(self).window_seconds(),
    {
        records_sweep(&mut self.requests, now, self.window_seconds);
    }

    /// One sweep now. The task that owns the limiter calls this once in every
    /// sweep period.
    pub fn cleanup(&mut self)
        ensures
            exists|now: u64|
                final(self).records() == #[trigger] swept(
                    old(self).records(),
                    now,
                    old(self).window_seconds(),
                ),
            final(self).max_requests() == old(self).max_requests(),
            final(self).window_seconds() == old(self).window_seconds(),
    {
        let now = self.now();
        self.cleanup_at(now);
    }
}

} // verus!
