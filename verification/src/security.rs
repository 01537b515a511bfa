//! Request governance: a sliding-window rate limiter and a one-time,
//! expiring token store. Both are explicit service objects constructed at
//! startup; the caller supplies the current time in milliseconds, so every
//! decision is a function of the service state and its arguments.

use vstd::prelude::*;
use rand::Rng;

verus! {

/// Length of the admission window, in milliseconds.
pub const RATE_LIMIT_WINDOW_MS: u64 = 60000;

/// Events admitted per identifier within one window.
pub const MAX_REQUESTS_PER_WINDOW: usize = 60;

/// Lifetime of an issued token, in milliseconds.
pub const CSRF_TOKEN_EXPIRY_MS: u64 = 3600000;

// --- association sequences keyed by strings ---

/// Some pair of `s` carries key `k`.
pub open spec fn has_key<T>(s: Seq<(Seq<char>, T)>, k: Seq<char>) -> bool {
    exists|i: int| 0 <= i < s.len() && (#[trigger] s[i].0) == k
}

pub open spec fn index_of_key<T>(s: Seq<(Seq<char>, T)>, k: Seq<char>) -> int {
    choose|i: int| 0 <= i < s.len() && (#[trigger] s[i].0) == k
}

/// The finite map an association sequence denotes.
pub open spec fn assoc_map<T>(s: Seq<(Seq<char>, T)>) -> Map<Seq<char>, T> {
    Map::new(|k: Seq<char>| has_key(s, k), |k: Seq<char>| s[index_of_key(s, k)].1)
}

/// No two pairs of `s` carry the same key.
pub open spec fn distinct_keys<T>(s: Seq<(Seq<char>, T)>) -> bool {
    forall|i: int, j: int|
        0 <= i < j < s.len() ==> (#[trigger] s[i].0) != (#[trigger] s[j].0)
}

proof fn lemma_assoc_lookup<T>(s: Seq<(Seq<char>, T)>, i: int)
    requires
        distinct_keys(s),
        0 <= i < s.len(),
    ensures
        assoc_map(s).contains_key(s[i].0),
        assoc_map(s)[s[i].0] == s[i].1,
{
    assert(has_key(s, s[i].0));
    let j = index_of_key(s, s[i].0);
    assert(s[j].0 == s[i].0);
    assert(j == i);
}

proof fn lemma_assoc_push<T>(s: Seq<(Seq<char>, T)>, k: Seq<char>, v: T)
    requires
        distinct_keys(s),
        !has_key(s, k),
    ensures
        distinct_keys(s.push((k, v))),
        assoc_map(s.push((k, v))) == assoc_map(s).insert(k, v),
{
    let t = s.push((k, v));
    assert forall|i: int, j: int| 0 <= i < j < t.len() implies (#[trigger] t[i].0) != (
    #[trigger] t[j].0) by {
        if j < s.len() {
        } else {
            assert(t[i] == s[i]);
            assert(t[j] == (k, v));
        }
    }
    assert forall|q: Seq<char>| #[trigger] has_key(t, q) implies has_key(s, q) || q == k by {
        let i = choose|i: int| 0 <= i < t.len() && (#[trigger] t[i].0) == q;
        if i < s.len() {
            assert(s[i].0 == q);
        }
    }
    assert forall|q: Seq<char>| has_key(s, q) implies #[trigger] has_key(t, q) by {
        let i = choose|i: int| 0 <= i < s.len() && (#[trigger] s[i].0) == q;
        assert(t[i].0 == q);
    }
    assert(has_key(t, k)) by {
        assert(t[s.len() as int].0 == k);
    }
    assert forall|q: Seq<char>| #[trigger] has_key(t, q) implies assoc_map(t)[q] == assoc_map(
        s,
    ).insert(k, v)[q] by {
        let i = index_of_key(t, q);
        assert(0 <= i < t.len() && t[i].0 == q);
        if q == k {
            assert forall|j: int| 0 <= j < s.len() implies (#[trigger] t[j].0) != k by {
                assert(t[j] == s[j]);
                assert(!has_key(s, k));
            }
            assert(i == s.len());
            assert(assoc_map(t)[q] == v);
        } else {
            assert(i < s.len());
            assert(t[i] == s[i]);
            assert(has_key(s, q));
            let j = index_of_key(s, q);
            assert(s[j].0 == q);
            assert(j == i);
            assert(assoc_map(t)[q] == s[i].1);
            assert(assoc_map(s)[q] == s[i].1);
        }
    }
    assert(assoc_map(t) =~= assoc_map(s).insert(k, v));
}

proof fn lemma_assoc_remove<T>(s: Seq<(Seq<char>, T)>, i: int)
    requires
        distinct_keys(s),
        0 <= i < s.len(),
    ensures
        distinct_keys(s.remove(i)),
        !has_key(s.remove(i), s[i].0),
        assoc_map(s.remove(i)) == assoc_map(s).remove(s[i].0),
{
    let t = s.remove(i);
    assert forall|a: int, b: int| 0 <= a < b < t.len() implies (#[trigger] t[a].0) != (
    #[trigger] t[b].0) by {
        let a0 = if a < i { a } else { a + 1 };
        let b0 = if b < i { b } else { b + 1 };
        assert(t[a] == s[a0]);
        assert(t[b] == s[b0]);
    }
    assert forall|j: int| 0 <= j < t.len() implies (#[trigger] t[j].0) != s[i].0 by {
        let j0 = if j < i { j } else { j + 1 };
        assert(t[j] == s[j0]);
        assert(j0 != i);
    }
    assert forall|q: Seq<char>| #[trigger] has_key(t, q) implies has_key(s, q) && q != s[i].0 by {
        let j = choose|j: int| 0 <= j < t.len() && (#[trigger] t[j].0) == q;
        let j0 = if j < i { j } else { j + 1 };
        assert(t[j] == s[j0]);
        assert(s[j0].0 == q);
    }
    assert forall|q: Seq<char>| has_key(s, q) && q != s[i].0 implies #[trigger] has_key(t, q) by {
        let j = choose|j: int| 0 <= j < s.len() && (#[trigger] s[j].0) == q;
        assert(j != i);
        let j1 = if j < i { j } else { j - 1 };
        assert(t[j1] == s[j]);
    }
    assert forall|q: Seq<char>| #[trigger] has_key(t, q) implies assoc_map(t)[q] == assoc_map(
        s,
    )[q] by {
        let j = index_of_key(t, q);
        assert(0 <= j < t.len() && t[j].0 == q);
        let j0 = if j < i { j } else { j + 1 };
        assert(t[j] == s[j0]);
        let l = index_of_key(s, q);
        assert(0 <= l < s.len() && s[l].0 == q);
        assert(l == j0);
    }
    assert(assoc_map(t) =~= assoc_map(s).remove(s[i].0));
}

// --- the sliding-window rate limiter ---

/// An event at `t` still falls inside the window that ends at `now`.
/// Events recorded ahead of `now` count as inside it.
pub open spec fn in_window(t: u64, now: u64) -> bool {
    now < t + RATE_LIMIT_WINDOW_MS
}

/// The events of `ts` still inside the window that ends at `now`.
pub open spec fn prune(ts: Seq<u64>, now: u64) -> Seq<u64> {
    ts.filter(|t: u64| in_window(t, now))
}

/// What one admission check decides: the successor state, and whether the
/// event is admitted. Events outside the window are dropped first; a full
/// window refuses without recording.
pub open spec fn check_spec(m: Map<Seq<char>, Seq<u64>>, id: Seq<char>, now: u64) -> (
    Map<Seq<char>, Seq<u64>>,
    bool,
) {
    if !m.contains_key(id) {
        (m.insert(id, seq![now]), true)
    } else {
        let p = prune(m[id], now);
        if p.len() >= MAX_REQUESTS_PER_WINDOW {
            (m.insert(id, p), false)
        } else {
            (m.insert(id, p.push(now)), true)
        }
    }
}

pub open spec fn records_view(s: Seq<(String, Vec<u64>)>) -> Seq<(Seq<char>, Seq<u64>)> {
    s.map_values(|p: (String, Vec<u64>)| (p.0@, p.1@))
}

/// No event list has grown past the per-window capacity.
pub open spec fn bounded_lists(s: Seq<(Seq<char>, Seq<u64>)>) -> bool {
    forall|i: int|
        0 <= i < s.len() ==> (#[trigger] s[i]).1.len() <= MAX_REQUESTS_PER_WINDOW
}

/// Per-identifier sliding-window admission control: at most
/// `MAX_REQUESTS_PER_WINDOW` events per identifier within
/// `RATE_LIMIT_WINDOW_MS`, pruned lazily at check time.
pub struct RateLimiter {
    records: Vec<(String, Vec<u64>)>,
}

impl View for RateLimiter {
    type V = Map<Seq<char>, Seq<u64>>;

    closed spec fn view(&self) -> Map<Seq<char>, Seq<u64>> {
        assoc_map(records_view(self.records@))
    }
}

impl RateLimiter {
    /// Well-formed: one record per identifier, and no event list over the
    /// per-window capacity. The lists' time order is not tracked: the
    /// caller injects the clock, and nothing here assumes it is monotone.
    pub closed spec fn wf(&self) -> bool {
        distinct_keys(records_view(self.records@)) && bounded_lists(records_view(self.records@))
    }

    /// A well-formed limiter holds at most the per-window capacity of
    /// events for any identifier.
    pub proof fn lemma_event_lists_bounded(&self)
        requires
            self.wf(),
        ensures
            forall|k: Seq<char>|
                #[trigger] self@.contains_key(k) ==> self@[k].len() <= MAX_REQUESTS_PER_WINDOW,
    {
        let s = records_view(self.records@);
        assert forall|k: Seq<char>| #[trigger] self@.contains_key(k) implies self@[k].len()
            <= MAX_REQUESTS_PER_WINDOW by {
            let i = index_of_key(s, k);
            assert(0 <= i < s.len() && s[i].0 == k);
            assert(self@[k] == s[i].1);
        }
    }

    pub fn new() -> (r: Self)
        ensures
            r.wf(),
            r@ == Map::<Seq<char>, Seq<u64>>::empty(),
    {
        let r = RateLimiter { records: Vec::new() };
        proof {
            assert(r@ =~= Map::<Seq<char>, Seq<u64>>::empty());
        }
        r
    }

    fn find(&self, identifier: &str) -> (r: Option<usize>)
        ensures
            match r {
                Some(i) => i < self.records@.len() && self.records@[i as int].0@ == identifier@,
                None => !has_key(records_view(self.records@), identifier@),
            },
    {
        let n = self.records.len();
        let mut i: usize = 0;
        while i < n
            invariant
                0 <= i <= n,
                n == self.records@.len(),
                forall|j: int| 0 <= j < i ==> (#[trigger] self.records@[j]).0@ != identifier@,
            decreases n - i,
        {
            if crate::text::str_eq(self.records[i].0.as_str(), identifier) {
                return Some(i);
            }
            i += 1;
        }
        proof {
            assert forall|j: int| 0 <= j < records_view(self.records@).len() implies (
            #[trigger] records_view(self.records@)[j]).0 != identifier@ by {
                assert(records_view(self.records@)[j].0 == self.records@[j].0@);
            }
        }
        None
    }

    /// Checks and records one event for `identifier` at `now`. Admission
    /// first drops events outside the window; a full window refuses
    /// without recording the attempt.
    pub fn check_rate_limit(&mut self, identifier: &str, now: u64) -> (r: Result<(), String>)
        requires
            old(self).wf(),
        ensures
            final(self).wf(),
            final(self)@ == check_spec(old(self)@, identifier@, now).0,
            (r is Ok) == check_spec(old(self)@, identifier@, now).1,
            r matches Err(e) ==> e@ == "Rate limit exceeded"@,
    {
        let ghost s0 = records_view(self.records@);
        match self.find(identifier) {
            Some(i) => {
                proof {
                    lemma_assoc_lookup(s0, i as int);
                    lemma_assoc_remove(s0, i as int);
                }
                let pair = self.records.remove(i);
                proof {
                    assert(records_view(self.records@) =~~= s0.remove(i as int));
                }
                let key = pair.0;
                let pruned = prune_times(&pair.1, now);
                proof {
                    assert(pair.1@ == s0[i as int].1);
                }
                if pruned.len() >= MAX_REQUESTS_PER_WINDOW {
                    proof {
                        lemma_assoc_push(records_view(self.records@), key@, pruned@);
                    }
                    let ghost target = assoc_map(s0).insert(identifier@, pruned@);
                    self.records.push((key, pruned));
                    proof {
                        assert(records_view(self.records@) =~~= s0.remove(i as int).push(
                            (identifier@, check_spec(assoc_map(s0), identifier@, now).0[identifier@]),
                        ));
                        assert(self@ =~= target);
                        assert(check_spec(assoc_map(s0), identifier@, now).0 =~= target);
                        let rv = records_view(self.records@);
                        assert forall|j: int| 0 <= j < rv.len() implies (#[trigger] rv[j]).1.len()
                            <= MAX_REQUESTS_PER_WINDOW by {
                            if j < rv.len() - 1 {
                                let j0 = if j < i as int { j } else { j + 1 };
                                assert(rv[j] == s0[j0]);
                            }
                        }
                    }
                    Err(String::from_str("Rate limit exceeded"))
                } else {
                    let mut pruned = pruned;
                    pruned.push(now);
                    proof {
                        lemma_assoc_push(records_view(self.records@), key@, pruned@);
                    }
                    let ghost target = assoc_map(s0).insert(identifier@, pruned@);
                    self.records.push((key, pruned));
                    proof {
                        assert(records_view(self.records@) =~~= s0.remove(i as int).push(
                            (identifier@, prune(s0[i as int].1, now).push(now)),
                        ));
                        assert(self@ =~= target);
                        assert(check_spec(assoc_map(s0), identifier@, now).0 =~= target);
                        let rv = records_view(self.records@);
                        assert forall|j: int| 0 <= j < rv.len() implies (#[trigger] rv[j]).1.len()
                            <= MAX_REQUESTS_PER_WINDOW by {
                            if j < rv.len() - 1 {
                                let j0 = if j < i as int { j } else { j + 1 };
                                assert(rv[j] == s0[j0]);
                            }
                        }
                    }
                    Ok(())
                }
            },
            None => {
                let key = identifier.to_owned();
                let mut ts: Vec<u64> = Vec::new();
                ts.push(now);
                proof {
                    lemma_assoc_push(s0, key@, ts@);
                    assert(ts@ =~= seq![now]);
                }
                self.records.push((key, ts));
                proof {
                    assert(records_view(self.records@) =~~= s0.push((identifier@, seq![now])));
                    assert(self@ =~= assoc_map(s0).insert(identifier@, seq![now]));
                    let rv = records_view(self.records@);
                    assert forall|j: int| 0 <= j < rv.len() implies (#[trigger] rv[j]).1.len()
                        <= MAX_REQUESTS_PER_WINDOW by {
                        if j < rv.len() - 1 {
                            assert(rv[j] == s0[j]);
                        }
                    }
                }
                Ok(())
            },
        }
    }

    /// Drops identifiers whose event list is empty once pruned, bounding
    /// memory under churn; surviving lists are pruned in place.
    pub fn cleanup_rate_limits(&mut self, now: u64)
        requires
            old(self).wf(),
        ensures
            final(self).wf(),
            forall|k: Seq<char>|
                final(self)@.contains_key(k) <==> (old(self)@.contains_key(k) && prune(
                    old(self)@[k],
                    now,
                ).len() > 0),
            forall|k: Seq<char>|
                #[trigger] final(self)@.contains_key(k) ==> final(self)@[k] == prune(
                    old(self)@[k],
                    now,
                ),
    {
        let ghost s0 = records_view(self.records@);
        let n = self.records.len();
        let mut out: Vec<(String, Vec<u64>)> = Vec::new();
        let mut i: usize = 0;
        proof {
            assert(records_view(out@) =~= pruned_records(s0.take(0), now));
        }
        while i < n
            invariant
                0 <= i <= n,
                n == self.records@.len(),
                s0 == records_view(self.records@),
                records_view(out@) == pruned_records(s0.take(i as int), now),
            decreases n - i,
        {
            let ghost prevout = records_view(out@);
            let pruned = prune_times(&self.records[i].1, now);
            if pruned.len() > 0 {
                out.push((self.records[i].0.clone(), pruned));
            }
            i += 1;
            proof {
                assert(s0.take(i as int).drop_last() =~= s0.take(i as int - 1));
                assert(s0.take(i as int).last() == s0[i - 1]);
                assert(s0[i - 1] == (self.records@[i - 1].0@, self.records@[i - 1].1@));
                assert(records_view(out@) =~~= pruned_records(s0.take(i as int), now));
            }
        }
        proof {
            assert(s0.take(n as int) =~= s0);
            lemma_pruned_records(s0, now);
            lemma_pruned_records_bounded(s0, now);
        }
        self.records = out;
    }
}

proof fn lemma_pruned_records_bounded(s: Seq<(Seq<char>, Seq<u64>)>, now: u64)
    requires
        bounded_lists(s),
    ensures
        bounded_lists(pruned_records(s, now)),
    decreases s.len(),
{
    if s.len() == 0 {
    } else {
        let s1 = s.drop_last();
        assert(bounded_lists(s1)) by {
            assert(forall|i: int| 0 <= i < s1.len() ==> s1[i] == s[i]);
        }
        lemma_pruned_records_bounded(s1, now);
        let rest = pruned_records(s1, now);
        let p = prune(s.last().1, now);
        s.last().1.lemma_filter_len(|t: u64| in_window(t, now));
        if p.len() > 0 {
            assert forall|i: int| 0 <= i < pruned_records(s, now).len() implies (
            #[trigger] pruned_records(s, now)[i]).1.len() <= MAX_REQUESTS_PER_WINDOW by {
                if i < rest.len() {
                    assert(pruned_records(s, now)[i] == rest[i]);
                } else {
                    assert(pruned_records(s, now)[i] == (s.last().0, p));
                }
            }
        }
    }
}

/// The association pairs that survive pruning at `now`, with their event
/// lists pruned.
pub open spec fn pruned_records(s: Seq<(Seq<char>, Seq<u64>)>, now: u64) -> Seq<
    (Seq<char>, Seq<u64>),
>
    decreases s.len(),
{
    if s.len() == 0 {
        s
    } else {
        let rest = pruned_records(s.drop_last(), now);
        let p = prune(s.last().1, now);
        if p.len() > 0 {
            rest.push((s.last().0, p))
        } else {
            rest
        }
    }
}

proof fn lemma_pruned_records(s: Seq<(Seq<char>, Seq<u64>)>, now: u64)
    requires
        distinct_keys(s),
    ensures
        distinct_keys(pruned_records(s, now)),
        forall|k: Seq<char>|
            has_key(pruned_records(s, now), k) <==> (has_key(s, k) && prune(
                assoc_map(s)[k],
                now,
            ).len() > 0),
        forall|k: Seq<char>|
            #[trigger] has_key(pruned_records(s, now), k) ==> assoc_map(pruned_records(s, now))[k]
                == prune(assoc_map(s)[k], now),
    decreases s.len(),
{
    if s.len() == 0 {
    } else {
        let s1 = s.drop_last();
        let rest = pruned_records(s1, now);
        let lastp = s.last();
        assert(distinct_keys(s1)) by {
            assert(forall|i: int| 0 <= i < s1.len() ==> s1[i] == s[i]);
        }
        lemma_pruned_records(s1, now);
        assert(!has_key(s1, lastp.0)) by {
            if has_key(s1, lastp.0) {
                let j = choose|j: int| 0 <= j < s1.len() && (#[trigger] s1[j].0) == lastp.0;
                assert(s[j].0 == s[s.len() - 1].0);
            }
        }
        assert(s =~= s1.push(lastp));
        lemma_assoc_push(s1, lastp.0, lastp.1);
        assert(assoc_map(s) == assoc_map(s1).insert(lastp.0, lastp.1));
        let p = prune(lastp.1, now);
        assert(!has_key(rest, lastp.0));
        let t = pruned_records(s, now);
        if p.len() > 0 {
            lemma_assoc_push(rest, lastp.0, p);
            assert(t == rest.push((lastp.0, p)));
            assert(assoc_map(t) == assoc_map(rest).insert(lastp.0, p));
            assert forall|k: Seq<char>| #[trigger] has_key(t, k) && k != lastp.0 implies has_key(
                rest,
                k,
            ) by {
                let j = choose|j: int| 0 <= j < t.len() && (#[trigger] t[j].0) == k;
                assert(j < rest.len());
                assert(t[j] == rest[j]);
            }
            assert forall|k: Seq<char>| has_key(rest, k) implies #[trigger] has_key(t, k) by {
                let j = choose|j: int| 0 <= j < rest.len() && (#[trigger] rest[j].0) == k;
                assert(t[j] == rest[j]);
            }
            assert forall|k: Seq<char>| has_key(s, k) && k != lastp.0 implies #[trigger] has_key(
                s1,
                k,
            ) by {
                let j = choose|j: int| 0 <= j < s.len() && (#[trigger] s[j].0) == k;
                assert(j < s1.len());
                assert(s1[j] == s[j]);
            }
            assert forall|k: Seq<char>| has_key(s1, k) implies #[trigger] has_key(s, k) by {
                let j = choose|j: int| 0 <= j < s1.len() && (#[trigger] s1[j].0) == k;
                assert(s[j] == s1[j]);
            }
            assert(has_key(t, lastp.0)) by {
                assert(t[t.len() - 1].0 == lastp.0);
            }
            assert(has_key(s, lastp.0)) by {
                assert(s[s.len() - 1].0 == lastp.0);
            }
            assert forall|k: Seq<char>|
                #[trigger] has_key(t, k) implies (has_key(s, k) && prune(assoc_map(s)[k], now).len()
                > 0) && assoc_map(t)[k] == prune(assoc_map(s)[k], now) by {
                if k == lastp.0 {
                    assert(assoc_map(s)[k] == lastp.1);
                    assert(assoc_map(t)[k] == p);
                } else {
                    assert(has_key(rest, k));
                    assert(assoc_map(t)[k] == assoc_map(rest)[k]);
                    assert(assoc_map(s)[k] == assoc_map(s1)[k]);
                }
            }
            assert forall|k: Seq<char>| (has_key(s, k) && prune(assoc_map(s)[k], now).len()
                > 0) implies #[trigger] has_key(t, k) by {
                if k != lastp.0 {
                    assert(has_key(s1, k));
                    assert(assoc_map(s1)[k] == assoc_map(s)[k]);
                    assert(has_key(rest, k));
                }
            }
        } else {
            assert(t == rest);
            assert forall|k: Seq<char>| has_key(s, k) && k != lastp.0 implies #[trigger] has_key(
                s1,
                k,
            ) by {
                let j = choose|j: int| 0 <= j < s.len() && (#[trigger] s[j].0) == k;
                assert(j < s1.len());
                assert(s1[j] == s[j]);
            }
            assert forall|k: Seq<char>| has_key(s1, k) implies #[trigger] has_key(s, k) by {
                let j = choose|j: int| 0 <= j < s1.len() && (#[trigger] s1[j].0) == k;
                assert(s[j] == s1[j]);
            }
            assert forall|k: Seq<char>|
                #[trigger] has_key(t, k) implies (has_key(s, k) && prune(assoc_map(s)[k], now).len()
                > 0) && assoc_map(t)[k] == prune(assoc_map(s)[k], now) by {
                assert(has_key(s1, k));
                assert(k != lastp.0);
                assert(has_key(s, k));
                assert(assoc_map(s)[k] == assoc_map(s1)[k]);
            }
            assert forall|k: Seq<char>| (has_key(s, k) && prune(assoc_map(s)[k], now).len()
                > 0) implies #[trigger] has_key(t, k) by {
                if k == lastp.0 {
                    assert(assoc_map(s)[k] == lastp.1);
                } else {
                    assert(has_key(s1, k));
                    assert(assoc_map(s1)[k] == assoc_map(s)[k]);
                }
            }
        }
    }
}

/// Keeps the events of `ts` that fall inside the window ending at `now`.
fn prune_times(ts: &Vec<u64>, now: u64) -> (r: Vec<u64>)
    ensures
        r@ == prune(ts@, now),
        r@.len() <= ts@.len(),
{
    let n = ts.len();
    let mut out: Vec<u64> = Vec::new();
    let mut i: usize = 0;
    proof {
        reveal(Seq::filter);
        assert(ts@.take(0) =~= Seq::<u64>::empty());
        assert(out@ =~= prune(ts@.take(0), now));
    }
    while i < n
        invariant
            0 <= i <= n,
            n == ts@.len(),
            out@ == prune(ts@.take(i as int), now),
            out@.len() <= i,
        decreases n - i,
    {
        let t = ts[i];
        let keep = t > now || now - t < RATE_LIMIT_WINDOW_MS;
        proof {
            assert(keep == in_window(t, now));
        }
        if keep {
            out.push(t);
        }
        i += 1;
        proof {
            reveal(Seq::filter);
            let tk = ts@.take(i as int);
            assert(tk.drop_last() =~= ts@.take(i as int - 1));
            assert(tk.last() == ts@[i - 1]);
            assert(tk.len() > 0);
            assert(prune(tk, now) == if in_window(ts@[i - 1], now) {
                prune(ts@.take(i as int - 1), now).push(ts@[i - 1])
            } else {
                prune(ts@.take(i as int - 1), now)
            });
        }
    }
    proof {
        assert(ts@.take(n as int) =~= ts@);
    }
    out
}

// --- the one-time token store ---

/// Tokens are drawn from the alphanumeric characters.
pub open spec fn is_token_char(c: char) -> bool {
    ('a' as u32 <= c as u32 && c as u32 <= 'z' as u32) || ('A' as u32 <= c as u32 && c as u32
        <= 'Z' as u32) || ('0' as u32 <= c as u32 && c as u32 <= '9' as u32)
}

pub open spec fn tokens_view(s: Seq<(String, u64)>) -> Seq<(Seq<char>, u64)> {
    s.map_values(|p: (String, u64)| (p.0@, p.1))
}

/// A token present in the store and issued less than the expiry ago is
/// valid; one recorded ahead of `now` counts as fresh.
pub open spec fn token_valid(m: Map<Seq<char>, u64>, token: Seq<char>, now: u64) -> bool {
    m.contains_key(token) && now < m[token] + CSRF_TOKEN_EXPIRY_MS
}

/// One-time, expiring token issuance and validation. A successful
/// validation consumes the token; an expired token is left in place for
/// the periodic sweep.
pub struct CsrfTokenStore {
    tokens: Vec<(String, u64)>,
}

impl View for CsrfTokenStore {
    type V = Map<Seq<char>, u64>;

    closed spec fn view(&self) -> Map<Seq<char>, u64> {
        assoc_map(tokens_view(self.tokens@))
    }
}

/// Relies on rand: sampling the thread-local generator through the
/// `Alphanumeric` distribution yields characters from `A-Z`, `a-z` and
/// `0-9`; thirty-two of them are taken.
#[verifier::external_body]
fn random_token() -> (t: String)
    ensures
        t@.len() == 32,
        forall|i: int| 0 <= i < t@.len() ==> is_token_char(#[trigger] t@[i]),
{
    rand::thread_rng().sample_iter(&rand::distributions::Alphanumeric).take(32).map(
        char::from,
    ).collect()
}

impl CsrfTokenStore {
    pub closed spec fn wf(&self) -> bool {
        distinct_keys(tokens_view(self.tokens@))
    }

    pub fn new() -> (r: Self)
        ensures
            r.wf(),
            r@ == Map::<Seq<char>, u64>::empty(),
    {
        let r = CsrfTokenStore { tokens: Vec::new() };
        proof {
            assert(r@ =~= Map::<Seq<char>, u64>::empty());
        }
        r
    }

    fn find(&self, token: &str) -> (r: Option<usize>)
        ensures
            match r {
                Some(i) => i < self.tokens@.len() && self.tokens@[i as int].0@ == token@,
                None => !has_key(tokens_view(self.tokens@), token@),
            },
    {
        let n = self.tokens.len();
        let mut i: usize = 0;
        while i < n
            invariant
                0 <= i <= n,
                n == self.tokens@.len(),
                forall|j: int| 0 <= j < i ==> (#[trigger] self.tokens@[j]).0@ != token@,
            decreases n - i,
        {
            if crate::text::str_eq(self.tokens[i].0.as_str(), token) {
                return Some(i);
            }
            i += 1;
        }
        proof {
            assert forall|j: int| 0 <= j < tokens_view(self.tokens@).len() implies (
            #[trigger] tokens_view(self.tokens@)[j]).0 != token@ by {
                assert(tokens_view(self.tokens@)[j].0 == self.tokens@[j].0@);
            }
        }
        None
    }

    /// Issues a fresh 32-character alphanumeric token and records its
    /// issue time.
    pub fn generate_csrf_token(&mut self, now: u64) -> (t: String)
        requires
            old(self).wf(),
        ensures
            final(self).wf(),
            final(self)@ == old(self)@.insert(t@, now),
            t@.len() == 32,
            forall|i: int| 0 <= i < t@.len() ==> is_token_char(#[trigger] t@[i]),
    {
        let t = random_token();
        let ghost s0 = tokens_view(self.tokens@);
        match self.find(t.as_str()) {
            Some(i) => {
                proof {
                    lemma_assoc_lookup(s0, i as int);
                    lemma_assoc_remove(s0, i as int);
                }
                let _ = self.tokens.remove(i);
                proof {
                    assert(tokens_view(self.tokens@) =~~= s0.remove(i as int));
                    lemma_assoc_push(tokens_view(self.tokens@), t@, now);
                }
                self.tokens.push((t.clone(), now));
                proof {
                    assert(tokens_view(self.tokens@) =~~= s0.remove(i as int).push((t@, now)));
                    assert(self@ =~= assoc_map(s0).insert(t@, now));
                }
            },
            None => {
                proof {
                    lemma_assoc_push(s0, t@, now);
                }
                self.tokens.push((t.clone(), now));
                proof {
                    assert(tokens_view(self.tokens@) =~~= s0.push((t@, now)));
                }
            },
        }
        t
    }

    /// Validates and, on success, consumes a token. A missing token and an
    /// expired one are both rejected; the expired one stays until swept.
    pub fn validate_csrf_token(&mut self, token: &str, now: u64) -> (r: bool)
        requires
            old(self).wf(),
        ensures
            final(self).wf(),
            r == token_valid(old(self)@, token@, now),
            final(self)@ == if r {
                old(self)@.remove(token@)
            } else {
                old(self)@
            },
    {
        let ghost s0 = tokens_view(self.tokens@);
        match self.find(token) {
            Some(i) => {
                proof {
                    lemma_assoc_lookup(s0, i as int);
                }
                let created = self.tokens[i].1;
                if created > now || now - created < CSRF_TOKEN_EXPIRY_MS {
                    proof {
                        lemma_assoc_remove(s0, i as int);
                    }
                    let _ = self.tokens.remove(i);
                    proof {
                        assert(tokens_view(self.tokens@) =~~= s0.remove(i as int));
                        assert(self@ =~= assoc_map(s0).remove(token@));
                    }
                    true
                } else {
                    false
                }
            },
            None => false,
        }
    }

    /// Drops every expired token; valid ones are kept untouched.
    pub fn cleanup_expired_csrf_tokens(&mut self, now: u64)
        requires
            old(self).wf(),
        ensures
            final(self).wf(),
            forall|k: Seq<char>|
                final(self)@.contains_key(k) <==> (old(self)@.contains_key(k) && now < old(
                    self,
                )@[k] + CSRF_TOKEN_EXPIRY_MS),
            forall|k: Seq<char>|
                #[trigger] final(self)@.contains_key(k) ==> final(self)@[k] == old(self)@[k],
    {
        let ghost s0 = tokens_view(self.tokens@);
        let n = self.tokens.len();
        let mut out: Vec<(String, u64)> = Vec::new();
        let mut i: usize = 0;
        proof {
            reveal(Seq::filter);
            assert(s0.take(0) =~= Seq::<(Seq<char>, u64)>::empty());
            assert(tokens_view(out@) =~= live_tokens(s0.take(0), now));
        }
        while i < n
            invariant
                0 <= i <= n,
                n == self.tokens@.len(),
                s0 == tokens_view(self.tokens@),
                tokens_view(out@) == live_tokens(s0.take(i as int), now),
            decreases n - i,
        {
            let created = self.tokens[i].1;
            let keep = created > now || now - created < CSRF_TOKEN_EXPIRY_MS;
            if keep {
                out.push((self.tokens[i].0.clone(), created));
            }
            i += 1;
            proof {
                reveal(Seq::filter);
                let tk = s0.take(i as int);
                assert(tk.drop_last() =~= s0.take(i as int - 1));
                assert(tk.last() == s0[i - 1]);
                assert(s0[i - 1] == (self.tokens@[i - 1].0@, self.tokens@[i - 1].1));
                assert(keep == (now < s0[i - 1].1 + CSRF_TOKEN_EXPIRY_MS));
                assert(live_tokens(tk, now) == if now < s0[i - 1].1 + CSRF_TOKEN_EXPIRY_MS {
                    live_tokens(s0.take(i as int - 1), now).push(s0[i - 1])
                } else {
                    live_tokens(s0.take(i as int - 1), now)
                });
                assert(tokens_view(out@) =~~= live_tokens(tk, now));
            }
        }
        proof {
            assert(s0.take(n as int) =~= s0);
            lemma_live_tokens(s0, now);
        }
        self.tokens = out;
    }
}

/// The stored tokens still inside their expiry window at `now`.
pub open spec fn live_tokens(s: Seq<(Seq<char>, u64)>, now: u64) -> Seq<(Seq<char>, u64)> {
    s.filter(|p: (Seq<char>, u64)| now < p.1 + CSRF_TOKEN_EXPIRY_MS)
}

proof fn lemma_live_tokens(s: Seq<(Seq<char>, u64)>, now: u64)
    requires
        distinct_keys(s),
    ensures
        distinct_keys(live_tokens(s, now)),
        forall|k: Seq<char>|
            has_key(live_tokens(s, now), k) <==> (has_key(s, k) && now < assoc_map(s)[k]
                + CSRF_TOKEN_EXPIRY_MS),
        forall|k: Seq<char>|
            #[trigger] has_key(live_tokens(s, now), k) ==> assoc_map(live_tokens(s, now))[k]
                == assoc_map(s)[k],
    decreases s.len(),
{
    reveal(Seq::filter);
    if s.len() == 0 {
    } else {
        let s1 = s.drop_last();
        let rest = live_tokens(s1, now);
        let lastp = s.last();
        assert(distinct_keys(s1)) by {
            assert(forall|i: int| 0 <= i < s1.len() ==> s1[i] == s[i]);
        }
        lemma_live_tokens(s1, now);
        assert(!has_key(s1, lastp.0)) by {
            if has_key(s1, lastp.0) {
                let j = choose|j: int| 0 <= j < s1.len() && (#[trigger] s1[j].0) == lastp.0;
                assert(s[j].0 == s[s.len() - 1].0);
            }
        }
        assert(s =~= s1.push(lastp));
        lemma_assoc_push(s1, lastp.0, lastp.1);
        assert(assoc_map(s) == assoc_map(s1).insert(lastp.0, lastp.1));
        assert(!has_key(rest, lastp.0));
        let t = live_tokens(s, now);
        assert forall|k: Seq<char>| has_key(s, k) && k != lastp.0 implies #[trigger] has_key(
            s1,
            k,
        ) by {
            let j = choose|j: int| 0 <= j < s.len() && (#[trigger] s[j].0) == k;
            assert(j < s1.len());
            assert(s1[j] == s[j]);
        }
        assert forall|k: Seq<char>| has_key(s1, k) implies #[trigger] has_key(s, k) by {
            let j = choose|j: int| 0 <= j < s1.len() && (#[trigger] s1[j].0) == k;
            assert(s[j] == s1[j]);
        }
        if now < lastp.1 + CSRF_TOKEN_EXPIRY_MS {
            assert(t == rest.push(lastp));
            lemma_assoc_push(rest, lastp.0, lastp.1);
            assert forall|k: Seq<char>| #[trigger] has_key(t, k) && k != lastp.0 implies has_key(
                rest,
                k,
            ) by {
                let j = choose|j: int| 0 <= j < t.len() && (#[trigger] t[j].0) == k;
                assert(j < rest.len());
                assert(t[j] == rest[j]);
            }
            assert forall|k: Seq<char>| has_key(rest, k) implies #[trigger] has_key(t, k) by {
                let j = choose|j: int| 0 <= j < rest.len() && (#[trigger] rest[j].0) == k;
                assert(t[j] == rest[j]);
            }
            assert(has_key(t, lastp.0)) by {
                assert(t[t.len() - 1].0 == lastp.0);
            }
            assert(has_key(s, lastp.0)) by {
                assert(s[s.len() - 1].0 == lastp.0);
            }
            assert forall|k: Seq<char>|
                #[trigger] has_key(t, k) implies (has_key(s, k) && now < assoc_map(s)[k]
                + CSRF_TOKEN_EXPIRY_MS) && assoc_map(t)[k] == assoc_map(s)[k] by {
                if k == lastp.0 {
                    assert(assoc_map(s)[k] == lastp.1);
                    assert(assoc_map(t)[k] == lastp.1);
                } else {
                    assert(has_key(rest, k));
                    assert(assoc_map(t)[k] == assoc_map(rest)[k]);
                    assert(assoc_map(s)[k] == assoc_map(s1)[k]);
                }
            }
            assert forall|k: Seq<char>| (has_key(s, k) && now < assoc_map(s)[k]
                + CSRF_TOKEN_EXPIRY_MS) implies #[trigger] has_key(t, k) by {
                if k != lastp.0 {
                    assert(has_key(s1, k));
                    assert(assoc_map(s1)[k] == assoc_map(s)[k]);
                    assert(has_key(rest, k));
                }
            }
        } else {
            assert(t == rest);
            assert forall|k: Seq<char>|
                #[trigger] has_key(t, k) implies (has_key(s, k) && now < assoc_map(s)[k]
                + CSRF_TOKEN_EXPIRY_MS) && assoc_map(t)[k] == assoc_map(s)[k] by {
                assert(has_key(s1, k));
                assert(k != lastp.0);
                assert(has_key(s, k));
                assert(assoc_map(s)[k] == assoc_map(s1)[k]);
            }
            assert forall|k: Seq<char>| (has_key(s, k) && now < assoc_map(s)[k]
                + CSRF_TOKEN_EXPIRY_MS) implies #[trigger] has_key(t, k) by {
                if k == lastp.0 {
                    assert(assoc_map(s)[k] == lastp.1);
                } else {
                    assert(has_key(s1, k));
                    assert(assoc_map(s1)[k] == assoc_map(s)[k]);
                }
            }
        }
    }
}

// --- security configuration ---

/// Per-process security settings handed to the governance services.
pub struct SecurityConfig {
    pub csrf_token: String,
    pub rate_limit_enabled: bool,
    pub max_requests_per_window: usize,
}

impl Default for SecurityConfig {
    /// The default configuration enables rate limiting at the fixed
    /// per-window capacity and carries no token yet; issue one through a
    /// `CsrfTokenStore`.
    fn default() -> (r: Self)
        ensures
            r.csrf_token@.len() == 0,
            r.rate_limit_enabled,
            r.max_requests_per_window == MAX_REQUESTS_PER_WINDOW,
    {
        SecurityConfig {
            csrf_token: String::new(),
            rate_limit_enabled: true,
            max_requests_per_window: MAX_REQUESTS_PER_WINDOW,
        }
    }
}

impl SecurityConfig {
    /// A configuration whose token was just issued by `store`.
    pub fn with_fresh_token(store: &mut CsrfTokenStore, now: u64) -> (r: Self)
        requires
            old(store).wf(),
        ensures
            final(store).wf(),
            final(store)@ == old(store)@.insert(r.csrf_token@, now),
            r.csrf_token@.len() == 32,
            r.rate_limit_enabled,
            r.max_requests_per_window == MAX_REQUESTS_PER_WINDOW,
    {
        let token = store.generate_csrf_token(now);
        SecurityConfig {
            csrf_token: token,
            rate_limit_enabled: true,
            max_requests_per_window: MAX_REQUESTS_PER_WINDOW,
        }
    }
}

// --- laws ---

/// An issued token validates exactly once: within the expiry window the
/// first validation succeeds, and once consumed the same token is
/// rejected at any time whatever.
pub proof fn lemma_token_single_use(
    m: Map<Seq<char>, u64>,
    token: Seq<char>,
    t_issue: u64,
    t_use: u64,
    t_again: u64,
)
    requires
        t_use < t_issue + CSRF_TOKEN_EXPIRY_MS,
    ensures
        token_valid(m.insert(token, t_issue), token, t_use),
        !token_valid(m.insert(token, t_issue).remove(token), token, t_again),
{
}

proof fn lemma_prune_all_in(ts: Seq<u64>, now: u64)
    requires
        forall|i: int| 0 <= i < ts.len() ==> in_window(#[trigger] ts[i], now),
    ensures
        prune(ts, now) == ts,
    decreases ts.len(),
{
    reveal(Seq::filter);
    if ts.len() == 0 {
        assert(prune(ts, now) =~= ts);
    } else {
        assert(forall|i: int| 0 <= i < ts.len() - 1 ==> ts.drop_last()[i] == ts[i]);
        lemma_prune_all_in(ts.drop_last(), now);
        assert(prune(ts, now) =~= ts);
    }
}

proof fn lemma_prune_all_out(ts: Seq<u64>, now: u64)
    requires
        forall|i: int| 0 <= i < ts.len() ==> !in_window(#[trigger] ts[i], now),
    ensures
        prune(ts, now).len() == 0,
    decreases ts.len(),
{
    reveal(Seq::filter);
    if ts.len() == 0 {
    } else {
        assert(forall|i: int| 0 <= i < ts.len() - 1 ==> ts.drop_last()[i] == ts[i]);
        lemma_prune_all_out(ts.drop_last(), now);
    }
}

/// The limiter state for `id` after the first `k` of the checks at
/// `times`, applied in order to `m`.
pub open spec fn state_after(
    m: Map<Seq<char>, Seq<u64>>,
    id: Seq<char>,
    times: Seq<u64>,
    k: int,
) -> Map<Seq<char>, Seq<u64>>
    decreases k,
{
    if k <= 0 {
        m
    } else {
        check_spec(state_after(m, id, times, k - 1), id, times[k - 1]).0
    }
}

/// Every one of the first `k` checks at `times` is admitted.
pub open spec fn ok_upto(m: Map<Seq<char>, Seq<u64>>, id: Seq<char>, times: Seq<u64>, k: int) -> bool
    decreases k,
{
    k <= 0 || (ok_upto(m, id, times, k - 1) && check_spec(
        state_after(m, id, times, k - 1),
        id,
        times[k - 1],
    ).1)
}

proof fn lemma_checks_fill(m: Map<Seq<char>, Seq<u64>>, id: Seq<char>, times: Seq<u64>, k: int)
    requires
        !m.contains_key(id),
        0 < times.len(),
        0 <= k <= times.len(),
        k <= MAX_REQUESTS_PER_WINDOW,
        forall|i: int, j: int| 0 <= i <= j < times.len() ==> times[i] <= times[j],
        times[times.len() - 1] < times[0] + RATE_LIMIT_WINDOW_MS,
    ensures
        state_after(m, id, times, k) == if k == 0 {
            m
        } else {
            m.insert(id, times.take(k))
        },
        ok_upto(m, id, times, k),
    decreases k,
{
    if k <= 0 {
    } else {
        lemma_checks_fill(m, id, times, k - 1);
        let prev = state_after(m, id, times, k - 1);
        if k == 1 {
            assert(check_spec(prev, id, times[0]).0 == m.insert(id, seq![times[0]]));
            assert(seq![times[0]] =~= times.take(1));
        } else {
            assert(prev == m.insert(id, times.take(k - 1)));
            assert(prev.contains_key(id));
            assert(prev[id] == times.take(k - 1));
            assert forall|i: int| 0 <= i < times.take(k - 1).len() implies in_window(
                #[trigger] times.take(k - 1)[i],
                times[k - 1],
            ) by {
                assert(times.take(k - 1)[i] == times[i]);
                assert(times[k - 1] <= times[times.len() - 1]);
                assert(times[0] <= times[i]);
            }
            lemma_prune_all_in(times.take(k - 1), times[k - 1]);
            assert(times.take(k - 1).len() == k - 1);
            assert(k - 1 < MAX_REQUESTS_PER_WINDOW);
            assert(times.take(k - 1).push(times[k - 1]) =~= times.take(k));
            assert(check_spec(prev, id, times[k - 1]).0 == prev.insert(id, times.take(k)));
            assert(m.insert(id, times.take(k - 1)).insert(id, times.take(k)) =~= m.insert(
                id,
                times.take(k),
            ));
        }
    }
}

/// The sliding window in action: from a state with no record for `id`,
/// every one of the first sixty checks inside one window is admitted, the
/// sixty-first inside the window is refused without being recorded, and a
/// later check clear of the window is admitted again.
pub proof fn lemma_rate_limit_window(
    m: Map<Seq<char>, Seq<u64>>,
    id: Seq<char>,
    times: Seq<u64>,
    later: u64,
)
    requires
        !m.contains_key(id),
        times.len() == MAX_REQUESTS_PER_WINDOW + 1,
        forall|i: int, j: int| 0 <= i <= j < times.len() ==> times[i] <= times[j],
        times[times.len() - 1] < times[0] + RATE_LIMIT_WINDOW_MS,
        forall|i: int| 0 <= i < times.len() ==> (#[trigger] times[i]) + RATE_LIMIT_WINDOW_MS
            <= later,
    ensures
        ok_upto(m, id, times, MAX_REQUESTS_PER_WINDOW as int),
        !check_spec(
            state_after(m, id, times, MAX_REQUESTS_PER_WINDOW as int),
            id,
            times[MAX_REQUESTS_PER_WINDOW as int],
        ).1,
        check_spec(
            check_spec(
                state_after(m, id, times, MAX_REQUESTS_PER_WINDOW as int),
                id,
                times[MAX_REQUESTS_PER_WINDOW as int],
            ).0,
            id,
            later,
        ).1,
{
    let cap = MAX_REQUESTS_PER_WINDOW as int;
    lemma_checks_fill(m, id, times, cap);
    let st = state_after(m, id, times, cap);
    assert(st == m.insert(id, times.take(cap)));
    assert(st[id] == times.take(cap));
    assert forall|i: int| 0 <= i < times.take(cap).len() implies in_window(
        #[trigger] times.take(cap)[i],
        times[cap],
    ) by {
        assert(times.take(cap)[i] == times[i]);
        assert(times[cap] <= times[times.len() - 1]);
        assert(times[0] <= times[i]);
    }
    lemma_prune_all_in(times.take(cap), times[cap]);
    assert(times.take(cap).len() == cap);
    assert(!check_spec(st, id, times[cap]).1);
    let st2 = check_spec(st, id, times[cap]).0;
    assert(st2 == st.insert(id, times.take(cap)));
    assert(st2[id] == times.take(cap));
    assert forall|i: int| 0 <= i < times.take(cap).len() implies !in_window(
        #[trigger] times.take(cap)[i],
        later,
    ) by {
        assert(times.take(cap)[i] == times[i]);
    }
    lemma_prune_all_out(times.take(cap), later);
    assert(check_spec(st2, id, later).1);
}

} // verus!
