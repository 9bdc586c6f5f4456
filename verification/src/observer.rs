//! The snapshot store and the diffing drain.
//!
//! A `StatsdObserver` holds the current snapshot (name to pending value)
//! and the baseline (name to value last emitted). Observations overwrite
//! the snapshot; `drain` renders only the entries whose value counts as
//! updated against the baseline, records their values in the baseline,
//! and retires every snapshot entry to `Cleared`.

use vstd::prelude::*;
use vstd::string::StringExecFns;
use crate::metric::MetricValue;
use crate::metric::metric_line;
use crate::model::{
    Entry, keys_unique, has_key, map_of, is_updated, emitted_of, baseline_after, render,
    cleared_of, observed, lemma_map_of_contains, lemma_map_of_index, lemma_map_of_some_entry,
    lemma_observed, lemma_baseline_after_frame, lemma_emitted_of_snoc,
    lemma_baseline_after_snoc, lemma_render_snoc,
};

verus! {

/// The name/value pairs a store vector denotes, in store order.
pub open spec fn view_entries(store: Seq<(String, MetricValue)>) -> Seq<Entry> {
    store.map_values(|p: (String, MetricValue)| (p.0@, p.1))
}

/// Finds the position of `key` in the store, if any entry carries it.
fn find_index(store: &Vec<(String, MetricValue)>, key: &String) -> (r: Option<usize>)
    ensures
        match r {
            Some(i) => i < store@.len() && view_entries(store@)[i as int].0 == key@,
            None => !has_key(view_entries(store@), key@),
        },
{
    let n: usize = store.len();
    let mut i: usize = 0;
    while i < n
        invariant
            i <= n,
            n == store@.len(),
            forall|j: int| 0 <= j < i ==> view_entries(store@)[j].0 != key@,
        decreases n - i,
    {
        if store[i].0 == *key {
            return Some(i);
        }
        i += 1;
    }
    None
}

/// Looks up the value the store holds for `key`, as the denoted map does.
fn get_value(store: &Vec<(String, MetricValue)>, key: &String) -> (r: Option<MetricValue>)
    requires
        keys_unique(view_entries(store@)),
    ensures
        match r {
            Some(v) => map_of(view_entries(store@)).dom().contains(key@) && map_of(
                view_entries(store@),
            )[key@] == v,
            None => !map_of(view_entries(store@)).dom().contains(key@),
        },
{
    proof {
        lemma_map_of_contains(view_entries(store@));
    }
    match find_index(store, key) {
        Some(i) => {
            proof {
                lemma_map_of_index(view_entries(store@), i as int);
            }
            Some(store[i].1)
        },
        None => None,
    }
}

/// Overwrites the value the store holds for `key`, appending the entry
/// if the name is new.
fn upsert(store: &mut Vec<(String, MetricValue)>, key: String, value: MetricValue)
    ensures
        observed(view_entries(old(store)@), key@, value, view_entries(final(store)@)),
{
    match find_index(store, &key) {
        Some(i) => {
            store[i] = (key, value);
            proof {
                let ghost pre = view_entries(old(store)@);
                assert(view_entries(store@) =~= pre.update(i as int, (key@, value)));
            }
        },
        None => {
            store.push((key, value));
            proof {
                let ghost pre = view_entries(old(store)@);
                assert(view_entries(store@) =~= pre.push((key@, value)));
            }
        },
    }
}

/// The snapshot store paired with its baseline: the state one exporter's
/// diffing drain works on.
pub struct StatsdObserver {
    metrics: Vec<(String, MetricValue)>,
    prev_metrics: Vec<(String, MetricValue)>,
}

impl StatsdObserver {
    /// The pending snapshot: name/value entries in store order.
    pub closed spec fn snapshot(self) -> Seq<Entry> {
        view_entries(self.metrics@)
    }

    /// The baseline entries, in store order.
    spec fn prev_seq(self) -> Seq<Entry> {
        view_entries(self.prev_metrics@)
    }

    /// The baseline: the value last emitted for each name ever emitted.
    pub closed spec fn baseline(self) -> Map<Seq<char>, MetricValue> {
        map_of(self.prev_seq())
    }

    /// Well-formed: names are unique in both stores, and the baseline
    /// never holds `Cleared` — only actually emitted values.
    pub closed spec fn wf(self) -> bool {
        &&& keys_unique(self.snapshot())
        &&& keys_unique(self.prev_seq())
        &&& forall|i: int| 0 <= i < self.prev_seq().len() ==> !(self.prev_seq()[i].1 is Cleared)
    }

    /// What well-formedness gives a caller: unique names in the
    /// snapshot, and a baseline free of `Cleared`.
    pub proof fn lemma_wf_facts(self)
        requires
            self.wf(),
        ensures
            keys_unique(self.snapshot()),
            forall|k: Seq<char>|
                self.baseline().dom().contains(k) ==> !(self.baseline()[k] is Cleared),
    {
        assert forall|k: Seq<char>| self.baseline().dom().contains(k) implies !(self.baseline()[k]
            is Cleared) by {
            lemma_map_of_some_entry(self.prev_seq(), k);
        }
    }

    /// Records `value` as the pending value for `key`, overwriting any
    /// pending value the snapshot held for that name.
    fn set_current(&mut self, key: String, value: MetricValue)
        requires
            old(self).wf(),
        ensures
            final(self).wf(),
            final(self).baseline() == old(self).baseline(),
            observed(old(self).snapshot(), key@, value, final(self).snapshot()),
    {
        upsert(&mut self.metrics, key, value);
        proof {
            lemma_observed(old(self).snapshot(), key@, value, self.snapshot());
        }
    }

    /// Records a counter observation: the snapshot now holds
    /// `Counter(value)` for `key`; the baseline is untouched.
    pub fn observe_counter(&mut self, key: String, value: u64)
        requires
            old(self).wf(),
        ensures
            final(self).wf(),
            final(self).baseline() == old(self).baseline(),
            observed(
                old(self).snapshot(),
                key@,
                MetricValue::Counter(value),
                final(self).snapshot(),
            ),
    {
        self.set_current(key, MetricValue::Counter(value));
    }

    /// Records a gauge observation: the snapshot now holds
    /// `Gauge(value)` for `key`; the baseline is untouched.
    pub fn observe_gauge(&mut self, key: String, value: i64)
        requires
            old(self).wf(),
        ensures
            final(self).wf(),
            final(self).baseline() == old(self).baseline(),
            observed(
                old(self).snapshot(),
                key@,
                MetricValue::Gauge(value),
                final(self).snapshot(),
            ),
    {
        self.set_current(key, MetricValue::Gauge(value));
    }

    /// Histogram observations are accepted and deliberately dropped:
    /// this format has no histogram payload, so the store is left
    /// exactly as it was and no error is raised.
    pub fn observe_histogram(&mut self, _key: String, _values: &[u64])
        ensures
            *final(self) == *old(self),
    {
    }

    /// Renders one line for each snapshot entry whose value counts as
    /// updated against the baseline, in store order; records each
    /// rendered value in the baseline; and retires every snapshot entry
    /// to `Cleared`, rendered or not.
    pub fn drain(&mut self) -> (out: String)
        requires
            old(self).wf(),
        ensures
            final(self).wf(),
            out@ == render(emitted_of(old(self).snapshot(), old(self).baseline())),
            final(self).snapshot() == cleared_of(old(self).snapshot()),
            final(self).baseline() == baseline_after(old(self).snapshot(), old(self).baseline()),
    {
        let ghost snap0 = old(self).snapshot();
        let ghost base0 = old(self).baseline();
        let mut out = String::new();
        let n: usize = self.metrics.len();
        let mut i: usize = 0;
        while i < n
            invariant
                i <= n,
                n == self.metrics@.len(),
                snap0.len() == n,
                keys_unique(snap0),
                forall|j: int| i <= j < n ==> self.snapshot()[j] == snap0[j],
                forall|j: int| 0 <= j < i ==> self.snapshot()[j] == (snap0[j].0, MetricValue::Cleared),
                keys_unique(self.prev_seq()),
                forall|j: int|
                    0 <= j < self.prev_seq().len() ==> !(self.prev_seq()[j].1 is Cleared),
                self.baseline() == baseline_after(snap0.take(i as int), base0),
                out@ == render(emitted_of(snap0.take(i as int), base0)),
            decreases n - i,
        {
            let ghost k = snap0[i as int].0;
            let ghost processed = snap0.take(i as int);
            let ghost mid = self.baseline();
            proof {
                assert(self.snapshot()[i as int] == snap0[i as int]);
                // The names processed so far are all different from this
                // entry's name, so the evolving baseline agrees with the
                // pre-drain baseline on it.
                assert(forall|j: int| 0 <= j < processed.len() ==> processed[j].0 != k);
                lemma_baseline_after_frame(processed, base0, k);
            }
            let value = self.metrics[i].1;
            let prev_value = get_value(&self.prev_metrics, &self.metrics[i].0);
            proof {
                assert(self.metrics@[i as int].0@ == k);
                assert(value == snap0[i as int].1);
            }
            let updated = match prev_value {
                Some(pv) => pv != value,
                None => true,
            };
            let pending = match value {
                MetricValue::Cleared => false,
                _ => true,
            };
            proof {
                assert(pending == !(value is Cleared));
                assert(updated && pending ==> is_updated(k, value, mid));
                assert(is_updated(k, value, mid) == is_updated(k, value, base0));
                assert(!(updated && pending) ==> !is_updated(k, value, mid));
                assert(snap0.take(i as int + 1) =~= processed.push(snap0[i as int]));
                lemma_emitted_of_snoc(processed, snap0[i as int], base0);
                lemma_baseline_after_snoc(processed, snap0[i as int], base0);
                lemma_render_snoc(emitted_of(processed, base0), snap0[i as int]);
            }
            if updated && pending {
                let key_copy = self.metrics[i].0.clone();
                let line = metric_line(key_copy.as_str(), value);
                out.append(line.as_str());
                let ghost prev_pre = self.prev_seq();
                upsert(&mut self.prev_metrics, key_copy, value);
                proof {
                    lemma_observed(prev_pre, k, value, self.prev_seq());
                    assert(self.baseline() == mid.insert(k, value));
                    assert(emitted_of(snap0.take(i as int + 1), base0) =~= emitted_of(
                        processed,
                        base0,
                    ).push(snap0[i as int]));
                    assert(out@ == render(emitted_of(snap0.take(i as int + 1), base0)));
                }
            } else {
                proof {
                    assert(emitted_of(snap0.take(i as int + 1), base0) == emitted_of(processed, base0));
                    assert(self.baseline() == baseline_after(snap0.take(i as int + 1), base0));
                }
            }
            let ghost before_clear = self.snapshot();
            self.metrics[i].1 = MetricValue::Cleared;
            proof {
                assert(self.snapshot() =~= before_clear.update(
                    i as int,
                    (snap0[i as int].0, MetricValue::Cleared),
                ));
            }
            i += 1;
        }
        proof {
            assert(snap0.take(n as int) =~= snap0);
            assert(self.snapshot() =~= cleared_of(snap0));
            assert(keys_unique(self.snapshot()));
        }
        out
    }
}

/// Builds fresh diffing observers for the statsd-like line format.
pub struct StatsdBuilder;

impl StatsdBuilder {
    /// Creates a builder.
    pub fn new() -> (b: StatsdBuilder) {
        StatsdBuilder
    }

    /// Builds an observer with an empty snapshot and an empty baseline:
    /// every name it ever sees will count as observed for the first time.
    pub fn build(&self) -> (o: StatsdObserver)
        ensures
            o.wf(),
            o.snapshot() == Seq::<Entry>::empty(),
            o.baseline() == Map::<Seq<char>, MetricValue>::empty(),
    {
        let o = StatsdObserver { metrics: Vec::new(), prev_metrics: Vec::new() };
        proof {
            assert(o.snapshot() =~= Seq::<Entry>::empty());
            assert(o.baseline() =~= Map::<Seq<char>, MetricValue>::empty());
        }
        o
    }
}

} // verus!
