//! The mathematical model of the diffing drain.
//!
//! A snapshot store is modelled as a sequence of name/value entries in
//! store order; a baseline is a map from name to the value last emitted
//! for it. The spec functions here say exactly which entries a drain
//! emits, what text it renders, and how it rewrites both stores; the
//! lemmas state the laws the drain obeys.

use vstd::prelude::*;
use crate::metric::MetricValue;
use crate::metric::line_of;

verus! {

/// One entry of the snapshot store: a metric name and its value.
pub type Entry = (Seq<char>, MetricValue);

/// No two entries share a name.
pub open spec fn keys_unique(entries: Seq<Entry>) -> bool {
    forall|i: int, j: int| 0 <= i < j < entries.len() ==> entries[i].0 != entries[j].0
}

/// Some entry carries the name `k`.
pub open spec fn has_key(entries: Seq<Entry>, k: Seq<char>) -> bool {
    exists|i: int| 0 <= i < entries.len() && entries[i].0 == k
}

/// The mapping an entry sequence denotes; a later entry wins, though
/// under `keys_unique` each name has at most one entry.
pub open spec fn map_of(entries: Seq<Entry>) -> Map<Seq<char>, MetricValue>
    decreases entries.len(),
{
    if entries.len() == 0 {
        Map::empty()
    } else {
        map_of(entries.drop_last()).insert(entries.last().0, entries.last().1)
    }
}

/// Whether value `v` under name `k` counts as updated against the
/// baseline `prev`: it is pending (not `Cleared`) and was either never
/// emitted before or differs from what was last emitted.
pub open spec fn is_updated(k: Seq<char>, v: MetricValue, prev: Map<Seq<char>, MetricValue>) -> bool {
    !(v is Cleared) && (!prev.dom().contains(k) || prev[k] != v)
}

/// The entries one drain emits: the updated ones, in store order.
pub open spec fn emitted_of(entries: Seq<Entry>, prev: Map<Seq<char>, MetricValue>) -> Seq<Entry>
    decreases entries.len(),
{
    if entries.len() == 0 {
        Seq::empty()
    } else {
        let rest = emitted_of(entries.drop_first(), prev);
        if is_updated(entries[0].0, entries[0].1, prev) {
            seq![entries[0]] + rest
        } else {
            rest
        }
    }
}

/// The baseline after a drain: processing entries in store order, each
/// updated entry's value is recorded as the one last emitted.
pub open spec fn baseline_after(
    entries: Seq<Entry>,
    prev: Map<Seq<char>, MetricValue>,
) -> Map<Seq<char>, MetricValue>
    decreases entries.len(),
{
    if entries.len() == 0 {
        prev
    } else {
        let next = if is_updated(entries[0].0, entries[0].1, prev) {
            prev.insert(entries[0].0, entries[0].1)
        } else {
            prev
        };
        baseline_after(entries.drop_first(), next)
    }
}

/// The drain's output text: the lines of the given entries, concatenated.
pub open spec fn render(lines: Seq<Entry>) -> Seq<char>
    decreases lines.len(),
{
    if lines.len() == 0 {
        Seq::empty()
    } else {
        line_of(lines[0].0, lines[0].1) + render(lines.drop_first())
    }
}

/// The snapshot after a drain: every entry retired to `Cleared`, names
/// kept in place.
pub open spec fn cleared_of(entries: Seq<Entry>) -> Seq<Entry> {
    entries.map_values(|e: Entry| (e.0, MetricValue::Cleared))
}

/// How one observation rewrites the snapshot: the value under `k` is
/// overwritten in place if the name is present, else appended.
pub open spec fn observed(pre: Seq<Entry>, k: Seq<char>, v: MetricValue, post: Seq<Entry>) -> bool {
    if has_key(pre, k) {
        exists|i: int| 0 <= i < pre.len() && pre[i].0 == k && post == pre.update(i, (k, v))
    } else {
        post == pre.push((k, v))
    }
}

/// Extending the processed entries by one at the end extends the emitted
/// entries by that one exactly when it is updated.
pub proof fn lemma_emitted_of_snoc(entries: Seq<Entry>, x: Entry, prev: Map<Seq<char>, MetricValue>)
    ensures
        emitted_of(entries.push(x), prev) == emitted_of(entries, prev) + (if is_updated(x.0, x.1, prev) {
            seq![x]
        } else {
            Seq::<Entry>::empty()
        }),
    decreases entries.len(),
{
    let tail = if is_updated(x.0, x.1, prev) {
        seq![x]
    } else {
        Seq::<Entry>::empty()
    };
    if entries.len() == 0 {
        assert(entries.push(x).drop_first() =~= entries);
        assert(entries.push(x)[0] == x);
        assert(emitted_of(entries.push(x), prev) =~= emitted_of(entries, prev) + tail);
    } else {
        assert(entries.push(x).drop_first() =~= entries.drop_first().push(x));
        lemma_emitted_of_snoc(entries.drop_first(), x, prev);
        assert(entries.push(x)[0] == entries[0]);
        assert(emitted_of(entries.push(x), prev) =~= emitted_of(entries, prev) + tail);
    }
}

/// Extending the processed entries by one at the end folds that entry
/// into the resulting baseline last.
pub proof fn lemma_baseline_after_snoc(
    entries: Seq<Entry>,
    x: Entry,
    prev: Map<Seq<char>, MetricValue>,
)
    ensures
        baseline_after(entries.push(x), prev) == (if is_updated(
            x.0,
            x.1,
            baseline_after(entries, prev),
        ) {
            baseline_after(entries, prev).insert(x.0, x.1)
        } else {
            baseline_after(entries, prev)
        }),
    decreases entries.len(),
{
    if entries.len() == 0 {
        assert(entries.push(x).drop_first() =~= entries);
        assert(entries.push(x)[0] == x);
        let next = if is_updated(x.0, x.1, prev) {
            prev.insert(x.0, x.1)
        } else {
            prev
        };
        assert(baseline_after(entries.push(x), prev) == baseline_after(entries, next));
        assert(baseline_after(entries, next) == next);
        assert(baseline_after(entries, prev) == prev);
    } else {
        assert(entries.push(x).drop_first() =~= entries.drop_first().push(x));
        assert(entries.push(x)[0] == entries[0]);
        let next = if is_updated(entries[0].0, entries[0].1, prev) {
            prev.insert(entries[0].0, entries[0].1)
        } else {
            prev
        };
        lemma_baseline_after_snoc(entries.drop_first(), x, next);
        assert(baseline_after(entries.push(x), prev) == baseline_after(
            entries.drop_first().push(x),
            next,
        ));
        assert(baseline_after(entries, prev) == baseline_after(entries.drop_first(), next));
    }
}

/// Rendering distributes over appending one line at the end.
pub proof fn lemma_render_snoc(lines: Seq<Entry>, x: Entry)
    ensures
        render(lines.push(x)) == render(lines) + line_of(x.0, x.1),
    decreases lines.len(),
{
    if lines.len() == 0 {
        assert(lines.push(x).drop_first() =~= lines);
        assert(lines.push(x)[0] == x);
        assert(render(lines.push(x)) =~= render(lines) + line_of(x.0, x.1));
    } else {
        assert(lines.push(x).drop_first() =~= lines.drop_first().push(x));
        lemma_render_snoc(lines.drop_first(), x);
        assert(lines.push(x)[0] == lines[0]);
        assert(render(lines.push(x)) =~= render(lines) + line_of(x.0, x.1));
    }
}

/// A drain leaves the baseline untouched at every name its entries do
/// not carry.
pub proof fn lemma_baseline_after_frame(
    entries: Seq<Entry>,
    prev: Map<Seq<char>, MetricValue>,
    k: Seq<char>,
)
    requires
        forall|i: int| 0 <= i < entries.len() ==> entries[i].0 != k,
    ensures
        baseline_after(entries, prev).dom().contains(k) == prev.dom().contains(k),
        prev.dom().contains(k) ==> baseline_after(entries, prev)[k] == prev[k],
    decreases entries.len(),
{
    if entries.len() > 0 {
        let next = if is_updated(entries[0].0, entries[0].1, prev) {
            prev.insert(entries[0].0, entries[0].1)
        } else {
            prev
        };
        assert(forall|i: int|
            0 <= i < entries.drop_first().len() ==> entries.drop_first()[i].0 != k);
        lemma_baseline_after_frame(entries.drop_first(), next, k);
    }
}

/// A name is in the denoted map exactly when some entry carries it.
pub proof fn lemma_map_of_contains(entries: Seq<Entry>)
    ensures
        forall|k: Seq<char>| map_of(entries).dom().contains(k) <==> has_key(entries, k),
    decreases entries.len(),
{
    if entries.len() > 0 {
        lemma_map_of_contains(entries.drop_last());
        assert forall|k: Seq<char>| map_of(entries).dom().contains(k) implies has_key(
            entries,
            k,
        ) by {
            if k == entries.last().0 {
                assert(entries[entries.len() - 1].0 == k);
            } else {
                assert(has_key(entries.drop_last(), k));
                let i = choose|i: int|
                    0 <= i < entries.drop_last().len() && entries.drop_last()[i].0 == k;
                assert(entries[i].0 == k);
            }
        }
        assert forall|k: Seq<char>| has_key(entries, k) implies map_of(entries).dom().contains(
            k,
        ) by {
            let i = choose|i: int| 0 <= i < entries.len() && entries[i].0 == k;
            if i < entries.len() - 1 {
                assert(entries.drop_last()[i].0 == k);
                assert(has_key(entries.drop_last(), k));
            }
        }
    }
}

/// Under unique names, the denoted map sends each entry's name to its
/// value.
pub proof fn lemma_map_of_index(entries: Seq<Entry>, i: int)
    requires
        keys_unique(entries),
        0 <= i < entries.len(),
    ensures
        map_of(entries).dom().contains(entries[i].0),
        map_of(entries)[entries[i].0] == entries[i].1,
    decreases entries.len(),
{
    if i < entries.len() - 1 {
        assert(keys_unique(entries.drop_last()));
        assert(entries.drop_last()[i] == entries[i]);
        lemma_map_of_index(entries.drop_last(), i);
        assert(entries[i].0 != entries.last().0);
    }
}

/// Every value the denoted map holds under a name is carried by some
/// entry with that name.
pub proof fn lemma_map_of_some_entry(entries: Seq<Entry>, k: Seq<char>)
    requires
        map_of(entries).dom().contains(k),
    ensures
        exists|i: int|
            0 <= i < entries.len() && entries[i].0 == k && entries[i].1 == map_of(entries)[k],
    decreases entries.len(),
{
    if k == entries.last().0 {
        assert(entries[entries.len() - 1].0 == k && entries[entries.len() - 1].1 == map_of(
            entries,
        )[k]);
    } else {
        lemma_map_of_some_entry(entries.drop_last(), k);
        let i = choose|i: int|
            0 <= i < entries.drop_last().len() && entries.drop_last()[i].0 == k
                && entries.drop_last()[i].1 == map_of(entries.drop_last())[k];
        assert(entries[i].0 == k && entries[i].1 == map_of(entries)[k]);
    }
}

/// Appending an entry denotes inserting its name and value.
pub proof fn lemma_map_of_push(entries: Seq<Entry>, k: Seq<char>, v: MetricValue)
    ensures
        map_of(entries.push((k, v))) == map_of(entries).insert(k, v),
{
    assert(entries.push((k, v)).drop_last() =~= entries);
    assert(entries.push((k, v)).last() == (k, v));
}

/// Overwriting the value under an existing name in place denotes
/// inserting it.
pub proof fn lemma_map_of_update(entries: Seq<Entry>, i: int, v: MetricValue)
    requires
        keys_unique(entries),
        0 <= i < entries.len(),
    ensures
        map_of(entries.update(i, (entries[i].0, v))) == map_of(entries).insert(entries[i].0, v),
    decreases entries.len(),
{
    let k = entries[i].0;
    let post = entries.update(i, (k, v));
    if i == entries.len() - 1 {
        assert(post.drop_last() =~= entries.drop_last());
        assert(post.last() == (k, v));
        assert(map_of(entries.drop_last()).insert(k, v) =~= map_of(entries).insert(k, v));
    } else {
        assert(post.drop_last() =~= entries.drop_last().update(i, (k, v)));
        assert(post.last() == entries.last());
        assert(keys_unique(entries.drop_last()));
        assert(entries.drop_last()[i] == entries[i]);
        lemma_map_of_update(entries.drop_last(), i, v);
        assert(k != entries.last().0);
        assert(map_of(entries.drop_last()).insert(k, v).insert(entries.last().0, entries.last().1)
            =~= map_of(entries).insert(k, v));
    }
}

/// An observation of a store with unique names keeps names unique,
/// denotes a plain map insert, and every entry it leaves behind either
/// carries the observed value or stood in the store before, unchanged
/// and in place.
pub proof fn lemma_observed(pre: Seq<Entry>, k: Seq<char>, v: MetricValue, post: Seq<Entry>)
    requires
        keys_unique(pre),
        observed(pre, k, v, post),
    ensures
        keys_unique(post),
        map_of(post) == map_of(pre).insert(k, v),
        forall|i: int|
            0 <= i < post.len() ==> (post[i].1 == v || (i < pre.len() && post[i] == pre[i])),
{
    if has_key(pre, k) {
        let i = choose|i: int| 0 <= i < pre.len() && pre[i].0 == k && post == pre.update(i, (k, v));
        lemma_map_of_update(pre, i, v);
        assert(forall|j: int| 0 <= j < post.len() ==> post[j].0 == pre[j].0);
    } else {
        lemma_map_of_push(pre, k, v);
        assert(forall|j: int| 0 <= j < pre.len() ==> pre[j].0 != k);
    }
}

/// If no entry for a name counts as updated, the drain emits nothing for
/// that name.
pub proof fn lemma_emits_nothing_for(
    entries: Seq<Entry>,
    prev: Map<Seq<char>, MetricValue>,
    k: Seq<char>,
)
    requires
        forall|i: int|
            0 <= i < entries.len() && entries[i].0 == k ==> !is_updated(k, entries[i].1, prev),
    ensures
        forall|j: int|
            0 <= j < emitted_of(entries, prev).len() ==> emitted_of(entries, prev)[j].0 != k,
    decreases entries.len(),
{
    if entries.len() > 0 {
        assert(forall|i: int|
            0 <= i < entries.drop_first().len() && entries.drop_first()[i].0 == k
                ==> !is_updated(k, entries.drop_first()[i].1, prev));
        lemma_emits_nothing_for(entries.drop_first(), prev, k);
        let emitted = emitted_of(entries, prev);
        let rest = emitted_of(entries.drop_first(), prev);
        if is_updated(entries[0].0, entries[0].1, prev) {
            assert(entries[0].0 != k);
            assert(emitted == seq![entries[0]] + rest);
            assert forall|j: int| 0 <= j < emitted.len() implies emitted[j].0 != k by {
                if j > 0 {
                    assert(emitted[j] == rest[j - 1]);
                }
            }
        } else {
            assert(emitted == rest);
        }
    }
}

/// After a drain, the baseline holds the pending value of every entry
/// the snapshot carried: either the drain emitted it, or the baseline
/// already held it.
pub proof fn lemma_baseline_after_records(
    entries: Seq<Entry>,
    prev: Map<Seq<char>, MetricValue>,
    i: int,
)
    requires
        keys_unique(entries),
        0 <= i < entries.len(),
        !(entries[i].1 is Cleared),
    ensures
        baseline_after(entries, prev).dom().contains(entries[i].0),
        baseline_after(entries, prev)[entries[i].0] == entries[i].1,
    decreases entries.len(),
{
    let k = entries[i].0;
    let v = entries[i].1;
    let next = if is_updated(entries[0].0, entries[0].1, prev) {
        prev.insert(entries[0].0, entries[0].1)
    } else {
        prev
    };
    if i == 0 {
        assert(next.dom().contains(k) && next[k] == v);
        assert(forall|j: int|
            0 <= j < entries.drop_first().len() ==> entries.drop_first()[j].0 != k);
        lemma_baseline_after_frame(entries.drop_first(), next, k);
    } else {
        assert(keys_unique(entries.drop_first()));
        assert(entries.drop_first()[i - 1] == entries[i]);
        lemma_baseline_after_records(entries.drop_first(), next, i - 1);
    }
}

/// Suppression law: if a name was pending with some value when one drain
/// ran, and at the next drain every entry for that name still carries
/// that same value, the next drain emits nothing for it.
pub proof fn lemma_suppression(
    first: Seq<Entry>,
    prev: Map<Seq<char>, MetricValue>,
    second: Seq<Entry>,
    i: int,
)
    requires
        keys_unique(first),
        0 <= i < first.len(),
        !(first[i].1 is Cleared),
        forall|j: int|
            0 <= j < second.len() && second[j].0 == first[i].0 ==> second[j].1 == first[i].1,
    ensures
        forall|j: int|
            0 <= j < emitted_of(second, baseline_after(first, prev)).len() ==> emitted_of(
                second,
                baseline_after(first, prev),
            )[j].0 != first[i].0,
{
    lemma_baseline_after_records(first, prev, i);
    lemma_emits_nothing_for(second, baseline_after(first, prev), first[i].0);
}

/// Under unique names, a drain emits at most one entry per name.
pub proof fn lemma_emitted_keys_unique(entries: Seq<Entry>, prev: Map<Seq<char>, MetricValue>)
    requires
        keys_unique(entries),
    ensures
        keys_unique(emitted_of(entries, prev)),
    decreases entries.len(),
{
    if entries.len() > 0 {
        assert(keys_unique(entries.drop_first()));
        lemma_emitted_keys_unique(entries.drop_first(), prev);
        let rest = emitted_of(entries.drop_first(), prev);
        if is_updated(entries[0].0, entries[0].1, prev) {
            assert(forall|i: int|
                0 <= i < entries.drop_first().len() ==> entries.drop_first()[i].0
                    != entries[0].0);
            lemma_emits_nothing_for(entries.drop_first(), prev, entries[0].0);
            let emitted = emitted_of(entries, prev);
            assert(emitted == seq![entries[0]] + rest);
            assert forall|i: int, j: int| 0 <= i < j < emitted.len() implies emitted[i].0
                != emitted[j].0 by {
                assert(emitted[j] == rest[j - 1]);
                if i > 0 {
                    assert(emitted[i] == rest[i - 1]);
                }
            }
        }
    }
}

/// Re-emission law: a pending entry whose value counts as updated
/// against the baseline is emitted by the drain — exactly once (the
/// emitted entries hold one entry per name) and carrying exactly the
/// new value.
pub proof fn lemma_reemission(entries: Seq<Entry>, prev: Map<Seq<char>, MetricValue>, i: int)
    requires
        keys_unique(entries),
        0 <= i < entries.len(),
        is_updated(entries[i].0, entries[i].1, prev),
    ensures
        exists|j: int|
            0 <= j < emitted_of(entries, prev).len() && emitted_of(entries, prev)[j] == entries[i],
        forall|j: int|
            0 <= j < emitted_of(entries, prev).len() && emitted_of(entries, prev)[j].0
                == entries[i].0 ==> emitted_of(entries, prev)[j] == entries[i],
        keys_unique(emitted_of(entries, prev)),
    decreases entries.len(),
{
    lemma_emitted_keys_unique(entries, prev);
    let k = entries[i].0;
    let emitted = emitted_of(entries, prev);
    let rest = emitted_of(entries.drop_first(), prev);
    if i == 0 {
        assert(emitted == seq![entries[0]] + rest);
        assert(emitted[0] == entries[0]);
        assert(forall|j: int|
            0 <= j < entries.drop_first().len() && entries.drop_first()[j].0 == k
                ==> !is_updated(k, entries.drop_first()[j].1, prev));
        lemma_emits_nothing_for(entries.drop_first(), prev, k);
        assert(forall|j: int| 1 <= j < emitted.len() ==> emitted[j] == rest[j - 1]);
    } else {
        assert(keys_unique(entries.drop_first()));
        assert(entries.drop_first()[i - 1] == entries[i]);
        lemma_reemission(entries.drop_first(), prev, i - 1);
        let w = choose|j: int| 0 <= j < rest.len() && rest[j] == entries[i];
        if is_updated(entries[0].0, entries[0].1, prev) {
            assert(emitted == seq![entries[0]] + rest);
            assert(emitted[w + 1] == entries[i]);
            assert(entries[0].0 != k);
            assert(forall|j: int| 1 <= j < emitted.len() ==> emitted[j] == rest[j - 1]);
        } else {
            assert(emitted == rest);
        }
    }
}

/// First-observation law: a name the baseline has never held, pending
/// with any value, is emitted on the very next drain.
pub proof fn lemma_first_observation(
    entries: Seq<Entry>,
    prev: Map<Seq<char>, MetricValue>,
    i: int,
)
    requires
        keys_unique(entries),
        0 <= i < entries.len(),
        !(entries[i].1 is Cleared),
        !prev.dom().contains(entries[i].0),
    ensures
        exists|j: int|
            0 <= j < emitted_of(entries, prev).len() && emitted_of(entries, prev)[j] == entries[i],
{
    lemma_reemission(entries, prev, i);
}

/// Idempotent-clear law: a drain of a snapshot with nothing pending —
/// as any drain leaves the snapshot — emits no entry and renders empty
/// text, whatever the baseline holds.
pub proof fn lemma_idempotent_clear(entries: Seq<Entry>, prev: Map<Seq<char>, MetricValue>)
    requires
        forall|i: int| 0 <= i < entries.len() ==> entries[i].1 is Cleared,
    ensures
        emitted_of(entries, prev) == Seq::<Entry>::empty(),
        render(emitted_of(entries, prev)) == Seq::<char>::empty(),
    decreases entries.len(),
{
    if entries.len() > 0 {
        assert(forall|i: int|
            0 <= i < entries.drop_first().len() ==> entries.drop_first()[i].1 is Cleared);
        lemma_idempotent_clear(entries.drop_first(), prev);
    }
}

} // verus!
