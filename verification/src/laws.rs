//! Laws of the aggregation table.
//!
//! The table a run builds is a fold of `spec_update` over the observations.
//! This module characterizes that fold per key — each record holds the
//! minimum, maximum, sum and count of exactly the values observed for its
//! key — and derives that the table depends only on the multiset of
//! observations, not on their order.

use vstd::prelude::*;
use vstd::seq_lib::group_to_multiset_ensures;
use vstd::multiset::group_multiset_axioms;
use crate::aggregate::{DataModel, init_model, step_model, spec_update};
use crate::render::{spec_mean, record_chars, scaled_chars, SLASH};

verus! {

/// One observation: a key and its scaled value.
pub type Observation = (Seq<u8>, int);

/// The table after folding the observations in order into an empty table.
pub open spec fn table_of(s: Seq<Observation>) -> Map<Seq<u8>, DataModel>
    decreases s.len(),
{
    if s.len() == 0 {
        Map::empty()
    } else {
        spec_update(table_of(s.drop_last()), s.last().0, s.last().1)
    }
}

/// Folding one more observation is one `spec_update`.
pub proof fn lemma_table_of_push(s: Seq<Observation>, p: Observation)
    ensures
        table_of(s.push(p)) == spec_update(table_of(s), p.0, p.1),
{
    assert(s.push(p).drop_last() =~= s);
}

/// The values observed for one key, in order.
pub open spec fn vals_for(s: Seq<Observation>, k: Seq<u8>) -> Seq<int> {
    s.filter(|p: Observation| p.0 == k).map_values(|p: Observation| p.1)
}

/// Sum of a sequence of values.
pub open spec fn seq_sum(vs: Seq<int>) -> int
    decreases vs.len(),
{
    if vs.len() == 0 {
        0
    } else {
        seq_sum(vs.drop_last()) + vs.last()
    }
}

/// The record a nonempty sequence of observed values determines.
pub open spec fn record_of(vs: Seq<int>) -> DataModel {
    DataModel { min: vs.min(), max: vs.max(), total: seq_sum(vs), count: vs.len() as int }
}

/// Appending a value updates the minimum as one fold step does.
proof fn lemma_min_push(vs: Seq<int>, v: int)
    requires
        vs.len() > 0,
    ensures
        vs.push(v).min() == if v < vs.min() {
            v
        } else {
            vs.min()
        },
{
    vs.min_ensures();
    vs.push(v).min_ensures();
    let w = vs.push(v);
    assert forall|x: int| w.contains(x) implies vs.contains(x) || x == v by {
        let i = choose|i: int| 0 <= i < w.len() && w[i] == x;
        if i < vs.len() {
            assert(vs[i] == x);
        }
    }
    assert(vs.contains(vs.min()));
    let iw = choose|i: int| 0 <= i < vs.len() && vs[i] == vs.min();
    assert(w[iw] == vs.min());
    assert(w.contains(vs.min()));
    assert(w[vs.len() as int] == v);
    assert(w.contains(v));
    assert(w.contains(w.min()));
}

/// Appending a value updates the maximum as one fold step does.
proof fn lemma_max_push(vs: Seq<int>, v: int)
    requires
        vs.len() > 0,
    ensures
        vs.push(v).max() == if v > vs.max() {
            v
        } else {
            vs.max()
        },
{
    vs.max_ensures();
    vs.push(v).max_ensures();
    let w = vs.push(v);
    assert forall|x: int| w.contains(x) implies vs.contains(x) || x == v by {
        let i = choose|i: int| 0 <= i < w.len() && w[i] == x;
        if i < vs.len() {
            assert(vs[i] == x);
        }
    }
    assert(vs.contains(vs.max()));
    let iw = choose|i: int| 0 <= i < vs.len() && vs[i] == vs.max();
    assert(w[iw] == vs.max());
    assert(w.contains(vs.max()));
    assert(w[vs.len() as int] == v);
    assert(w.contains(v));
    assert(w.contains(w.max()));
}

/// How one more observation extends a key's value sequence.
proof fn lemma_vals_for_step(s: Seq<Observation>, k: Seq<u8>)
    requires
        s.len() > 0,
    ensures
        vals_for(s, k) == if s.last().0 == k {
            vals_for(s.drop_last(), k).push(s.last().1)
        } else {
            vals_for(s.drop_last(), k)
        },
{
    reveal(Seq::filter);
    let s0 = s.drop_last();
    let p = s.last();
    let pred = |q: Observation| q.0 == k;
    let f = |q: Observation| q.1;
    if pred(p) {
        assert(s.filter(pred) == s0.filter(pred).push(p));
        assert(s0.filter(pred).push(p).map_values(f) =~= s0.filter(pred).map_values(f).push(p.1));
    } else {
        assert(s.filter(pred) == s0.filter(pred));
    }
}

/// Each key's record is the minimum, maximum, sum and count of exactly the
/// values observed for it.
pub proof fn lemma_table_characterization(s: Seq<Observation>)
    ensures
        forall|k: Seq<u8>| #[trigger]
            table_of(s).contains_key(k) <==> vals_for(s, k).len() > 0,
        forall|k: Seq<u8>| #[trigger]
            table_of(s).contains_key(k) ==> table_of(s)[k] == record_of(vals_for(s, k)),
    decreases s.len(),
{
    if s.len() == 0 {
        reveal(Seq::filter);
        assert forall|k: Seq<u8>| !(#[trigger] table_of(s).contains_key(k)) && vals_for(s, k).len()
            == 0 by {
            assert(s.filter(|q: Observation| q.0 == k) == s);
        }
    } else {
        let s0 = s.drop_last();
        let p = s.last();
        lemma_table_characterization(s0);
        assert forall|k: Seq<u8>| #[trigger]
            table_of(s).contains_key(k) <==> vals_for(s, k).len() > 0 by {
            lemma_vals_for_step(s, k);
            assert(table_of(s0).contains_key(k) <==> vals_for(s0, k).len() > 0);
        }
        assert forall|k: Seq<u8>| #[trigger]
            table_of(s).contains_key(k) implies table_of(s)[k] == record_of(vals_for(s, k)) by {
            lemma_vals_for_step(s, k);
            assert(table_of(s0).contains_key(k) <==> vals_for(s0, k).len() > 0);
            if k == p.0 {
                let vs0 = vals_for(s0, k);
                let vs = vals_for(s, k);
                assert(vs == vs0.push(p.1));
                if table_of(s0).contains_key(k) {
                    assert(table_of(s0)[k] == record_of(vs0));
                    assert(vs0.len() > 0);
                    lemma_min_push(vs0, p.1);
                    lemma_max_push(vs0, p.1);
                    assert(vs.drop_last() =~= vs0);
                    assert(vs.last() == p.1);
                    assert(vs.len() == vs0.len() + 1);
                    assert(seq_sum(vs) == seq_sum(vs0) + p.1);
                    assert(record_of(vs) == step_model(record_of(vs0), p.1));
                    assert(table_of(s)[k] == step_model(record_of(vs0), p.1));
                } else {
                    assert(vs0.len() == 0);
                    assert(vs.len() == 1);
                    assert(vs[0] == p.1);
                    assert(vs.min() == p.1);
                    assert(vs.max() == p.1);
                    assert(vs.drop_last() =~= Seq::<int>::empty());
                    assert(seq_sum(Seq::<int>::empty()) == 0);
                    assert(seq_sum(vs) == p.1);
                    assert(record_of(vs) == init_model(p.1));
                    assert(table_of(s)[k] == init_model(p.1));
                }
            } else {
                assert(vals_for(s, k) == vals_for(s0, k));
                assert(table_of(s)[k] == table_of(s0)[k]);
                assert(table_of(s0).contains_key(k));
                assert(table_of(s0)[k] == record_of(vals_for(s0, k)));
                assert(record_of(vals_for(s, k)) == record_of(vals_for(s0, k)));
            }
        }
    }
}

/// Removing one value removes its contribution to the sum.
proof fn lemma_sum_remove(b: Seq<int>, j: int)
    requires
        0 <= j < b.len(),
    ensures
        seq_sum(b) == seq_sum(b.remove(j)) + b[j],
    decreases b.len(),
{
    if j == b.len() - 1 {
        assert(b.remove(j) =~= b.drop_last());
    } else {
        lemma_sum_remove(b.drop_last(), j);
        assert(b.remove(j).drop_last() =~= b.drop_last().remove(j));
        assert(b.remove(j).last() == b.last());
    }
}

/// The sum of a sequence depends only on its multiset of values.
pub proof fn lemma_sum_permutation(a: Seq<int>, b: Seq<int>)
    requires
        a.to_multiset() == b.to_multiset(),
    ensures
        seq_sum(a) == seq_sum(b),
    decreases a.len(),
{
    broadcast use group_to_multiset_ensures;

    assert(a.to_multiset().len() == a.len());
    assert(b.to_multiset().len() == b.len());
    if a.len() == 0 {
        assert(b.len() == 0);
    } else {
        let x = a.last();
        assert(a.contains(x));
        assert(b.to_multiset().count(x) > 0);
        assert(b.contains(x));
        let j = choose|j: int| 0 <= j < b.len() && b[j] == x;
        lemma_sum_remove(b, j);
        assert(a.remove(a.len() - 1) =~= a.drop_last());
        assert(a.drop_last().to_multiset() == a.to_multiset().remove(x));
        assert(b.remove(j).to_multiset() == b.to_multiset().remove(x));
        lemma_sum_permutation(a.drop_last(), b.remove(j));
    }
}

/// The minimum of a nonempty sequence depends only on its multiset.
pub proof fn lemma_min_permutation(a: Seq<int>, b: Seq<int>)
    requires
        a.to_multiset() == b.to_multiset(),
        a.len() > 0,
    ensures
        a.min() == b.min(),
{
    broadcast use group_to_multiset_ensures;

    a.min_ensures();
    b.min_ensures();
    assert(a.contains(a.min()));
    assert(b.to_multiset().count(a.min()) > 0);
    assert(b.contains(a.min()));
    assert(b.len() > 0);
    assert(b.contains(b.min()));
    assert(a.to_multiset().count(b.min()) > 0);
    assert(a.contains(b.min()));
}

/// The maximum of a nonempty sequence depends only on its multiset.
pub proof fn lemma_max_permutation(a: Seq<int>, b: Seq<int>)
    requires
        a.to_multiset() == b.to_multiset(),
        a.len() > 0,
    ensures
        a.max() == b.max(),
{
    broadcast use group_to_multiset_ensures;

    a.max_ensures();
    b.max_ensures();
    assert(a.contains(a.max()));
    assert(b.to_multiset().count(a.max()) > 0);
    assert(b.contains(a.max()));
    assert(b.len() > 0);
    assert(b.contains(b.max()));
    assert(a.to_multiset().count(b.max()) > 0);
    assert(a.contains(b.max()));
}

/// Filtering commutes with forgetting the order.
proof fn lemma_filter_to_multiset<A>(s: Seq<A>, pred: spec_fn(A) -> bool)
    ensures
        s.filter(pred).to_multiset() == s.to_multiset().filter(pred),
    decreases s.len(),
{
    broadcast use group_to_multiset_ensures;
    broadcast use group_multiset_axioms;

    reveal(Seq::filter);
    if s.len() == 0 {
        assert(s.filter(pred).to_multiset() =~= s.to_multiset().filter(pred));
    } else {
        let s0 = s.drop_last();
        let x = s.last();
        lemma_filter_to_multiset(s0, pred);
        assert(s.remove(s.len() - 1) =~= s0);
        assert(s0.to_multiset() == s.to_multiset().remove(x));
        assert(s.to_multiset() =~= s0.to_multiset().insert(x));
        assert((s0.to_multiset().insert(x)).filter(pred) =~= if pred(x) {
            s0.to_multiset().filter(pred).insert(x)
        } else {
            s0.to_multiset().filter(pred)
        });
        if pred(x) {
            assert(s.filter(pred) == s0.filter(pred).push(x));
        } else {
            assert(s.filter(pred) == s0.filter(pred));
        }
    }
}

/// Mapping commutes with forgetting the order.
proof fn lemma_map_values_permutation<A, B>(a: Seq<A>, b: Seq<A>, f: spec_fn(A) -> B)
    requires
        a.to_multiset() == b.to_multiset(),
    ensures
        a.map_values(f).to_multiset() == b.map_values(f).to_multiset(),
    decreases a.len(),
{
    broadcast use group_to_multiset_ensures;

    assert(a.to_multiset().len() == a.len());
    assert(b.to_multiset().len() == b.len());
    if a.len() == 0 {
        assert(b.len() == 0);
        assert(a.map_values(f).to_multiset() =~= b.map_values(f).to_multiset());
    } else {
        let x = a.last();
        assert(a.contains(x));
        assert(b.to_multiset().count(x) > 0);
        assert(b.contains(x));
        let j = choose|j: int| 0 <= j < b.len() && b[j] == x;
        assert(a.remove(a.len() - 1) =~= a.drop_last());
        assert(a.drop_last().to_multiset() == a.to_multiset().remove(x));
        assert(b.remove(j).to_multiset() == b.to_multiset().remove(x));
        lemma_map_values_permutation(a.drop_last(), b.remove(j), f);
        assert(a.map_values(f).drop_last() =~= a.drop_last().map_values(f));
        assert(a.map_values(f).remove(a.len() - 1) =~= a.map_values(f).drop_last());
        assert(a.map_values(f).to_multiset().remove(f(x)) == a.drop_last().map_values(
            f,
        ).to_multiset());
        assert(b.map_values(f).remove(j) =~= b.remove(j).map_values(f));
        assert(b.map_values(f).to_multiset().remove(f(x)) == b.remove(j).map_values(
            f,
        ).to_multiset());
        assert(a.map_values(f).to_multiset().count(f(x)) > 0) by {
            assert(a.map_values(f)[a.len() - 1] == f(x));
            assert(a.map_values(f).contains(f(x)));
        }
        assert(b.map_values(f).to_multiset().count(f(x)) > 0) by {
            assert(b.map_values(f)[j] == f(x));
            assert(b.map_values(f).contains(f(x)));
        }
        assert(a.map_values(f).to_multiset() =~= b.map_values(f).to_multiset()) by {
            broadcast use group_multiset_axioms;

            let ma = a.map_values(f).to_multiset();
            let mb = b.map_values(f).to_multiset();
            assert(ma.remove(f(x)) == mb.remove(f(x)));
            assert forall|y: B| ma.count(y) == mb.count(y) by {
                if y == f(x) {
                    assert(ma.remove(f(x)).count(y) == mb.remove(f(x)).count(y));
                } else {
                    assert(ma.remove(f(x)).count(y) == mb.remove(f(x)).count(y));
                }
            }
        }
    }
}

/// Law: feeding the same multiset of observations in any order into an empty
/// table yields the same table — the same min, max, total and count for
/// every key, and so the same truncated mean.
pub proof fn lemma_order_independent(s1: Seq<Observation>, s2: Seq<Observation>)
    requires
        s1.to_multiset() == s2.to_multiset(),
    ensures
        table_of(s1) == table_of(s2),
{
    broadcast use group_to_multiset_ensures;
    broadcast use group_multiset_axioms;

    lemma_table_characterization(s1);
    lemma_table_characterization(s2);
    assert forall|k: Seq<u8>| #[trigger] table_of(s1).contains_key(k) implies table_of(
        s2,
    ).contains_key(k) && table_of(s1)[k] == table_of(s2)[k] by {
        let pred = |q: Observation| q.0 == k;
        let f = |q: Observation| q.1;
        lemma_filter_to_multiset(s1, pred);
        lemma_filter_to_multiset(s2, pred);
        lemma_map_values_permutation(s1.filter(pred), s2.filter(pred), f);
        let v1 = vals_for(s1, k);
        let v2 = vals_for(s2, k);
        assert(v1.to_multiset() == v2.to_multiset());
        assert(v1.to_multiset().len() == v1.len());
        assert(v2.to_multiset().len() == v2.len());
        assert(v2.len() > 0);
        lemma_min_permutation(v1, v2);
        lemma_max_permutation(v1, v2);
        lemma_sum_permutation(v1, v2);
        assert(table_of(s2).contains_key(k));
        assert(record_of(v1) == record_of(v2));
        assert(table_of(s1)[k] == table_of(s2)[k]);
    }
    assert forall|k: Seq<u8>| #[trigger] table_of(s2).contains_key(k) implies table_of(
        s1,
    ).contains_key(k) by {
        let pred = |q: Observation| q.0 == k;
        let f = |q: Observation| q.1;
        lemma_filter_to_multiset(s1, pred);
        lemma_filter_to_multiset(s2, pred);
        lemma_map_values_permutation(s1.filter(pred), s2.filter(pred), f);
        let v1 = vals_for(s1, k);
        let v2 = vals_for(s2, k);
        assert(v1.to_multiset() == v2.to_multiset());
        assert(v1.to_multiset().len() == v1.len());
        assert(v2.to_multiset().len() == v2.len());
        assert(v1.len() > 0);
    }
    assert(table_of(s1) =~= table_of(s2));
}

/// Law: a key observed exactly once has its value as minimum, maximum and
/// truncated mean, so its record renders as `value/value/value`.
pub proof fn lemma_single_observation(v: int)
    ensures
        init_model(v).min == v,
        init_model(v).max == v,
        spec_mean(init_model(v)) == v,
        record_chars(init_model(v)) == scaled_chars(v) + seq![SLASH] + scaled_chars(v) + seq![
            SLASH,
        ] + scaled_chars(v),
{
}

/// A record after folding a further sequence of values, oldest first.
pub open spec fn fold_record(d: DataModel, vs: Seq<int>) -> DataModel
    decreases vs.len(),
{
    if vs.len() == 0 {
        d
    } else {
        step_model(fold_record(d, vs.drop_last()), vs.last())
    }
}

/// Law: however many further values are folded into a record, its minimum
/// never rises and its maximum never falls.
pub proof fn lemma_monotone_extrema(d: DataModel, vs: Seq<int>)
    ensures
        fold_record(d, vs).min <= d.min,
        fold_record(d, vs).max >= d.max,
        fold_record(d, vs).count == d.count + vs.len(),
    decreases vs.len(),
{
    if vs.len() > 0 {
        lemma_monotone_extrema(d, vs.drop_last());
    }
}

} // verus!
