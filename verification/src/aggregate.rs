//! Running per-key statistics.
//!
//! `WeatherData` holds min, max, running total and observation count for one
//! key, over values scaled by ten as the parser produces them. `WeatherMap`
//! maps each key (a byte string) to its `WeatherData`; a key enters the map
//! on its first observation and is never removed.

use vstd::prelude::*;
use crate::render::{render_spec, render_list, key_order, sorted_keys, views_of, sort_keys,
    push_bytes, lemma_sorted_keys_unique, LBRACE, RBRACE, COMMA, SPACE, EQUALS};

verus! {

/// Largest observation count a record may reach before another update; keeps
/// the running total far inside `i64` since each observation is at most
/// four decimal digits in magnitude.
pub const MAX_COUNT: u64 = 0x1000_0000_0000;

/// Mathematical model of one key's running statistics.
pub struct DataModel {
    pub min: int,
    pub max: int,
    pub total: int,
    pub count: int,
}

/// Model of a record after its first observation.
pub open spec fn init_model(v: int) -> DataModel {
    DataModel { min: v, max: v, total: v, count: 1 }
}

/// Model of folding one more observation into a record.
pub open spec fn step_model(d: DataModel, v: int) -> DataModel {
    DataModel {
        min: if v < d.min { v } else { d.min },
        max: if v > d.max { v } else { d.max },
        total: d.total + v,
        count: d.count + 1,
    }
}

/// Model of one table update: start a record on a new key, fold into an
/// existing one otherwise.
pub open spec fn spec_update(m: Map<Seq<u8>, DataModel>, k: Seq<u8>, v: int) -> Map<
    Seq<u8>,
    DataModel,
> {
    if m.contains_key(k) {
        m.insert(k, step_model(m[k], v))
    } else {
        m.insert(k, init_model(v))
    }
}

/// Running statistics for one key.
#[derive(Clone, Copy)]
pub struct WeatherData {
    pub min: i16,
    pub max: i16,
    pub total: i64,
    pub count: u64,
}

impl View for WeatherData {
    type V = DataModel;

    open spec fn view(&self) -> DataModel {
        DataModel {
            min: self.min as int,
            max: self.max as int,
            total: self.total as int,
            count: self.count as int,
        }
    }
}

impl WeatherData {
    /// The extrema bracket the total: the sum of `count` observations each
    /// within `[min, max]`.
    pub open spec fn wf(self) -> bool {
        &&& 1 <= self.count <= MAX_COUNT
        &&& self.min <= self.max
        &&& self.min * self.count <= self.total
        &&& self.total <= self.max * self.count
    }

    /// Start a record from its first observation.
    pub fn new(initial_value: i16) -> (r: WeatherData)
        ensures
            r@ == init_model(initial_value as int),
            r.wf(),
    {
        WeatherData { min: initial_value, max: initial_value, total: initial_value as i64, count: 1 }
    }

    /// Fold one more observation into the record.
    pub fn update(&mut self, value: i16)
        requires
            old(self).wf(),
            old(self).count < MAX_COUNT,
        ensures
            final(self)@ == step_model(old(self)@, value as int),
            final(self).wf(),
    {
        proof {
            let t = self.total as int;
            let c = self.count as int;
            let mn = self.min as int;
            let mx = self.max as int;
            let v = value as int;
            let mn2 = if v < mn { v } else { mn };
            let mx2 = if v > mx { v } else { mx };
            assert((i64::MIN <= t + v <= i64::MAX) && mn2 * (c + 1) <= t + v && t + v <= mx2 * (c
                + 1)) by (nonlinear_arith)
                requires
                    mn * c <= t <= mx * c,
                    -0x8000 <= mn <= mx <= 0x7fff,
                    1 <= c < 0x1000_0000_0000,
                    -0x8000 <= v <= 0x7fff,
                    mn2 == (if v < mn { v } else { mn }),
                    mx2 == (if v > mx { v } else { mx }),
            ;
        }
        if value < self.min {
            self.min = value;
        }
        if value > self.max {
            self.max = value;
        }
        self.count = self.count + 1;
        self.total = self.total + value as i64;
    }
}

/// The association-list model of a table: later entries would shadow earlier
/// ones, though a well-formed table keeps its keys distinct.
pub open spec fn assoc_model(s: Seq<(Vec<u8>, WeatherData)>) -> Map<Seq<u8>, DataModel>
    decreases s.len(),
{
    if s.len() == 0 {
        Map::empty()
    } else {
        assoc_model(s.drop_last()).insert(s.last().0@, s.last().1@)
    }
}

/// Table of running statistics, one record per distinct key.
pub struct WeatherMap {
    entries: Vec<(Vec<u8>, WeatherData)>,
}

impl View for WeatherMap {
    type V = Map<Seq<u8>, DataModel>;

    closed spec fn view(&self) -> Map<Seq<u8>, DataModel> {
        assoc_model(self.entries@)
    }
}

proof fn lemma_assoc_model_props(s: Seq<(Vec<u8>, WeatherData)>)
    ensures
        assoc_model(s).dom().finite(),
        forall|k: Seq<u8>|
            assoc_model(s).contains_key(k) <==> exists|i: int| 0 <= i < s.len() && s[i].0@ == k,
    decreases s.len(),
{
    if s.len() > 0 {
        lemma_assoc_model_props(s.drop_last());
        assert forall|k: Seq<u8>| assoc_model(s).contains_key(k) implies exists|i: int|
            0 <= i < s.len() && s[i].0@ == k by {
            if k == s.last().0@ {
                assert(s[s.len() - 1].0@ == k);
            } else {
                let j = choose|j: int| 0 <= j < s.drop_last().len() && s.drop_last()[j].0@ == k;
                assert(s[j].0@ == k);
            }
        }
        assert forall|k: Seq<u8>| (exists|i: int| 0 <= i < s.len() && s[i].0@ == k) implies
            assoc_model(s).contains_key(k) by {
            let i = choose|i: int| 0 <= i < s.len() && s[i].0@ == k;
            if i < s.len() - 1 {
                assert(s.drop_last()[i].0@ == k);
            }
        }
    }
}

/// With distinct keys, each entry is the one the model maps its key to.
proof fn lemma_assoc_model_index(s: Seq<(Vec<u8>, WeatherData)>, i: int)
    requires
        forall|p: int, q: int| 0 <= p < q < s.len() ==> s[p].0@ != s[q].0@,
        0 <= i < s.len(),
    ensures
        assoc_model(s).contains_key(s[i].0@),
        assoc_model(s)[s[i].0@] == s[i].1@,
    decreases s.len(),
{
    if i == s.len() - 1 {
    } else {
        lemma_assoc_model_index(s.drop_last(), i);
        assert(s.drop_last()[i] == s[i]);
        assert(s[i].0@ != s.last().0@);
    }
}

/// Replacing one record leaves the model inserted at that entry's key.
proof fn lemma_assoc_model_update(s: Seq<(Vec<u8>, WeatherData)>, i: int, d: WeatherData)
    requires
        forall|p: int, q: int| 0 <= p < q < s.len() ==> s[p].0@ != s[q].0@,
        0 <= i < s.len(),
    ensures
        assoc_model(s.update(i, (s[i].0, d))) == assoc_model(s).insert(s[i].0@, d@),
    decreases s.len(),
{
    let s2 = s.update(i, (s[i].0, d));
    if i == s.len() - 1 {
        assert(s2.drop_last() =~= s.drop_last());
        assert(assoc_model(s2) =~= assoc_model(s).insert(s[i].0@, d@));
    } else {
        lemma_assoc_model_update(s.drop_last(), i, d);
        assert(s2.drop_last() =~= s.drop_last().update(i, (s[i].0, d)));
        assert(s2.last() == s.last());
        assert(s.drop_last()[i] == s[i]);
        assert(s[i].0@ != s.last().0@);
        assert(assoc_model(s2) =~= assoc_model(s).insert(s[i].0@, d@));
    }
}

/// Byte-wise equality of two byte strings.
fn bytes_eq(a: &[u8], b: &[u8]) -> (r: bool)
    ensures
        r == (a@ == b@),
{
    if a.len() != b.len() {
        proof {
            assert(a@ != b@);
        }
        return false;
    }
    let n = a.len();
    let mut i: usize = 0;
    while i < n
        invariant
            0 <= i <= n,
            n == a@.len() == b@.len(),
            forall|j: int| 0 <= j < i ==> a@[j] == b@[j],
        decreases n - i,
    {
        if a[i] != b[i] {
            proof {
                assert(a@[i as int] != b@[i as int]);
            }
            return false;
        }
        i = i + 1;
    }
    proof {
        assert(a@ =~= b@);
    }
    true
}

impl WeatherMap {
    /// Keys are distinct and every record is well formed.
    pub closed spec fn wf(self) -> bool {
        &&& forall|p: int, q: int|
            0 <= p < q < self.entries@.len() ==> self.entries@[p].0@ != self.entries@[q].0@
        &&& forall|i: int| 0 <= i < self.entries@.len() ==> (#[trigger] self.entries@[i].1).wf()
    }

    /// The number of distinct keys observed so far.
    pub fn len(&self) -> (n: usize)
        requires
            self.wf(),
        ensures
            n == self@.dom().len(),
    {
        proof {
            Self::lemma_entry_count(self.entries@);
        }
        self.entries.len()
    }

    /// With distinct keys the model's domain is exactly as large as the list.
    proof fn lemma_entry_count(s: Seq<(Vec<u8>, WeatherData)>)
        requires
            forall|p: int, q: int| 0 <= p < q < s.len() ==> s[p].0@ != s[q].0@,
        ensures
            assoc_model(s).dom().finite(),
            assoc_model(s).dom().len() == s.len(),
        decreases s.len(),
    {
        lemma_assoc_model_props(s);
        if s.len() > 0 {
            Self::lemma_entry_count(s.drop_last());
            lemma_assoc_model_props(s.drop_last());
            assert(!assoc_model(s.drop_last()).contains_key(s.last().0@));
            assert(assoc_model(s).dom() =~= assoc_model(s.drop_last()).dom().insert(s.last().0@));
            vstd::set::axiom_set_insert_len(assoc_model(s.drop_last()).dom(), s.last().0@);
        }
    }

    /// Start an empty table.
    pub fn new() -> (r: WeatherMap)
        ensures
            r.wf(),
            r@ == Map::<Seq<u8>, DataModel>::empty(),
    {
        WeatherMap { entries: Vec::new() }
    }

    /// Index of the entry holding `key`, if the key has been observed.
    fn find_key(&self, key: &[u8]) -> (r: Option<usize>)
        ensures
            match r {
                Some(i) => i < self.entries@.len() && self.entries@[i as int].0@ == key@,
                None => forall|i: int| 0 <= i < self.entries@.len() ==> self.entries@[i].0@ != key@,
            },
    {
        let n = self.entries.len();
        let mut i: usize = 0;
        while i < n
            invariant
                0 <= i <= n,
                n == self.entries@.len(),
                forall|j: int| 0 <= j < i ==> self.entries@[j].0@ != key@,
            decreases n - i,
        {
            if bytes_eq(self.entries[i].0.as_slice(), key) {
                return Some(i);
            }
            i = i + 1;
        }
        None
    }

    /// Fold one observation into the table: start a record on a new key,
    /// update the existing record otherwise.
    pub fn update(&mut self, key: &[u8], value: i16)
        requires
            old(self).wf(),
            old(self)@.contains_key(key@) ==> old(self)@[key@].count < MAX_COUNT,
        ensures
            final(self).wf(),
            final(self)@ == spec_update(old(self)@, key@, value as int),
    {
        proof {
            lemma_assoc_model_props(self.entries@);
        }
        match self.find_key(key) {
            Some(i) => {
                proof {
                    lemma_assoc_model_index(self.entries@, i as int);
                }
                let entry = &mut self.entries[i];
                entry.1.update(value);
                proof {
                    lemma_assoc_model_update(
                        old(self).entries@,
                        i as int,
                        final(self).entries@[i as int].1,
                    );
                    assert(final(self).entries@ =~= old(self).entries@.update(
                        i as int,
                        (old(self).entries@[i as int].0, final(self).entries@[i as int].1),
                    ));
                }
            },
            None => {
                let owned = vstd::slice::slice_to_vec(key);
                self.entries.push((owned, WeatherData::new(value)));
                proof {
                    assert(final(self).entries@.drop_last() =~= old(self).entries@);
                    assert(final(self)@ == spec_update(old(self)@, key@, value as int));
                }
            },
        }
    }

    /// Render the whole table, entries in ascending key order, as
    /// `{key=min/mean/max, ...}`.
    pub fn render(&self) -> (r: Vec<u8>)
        requires
            self.wf(),
        ensures
            r@ == render_spec(self@),
    {
        let n = self.entries.len();
        let mut keys: Vec<Vec<u8>> = Vec::new();
        let mut i: usize = 0;
        while i < n
            invariant
                0 <= i <= n,
                n == self.entries@.len(),
                keys@.len() == i,
                forall|j: int| 0 <= j < i ==> keys@[j]@ == self.entries@[j].0@,
            decreases n - i,
        {
            keys.push(vstd::slice::slice_to_vec(self.entries[i].0.as_slice()));
            i = i + 1;
        }
        let ghost iv = views_of(keys@);
        let sorted = sort_keys(keys);
        let ghost kv = views_of(sorted@);
        let ghost m = self@;
        proof {
            broadcast use vstd::seq_lib::group_to_multiset_ensures;

            assert(forall|j: int| 0 <= j < n ==> iv[j] == self.entries@[j].0@);
            assert(iv.no_duplicates());
            iv.lemma_multiset_has_no_duplicates();
            assert(forall|x: Seq<u8>|
                kv.to_multiset().contains(x) ==> kv.to_multiset().count(x) == 1);
            kv.lemma_multiset_has_no_duplicates_conv();
            kv.to_multiset_ensures();
            iv.to_multiset_ensures();
            assert forall|x: Seq<u8>| kv.to_set().contains(x) <==> iv.to_set().contains(x) by {
                assert(kv.contains(x) <==> kv.to_multiset().count(x) > 0);
                assert(iv.contains(x) <==> iv.to_multiset().count(x) > 0);
            }
            assert(kv.to_set() =~= iv.to_set());
            lemma_assoc_model_props(self.entries@);
            assert forall|k: Seq<u8>| iv.to_set().contains(k) implies m.dom().contains(k) by {
                let j = choose|j: int| 0 <= j < iv.len() && iv[j] == k;
                assert(self.entries@[j].0@ == k);
            }
            assert forall|k: Seq<u8>| m.dom().contains(k) implies iv.to_set().contains(k) by {
                let j = choose|j: int| 0 <= j < self.entries@.len() && self.entries@[j].0@ == k;
                assert(iv[j] == k);
            }
            assert(iv.to_set() =~= m.dom());
            assert(sorted_keys(kv) && kv.no_duplicates() && kv.to_set() == m.dom());
            assert(exists|ks: Seq<Seq<u8>>|
                sorted_keys(ks) && ks.no_duplicates() && ks.to_set() == m.dom());
            lemma_sorted_keys_unique(key_order(m), kv);
        }
        let mut out: Vec<u8> = Vec::new();
        out.push(LBRACE);
        let count = sorted.len();
        let mut i: usize = 0;
        while i < count
            invariant
                0 <= i <= count,
                self.wf(),
                m == self@,
                count == sorted@.len(),
                kv == views_of(sorted@),
                kv.to_set() == m.dom(),
                key_order(m) == kv,
                out@ == seq![LBRACE] + render_list(kv.take(i as int), m),
            decreases count - i,
        {
            if i > 0 {
                out.push(COMMA);
                out.push(SPACE);
            }
            let key_slice = sorted[i].as_slice();
            proof {
                assert(key_slice@ == kv[i as int]);
            }
            push_bytes(&mut out, key_slice);
            out.push(EQUALS);
            let idx: usize;
            match self.find_key(key_slice) {
                Some(x) => {
                    idx = x;
                },
                None => {
                    proof {
                        assert(kv.to_set().contains(kv[i as int]));
                        assert(m.dom().contains(kv[i as int]));
                        lemma_assoc_model_props(self.entries@);
                        assert(false);
                    }
                    return out;
                },
            }
            proof {
                lemma_assoc_model_index(self.entries@, idx as int);
                assert(self.entries@[idx as int].1.wf());
                assert(m[kv[i as int]] == self.entries@[idx as int].1@);
            }
            let d = self.entries[idx].1;
            d.render_into(&mut out);
            proof {
                assert(kv.take(i + 1).drop_last() =~= kv.take(i as int));
                assert(kv.take(i + 1).last() == kv[i as int]);
                assert(out@ =~= seq![LBRACE] + render_list(kv.take(i + 1), m));
            }
            i = i + 1;
        }
        out.push(RBRACE);
        proof {
            assert(kv.take(count as int) =~= kv);
            assert(out@ =~= render_spec(m));
        }
        out
    }
}

} // verus!
