//! The key-to-record table: keys kept in ascending order, each with its
//! record, so that a lookup is a binary search and a report needs no sort.

use crate::key::{compare_keys, key_lt, lemma_key_lt_asymmetric, lemma_key_lt_transitive, KeyOrder};
use crate::record::{Record, Stats};
use crate::tally::{tally_merge, tally_observe, Tally};
use vstd::prelude::*;
use vstd::slice::slice_to_vec;

verus! {

/// Every key comes strictly before all later ones.
pub open spec fn strictly_sorted(keys: Seq<Seq<u8>>) -> bool {
    forall|i: int, j: int| 0 <= i < j < keys.len() ==> key_lt(#[trigger] keys[i], #[trigger] keys[j])
}

/// The map that gives each key of the list the accumulator at its place.
pub open spec fn rows_map(keys: Seq<Seq<u8>>, stats: Seq<Stats>) -> Tally {
    Map::new(|k: Seq<u8>| keys.contains(k), |k: Seq<u8>| stats[keys.index_of(k)])
}

/// The tally after a whole accumulator came in for a key: a new key takes
/// it as it is, a known key has it merged in.
pub open spec fn tally_absorb(t: Tally, key: Seq<u8>, s: Stats) -> Tally {
    t.insert(
        key,
        if t.contains_key(key) {
            t[key].merge(s)
        } else {
            s
        },
    )
}

/// In a sorted list a key stands at one place only.
pub proof fn lemma_sorted_distinct(keys: Seq<Seq<u8>>, i: int, j: int)
    requires
        strictly_sorted(keys),
        0 <= i < keys.len(),
        0 <= j < keys.len(),
        keys[i] == keys[j],
    ensures
        i == j,
{
    if i < j {
        lemma_key_lt_asymmetric(keys[i], keys[j]);
    } else if j < i {
        lemma_key_lt_asymmetric(keys[j], keys[i]);
    }
}

/// Two ascending lists that hold the same keys are the same list.
pub proof fn lemma_sorted_same_keys(a: Seq<Seq<u8>>, b: Seq<Seq<u8>>)
    requires
        strictly_sorted(a),
        strictly_sorted(b),
        forall|k: Seq<u8>| a.contains(k) <==> b.contains(k),
    ensures
        a == b,
    decreases a.len(),
{
    if a.len() == 0 {
        if b.len() > 0 {
            assert(b.contains(b[0]));
        }
        assert(a =~= b);
    } else {
        assert(a.contains(a[0]));
        let j = b.index_of(a[0]);
        assert(b.contains(b[0]));
        let i = a.index_of(b[0]);
        if i > 0 {
            lemma_key_lt_asymmetric(a[0], a[i]);
        }
        assert(a[0] == b[0]);
        let a1 = a.skip(1);
        let b1 = b.skip(1);
        assert forall|k: Seq<u8>| a1.contains(k) <==> b1.contains(k) by {
            if a1.contains(k) {
                let m = a1.index_of(k);
                assert(a[m + 1] == k);
                assert(a.contains(k));
                let p = b.index_of(k);
                if p == 0 {
                    lemma_sorted_distinct(a, 0, m + 1);
                }
                assert(b1[p - 1] == k);
            }
            if b1.contains(k) {
                let m = b1.index_of(k);
                assert(b[m + 1] == k);
                assert(b.contains(k));
                let p = a.index_of(k);
                if p == 0 {
                    lemma_sorted_distinct(b, 0, m + 1);
                }
                assert(a1[p - 1] == k);
            }
        }
        assert forall|x: int, y: int| 0 <= x < y < a1.len() implies key_lt(
            #[trigger] a1[x],
            #[trigger] a1[y],
        ) by {
            assert(a1[x] == a[x + 1] && a1[y] == a[y + 1]);
        }
        assert forall|x: int, y: int| 0 <= x < y < b1.len() implies key_lt(
            #[trigger] b1[x],
            #[trigger] b1[y],
        ) by {
            assert(b1[x] == b[x + 1] && b1[y] == b[y + 1]);
        }
        lemma_sorted_same_keys(a1, b1);
        assert(a =~= seq![a[0]] + a1);
        assert(b =~= seq![b[0]] + b1);
    }
}

/// The map of a sorted list holds, for the key at each place, the
/// accumulator at that place.
pub proof fn lemma_rows_at(keys: Seq<Seq<u8>>, stats: Seq<Stats>, i: int)
    requires
        strictly_sorted(keys),
        0 <= i < keys.len(),
    ensures
        rows_map(keys, stats).contains_key(keys[i]),
        rows_map(keys, stats)[keys[i]] == stats[i],
{
    assert(keys.contains(keys[i]));
    lemma_sorted_distinct(keys, i, keys.index_of(keys[i]));
}

/// A map that agrees with a sorted list place by place, and has no other
/// key, is the map of that list.
pub proof fn lemma_rows_map_is(keys: Seq<Seq<u8>>, stats: Seq<Stats>, m: Tally)
    requires
        strictly_sorted(keys),
        forall|i: int|
            0 <= i < keys.len() ==> m.contains_key(#[trigger] keys[i]) && m[keys[i]] == stats[i],
        forall|k: Seq<u8>| #[trigger] m.contains_key(k) ==> keys.contains(k),
    ensures
        rows_map(keys, stats) == m,
{
    let r = rows_map(keys, stats);
    assert forall|k: Seq<u8>| r.contains_key(k) implies #[trigger] m.contains_key(k) && m[k]
        == r[k] by {
        let i = keys.index_of(k);
        assert(keys[i] == k);
    }
    assert(r =~= m);
}

/// Replacing the accumulator at one place of a sorted list replaces it in
/// the map, for the key at that place.
pub proof fn lemma_rows_update(keys: Seq<Seq<u8>>, stats: Seq<Stats>, at: int, s: Stats)
    requires
        strictly_sorted(keys),
        keys.len() == stats.len(),
        0 <= at < keys.len(),
    ensures
        rows_map(keys, stats.update(at, s)) == rows_map(keys, stats).insert(keys[at], s),
{
    let m = rows_map(keys, stats).insert(keys[at], s);
    assert forall|i: int| 0 <= i < keys.len() implies m.contains_key(#[trigger] keys[i]) && m[keys[i]]
        == stats.update(at, s)[i] by {
        lemma_rows_at(keys, stats, i);
        if i != at && keys[i] == keys[at] {
            lemma_sorted_distinct(keys, i, at);
        }
    }
    lemma_rows_map_is(keys, stats.update(at, s), m);
}

/// Inserting a new key at its place keeps the list sorted, and adds the key
/// with its accumulator to the map.
pub proof fn lemma_rows_insert(
    keys: Seq<Seq<u8>>,
    stats: Seq<Stats>,
    at: int,
    key: Seq<u8>,
    s: Stats,
)
    requires
        strictly_sorted(keys),
        keys.len() == stats.len(),
        0 <= at <= keys.len(),
        forall|i: int| 0 <= i < at ==> key_lt(#[trigger] keys[i], key),
        forall|i: int| at <= i < keys.len() ==> key_lt(key, #[trigger] keys[i]),
    ensures
        !rows_map(keys, stats).contains_key(key),
        strictly_sorted(keys.insert(at, key)),
        rows_map(keys.insert(at, key), stats.insert(at, s)) == rows_map(keys, stats).insert(key, s),
{
    let nk = keys.insert(at, key);
    let ns = stats.insert(at, s);
    let old_map = rows_map(keys, stats);
    let m = old_map.insert(key, s);
    keys.insert_ensures(at, key);
    stats.insert_ensures(at, s);
    if keys.contains(key) {
        let i = keys.index_of(key);
        if i < at {
            lemma_key_lt_asymmetric(keys[i], key);
        } else {
            lemma_key_lt_asymmetric(key, keys[i]);
        }
    }
    assert forall|i: int, j: int| 0 <= i < j < nk.len() implies key_lt(
        #[trigger] nk[i],
        #[trigger] nk[j],
    ) by {
        let oi = if i < at { i } else { i - 1 };
        let oj = if j < at { j } else { j - 1 };
        if i != at && j != at {
            assert(nk[i] == keys[oi] && nk[j] == keys[oj]);
        } else if i == at {
            assert(nk[j] == keys[oj]);
        } else {
            assert(nk[i] == keys[oi]);
        }
    }
    assert forall|i: int| 0 <= i < nk.len() implies m.contains_key(#[trigger] nk[i]) && m[nk[i]]
        == ns[i] by {
        if i != at {
            let oi = if i < at { i } else { i - 1 };
            assert(nk[i] == keys[oi] && ns[i] == stats[oi]);
            lemma_rows_at(keys, stats, oi);
        }
    }
    assert forall|k: Seq<u8>| #[trigger] m.contains_key(k) implies nk.contains(k) by {
        if k == key {
            assert(nk[at] == k);
        } else {
            let i = keys.index_of(k);
            let ni = if i < at { i } else { i + 1 };
            assert(nk[ni] == k);
        }
    }
    lemma_rows_map_is(nk, ns, m);
}

/// The map of the first `n + 1` places of a sorted list is that of the
/// first `n` with the next key added, which is new to it.
pub proof fn lemma_rows_take_next(keys: Seq<Seq<u8>>, stats: Seq<Stats>, n: int)
    requires
        strictly_sorted(keys),
        keys.len() == stats.len(),
        0 <= n < keys.len(),
    ensures
        !rows_map(keys.take(n), stats.take(n)).contains_key(keys[n]),
        rows_map(keys.take(n + 1), stats.take(n + 1)) == rows_map(
            keys.take(n),
            stats.take(n),
        ).insert(keys[n], stats[n]),
{
    let k0 = keys.take(n);
    let s0 = stats.take(n);
    assert forall|i: int| 0 <= i < n implies key_lt(#[trigger] k0[i], keys[n]) by {
        assert(k0[i] == keys[i]);
    }
    assert forall|i: int, j: int| 0 <= i < j < k0.len() implies key_lt(
        #[trigger] k0[i],
        #[trigger] k0[j],
    ) by {
        assert(k0[i] == keys[i] && k0[j] == keys[j]);
    }
    lemma_rows_insert(k0, s0, n, keys[n], stats[n]);
    assert(k0.insert(n, keys[n]) =~= keys.take(n + 1));
    assert(s0.insert(n, stats[n]) =~= stats.take(n + 1));
}

/// The map of a sorted list has as many keys as the list.
pub proof fn lemma_rows_count(keys: Seq<Seq<u8>>, stats: Seq<Stats>)
    requires
        strictly_sorted(keys),
        keys.len() == stats.len(),
    ensures
        rows_map(keys, stats).dom().finite(),
        rows_map(keys, stats).dom().len() == keys.len(),
    decreases keys.len(),
{
    if keys.len() == 0 {
        assert(rows_map(keys, stats).dom() =~= Set::<Seq<u8>>::empty());
    } else {
        let n = keys.len() - 1;
        let k0 = keys.take(n);
        let s0 = stats.take(n);
        assert forall|i: int, j: int| 0 <= i < j < k0.len() implies key_lt(
            #[trigger] k0[i],
            #[trigger] k0[j],
        ) by {
            assert(k0[i] == keys[i] && k0[j] == keys[j]);
        }
        lemma_rows_count(k0, s0);
        lemma_rows_take_next(keys, stats, n);
        assert(keys.take(n + 1) =~= keys);
        assert(stats.take(n + 1) =~= stats);
        assert(rows_map(keys, stats).dom() =~= rows_map(k0, s0).dom().insert(keys[n]));
    }
}

/// Merging with a tally that has one more key is absorbing that key's
/// accumulator into the merge.
pub proof fn lemma_merge_absorb(a: Tally, b: Tally, key: Seq<u8>, s: Stats)
    requires
        !b.contains_key(key),
    ensures
        tally_merge(a, b.insert(key, s)) == tally_absorb(tally_merge(a, b), key, s),
{
    assert(tally_merge(a, b.insert(key, s)) =~= tally_absorb(tally_merge(a, b), key, s));
}

/// The accumulators of the keys seen so far, in ascending order of key.
#[derive(Debug)]
pub struct Table {
    keys: Vec<Vec<u8>>,
    records: Vec<Record>,
}

impl View for Table {
    type V = Tally;

    open spec fn view(&self) -> Tally {
        rows_map(self.keys(), self.stats())
    }
}

impl Table {
    /// The keys, in the order in which the table holds them.
    pub closed spec fn keys(&self) -> Seq<Seq<u8>> {
        self.keys@.map_values(|k: Vec<u8>| k@)
    }

    /// The accumulators, each at the place of its key.
    pub closed spec fn stats(&self) -> Seq<Stats> {
        self.records@.map_values(|r: Record| r@)
    }

    /// The table's invariant: one valid record per key, keys ascending.
    pub open spec fn wf(&self) -> bool {
        &&& self.keys().len() == self.stats().len()
        &&& strictly_sorted(self.keys())
        &&& forall|i: int|
            0 <= i < self.stats().len() ==> {
                &&& (#[trigger] self.stats()[i]).wf()
                &&& self.stats()[i].in_range()
                &&& self.stats()[i].fits()
            }
    }

    /// Two valid tables with the same view hold the same keys and
    /// accumulators at the same places.
    pub proof fn lemma_view_determines(&self, other: &Table)
        requires
            self.wf(),
            other.wf(),
            self@ == other@,
        ensures
            self.keys() == other.keys(),
            self.stats() == other.stats(),
    {
        let a = self.keys();
        let b = other.keys();
        assert forall|k: Seq<u8>| a.contains(k) <==> b.contains(k) by {
            assert(self@.contains_key(k) == a.contains(k));
            assert(other@.contains_key(k) == b.contains(k));
        }
        lemma_sorted_same_keys(a, b);
        assert forall|i: int| 0 <= i < a.len() implies self.stats()[i] == other.stats()[i] by {
            lemma_rows_at(a, self.stats(), i);
            lemma_rows_at(b, other.stats(), i);
        }
        assert(self.stats() =~= other.stats());
    }

    /// The empty table.
    pub fn new() -> (t: Table)
        ensures
            t.wf(),
            t@ == Map::<Seq<u8>, Stats>::empty(),
            t.keys().len() == 0,
    {
        let t = Table { keys: Vec::new(), records: Vec::new() };
        assert(t@ =~= Map::<Seq<u8>, Stats>::empty());
        t
    }

    /// The number of keys.
    pub fn len(&self) -> (n: usize)
        requires
            self.wf(),
        ensures
            n == self.keys().len(),
            self@.dom().finite(),
            n == self@.dom().len(),
    {
        proof {
            lemma_rows_count(self.keys(), self.stats());
        }
        self.keys.len()
    }

    /// The key at place `i` in ascending order.
    pub fn key_at(&self, i: usize) -> (k: &[u8])
        requires
            self.wf(),
            i < self.keys().len(),
        ensures
            k@ == self.keys()[i as int],
    {
        self.keys[i].as_slice()
    }

    /// The record of the key at place `i`.
    pub fn record_at(&self, i: usize) -> (r: Record)
        requires
            self.wf(),
            i < self.keys().len(),
        ensures
            r@ == self.stats()[i as int],
            r@ == self@[self.keys()[i as int]],
            self@.contains_key(self.keys()[i as int]),
            r.wf(),
    {
        proof {
            lemma_rows_at(self.keys(), self.stats(), i as int);
            assert(self.stats()[i as int].wf());
        }
        self.records[i]
    }

    /// Binary search: whether the key is in the table, and the place where
    /// it stands or would have to be inserted.
    pub fn find(&self, key: &[u8]) -> (r: (bool, usize))
        requires
            self.wf(),
        ensures
            r.0 == self@.contains_key(key@),
            r.1 <= self.keys().len(),
            r.0 ==> r.1 < self.keys().len() && self.keys()[r.1 as int] == key@,
            !r.0 ==> forall|i: int| 0 <= i < r.1 ==> key_lt(#[trigger] self.keys()[i], key@),
            !r.0 ==> forall|i: int|
                r.1 <= i < self.keys().len() ==> key_lt(key@, #[trigger] self.keys()[i]),
    {
        let mut lo: usize = 0;
        let mut hi: usize = self.keys.len();
        while lo < hi
            invariant
                self.wf(),
                lo <= hi <= self.keys().len(),
                self.keys().len() == self.keys.len(),
                forall|i: int| 0 <= i < lo ==> key_lt(#[trigger] self.keys()[i], key@),
                forall|i: int| hi <= i < self.keys().len() ==> key_lt(key@, #[trigger] self.keys()[i]),
            decreases hi - lo,
        {
            let mid = lo + (hi - lo) / 2;
            let o = compare_keys(self.keys[mid].as_slice(), key);
            assert(self.keys()[mid as int] == self.keys[mid as int]@);
            match o {
                KeyOrder::Same => {
                    proof {
                        assert(self.keys().contains(key@));
                    }
                    return (true, mid);
                },
                KeyOrder::Before => {
                    proof {
                        assert forall|i: int| 0 <= i < mid + 1 implies key_lt(
                            #[trigger] self.keys()[i],
                            key@,
                        ) by {
                            if i < mid {
                                lemma_key_lt_transitive(
                                    self.keys()[i],
                                    self.keys()[mid as int],
                                    key@,
                                );
                            }
                        }
                    }
                    lo = mid + 1;
                },
                KeyOrder::After => {
                    proof {
                        assert forall|i: int| mid <= i < self.keys().len() implies key_lt(
                            key@,
                            #[trigger] self.keys()[i],
                        ) by {
                            if i > mid {
                                lemma_key_lt_transitive(
                                    key@,
                                    self.keys()[mid as int],
                                    self.keys()[i],
                                );
                            }
                        }
                    }
                    hi = mid;
                },
            }
        }
        proof {
            if self.keys().contains(key@) {
                let i = self.keys().index_of(key@);
                if i < lo {
                    lemma_key_lt_asymmetric(self.keys()[i], key@);
                } else {
                    lemma_key_lt_asymmetric(key@, self.keys()[i]);
                }
            }
        }
        (false, lo)
    }

    /// The record of a key, if the table has one.
    pub fn get(&self, key: &[u8]) -> (r: Option<Record>)
        requires
            self.wf(),
        ensures
            r is Some <==> self@.contains_key(key@),
            r matches Some(rec) ==> rec@ == self@[key@] && rec.wf(),
    {
        let (found, at) = self.find(key);
        if found {
            Some(self.record_at(at))
        } else {
            None
        }
    }
    /// Folds one measurement into the table.
    pub fn observe(&mut self, key: &[u8], value: i16)
        requires
            old(self).wf(),
            tally_observe(old(self)@, key@, value as int)[key@].fits(),
        ensures
            final(self).wf(),
            final(self)@ == tally_observe(old(self)@, key@, value as int),
    {
        let ghost keys0 = self.keys();
        let ghost stats0 = self.stats();
        let (found, at) = self.find(key);
        if found {
            let mut rec = self.records[at];
            proof {
                lemma_rows_at(keys0, stats0, at as int);
                assert(stats0[at as int].wf());
            }
            rec.add(value);
            self.records.set(at, rec);
            proof {
                rec.lemma_view_fits();
                assert(self.keys() == keys0);
                assert(self.stats() =~= stats0.update(at as int, rec@));
                lemma_rows_update(keys0, stats0, at as int, rec@);
            }
        } else {
            let rec = Record::new(value);
            self.keys.insert(at, slice_to_vec(key));
            self.records.insert(at, rec);
            proof {
                rec.lemma_view_fits();
                lemma_rows_insert(keys0, stats0, at as int, key@, rec@);
                old(self).keys@.insert_ensures(at as int, self.keys@[at as int]);
                old(self).records@.insert_ensures(at as int, rec);
                keys0.insert_ensures(at as int, key@);
                stats0.insert_ensures(at as int, rec@);
                assert(self.keys() =~= keys0.insert(at as int, key@));
                assert(self.stats() =~= stats0.insert(at as int, rec@));
            }
        }
    }

    /// Folds a whole record into the table, under the given key.
    pub fn absorb(&mut self, key: &[u8], record: &Record)
        requires
            old(self).wf(),
            record.wf(),
            tally_absorb(old(self)@, key@, record@)[key@].fits(),
        ensures
            final(self).wf(),
            final(self)@ == tally_absorb(old(self)@, key@, record@),
    {
        let ghost keys0 = self.keys();
        let ghost stats0 = self.stats();
        let (found, at) = self.find(key);
        if found {
            let mut rec = self.records[at];
            proof {
                lemma_rows_at(keys0, stats0, at as int);
                assert(stats0[at as int].wf());
            }
            rec.combine(record);
            self.records.set(at, rec);
            proof {
                rec.lemma_view_fits();
                assert(self.keys() == keys0);
                assert(self.stats() =~= stats0.update(at as int, rec@));
                lemma_rows_update(keys0, stats0, at as int, rec@);
            }
        } else {
            let rec = *record;
            self.keys.insert(at, slice_to_vec(key));
            self.records.insert(at, rec);
            proof {
                rec.lemma_view_fits();
                lemma_rows_insert(keys0, stats0, at as int, key@, rec@);
                old(self).keys@.insert_ensures(at as int, self.keys@[at as int]);
                old(self).records@.insert_ensures(at as int, rec);
                keys0.insert_ensures(at as int, key@);
                stats0.insert_ensures(at as int, rec@);
                assert(self.keys() =~= keys0.insert(at as int, key@));
                assert(self.stats() =~= stats0.insert(at as int, rec@));
            }
        }
    }

    /// Folds another table into this one: a key of both has its records
    /// combined, a key of the other alone is taken over.
    pub fn merge(&mut self, other: &Table)
        requires
            old(self).wf(),
            other.wf(),
            forall|k: Seq<u8>|
                old(self)@.contains_key(k) && other@.contains_key(k) ==> (#[trigger] old(self)@[k]).merge(
                    other@[k],
                ).fits(),
        ensures
            final(self).wf(),
            final(self)@ == tally_merge(old(self)@, other@),
    {
        let ghost before = self@;
        let n = other.len();
        let mut i: usize = 0;
        proof {
            assert(rows_map(other.keys().take(0), other.stats().take(0)) =~= Map::<
                Seq<u8>,
                Stats,
            >::empty());
            assert(tally_merge(before, Map::<Seq<u8>, Stats>::empty()) =~= before);
        }
        while i < n
            invariant
                self.wf(),
                other.wf(),
                n == other.keys().len(),
                i <= n,
                self@ == tally_merge(
                    before,
                    rows_map(other.keys().take(i as int), other.stats().take(i as int)),
                ),
                forall|k: Seq<u8>|
                    before.contains_key(k) && other@.contains_key(k) ==> (#[trigger] before[k]).merge(
                        other@[k],
                    ).fits(),
            decreases n - i,
        {
            let key = other.key_at(i);
            let rec = other.record_at(i);
            proof {
                lemma_rows_take_next(other.keys(), other.stats(), i as int);
                lemma_merge_absorb(
                    before,
                    rows_map(other.keys().take(i as int), other.stats().take(i as int)),
                    key@,
                    rec@,
                );
                rec.lemma_view_fits();
                assert(before.contains_key(key@) ==> before[key@].merge(other@[key@]).fits());
            }
            self.absorb(key, &rec);
            i = i + 1;
        }
        proof {
            assert(other.keys().take(n as int) =~= other.keys());
            assert(other.stats().take(n as int) =~= other.stats());
        }
    }
}

} // verus!
