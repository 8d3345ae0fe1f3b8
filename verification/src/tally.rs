//! What an aggregation is: a list of measurements folded, key by key, into
//! accumulators. Everything here is ghost code: definitions and laws.

use crate::record::{lemma_merge_commutative, lemma_observe_wf, lemma_single, Stats};
use vstd::prelude::*;

verus! {

/// One line of input: a key and a value in tenths.
pub struct Measurement {
    pub key: Seq<u8>,
    pub value: int,
}

/// The accumulators of a group of measurements, by key.
pub type Tally = Map<Seq<u8>, Stats>;

/// The tally after one more measurement: a new key gets the accumulator of
/// the value alone, a known key has the value folded in.
pub open spec fn tally_observe(t: Tally, key: Seq<u8>, value: int) -> Tally {
    t.insert(
        key,
        if t.contains_key(key) {
            t[key].observe(value)
        } else {
            Stats::single(value)
        },
    )
}

/// The tally of two groups together: a key of both has its accumulators
/// merged, a key of one keeps what it had.
pub open spec fn tally_merge(a: Tally, b: Tally) -> Tally {
    Map::new(
        |k: Seq<u8>| a.contains_key(k) || b.contains_key(k),
        |k: Seq<u8>|
            if a.contains_key(k) && b.contains_key(k) {
                a[k].merge(b[k])
            } else if a.contains_key(k) {
                a[k]
            } else {
                b[k]
            },
    )
}

/// The tally of a list of measurements, folded in from first to last.
pub open spec fn tally(records: Seq<Measurement>) -> Tally
    decreases records.len(),
{
    if records.len() == 0 {
        Map::empty()
    } else {
        tally_observe(tally(records.drop_last()), records.last().key, records.last().value)
    }
}

/// Every accumulator of the tally is valid and of 16-bit range.
pub open spec fn tally_wf(t: Tally) -> bool {
    forall|k: Seq<u8>| #[trigger] t.contains_key(k) ==> t[k].wf() && t[k].in_range()
}

/// No accumulator of the tally counts more than `n` observations.
pub open spec fn tally_within(t: Tally, n: int) -> bool {
    forall|k: Seq<u8>| #[trigger] t.contains_key(k) ==> t[k].count <= n
}

/// Every value of the list is of 16-bit range.
pub open spec fn values_in_range(records: Seq<Measurement>) -> bool {
    forall|i: int| 0 <= i < records.len() ==> i16::MIN <= (#[trigger] records[i]).value <= i16::MAX
}

/// Merging tallies is commutative.
pub proof fn lemma_tally_merge_commutative(a: Tally, b: Tally)
    ensures
        tally_merge(a, b) == tally_merge(b, a),
{
    assert forall|k: Seq<u8>| a.contains_key(k) && b.contains_key(k) implies a[k].merge(b[k])
        == b[k].merge(a[k]) by {
        lemma_merge_commutative(a[k], b[k]);
    }
    assert(tally_merge(a, b) =~= tally_merge(b, a));
}

/// Merging tallies is associative.
pub proof fn lemma_tally_merge_associative(a: Tally, b: Tally, c: Tally)
    ensures
        tally_merge(tally_merge(a, b), c) == tally_merge(a, tally_merge(b, c)),
{
    assert(tally_merge(tally_merge(a, b), c) =~= tally_merge(a, tally_merge(b, c)));
}

/// The empty tally is neutral for merging, on either side.
pub proof fn lemma_tally_merge_empty(a: Tally)
    ensures
        tally_merge(a, Map::empty()) == a,
        tally_merge(Map::empty(), a) == a,
{
    assert(tally_merge(a, Map::empty()) =~= a);
    assert(tally_merge(Map::empty(), a) =~= a);
}

/// Folding in a measurement is merging with the tally of that measurement.
pub proof fn lemma_tally_observe_is_merge(t: Tally, key: Seq<u8>, value: int)
    ensures
        tally_observe(t, key, value) == tally_merge(
            t,
            Map::<Seq<u8>, Stats>::empty().insert(key, Stats::single(value)),
        ),
{
    let one = Map::<Seq<u8>, Stats>::empty().insert(key, Stats::single(value));
    assert(tally_observe(t, key, value) =~= tally_merge(t, one));
}

/// The tally of a concatenation is the merge of the two tallies: splitting
/// the input anywhere and merging the parts changes nothing.
pub proof fn lemma_tally_concat(a: Seq<Measurement>, b: Seq<Measurement>)
    ensures
        tally(a + b) == tally_merge(tally(a), tally(b)),
    decreases b.len(),
{
    if b.len() == 0 {
        assert(a + b =~= a);
        lemma_tally_merge_empty(tally(a));
    } else {
        let last = b.last();
        assert((a + b).drop_last() =~= a + b.drop_last());
        assert((a + b).last() == last);
        lemma_tally_concat(a, b.drop_last());
        let one = Map::<Seq<u8>, Stats>::empty().insert(last.key, Stats::single(last.value));
        lemma_tally_observe_is_merge(tally(a + b.drop_last()), last.key, last.value);
        lemma_tally_observe_is_merge(tally(b.drop_last()), last.key, last.value);
        lemma_tally_merge_associative(tally(a), tally(b.drop_last()), one);
    }
}

/// Folding in a 16-bit value keeps a tally valid and raises no count by
/// more than one.
pub proof fn lemma_tally_observe_wf(t: Tally, key: Seq<u8>, value: int, n: int)
    requires
        tally_wf(t),
        tally_within(t, n),
        n >= 0,
        i16::MIN <= value <= i16::MAX,
    ensures
        tally_wf(tally_observe(t, key, value)),
        tally_within(tally_observe(t, key, value), n + 1),
{
    let u = tally_observe(t, key, value);
    assert forall|k: Seq<u8>| #[trigger] u.contains_key(k) implies u[k].wf() && u[k].in_range()
        && u[k].count <= n + 1 by {
        if k == key {
            if t.contains_key(key) {
                lemma_observe_wf(t[key], value);
            } else {
                lemma_single(value);
            }
        } else {
            assert(t.contains_key(k));
        }
    }
}

/// The tally of 16-bit measurements is valid, and no key is counted more
/// often than there are measurements.
pub proof fn lemma_tally_wf(records: Seq<Measurement>)
    requires
        values_in_range(records),
    ensures
        tally_wf(tally(records)),
        tally_within(tally(records), records.len() as int),
    decreases records.len(),
{
    if records.len() > 0 {
        let init = records.drop_last();
        assert forall|i: int| 0 <= i < init.len() implies i16::MIN <= (#[trigger] init[i]).value
            <= i16::MAX by {
            assert(init[i] == records[i]);
        }
        lemma_tally_wf(init);
        assert(i16::MIN <= records[records.len() - 1].value <= i16::MAX);
        lemma_tally_observe_wf(
            tally(init),
            records.last().key,
            records.last().value,
            init.len() as int,
        );
    }
}

/// A key is in the tally exactly if some measurement has it.
pub proof fn lemma_tally_keys(records: Seq<Measurement>, key: Seq<u8>)
    ensures
        tally(records).contains_key(key) <==> exists|i: int|
            0 <= i < records.len() && (#[trigger] records[i]).key == key,
    decreases records.len(),
{
    if records.len() > 0 {
        let init = records.drop_last();
        lemma_tally_keys(init, key);
        if tally(records).contains_key(key) {
            if records.last().key == key {
                assert(records[records.len() - 1].key == key);
            } else {
                let i = choose|i: int| 0 <= i < init.len() && (#[trigger] init[i]).key == key;
                assert(records[i].key == key);
            }
        }
        if exists|i: int| 0 <= i < records.len() && (#[trigger] records[i]).key == key {
            let i = choose|i: int| 0 <= i < records.len() && (#[trigger] records[i]).key == key;
            if i < init.len() {
                assert(init[i].key == key);
            }
        }
    }
}

/// A key that exactly one measurement has is reported with that
/// measurement's value as its minimum, its maximum and its mean.
pub proof fn lemma_tally_single(records: Seq<Measurement>, at: int)
    requires
        0 <= at < records.len(),
        forall|i: int|
            0 <= i < records.len() && i != at ==> (#[trigger] records[i]).key != records[at].key,
    ensures
        tally(records).contains_key(records[at].key),
        tally(records)[records[at].key] == Stats::single(records[at].value),
        tally(records)[records[at].key].min == records[at].value,
        tally(records)[records[at].key].max == records[at].value,
        tally(records)[records[at].key].mean() == records[at].value,
    decreases records.len(),
{
    let key = records[at].key;
    let init = records.drop_last();
    lemma_single(records[at].value);
    if at == records.len() - 1 {
        lemma_tally_keys(init, key);
        if tally(init).contains_key(key) {
            let i = choose|i: int| 0 <= i < init.len() && (#[trigger] init[i]).key == key;
            assert(records[i].key == key);
        }
    } else {
        assert(init[at] == records[at]);
        assert forall|i: int| 0 <= i < init.len() && i != at implies (#[trigger] init[i]).key
            != init[at].key by {
            assert(init[i] == records[i]);
        }
        lemma_tally_single(init, at);
        assert(records[records.len() - 1].key != key);
    }
}

} // verus!
