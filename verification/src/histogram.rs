//! Per-layer histograms of active neuron positions.
use std::collections::HashMap;
use vstd::prelude::*;
use vstd::std_specs::iter::IteratorSpec;

use crate::record::{is_active, score_reaches, Record};

verus! {

broadcast use vstd::std_specs::hash::group_hash_axioms;

/// layer -> count of records in which each neuron position was active.
pub type LayerHistograms = HashMap<i32, Vec<u64>>;

/// Entry `i` of a count row, where missing entries read as 0.
pub open spec fn entry_or_zero(s: Seq<int>, i: int) -> int {
    if 0 <= i < s.len() {
        s[i]
    } else {
        0
    }
}

/// Element-wise sum of two count rows, the shorter padded with zeros.
pub open spec fn padd(a: Seq<int>, b: Seq<int>) -> Seq<int> {
    let n = if a.len() >= b.len() {
        a.len()
    } else {
        b.len()
    };
    Seq::new(n, |i: int| entry_or_zero(a, i) + entry_or_zero(b, i))
}

/// 1 at each active position of `scores`, 0 elsewhere.
pub open spec fn indicator(scores: Seq<u32>, threshold: u32) -> Seq<int> {
    Seq::new(scores.len(), |i: int| if is_active(scores, i, threshold) { 1int } else { 0int })
}

/// The layers a per-layer map holds, each once, in the map's own order.
pub fn layer_keys<V>(m: &HashMap<i32, V>) -> (ks: Vec<i32>)
    ensures
        ks@.to_set() == m@.dom(),
        ks@.no_duplicates(),
{
    let mut ks: Vec<i32> = Vec::new();
    let ghost sq = m.keys().remaining();
    for k in it: m.keys()
        invariant
            it.seq() == sq,
            ks@.len() == it.index(),
            forall|j: int| 0 <= j < it.index() ==> ks@[j] == *it.seq()[j],
    {
        ks.push(*k);
    }
    assert(ks@ =~= sq.map_values(|r: &i32| *r));
    assert(sq.map_values(|r: &i32| *r) =~= sq.unref());
    ks
}

/// Count rows as integers.
pub open spec fn as_ints(v: Seq<u64>) -> Seq<int> {
    v.map_values(|x: u64| x as int)
}

/// The per-position activation counts of `layer` over `records`: the sum of
/// the activity indicators of every record of that layer (empty when the
/// layer never occurs).
pub open spec fn layer_hist(records: Seq<Record>, layer: i32, threshold: u32) -> Seq<int>
    decreases records.len(),
{
    if records.len() == 0 {
        Seq::empty()
    } else {
        let prev = layer_hist(records.drop_last(), layer, threshold);
        let r = records.last();
        if r.layer == layer {
            padd(prev, indicator(r.scores@, threshold))
        } else {
            prev
        }
    }
}

/// The layers that occur in `records`.
pub open spec fn layers_of(records: Seq<Record>) -> Set<i32> {
    Set::new(|l: i32| exists|k: int| 0 <= k < records.len() && #[trigger] records[k].layer == l)
}

/// Number of records of `layer`.
pub open spec fn records_in(records: Seq<Record>, layer: i32) -> nat
    decreases records.len(),
{
    if records.len() == 0 {
        0
    } else {
        records_in(records.drop_last(), layer) + if records.last().layer == layer {
            1nat
        } else {
            0nat
        }
    }
}

/// The count row a map holds for `layer`, empty when it holds none.
pub open spec fn row_or_empty(m: Map<i32, Vec<u64>>, layer: i32) -> Seq<int> {
    if m.contains_key(layer) {
        as_ints(m[layer]@)
    } else {
        Seq::empty()
    }
}

/// `h` holds exactly the histograms of `records`.
pub open spec fn histograms_of(h: Map<i32, Vec<u64>>, records: Seq<Record>, threshold: u32) -> bool {
    &&& h.dom() == layers_of(records)
    &&& forall|l: i32| #[trigger]
        h.contains_key(l) ==> as_ints(h[l]@) == layer_hist(records, l, threshold)
}

/// Every count of `layer`'s row can still be incremented.
pub open spec fn row_can_grow(m: Map<i32, Vec<u64>>, layer: i32) -> bool {
    m.contains_key(layer) ==> forall|i: int| 0 <= i < m[layer]@.len() ==> m[layer]@[i] < u64::MAX
}

pub proof fn lemma_layers_of_push(records: Seq<Record>, r: Record)
    ensures
        layers_of(records.push(r)) == layers_of(records).insert(r.layer),
{
    let s = records.push(r);
    assert forall|l: i32| layers_of(s).contains(l) <==> layers_of(records).insert(r.layer).contains(
        l,
    ) by {
        if layers_of(s).contains(l) {
            let k = choose|k: int| 0 <= k < s.len() && #[trigger] s[k].layer == l;
            if k < records.len() {
                assert(records[k].layer == l);
            }
        }
        if layers_of(records).contains(l) {
            let k = choose|k: int| 0 <= k < records.len() && #[trigger] records[k].layer == l;
            assert(s[k].layer == l);
        }
        if l == r.layer {
            assert(s[records.len() as int].layer == l);
        }
    }
    assert(layers_of(s) =~= layers_of(records).insert(r.layer));
}

/// Every count in a layer's histogram is between 0 and the number of records.
pub proof fn lemma_layer_hist_bounded(records: Seq<Record>, layer: i32, threshold: u32)
    ensures
        forall|i: int|
            0 <= i < layer_hist(records, layer, threshold).len() ==> 0 <= #[trigger] layer_hist(
                records,
                layer,
                threshold,
            )[i] <= records_in(records, layer),
    decreases records.len(),
{
    if records.len() > 0 {
        let prefix = records.drop_last();
        lemma_layer_hist_bounded(prefix, layer, threshold);
        let prev = layer_hist(prefix, layer, threshold);
        assert forall|i: int| 0 <= i < prev.len() + 1 implies 0 <= #[trigger] entry_or_zero(prev, i)
            <= records_in(prefix, layer) by {
            if 0 <= i < prev.len() {
                assert(0 <= prev[i] <= records_in(prefix, layer));
            }
        }
    }
}

/// Add the activity indicator of `scores` into a count row, growing the row
/// with zeros to the scores' length first if it is shorter.
pub fn add_indicator(row: &mut Vec<u64>, scores: &Vec<u32>, threshold: u32)
    requires
        forall|i: int| 0 <= i < old(row)@.len() ==> old(row)@[i] < u64::MAX,
    ensures
        as_ints(final(row)@) == padd(as_ints(old(row)@), indicator(scores@, threshold)),
{
    let n = scores.len();
    let ghost orig = as_ints(row@);
    while row.len() < n
        invariant
            forall|i: int| 0 <= i < orig.len() ==> row@[i] == orig[i],
            forall|i: int| orig.len() <= i < row@.len() ==> row@[i] == 0,
            row@.len() >= orig.len(),
            row@.len() <= if orig.len() >= n {
                orig.len() as int
            } else {
                n as int
            },
            forall|i: int| 0 <= i < orig.len() ==> orig[i] < u64::MAX,
        decreases n - row.len(),
    {
        row.push(0);
    }
    let ghost grown = row@;
    let mut i: usize = 0;
    while i < n
        invariant
            n == scores@.len(),
            i <= n,
            row@.len() == grown.len(),
            grown.len() >= n,
            grown.len() >= orig.len(),
            forall|k: int| 0 <= k < orig.len() ==> grown[k] == orig[k],
            forall|k: int| orig.len() <= k < grown.len() ==> grown[k] == 0,
            forall|k: int| 0 <= k < orig.len() ==> orig[k] < u64::MAX,
            forall|k: int|
                0 <= k < i ==> row@[k] == grown[k] + if is_active(scores@, k, threshold) {
                    1int
                } else {
                    0int
                },
            forall|k: int| i <= k < row@.len() ==> row@[k] == grown[k],
        decreases n - i,
    {
        if score_reaches(scores[i], threshold) {
            let c = row[i];
            assert(c == grown[i as int]);
            assert(c < u64::MAX) by {
                if i < orig.len() {
                    assert(grown[i as int] == orig[i as int]);
                }
            }
            row.set(i, c + 1);
        }
        i = i + 1;
    }
    assert(as_ints(row@) =~= padd(orig, indicator(scores@, threshold)));
}

/// Add the counts of `other` into `row` element-wise, growing `row` with
/// zeros to `other`'s length first if it is shorter.
pub fn add_counts(row: &mut Vec<u64>, other: &Vec<u64>)
    requires
        forall|i: int|
            0 <= i < old(row)@.len() && i < other@.len() ==> old(row)@[i] + other@[i] <= u64::MAX,
    ensures
        as_ints(final(row)@) == padd(as_ints(old(row)@), as_ints(other@)),
{
    let n = other.len();
    let ghost orig = row@;
    while row.len() < n
        invariant
            forall|i: int| 0 <= i < orig.len() ==> row@[i] == orig[i],
            forall|i: int| orig.len() <= i < row@.len() ==> row@[i] == 0,
            row@.len() >= orig.len(),
            row@.len() <= if orig.len() >= n {
                orig.len() as int
            } else {
                n as int
            },
        decreases n - row.len(),
    {
        row.push(0);
    }
    let ghost grown = row@;
    let mut i: usize = 0;
    while i < n
        invariant
            n == other@.len(),
            i <= n,
            row@.len() == grown.len(),
            grown.len() >= n,
            grown.len() >= orig.len(),
            forall|k: int| 0 <= k < orig.len() ==> grown[k] == orig[k],
            forall|k: int| orig.len() <= k < grown.len() ==> grown[k] == 0,
            forall|k: int| 0 <= k < orig.len() && k < other@.len() ==> orig[k] + other@[k] <= u64::MAX,
            forall|k: int| 0 <= k < i ==> row@[k] == grown[k] + other@[k],
            forall|k: int| i <= k < row@.len() ==> row@[k] == grown[k],
        decreases n - i,
    {
        let c = row[i];
        assert(c == grown[i as int]);
        assert(c + other@[i as int] <= u64::MAX) by {
            if i < orig.len() {
                assert(grown[i as int] == orig[i as int]);
            }
        }
        row.set(i, c + other[i]);
        i = i + 1;
    }
    assert(as_ints(row@) =~= padd(as_ints(orig), as_ints(other@)));
}

/// Fold one record into per-layer histograms: its layer's row gains 1 at
/// every active position (growing to the record's length if needed).
pub fn add_to_histograms(hist: &mut LayerHistograms, record: &Record, threshold: u32)
    requires
        row_can_grow(old(hist)@, record.layer),
    ensures
        final(hist)@.dom() == old(hist)@.dom().insert(record.layer),
        forall|l: i32|
            l != record.layer && #[trigger] old(hist)@.contains_key(l) ==> final(hist)@[l]
                == old(hist)@[l],
        as_ints(final(hist)@[record.layer]@) == padd(
            row_or_empty(old(hist)@, record.layer),
            indicator(record.scores@, threshold),
        ),
{
    let mut row: Vec<u64> = match hist.remove(&record.layer) {
        Some(v) => v,
        None => Vec::new(),
    };
    assert(as_ints(row@) == row_or_empty(old(hist)@, record.layer));
    add_indicator(&mut row, &record.scores, threshold);
    hist.insert(record.layer, row);
    assert(final(hist)@.dom() =~= old(hist)@.dom().insert(record.layer));
}

/// Per-layer histograms of active positions: for every layer occurring in
/// `records`, how many of that layer's records had each neuron position
/// active (rows are as long as the layer's longest record).
pub fn compute_histograms(records: &Vec<Record>, threshold: u32) -> (h: LayerHistograms)
    ensures
        histograms_of(h@, records@, threshold),
{
    let mut h: LayerHistograms = HashMap::new();
    let mut k: usize = 0;
    assert(layers_of(records@.take(0)) =~= Set::empty());
    while k < records.len()
        invariant
            k <= records@.len(),
            histograms_of(h@, records@.take(k as int), threshold),
        decreases records@.len() - k,
    {
        let ghost pre = records@.take(k as int);
        let ghost post = records@.take(k + 1);
        assert(post.drop_last() =~= pre);
        assert(post =~= pre.push(records@[k as int]));
        proof {
            lemma_layers_of_push(pre, records@[k as int]);
            lemma_layer_hist_bounded(pre, records@[k as int].layer, threshold);
            lemma_records_in_bounded(pre, records@[k as int].layer);
            let l = records@[k as int].layer;
            if h@.contains_key(l) {
                assert forall|i: int| 0 <= i < h@[l]@.len() implies h@[l]@[i] < u64::MAX by {
                    assert(as_ints(h@[l]@)[i] == h@[l]@[i] as int);
                    assert(as_ints(h@[l]@)[i] == layer_hist(pre, l, threshold)[i]);
                }
            } else {
                assert(!layers_of(pre).contains(l));
                assert(layer_hist(pre, l, threshold) =~= Seq::empty()) by {
                    lemma_layer_hist_absent(pre, l, threshold);
                }
            }
        }
        let ghost old_h = h@;
        add_to_histograms(&mut h, &records[k], threshold);
        proof {
            let r = records@[k as int];
            assert(h@.dom() =~= layers_of(post));
            assert forall|l: i32| #[trigger] h@.contains_key(l) implies as_ints(h@[l]@) == layer_hist(
                post,
                l,
                threshold,
            ) by {
                if l != r.layer {
                    assert(old_h.contains_key(l));
                } else {
                    if old_h.contains_key(l) {
                        assert(row_or_empty(old_h, l) == layer_hist(pre, l, threshold));
                    } else {
                        assert(!layers_of(pre).contains(l));
                        lemma_layer_hist_absent(pre, l, threshold);
                    }
                }
            }
        }
        k = k + 1;
    }
    assert(records@.take(k as int) =~= records@);
    h
}

/// A layer that never occurs has an empty histogram.
pub proof fn lemma_layer_hist_absent(records: Seq<Record>, layer: i32, threshold: u32)
    requires
        !layers_of(records).contains(layer),
    ensures
        layer_hist(records, layer, threshold) == Seq::<int>::empty(),
        records_in(records, layer) == 0,
    decreases records.len(),
{
    if records.len() > 0 {
        let prefix = records.drop_last();
        assert(!layers_of(prefix).contains(layer)) by {
            if layers_of(prefix).contains(layer) {
                let k = choose|k: int| 0 <= k < prefix.len() && #[trigger] prefix[k].layer == layer;
                assert(records[k].layer == layer);
            }
        }
        assert(records.last().layer != layer) by {
            if records.last().layer == layer {
                assert(records[records.len() - 1].layer == layer);
            }
        }
        lemma_layer_hist_absent(prefix, layer, threshold);
    }
}

pub proof fn lemma_records_in_bounded(records: Seq<Record>, layer: i32)
    ensures
        records_in(records, layer) <= records.len(),
    decreases records.len(),
{
    if records.len() > 0 {
        lemma_records_in_bounded(records.drop_last(), layer);
    }
}

} // verus!
