//! Per-layer activation statistics: the calibration input to bank mapping.
use std::collections::HashMap;
use vstd::prelude::*;

use crate::histogram::{
    add_counts, add_indicator, as_ints, entry_or_zero, indicator, layer_hist, layer_keys,
    layers_of, lemma_layer_hist_absent, lemma_layer_hist_bounded, lemma_layers_of_push,
    lemma_records_in_bounded, padd, records_in,
};
use crate::record::Record;

verus! {

broadcast use vstd::std_specs::hash::group_hash_axioms;

/// Per-layer activation statistics: how many records were observed for a
/// layer, and how many of them had each neuron position active. The
/// estimated probability that neuron `i` is active is
/// `activated_counts[i] / total_records` (0 when no record was seen).
#[derive(Debug, Clone)]
pub struct LayerActivationStats {
    pub total_records: u64,
    pub activated_counts: Vec<u64>,
}

pub type LayerActivationTable = HashMap<i32, LayerActivationStats>;

/// The activation weight of every neuron: its activation count, or 0 for
/// every neuron when no record was seen. The weights are the activation
/// probabilities times `total_records`, so they order and pack neurons as
/// the probabilities do.
pub open spec fn weights_of(s: LayerActivationStats) -> Seq<u64> {
    if s.total_records == 0 {
        Seq::new(s.activated_counts@.len(), |i: int| 0u64)
    } else {
        s.activated_counts@
    }
}

impl LayerActivationStats {
    /// The activation weight of every neuron (see [`weights_of`]).
    pub fn activation_weights(&self) -> (w: Vec<u64>)
        ensures
            w@ == weights_of(*self),
    {
        let n = self.activated_counts.len();
        let zero = self.total_records == 0;
        let mut w: Vec<u64> = Vec::new();
        let mut i: usize = 0;
        while i < n
            invariant
                n == self.activated_counts@.len(),
                zero == (self.total_records == 0),
                i <= n,
                w@.len() == i,
                forall|j: int| 0 <= j < i ==> #[trigger] w@[j] == weights_of(*self)[j],
            decreases n - i,
        {
            if zero {
                w.push(0);
            } else {
                w.push(self.activated_counts[i]);
            }
            i = i + 1;
        }
        assert(w@ =~= weights_of(*self));
        w
    }
}

/// Record count held for `layer`, 0 when the table holds none.
pub open spec fn total_or_zero(t: Map<i32, LayerActivationStats>, layer: i32) -> int {
    if t.contains_key(layer) {
        t[layer].total_records as int
    } else {
        0
    }
}

/// Count row held for `layer`, empty when the table holds none.
pub open spec fn counts_or_empty(t: Map<i32, LayerActivationStats>, layer: i32) -> Seq<int> {
    if t.contains_key(layer) {
        as_ints(t[layer].activated_counts@)
    } else {
        Seq::empty()
    }
}

/// No position was active in more records than were seen.
pub open spec fn table_wf(t: Map<i32, LayerActivationStats>) -> bool {
    forall|l: i32, i: int|
        #![trigger t[l].activated_counts@[i]]
        t.contains_key(l) && 0 <= i < t[l].activated_counts@.len()
            ==> t[l].activated_counts@[i] <= t[l].total_records
}

/// `t` holds exactly the activation statistics of `records`.
pub open spec fn stats_of(t: Map<i32, LayerActivationStats>, records: Seq<Record>, threshold: u32) -> bool {
    &&& t.dom() == layers_of(records)
    &&& forall|l: i32| #[trigger]
        t.contains_key(l) ==> {
            &&& t[l].total_records == records_in(records, l)
            &&& as_ints(t[l].activated_counts@) == layer_hist(records, l, threshold)
        }
}

/// `m` is the layer-wise sum of `a` and `b`: every layer of either, with
/// record counts added and count rows added element-wise.
pub open spec fn merged_from(
    m: Map<i32, LayerActivationStats>,
    a: Map<i32, LayerActivationStats>,
    b: Map<i32, LayerActivationStats>,
) -> bool {
    &&& m.dom() == a.dom().union(b.dom())
    &&& forall|l: i32| #[trigger]
        m.contains_key(l) ==> {
            &&& m[l].total_records == total_or_zero(a, l) + total_or_zero(b, l)
            &&& as_ints(m[l].activated_counts@) == padd(counts_or_empty(a, l), counts_or_empty(b, l))
        }
}

/// Two tables can be summed without overflow.
pub open spec fn can_merge(a: Map<i32, LayerActivationStats>, b: Map<i32, LayerActivationStats>) -> bool {
    forall|l: i32|
        #[trigger] a.contains_key(l) && b.contains_key(l) ==> a[l].total_records
            + b[l].total_records <= u64::MAX
}

/// Fold one record into the table: its layer gains one record and 1 at
/// every active position.
pub fn add_to_activation_stats(table: &mut LayerActivationTable, record: &Record, threshold: u32)
    requires
        table_wf(old(table)@),
        old(table)@.contains_key(record.layer) ==> old(table)@[record.layer].total_records
            < u64::MAX,
    ensures
        table_wf(final(table)@),
        final(table)@.dom() == old(table)@.dom().insert(record.layer),
        forall|l: i32|
            l != record.layer && #[trigger] old(table)@.contains_key(l) ==> final(table)@[l]
                == old(table)@[l],
        final(table)@[record.layer].total_records == total_or_zero(old(table)@, record.layer) + 1,
        as_ints(final(table)@[record.layer].activated_counts@) == padd(
            counts_or_empty(old(table)@, record.layer),
            indicator(record.scores@, threshold),
        ),
{
    let entry = table.remove(&record.layer);
    let (total, mut counts) = match entry {
        Some(e) => (e.total_records, e.activated_counts),
        None => (0u64, Vec::new()),
    };
    assert(as_ints(counts@) == counts_or_empty(old(table)@, record.layer));
    add_indicator(&mut counts, &record.scores, threshold);
    proof {
        let o = counts_or_empty(old(table)@, record.layer);
        let ind = indicator(record.scores@, threshold);
        assert forall|i: int| 0 <= i < counts@.len() implies counts@[i] <= total + 1 by {
            assert(as_ints(counts@)[i] == counts@[i] as int);
            assert(as_ints(counts@) == padd(o, ind));
            assert(as_ints(counts@).len() == counts@.len());
            assert(padd(o, ind)[i] == entry_or_zero(o, i) + entry_or_zero(ind, i));
            assert(as_ints(counts@)[i] == entry_or_zero(o, i) + entry_or_zero(ind, i));
            if 0 <= i < o.len() {
                assert(o[i] == old(table)@[record.layer].activated_counts@[i] as int);
            }
        }
    }
    table.insert(
        record.layer,
        LayerActivationStats { total_records: total + 1, activated_counts: counts },
    );
    assert(table@.dom() =~= old(table)@.dom().insert(record.layer));
}

/// Per-layer, per-neuron activation counts over `records`, plus the number
/// of records seen per layer (the denominator of the activation
/// probability).
pub fn compute_activation_stats(records: &Vec<Record>, threshold: u32) -> (t: LayerActivationTable)
    ensures
        stats_of(t@, records@, threshold),
        table_wf(t@),
{
    let mut t: LayerActivationTable = HashMap::new();
    let mut k: usize = 0;
    assert(layers_of(records@.take(0)) =~= Set::empty());
    while k < records.len()
        invariant
            k <= records@.len(),
            stats_of(t@, records@.take(k as int), threshold),
            table_wf(t@),
        decreases records@.len() - k,
    {
        let ghost pre = records@.take(k as int);
        let ghost post = records@.take(k + 1);
        let ghost r = records@[k as int];
        assert(post.drop_last() =~= pre);
        assert(post =~= pre.push(r));
        proof {
            lemma_layers_of_push(pre, r);
            lemma_records_in_bounded(pre, r.layer);
        }
        let ghost old_t = t@;
        add_to_activation_stats(&mut t, &records[k], threshold);
        proof {
            assert(t@.dom() =~= layers_of(post));
            assert forall|l: i32| #[trigger] t@.contains_key(l) implies {
                &&& t@[l].total_records == records_in(post, l)
                &&& as_ints(t@[l].activated_counts@) == layer_hist(post, l, threshold)
            } by {
                if l != r.layer {
                    assert(old_t.contains_key(l));
                } else if !old_t.contains_key(l) {
                    assert(!layers_of(pre).contains(l));
                    lemma_layer_hist_absent(pre, l, threshold);
                }
            }
        }
        k = k + 1;
    }
    assert(records@.take(k as int) =~= records@);
    t
}

/// Sum two activation tables layer by layer: record counts add, count rows
/// add element-wise (the shorter padded with zeros). Used to combine the
/// results of independently processed record streams.
pub fn merge_activation_tables(a: LayerActivationTable, b: LayerActivationTable) -> (m: LayerActivationTable)
    requires
        table_wf(a@),
        table_wf(b@),
        can_merge(a@, b@),
    ensures
        merged_from(m@, a@, b@),
        table_wf(m@),
{
    let mut a = a;
    let ghost a0 = a@;
    let keys = layer_keys(&b);
    let mut j: usize = 0;
    while j < keys.len()
        invariant
            j <= keys@.len(),
            keys@.to_set() == b@.dom(),
            keys@.no_duplicates(),
            table_wf(a0),
            table_wf(b@),
            can_merge(a0, b@),
            table_wf(a@),
            a@.dom() == a0.dom().union(keys@.take(j as int).to_set()),
            forall|l: i32|
                #[trigger] a@.contains_key(l) && keys@.take(j as int).contains(l) ==> {
                    &&& a@[l].total_records == total_or_zero(a0, l) + total_or_zero(b@, l)
                    &&& as_ints(a@[l].activated_counts@) == padd(
                        counts_or_empty(a0, l),
                        counts_or_empty(b@, l),
                    )
                },
            forall|l: i32|
                #[trigger] a@.contains_key(l) && !keys@.take(j as int).contains(l) ==> a@[l]
                    == a0[l],
        decreases keys@.len() - j,
    {
        let layer = keys[j];
        assert(keys@.to_set().contains(layer));
        assert(!keys@.take(j as int).contains(layer)) by {
            if keys@.take(j as int).contains(layer) {
                let w = choose|w: int| 0 <= w < j && #[trigger] keys@.take(j as int)[w] == layer;
                assert(keys@[w] == keys@[j as int]);
            }
        }
        let sb = b.get(&layer).unwrap();
        let ghost before = a@;
        let entry = a.remove(&layer);
        let (total, mut counts) = match entry {
            Some(e) => (e.total_records, e.activated_counts),
            None => (0u64, Vec::new()),
        };
        assert(as_ints(counts@) == counts_or_empty(a0, layer));
        assert(total == total_or_zero(a0, layer));
        proof {
            assert forall|i: int|
                0 <= i < counts@.len() && i < sb.activated_counts@.len() implies counts@[i]
                + sb.activated_counts@[i] <= u64::MAX by {
                assert(counts@[i] <= total) by {
                    assert(as_ints(counts@)[i] == counts@[i] as int);
                    assert(a0[layer].activated_counts@[i] <= a0[layer].total_records);
                }
                assert(sb.activated_counts@[i] <= sb.total_records);
            }
        }
        let ghost old_counts = counts@;
        add_counts(&mut counts, &sb.activated_counts);
        proof {
            let ca = as_ints(old_counts);
            let cb = as_ints(sb.activated_counts@);
            assert forall|i: int| 0 <= i < counts@.len() implies counts@[i] <= total
                + sb.total_records by {
                assert(as_ints(counts@)[i] == counts@[i] as int);
                assert(as_ints(counts@) == padd(ca, cb));
                assert(as_ints(counts@).len() == counts@.len());
                assert(padd(ca, cb)[i] == entry_or_zero(ca, i) + entry_or_zero(cb, i));
                if 0 <= i < old_counts.len() {
                    assert(ca[i] == old_counts[i] as int);
                    assert(a0[layer].activated_counts@[i] <= a0[layer].total_records);
                }
                if 0 <= i < cb.len() {
                    assert(cb[i] == sb.activated_counts@[i] as int);
                    assert(sb.activated_counts@[i] <= sb.total_records);
                }
            }
        }
        a.insert(
            layer,
            LayerActivationStats { total_records: total + sb.total_records, activated_counts: counts },
        );
        proof {
            assert(keys@.take(j + 1) =~= keys@.take(j as int).push(layer));
            keys@.take(j as int).lemma_push_to_set_commute(layer);
            assert(keys@.take(j + 1).to_set() =~= keys@.take(j as int).to_set().insert(layer));
            assert(a@.dom() =~= a0.dom().union(keys@.take(j + 1).to_set()));
            assert forall|l: i32|
                #[trigger] a@.contains_key(l) && !keys@.take(j + 1).contains(l) implies a@[l]
                == a0[l] by {
                assert(keys@.take(j + 1)[j as int] == layer);
                assert(l != layer);
                assert(!keys@.take(j as int).contains(l)) by {
                    if keys@.take(j as int).contains(l) {
                        let w = choose|w: int| 0 <= w < j && #[trigger] keys@.take(j as int)[w] == l;
                        assert(keys@.take(j + 1)[w] == l);
                    }
                }
                assert(before.contains_key(l));
            }
            assert forall|l: i32|
                #[trigger] a@.contains_key(l) && keys@.take(j + 1).contains(l) implies {
                &&& a@[l].total_records == total_or_zero(a0, l) + total_or_zero(b@, l)
                &&& as_ints(a@[l].activated_counts@) == padd(
                    counts_or_empty(a0, l),
                    counts_or_empty(b@, l),
                )
            } by {
                if l != layer {
                    let w = choose|w: int| 0 <= w < j + 1 && #[trigger] keys@.take(j + 1)[w] == l;
                    assert(w < j);
                    assert(keys@.take(j as int)[w] == l);
                    assert(before.contains_key(l));
                }
            }
        }
        j = j + 1;
    }
    proof {
        assert(keys@.take(j as int) =~= keys@);
        assert forall|l: i32| #[trigger] a@.contains_key(l) implies {
            &&& a@[l].total_records == total_or_zero(a0, l) + total_or_zero(b@, l)
            &&& as_ints(a@[l].activated_counts@) == padd(
                counts_or_empty(a0, l),
                counts_or_empty(b@, l),
            )
        } by {
            if !keys@.contains(l) {
                assert(!b@.contains_key(l));
                assert(padd(counts_or_empty(a0, l), Seq::empty()) =~= counts_or_empty(a0, l));
            }
        }
    }
    a
}

/// Adding an empty count row changes nothing.
pub proof fn lemma_padd_empty(x: Seq<int>)
    ensures
        padd(x, Seq::empty()) == x,
        padd(Seq::empty(), x) == x,
{
    assert(padd(x, Seq::empty()) =~= x);
    assert(padd(Seq::empty(), x) =~= x);
}

/// Count-row addition is associative.
pub proof fn lemma_padd_assoc(x: Seq<int>, y: Seq<int>, z: Seq<int>)
    ensures
        padd(padd(x, y), z) == padd(x, padd(y, z)),
{
    assert(padd(padd(x, y), z) =~= padd(x, padd(y, z)));
}

/// Statistics of a concatenation, per layer: record counts add and count
/// rows add element-wise.
pub proof fn lemma_stats_of_concat(ra: Seq<Record>, rb: Seq<Record>, layer: i32, threshold: u32)
    ensures
        records_in(ra + rb, layer) == records_in(ra, layer) + records_in(rb, layer),
        layer_hist(ra + rb, layer, threshold) == padd(
            layer_hist(ra, layer, threshold),
            layer_hist(rb, layer, threshold),
        ),
    decreases rb.len(),
{
    if rb.len() == 0 {
        assert(ra + rb =~= ra);
        lemma_padd_empty(layer_hist(ra, layer, threshold));
    } else {
        let rb0 = rb.drop_last();
        lemma_stats_of_concat(ra, rb0, layer, threshold);
        assert((ra + rb).drop_last() =~= ra + rb0);
        assert((ra + rb).last() == rb.last());
        if rb.last().layer == layer {
            lemma_padd_assoc(
                layer_hist(ra, layer, threshold),
                layer_hist(rb0, layer, threshold),
                indicator(rb.last().scores@, threshold),
            );
        }
    }
}

pub proof fn lemma_layers_of_concat(ra: Seq<Record>, rb: Seq<Record>)
    ensures
        layers_of(ra + rb) == layers_of(ra).union(layers_of(rb)),
{
    let s = ra + rb;
    assert forall|l: i32| #[trigger] layers_of(s).contains(l) <==> layers_of(ra).union(
        layers_of(rb),
    ).contains(l) by {
        if layers_of(s).contains(l) {
            let k = choose|k: int| 0 <= k < s.len() && #[trigger] s[k].layer == l;
            if k < ra.len() {
                assert(ra[k].layer == l);
            } else {
                assert(rb[k - ra.len()].layer == l);
            }
        }
        if layers_of(ra).contains(l) {
            let k = choose|k: int| 0 <= k < ra.len() && #[trigger] ra[k].layer == l;
            assert(s[k].layer == l);
        }
        if layers_of(rb).contains(l) {
            let k = choose|k: int| 0 <= k < rb.len() && #[trigger] rb[k].layer == l;
            assert(s[ra.len() + k].layer == l);
        }
    }
    assert(layers_of(s) =~= layers_of(ra).union(layers_of(rb)));
}

/// Merging is exact: merging the statistics of two independently processed
/// record streams gives the statistics of the two streams processed one
/// after the other.
pub proof fn law_merge_is_concatenation(
    a: Map<i32, LayerActivationStats>,
    b: Map<i32, LayerActivationStats>,
    m: Map<i32, LayerActivationStats>,
    ra: Seq<Record>,
    rb: Seq<Record>,
    threshold: u32,
)
    requires
        stats_of(a, ra, threshold),
        stats_of(b, rb, threshold),
        merged_from(m, a, b),
    ensures
        stats_of(m, ra + rb, threshold),
{
    lemma_layers_of_concat(ra, rb);
    assert(m.dom() =~= layers_of(ra + rb));
    assert forall|l: i32| #[trigger] m.contains_key(l) implies {
        &&& m[l].total_records == records_in(ra + rb, l)
        &&& as_ints(m[l].activated_counts@) == layer_hist(ra + rb, l, threshold)
    } by {
        lemma_stats_of_concat(ra, rb, l, threshold);
        if !a.contains_key(l) {
            assert(!layers_of(ra).contains(l));
            lemma_layer_hist_absent(ra, l, threshold);
        }
        if !b.contains_key(l) {
            assert(!layers_of(rb).contains(l));
            lemma_layer_hist_absent(rb, l, threshold);
        }
    }
}

/// Whether [`merge_activation_tables`] can sum the two tables without
/// overflow.
pub fn tables_can_merge(a: &LayerActivationTable, b: &LayerActivationTable) -> (ok: bool)
    ensures
        ok == can_merge(a@, b@),
{
    let keys = layer_keys(a);
    let mut j: usize = 0;
    while j < keys.len()
        invariant
            keys@.to_set() == a@.dom(),
            j <= keys@.len(),
            forall|w: int|
                0 <= w < j && #[trigger] b@.contains_key(keys@[w]) ==> a@[keys@[w]].total_records
                    + b@[keys@[w]].total_records <= u64::MAX,
        decreases keys@.len() - j,
    {
        let layer = keys[j];
        assert(keys@.to_set().contains(layer));
        let x = a.get(&layer).unwrap().total_records;
        match b.get(&layer) {
            Some(s) => {
                if x > u64::MAX - s.total_records {
                    assert(!can_merge(a@, b@)) by {
                        assert(a@.contains_key(layer) && b@.contains_key(layer));
                    }
                    return false;
                }
            },
            None => {},
        }
        j = j + 1;
    }
    assert forall|l: i32| #[trigger] a@.contains_key(l) && b@.contains_key(l) implies a@[l].total_records
        + b@[l].total_records <= u64::MAX by {
        assert(keys@.to_set().contains(l));
        let w = choose|w: int| 0 <= w < keys@.len() && keys@[w] == l;
        assert(b@.contains_key(keys@[w]));
    }
    true
}

} // verus!
