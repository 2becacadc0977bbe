//! Activation sparsity: how many neurons were seen and how many were active,
//! overall and per layer.
use std::collections::HashMap;
use vstd::prelude::*;

use crate::histogram::layers_of;
use crate::record::{active_count, Record};

verus! {

broadcast use vstd::std_specs::hash::group_hash_axioms;

/// Per-layer sparsity counts. The sparsity itself is
/// `1 - activated_neurons / total_neurons` (0 when nothing was seen).
#[derive(Debug, Clone, Copy, PartialEq, Eq)]
pub struct LayerSparsity {
    pub total_neurons: u64,
    pub activated_neurons: u64,
}

/// Sparsity counts: overall + per-layer.
#[derive(Debug, Clone)]
pub struct SparsityStats {
    pub overall: LayerSparsity,
    pub per_layer: HashMap<i32, LayerSparsity>,
}

/// Whether a record belongs to the selection (`None` = every layer).
pub open spec fn in_selection(r: Record, layer: Option<i32>) -> bool {
    match layer {
        Some(l) => r.layer == l,
        None => true,
    }
}

/// Total number of neurons over the selected records.
pub open spec fn neurons_in(records: Seq<Record>, layer: Option<i32>) -> nat
    decreases records.len(),
{
    if records.len() == 0 {
        0
    } else {
        neurons_in(records.drop_last(), layer) + if in_selection(records.last(), layer) {
            records.last().scores@.len()
        } else {
            0nat
        }
    }
}

/// Total number of active neurons over the selected records.
pub open spec fn activated_in(records: Seq<Record>, layer: Option<i32>, threshold: u32) -> nat
    decreases records.len(),
{
    if records.len() == 0 {
        0
    } else {
        activated_in(records.drop_last(), layer, threshold) + if in_selection(
            records.last(),
            layer,
        ) {
            active_count(records.last().scores@, threshold)
        } else {
            0nat
        }
    }
}

/// `s` holds exactly the sparsity counts of `records`.
pub open spec fn sparsity_of(s: SparsityStats, records: Seq<Record>, threshold: u32) -> bool {
    &&& s.overall.total_neurons == neurons_in(records, None)
    &&& s.overall.activated_neurons == activated_in(records, None, threshold)
    &&& s.per_layer@.dom() == layers_of(records)
    &&& forall|l: i32| #[trigger]
        s.per_layer@.contains_key(l) ==> {
            &&& s.per_layer@[l].total_neurons == neurons_in(records, Some(l))
            &&& s.per_layer@[l].activated_neurons == activated_in(records, Some(l), threshold)
        }
}

/// Counts that can be produced by adding up records: nothing is more
/// active than it is large, and no layer holds more than the whole.
pub open spec fn sparsity_wf(s: SparsityStats) -> bool {
    &&& s.overall.activated_neurons <= s.overall.total_neurons
    &&& forall|l: i32| #[trigger]
        s.per_layer@.contains_key(l) ==> s.per_layer@[l].activated_neurons
            <= s.per_layer@[l].total_neurons <= s.overall.total_neurons
}

pub proof fn lemma_active_count_bounded(scores: Seq<u32>, threshold: u32)
    ensures
        active_count(scores, threshold) <= scores.len(),
    decreases scores.len(),
{
    if scores.len() > 0 {
        lemma_active_count_bounded(scores.drop_last(), threshold);
    }
}

/// Fold one record into the sparsity counts.
pub fn add_to_sparsity(stats: &mut SparsityStats, record: &Record, threshold: u32)
    requires
        sparsity_wf(*old(stats)),
        old(stats).overall.total_neurons + record.scores@.len() <= u64::MAX,
    ensures
        sparsity_wf(*final(stats)),
        final(stats).overall.total_neurons == old(stats).overall.total_neurons
            + record.scores@.len(),
        final(stats).overall.activated_neurons == old(stats).overall.activated_neurons
            + active_count(record.scores@, threshold),
        final(stats).per_layer@.dom() == old(stats).per_layer@.dom().insert(record.layer),
        forall|l: i32|
            l != record.layer && #[trigger] old(stats).per_layer@.contains_key(l)
                ==> final(stats).per_layer@[l] == old(stats).per_layer@[l],
        old(stats).per_layer@.contains_key(record.layer) ==> {
            &&& final(stats).per_layer@[record.layer].total_neurons == old(
                stats,
            ).per_layer@[record.layer].total_neurons + record.scores@.len()
            &&& final(stats).per_layer@[record.layer].activated_neurons == old(
                stats,
            ).per_layer@[record.layer].activated_neurons + active_count(record.scores@, threshold)
        },
        !old(stats).per_layer@.contains_key(record.layer) ==> {
            &&& final(stats).per_layer@[record.layer].total_neurons == record.scores@.len()
            &&& final(stats).per_layer@[record.layer].activated_neurons == active_count(
                record.scores@,
                threshold,
            )
        },
{
    let total = record.scores.len() as u64;
    let activated = record.activated_count(threshold) as u64;
    proof {
        lemma_active_count_bounded(record.scores@, threshold);
    }
    stats.overall.total_neurons = stats.overall.total_neurons + total;
    stats.overall.activated_neurons = stats.overall.activated_neurons + activated;
    let entry = match stats.per_layer.get(&record.layer) {
        Some(e) => *e,
        None => LayerSparsity { total_neurons: 0, activated_neurons: 0 },
    };
    let updated = LayerSparsity {
        total_neurons: entry.total_neurons + total,
        activated_neurons: entry.activated_neurons + activated,
    };
    stats.per_layer.insert(record.layer, updated);
    assert(stats.per_layer@.dom() =~= old(stats).per_layer@.dom().insert(record.layer));
}

/// Sparsity counts over `records`: overall, and for each layer occurring in
/// them.
pub fn compute_sparsity(records: &Vec<Record>, threshold: u32) -> (s: SparsityStats)
    requires
        neurons_in(records@, None) <= u64::MAX,
    ensures
        sparsity_of(s, records@, threshold),
        sparsity_wf(s),
{
    let mut s = SparsityStats {
        overall: LayerSparsity { total_neurons: 0, activated_neurons: 0 },
        per_layer: HashMap::new(),
    };
    let mut k: usize = 0;
    assert(layers_of(records@.take(0)) =~= Set::empty());
    while k < records.len()
        invariant
            k <= records@.len(),
            sparsity_of(s, records@.take(k as int), threshold),
            sparsity_wf(s),
            neurons_in(records@, None) <= u64::MAX,
        decreases records@.len() - k,
    {
        let ghost pre = records@.take(k as int);
        let ghost post = records@.take(k + 1);
        let ghost r = records@[k as int];
        assert(post.drop_last() =~= pre);
        assert(post =~= pre.push(r));
        proof {
            crate::histogram::lemma_layers_of_push(pre, r);
            lemma_neurons_in_prefix(records@, k as int + 1);
        }
        let ghost old_s = s;
        add_to_sparsity(&mut s, &records[k], threshold);
        proof {
            assert(s.per_layer@.dom() =~= layers_of(post));
            assert forall|l: i32| #[trigger] s.per_layer@.contains_key(l) implies {
                &&& s.per_layer@[l].total_neurons == neurons_in(post, Some(l))
                &&& s.per_layer@[l].activated_neurons == activated_in(post, Some(l), threshold)
            } by {
                if l != r.layer {
                    assert(old_s.per_layer@.contains_key(l));
                } else if !old_s.per_layer@.contains_key(l) {
                    lemma_absent_layer_sums(pre, l, threshold);
                }
            }
        }
        k = k + 1;
    }
    assert(records@.take(k as int) =~= records@);
    s
}

/// Layers that never occur contribute nothing.
pub proof fn lemma_absent_layer_sums(records: Seq<Record>, layer: i32, threshold: u32)
    requires
        !layers_of(records).contains(layer),
    ensures
        neurons_in(records, Some(layer)) == 0,
        activated_in(records, Some(layer), threshold) == 0,
    decreases records.len(),
{
    if records.len() > 0 {
        let prefix = records.drop_last();
        assert(!layers_of(prefix).contains(layer)) by {
            if layers_of(prefix).contains(layer) {
                let k = choose|k: int| 0 <= k < prefix.len() && #[trigger] prefix[k].layer == layer;
                assert(records[k].layer == layer);
            }
        }
        assert(records.last().layer != layer) by {
            if records.last().layer == layer {
                assert(records[records.len() - 1].layer == layer);
            }
        }
        lemma_absent_layer_sums(prefix, layer, threshold);
    }
}

/// A prefix never holds more neurons than the whole.
pub proof fn lemma_neurons_in_prefix(records: Seq<Record>, k: int)
    requires
        0 <= k <= records.len(),
    ensures
        neurons_in(records.take(k), None) <= neurons_in(records, None),
    decreases records.len() - k,
{
    if k < records.len() {
        lemma_neurons_in_prefix(records, k + 1);
        assert(records.take(k + 1).drop_last() =~= records.take(k));
    } else {
        assert(records.take(k) =~= records);
    }
}

} // verus!
