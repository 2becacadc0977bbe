//! Configuration sets of the layout reports: the calibrations they are run
//! with, the named layout configurations, and the summaries drawn from
//! their totals.
use std::collections::HashMap;
use vstd::prelude::*;

use crate::calibration::{weights_of, LayerActivationTable};
use crate::histogram::layer_keys;
use crate::pim::layout::{LayoutCalibration, LayoutConfig, LayoutTotals, SpanLayout};
use crate::pim::mapping::{
    cluster_rank, cluster_slot_of, counts_int, generate_mapping, mapping_spec, params_valid,
    random_remap, shuffled, MappingParams, MappingStrategy,
};

verus! {

broadcast use vstd::std_specs::hash::group_hash_axioms;

proof fn lemma_take_push_to_set(s: Seq<i32>, j: int)
    requires
        0 <= j < s.len(),
    ensures
        s.take(j + 1).to_set() == s.take(j).to_set().insert(s[j]),
{
    let pre = s.take(j);
    assert(s.take(j + 1) =~= pre.push(s[j]));
    assert forall|x: i32| #[trigger] pre.push(s[j]).contains(x) <==> (pre.contains(x) || x == s[j]) by {
        if pre.push(s[j]).contains(x) {
            let q = choose|q: int| 0 <= q < pre.push(s[j]).len() && pre.push(s[j])[q] == x;
            if q < pre.len() {
                assert(pre[q] == x);
            }
        }
        if pre.contains(x) {
            let q = choose|q: int| 0 <= q < pre.len() && pre[q] == x;
            assert(pre.push(s[j])[q] == x);
        }
        if x == s[j] {
            assert(pre.push(s[j])[pre.len() as int] == x);
        }
    }
    assert(s.take(j + 1).to_set() =~= pre.to_set().insert(s[j]));
}

/// UP calibration of the greedy packer for one span: every layer of
/// `stats` mapped with [`MappingStrategy::GreedyLpt`]; no DOWN clustering.
pub fn greedy_up_calibration(stats: &LayerActivationTable, params: &MappingParams) -> (c: LayoutCalibration)
    requires
        params_valid(*params),
    ensures
        c.up_remap@.dom() == stats@.dom(),
        forall|l: i32|
            #[trigger] c.up_remap@.contains_key(l) ==> counts_int(c.up_remap@[l]@) == mapping_spec(
                weights_of(stats@[l]),
                *params,
                MappingStrategy::GreedyLpt,
            ),
        c.down_slot_of@.dom().is_empty(),
{
    let layers = layer_keys(stats);
    let mut up: HashMap<i32, Vec<usize>> = HashMap::new();
    let mut j: usize = 0;
    while j < layers.len()
        invariant
            params_valid(*params),
            layers@.to_set() == stats@.dom(),
            j <= layers@.len(),
            up@.dom() == layers@.take(j as int).to_set(),
            forall|l: i32|
                #[trigger] up@.contains_key(l) ==> counts_int(up@[l]@) == mapping_spec(
                    weights_of(stats@[l]),
                    *params,
                    MappingStrategy::GreedyLpt,
                ),
        decreases layers@.len() - j,
    {
        let layer = layers[j];
        assert(layers@.to_set().contains(layer));
        let w = stats.get(&layer).unwrap().activation_weights();
        let m = generate_mapping(w.as_slice(), params, MappingStrategy::GreedyLpt);
        assert(counts_int(m@) =~= mapping_spec(weights_of(stats@[layer]), *params, MappingStrategy::GreedyLpt));
        up.insert(layer, m);
        proof {
            lemma_take_push_to_set(layers@, j as int);
        }
        j = j + 1;
    }
    assert(layers@.take(layers@.len() as int) =~= layers@);
    let down: HashMap<i32, Vec<usize>> = HashMap::new();
    LayoutCalibration { up_remap: up, down_slot_of: down }
}

/// DOWN clustering calibration: every layer's neurons ranked by descending
/// activation (see [`cluster_slot_of`]); no UP remap.
pub fn cluster_calibration(stats: &LayerActivationTable) -> (c: LayoutCalibration)
    ensures
        c.down_slot_of@.dom() == stats@.dom(),
        forall|l: i32|
            #[trigger] c.down_slot_of@.contains_key(l) ==> c.down_slot_of@[l]@ == cluster_rank(
                weights_of(stats@[l]),
            ),
        c.up_remap@.dom().is_empty(),
{
    let layers = layer_keys(stats);
    let mut down: HashMap<i32, Vec<usize>> = HashMap::new();
    let mut j: usize = 0;
    while j < layers.len()
        invariant
            layers@.to_set() == stats@.dom(),
            j <= layers@.len(),
            down@.dom() == layers@.take(j as int).to_set(),
            forall|l: i32|
                #[trigger] down@.contains_key(l) ==> down@[l]@ == cluster_rank(weights_of(stats@[l])),
        decreases layers@.len() - j,
    {
        let layer = layers[j];
        assert(layers@.to_set().contains(layer));
        let w = stats.get(&layer).unwrap().activation_weights();
        let slot = cluster_slot_of(w.as_slice());
        down.insert(layer, slot);
        proof {
            lemma_take_push_to_set(layers@, j as int);
        }
        j = j + 1;
    }
    assert(layers@.take(layers@.len() as int) =~= layers@);
    let up: HashMap<i32, Vec<usize>> = HashMap::new();
    LayoutCalibration { up_remap: up, down_slot_of: down }
}

/// Random-placement UP calibration: every layer's neurons shuffled and
/// dealt round-robin to `banks` banks (see [`random_remap`]).
pub fn random_calibration(stats: &LayerActivationTable, banks: usize) -> (c: LayoutCalibration)
    requires
        banks >= 1,
    ensures
        c.up_remap@.dom() == stats@.dom(),
        forall|l: i32|
            #[trigger] c.up_remap@.contains_key(l) ==> {
                let n = stats@[l].activated_counts@.len() as int;
                &&& c.up_remap@[l]@.len() == n
                &&& forall|pos: int|
                    0 <= pos < n ==> #[trigger] c.up_remap@[l]@[shuffled(l, n)[pos]] == pos
                        % (banks as int)
            },
        c.down_slot_of@.dom().is_empty(),
{
    let layers = layer_keys(stats);
    let mut up: HashMap<i32, Vec<usize>> = HashMap::new();
    let mut j: usize = 0;
    while j < layers.len()
        invariant
            banks >= 1,
            layers@.to_set() == stats@.dom(),
            j <= layers@.len(),
            up@.dom() == layers@.take(j as int).to_set(),
            forall|l: i32|
                #[trigger] up@.contains_key(l) ==> {
                    let n = stats@[l].activated_counts@.len() as int;
                    &&& up@[l]@.len() == n
                    &&& forall|pos: int|
                        0 <= pos < n ==> #[trigger] up@[l]@[shuffled(l, n)[pos]] == pos
                            % (banks as int)
                },
        decreases layers@.len() - j,
    {
        let layer = layers[j];
        assert(layers@.to_set().contains(layer));
        let n = stats.get(&layer).unwrap().activated_counts.len();
        let m = random_remap(layer, n, banks);
        up.insert(layer, m);
        proof {
            lemma_take_push_to_set(layers@, j as int);
        }
        j = j + 1;
    }
    assert(layers@.take(layers@.len() as int) =~= layers@);
    let down: HashMap<i32, Vec<usize>> = HashMap::new();
    LayoutCalibration { up_remap: up, down_slot_of: down }
}

/// The layout of `span` banks per tensor, staggered or not.
pub open spec fn span_layout(span: usize, stagger: bool) -> SpanLayout {
    SpanLayout { span, stagger }
}

/// The five configurations of the single-model layout report, in order:
/// non-distributed with the span-1 remap; distributed without and with
/// staggering (span-`up_span` remap); non-distributed with DOWN clustering;
/// distributed, staggered and clustered. UP carries the stagger flag only to
/// show that it changes nothing there.
pub fn layout_report_configs<'a>(
    span1: &'a LayoutCalibration,
    span_n: &'a LayoutCalibration,
    cluster: &'a LayoutCalibration,
    up_span: usize,
    down_span: usize,
) -> (v: Vec<LayoutConfig<'a>>)
    ensures
        v@ == seq![
            ("non-distributed async", span_layout(1, false), Some(span1), span_layout(1, false), None),
            (
                "distributed, no stagger",
                span_layout(up_span, false),
                Some(span_n),
                span_layout(down_span, false),
                None,
            ),
            (
                "distributed + staggered",
                span_layout(up_span, true),
                Some(span_n),
                span_layout(down_span, true),
                None,
            ),
            (
                "non-distributed + down-clustered",
                span_layout(1, false),
                Some(span1),
                span_layout(1, false),
                Some(cluster),
            ),
            (
                "distributed+staggered+clustered",
                span_layout(up_span, true),
                Some(span_n),
                span_layout(down_span, true),
                Some(cluster),
            ),
        ],
{
    let one = SpanLayout { span: 1, stagger: false };
    let up_plain = SpanLayout { span: up_span, stagger: false };
    let up_stagger = SpanLayout { span: up_span, stagger: true };
    let down_plain = SpanLayout { span: down_span, stagger: false };
    let down_stagger = SpanLayout { span: down_span, stagger: true };
    let mut v: Vec<LayoutConfig<'a>> = Vec::new();
    v.push(("non-distributed async", one, Some(span1), one, None));
    v.push(("distributed, no stagger", up_plain, Some(span_n), down_plain, None));
    v.push(("distributed + staggered", up_stagger, Some(span_n), down_stagger, None));
    v.push(("non-distributed + down-clustered", one, Some(span1), one, Some(cluster)));
    v.push(("distributed+staggered+clustered", up_stagger, Some(span_n), down_stagger, Some(cluster)));
    assert(v@ =~= seq![
        ("non-distributed async", span_layout(1, false), Some(span1), span_layout(1, false), None),
        ("distributed, no stagger", span_layout(up_span, false), Some(span_n), span_layout(down_span, false), None),
        ("distributed + staggered", span_layout(up_span, true), Some(span_n), span_layout(down_span, true), None),
        ("non-distributed + down-clustered", span_layout(1, false), Some(span1), span_layout(1, false), Some(cluster)),
        ("distributed+staggered+clustered", span_layout(up_span, true), Some(span_n), span_layout(down_span, true), Some(cluster)),
    ]);
    v
}

/// Combined UP + DOWN time of a configuration.
pub open spec fn combined_time(t: LayoutTotals) -> int {
    t.up_time_ns + t.down_time_ns
}

/// The configuration with the lowest combined UP + DOWN time, the first
/// such on ties; `None` when there is none. This is the layout a single
/// deployment would use.
pub fn best_config(configs: &Vec<LayoutTotals>) -> (best: Option<usize>)
    ensures
        configs@.len() == 0 <==> best is None,
        best matches Some(b) ==> {
            &&& b < configs@.len()
            &&& forall|i: int| 0 <= i < configs@.len() ==> combined_time(configs@[b as int]) <= combined_time(#[trigger] configs@[i])
            &&& forall|i: int| 0 <= i < b ==> combined_time(configs@[b as int]) < combined_time(#[trigger] configs@[i])
        },
{
    if configs.len() == 0 {
        return None;
    }
    let mut b: usize = 0;
    let mut bt: u128 = configs[0].up_time_ns as u128 + configs[0].down_time_ns as u128;
    let mut i: usize = 1;
    while i < configs.len()
        invariant
            1 <= i <= configs@.len(),
            b < i,
            bt == combined_time(configs@[b as int]),
            forall|j: int| 0 <= j < i ==> bt <= combined_time(#[trigger] configs@[j]),
            forall|j: int| 0 <= j < b ==> bt < combined_time(#[trigger] configs@[j]),
        decreases configs@.len() - i,
    {
        let t = configs[i].up_time_ns as u128 + configs[i].down_time_ns as u128;
        if t < bt {
            b = i;
            bt = t;
        }
        i = i + 1;
    }
    Some(b)
}

/// The smallest of a field over all configurations (0 when there is none).
pub open spec fn min_over(configs: Seq<LayoutTotals>, up: bool) -> int
    decreases configs.len(),
{
    if configs.len() == 0 {
        0
    } else {
        let x = if up {
            configs.last().up_time_ns as int
        } else {
            configs.last().down_time_ns as int
        };
        if configs.len() == 1 {
            x
        } else {
            let m = min_over(configs.drop_last(), up);
            if x < m {
                x
            } else {
                m
            }
        }
    }
}
/// The time a configuration's totals give for one projection.
pub open spec fn time_of(c: LayoutTotals, up: bool) -> int {
    if up {
        c.up_time_ns as int
    } else {
        c.down_time_ns as int
    }
}

/// The minimum over the configurations is at most every configuration's
/// time, the first one included, and is some configuration's time.
pub proof fn law_min_over_is_least(configs: Seq<LayoutTotals>, up: bool)
    requires
        configs.len() > 0,
    ensures
        forall|i: int| 0 <= i < configs.len() ==> min_over(configs, up) <= #[trigger] time_of(configs[i], up),
        exists|i: int| 0 <= i < configs.len() && min_over(configs, up) == #[trigger] time_of(configs[i], up),
    decreases configs.len(),
{
    let n = configs.len() as int;
    if n > 1 {
        let p = configs.drop_last();
        law_min_over_is_least(p, up);
        assert forall|i: int| 0 <= i < n implies min_over(configs, up) <= #[trigger] time_of(configs[i], up) by {
            if i < n - 1 {
                assert(configs[i] == p[i]);
            }
        }
        let j = choose|j: int| 0 <= j < p.len() && min_over(p, up) == #[trigger] time_of(p[j], up);
        if min_over(configs, up) == time_of(configs[n - 1], up) {
            assert(time_of(configs[n - 1], up) == min_over(configs, up));
        } else {
            assert(configs[j] == p[j]);
            assert(time_of(configs[j], up) == min_over(configs, up));
        }
    } else {
        assert(time_of(configs[0], up) == min_over(configs, up));
    }
}

fn min_time(configs: &Vec<LayoutTotals>, up: bool) -> (m: u64)
    ensures
        m == min_over(configs@, up),
{
    if configs.len() == 0 {
        return 0;
    }
    let mut m: u64 = if up {
        configs[0].up_time_ns
    } else {
        configs[0].down_time_ns
    };
    assert(configs@.take(1).drop_last() =~= Seq::<LayoutTotals>::empty());
    let mut i: usize = 1;
    while i < configs.len()
        invariant
            1 <= i <= configs@.len(),
            m == min_over(configs@.take(i as int), up),
        decreases configs@.len() - i,
    {
        assert(configs@.take(i + 1).drop_last() =~= configs@.take(i as int));
        let x = if up {
            configs[i].up_time_ns
        } else {
            configs[i].down_time_ns
        };
        if x < m {
            m = x;
        }
        i = i + 1;
    }
    assert(configs@.take(i as int) =~= configs@);
    m
}

/// Best achievable PIM time: the lowest UP time of any configuration plus
/// the lowest DOWN time of any configuration (the two need not come from
/// one configuration).
pub fn best_pim_total(configs: &Vec<LayoutTotals>) -> (t: u128)
    ensures
        t == min_over(configs@, true) + min_over(configs@, false),
        configs@.len() == 0 ==> t == 0,
        forall|i: int, j: int|
            0 <= i < configs@.len() && 0 <= j < configs@.len() ==> t <= #[trigger] configs@[i].up_time_ns
                + #[trigger] configs@[j].down_time_ns,
        configs@.len() > 0 ==> exists|i: int, j: int|
            0 <= i < configs@.len() && 0 <= j < configs@.len() && t == #[trigger] configs@[i].up_time_ns
                + #[trigger] configs@[j].down_time_ns,
{
    let up = min_time(configs, true);
    let down = min_time(configs, false);
    proof {
        if configs@.len() > 0 {
            law_best_pim_total_is_least(configs@);
        }
    }
    up as u128 + down as u128
}

/// The best achievable PIM time is the least sum of one configuration's UP
/// time and one configuration's DOWN time, over all pairs (the first
/// configuration included), and some pair attains it.
pub proof fn law_best_pim_total_is_least(configs: Seq<LayoutTotals>)
    requires
        configs.len() > 0,
    ensures
        forall|i: int, j: int|
            0 <= i < configs.len() && 0 <= j < configs.len() ==> min_over(configs, true) + min_over(
                configs,
                false,
            ) <= #[trigger] configs[i].up_time_ns + #[trigger] configs[j].down_time_ns,
        exists|i: int, j: int|
            0 <= i < configs.len() && 0 <= j < configs.len() && min_over(configs, true) + min_over(
                configs,
                false,
            ) == #[trigger] configs[i].up_time_ns + #[trigger] configs[j].down_time_ns,
{
    law_min_over_is_least(configs, true);
    law_min_over_is_least(configs, false);
    assert forall|i: int, j: int| 0 <= i < configs.len() && 0 <= j < configs.len() implies min_over(
        configs,
        true,
    ) + min_over(configs, false) <= #[trigger] configs[i].up_time_ns
        + #[trigger] configs[j].down_time_ns by {
        assert(min_over(configs, true) <= time_of(configs[i], true));
        assert(min_over(configs, false) <= time_of(configs[j], false));
    }
    let a = choose|i: int| 0 <= i < configs.len() && min_over(configs, true) == #[trigger] time_of(configs[i], true);
    let b = choose|i: int| 0 <= i < configs.len() && min_over(configs, false) == #[trigger] time_of(configs[i], false);
    assert(min_over(configs, true) + min_over(configs, false) == configs[a].up_time_ns
        + configs[b].down_time_ns);
}

} // verus!
