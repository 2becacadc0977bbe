//! Static, calibration-based neuron -> bank mapping.
use std::collections::HashMap;
use vstd::prelude::*;

use crate::calibration::{weights_of, LayerActivationTable};
use crate::histogram::layer_keys;
use crate::pim::simulate::ceil_div;

verus! {

broadcast use vstd::std_specs::hash::group_hash_axioms;

/// Pre-computed neuron-to-bank remapping for load balancing: for each layer,
/// the *global* bank index (in `0..banks`) of every neuron, for the DOWN and
/// the UP weight array separately (the two arrays are physically separate,
/// so their placements are independent).
#[derive(Debug, Clone)]
pub struct RemapTable {
    /// layer_id -> bank of each neuron, for the DOWN async layout.
    pub down_remap: HashMap<i32, Vec<usize>>,
    /// layer_id -> bank of each neuron, for the UP async layout.
    pub up_remap: HashMap<i32, Vec<usize>>,
}

/// Every bank index in a per-layer table is below `banks`.
pub open spec fn table_fits(t: Map<i32, Vec<usize>>, banks: int) -> bool {
    forall|l: i32, i: int|
        #![trigger t[l]@[i]]
        t.contains_key(l) && 0 <= i < t[l]@.len() ==> t[l]@[i] < banks
}

/// Every bank index of the remap table is below `banks`.
pub open spec fn remap_fits(r: RemapTable, banks: int) -> bool {
    table_fits(r.down_remap@, banks) && table_fits(r.up_remap@, banks)
}

/// Whether every bank index in a per-layer table is below `banks`.
pub fn layer_table_fits(t: &HashMap<i32, Vec<usize>>, banks: usize) -> (ok: bool)
    ensures
        ok == table_fits(t@, banks as int),
{
    let keys = layer_keys(t);
    let mut j: usize = 0;
    while j < keys.len()
        invariant
            j <= keys@.len(),
            keys@.to_set() == t@.dom(),
            forall|w: int, i: int|
                0 <= w < j && 0 <= i < t@[keys@[w]]@.len() ==> #[trigger] t@[keys@[w]]@[i] < banks,
        decreases keys@.len() - j,
    {
        let layer = keys[j];
        assert(keys@.to_set().contains(layer));
        let row = t.get(&layer).unwrap();
        assert(t@.contains_key(layer));
        assert(*row == t@[layer]);
        let mut i: usize = 0;
        while i < row.len()
            invariant
                *row == t@[layer],
                t@.contains_key(layer),
                i <= row@.len(),
                forall|k: int| 0 <= k < i ==> row@[k] < banks,
            decreases row@.len() - i,
        {
            if row[i] >= banks {
                assert(t@[layer]@[i as int] >= banks);
                assert(!table_fits(t@, banks as int));
                return false;
            }
            i = i + 1;
        }
        j = j + 1;
    }
    assert forall|l: i32, i: int| t@.contains_key(l) && 0 <= i < t@[l]@.len() implies #[trigger] t@[l]@[i]
        < banks by {
        assert(keys@.to_set().contains(l));
        let w = choose|w: int| 0 <= w < keys@.len() && keys@[w] == l;
        assert(t@[keys@[w]]@[i] < banks);
    }
    true
}

impl RemapTable {
    /// Whether every bank index of the table is below `banks` (a table
    /// generated for a larger array cannot drive this one).
    pub fn fits_banks(&self, banks: usize) -> (ok: bool)
        ensures
            ok == remap_fits(*self, banks as int),
    {
        layer_table_fits(&self.down_remap, banks) && layer_table_fits(&self.up_remap, banks)
    }
}

// ── Ranking neurons by activation ────────────────────────────────

/// Neuron `a` comes before neuron `b` in descending-activation order: it is
/// more often active, or equally often and has the lower index.
pub open spec fn precedes(w: Seq<u64>, a: int, b: int) -> bool {
    w[a] > w[b] || (w[a] == w[b] && a < b)
}

/// Some neuron sits at position `r`.
pub open spec fn position_taken(slot: Seq<usize>, n: int, r: int) -> bool {
    exists|j: int| 0 <= j < n && slot[j] == r
}

/// `slot` gives every neuron its position (0 = most often active) in
/// descending-activation order: a bijection onto `0..n` that respects
/// [`precedes`].
pub open spec fn is_ranking(w: Seq<u64>, slot: Seq<usize>) -> bool {
    &&& slot.len() == w.len()
    &&& forall|j: int| 0 <= j < w.len() ==> #[trigger] slot[j] < w.len()
    &&& forall|r: int| 0 <= r < w.len() ==> #[trigger] position_taken(slot, w.len() as int, r)
    &&& forall|a: int, b: int|
        0 <= a < w.len() && 0 <= b < w.len() && precedes(w, a, b) ==> #[trigger] slot[a]
            < #[trigger] slot[b]
}

/// The position of every neuron in descending-activation order (there is
/// exactly one ranking, see [`lemma_ranking_unique`]).
pub open spec fn cluster_rank(w: Seq<u64>) -> Seq<usize> {
    choose|s: Seq<usize>| is_ranking(w, s)
}

/// The neuron at each position of descending-activation order.
pub open spec fn rank_order(w: Seq<u64>) -> Seq<usize> {
    Seq::new(
        w.len(),
        |r: int| (choose|j: int| 0 <= j < w.len() && cluster_rank(w)[j] == r) as usize,
    )
}

proof fn lemma_rankings_agree_below(w: Seq<u64>, s1: Seq<usize>, s2: Seq<usize>, r: int)
    requires
        is_ranking(w, s1),
        is_ranking(w, s2),
        0 <= r < w.len(),
    ensures
        forall|j: int| 0 <= j < w.len() && s1[j] <= r ==> #[trigger] s2[j] == s1[j],
        forall|j: int| 0 <= j < w.len() && s2[j] <= r ==> #[trigger] s1[j] == s2[j],
    decreases r,
{
    if r > 0 {
        lemma_rankings_agree_below(w, s1, s2, r - 1);
    }
    assert(position_taken(s1, w.len() as int, r));
    assert(position_taken(s2, w.len() as int, r));
    let x = choose|j: int| 0 <= j < w.len() && s1[j] == r;
    let y = choose|j: int| 0 <= j < w.len() && s2[j] == r;
    assert(s1[x] == r);
    assert(s2[y] == r);
    if x != y {
        if precedes(w, x, y) {
            assert(s2[x] < s2[y]);
            assert(s1[x] == s2[x]);
        } else {
            assert(precedes(w, y, x));
            assert(s1[y] < s1[x]);
            assert(s2[y] == s1[y]);
        }
    }
    assert forall|j: int| 0 <= j < w.len() implies (s1[j] == r <==> s2[j] == r) by {
        if s1[j] == r && j != x {
            if precedes(w, j, x) {
                assert(s1[j] < s1[x]);
            } else {
                assert(precedes(w, x, j));
                assert(s1[x] < s1[j]);
            }
        }
        if s2[j] == r && j != y {
            if precedes(w, j, y) {
                assert(s2[j] < s2[y]);
            } else {
                assert(precedes(w, y, j));
                assert(s2[y] < s2[j]);
            }
        }
    }
}

/// There is only one ranking of a weight vector.
pub proof fn lemma_ranking_unique(w: Seq<u64>, s1: Seq<usize>, s2: Seq<usize>)
    requires
        is_ranking(w, s1),
        is_ranking(w, s2),
    ensures
        s1 == s2,
{
    assert forall|j: int| 0 <= j < w.len() implies s1[j] == s2[j] by {
        let q = s1[j] as int;
        lemma_rankings_agree_below(w, s1, s2, q);
        assert(s1[j] <= q);
    }
    assert(s1 =~= s2);
}

/// The sort key of a neuron: ascending keys are descending activation, ties
/// by ascending index.
pub open spec fn rank_key(w: Seq<u64>, j: int) -> (u64, usize) {
    ((u64::MAX - w[j]) as u64, j as usize)
}

/// Lexicographic order on pairs, as std orders tuples.
pub open spec fn pair_le(a: (u64, usize), b: (u64, usize)) -> bool {
    a.0 < b.0 || (a.0 == b.0 && a.1 <= b.1)
}

/// Calls `slice::sort`, which std documents as sorting the slice into
/// ascending order (tuples compare lexicographically); the contract claims
/// that the result is ascending and a permutation of the input.
#[verifier::external_body]
fn sort_pairs(v: &mut Vec<(u64, usize)>)
    ensures
        final(v)@.to_multiset() == old(v)@.to_multiset(),
        forall|i: int, j: int| 0 <= i < j < final(v)@.len() ==> pair_le(final(v)@[i], final(v)@[j]),
{
    v.sort();
}

spec fn sorted_holds(s: Seq<(u64, usize)>, k: int) -> bool {
    exists|r: int| 0 <= r < s.len() && s[r].1 == k
}

/// The neurons in descending-activation order, and each neuron's position
/// in it.
fn rank_neurons(w: &[u64]) -> (res: (Vec<usize>, Vec<usize>))
    ensures
        res.0@.len() == w@.len(),
        forall|r: int| 0 <= r < w@.len() ==> #[trigger] res.0@[r] < w@.len(),
        forall|r: int| 0 <= r < w@.len() ==> res.1@[#[trigger] res.0@[r] as int] == r,
        is_ranking(w@, res.1@),
{
    let n = w.len();
    let mut pairs: Vec<(u64, usize)> = Vec::new();
    let mut j: usize = 0;
    while j < n
        invariant
            n == w@.len(),
            j <= n,
            pairs@.len() == j,
            forall|k: int| 0 <= k < j ==> #[trigger] pairs@[k] == rank_key(w@, k),
        decreases n - j,
    {
        pairs.push((u64::MAX - w[j], j));
        j = j + 1;
    }
    let ghost orig = pairs@;
    proof {
        assert forall|a: int, b: int| 0 <= a < orig.len() && 0 <= b < orig.len() && a != b implies orig[a]
            != orig[b] by {
            assert(orig[a].1 == a);
            assert(orig[b].1 == b);
        }
        assert(orig.no_duplicates());
        orig.lemma_multiset_has_no_duplicates();
    }
    sort_pairs(&mut pairs);
    let ghost sorted = pairs@;
    proof {
        broadcast use vstd::seq_lib::group_to_multiset_ensures;

        assert(sorted.len() == orig.len()) by {
            assert(sorted.to_multiset().len() == orig.to_multiset().len());
        }
        assert forall|x: (u64, usize)| sorted.to_multiset().contains(x) implies sorted.to_multiset().count(
            x,
        ) == 1 by {
            assert(orig.to_multiset().contains(x));
        }
        sorted.lemma_multiset_has_no_duplicates_conv();
        assert forall|r: int| 0 <= r < n implies #[trigger] sorted[r] == rank_key(w@, sorted[r].1 as int)
            && sorted[r].1 < n by {
            assert(sorted.contains(sorted[r]));
            vstd::seq_lib::to_multiset_contains(sorted, sorted[r]);
            vstd::seq_lib::to_multiset_contains(orig, sorted[r]);
            assert(orig.contains(sorted[r]));
            let k = choose|k: int| 0 <= k < orig.len() && orig[k] == sorted[r];
            assert(orig[k] == rank_key(w@, k));
        }
        assert forall|k: int| 0 <= k < n implies #[trigger] sorted_holds(sorted, k) by {
            assert(orig[k] == rank_key(w@, k));
            assert(orig.contains(orig[k]));
            vstd::seq_lib::to_multiset_contains(sorted, orig[k]);
            vstd::seq_lib::to_multiset_contains(orig, orig[k]);
            assert(sorted.contains(orig[k]));
            let r = choose|r: int| 0 <= r < sorted.len() && sorted[r] == orig[k];
            assert(sorted[r].1 == k);
        }
    }
    let mut order: Vec<usize> = Vec::new();
    let mut slot: Vec<usize> = vec![0; n];
    let mut r: usize = 0;
    while r < n
        invariant
            n == w@.len(),
            sorted.len() == n,
            sorted.no_duplicates(),
            pairs@ == sorted,
            forall|t: int| 0 <= t < n ==> #[trigger] sorted[t] == rank_key(w@, sorted[t].1 as int)
                && sorted[t].1 < n,
            r <= n,
            order@.len() == r,
            slot@.len() == n,
            forall|t: int| 0 <= t < r ==> #[trigger] order@[t] == sorted[t].1,
            forall|t: int| 0 <= t < r ==> slot@[#[trigger] order@[t] as int] == t,
            forall|k: int| 0 <= k < n ==> #[trigger] sorted_holds(sorted, k),
        decreases n - r,
    {
        let neuron = pairs[r].1;
        order.push(neuron);
        slot.set(neuron, r);
        proof {
            assert forall|t: int| 0 <= t < r implies order@[t] != neuron by {
                if order@[t] == neuron {
                    assert(sorted[t] == rank_key(w@, neuron as int));
                    assert(sorted[r as int] == rank_key(w@, neuron as int));
                }
            }
        }
        r = r + 1;
    }
    proof {
        assert forall|k: int| 0 <= k < n implies #[trigger] slot@[k] < n by {
            assert(sorted_holds(sorted, k));
            let t = choose|t: int| 0 <= t < n && #[trigger] sorted[t].1 == k;
            assert(order@[t] == k);
        }
        assert forall|q: int| 0 <= q < n implies #[trigger] position_taken(slot@, n as int, q) by {
            assert(slot@[order@[q] as int] == q);
        }
        assert forall|a: int, b: int|
            0 <= a < n && 0 <= b < n && precedes(w@, a, b) implies #[trigger] slot@[a]
            < #[trigger] slot@[b] by {
            assert(sorted_holds(sorted, a));
            assert(sorted_holds(sorted, b));
            let ta = choose|t: int| 0 <= t < n && #[trigger] sorted[t].1 == a;
            let tb = choose|t: int| 0 <= t < n && #[trigger] sorted[t].1 == b;
            assert(order@[ta] == a);
            assert(order@[tb] == b);
            assert(sorted[ta] == rank_key(w@, a));
            assert(sorted[tb] == rank_key(w@, b));
            if tb < ta {
                assert(pair_le(sorted[tb], sorted[ta]));
            }
            assert(ta != tb);
        }
    }
    (order, slot)
}

/// Order neurons by activation count, descending (ties by index), and
/// return `slot_of[neuron]` = its position in that order (0 = most often
/// active). This is the permutation that clusters the hottest neurons into
/// the fewest DOWN row-groups.
pub fn cluster_slot_of(weights: &[u64]) -> (slot_of: Vec<usize>)
    ensures
        is_ranking(weights@, slot_of@),
        slot_of@ == cluster_rank(weights@),
{
    let (_order, slot) = rank_neurons(weights);
    proof {
        lemma_ranking_unique(weights@, slot@, cluster_rank(weights@));
    }
    slot
}

// ── Bank mapping ─────────────────────────────────────────────────

/// Parameters controlling how neurons are packed into banks. A placement
/// unit ("slot") is `span` consecutive banks starting at a multiple of
/// `span`; the mapping assigns whole neurons to slots.
#[derive(Debug, Clone, Copy)]
pub struct MappingParams {
    /// Total number of physical banks in the target array.
    pub n_banks: usize,
    /// Banks per placement unit (must divide `n_banks`). 1 = one bank/neuron.
    pub span: usize,
    /// Soft cap on neurons per slot, as a multiple of the mean occupancy
    /// (n_neurons / n_slots), in thousandths: 1000 = perfectly even count,
    /// more relaxes storage balance to chase load balance.
    pub capacity_slack_permille: u64,
}

impl Default for MappingParams {
    fn default() -> (p: Self)
        ensures
            p.n_banks == 1024,
            p.span == 1,
            p.capacity_slack_permille == 1200,
    {
        MappingParams { n_banks: 1024, span: 1, capacity_slack_permille: 1200 }
    }
}

/// The packing strategies as a command line names them.
#[derive(Debug, Clone, Copy, PartialEq, Eq, Structural)]
pub enum MappingStrategyArg {
    Modulo,
    RoundRobin,
    Greedy,
}

impl MappingStrategyArg {
    /// The strategy the argument selects.
    pub fn strategy(self) -> (s: MappingStrategy)
        ensures
            s == match self {
                MappingStrategyArg::Modulo => MappingStrategy::Modulo,
                MappingStrategyArg::RoundRobin => MappingStrategy::SortedRoundRobin,
                MappingStrategyArg::Greedy => MappingStrategy::GreedyLpt,
            },
    {
        match self {
            MappingStrategyArg::Modulo => MappingStrategy::Modulo,
            MappingStrategyArg::RoundRobin => MappingStrategy::SortedRoundRobin,
            MappingStrategyArg::Greedy => MappingStrategy::GreedyLpt,
        }
    }
}

/// The parameters the packer accepts: a positive span that divides a
/// non-empty bank array.
pub open spec fn params_valid(p: MappingParams) -> bool {
    p.span >= 1 && p.n_banks >= p.span && p.n_banks % p.span == 0
}

/// Number of placement units of the bank array.
pub open spec fn slot_count(p: MappingParams) -> int {
    p.n_banks as int / p.span as int
}

/// A valid bank array has at least one slot.
pub proof fn lemma_slot_count_pos(p: MappingParams)
    requires
        params_valid(p),
    ensures
        slot_count(p) >= 1,
{
    vstd::arithmetic::div_mod::lemma_div_is_ordered(p.span as int, p.n_banks as int, p.span as int);
    vstd::arithmetic::div_mod::lemma_div_by_self(p.span as int);
}

/// Strategy used to turn per-neuron activation weights into a bank
/// assignment.
#[derive(Debug, Clone, Copy, PartialEq, Eq, Structural)]
pub enum MappingStrategy {
    /// Baseline: neuron i goes to slot i % n_slots. Ignores the weights.
    Modulo,
    /// Sort neurons by weight (descending, ties by index) and deal them
    /// round-robin across slots.
    SortedRoundRobin,
    /// Longest-processing-time-first: in descending-weight order, put each
    /// neuron in the least-loaded slot still under its capacity cap (see
    /// [`top_slots`] for how many slots may reach the cap).
    GreedyLpt,
}

/// The per-slot neuron cap of the greedy packer:
/// `max(1, ceil(n / n_slots * slack))`, with the slack in thousandths.
pub open spec fn slot_cap(n: int, n_slots: int, permille: int) -> int {
    let c = ceil_div(n * permille, n_slots * 1000);
    if c < 1 {
        1
    } else {
        c
    }
}

/// How many slots may be filled up to the cap. At a slack of exactly 1
/// (1000 thousandths), where occupancies are to differ by rounding only,
/// and when the cap is the least one that holds all `n` neurons (`(cap - 1)
/// * n_slots < n <= cap * n_slots`): only the `n - (cap - 1) * n_slots`
/// slots that the remainder needs. Otherwise every slot.
pub open spec fn top_slots(n: int, n_slots: int, cap: int, permille: int) -> int {
    if permille == 1000 && (cap - 1) * n_slots < n && n <= cap * n_slots {
        n - (cap - 1) * n_slots
    } else {
        n_slots
    }
}

/// Slot `t` exists and can take one more neuron: it holds fewer than `cap`,
/// and reaching `cap` is still allowed (`open`) unless it stays below.
pub open spec fn has_room(count: Seq<int>, cap: int, open: bool, t: int) -> bool {
    0 <= t < count.len() && count[t] < cap && (count[t] + 1 < cap || open)
}

/// `t` is the slot the greedy packer picks: the least-loaded slot with room
/// (the first such on ties), or slot 0 when no slot has room.
pub open spec fn is_lpt_choice(load: Seq<int>, count: Seq<int>, cap: int, open: bool, t: int) -> bool {
    if exists|u: int| #[trigger] has_room(count, cap, open, u) {
        &&& has_room(count, cap, open, t)
        &&& forall|u: int|
            #[trigger] has_room(count, cap, open, u) ==> load[t] < load[u] || (load[t] == load[u]
                && t <= u)
    } else {
        t == 0
    }
}

/// The slot the greedy packer picks (unique, see [`lemma_lpt_choice_unique`]).
pub open spec fn lpt_choice(load: Seq<int>, count: Seq<int>, cap: int, open: bool) -> int {
    choose|t: int| is_lpt_choice(load, count, cap, open, t)
}

/// There is only one greedy choice.
pub proof fn lemma_lpt_choice_unique(load: Seq<int>, count: Seq<int>, cap: int, open: bool, a: int, b: int)
    requires
        is_lpt_choice(load, count, cap, open, a),
        is_lpt_choice(load, count, cap, open, b),
    ensures
        a == b,
{
    if exists|u: int| #[trigger] has_room(count, cap, open, u) {
        assert(has_room(count, cap, open, a));
        assert(has_room(count, cap, open, b));
    }
}

/// The greedy packer's state after placing the first `k` neurons of
/// descending-weight order: per-slot load, per-slot neuron count, the slot
/// of every neuron (0 for those not yet placed), and how many slots were
/// filled up to the cap (at most `top` may be).
pub open spec fn lpt_after(w: Seq<u64>, n_slots: int, cap: int, top: int, k: int) -> (
    Seq<int>,
    Seq<int>,
    Seq<int>,
    int,
)
    decreases k,
{
    if k <= 0 {
        (
            Seq::new(n_slots as nat, |t: int| 0int),
            Seq::new(n_slots as nat, |t: int| 0int),
            Seq::new(w.len(), |i: int| 0int),
            0,
        )
    } else {
        let prev = lpt_after(w, n_slots, cap, top, k - 1);
        let neuron = rank_order(w)[k - 1] as int;
        let t = lpt_choice(prev.0, prev.1, cap, prev.3 < top);
        (
            prev.0.update(t, prev.0[t] + w[neuron]),
            prev.1.update(t, prev.1[t] + 1),
            prev.2.update(neuron, t),
            prev.3 + if prev.1[t] + 1 == cap {
                1int
            } else {
                0int
            },
        )
    }
}

/// The greedy packer's final state for `w` under `p`.
pub open spec fn lpt_final(w: Seq<u64>, p: MappingParams) -> (Seq<int>, Seq<int>, Seq<int>, int) {
    let n_slots = slot_count(p);
    let cap = slot_cap(w.len() as int, n_slots, p.capacity_slack_permille as int);
    lpt_after(
        w,
        n_slots,
        cap,
        top_slots(w.len() as int, n_slots, cap, p.capacity_slack_permille as int),
        w.len() as int,
    )
}

/// The bank of every neuron under `strategy` (the first bank of its slot).
pub open spec fn mapping_spec(w: Seq<u64>, p: MappingParams, strategy: MappingStrategy) -> Seq<
    int,
> {
    let n_slots = slot_count(p);
    Seq::new(
        w.len(),
        |i: int|
            match strategy {
                MappingStrategy::Modulo => (i % n_slots) * p.span,
                MappingStrategy::SortedRoundRobin => (cluster_rank(w)[i] as int % n_slots) * p.span,
                MappingStrategy::GreedyLpt => lpt_final(w, p).2[i] * p.span,
            },
    )
}

proof fn lemma_slot_bank(slot: int, span: int, n_banks: int)
    requires
        span >= 1,
        0 <= slot < n_banks / span,
    ensures
        0 <= slot * span,
        slot * span + span <= n_banks,
        (slot * span) % span == 0,
{
    assert((n_banks / span) * span <= n_banks) by (nonlinear_arith)
        requires
            span >= 1,
    ;
    assert((slot + 1) * span <= (n_banks / span) * span) by (nonlinear_arith)
        requires
            span >= 1,
            slot + 1 <= n_banks / span,
    ;
    assert(0 <= slot * span) by (nonlinear_arith)
        requires
            span >= 1,
            slot >= 0,
    ;
    assert((slot + 1) * span == slot * span + span) by (nonlinear_arith);
    vstd::arithmetic::div_mod::lemma_mod_multiples_basic(slot, span);
}

/// The first bank of slot `slot`.
fn slot_bank(slot: usize, p: &MappingParams) -> (bank: usize)
    requires
        params_valid(*p),
        slot < slot_count(*p),
    ensures
        bank == slot * p.span,
        bank < p.n_banks,
        bank % p.span == 0,
{
    proof {
        lemma_slot_bank(slot as int, p.span as int, p.n_banks as int);
    }
    slot * p.span
}

/// Per-slot loads as integers.
pub open spec fn loads_int(v: Seq<u128>) -> Seq<int> {
    v.map_values(|x: u128| x as int)
}

/// Per-slot counts (or slot indices) as integers.
pub open spec fn counts_int(v: Seq<usize>) -> Seq<int> {
    v.map_values(|x: usize| x as int)
}

/// The least-loaded slot with room (first on ties), or slot 0 when every
/// slot is full.
fn lpt_pick(load: &Vec<u128>, count: &Vec<usize>, cap: u128, open: bool) -> (t: usize)
    requires
        load@.len() == count@.len(),
        load@.len() > 0,
    ensures
        t < load@.len(),
        t == lpt_choice(loads_int(load@), counts_int(count@), cap as int, open),
{
    let n = load.len();
    let ghost ls = loads_int(load@);
    let ghost cs = counts_int(count@);
    let ghost c = cap as int;
    let mut best: usize = 0;
    let mut found = false;
    let mut s: usize = 0;
    while s < n
        invariant
            n == load@.len(),
            n == count@.len(),
            ls == loads_int(load@),
            cs == counts_int(count@),
            c == cap as int,
            s <= n,
            best < n,
            found ==> has_room(cs, c, open, best as int) && best < s,
            found ==> forall|u: int|
                0 <= u < s && #[trigger] has_room(cs, c, open, u) ==> ls[best as int] < ls[u] || (
                ls[best as int] == ls[u] && best <= u),
            !found ==> best == 0 && forall|u: int| 0 <= u < s ==> !#[trigger] has_room(cs, c, open, u),
        decreases n - s,
    {
        let room = (count[s] as u128) < cap && ((count[s] as u128) + 1 < cap || open);
        if room && (!found || load[s] < load[best]) {
            best = s;
            found = true;
        }
        s = s + 1;
    }
    proof {
        if !found {
            assert forall|u: int| !#[trigger] has_room(cs, c, open, u) by {
                if 0 <= u < n {
                } else {
                }
            }
        }
        assert(is_lpt_choice(ls, cs, c, open, best as int));
        lemma_lpt_choice_unique(ls, cs, c, open, best as int, lpt_choice(ls, cs, c, open));
    }
    best
}

/// The neurons in the order [`rank_neurons`] lists them are those of
/// [`rank_order`].
proof fn lemma_rank_order(w: Seq<u64>, order: Seq<usize>, slot: Seq<usize>)
    requires
        is_ranking(w, slot),
        order.len() == w.len(),
        forall|r: int| 0 <= r < w.len() ==> #[trigger] order[r] < w.len(),
        forall|r: int| 0 <= r < w.len() ==> slot[#[trigger] order[r] as int] == r,
    ensures
        forall|r: int| 0 <= r < w.len() ==> #[trigger] rank_order(w)[r] == order[r],
{
    lemma_ranking_unique(w, slot, cluster_rank(w));
    assert forall|r: int| 0 <= r < w.len() implies #[trigger] rank_order(w)[r] == order[r] by {
        assert(cluster_rank(w)[order[r] as int] == r);
        let j = choose|j: int| 0 <= j < w.len() && cluster_rank(w)[j] == r;
        assert(0 <= j < w.len() && cluster_rank(w)[j] == r);
        let b = order[r] as int;
        if j != b {
            if precedes(w, j, b) {
                assert(slot[j] < slot[b]);
            } else {
                assert(precedes(w, b, j));
                assert(slot[b] < slot[j]);
            }
        }
    }
}

/// The greedy packer's per-slot cap.
fn lpt_cap(n: usize, n_slots: usize, permille: u64) -> (cap: u128)
    requires
        n_slots >= 1,
    ensures
        cap == slot_cap(n as int, n_slots as int, permille as int),
        cap >= 1,
{
    assert((n as int) * (permille as int) <= 0xffff_ffff_ffff_ffffint * 0xffff_ffff_ffff_ffffint)
        by (nonlinear_arith)
        requires
            0 <= n <= 0xffff_ffff_ffff_ffffint,
            0 <= permille <= 0xffff_ffff_ffff_ffffint,
    ;
    let a: u128 = (n as u128) * (permille as u128);
    let b: u128 = (n_slots as u128) * 1000;
    assert(a / b <= a) by (nonlinear_arith)
        requires
            b >= 1,
            a >= 0,
    ;
    let c: u128 = if a % b != 0 {
        a / b + 1
    } else {
        a / b
    };
    if c < 1 {
        1
    } else {
        c
    }
}

/// How many slots the greedy packer may fill up to `cap`.
fn lpt_top(n: usize, n_slots: usize, cap: u128, permille: u64) -> (top: u128)
    requires
        n_slots >= 1,
        cap >= 1,
    ensures
        top == top_slots(n as int, n_slots as int, cap as int, permille as int),
{
    let nn = n as u128;
    let ns = n_slots as u128;
    if permille != 1000 {
        return ns;
    }
    if cap > nn {
        assert((cap - 1) * ns >= n) by (nonlinear_arith)
            requires
                cap - 1 >= n,
                ns >= 1,
                n >= 0,
        ;
        return ns;
    }
    assert(cap * ns <= 0xffff_ffff_ffff_ffffint * 0xffff_ffff_ffff_ffffint) by (nonlinear_arith)
        requires
            cap <= nn,
            nn <= 0xffff_ffff_ffff_ffffint,
            1 <= ns <= 0xffff_ffff_ffff_ffffint,
            cap >= 1,
    ;
    assert((cap - 1) * ns <= cap * ns) by (nonlinear_arith)
        requires
            cap >= 1,
            ns >= 1,
    ;
    let lo = (cap - 1) * ns;
    let hi = cap * ns;
    if lo < nn && nn <= hi {
        nn - lo
    } else {
        ns
    }
}

proof fn lemma_load_bound(load: int, wt: int, k: int, n: int)
    requires
        0 <= load <= k * 0xffff_ffff_ffff_ffffint,
        0 <= wt <= 0xffff_ffff_ffff_ffffint,
        0 <= k < n,
        n <= 0xffff_ffff_ffff_ffffint,
    ensures
        load + wt <= (k + 1) * 0xffff_ffff_ffff_ffffint,
        k * 0xffff_ffff_ffff_ffffint <= (k + 1) * 0xffff_ffff_ffff_ffffint,
        (k + 1) * 0xffff_ffff_ffff_ffffint <= 0xffff_ffff_ffff_ffff_ffff_ffff_ffff_ffffint,
{
    assert((k + 1) * 0xffff_ffff_ffff_ffffint <= 0xffff_ffff_ffff_ffffint * 0xffff_ffff_ffff_ffffint)
        by (nonlinear_arith)
        requires
            0 <= k + 1 <= 0xffff_ffff_ffff_ffffint,
    ;
}

/// How many entries of `s` equal `t`.
pub open spec fn occupancy(s: Seq<int>, t: int) -> int
    decreases s.len(),
{
    if s.len() == 0 {
        0
    } else {
        occupancy(s.drop_last(), t) + if s.last() == t {
            1int
        } else {
            0int
        }
    }
}

/// How many neurons a mapping puts in bank `b`.
pub open spec fn bank_occupancy(bank_of: Seq<usize>, b: int) -> int
    decreases bank_of.len(),
{
    if bank_of.len() == 0 {
        0
    } else {
        bank_occupancy(bank_of.drop_last(), b) + if bank_of.last() == b {
            1int
        } else {
            0int
        }
    }
}

proof fn lemma_occupancy_update(s: Seq<int>, i: int, v: int, t: int)
    requires
        0 <= i < s.len(),
    ensures
        occupancy(s.update(i, v), t) == occupancy(s, t) - (if s[i] == t {
            1int
        } else {
            0int
        }) + (if v == t {
            1int
        } else {
            0int
        }),
    decreases s.len(),
{
    if i < s.len() - 1 {
        lemma_occupancy_update(s.drop_last(), i, v, t);
        assert(s.update(i, v).drop_last() =~= s.drop_last().update(i, v));
    } else {
        assert(s.update(i, v).drop_last() =~= s.drop_last());
    }
}

proof fn lemma_occupancy_zeros(n: nat, t: int)
    ensures
        occupancy(Seq::new(n, |i: int| 0int), t) == if t == 0 {
            n as int
        } else {
            0int
        },
    decreases n,
{
    if n > 0 {
        lemma_occupancy_zeros((n - 1) as nat, t);
        assert(Seq::new(n, |i: int| 0int).drop_last() =~= Seq::new((n - 1) as nat, |i: int| 0int));
    }
}

/// Banks that are whole multiples of the span count the slots' neurons.
proof fn lemma_bank_occupancy(bank_of: Seq<usize>, s: Seq<int>, span: int, t: int)
    requires
        span >= 1,
        bank_of.len() == s.len(),
        forall|i: int| 0 <= i < s.len() ==> #[trigger] bank_of[i] == s[i] * span,
    ensures
        bank_occupancy(bank_of, t * span) == occupancy(s, t),
    decreases s.len(),
{
    if s.len() > 0 {
        lemma_bank_occupancy(bank_of.drop_last(), s.drop_last(), span, t);
        let x = s.last();
        assert(bank_of.last() == x * span);
        assert((x * span == t * span) <==> (x == t)) by (nonlinear_arith)
            requires
                span >= 1,
        ;
    }
}

/// Greedy longest-processing-time-first packing: the slot of every neuron.
fn lpt_slots(weights: &[u64], params: &MappingParams) -> (slot_of: Vec<usize>)
    requires
        params_valid(*params),
    ensures
        slot_of@.len() == weights@.len(),
        counts_int(slot_of@) == lpt_final(weights@, *params).2,
        forall|i: int| 0 <= i < weights@.len() ==> #[trigger] slot_of@[i] < slot_count(*params),
        forall|t: int|
            0 <= t < slot_count(*params) ==> #[trigger] occupancy(lpt_final(weights@, *params).2, t)
                == lpt_final(weights@, *params).1[t],
{
    let n = weights.len();
    let n_slots = params.n_banks / params.span;
    proof {
        lemma_slot_count_pos(*params);
    }
    let cap = lpt_cap(n, n_slots, params.capacity_slack_permille);
    let top = lpt_top(n, n_slots, cap, params.capacity_slack_permille);
    let ghost w = weights@;
    let ghost ic = cap as int;
    let ghost it = top as int;
    let (order, rank) = rank_neurons(weights);
    proof {
        lemma_rank_order(w, order@, rank@);
    }
    let mut load: Vec<u128> = vec![0u128; n_slots];
    let mut count: Vec<usize> = vec![0usize; n_slots];
    let mut slot_of: Vec<usize> = vec![0usize; n];
    proof {
        assert(loads_int(load@) =~= lpt_after(w, n_slots as int, ic, it, 0).0);
        assert(counts_int(count@) =~= lpt_after(w, n_slots as int, ic, it, 0).1);
        assert(counts_int(slot_of@) =~= lpt_after(w, n_slots as int, ic, it, 0).2);
    }
    let mut n_full: usize = 0;
    let mut k: usize = 0;
    proof {
        assert(lpt_after(w, n_slots as int, ic, it, 0).3 == 0);
        assert forall|t: int| 0 <= t < n_slots implies #[trigger] occupancy(
            lpt_after(w, n_slots as int, ic, it, 0).2,
            t,
        ) == lpt_after(w, n_slots as int, ic, it, 0).1[t] + if t == 0 {
            n as int
        } else {
            0int
        } by {
            lemma_occupancy_zeros(n as nat, t);
        }
    }
    while k < n
        invariant
            n == w.len(),
            w == weights@,
            n_slots as int == slot_count(*params),
            n_slots >= 1,
            ic == cap as int,
            it == top as int,
            it == top_slots(n as int, n_slots as int, ic, params.capacity_slack_permille as int),
            n_full as int == lpt_after(w, n_slots as int, ic, it, k as int).3,
            n_full <= k,
            ic == slot_cap(n as int, n_slots as int, params.capacity_slack_permille as int),
            order@.len() == n,
            forall|r: int| 0 <= r < n ==> #[trigger] order@[r] < n,
            forall|r: int| 0 <= r < n ==> #[trigger] rank_order(w)[r] == order@[r],
            k <= n,
            load@.len() == n_slots,
            count@.len() == n_slots,
            slot_of@.len() == n,
            loads_int(load@) == lpt_after(w, n_slots as int, ic, it, k as int).0,
            counts_int(count@) == lpt_after(w, n_slots as int, ic, it, k as int).1,
            counts_int(slot_of@) == lpt_after(w, n_slots as int, ic, it, k as int).2,
            forall|t: int| 0 <= t < n_slots ==> #[trigger] load@[t] <= k * 0xffff_ffff_ffff_ffffint,
            forall|t: int| 0 <= t < n_slots ==> #[trigger] count@[t] <= k,
            forall|i: int| 0 <= i < n ==> #[trigger] slot_of@[i] < n_slots,
            forall|r: int| 0 <= r < n ==> rank@[#[trigger] order@[r] as int] == r,
            rank@.len() == n,
            forall|t: int|
                0 <= t < n_slots ==> #[trigger] occupancy(lpt_after(w, n_slots as int, ic, it, k as int).2, t)
                    == lpt_after(w, n_slots as int, ic, it, k as int).1[t] + if t == 0 {
                    n - k
                } else {
                    0int
                },
            forall|r: int|
                k <= r < n ==> #[trigger] lpt_after(w, n_slots as int, ic, it, k as int).2[order@[r] as int]
                    == 0,
        decreases n - k,
    {
        let neuron = order[k];
        let open = (n_full as u128) < top;
        let t = lpt_pick(&load, &count, cap, open);
        let ghost prev = lpt_after(w, n_slots as int, ic, it, k as int);
        proof {
            lemma_load_bound(load@[t as int] as int, w[neuron as int] as int, k as int, n as int);
            assert forall|u: int| 0 <= u < n_slots implies #[trigger] load@[u] <= (k + 1)
                * 0xffff_ffff_ffff_ffffint by {
                lemma_load_bound(load@[u] as int, 0, k as int, n as int);
            }
        }
        let nl: u128 = load[t] + weights[neuron] as u128;
        load.set(t, nl);
        let nc: usize = count[t] + 1;
        if nc as u128 == cap {
            n_full = n_full + 1;
        }
        count.set(t, nc);
        slot_of.set(neuron, t);
        proof {
            let next = lpt_after(w, n_slots as int, ic, it, k + 1);
            assert(rank_order(w)[k as int] == neuron);
            assert(next == (
                prev.0.update(t as int, prev.0[t as int] + w[neuron as int]),
                prev.1.update(t as int, prev.1[t as int] + 1),
                prev.2.update(neuron as int, t as int),
                prev.3 + if prev.1[t as int] + 1 == ic {
                    1int
                } else {
                    0int
                },
            ));
            assert(loads_int(load@) =~= next.0);
            assert(counts_int(count@) =~= next.1);
            assert(counts_int(slot_of@) =~= next.2);
            assert(prev.2[neuron as int] == 0);
            assert forall|u: int| 0 <= u < n_slots implies #[trigger] occupancy(next.2, u) == next.1[u] + if u
                == 0 {
                n - (k + 1)
            } else {
                0int
            } by {
                lemma_occupancy_update(prev.2, neuron as int, t as int, u);
            }
            assert forall|r: int| k + 1 <= r < n implies #[trigger] next.2[order@[r] as int] == 0 by {
                assert(rank@[order@[r] as int] == r);
                assert(rank@[order@[k as int] as int] == k);
                assert(order@[r] != neuron);
            }
        }
        k = k + 1;
    }
    slot_of
}

/// Assign each neuron to a bank, aligned to `params.span`: the first bank
/// of the slot that `strategy` gives it (see [`mapping_spec`]). `weights`
/// are the neurons' activation counts (any positive multiple of the
/// activation probabilities orders and packs them the same way).
pub fn generate_mapping(weights: &[u64], params: &MappingParams, strategy: MappingStrategy) -> (bank_of:
    Vec<usize>)
    requires
        params_valid(*params),
    ensures
        bank_of@.len() == weights@.len(),
        forall|i: int|
            0 <= i < weights@.len() ==> #[trigger] bank_of@[i] == mapping_spec(
                weights@,
                *params,
                strategy,
            )[i],
        forall|i: int|
            0 <= i < weights@.len() ==> #[trigger] bank_of@[i] < params.n_banks && bank_of@[i]
                % params.span == 0,
        strategy == MappingStrategy::GreedyLpt ==> forall|t: int|
            0 <= t < slot_count(*params) ==> #[trigger] bank_occupancy(bank_of@, t * params.span)
                == lpt_final(weights@, *params).1[t],
        strategy == MappingStrategy::GreedyLpt && params.capacity_slack_permille >= 1000 ==> forall|t: int|
            0 <= t < slot_count(*params) ==> #[trigger] bank_occupancy(bank_of@, t * params.span)
                <= slot_cap(
                weights@.len() as int,
                slot_count(*params),
                params.capacity_slack_permille as int,
            ),
        strategy == MappingStrategy::GreedyLpt && params.capacity_slack_permille == 1000 ==> forall|t: int|
            0 <= t < slot_count(*params) ==> (weights@.len() as int) / slot_count(*params)
                <= #[trigger] bank_occupancy(bank_of@, t * params.span) <= ceil_div(
                weights@.len() as int,
                slot_count(*params),
            ),
{
    let n = weights.len();
    let n_slots = params.n_banks / params.span;
    proof {
        lemma_slot_count_pos(*params);
    }
    let ghost spec_banks = mapping_spec(weights@, *params, strategy);
    let mut bank_of: Vec<usize> = Vec::new();
    match strategy {
        MappingStrategy::Modulo => {
            let mut i: usize = 0;
            while i < n
                invariant
                    n == weights@.len(),
                    n_slots as int == slot_count(*params),
                    n_slots >= 1,
                    params_valid(*params),
                    strategy == MappingStrategy::Modulo,
                    spec_banks == mapping_spec(weights@, *params, strategy),
                    i <= n,
                    bank_of@.len() == i,
                    forall|j: int| 0 <= j < i ==> #[trigger] bank_of@[j] == spec_banks[j],
                    forall|j: int|
                        0 <= j < i ==> #[trigger] bank_of@[j] < params.n_banks && bank_of@[j]
                            % params.span == 0,
                decreases n - i,
            {
                let b = slot_bank(i % n_slots, params);
                bank_of.push(b);
                i = i + 1;
            }
        },
        MappingStrategy::SortedRoundRobin => {
            let rank = cluster_slot_of(weights);
            let mut i: usize = 0;
            while i < n
                invariant
                    n == weights@.len(),
                    n_slots as int == slot_count(*params),
                    n_slots >= 1,
                    params_valid(*params),
                    strategy == MappingStrategy::SortedRoundRobin,
                    spec_banks == mapping_spec(weights@, *params, strategy),
                    rank@ == cluster_rank(weights@),
                    rank@.len() == n,
                    i <= n,
                    bank_of@.len() == i,
                    forall|j: int| 0 <= j < i ==> #[trigger] bank_of@[j] == spec_banks[j],
                    forall|j: int|
                        0 <= j < i ==> #[trigger] bank_of@[j] < params.n_banks && bank_of@[j]
                            % params.span == 0,
                decreases n - i,
            {
                let b = slot_bank(rank[i] % n_slots, params);
                bank_of.push(b);
                i = i + 1;
            }
        },
        MappingStrategy::GreedyLpt => {
            let slot_of = lpt_slots(weights, params);
            let mut i: usize = 0;
            while i < n
                invariant
                    n == weights@.len(),
                    n_slots as int == slot_count(*params),
                    params_valid(*params),
                    strategy == MappingStrategy::GreedyLpt,
                    spec_banks == mapping_spec(weights@, *params, strategy),
                    slot_of@.len() == n,
                    counts_int(slot_of@) == lpt_final(weights@, *params).2,
                    forall|j: int| 0 <= j < n ==> #[trigger] slot_of@[j] < slot_count(*params),
                    i <= n,
                    bank_of@.len() == i,
                    forall|j: int| 0 <= j < i ==> #[trigger] bank_of@[j] == spec_banks[j],
                    forall|j: int|
                        0 <= j < i ==> #[trigger] bank_of@[j] < params.n_banks && bank_of@[j]
                            % params.span == 0,
                decreases n - i,
            {
                let b = slot_bank(slot_of[i], params);
                proof {
                    assert(counts_int(slot_of@)[i as int] == slot_of@[i as int]);
                }
                bank_of.push(b);
                i = i + 1;
            }
            proof {
                let sl = lpt_final(weights@, *params).2;
                assert forall|j: int| 0 <= j < n implies #[trigger] bank_of@[j] == sl[j] * params.span by {
                    assert(bank_of@[j] == spec_banks[j]);
                }
                assert(sl.len() == n) by {
                    assert(counts_int(slot_of@).len() == n);
                }
                assert forall|t: int| 0 <= t < slot_count(*params) implies #[trigger] bank_occupancy(
                    bank_of@,
                    t * params.span,
                ) == lpt_final(weights@, *params).1[t] by {
                    lemma_bank_occupancy(bank_of@, sl, params.span as int, t);
                }
                if params.capacity_slack_permille >= 1000 {
                    law_greedy_respects_cap(weights@, *params);
                }
                if params.capacity_slack_permille == 1000 {
                    law_greedy_even_at_unit_slack(weights@, *params);
                }
            }
        },
    }
    bank_of
}

// ── Mapping quality ──────────────────────────────────────────────

/// Per-slot occupancy and load after a mapping has been generated, used to
/// compare strategies and to report storage and load balance.
#[derive(Debug, Clone)]
pub struct MappingQuality {
    /// Number of placement units.
    pub n_slots: usize,
    /// Fewest neurons in a slot (0 when there is no slot).
    pub neuron_count_min: usize,
    /// Most neurons in a slot (0 when there is no slot).
    pub neuron_count_max: usize,
    /// Smallest slot load (`None` when there is no slot).
    pub load_min: Option<u128>,
    /// Largest slot load (0 when there is no slot).
    pub load_max: u128,
    /// Neurons in each slot.
    pub slot_counts: Vec<usize>,
    /// Summed activation weight of each slot's neurons.
    pub slot_loads: Vec<u128>,
}

/// Neuron count and summed weight of every slot, over the first `k`
/// neurons of `bank_of` (slot = bank / span).
pub open spec fn slot_tally(bank_of: Seq<usize>, w: Seq<u64>, span: int, n_slots: int, k: int) -> (
    Seq<int>,
    Seq<int>,
)
    decreases k,
{
    if k <= 0 {
        (Seq::new(n_slots as nat, |t: int| 0int), Seq::new(n_slots as nat, |t: int| 0int))
    } else {
        let prev = slot_tally(bank_of, w, span, n_slots, k - 1);
        let s = bank_of[k - 1] as int / span;
        (prev.0.update(s, prev.0[s] + 1), prev.1.update(s, prev.1[s] + w[k - 1]))
    }
}

/// The smallest element of a non-empty sequence.
pub open spec fn seq_min_int(s: Seq<int>) -> int
    decreases s.len(),
{
    if s.len() <= 1 {
        s[0]
    } else {
        let m = seq_min_int(s.drop_last());
        if s.last() < m {
            s.last()
        } else {
            m
        }
    }
}

/// The largest element of a non-empty sequence.
pub open spec fn seq_max_int(s: Seq<int>) -> int
    decreases s.len(),
{
    if s.len() <= 1 {
        s[0]
    } else {
        let m = seq_max_int(s.drop_last());
        if s.last() > m {
            s.last()
        } else {
            m
        }
    }
}

proof fn lemma_take_step(s: Seq<int>, i: int)
    requires
        1 <= i < s.len(),
    ensures
        s.take(i + 1).drop_last() == s.take(i),
        s.take(i + 1).last() == s[i],
        s.take(i + 1).len() == i + 1,
{
    assert(s.take(i + 1).drop_last() =~= s.take(i));
}

/// Smallest and largest count of a non-empty count vector.
fn count_min_max(v: &Vec<usize>) -> (r: (usize, usize))
    requires
        v@.len() >= 1,
    ensures
        r.0 == seq_min_int(counts_int(v@)),
        r.1 == seq_max_int(counts_int(v@)),
{
    let ghost s = counts_int(v@);
    let mut lo = v[0];
    let mut hi = v[0];
    proof {
        assert(s.take(1).len() == 1);
    }
    let mut i: usize = 1;
    while i < v.len()
        invariant
            s == counts_int(v@),
            1 <= i <= v@.len(),
            lo == seq_min_int(s.take(i as int)),
            hi == seq_max_int(s.take(i as int)),
        decreases v@.len() - i,
    {
        proof {
            lemma_take_step(s, i as int);
        }
        if v[i] < lo {
            lo = v[i];
        }
        if v[i] > hi {
            hi = v[i];
        }
        i = i + 1;
    }
    proof {
        assert(s.take(v@.len() as int) =~= s);
    }
    (lo, hi)
}

/// Smallest and largest load of a non-empty load vector.
fn load_min_max(v: &Vec<u128>) -> (r: (u128, u128))
    requires
        v@.len() >= 1,
    ensures
        r.0 == seq_min_int(loads_int(v@)),
        r.1 == seq_max_int(loads_int(v@)),
{
    let ghost s = loads_int(v@);
    let mut lo = v[0];
    let mut hi = v[0];
    proof {
        assert(s.take(1).len() == 1);
    }
    let mut i: usize = 1;
    while i < v.len()
        invariant
            s == loads_int(v@),
            1 <= i <= v@.len(),
            lo == seq_min_int(s.take(i as int)),
            hi == seq_max_int(s.take(i as int)),
        decreases v@.len() - i,
    {
        proof {
            lemma_take_step(s, i as int);
        }
        if v[i] < lo {
            lo = v[i];
        }
        if v[i] > hi {
            hi = v[i];
        }
        i = i + 1;
    }
    proof {
        assert(s.take(v@.len() as int) =~= s);
    }
    (lo, hi)
}

/// Storage and load balance statistics of a generated mapping: how many
/// neurons, and how much activation weight, each slot received.
pub fn mapping_quality(weights: &[u64], bank_of: &[usize], params: &MappingParams) -> (q:
    MappingQuality)
    requires
        params.span >= 1,
        bank_of@.len() <= weights@.len(),
        forall|i: int|
            0 <= i < bank_of@.len() ==> (#[trigger] bank_of@[i] as int / params.span as int)
                < slot_count(*params),
    ensures
        q.n_slots == slot_count(*params),
        counts_int(q.slot_counts@) == slot_tally(
            bank_of@,
            weights@,
            params.span as int,
            slot_count(*params),
            bank_of@.len() as int,
        ).0,
        loads_int(q.slot_loads@) == slot_tally(
            bank_of@,
            weights@,
            params.span as int,
            slot_count(*params),
            bank_of@.len() as int,
        ).1,
        q.n_slots == 0 ==> q.neuron_count_min == 0 && q.neuron_count_max == 0 && q.load_min
            is None && q.load_max == 0,
        q.n_slots > 0 ==> {
            &&& q.neuron_count_min == seq_min_int(counts_int(q.slot_counts@))
            &&& q.neuron_count_max == seq_max_int(counts_int(q.slot_counts@))
            &&& q.load_min == Some(seq_min_int(loads_int(q.slot_loads@)) as u128)
            &&& q.load_max == seq_max_int(loads_int(q.slot_loads@))
        },
{
    let n_slots = params.n_banks / params.span;
    let n = bank_of.len();
    let ghost w = weights@;
    let ghost sp = params.span as int;
    let ghost ns = n_slots as int;
    let mut count: Vec<usize> = vec![0usize; n_slots];
    let mut load: Vec<u128> = vec![0u128; n_slots];
    proof {
        assert(counts_int(count@) =~= slot_tally(bank_of@, w, sp, ns, 0).0);
        assert(loads_int(load@) =~= slot_tally(bank_of@, w, sp, ns, 0).1);
    }
    let mut k: usize = 0;
    while k < n
        invariant
            n == bank_of@.len(),
            n <= w.len(),
            w == weights@,
            sp == params.span as int,
            sp >= 1,
            ns == n_slots as int,
            ns == slot_count(*params),
            forall|i: int| 0 <= i < n ==> (#[trigger] bank_of@[i] as int / sp) < ns,
            k <= n,
            count@.len() == n_slots,
            load@.len() == n_slots,
            counts_int(count@) == slot_tally(bank_of@, w, sp, ns, k as int).0,
            loads_int(load@) == slot_tally(bank_of@, w, sp, ns, k as int).1,
            forall|t: int| 0 <= t < n_slots ==> #[trigger] load@[t] <= k * 0xffff_ffff_ffff_ffffint,
            forall|t: int| 0 <= t < n_slots ==> #[trigger] count@[t] <= k,
        decreases n - k,
    {
        let slot = bank_of[k] / params.span;
        let ghost prev = slot_tally(bank_of@, w, sp, ns, k as int);
        proof {
            assert((bank_of@[k as int] as int / sp) < ns);
            lemma_load_bound(load@[slot as int] as int, w[k as int] as int, k as int, n as int);
            assert forall|u: int| 0 <= u < n_slots implies #[trigger] load@[u] <= (k + 1)
                * 0xffff_ffff_ffff_ffffint by {
                lemma_load_bound(load@[u] as int, 0, k as int, n as int);
            }
        }
        let nc: usize = count[slot] + 1;
        count.set(slot, nc);
        let nl: u128 = load[slot] + weights[k] as u128;
        load.set(slot, nl);
        proof {
            let next = slot_tally(bank_of@, w, sp, ns, k + 1);
            assert(next == (
                prev.0.update(slot as int, prev.0[slot as int] + 1),
                prev.1.update(slot as int, prev.1[slot as int] + w[k as int]),
            ));
            assert(counts_int(count@) =~= next.0);
            assert(loads_int(load@) =~= next.1);
        }
        k = k + 1;
    }
    if n_slots == 0 {
        MappingQuality {
            n_slots,
            neuron_count_min: 0,
            neuron_count_max: 0,
            load_min: None,
            load_max: 0,
            slot_counts: count,
            slot_loads: load,
        }
    } else {
        let (cmin, cmax) = count_min_max(&count);
        let (lmin, lmax) = load_min_max(&load);
        MappingQuality {
            n_slots,
            neuron_count_min: cmin,
            neuron_count_max: cmax,
            load_min: Some(lmin),
            load_max: lmax,
            slot_counts: count,
            slot_loads: load,
        }
    }
}

// ── Remap tables ─────────────────────────────────────────────────

/// `table` holds, for every layer of `stats` and no other, the mapping of
/// that layer's activation weights under `params` and `strategy`.
pub open spec fn maps_layers(
    table: Map<i32, Vec<usize>>,
    stats: Map<i32, crate::calibration::LayerActivationStats>,
    params: MappingParams,
    strategy: MappingStrategy,
) -> bool {
    &&& table.dom() == stats.dom()
    &&& forall|l: i32|
        #[trigger] table.contains_key(l) ==> counts_int(table[l]@) == mapping_spec(
            weights_of(stats[l]),
            params,
            strategy,
        )
}

/// Build a full [`RemapTable`] from calibration data: an independent
/// mapping per layer for the UP and the DOWN array. Both share the per-neuron
/// activation weights (one predictor decides activation for both) but are
/// packed separately since they occupy separate bank arrays.
pub fn build_remap_table(
    stats: &LayerActivationTable,
    up_params: &MappingParams,
    down_params: &MappingParams,
    strategy: MappingStrategy,
) -> (r: RemapTable)
    requires
        params_valid(*up_params),
        params_valid(*down_params),
    ensures
        maps_layers(r.up_remap@, stats@, *up_params, strategy),
        maps_layers(r.down_remap@, stats@, *down_params, strategy),
{
    let layers = layer_keys(stats);
    let mut up_remap: HashMap<i32, Vec<usize>> = HashMap::new();
    let mut down_remap: HashMap<i32, Vec<usize>> = HashMap::new();
    let mut j: usize = 0;
    while j < layers.len()
        invariant
            params_valid(*up_params),
            params_valid(*down_params),
            layers@.to_set() == stats@.dom(),
            layers@.no_duplicates(),
            j <= layers@.len(),
            up_remap@.dom() == layers@.take(j as int).to_set(),
            down_remap@.dom() == layers@.take(j as int).to_set(),
            forall|l: i32|
                #[trigger] up_remap@.contains_key(l) ==> stats@.contains_key(l) && counts_int(
                    up_remap@[l]@,
                ) == mapping_spec(weights_of(stats@[l]), *up_params, strategy),
            forall|l: i32|
                #[trigger] down_remap@.contains_key(l) ==> stats@.contains_key(l) && counts_int(
                    down_remap@[l]@,
                ) == mapping_spec(weights_of(stats@[l]), *down_params, strategy),
        decreases layers@.len() - j,
    {
        let layer = layers[j];
        proof {
            assert(layers@.to_set().contains(layer));
        }
        let st = stats.get(&layer).unwrap();
        let w = st.activation_weights();
        let up = generate_mapping(w.as_slice(), up_params, strategy);
        let down = generate_mapping(w.as_slice(), down_params, strategy);
        proof {
            assert(counts_int(up@) =~= mapping_spec(weights_of(stats@[layer]), *up_params, strategy));
            assert(counts_int(down@) =~= mapping_spec(
                weights_of(stats@[layer]),
                *down_params,
                strategy,
            ));
            assert(layers@.take(j + 1) =~= layers@.take(j as int).push(layer));
        }
        up_remap.insert(layer, up);
        down_remap.insert(layer, down);
        proof {
            let pre = layers@.take(j as int);
            assert forall|x: i32| #[trigger] pre.push(layer).contains(x) <==> (pre.contains(x)
                || x == layer) by {
                if pre.push(layer).contains(x) {
                    let q = choose|q: int| 0 <= q < pre.push(layer).len() && pre.push(layer)[q] == x;
                    if q < pre.len() {
                        assert(pre[q] == x);
                    }
                }
                if pre.contains(x) {
                    let q = choose|q: int| 0 <= q < pre.len() && pre[q] == x;
                    assert(pre.push(layer)[q] == x);
                }
                if x == layer {
                    assert(pre.push(layer)[pre.len() as int] == x);
                }
            }
            assert(layers@.take(j + 1).to_set() =~= pre.to_set().insert(layer));
        }
        j = j + 1;
    }
    proof {
        assert(layers@.take(layers@.len() as int) =~= layers@);
    }
    RemapTable { down_remap, up_remap }
}

// ── Random placement baseline ────────────────────────────────────

/// One xorshift64 step (shifts 13, 7, 17).
pub open spec fn xorshift(s: u64) -> u64 {
    let a = s ^ (s << 13u64);
    let b = a ^ (a >> 7u64);
    b ^ (b << 17u64)
}

/// The shuffle seed of a layer.
pub open spec fn shuffle_seed(layer: i32) -> u64 {
    0x9e37_79b9_7f4a_7c15u64 ^ (((layer as u64) as nat * 0xff51_afd7_ed55_8ccdnat) % 0x1_0000_0000_0000_0000nat) as u64
}

/// Fisher-Yates shuffle of `0..n` after its first `t` steps (step `t`
/// swaps position `n - t` with the xorshift draw modulo `n - t + 1`), and
/// the generator state.
pub open spec fn shuffle_after(n: int, seed: u64, t: int) -> (Seq<int>, u64)
    decreases t,
{
    if t <= 0 {
        (Seq::new(n as nat, |i: int| i), seed)
    } else {
        let prev = shuffle_after(n, seed, t - 1);
        let i = n - t;
        let s = xorshift(prev.1);
        let j = (s % ((i + 1) as u64)) as int;
        (prev.0.update(i, prev.0[j]).update(j, prev.0[i]), s)
    }
}

/// The shuffled neuron order of a layer with `n` neurons.
pub open spec fn shuffled(layer: i32, n: int) -> Seq<int> {
    shuffle_after(n, shuffle_seed(layer), if n >= 1 {
        n - 1
    } else {
        0
    }).0
}

/// `p` is a permutation of `0..n`.
pub open spec fn is_permutation(p: Seq<int>, n: int) -> bool {
    &&& p.len() == n
    &&& forall|i: int| 0 <= i < n ==> 0 <= #[trigger] p[i] < n
    &&& forall|i: int, j: int| 0 <= i < n && 0 <= j < n && i != j ==> #[trigger] p[i] != #[trigger] p[j]
}

/// Every step of the shuffle keeps a permutation of `0..n`.
pub proof fn lemma_shuffle_permutes(n: int, seed: u64, t: int)
    requires
        1 <= n <= u64::MAX,
        0 <= t <= n - 1,
    ensures
        is_permutation(shuffle_after(n, seed, t).0, n),
    decreases t,
{
    if t > 0 {
        lemma_shuffle_permutes(n, seed, t - 1);
        let prev = shuffle_after(n, seed, t - 1);
        let i = n - t;
        let s = xorshift(prev.1);
        let j = (s % ((i + 1) as u64)) as int;
        assert((s as int) % (i + 1) < i + 1) by (nonlinear_arith)
            requires
                i + 1 > 0,
        ;
        assert(0 <= j <= i);
        let p = prev.0;
        let q = p.update(i, p[j]).update(j, p[i]);
        assert forall|a: int, b: int| 0 <= a < n && 0 <= b < n && a != b implies #[trigger] q[a]
            != #[trigger] q[b] by {
            let pa = if a == j {
                i
            } else if a == i {
                j
            } else {
                a
            };
            let pb = if b == j {
                i
            } else if b == i {
                j
            } else {
                b
            };
            assert(q[a] == p[pa]);
            assert(q[b] == p[pb]);
        }
    }
}

/// Random (calibration-blind) placement of a layer's `n` neurons: a
/// deterministic, layer-seeded xorshift64 Fisher-Yates shuffle of the
/// neuron ids, dealt round-robin to `banks` banks. Storage-balanced but
/// blind to activation; isolates what calibration itself buys.
pub fn random_remap(layer: i32, n: usize, banks: usize) -> (bank_of: Vec<usize>)
    requires
        banks >= 1,
    ensures
        bank_of@.len() == n,
        is_permutation(shuffled(layer, n as int), n as int),
        forall|pos: int| 0 <= pos < n ==> #[trigger] bank_of@[shuffled(layer, n as int)[pos]] == pos % (banks as int),
        forall|i: int| 0 <= i < n ==> #[trigger] bank_of@[i] < banks,
{
    let ghost seed = shuffle_seed(layer);
    let mut perm: Vec<usize> = Vec::new();
    let mut k: usize = 0;
    while k < n
        invariant
            k <= n,
            perm@.len() == k,
            forall|i: int| 0 <= i < k ==> #[trigger] perm@[i] == i,
        decreases n - k,
    {
        perm.push(k);
        k = k + 1;
    }
    let mut s: u64 = 0x9e37_79b9_7f4a_7c15u64 ^ (layer as u64).wrapping_mul(0xff51_afd7_ed55_8ccdu64);
    assert(s == seed);
    proof {
        assert(counts_int(perm@) =~= shuffle_after(n as int, seed, 0).0);
    }
    if n >= 1 {
        let mut i: usize = n - 1;
        while i >= 1
            invariant
                n >= 1,
                i <= n - 1,
                perm@.len() == n,
                (counts_int(perm@), s) == shuffle_after(n as int, seed, (n - 1 - i) as int),
            decreases i,
        {
            let ghost prev = shuffle_after(n as int, seed, (n - 1 - i) as int);
            s = s ^ (s << 13u64);
            s = s ^ (s >> 7u64);
            s = s ^ (s << 17u64);
            assert(s == xorshift(prev.1));
            let j = (s % (i as u64 + 1)) as usize;
            let a = perm[i];
            let b = perm[j];
            perm.set(i, b);
            perm.set(j, a);
            proof {
                let t = (n - i) as int;
                assert(n - t == i);
                assert(counts_int(perm@) =~= prev.0.update(i as int, prev.0[j as int]).update(
                    j as int,
                    prev.0[i as int],
                ));
            }
            i = i - 1;
        }
    }
    let ghost p = shuffled(layer, n as int);
    proof {
        if n >= 1 {
            lemma_shuffle_permutes(n as int, seed, n - 1);
        } else {
            assert(is_permutation(p, n as int));
        }
        assert(counts_int(perm@) == p);
    }
    let mut bank_of: Vec<usize> = vec![0usize; n];
    let mut pos: usize = 0;
    while pos < n
        invariant
            is_permutation(p, n as int),
            counts_int(perm@) == p,
            perm@.len() == n,
            banks >= 1,
            pos <= n,
            bank_of@.len() == n,
            forall|q: int| 0 <= q < pos ==> #[trigger] bank_of@[p[q]] == q % (banks as int),
            forall|x: int| 0 <= x < n ==> #[trigger] bank_of@[x] < banks,
        decreases n - pos,
    {
        let neuron = perm[pos];
        assert(neuron as int == p[pos as int]);
        bank_of.set(neuron, pos % banks);
        proof {
            assert forall|q: int| 0 <= q < pos implies #[trigger] p[q] != p[pos as int] by {}
        }
        pos = pos + 1;
    }
    bank_of
}

// ── Storage balance of the greedy packer ─────────────────────────

/// Sum of a sequence of integers.
pub open spec fn int_sum(c: Seq<int>) -> int
    decreases c.len(),
{
    if c.len() == 0 {
        0
    } else {
        int_sum(c.drop_last()) + c.last()
    }
}

proof fn lemma_int_sum_update(c: Seq<int>, t: int, d: int)
    requires
        0 <= t < c.len(),
    ensures
        int_sum(c.update(t, c[t] + d)) == int_sum(c) + d,
    decreases c.len(),
{
    if t < c.len() - 1 {
        lemma_int_sum_update(c.drop_last(), t, d);
        assert(c.update(t, c[t] + d).drop_last() =~= c.drop_last().update(t, c[t] + d));
    } else {
        assert(c.update(t, c[t] + d).drop_last() =~= c.drop_last());
    }
}

proof fn lemma_int_sum_lower(c: Seq<int>, cap: int)
    requires
        forall|i: int| 0 <= i < c.len() ==> #[trigger] c[i] >= cap,
    ensures
        int_sum(c) >= cap * c.len(),
    decreases c.len(),
{
    if c.len() > 0 {
        lemma_int_sum_lower(c.drop_last(), cap);
        assert(cap * (c.len() - 1) + cap == cap * c.len()) by (nonlinear_arith);
    }
}

proof fn lemma_zero_int_sum(n: nat)
    ensures
        int_sum(Seq::new(n, |t: int| 0int)) == 0,
    decreases n,
{
    if n > 0 {
        lemma_zero_int_sum((n - 1) as nat);
        assert(Seq::new(n, |t: int| 0int).drop_last() =~= Seq::new((n - 1) as nat, |t: int| 0int));
    }
}

/// How many of the counts have reached `cap`.
pub open spec fn full_count(c: Seq<int>, cap: int) -> int
    decreases c.len(),
{
    if c.len() == 0 {
        0
    } else {
        full_count(c.drop_last(), cap) + if c.last() >= cap {
            1int
        } else {
            0int
        }
    }
}

proof fn lemma_full_count_update(c: Seq<int>, t: int, cap: int)
    requires
        0 <= t < c.len(),
        c[t] < cap,
    ensures
        full_count(c.update(t, c[t] + 1), cap) == full_count(c, cap) + if c[t] + 1 == cap {
            1int
        } else {
            0int
        },
    decreases c.len(),
{
    if t < c.len() - 1 {
        lemma_full_count_update(c.drop_last(), t, cap);
        assert(c.update(t, c[t] + 1).drop_last() =~= c.drop_last().update(t, c[t] + 1));
    } else {
        assert(c.update(t, c[t] + 1).drop_last() =~= c.drop_last());
    }
}

proof fn lemma_zero_full_count(n: nat, cap: int)
    requires
        cap >= 1,
    ensures
        full_count(Seq::new(n, |t: int| 0int), cap) == 0,
    decreases n,
{
    if n > 0 {
        lemma_zero_full_count((n - 1) as nat, cap);
        assert(Seq::new(n, |t: int| 0int).drop_last() =~= Seq::new((n - 1) as nat, |t: int| 0int));
    }
}

/// Counts of at least `cap - 1` sum to at least `(cap - 1)` per slot plus
/// one per full slot.
proof fn lemma_sum_lower_near(c: Seq<int>, cap: int)
    requires
        forall|i: int| 0 <= i < c.len() ==> #[trigger] c[i] >= cap - 1,
    ensures
        int_sum(c) >= (cap - 1) * c.len() + full_count(c, cap),
    decreases c.len(),
{
    if c.len() > 0 {
        lemma_sum_lower_near(c.drop_last(), cap);
        assert((cap - 1) * (c.len() - 1) + (cap - 1) == (cap - 1) * c.len()) by (nonlinear_arith);
    }
}

/// Counts of at most `cap` sum to at most `(cap - 1)` per slot other than
/// `t`, plus one per full slot other than `t`, plus `c[t]`.
proof fn lemma_sum_upper(c: Seq<int>, cap: int, t: int)
    requires
        0 <= t < c.len(),
        forall|i: int| 0 <= i < c.len() ==> #[trigger] c[i] <= cap,
    ensures
        int_sum(c) <= (cap - 1) * (c.len() - 1) + full_count(c, cap) - (if c[t] >= cap {
            1int
        } else {
            0int
        }) + c[t],
        full_count(c, cap) - (if c[t] >= cap {
            1int
        } else {
            0int
        }) <= c.len() - 1,
        0 <= full_count(c, cap),
    decreases c.len(),
{
    let p = c.drop_last();
    if t < c.len() - 1 {
        lemma_sum_upper(p, cap, t);
        let lp = p.len() as int;
        let lc = c.len() as int;
        assert((cap - 1) * (lp - 1) + (cap - 1) == (cap - 1) * (lc - 1)) by (nonlinear_arith)
            requires
                lp == lc - 1,
        ;
    } else {
        if p.len() > 0 {
            lemma_sum_upper(p, cap, 0);
            lemma_sum_upper_all(p, cap);
        } else {
            assert(int_sum(p) == 0);
        }
    }
}

proof fn lemma_sum_upper_all(c: Seq<int>, cap: int)
    requires
        forall|i: int| 0 <= i < c.len() ==> #[trigger] c[i] <= cap,
    ensures
        int_sum(c) <= (cap - 1) * c.len() + full_count(c, cap),
        0 <= full_count(c, cap) <= c.len(),
    decreases c.len(),
{
    if c.len() > 0 {
        lemma_sum_upper_all(c.drop_last(), cap);
        assert((cap - 1) * (c.len() - 1) + (cap - 1) == (cap - 1) * c.len()) by (nonlinear_arith);
    }
}

/// The first least-loaded slot with room among slots `0 .. m` (-1 if none).
spec fn scan_best(load: Seq<int>, count: Seq<int>, cap: int, open: bool, m: int) -> int
    decreases m,
{
    if m <= 0 {
        -1
    } else {
        let b = scan_best(load, count, cap, open, m - 1);
        if has_room(count, cap, open, m - 1) && (b < 0 || load[m - 1] < load[b]) {
            m - 1
        } else {
            b
        }
    }
}

proof fn lemma_scan_best(load: Seq<int>, count: Seq<int>, cap: int, open: bool, m: int)
    requires
        load.len() == count.len(),
        0 <= m <= count.len(),
    ensures
        scan_best(load, count, cap, open, m) < 0 ==> forall|u: int|
            0 <= u < m ==> !#[trigger] has_room(count, cap, open, u),
        scan_best(load, count, cap, open, m) >= 0 ==> {
            let b = scan_best(load, count, cap, open, m);
            &&& b < m
            &&& has_room(count, cap, open, b)
            &&& forall|u: int|
                0 <= u < m && #[trigger] has_room(count, cap, open, u) ==> load[b] < load[u] || (
                load[b] == load[u] && b <= u)
        },
    decreases m,
{
    if m > 0 {
        lemma_scan_best(load, count, cap, open, m - 1);
    }
}

/// The greedy packer always has a choice.
pub proof fn lemma_lpt_choice_exists(load: Seq<int>, count: Seq<int>, cap: int, open: bool)
    requires
        load.len() == count.len(),
    ensures
        is_lpt_choice(load, count, cap, open, lpt_choice(load, count, cap, open)),
{
    let m = count.len() as int;
    lemma_scan_best(load, count, cap, open, m);
    let b = scan_best(load, count, cap, open, m);
    if b >= 0 {
        assert(is_lpt_choice(load, count, cap, open, b));
    } else {
        assert(!(exists|u: int| #[trigger] has_room(count, cap, open, u)));
        assert(is_lpt_choice(load, count, cap, open, 0));
    }
}

proof fn lemma_lpt_counts(w: Seq<u64>, n_slots: int, cap: int, top: int, k: int)
    requires
        n_slots >= 1,
        cap >= 1,
        0 <= top <= n_slots,
        0 <= k <= w.len(),
        w.len() <= (cap - 1) * n_slots + top,
    ensures
        lpt_after(w, n_slots, cap, top, k).1.len() == n_slots,
        lpt_after(w, n_slots, cap, top, k).0.len() == n_slots,
        int_sum(lpt_after(w, n_slots, cap, top, k).1) == k,
        forall|t: int|
            0 <= t < n_slots ==> 0 <= #[trigger] lpt_after(w, n_slots, cap, top, k).1[t] <= cap,
        lpt_after(w, n_slots, cap, top, k).3 == full_count(lpt_after(w, n_slots, cap, top, k).1, cap),
        lpt_after(w, n_slots, cap, top, k).3 <= top,
    decreases k,
{
    if k == 0 {
        lemma_zero_int_sum(n_slots as nat);
        lemma_zero_full_count(n_slots as nat, cap);
    } else {
        lemma_lpt_counts(w, n_slots, cap, top, k - 1);
        let prev = lpt_after(w, n_slots, cap, top, k - 1);
        let open = prev.3 < top;
        let t = lpt_choice(prev.0, prev.1, cap, open);
        if !(exists|u: int| #[trigger] has_room(prev.1, cap, open, u)) {
            if open {
                assert forall|u: int| 0 <= u < prev.1.len() implies #[trigger] prev.1[u] >= cap by {
                    assert(!has_room(prev.1, cap, open, u));
                }
                lemma_int_sum_lower(prev.1, cap);
                assert(cap * n_slots == (cap - 1) * n_slots + n_slots) by (nonlinear_arith);
            } else {
                assert forall|u: int| 0 <= u < prev.1.len() implies #[trigger] prev.1[u] >= cap - 1 by {
                    assert(!has_room(prev.1, cap, open, u));
                }
                lemma_sum_lower_near(prev.1, cap);
            }
            assert(false);
        }
        lemma_lpt_choice_exists(prev.0, prev.1, cap, open);
        assert(has_room(prev.1, cap, open, t));
        lemma_int_sum_update(prev.1, t, 1);
        lemma_full_count_update(prev.1, t, cap);
    }
}

/// The greedy packer's cap holds all `n` neurons whenever the capacity
/// slack is at least 1 (1000 thousandths).
proof fn lemma_cap_holds_all(n: int, ns: int, pm: int)
    requires
        ns >= 1,
        n >= 0,
        pm >= 1000,
    ensures
        slot_cap(n, ns, pm) * ns >= n,
        slot_cap(n, ns, pm) >= 1,
        0 <= top_slots(n, ns, slot_cap(n, ns, pm), pm) <= ns,
        n <= (slot_cap(n, ns, pm) - 1) * ns + top_slots(n, ns, slot_cap(n, ns, pm), pm),
{
    let cap = slot_cap(n, ns, pm);
    let a = n * pm;
    let b = ns * 1000;
    assert(cap * ns >= n) by (nonlinear_arith)
        requires
            ns >= 1,
            pm >= 1000,
            n >= 0,
            a == n * pm,
            b == ns * 1000,
            cap >= ceil_div(a, b),
            ceil_div(a, b) == a / b + if a % b != 0 {
                1int
            } else {
                0int
            },
    {
        assert(a == b * (a / b) + a % b);
        assert(a >= n * 1000);
        assert(ceil_div(a, b) * b >= a);
        assert(cap * b >= a);
        assert(cap * ns * 1000 >= n * 1000);
    }
    assert(cap * ns == (cap - 1) * ns + ns) by (nonlinear_arith);
}

/// With a capacity slack of at least 1 (1000 thousandths), the greedy
/// packer never puts more than the cap `max(1, ceil(n / n_slots * slack))`
/// neurons into one slot.
pub proof fn law_greedy_respects_cap(w: Seq<u64>, p: MappingParams)
    requires
        params_valid(p),
        p.capacity_slack_permille >= 1000,
    ensures
        forall|t: int|
            0 <= t < slot_count(p) ==> #[trigger] lpt_final(w, p).1[t] <= slot_cap(
                w.len() as int,
                slot_count(p),
                p.capacity_slack_permille as int,
            ),
{
    lemma_slot_count_pos(p);
    let n = w.len() as int;
    let ns = slot_count(p);
    let pm = p.capacity_slack_permille as int;
    let cap = slot_cap(n, ns, pm);
    lemma_cap_holds_all(n, ns, pm);
    lemma_lpt_counts(w, ns, cap, top_slots(n, ns, cap, pm), n);
}

/// At a capacity slack of exactly 1 (1000 thousandths), every slot of the
/// greedy packer holds between `floor(n / n_slots)` and `ceil(n / n_slots)`
/// neurons: occupancies differ by rounding only.
pub proof fn law_greedy_even_at_unit_slack(w: Seq<u64>, p: MappingParams)
    requires
        params_valid(p),
        p.capacity_slack_permille == 1000,
    ensures
        forall|t: int|
            0 <= t < slot_count(p) ==> (w.len() as int) / slot_count(p) <= #[trigger] lpt_final(w, p).1[t]
                <= ceil_div(w.len() as int, slot_count(p)),
{
    lemma_slot_count_pos(p);
    let n = w.len() as int;
    let ns = slot_count(p);
    let pm = 1000int;
    let cap = slot_cap(n, ns, pm);
    let top = top_slots(n, ns, cap, pm);
    lemma_cap_holds_all(n, ns, pm);
    lemma_lpt_counts(w, ns, cap, top, n);
    let c = lpt_final(w, p).1;
    let q = n / ns;
    let r = n % ns;
    assert(n == q * ns + r && 0 <= r < ns) by (nonlinear_arith)
        requires
            ns >= 1,
            q == n / ns,
            r == n % ns,
    ;
    assert(n * 1000 == q * (ns * 1000) + r * 1000) by (nonlinear_arith)
        requires
            n == q * ns + r,
    ;
    vstd::arithmetic::div_mod::lemma_fundamental_div_mod_converse(n * 1000, ns * 1000, q, r * 1000);
    assert(ceil_div(n * 1000, ns * 1000) == ceil_div(n, ns));
    if n == 0 {
        assert forall|t: int| 0 <= t < ns implies (w.len() as int) / slot_count(p) <= #[trigger] c[t]
            <= ceil_div(w.len() as int, slot_count(p)) by {
            lemma_sum_upper(c, cap, t);
            lemma_sum_upper_all(c, cap);
            lemma_int_sum_nonneg_at(c, t);
        }
    } else {
        assert(q >= 0) by (nonlinear_arith)
            requires
                n >= 1,
                ns >= 1,
                q == n / ns,
        ;
        if q == 0 {
            assert(q * ns == 0) by (nonlinear_arith)
                requires
                    q == 0,
            ;
            assert(r == n);
        }
        assert(ceil_div(n, ns) >= 1);
        assert(cap == ceil_div(n, ns));
        assert((cap - 1) * ns < n && n <= cap * ns) by (nonlinear_arith)
            requires
                q == n / ns,
                n == q * ns + r,
                0 <= r < ns,
                n >= 1,
                ns >= 1,
                cap == q + if r != 0 {
                    1int
                } else {
                    0int
                },
        ;
        assert(top == n - (cap - 1) * ns);
        assert forall|t: int| 0 <= t < ns implies (w.len() as int) / slot_count(p) <= #[trigger] c[t]
            <= ceil_div(w.len() as int, slot_count(p)) by {
            lemma_sum_upper(c, cap, t);
            let f = full_count(c, cap) - (if c[t] >= cap {
                1int
            } else {
                0int
            });
            if c[t] < q {
                assert(int_sum(c) <= (cap - 1) * (ns - 1) + f + c[t]);
                assert(f <= top && f <= ns - 1);
                assert(false) by (nonlinear_arith)
                    requires
                        int_sum(c) == n,
                        int_sum(c) <= (cap - 1) * (ns - 1) + f + c[t],
                        f <= n - (cap - 1) * ns,
                        f <= ns - 1,
                        c[t] < q,
                        n == q * ns + r,
                        0 <= r < ns,
                        ns >= 1,
                        cap == q + if r != 0 {
                            1int
                        } else {
                            0int
                        },
                ;
            }
        }
    }
}

proof fn lemma_int_sum_nonneg_at(c: Seq<int>, t: int)
    requires
        0 <= t < c.len(),
        forall|i: int| 0 <= i < c.len() ==> #[trigger] c[i] >= 0,
    ensures
        int_sum(c) >= c[t],
    decreases c.len(),
{
    if t < c.len() - 1 {
        lemma_int_sum_nonneg_at(c.drop_last(), t);
    }
    lemma_int_sum_lower(c.drop_last(), 0);
}

} // verus!
