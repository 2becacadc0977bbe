//! Per-record PIM bank timing simulation.
//!
//! UP and DOWN use opposite physical layouts. UP owns one full weight *row*
//! per active neuron inside a single bank (gather: per-bank work scales with
//! how many active neurons a bank owns — what the async/remap model
//! targets). DOWN's dense layout stripes every neuron's weight *column*
//! across all banks by output-embedding slice, so every bank touches the
//! same active neurons in lockstep and there is no per-bank load to
//! balance; `down_total_async_time` models the alternative DOWN layout that
//! mirrors UP's (one neuron's full column owned by one bank), the DOWN
//! metric that a remap table can improve.
//!
//! `batch_group` controls a further pair of metrics (`{up,down}_total_batch_time`)
//! that dispatch `batch_group` consecutive same-layer records together: the
//! busiest bank is computed once for the *union* of their active neurons.
use std::collections::HashSet;
use vstd::prelude::*;

use crate::pim::config::PimConfig;
use crate::record::{active_positions, lemma_active_positions, Record};
use crate::sparsity::{activated_in, lemma_active_count_bounded, neurons_in};
use crate::pim::mapping::{
    mapping_spec, remap_fits, table_fits, MappingParams, MappingStrategy, RemapTable,
};

verus! {

broadcast use vstd::std_specs::hash::group_hash_axioms;

// ── Sequence helpers ─────────────────────────────────────────────

/// The elements of `s` in order of first occurrence, each once.
pub open spec fn dedup<A>(s: Seq<A>) -> Seq<A>
    decreases s.len(),
{
    if s.len() == 0 {
        Seq::empty()
    } else {
        let d = dedup(s.drop_last());
        if d.contains(s.last()) {
            d
        } else {
            d.push(s.last())
        }
    }
}

/// The largest element (0 for an empty sequence).
pub open spec fn seq_max(s: Seq<nat>) -> nat
    decreases s.len(),
{
    if s.len() == 0 {
        0
    } else {
        let m = seq_max(s.drop_last());
        if s.last() > m {
            s.last()
        } else {
            m
        }
    }
}

/// `a / b` rounded up.
pub open spec fn ceil_div(a: int, b: int) -> int {
    a / b + if a % b != 0 {
        1int
    } else {
        0int
    }
}

/// All the sequences one after the other.
pub open spec fn concat_all(p: Seq<Seq<usize>>) -> Seq<usize>
    decreases p.len(),
{
    if p.len() == 0 {
        Seq::empty()
    } else {
        concat_all(p.drop_last()) + p.last()
    }
}

pub proof fn lemma_dedup<A>(s: Seq<A>)
    ensures
        dedup(s).len() <= s.len(),
        forall|x: A| dedup(s).contains(x) <==> s.contains(x),
        dedup(s).to_set() == s.to_set(),
    decreases s.len(),
{
    if s.len() > 0 {
        let p = s.drop_last();
        lemma_dedup(p);
        assert(s =~= p.push(s.last()));
        p.lemma_push_to_set_commute(s.last());
        dedup(p).lemma_push_to_set_commute(s.last());
        assert forall|x: A| dedup(s).contains(x) <==> s.contains(x) by {
            if s.contains(x) && !p.contains(x) {
                assert(x == s.last());
            }
            if p.contains(x) {
                let w = choose|w: int| 0 <= w < p.len() && p[w] == x;
                assert(s[w] == x);
            }
            if dedup(s).contains(x) && !dedup(p).contains(x) {
                assert(dedup(s)[dedup(s).len() - 1] == s.last());
            }
            if dedup(p).contains(x) && !dedup(s).contains(x) {
                let w = choose|w: int| 0 <= w < dedup(p).len() && dedup(p)[w] == x;
                assert(dedup(s)[w] == x);
            }
        }
        if dedup(p).contains(s.last()) {
            assert(p.contains(s.last()));
            assert(p.to_set().insert(s.last()) =~= p.to_set());
        }
    } else {
        assert(s.to_set() =~= Set::empty());
        assert(dedup(s).to_set() =~= Set::empty());
    }
}

pub proof fn lemma_dedup_push<A>(s: Seq<A>, x: A)
    ensures
        dedup(s.push(x)) == if s.contains(x) {
            dedup(s)
        } else {
            dedup(s).push(x)
        },
{
    assert(s.push(x).drop_last() =~= s);
    lemma_dedup(s);
}

pub proof fn lemma_seq_max_bounded(s: Seq<nat>, bound: nat)
    requires
        forall|i: int| 0 <= i < s.len() ==> s[i] <= bound,
    ensures
        seq_max(s) <= bound,
    decreases s.len(),
{
    if s.len() > 0 {
        lemma_seq_max_bounded(s.drop_last(), bound);
    }
}
/// The largest of a vector of counts.
pub(crate) fn max_of(v: &Vec<usize>) -> (m: usize)
    ensures
        m == seq_max(v@.map_values(|x: usize| x as nat)),
{
    let ghost s = v@.map_values(|x: usize| x as nat);
    let mut m: usize = 0;
    let mut j: usize = 0;
    while j < v.len()
        invariant
            j <= v@.len(),
            s == v@.map_values(|x: usize| x as nat),
            m == seq_max(s.take(j as int)),
        decreases v@.len() - j,
    {
        assert(s.take(j + 1).drop_last() =~= s.take(j as int));
        if v[j] > m {
            m = v[j];
        }
        j = j + 1;
    }
    assert(s.take(j as int) =~= s);
    m
}

/// Number of distinct keys.
fn count_distinct(keys: &Vec<u64>) -> (n: usize)
    ensures
        n == dedup(keys@).len(),
{
    let mut seen: HashSet<u64> = HashSet::new();
    let mut n: usize = 0;
    let mut k: usize = 0;
    while k < keys.len()
        invariant
            k <= keys@.len(),
            seen@ == keys@.take(k as int).to_set(),
            n == dedup(keys@.take(k as int)).len(),
            n <= k,
        decreases keys@.len() - k,
    {
        let ghost pre = keys@.take(k as int);
        assert(keys@.take(k + 1) =~= pre.push(keys@[k as int]));
        proof {
            lemma_dedup_push(pre, keys@[k as int]);
            lemma_dedup(pre);
            pre.lemma_push_to_set_commute(keys@[k as int]);
            assert(pre.contains(keys@[k as int]) <==> pre.to_set().contains(keys@[k as int]));
        }
        if seen.insert(keys[k]) {
            n = n + 1;
        }
        k = k + 1;
    }
    assert(keys@.take(k as int) =~= keys@);
    n
}

// ── Bank geometry ────────────────────────────────────────────────

/// The two FFN projections, whose weight arrays are separate.
#[derive(Debug, Clone, Copy, PartialEq, Eq)]
pub enum Projection {
    Up,
    Down,
}

/// Parameters the simulation can compute with: nonzero divisors, channel
/// banks within the array, rows that hold whole neurons, and sizes small
/// enough that no index arithmetic overflows.
pub open spec fn cfg_wf(cfg: PimConfig) -> bool {
    &&& cfg.page_size > 0
    &&& cfg.banks > 0
    &&& cfg.channels > 0
    &&& cfg.banks_per_channel > 0
    &&& cfg.channels * cfg.banks_per_channel <= cfg.banks
    &&& cfg.banks <= usize::MAX
    &&& cfg.channels <= usize::MAX
    &&& cfg.banks_per_channel <= usize::MAX
    &&& cfg.activation_size * cfg.data_width <= u64::MAX
    &&& (cfg.activation_size * cfg.data_width) % (cfg.page_size as int) == 0
}

/// Whether the simulation can compute with `cfg` (see [`cfg_wf`]).
pub fn config_supported(cfg: &PimConfig) -> (ok: bool)
    ensures
        ok == cfg_wf(*cfg),
{
    if !(cfg.page_size > 0 && cfg.banks > 0 && cfg.channels > 0 && cfg.banks_per_channel > 0
        && cfg.banks <= usize::MAX as u64 && cfg.channels <= usize::MAX as u64
        && cfg.banks_per_channel <= usize::MAX as u64) {
        return false;
    }
    let width = match cfg.activation_size.checked_mul(cfg.data_width) {
        Some(w) => w,
        None => return false,
    };
    let cells = match cfg.channels.checked_mul(cfg.banks_per_channel) {
        Some(c) => c,
        None => return false,
    };
    cells <= cfg.banks && width % cfg.page_size == 0
}

/// Rows one neuron occupies in a bank (UP row / row-owning DOWN column).
pub open spec fn rows_per_neuron(cfg: PimConfig) -> int {
    (cfg.activation_size * cfg.data_width) as int / cfg.page_size as int
}

/// Output-dimension tensors each bank serves in DOWN's transposed layout.
pub open spec fn tensors_per_bank(cfg: PimConfig) -> int {
    cfg.activation_size as int / cfg.banks as int
}

/// Bank of neuron `i` when no remap row covers it: UP spreads consecutive
/// neurons over the banks of a channel, then over channels; DOWN is modulo.
pub open spec fn default_bank(proj: Projection, cfg: PimConfig, i: usize) -> int {
    match proj {
        Projection::Up => ((i as int / cfg.banks_per_channel as int) % cfg.channels as int)
            * cfg.banks_per_channel as int + i as int % cfg.banks_per_channel as int,
        Projection::Down => i as int % cfg.banks as int,
    }
}

/// Bank of neuron `i` given the layer's remap row (if any).
pub open spec fn bank_of(proj: Projection, cfg: PimConfig, table: Option<Seq<usize>>, i: usize) -> int {
    match table {
        Some(t) => if (i as int) < t.len() {
            t[i as int] as int
        } else {
            default_bank(proj, cfg, i)
        },
        None => default_bank(proj, cfg, i),
    }
}

/// The remap row of `layer` for a projection, if the table has one.
pub open spec fn remap_row(remap: Option<RemapTable>, proj: Projection, layer: i32) -> Option<Seq<usize>> {
    match remap {
        Some(r) => {
            let t = match proj {
                Projection::Up => r.up_remap@,
                Projection::Down => r.down_remap@,
            };
            if t.contains_key(layer) {
                Some(t[layer]@)
            } else {
                None
            }
        },
        None => None,
    }
}

/// Every entry of an optional row is below `banks`.
pub open spec fn row_fits(table: Option<Seq<usize>>, banks: int) -> bool {
    forall|k: int|
        #![trigger table->0[k]]
        table is Some && 0 <= k < table->0.len() ==> table->0[k] < banks
}

pub open spec fn opt_view(t: Option<&Vec<usize>>) -> Option<Seq<usize>> {
    match t {
        Some(v) => Some(v@),
        None => None,
    }
}

/// How many of the indices land in bank `b`.
pub open spec fn bank_count(s: Seq<usize>, proj: Projection, cfg: PimConfig, table: Option<Seq<usize>>, b: int) -> nat
    decreases s.len(),
{
    if s.len() == 0 {
        0
    } else {
        bank_count(s.drop_last(), proj, cfg, table, b) + if bank_of(proj, cfg, table, s.last())
            == b {
            1nat
        } else {
            0nat
        }
    }
}

/// The busiest bank's index count.
pub open spec fn busiest_bank(s: Seq<usize>, proj: Projection, cfg: PimConfig, table: Option<Seq<usize>>) -> nat {
    seq_max(Seq::new(cfg.banks as nat, |b: int| bank_count(s, proj, cfg, table, b)))
}

/// Rows of distinct row ids that neurons in channel `c` fall in, UP's naive
/// layout (every bank of a channel opens the same row together).
pub open spec fn channel_rows(s: Seq<usize>, c: int, cfg: PimConfig) -> Seq<usize>
    decreases s.len(),
{
    if s.len() == 0 {
        Seq::empty()
    } else {
        let prev = channel_rows(s.drop_last(), c, cfg);
        let i = s.last() as int;
        let bpc = cfg.banks_per_channel as int;
        let ch = cfg.channels as int;
        if (i / bpc) % ch == c {
            prev.push((i / bpc / ch) as usize)
        } else {
            prev
        }
    }
}

/// Naive UP layout: the largest number of distinct rows any channel opens.
pub open spec fn naive_rows(s: Seq<usize>, cfg: PimConfig) -> nat {
    seq_max(Seq::new(cfg.channels as nat, |c: int| dedup(channel_rows(s, c, cfg)).len()))
}

/// DOWN transposed-layout row of each index.
pub open spec fn row_keys(s: Seq<usize>, cfg: PimConfig) -> Seq<u64> {
    s.map_values(|i: usize| (i as int * cfg.data_width as int / cfg.page_size as int) as u64)
}

pub proof fn lemma_bank_count_bounded(s: Seq<usize>, proj: Projection, cfg: PimConfig, table: Option<Seq<usize>>, b: int)
    ensures
        bank_count(s, proj, cfg, table, b) <= s.len(),
    decreases s.len(),
{
    if s.len() > 0 {
        lemma_bank_count_bounded(s.drop_last(), proj, cfg, table, b);
    }
}

pub proof fn lemma_busiest_bounded(s: Seq<usize>, proj: Projection, cfg: PimConfig, table: Option<Seq<usize>>)
    ensures
        busiest_bank(s, proj, cfg, table) <= s.len(),
{
    let v = Seq::new(cfg.banks as nat, |b: int| bank_count(s, proj, cfg, table, b));
    assert forall|i: int| 0 <= i < v.len() implies v[i] <= s.len() by {
        lemma_bank_count_bounded(s, proj, cfg, table, i);
    }
    lemma_seq_max_bounded(v, s.len());
}

pub proof fn lemma_channel_rows_len(s: Seq<usize>, c: int, cfg: PimConfig)
    ensures
        channel_rows(s, c, cfg).len() <= s.len(),
    decreases s.len(),
{
    if s.len() > 0 {
        lemma_channel_rows_len(s.drop_last(), c, cfg);
    }
}

pub proof fn lemma_naive_bounded(s: Seq<usize>, cfg: PimConfig)
    ensures
        naive_rows(s, cfg) <= s.len(),
{
    let v = Seq::new(cfg.channels as nat, |c: int| dedup(channel_rows(s, c, cfg)).len());
    assert forall|i: int| 0 <= i < v.len() implies v[i] <= s.len() by {
        lemma_channel_rows_len(s, i, cfg);
        lemma_dedup(channel_rows(s, i, cfg));
    }
    lemma_seq_max_bounded(v, s.len());
}

/// Bank of neuron `i` for one projection, given the layer's remap row.
fn bank_for(proj: Projection, cfg: &PimConfig, table: Option<&Vec<usize>>, i: usize) -> (b: usize)
    requires
        cfg_wf(*cfg),
        row_fits(opt_view(table), cfg.banks as int),
    ensures
        b == bank_of(proj, *cfg, opt_view(table), i),
        b < cfg.banks,
{
    if let Some(t) = table {
        if i < t.len() {
            assert(opt_view(table)->0[i as int] == t@[i as int]);
            return t[i];
        }
    }
    match proj {
        Projection::Up => {
            let bpc = cfg.banks_per_channel as usize;
            let channels = cfg.channels as usize;
            let channel_id = (i / bpc) % channels;
            proof {
                assert(channel_id < channels);
                assert(channel_id * bpc <= (channels - 1) * bpc) by (nonlinear_arith)
                    requires
                        channel_id <= channels - 1,
                ;
                assert((channels - 1) * bpc + bpc == channels * bpc) by (nonlinear_arith);
            }
            channel_id * bpc + i % bpc
        },
        Projection::Down => i % (cfg.banks as usize),
    }
}

/// Busiest bank's count, and the busiest count a perfectly even split of
/// the same indices over all banks would need, for one round.
fn round_stats(indices: &[usize], proj: Projection, cfg: &PimConfig, table: Option<&Vec<usize>>) -> (r: (usize, usize))
    requires
        cfg_wf(*cfg),
        row_fits(opt_view(table), cfg.banks as int),
    ensures
        r.0 == busiest_bank(indices@, proj, *cfg, opt_view(table)),
        r.1 == ceil_div(indices@.len() as int, cfg.banks as int),
        r.0 <= indices@.len(),
        r.1 <= indices@.len(),
{
    let banks = cfg.banks as usize;
    let ghost tv = opt_view(table);
    let mut per_bank: Vec<usize> = vec![0; banks];
    let mut k: usize = 0;
    while k < indices.len()
        invariant
            banks == cfg.banks,
            cfg_wf(*cfg),
            row_fits(tv, cfg.banks as int),
            tv == opt_view(table),
            k <= indices@.len(),
            per_bank@.len() == banks,
            forall|b: int|
                0 <= b < banks ==> #[trigger] per_bank@[b] == bank_count(
                    indices@.take(k as int),
                    proj,
                    *cfg,
                    tv,
                    b,
                ),
            forall|b: int| 0 <= b < banks ==> per_bank@[b] <= k,
        decreases indices@.len() - k,
    {
        let b = bank_for(proj, cfg, table, indices[k]);
        assert(indices@.take(k + 1).drop_last() =~= indices@.take(k as int));
        let c = per_bank[b];
        per_bank.set(b, c + 1);
        k = k + 1;
    }
    assert(indices@.take(k as int) =~= indices@);
    let m = max_of(&per_bank);
    assert(per_bank@.map_values(|x: usize| x as nat) =~= Seq::new(
        cfg.banks as nat,
        |b: int| bank_count(indices@, proj, *cfg, tv, b),
    ));
    proof {
        lemma_busiest_bounded(indices@, proj, *cfg, tv);
    }
    let total = indices.len();
    proof {
        assert(total / banks <= total) by (nonlinear_arith)
            requires
                banks >= 1,
        ;
        if total % banks != 0 {
            assert(total / banks < total) by (nonlinear_arith)
                requires
                    banks >= 1,
                    total % banks != 0,
            ;
        }
    }
    let ideal = total / banks + if total % banks != 0 {
        1usize
    } else {
        0usize
    };
    (m, ideal)
}

/// Channel geometry the naive UP layout can compute with.
pub open spec fn channels_ok(cfg: PimConfig) -> bool {
    &&& cfg.channels > 0
    &&& cfg.banks_per_channel > 0
    &&& cfg.channels <= usize::MAX
    &&& cfg.banks_per_channel <= usize::MAX
}

/// Naive UP layout: largest number of distinct rows any channel must open.
pub(crate) fn naive_channel_rows(indices: &[usize], cfg: &PimConfig) -> (n: usize)
    requires
        channels_ok(*cfg),
    ensures
        n == naive_rows(indices@, *cfg),
        n <= indices@.len(),
{
    let channels = cfg.channels as usize;
    let bpc = cfg.banks_per_channel as usize;
    let mut sets: Vec<HashSet<usize>> = Vec::new();
    let mut counts: Vec<usize> = Vec::new();
    let mut c: usize = 0;
    while c < channels
        invariant
            c <= channels,
            sets@.len() == c,
            counts@.len() == c,
            forall|j: int| 0 <= j < c ==> (#[trigger] sets@[j])@ == Set::<usize>::empty(),
            forall|j: int| 0 <= j < c ==> #[trigger] counts@[j] == 0,
        decreases channels - c,
    {
        sets.push(HashSet::new());
        counts.push(0);
        c = c + 1;
    }
    let mut k: usize = 0;
    proof {
        assert forall|j: int| 0 <= j < channels implies channel_rows(
            indices@.take(0),
            j,
            *cfg,
        ) == Seq::<usize>::empty() by {}
    }
    while k < indices.len()
        invariant
            channels == cfg.channels,
            bpc == cfg.banks_per_channel,
            channels_ok(*cfg),
            k <= indices@.len(),
            sets@.len() == channels,
            counts@.len() == channels,
            forall|j: int|
                0 <= j < channels ==> (#[trigger] sets@[j])@ == channel_rows(
                    indices@.take(k as int),
                    j,
                    *cfg,
                ).to_set(),
            forall|j: int|
                0 <= j < channels ==> #[trigger] counts@[j] == dedup(
                    channel_rows(indices@.take(k as int), j, *cfg),
                ).len(),
            forall|j: int| 0 <= j < channels ==> #[trigger] counts@[j] <= k,
        decreases indices@.len() - k,
    {
        let i = indices[k];
        let ch = (i / bpc) % channels;
        let row = i / bpc / channels;
        let ghost pre = indices@.take(k as int);
        let ghost post = indices@.take(k + 1);
        assert(post.drop_last() =~= pre);
        proof {
            let rows = channel_rows(pre, ch as int, *cfg);
            lemma_dedup_push(rows, row);
            lemma_dedup(rows);
            rows.lemma_push_to_set_commute(row);
            assert(rows.contains(row) <==> rows.to_set().contains(row));
            assert forall|j: int| 0 <= j < channels && j != ch implies channel_rows(post, j, *cfg)
                == channel_rows(pre, j, *cfg) by {}
            assert(channel_rows(post, ch as int, *cfg) == rows.push(row));
        }
        let newly = sets[ch].insert(row);
        if newly {
            let cnt = counts[ch];
            counts.set(ch, cnt + 1);
        }
        k = k + 1;
    }
    assert(indices@.take(k as int) =~= indices@);
    let m = max_of(&counts);
    assert(counts@.map_values(|x: usize| x as nat) =~= Seq::new(
        cfg.channels as nat,
        |c: int| dedup(channel_rows(indices@, c, *cfg)).len(),
    ));
    proof {
        lemma_naive_bounded(indices@, *cfg);
    }
    m
}

/// The pending records' index lists as sequences.
pub open spec fn pending_view(p: Seq<Vec<usize>>) -> Seq<Seq<usize>> {
    p.map_values(|v: Vec<usize>| v@)
}
/// The distinct indices of all pending records, in order of first
/// occurrence.
fn union_of(pending: &Vec<Vec<usize>>) -> (u: Vec<usize>)
    ensures
        u@ == dedup(concat_all(pending_view(pending@))),
{
    let ghost pv = pending_view(pending@);
    let mut seen: HashSet<usize> = HashSet::new();
    let mut u: Vec<usize> = Vec::new();
    let mut p: usize = 0;
    while p < pending.len()
        invariant
            pv == pending_view(pending@),
            p <= pending@.len(),
            u@ == dedup(concat_all(pv.take(p as int))),
            seen@ == concat_all(pv.take(p as int)).to_set(),
        decreases pending@.len() - p,
    {
        let ghost base = concat_all(pv.take(p as int));
        let v = &pending[p];
        assert(pv[p as int] == v@);
        let mut k: usize = 0;
        assert(base + v@.take(0) =~= base);
        while k < v.len()
            invariant
                k <= v@.len(),
                u@ == dedup(base + v@.take(k as int)),
                seen@ == (base + v@.take(k as int)).to_set(),
            decreases v@.len() - k,
        {
            let ghost pre = base + v@.take(k as int);
            assert(base + v@.take(k + 1) =~= pre.push(v@[k as int]));
            proof {
                lemma_dedup_push(pre, v@[k as int]);
                lemma_dedup(pre);
                pre.lemma_push_to_set_commute(v@[k as int]);
                assert(pre.contains(v@[k as int]) <==> pre.to_set().contains(v@[k as int]));
            }
            if seen.insert(v[k]) {
                u.push(v[k]);
            }
            k = k + 1;
        }
        assert(v@.take(k as int) =~= v@);
        assert(pv.take(p + 1).drop_last() =~= pv.take(p as int));
        assert(concat_all(pv.take(p + 1)) =~= base + v@);
        p = p + 1;
    }
    assert(pv.take(p as int) =~= pv);
    u
}

// ── Simulation results ───────────────────────────────────────────

/// Aggregated simulation result: busiest-bank row counts per projection and
/// layout, summed over records.
#[derive(Debug, Clone, Copy, PartialEq, Eq)]
pub struct PimResult {
    pub total_records: u64,
    pub total_neurons: u64,
    pub total_selected_neurons: u64,
    pub up_dense: u64,
    pub down_dense: u64,
    pub up_total_naive_time: u64,
    pub up_total_asnc_time: u64,
    pub down_total_interproduct_time_single: u64,
    pub down_total_interproduct_time_two: u64,
    pub down_total_async_time: u64,
    // Balanced metrics (ideal, given the same active-neuron sets)
    pub up_total_asnc_time_bal: u64,
    pub down_total_async_time_bal: u64,
    // Imbalance overhead: sum of (actual - ideal) per record
    pub up_async_imbalance_overhead: u64,
    pub down_async_imbalance_overhead: u64,
    // Batched-round metrics (`batch_group` consecutive same-layer records
    // unioned into one round; batch_group=1 is one record per round)
    pub batch_group: u64,
    pub up_total_batch_time: u64,
    pub up_total_batch_time_bal: u64,
    pub up_batch_imbalance_overhead: u64,
    pub down_total_batch_time: u64,
    pub down_total_batch_time_bal: u64,
    pub down_batch_imbalance_overhead: u64,
}

/// The field-wise sums of two results fit in 64 bits.
pub open spec fn results_can_merge(a: PimResult, b: PimResult) -> bool {
    &&& a.total_records + b.total_records <= u64::MAX
    &&& a.total_neurons + b.total_neurons <= u64::MAX
    &&& a.total_selected_neurons + b.total_selected_neurons <= u64::MAX
    &&& a.up_dense + b.up_dense <= u64::MAX
    &&& a.down_dense + b.down_dense <= u64::MAX
    &&& a.up_total_naive_time + b.up_total_naive_time <= u64::MAX
    &&& a.up_total_asnc_time + b.up_total_asnc_time <= u64::MAX
    &&& a.down_total_interproduct_time_single + b.down_total_interproduct_time_single <= u64::MAX
    &&& a.down_total_interproduct_time_two + b.down_total_interproduct_time_two <= u64::MAX
    &&& a.down_total_async_time + b.down_total_async_time <= u64::MAX
    &&& a.up_total_asnc_time_bal + b.up_total_asnc_time_bal <= u64::MAX
    &&& a.down_total_async_time_bal + b.down_total_async_time_bal <= u64::MAX
    &&& a.up_async_imbalance_overhead + b.up_async_imbalance_overhead <= u64::MAX
    &&& a.down_async_imbalance_overhead + b.down_async_imbalance_overhead <= u64::MAX
    &&& a.up_total_batch_time + b.up_total_batch_time <= u64::MAX
    &&& a.up_total_batch_time_bal + b.up_total_batch_time_bal <= u64::MAX
    &&& a.up_batch_imbalance_overhead + b.up_batch_imbalance_overhead <= u64::MAX
    &&& a.down_total_batch_time + b.down_total_batch_time <= u64::MAX
    &&& a.down_total_batch_time_bal + b.down_total_batch_time_bal <= u64::MAX
    &&& a.down_batch_imbalance_overhead + b.down_batch_imbalance_overhead <= u64::MAX
}

/// Field-wise sum of two results computed with the same `batch_group`.
pub open spec fn merged_result(a: PimResult, b: PimResult) -> PimResult {
    PimResult {
        total_records: plus(a.total_records, b.total_records as int),
        total_neurons: plus(a.total_neurons, b.total_neurons as int),
        total_selected_neurons: plus(a.total_selected_neurons, b.total_selected_neurons as int),
        up_dense: plus(a.up_dense, b.up_dense as int),
        down_dense: plus(a.down_dense, b.down_dense as int),
        up_total_naive_time: plus(a.up_total_naive_time, b.up_total_naive_time as int),
        up_total_asnc_time: plus(a.up_total_asnc_time, b.up_total_asnc_time as int),
        down_total_interproduct_time_single: plus(a.down_total_interproduct_time_single, b.down_total_interproduct_time_single as int),
        down_total_interproduct_time_two: plus(a.down_total_interproduct_time_two, b.down_total_interproduct_time_two as int),
        down_total_async_time: plus(a.down_total_async_time, b.down_total_async_time as int),
        up_total_asnc_time_bal: plus(a.up_total_asnc_time_bal, b.up_total_asnc_time_bal as int),
        down_total_async_time_bal: plus(a.down_total_async_time_bal, b.down_total_async_time_bal as int),
        up_async_imbalance_overhead: plus(a.up_async_imbalance_overhead, b.up_async_imbalance_overhead as int),
        down_async_imbalance_overhead: plus(a.down_async_imbalance_overhead, b.down_async_imbalance_overhead as int),
        batch_group: a.batch_group,
        up_total_batch_time: plus(a.up_total_batch_time, b.up_total_batch_time as int),
        up_total_batch_time_bal: plus(a.up_total_batch_time_bal, b.up_total_batch_time_bal as int),
        up_batch_imbalance_overhead: plus(a.up_batch_imbalance_overhead, b.up_batch_imbalance_overhead as int),
        down_total_batch_time: plus(a.down_total_batch_time, b.down_total_batch_time as int),
        down_total_batch_time_bal: plus(a.down_total_batch_time_bal, b.down_total_batch_time_bal as int),
        down_batch_imbalance_overhead: plus(a.down_batch_imbalance_overhead, b.down_batch_imbalance_overhead as int),
    }
}

impl PimResult {
    /// Whether [`PimResult::merge`] accepts the pair: same `batch_group`,
    /// and every field-wise sum fits in 64 bits.
    pub fn can_merge(&self, other: &Self) -> (ok: bool)
        ensures
            ok == (self.batch_group == other.batch_group && results_can_merge(*self, *other)),
    {
        let a = self;
        let b = other;
        a.batch_group == b.batch_group && a.total_records <= u64::MAX - b.total_records
            && a.total_neurons <= u64::MAX - b.total_neurons && a.total_selected_neurons
            <= u64::MAX - b.total_selected_neurons && a.up_dense <= u64::MAX - b.up_dense
            && a.down_dense <= u64::MAX - b.down_dense && a.up_total_naive_time <= u64::MAX
            - b.up_total_naive_time && a.up_total_asnc_time <= u64::MAX - b.up_total_asnc_time
            && a.down_total_interproduct_time_single <= u64::MAX
            - b.down_total_interproduct_time_single && a.down_total_interproduct_time_two
            <= u64::MAX - b.down_total_interproduct_time_two && a.down_total_async_time
            <= u64::MAX - b.down_total_async_time && a.up_total_asnc_time_bal <= u64::MAX
            - b.up_total_asnc_time_bal && a.down_total_async_time_bal <= u64::MAX
            - b.down_total_async_time_bal && a.up_async_imbalance_overhead <= u64::MAX
            - b.up_async_imbalance_overhead && a.down_async_imbalance_overhead <= u64::MAX
            - b.down_async_imbalance_overhead && a.up_total_batch_time <= u64::MAX
            - b.up_total_batch_time && a.up_total_batch_time_bal <= u64::MAX
            - b.up_total_batch_time_bal && a.up_batch_imbalance_overhead <= u64::MAX
            - b.up_batch_imbalance_overhead && a.down_total_batch_time <= u64::MAX
            - b.down_total_batch_time && a.down_total_batch_time_bal <= u64::MAX
            - b.down_total_batch_time_bal && a.down_batch_imbalance_overhead <= u64::MAX
            - b.down_batch_imbalance_overhead
    }

    /// Merge two independent partial results (e.g. from different `.bin`
    /// files) into one: every field is a per-record sum, so the fields add —
    /// except `batch_group`, a configuration value the two must share.
    pub fn merge(self, other: Self) -> (r: Self)
        requires
            self.batch_group == other.batch_group,
            results_can_merge(self, other),
        ensures
            r == merged_result(self, other),
    {
        proof {
            lemma_plus_in_range();
        }
        PimResult {
            total_records: self.total_records + other.total_records,
            total_neurons: self.total_neurons + other.total_neurons,
            total_selected_neurons: self.total_selected_neurons + other.total_selected_neurons,
            up_dense: self.up_dense + other.up_dense,
            down_dense: self.down_dense + other.down_dense,
            up_total_naive_time: self.up_total_naive_time + other.up_total_naive_time,
            up_total_asnc_time: self.up_total_asnc_time + other.up_total_asnc_time,
            down_total_interproduct_time_single: self.down_total_interproduct_time_single
                + other.down_total_interproduct_time_single,
            down_total_interproduct_time_two: self.down_total_interproduct_time_two
                + other.down_total_interproduct_time_two,
            down_total_async_time: self.down_total_async_time + other.down_total_async_time,
            up_total_asnc_time_bal: self.up_total_asnc_time_bal + other.up_total_asnc_time_bal,
            down_total_async_time_bal: self.down_total_async_time_bal
                + other.down_total_async_time_bal,
            up_async_imbalance_overhead: self.up_async_imbalance_overhead
                + other.up_async_imbalance_overhead,
            down_async_imbalance_overhead: self.down_async_imbalance_overhead
                + other.down_async_imbalance_overhead,
            batch_group: self.batch_group,
            up_total_batch_time: self.up_total_batch_time + other.up_total_batch_time,
            up_total_batch_time_bal: self.up_total_batch_time_bal + other.up_total_batch_time_bal,
            up_batch_imbalance_overhead: self.up_batch_imbalance_overhead
                + other.up_batch_imbalance_overhead,
            down_total_batch_time: self.down_total_batch_time + other.down_total_batch_time,
            down_total_batch_time_bal: self.down_total_batch_time_bal
                + other.down_total_batch_time_bal,
            down_batch_imbalance_overhead: self.down_batch_imbalance_overhead
                + other.down_batch_imbalance_overhead,
        }
    }
}

// ── Simulation state ─────────────────────────────────────────────

/// What a [`PimContext`] has accumulated: the totals so far, the records
/// waiting to be dispatched as one batched round (all of `pending_layer`),
/// and the record waiting for a partner in the two-record inner-product
/// metric.
pub struct SimState {
    pub acc: PimResult,
    pub pending: Seq<Seq<usize>>,
    pub pending_layer: Option<i32>,
    pub last: Option<Seq<usize>>,
}

/// `x + d` on a 64-bit counter, wrapping modulo 2^64. The executable code
/// never wraps (its preconditions rule overflow out), so wherever a total
/// is actually computed this is plain addition.
#[verifier::opaque]
pub open spec fn plus(x: u64, d: int) -> u64 {
    ((x + d) % 0x1_0000_0000_0000_0000) as u64
}

/// Without overflow, [`plus`] is plain addition.
pub proof fn lemma_plus_in_range()
    ensures
        forall|x: u64, d: int| 0 <= x + d <= u64::MAX ==> #[trigger] plus(x, d) == x + d,
{
    reveal(plus);
    assert forall|x: u64, d: int| 0 <= x + d <= u64::MAX implies #[trigger] plus(x, d) == x + d by {
        vstd::arithmetic::div_mod::lemma_small_mod((x + d) as nat, 0x1_0000_0000_0000_0000nat);
    }
}

/// A result with every count at zero.
pub open spec fn empty_result(batch_group: u64) -> PimResult {
    PimResult {
        total_records: 0,
        total_neurons: 0,
        total_selected_neurons: 0,
        up_dense: 0,
        down_dense: 0,
        up_total_naive_time: 0,
        up_total_asnc_time: 0,
        down_total_interproduct_time_single: 0,
        down_total_interproduct_time_two: 0,
        down_total_async_time: 0,
        up_total_asnc_time_bal: 0,
        down_total_async_time_bal: 0,
        up_async_imbalance_overhead: 0,
        down_async_imbalance_overhead: 0,
        batch_group,
        up_total_batch_time: 0,
        up_total_batch_time_bal: 0,
        up_batch_imbalance_overhead: 0,
        down_total_batch_time: 0,
        down_total_batch_time_bal: 0,
        down_batch_imbalance_overhead: 0,
    }
}

/// Excess of the busiest bank over the even split, if any.
pub open spec fn overhead(busiest: int, ideal: int) -> int {
    if busiest > ideal {
        busiest - ideal
    } else {
        0
    }
}

/// The per-record (unbatched) metrics after one record of `layer` with
/// `total` neurons and active indices `s`; `last` is the record still
/// waiting for a partner in the two-record inner-product metric.
pub open spec fn record_step(
    acc: PimResult,
    cfg: PimConfig,
    remap: Option<RemapTable>,
    layer: i32,
    total: int,
    s: Seq<usize>,
    last: Option<Seq<usize>>,
) -> PimResult {
    let r = rows_per_neuron(cfg);
    let q = tensors_per_bank(cfg);
    let banks = cfg.banks as int;
    let um = busiest_bank(s, Projection::Up, cfg, remap_row(remap, Projection::Up, layer)) as int;
    let dm = busiest_bank(s, Projection::Down, cfg, remap_row(remap, Projection::Down, layer)) as int;
    let ideal = ceil_div(s.len() as int, banks);
    PimResult {
        total_records: plus(acc.total_records, 1),
        total_neurons: plus(acc.total_neurons, total),
        total_selected_neurons: plus(acc.total_selected_neurons, s.len() as int),
        up_dense: plus(acc.up_dense, ceil_div(total, banks) * r),
        up_total_naive_time: plus(acc.up_total_naive_time, naive_rows(s, cfg) * r),
        up_total_asnc_time: plus(acc.up_total_asnc_time, um * r),
        up_total_asnc_time_bal: plus(acc.up_total_asnc_time_bal, ideal * r),
        up_async_imbalance_overhead: plus(acc.up_async_imbalance_overhead, overhead(um, ideal) * r),
        down_dense: plus(
            acc.down_dense,
            ceil_div(total * cfg.data_width, cfg.page_size as int) * q,
        ),
        down_total_interproduct_time_single: plus(
            acc.down_total_interproduct_time_single,
            dedup(row_keys(s, cfg)).len() * q,
        ),
        down_total_interproduct_time_two: plus(
            acc.down_total_interproduct_time_two,
            match last {
                Some(l) => dedup(row_keys(l + s, cfg)).len() * q,
                None => 0,
            },
        ),
        down_total_async_time: plus(acc.down_total_async_time, dm * r),
        down_total_async_time_bal: plus(acc.down_total_async_time_bal, ideal * r),
        down_async_imbalance_overhead: plus(acc.down_async_imbalance_overhead, overhead(dm, ideal) * r),
        ..acc
    }
}

/// The batched-round metrics after dispatching the pending records of
/// `layer` as one round over the union of their active indices.
pub open spec fn batch_flush(
    acc: PimResult,
    cfg: PimConfig,
    remap: Option<RemapTable>,
    layer: i32,
    pending: Seq<Seq<usize>>,
) -> PimResult {
    if pending.len() == 0 {
        acc
    } else {
        let u = dedup(concat_all(pending));
        let r = rows_per_neuron(cfg);
        let um = busiest_bank(u, Projection::Up, cfg, remap_row(remap, Projection::Up, layer)) as int;
        let dm = busiest_bank(u, Projection::Down, cfg, remap_row(remap, Projection::Down, layer)) as int;
        let ideal = ceil_div(u.len() as int, cfg.banks as int);
        PimResult {
            up_total_batch_time: plus(acc.up_total_batch_time, um * r),
            up_total_batch_time_bal: plus(acc.up_total_batch_time_bal, ideal * r),
            up_batch_imbalance_overhead: plus(acc.up_batch_imbalance_overhead, overhead(um, ideal) * r),
            down_total_batch_time: plus(acc.down_total_batch_time, dm * r),
            down_total_batch_time_bal: plus(acc.down_total_batch_time_bal, ideal * r),
            down_batch_imbalance_overhead: plus(acc.down_batch_imbalance_overhead, overhead(dm, ideal) * r),
            ..acc
        }
    }
}

/// Dispatch the pending records (if any) as one batched round.
pub open spec fn flush_state(st: SimState, cfg: PimConfig, remap: Option<RemapTable>) -> SimState {
    if st.pending.len() == 0 {
        st
    } else {
        SimState {
            acc: batch_flush(st.acc, cfg, remap, st.pending_layer.unwrap(), st.pending),
            pending: Seq::empty(),
            ..st
        }
    }
}

/// The state after feeding one record: per-record metrics, pairing for the
/// two-record inner product, then the record joins the pending batch (a
/// batch never spans layers, so a new layer first dispatches the old batch)
/// and a full batch is dispatched.
pub open spec fn step_state(
    st: SimState,
    cfg: PimConfig,
    remap: Option<RemapTable>,
    batch_group: int,
    layer: i32,
    total: int,
    s: Seq<usize>,
) -> SimState {
    let st1 = SimState {
        acc: record_step(st.acc, cfg, remap, layer, total, s, st.last),
        last: if st.last is Some {
            None
        } else {
            Some(s)
        },
        ..st
    };
    let st2 = if st.pending_layer != Some(layer) {
        SimState { pending_layer: Some(layer), ..flush_state(st1, cfg, remap) }
    } else {
        st1
    };
    let st3 = SimState { pending: st2.pending.push(s), ..st2 };
    if st3.pending.len() >= batch_group {
        flush_state(st3, cfg, remap)
    } else {
        st3
    }
}

/// The state after the end of the stream: the partial batch is dispatched,
/// and an unpaired record is flushed into the two-record inner product on
/// its own rows.
pub open spec fn finish_state(st: SimState, cfg: PimConfig, remap: Option<RemapTable>) -> SimState {
    let f = flush_state(st, cfg, remap);
    let acc = match st.last {
        Some(l) => PimResult {
            down_total_interproduct_time_two: plus(
                f.acc.down_total_interproduct_time_two,
                dedup(row_keys(l, cfg)).len() * tensors_per_bank(cfg),
            ),
            ..f.acc
        },
        None => f.acc,
    };
    SimState { acc, last: None, ..f }
}

// ── Overflow accounting ──────────────────────────────────────────

/// Every per-record increment is at most this many times the record's
/// `1 + total + active` "mass", so no total exceeds it times the mass seen.
pub open spec fn k_factor(cfg: PimConfig) -> int {
    rows_per_neuron(cfg) + cfg.data_width * tensors_per_bank(cfg) + 2 * tensors_per_bank(cfg)
        + cfg.data_width + 1
}

/// Records, neurons and active neurons seen so far.
pub open spec fn mass(acc: PimResult) -> int {
    acc.total_records + acc.total_neurons + acc.total_selected_neurons
}

pub open spec fn last_len(last: Option<Seq<usize>>) -> int {
    match last {
        Some(l) => l.len() as int,
        None => 0,
    }
}

/// Every total, together with what the pending batch and the unpaired
/// record may still add to it, stays within `k_factor * mass`, which fits
/// in 64 bits.
pub open spec fn state_bounded(st: SimState, cfg: PimConfig) -> bool {
    let m = k_factor(cfg) * mass(st.acc);
    let r = rows_per_neuron(cfg);
    let q = tensors_per_bank(cfg);
    let pm = concat_all(st.pending).len() as int;
    let lm = last_len(st.last);
    &&& m <= u64::MAX
    &&& st.acc.up_dense <= m
    &&& st.acc.down_dense <= m
    &&& st.acc.up_total_naive_time <= m
    &&& st.acc.up_total_asnc_time <= m
    &&& st.acc.up_total_asnc_time_bal <= m
    &&& st.acc.up_async_imbalance_overhead <= m
    &&& st.acc.down_total_async_time <= m
    &&& st.acc.down_total_async_time_bal <= m
    &&& st.acc.down_async_imbalance_overhead <= m
    &&& st.acc.down_total_interproduct_time_single + q * lm <= m
    &&& st.acc.down_total_interproduct_time_two + q * lm <= m
    &&& batch_bounded(st, cfg, m)
}

/// The batched-round totals, plus what the pending batch may still add to
/// each, are at most `bound`.
pub open spec fn batch_bounded(st: SimState, cfg: PimConfig, bound: int) -> bool {
    let r = rows_per_neuron(cfg);
    let pm = concat_all(st.pending).len() as int;
    &&& st.acc.up_total_batch_time + r * pm <= bound
    &&& st.acc.up_total_batch_time_bal + r * pm <= bound
    &&& st.acc.up_batch_imbalance_overhead + r * pm <= bound
    &&& st.acc.down_total_batch_time + r * pm <= bound
    &&& st.acc.down_total_batch_time_bal + r * pm <= bound
    &&& st.acc.down_batch_imbalance_overhead + r * pm <= bound
}

/// The unpaired record's row keys can be computed without overflow.
pub open spec fn last_ok(last: Option<Seq<usize>>, cfg: PimConfig) -> bool {
    forall|k: int|
        #![trigger last->0[k]]
        last is Some && 0 <= k < last->0.len() ==> last->0[k] * cfg.data_width <= u64::MAX
}

proof fn lemma_scaled_le(x: int, y: int, c: int, k: int)
    requires
        0 <= x <= y,
        0 <= c <= k,
    ensures
        x * c <= y * k,
        0 <= x * c,
{
    assert(x * c <= y * c) by (nonlinear_arith)
        requires
            0 <= x <= y,
            0 <= c,
    ;
    assert(y * c <= y * k) by (nonlinear_arith)
        requires
            0 <= y,
            0 <= c <= k,
    ;
    assert(0 <= x * c) by (nonlinear_arith)
        requires
            0 <= x,
            0 <= c,
    ;
}

proof fn lemma_distrib(k: int, a: int, b: int)
    ensures
        k * (a + b) == k * a + k * b,
{
    assert(k * (a + b) == k * a + k * b) by (nonlinear_arith);
}

proof fn lemma_ceil_div_le(a: int, b: int)
    requires
        a >= 0,
        b >= 1,
    ensures
        0 <= ceil_div(a, b) <= a,
{
    assert(0 <= a / b <= a) by (nonlinear_arith)
        requires
            a >= 0,
            b >= 1,
    ;
    if a % b != 0 {
        assert(a / b < a) by (nonlinear_arith)
            requires
                a >= 0,
                b >= 1,
                a % b != 0,
        ;
    }
}

proof fn lemma_k_factor(cfg: PimConfig)
    requires
        cfg_wf(cfg),
    ensures
        0 <= rows_per_neuron(cfg) <= k_factor(cfg),
        0 <= tensors_per_bank(cfg),
        2 * tensors_per_bank(cfg) <= k_factor(cfg),
        cfg.data_width * tensors_per_bank(cfg) <= k_factor(cfg),
        0 <= cfg.data_width * tensors_per_bank(cfg),
        cfg.data_width <= k_factor(cfg),
        1 <= k_factor(cfg),
{
    assert(0 <= cfg.data_width * tensors_per_bank(cfg)) by (nonlinear_arith)
        requires
            0 <= cfg.data_width,
            0 <= tensors_per_bank(cfg),
    ;
}

/// Append the transposed-layout row key of each index.
fn push_row_keys(out: &mut Vec<u64>, idx: &[usize], cfg: &PimConfig)
    requires
        cfg_wf(*cfg),
        forall|k: int| 0 <= k < idx@.len() ==> idx@[k] * cfg.data_width <= u64::MAX,
    ensures
        final(out)@ == old(out)@ + row_keys(idx@, *cfg),
{
    let dw = cfg.data_width;
    let page = cfg.page_size;
    let mut k: usize = 0;
    while k < idx.len()
        invariant
            dw == cfg.data_width,
            page == cfg.page_size,
            cfg_wf(*cfg),
            k <= idx@.len(),
            forall|j: int| 0 <= j < idx@.len() ==> idx@[j] * cfg.data_width <= u64::MAX,
            out@ == old(out)@ + row_keys(idx@.take(k as int), *cfg),
        decreases idx@.len() - k,
    {
        let i = idx[k] as u64;
        assert(idx@[k as int] * dw <= u64::MAX);
        let key = i * dw / page;
        out.push(key);
        assert(row_keys(idx@.take(k + 1), *cfg) =~= row_keys(idx@.take(k as int), *cfg).push(key));
        k = k + 1;
    }
    assert(idx@.take(k as int) =~= idx@);
}

// ── Balance of the accumulated totals ────────────────────────────

/// Every imbalance overhead is exactly its total less its balanced total.
pub open spec fn overheads_exact(a: PimResult) -> bool {
    &&& a.up_total_asnc_time_bal + a.up_async_imbalance_overhead == a.up_total_asnc_time
    &&& a.down_total_async_time_bal + a.down_async_imbalance_overhead == a.down_total_async_time
    &&& a.up_total_batch_time_bal + a.up_batch_imbalance_overhead == a.up_total_batch_time
    &&& a.down_total_batch_time_bal + a.down_batch_imbalance_overhead == a.down_total_batch_time
}

/// The busiest-bank counts of the pending records, summed, for one
/// projection (0 when nothing is pending).
pub open spec fn pend_busiest(st: SimState, cfg: PimConfig, remap: Option<RemapTable>, proj: Projection) -> int {
    if st.pending.len() == 0 {
        0
    } else {
        busiest_sum(st.pending, proj, cfg, remap_row(remap, proj, st.pending_layer->0))
    }
}

/// The batched totals, plus what the pending records would cost one by
/// one, stay within the per-record totals.
pub open spec fn batch_within_async(st: SimState, cfg: PimConfig, remap: Option<RemapTable>) -> bool {
    let r = rows_per_neuron(cfg);
    let e = even_split_sum(st.pending, cfg.banks as int);
    &&& st.acc.up_total_batch_time + r * pend_busiest(st, cfg, remap, Projection::Up) <= st.acc.up_total_asnc_time
    &&& st.acc.down_total_batch_time + r * pend_busiest(st, cfg, remap, Projection::Down)
        <= st.acc.down_total_async_time
    &&& st.acc.up_total_batch_time_bal + r * e <= st.acc.up_total_asnc_time_bal
    &&& st.acc.down_total_batch_time_bal + r * e <= st.acc.down_total_async_time_bal
}

// ── The simulation context ───────────────────────────────────────

/// Accumulates PIM timing across the records of a stream (see the module
/// documentation for the layouts simulated).
pub struct PimContext {
    config: PimConfig,
    remap: Option<RemapTable>,
    batch_group: usize,
    acc: PimResult,
    pending: Vec<Vec<usize>>,
    pending_layer: Option<i32>,
    last_round_index_down: Option<Vec<usize>>,
}

impl PimContext {
    /// The accumulated totals and the records still waiting to be counted.
    pub closed spec fn state(&self) -> SimState {
        SimState {
            acc: self.acc,
            pending: pending_view(self.pending@),
            pending_layer: self.pending_layer,
            last: match self.last_round_index_down {
                Some(v) => Some(v@),
                None => None,
            },
        }
    }

    /// The context's configuration and remap table are ones it can compute
    /// with (checked when a record is fed, as that is where it computes).
    pub open spec fn supported(&self) -> bool {
        &&& cfg_wf(self.config_spec())
        &&& (self.remap_spec() matches Some(r) ==> remap_fits(r, self.config_spec().banks as int))
    }

    pub closed spec fn config_spec(&self) -> PimConfig {
        self.config
    }

    pub closed spec fn remap_spec(&self) -> Option<RemapTable> {
        self.remap
    }

    pub closed spec fn batch_group_spec(&self) -> int {
        self.batch_group as int
    }

    /// The context can take more records: parameters it can compute with,
    /// a remap table that fits the array, and totals within their bounds.
    pub closed spec fn wf(&self) -> bool {
        &&& (self.pending@.len() > 0 || self.last_round_index_down is Some) ==> self.supported()
        &&& self.batch_group >= 1
        &&& self.acc.batch_group == self.batch_group
        &&& self.pending@.len() < self.batch_group
        &&& (self.pending@.len() > 0 ==> self.pending_layer is Some)
        &&& state_bounded(self.state(), self.config)
        &&& last_ok(self.state().last, self.config)
        &&& overheads_exact(self.acc)
        &&& batch_within_async(self.state(), self.config, self.remap)
    }

    /// A record of `total` neurons with `n_active` active ones still fits:
    /// no total can overflow.
    pub open spec fn can_absorb(&self, total: int, n_active: int) -> bool {
        k_factor(self.config_spec()) * (mass(self.state().acc) + 1 + total + n_active) <= u64::MAX
    }

    /// Whether a record of `total` neurons with `n_active` active ones can
    /// be fed to [`PimContext::compute_time`].
    pub fn has_room(&self, total: usize, n_active: usize) -> (ok: bool)
        requires
            self.wf(),
            self.supported(),
        ensures
            ok == self.can_absorb(total as int, n_active as int),
    {
        let cfg = self.config;
        let r = (cfg.activation_size * cfg.data_width) / cfg.page_size;
        let q = cfg.activation_size / cfg.banks;
        proof {
            assert(q <= cfg.activation_size) by (nonlinear_arith)
                requires
                    cfg.banks >= 1,
                    q == cfg.activation_size / cfg.banks,
            ;
            assert(cfg.data_width * q <= u64::MAX) by (nonlinear_arith)
                requires
                    q <= cfg.activation_size,
                    cfg.activation_size * cfg.data_width <= u64::MAX,
                    0 <= cfg.data_width,
            ;
            assert(r <= cfg.activation_size * cfg.data_width) by (nonlinear_arith)
                requires
                    cfg.page_size >= 1,
                    r == (cfg.activation_size * cfg.data_width) / (cfg.page_size as int),
            ;
        }
        let k: u128 = r as u128 + (cfg.data_width * q) as u128 + 2 * (q as u128) + cfg.data_width as u128
            + 1;
        let acc = self.acc;
        let m0 = acc.total_records as u128 + acc.total_neurons as u128 + acc.total_selected_neurons
            as u128;
        let m1 = m0 + 1 + total as u128 + n_active as u128;
        if k > u64::MAX as u128 || m1 > u64::MAX as u128 {
            proof {
                assert(k * m1 >= k && k * m1 >= m1) by (nonlinear_arith)
                    requires
                        k >= 1,
                        m1 >= 1,
                ;
            }
            return false;
        }
        proof {
            assert(k * m1 <= 0xffff_ffff_ffff_ffff * 0xffff_ffff_ffff_ffff) by (nonlinear_arith)
                requires
                    0 <= k <= 0xffff_ffff_ffff_ffff,
                    0 <= m1 <= 0xffff_ffff_ffff_ffff,
            ;
        }
        k * m1 <= u64::MAX as u128
    }

    /// Whether records can be fed: the configuration is one the simulation
    /// can compute with and the remap table fits its bank array.
    pub fn is_supported(&self) -> (ok: bool)
        ensures
            ok == self.supported(),
    {
        if !config_supported(&self.config) {
            return false;
        }
        match &self.remap {
            Some(t) => t.fits_banks(self.config.banks as usize),
            None => true,
        }
    }

    /// A context that simulates one record per batched round.
    pub fn new(config: PimConfig, remap: Option<RemapTable>) -> (c: Self)
        ensures
            c.wf(),
            c.config_spec() == config,
            c.remap_spec() == remap,
            c.batch_group_spec() == 1,
            c.state() == (SimState {
                acc: empty_result(1),
                pending: Seq::empty(),
                pending_layer: None,
                last: None,
            }),
    {
        Self::with_batch_group(config, remap, 1)
    }

    /// A context that unions `batch_group` consecutive same-layer records
    /// into one dispatched round for the `{up,down}_total_batch_time`
    /// metrics (1 = no batching).
    pub fn with_batch_group(config: PimConfig, remap: Option<RemapTable>, batch_group: usize) -> (c: Self)
        requires
            batch_group >= 1,
        ensures
            c.wf(),
            c.config_spec() == config,
            c.remap_spec() == remap,
            c.batch_group_spec() == batch_group,
            c.state() == (SimState {
                acc: empty_result(batch_group as u64),
                pending: Seq::empty(),
                pending_layer: None,
                last: None,
            }),
    {
        let c = PimContext {
            config,
            remap,
            batch_group,
            acc: PimResult {
                total_records: 0,
                total_neurons: 0,
                total_selected_neurons: 0,
                up_dense: 0,
                down_dense: 0,
                up_total_naive_time: 0,
                up_total_asnc_time: 0,
                down_total_interproduct_time_single: 0,
                down_total_interproduct_time_two: 0,
                down_total_async_time: 0,
                up_total_asnc_time_bal: 0,
                down_total_async_time_bal: 0,
                up_async_imbalance_overhead: 0,
                down_async_imbalance_overhead: 0,
                batch_group: batch_group as u64,
                up_total_batch_time: 0,
                up_total_batch_time_bal: 0,
                up_batch_imbalance_overhead: 0,
                down_total_batch_time: 0,
                down_total_batch_time_bal: 0,
                down_batch_imbalance_overhead: 0,
            },
            pending: Vec::new(),
            pending_layer: None,
            last_round_index_down: None,
        };
        assert(pending_view(c.pending@) =~= Seq::empty());
        assert(c.state().acc == empty_result(batch_group as u64));
        assert(concat_all(c.state().pending) =~= Seq::<usize>::empty());
        assert(mass(c.state().acc) == 0);
        assert(k_factor(config) * mass(c.state().acc) == 0) by (nonlinear_arith)
            requires
                mass(c.state().acc) == 0,
        ;
        assert(state_bounded(c.state(), config));
        assert(last_ok(c.state().last, config));
        c
    }
}

impl PimContext {
    /// The remap rows of `layer` for UP and DOWN.
    fn tables_for(&self, layer: i32) -> (t: (Option<&Vec<usize>>, Option<&Vec<usize>>))
        requires
            self.remap matches Some(r) ==> remap_fits(r, self.config.banks as int),
        ensures
            opt_view(t.0) == remap_row(self.remap, Projection::Up, layer),
            opt_view(t.1) == remap_row(self.remap, Projection::Down, layer),
            row_fits(opt_view(t.0), self.config.banks as int),
            row_fits(opt_view(t.1), self.config.banks as int),
    {
        match &self.remap {
            Some(rt) => {
                let up = rt.up_remap.get(&layer);
                let down = rt.down_remap.get(&layer);
                proof {
                    if rt.up_remap@.contains_key(layer) {
                        assert forall|k: int|
                            0 <= k < rt.up_remap@[layer]@.len() implies #[trigger] rt.up_remap@[layer]@[k]
                            < self.config.banks by {}
                    }
                    if rt.down_remap@.contains_key(layer) {
                        assert forall|k: int|
                            0 <= k < rt.down_remap@[layer]@.len() implies #[trigger] rt.down_remap@[layer]@[k]
                            < self.config.banks by {}
                    }
                }
                (up, down)
            },
            None => (None, None),
        }
    }

    /// The per-record (unbatched) part of feeding one record.
    fn apply_record(&mut self, layer: i32, total: usize, indices: &[usize])
        requires
            cfg_wf(old(self).config),
            old(self).remap matches Some(r) ==> remap_fits(r, old(self).config.banks as int),
            state_bounded(old(self).state(), old(self).config),
            last_ok(old(self).state().last, old(self).config),
            forall|k: int| 0 <= k < indices@.len() ==> indices@[k] < total,
            old(self).can_absorb(total as int, indices@.len() as int),
        ensures
            final(self).config == old(self).config,
            final(self).remap == old(self).remap,
            final(self).batch_group == old(self).batch_group,
            final(self).pending == old(self).pending,
            final(self).pending_layer == old(self).pending_layer,
            final(self).acc == record_step(
                old(self).acc,
                old(self).config,
                old(self).remap,
                layer,
                total as int,
                indices@,
                old(self).state().last,
            ),
            final(self).state().last == if old(self).state().last is Some {
                None
            } else {
                Some(indices@)
            },
            mass(final(self).acc) == mass(old(self).acc) + 1 + total + indices@.len(),
            state_bounded(final(self).state(), final(self).config),
            last_ok(final(self).state().last, final(self).config),
            final(self).acc.up_total_asnc_time == old(self).acc.up_total_asnc_time + busiest_bank(
                indices@,
                Projection::Up,
                old(self).config,
                remap_row(old(self).remap, Projection::Up, layer),
            ) * rows_per_neuron(old(self).config),
            final(self).acc.down_total_async_time == old(self).acc.down_total_async_time
                + busiest_bank(
                indices@,
                Projection::Down,
                old(self).config,
                remap_row(old(self).remap, Projection::Down, layer),
            ) * rows_per_neuron(old(self).config),
            final(self).acc.up_total_asnc_time_bal == old(self).acc.up_total_asnc_time_bal + ceil_div(
                indices@.len() as int,
                old(self).config.banks as int,
            ) * rows_per_neuron(old(self).config),
            final(self).acc.down_total_async_time_bal == old(self).acc.down_total_async_time_bal
                + ceil_div(indices@.len() as int, old(self).config.banks as int) * rows_per_neuron(
                old(self).config,
            ),
            overheads_exact(old(self).acc) ==> overheads_exact(final(self).acc),
    {
        let cfg = self.config;
        let ghost st0 = self.state();
        let ghost k = k_factor(cfg);
        proof {
            lemma_plus_in_range();
        }
        let ghost m0 = mass(self.acc);
        let r: u64 = (cfg.activation_size * cfg.data_width) / cfg.page_size;
        let q: u64 = cfg.activation_size / cfg.banks;
        let n = total as u64;
        let a = indices.len() as u64;
        let ghost delta = 1 + n + a;
        proof {
            lemma_k_factor(cfg);
            lemma_distrib(k, m0, delta);
            assert(k * (m0 + delta) <= u64::MAX);
            assert(0 <= k * m0) by (nonlinear_arith)
                requires
                    k >= 1,
                    m0 >= 0,
            ;
            lemma_scaled_le(n as int, delta, cfg.data_width as int, k);
        }
        let (up_t, down_t) = self.tables_for(layer);
        let naive = naive_channel_rows(indices, &cfg);
        let (um, ideal) = round_stats(indices, Projection::Up, &cfg, up_t);
        let (dm, _ideal_down) = round_stats(indices, Projection::Down, &cfg, down_t);
        proof {
            law_even_split_is_lower_bound(indices@, Projection::Up, cfg, opt_view(up_t));
            law_even_split_is_lower_bound(indices@, Projection::Down, cfg, opt_view(down_t));
        }
        let mut keys: Vec<u64> = Vec::new();
        proof {
            assert forall|j: int| 0 <= j < indices@.len() implies indices@[j] * cfg.data_width
                <= u64::MAX by {
                lemma_scaled_le(indices@[j] as int, n as int, cfg.data_width as int, cfg.data_width as int);
            }
        }
        push_row_keys(&mut keys, indices, &cfg);
        assert(keys@ =~= row_keys(indices@, cfg));
        let single_rows = count_distinct(&keys);
        proof {
            lemma_dedup(keys@);
        }
        let two_rows: usize = match &self.last_round_index_down {
            Some(l) => {
                let mut k2: Vec<u64> = Vec::new();
                push_row_keys(&mut k2, l.as_slice(), &cfg);
                push_row_keys(&mut k2, indices, &cfg);
                assert(k2@ =~= row_keys(l@ + indices@, cfg));
                let c = count_distinct(&k2);
                proof {
                    lemma_dedup(k2@);
                }
                c
            },
            None => 0,
        };
        proof {
            lemma_ceil_div_le(n as int, cfg.banks as int);
            assert(m0 + delta <= u64::MAX) by (nonlinear_arith)
                requires
                    k >= 1,
                    k * (m0 + delta) <= u64::MAX,
                    m0 + delta >= 0,
            ;
        }
        let up_dense_rows: u64 = n / cfg.banks + if n % cfg.banks != 0 {
            1u64
        } else {
            0u64
        };
        proof {
            lemma_ceil_div_le(n as int, cfg.banks as int);
        }
        let nd = n * cfg.data_width;
        proof {
            lemma_ceil_div_le(nd as int, cfg.page_size as int);
        }
        let down_rows: u64 = nd / cfg.page_size + if nd % cfg.page_size != 0 {
            1u64
        } else {
            0u64
        };
        proof {
            lemma_ceil_div_le(nd as int, cfg.page_size as int);
            let lm = last_len(st0.last);
            lemma_scaled_le(up_dense_rows as int, delta, r as int, k);
            lemma_scaled_le(naive as int, delta, r as int, k);
            lemma_scaled_le(um as int, delta, r as int, k);
            lemma_scaled_le(dm as int, delta, r as int, k);
            lemma_scaled_le(ideal as int, delta, r as int, k);
            lemma_scaled_le(down_rows as int, nd as int, q as int, q as int);
            lemma_scaled_le(n as int, delta, cfg.data_width * q, k);
            assert((n * cfg.data_width) * q == n * (cfg.data_width * q)) by (nonlinear_arith);
            lemma_scaled_le(single_rows as int, delta, q as int, k);
            lemma_scaled_le(a as int, delta, 2 * q, k);
            assert(a * (2 * q) == 2 * (a * q)) by (nonlinear_arith);
            lemma_scaled_le(a as int, a as int, q as int, q as int);
            if st0.last is Some {
                lemma_scaled_le(two_rows as int, lm + a, q as int, q as int);
                lemma_distrib(q as int, lm, a as int);
                assert(q * (lm + a) == (lm + a) * q) by (nonlinear_arith);
            }
            assert(0 <= q * lm) by (nonlinear_arith)
                requires
                    q >= 0,
                    lm >= 0,
            ;
            assert(q * a == a * q) by (nonlinear_arith);
            let t0 = st0.acc.down_total_interproduct_time_two as int;
            assert(t0 + (two_rows as int) * q + (if st0.last is Some {
                0
            } else {
                q * a
            }) <= k * m0 + k * delta) by {
                assert(a * q <= 2 * (a * q));
                if st0.last is Some {
                    assert((two_rows as int) * q <= (lm + a) * q);
                    assert(t0 + q * lm <= k * m0);
                } else {
                    assert(lm == 0);
                    assert(q * lm == 0);
                    assert(two_rows == 0);
                    assert((two_rows as int) * q == 0);
                }
            }
            let pm = concat_all(st0.pending).len() as int;
            assert(0 <= r * pm) by (nonlinear_arith)
                requires
                    r >= 0,
                    pm >= 0,
            ;
        }
        let over_up: u64 = if um > ideal {
            (um - ideal) as u64
        } else {
            0
        };
        let over_down: u64 = if dm > ideal {
            (dm - ideal) as u64
        } else {
            0
        };
        proof {
            lemma_scaled_le(over_up as int, delta, r as int, k);
            lemma_scaled_le(over_down as int, delta, r as int, k);
        }
        self.acc.total_records = self.acc.total_records + 1;
        self.acc.total_neurons = self.acc.total_neurons + n;
        self.acc.total_selected_neurons = self.acc.total_selected_neurons + a;
        self.acc.up_dense = self.acc.up_dense + up_dense_rows * r;
        self.acc.up_total_naive_time = self.acc.up_total_naive_time + (naive as u64) * r;
        self.acc.up_total_asnc_time = self.acc.up_total_asnc_time + (um as u64) * r;
        self.acc.up_total_asnc_time_bal = self.acc.up_total_asnc_time_bal + (ideal as u64) * r;
        self.acc.up_async_imbalance_overhead = self.acc.up_async_imbalance_overhead + over_up * r;
        self.acc.down_dense = self.acc.down_dense + down_rows * q;
        self.acc.down_total_interproduct_time_single = self.acc.down_total_interproduct_time_single
            + (single_rows as u64) * q;
        self.acc.down_total_interproduct_time_two = self.acc.down_total_interproduct_time_two
            + (two_rows as u64) * q;
        self.acc.down_total_async_time = self.acc.down_total_async_time + (dm as u64) * r;
        self.acc.down_total_async_time_bal = self.acc.down_total_async_time_bal + (ideal as u64) * r;
        self.acc.down_async_imbalance_overhead = self.acc.down_async_imbalance_overhead + over_down
            * r;
        if self.last_round_index_down.is_some() {
            self.last_round_index_down = None;
        } else {
            self.last_round_index_down = Some(vstd::slice::slice_to_vec(indices));
        }
        proof {
            assert(mass(self.acc) == m0 + delta);
            assert(delta * k == k * delta) by (nonlinear_arith);
            let m1 = k * mass(self.acc);
            assert(m1 == k * m0 + k * delta);
            let st1 = self.state();
            assert(st1.pending == st0.pending);
            let lm1 = last_len(st1.last);
            let lm0 = last_len(st0.last);
            let pm = concat_all(st0.pending).len() as int;
            assert(st1.acc.up_dense <= m1);
            assert(st1.acc.down_dense <= m1);
            assert(st1.acc.up_total_naive_time <= m1);
            assert(st1.acc.up_total_asnc_time <= m1);
            assert(st1.acc.up_total_asnc_time_bal <= m1);
            assert(st1.acc.up_async_imbalance_overhead <= m1);
            assert(st1.acc.down_total_async_time <= m1);
            assert(st1.acc.down_total_async_time_bal <= m1);
            assert(st1.acc.down_async_imbalance_overhead <= m1);
            lemma_scaled_le(single_rows as int, a as int, q as int, q as int);
            assert(q * a == a * q) by (nonlinear_arith);
            assert(q * 0 == 0);
            assert(st1.acc.down_total_interproduct_time_single + q * lm1 <= m1);
            assert(st1.acc.down_total_interproduct_time_two + q * lm1 <= m1);
            assert(batch_bounded(st1, cfg, m1));
            let ui = um as int;
            let di = dm as int;
            let ii = ideal as int;
            let ri = r as int;
            assert(over_up as int == ui - ii);
            assert(over_down as int == di - ii);
            assert((ui - ii) * ri == ui * ri - ii * ri) by (nonlinear_arith);
            assert((di - ii) * ri == di * ri - ii * ri) by (nonlinear_arith);
        }
    }
}

/// Dispatching the pending batch never pushes a batched total past its
/// bound: the round's busiest bank holds at most the pending indices.
pub proof fn lemma_flush_bounded(st: SimState, cfg: PimConfig, remap: Option<RemapTable>, bound: int)
    requires
        cfg_wf(cfg),
        batch_bounded(st, cfg, bound),
    ensures
        batch_bounded(flush_state(st, cfg, remap), cfg, bound),
        flush_state(st, cfg, remap).last == st.last,
        flush_state(st, cfg, remap).acc.total_records == st.acc.total_records,
        flush_state(st, cfg, remap).acc.total_neurons == st.acc.total_neurons,
        flush_state(st, cfg, remap).acc.total_selected_neurons == st.acc.total_selected_neurons,
{
    lemma_plus_in_range();
    if st.pending.len() > 0 {
        let c = concat_all(st.pending);
        let u = dedup(c);
        let layer = st.pending_layer.unwrap();
        let r = rows_per_neuron(cfg);
        let up_t = remap_row(remap, Projection::Up, layer);
        let dn_t = remap_row(remap, Projection::Down, layer);
        lemma_dedup(c);
        lemma_busiest_bounded(u, Projection::Up, cfg, up_t);
        lemma_busiest_bounded(u, Projection::Down, cfg, dn_t);
        lemma_ceil_div_le(u.len() as int, cfg.banks as int);
        let um = busiest_bank(u, Projection::Up, cfg, up_t) as int;
        let dm = busiest_bank(u, Projection::Down, cfg, dn_t) as int;
        let ideal = ceil_div(u.len() as int, cfg.banks as int);
        lemma_k_factor(cfg);
        lemma_scaled_le(um, c.len() as int, r, r);
        lemma_scaled_le(dm, c.len() as int, r, r);
        lemma_scaled_le(ideal, c.len() as int, r, r);
        lemma_scaled_le(overhead(um, ideal), c.len() as int, r, r);
        lemma_scaled_le(overhead(dm, ideal), c.len() as int, r, r);
        assert(r * (c.len() as int) == (c.len() as int) * r) by (nonlinear_arith);
        assert(concat_all(Seq::<Seq<usize>>::empty()) =~= Seq::<usize>::empty());
        assert(r * 0 == 0);
    }
}

impl PimContext {
    /// Dispatch the pending records (if any) as one batched round.
    fn flush_batch(&mut self)
        requires
            old(self).pending@.len() > 0 ==> cfg_wf(old(self).config),
            old(self).pending@.len() > 0 ==> (old(self).remap matches Some(r) ==> remap_fits(
                r,
                old(self).config.banks as int,
            )),
            old(self).pending@.len() > 0 ==> old(self).pending_layer is Some,
            state_bounded(old(self).state(), old(self).config),
        ensures
            state_bounded(final(self).state(), final(self).config),
            mass(final(self).acc) == mass(old(self).acc),
            final(self).config == old(self).config,
            final(self).remap == old(self).remap,
            final(self).batch_group == old(self).batch_group,
            final(self).pending_layer == old(self).pending_layer,
            final(self).last_round_index_down == old(self).last_round_index_down,
            final(self).state() == flush_state(old(self).state(), old(self).config, old(self).remap),
            final(self).pending@.len() == 0,
            final(self).acc.up_total_batch_time <= old(self).acc.up_total_batch_time + rows_per_neuron(
                old(self).config,
            ) * pend_busiest(old(self).state(), old(self).config, old(self).remap, Projection::Up),
            final(self).acc.down_total_batch_time <= old(self).acc.down_total_batch_time
                + rows_per_neuron(old(self).config) * pend_busiest(
                old(self).state(),
                old(self).config,
                old(self).remap,
                Projection::Down,
            ),
            final(self).acc.up_total_batch_time_bal <= old(self).acc.up_total_batch_time_bal
                + rows_per_neuron(old(self).config) * even_split_sum(
                old(self).state().pending,
                old(self).config.banks as int,
            ),
            final(self).acc.down_total_batch_time_bal <= old(self).acc.down_total_batch_time_bal
                + rows_per_neuron(old(self).config) * even_split_sum(
                old(self).state().pending,
                old(self).config.banks as int,
            ),
            overheads_exact(old(self).acc) ==> overheads_exact(final(self).acc),
    {
        if self.pending.len() == 0 {
            proof {
                let ri = rows_per_neuron(self.config);
                assert(ri * 0 == 0);
            }
            return ;
        }
        let ghost st0 = self.state();
        let cfg = self.config;
        let layer = self.pending_layer.unwrap();
        proof {
            lemma_plus_in_range();
        }
        let u = union_of(&self.pending);
        let (up_t, down_t) = self.tables_for(layer);
        let (um, ideal) = round_stats(u.as_slice(), Projection::Up, &cfg, up_t);
        let (dm, _ideal_down) = round_stats(u.as_slice(), Projection::Down, &cfg, down_t);
        let r: u64 = (cfg.activation_size * cfg.data_width) / cfg.page_size;
        let ghost m = k_factor(cfg) * mass(st0.acc);
        let ghost pm = concat_all(st0.pending).len() as int;
        proof {
            lemma_flush_bounded(st0, cfg, self.remap, m);
            lemma_k_factor(cfg);
            lemma_dedup(concat_all(st0.pending));
            assert(u@.len() <= pm);
            lemma_scaled_le(um as int, pm, r as int, r as int);
            lemma_scaled_le(dm as int, pm, r as int, r as int);
            lemma_scaled_le(ideal as int, pm, r as int, r as int);
            assert(r * pm == pm * r) by (nonlinear_arith);
        }
        let over_up: u64 = if um > ideal {
            (um - ideal) as u64
        } else {
            0
        };
        let over_down: u64 = if dm > ideal {
            (dm - ideal) as u64
        } else {
            0
        };
        proof {
            lemma_scaled_le(over_up as int, pm, r as int, r as int);
            lemma_scaled_le(over_down as int, pm, r as int, r as int);
        }
        self.acc.up_total_batch_time = self.acc.up_total_batch_time + (um as u64) * r;
        self.acc.up_total_batch_time_bal = self.acc.up_total_batch_time_bal + (ideal as u64) * r;
        self.acc.up_batch_imbalance_overhead = self.acc.up_batch_imbalance_overhead + over_up * r;
        self.acc.down_total_batch_time = self.acc.down_total_batch_time + (dm as u64) * r;
        self.acc.down_total_batch_time_bal = self.acc.down_total_batch_time_bal + (ideal as u64) * r;
        self.acc.down_batch_imbalance_overhead = self.acc.down_batch_imbalance_overhead + over_down
            * r;
        self.pending = Vec::new();
        proof {
            assert(pending_view(self.pending@) =~= Seq::empty());
            assert(self.state() == flush_state(st0, cfg, self.remap));
            let pv = st0.pending;
            let ri = r as int;
            law_batched_round_le_rounds(pv, Projection::Up, cfg, opt_view(up_t));
            law_batched_round_le_rounds(pv, Projection::Down, cfg, opt_view(down_t));
            law_even_split_is_lower_bound(u@, Projection::Up, cfg, opt_view(up_t));
            law_even_split_is_lower_bound(u@, Projection::Down, cfg, opt_view(down_t));
            let bu = busiest_sum(pv, Projection::Up, cfg, opt_view(up_t));
            let bd = busiest_sum(pv, Projection::Down, cfg, opt_view(down_t));
            let e = even_split_sum(pv, cfg.banks as int);
            assert(pend_busiest(st0, cfg, self.remap, Projection::Up) == bu);
            assert(pend_busiest(st0, cfg, self.remap, Projection::Down) == bd);
            assert((um as int) * ri <= ri * bu) by (nonlinear_arith)
                requires
                    um <= bu,
                    ri >= 0,
            ;
            assert((dm as int) * ri <= ri * bd) by (nonlinear_arith)
                requires
                    dm <= bd,
                    ri >= 0,
            ;
            assert((ideal as int) * ri <= ri * e) by (nonlinear_arith)
                requires
                    ideal <= e,
                    ri >= 0,
            ;
            let ui = um as int;
            let di = dm as int;
            let ii = ideal as int;
            assert(over_up as int == ui - ii);
            assert(over_down as int == di - ii);
            assert((ui - ii) * ri == ui * ri - ii * ri) by (nonlinear_arith);
            assert((di - ii) * ri == di * ri - ii * ri) by (nonlinear_arith);
        }
    }
}

impl PimContext {
    /// Feed one record's active neuron indices into the simulation. They
    /// are positions of the record's `total` neurons, hence all below
    /// `total`; the context must be [`PimContext::supported`] and the
    /// record must fit the totals ([`PimContext::has_room`]).
    pub fn compute_time(&mut self, layer: i32, total: usize, indices: &[usize])
        requires
            old(self).wf(),
            old(self).supported(),
            forall|k: int| 0 <= k < indices@.len() ==> indices@[k] < total,
            old(self).can_absorb(total as int, indices@.len() as int),
        ensures
            final(self).wf(),
            final(self).config_spec() == old(self).config_spec(),
            final(self).remap_spec() == old(self).remap_spec(),
            final(self).batch_group_spec() == old(self).batch_group_spec(),
            final(self).state() == step_state(
                old(self).state(),
                old(self).config_spec(),
                old(self).remap_spec(),
                old(self).batch_group_spec(),
                layer,
                total as int,
                indices@,
            ),
            mass(final(self).state().acc) == mass(old(self).state().acc) + 1 + total
                + indices@.len(),
    {
        let ghost st0 = self.state();
        let ghost cfg = self.config;
        let ghost k = k_factor(cfg);
        let ghost m0 = mass(st0.acc);
        let ghost delta = 1 + total + indices@.len();
        self.apply_record(layer, total, indices);
        let ghost st1 = self.state();
        let ghost rr = rows_per_neuron(cfg);
        let ghost um = busiest_bank(indices@, Projection::Up, cfg, remap_row(self.remap, Projection::Up, layer))
            as int;
        let ghost dm = busiest_bank(
            indices@,
            Projection::Down,
            cfg,
            remap_row(self.remap, Projection::Down, layer),
        ) as int;
        let ghost ii = ceil_div(indices@.len() as int, cfg.banks as int);
        proof {
            lemma_k_factor(cfg);
            assert(st1.pending == st0.pending && st1.pending_layer == st0.pending_layer);
            assert(pend_busiest(st1, cfg, self.remap, Projection::Up) == pend_busiest(
                st0,
                cfg,
                self.remap,
                Projection::Up,
            ));
            assert(pend_busiest(st1, cfg, self.remap, Projection::Down) == pend_busiest(
                st0,
                cfg,
                self.remap,
                Projection::Down,
            ));
            assert(batch_bounded(st1, cfg, k * m0));
            lemma_distrib(k, m0, delta);
            lemma_scaled_le(indices@.len() as int, delta, rows_per_neuron(cfg), k);
            assert(delta * k == k * delta) by (nonlinear_arith);
        }
        let same_layer = match self.pending_layer {
            Some(l) => l == layer,
            None => false,
        };
        if !same_layer {
            proof {
                lemma_flush_bounded(st1, cfg, self.remap, k * m0);
            }
            self.flush_batch();
            self.pending_layer = Some(layer);
        }
        let ghost st2 = self.state();
        assert(batch_bounded(st2, cfg, k * m0));
        proof {
            let e2 = even_split_sum(st2.pending, cfg.banks as int);
            if st2.pending.len() == 0 {
                assert(rr * 0 == 0);
                assert(e2 == 0);
            }
            assert(st2.acc.up_total_batch_time + rr * pend_busiest(st2, cfg, self.remap, Projection::Up)
                + um * rr <= st2.acc.up_total_asnc_time);
            assert(st2.acc.down_total_batch_time + rr * pend_busiest(st2, cfg, self.remap, Projection::Down)
                + dm * rr <= st2.acc.down_total_async_time);
            assert(st2.acc.up_total_batch_time_bal + rr * e2 + ii * rr <= st2.acc.up_total_asnc_time_bal);
            assert(st2.acc.down_total_batch_time_bal + rr * e2 + ii * rr
                <= st2.acc.down_total_async_time_bal);
            assert(st2.pending_layer == Some(layer));
        }
        let v = vstd::slice::slice_to_vec(indices);
        self.pending.push(v);
        proof {
            assert(pending_view(self.pending@) =~= st2.pending.push(indices@));
            let pm2 = concat_all(st2.pending).len() as int;
            let a = indices@.len() as int;
            assert(concat_all(self.state().pending).len() == pm2 + a) by {
                assert(self.state().pending.drop_last() =~= st2.pending);
            }
            let r = rows_per_neuron(cfg);
            assert(r * (pm2 + a) == r * pm2 + r * a) by (nonlinear_arith);
            assert(r * a == a * r) by (nonlinear_arith);
            assert(batch_bounded(self.state(), cfg, k * (m0 + delta)));
            assert(state_bounded(self.state(), cfg));
            let st3 = self.state();
            let tu = remap_row(self.remap, Projection::Up, layer);
            let td = remap_row(self.remap, Projection::Down, layer);
            assert(st3.pending.drop_last() =~= st2.pending);
            assert(st3.pending.last() == indices@);
            assert(busiest_sum(st3.pending, Projection::Up, cfg, tu) == busiest_sum(st2.pending, Projection::Up, cfg, tu)
                + um);
            assert(busiest_sum(st3.pending, Projection::Down, cfg, td) == busiest_sum(
                st2.pending,
                Projection::Down,
                cfg,
                td,
            ) + dm);
            let pu2 = pend_busiest(st2, cfg, self.remap, Projection::Up);
            let pd2 = pend_busiest(st2, cfg, self.remap, Projection::Down);
            let e2 = even_split_sum(st2.pending, cfg.banks as int);
            if st2.pending.len() == 0 {
                assert(busiest_sum(st2.pending, Projection::Up, cfg, tu) == 0);
                assert(busiest_sum(st2.pending, Projection::Down, cfg, td) == 0);
            }
            assert(pend_busiest(st3, cfg, self.remap, Projection::Up) == pu2 + um);
            assert(pend_busiest(st3, cfg, self.remap, Projection::Down) == pd2 + dm);
            assert(even_split_sum(st3.pending, cfg.banks as int) == e2 + ii);
            assert(rr * (pu2 + um) == rr * pu2 + um * rr) by (nonlinear_arith);
            assert(rr * (pd2 + dm) == rr * pd2 + dm * rr) by (nonlinear_arith);
            assert(rr * (e2 + ii) == rr * e2 + ii * rr) by (nonlinear_arith);
            assert(batch_within_async(st3, cfg, self.remap));
            assert(overheads_exact(self.acc));
        }
        if self.pending.len() >= self.batch_group {
            self.flush_batch();
        }
        proof {
            assert(self.state() == step_state(
                st0,
                cfg,
                self.remap,
                self.batch_group as int,
                layer,
                total as int,
                indices@,
            ));
        }
    }

    /// Flush any remaining partial batch and unpaired interleaved record.
    pub fn finish(&mut self)
        requires
            old(self).wf(),
        ensures
            final(self).wf(),
            final(self).config_spec() == old(self).config_spec(),
            final(self).remap_spec() == old(self).remap_spec(),
            final(self).batch_group_spec() == old(self).batch_group_spec(),
            final(self).state() == finish_state(
                old(self).state(),
                old(self).config_spec(),
                old(self).remap_spec(),
            ),
    {
        let ghost st0 = self.state();
        self.flush_batch();
        let ghost st1 = self.state();
        proof {
            lemma_plus_in_range();
        }
        let cfg = self.config;
        match &self.last_round_index_down {
            Some(last) => {
                let q: u64 = cfg.activation_size / cfg.banks;
                let mut keys: Vec<u64> = Vec::new();
                assert(st1.last == Some(last@));
                push_row_keys(&mut keys, last.as_slice(), &cfg);
                assert(keys@ =~= row_keys(last@, cfg));
                let c = count_distinct(&keys);
                proof {
                    lemma_dedup(keys@);
                    lemma_k_factor(cfg);
                    lemma_scaled_le(c as int, last@.len() as int, q as int, q as int);
                    assert(q * last@.len() == last@.len() * q) by (nonlinear_arith);
                }
                self.acc.down_total_interproduct_time_two = self.acc.down_total_interproduct_time_two
                    + (c as u64) * q;
            },
            None => {},
        }
        self.last_round_index_down = None;
        proof {
            let q = tensors_per_bank(cfg);
            assert(q * 0 == 0);
            assert(self.state() == finish_state(st0, cfg, self.remap));
        }
    }

    /// Flush what is pending and return the accumulated totals.
    pub fn into_result(self) -> (r: PimResult)
        requires
            self.wf(),
        ensures
            r == finish_state(self.state(), self.config_spec(), self.remap_spec()).acc,
            overheads_exact(r),
            r.up_total_asnc_time_bal <= r.up_total_asnc_time,
            r.down_total_async_time_bal <= r.down_total_async_time,
            r.up_total_batch_time <= r.up_total_asnc_time,
            r.down_total_batch_time <= r.down_total_async_time,
            r.up_total_batch_time_bal <= r.up_total_asnc_time_bal,
            r.down_total_batch_time_bal <= r.down_total_async_time_bal,
    {
        let mut s = self;
        s.finish();
        proof {
            let ri = rows_per_neuron(s.config);
            assert(ri * 0 == 0);
            assert(even_split_sum(s.state().pending, s.config.banks as int) == 0);
        }
        s.acc
    }

    /// Every state a context reaches (each public operation keeps
    /// [`PimContext::wf`]) has exact imbalance overheads (each total is its
    /// balanced total plus its overhead), and batched totals that, with what
    /// the pending records would cost one by one, stay within the per-record
    /// totals.
    pub proof fn law_context_balanced(&self)
        requires
            self.wf(),
        ensures
            overheads_exact(self.state().acc),
            batch_within_async(self.state(), self.config_spec(), self.remap_spec()),
    {
    }
}

/// The state after feeding `records` in order (each record's active
/// indices are its scores above `threshold`), before the end of the stream.
pub open spec fn sim_fold(
    records: Seq<Record>,
    threshold: u32,
    cfg: PimConfig,
    remap: Option<RemapTable>,
    batch_group: int,
) -> SimState
    decreases records.len(),
{
    if records.len() == 0 {
        SimState {
            acc: empty_result(batch_group as u64),
            pending: Seq::empty(),
            pending_layer: None,
            last: None,
        }
    } else {
        let r = records.last();
        step_state(
            sim_fold(records.drop_last(), threshold, cfg, remap, batch_group),
            cfg,
            remap,
            batch_group,
            r.layer,
            r.scores@.len() as int,
            active_positions(r.scores@, threshold),
        )
    }
}

/// Records, neurons and active neurons of a record sequence.
pub open spec fn stream_mass(records: Seq<Record>, threshold: u32) -> int {
    (records.len() + neurons_in(records, None) + activated_in(records, None, threshold)) as int
}

pub proof fn lemma_stream_mass_prefix(records: Seq<Record>, threshold: u32, k: int)
    requires
        0 <= k <= records.len(),
    ensures
        stream_mass(records.take(k), threshold) <= stream_mass(records, threshold),
    decreases records.len() - k,
{
    if k < records.len() {
        lemma_stream_mass_prefix(records, threshold, k + 1);
        assert(records.take(k + 1).drop_last() =~= records.take(k));
    } else {
        assert(records.take(k) =~= records);
    }
}

/// Run the PIM simulation over `records`, one record per batched round.
pub fn run_simulation(
    records: &Vec<Record>,
    threshold: u32,
    config: PimConfig,
    remap: Option<RemapTable>,
) -> (r: PimResult)
    requires
        cfg_wf(config),
        remap matches Some(t) ==> remap_fits(t, config.banks as int),
        k_factor(config) * stream_mass(records@, threshold) <= u64::MAX,
    ensures
        r == finish_state(sim_fold(records@, threshold, config, remap, 1), config, remap).acc,
{
    run_simulation_batched(records, threshold, config, remap, 1)
}

/// Run the PIM simulation over `records`, additionally unioning
/// `batch_group` consecutive same-layer records into one dispatched round
/// for the batched metrics.
pub fn run_simulation_batched(
    records: &Vec<Record>,
    threshold: u32,
    config: PimConfig,
    remap: Option<RemapTable>,
    batch_group: usize,
) -> (r: PimResult)
    requires
        cfg_wf(config),
        remap matches Some(t) ==> remap_fits(t, config.banks as int),
        batch_group >= 1,
        k_factor(config) * stream_mass(records@, threshold) <= u64::MAX,
    ensures
        r == finish_state(
            sim_fold(records@, threshold, config, remap, batch_group as int),
            config,
            remap,
        ).acc,
{
    let ghost rm = remap;
    let mut ctx = PimContext::with_batch_group(config, remap, batch_group);
    let mut k: usize = 0;
    proof {
        assert(records@.take(0) =~= Seq::<Record>::empty());
    }
    while k < records.len()
        invariant
            k <= records@.len(),
            ctx.wf(),
            ctx.config_spec() == config,
            ctx.remap_spec() == rm,
            ctx.batch_group_spec() == batch_group,
            cfg_wf(config),
            rm matches Some(t) ==> remap_fits(t, config.banks as int),
            ctx.state() == sim_fold(records@.take(k as int), threshold, config, rm, batch_group as int),
            mass(ctx.state().acc) == stream_mass(records@.take(k as int), threshold),
            k_factor(config) * stream_mass(records@, threshold) <= u64::MAX,
        decreases records@.len() - k,
    {
        let record = &records[k];
        let n_scores = record.scores.len();
        let indices = record.active_indices(threshold);
        let ghost pre = records@.take(k as int);
        let ghost post = records@.take(k + 1);
        proof {
            assert(post.drop_last() =~= pre);
            lemma_active_positions(record.scores@, threshold);
            lemma_stream_mass_prefix(records@, threshold, k + 1);
            assert(stream_mass(post, threshold) == stream_mass(pre, threshold) + 1
                + record.scores@.len() + indices@.len());
            lemma_k_factor(config);
            lemma_scaled_le(
                stream_mass(post, threshold),
                stream_mass(records@, threshold),
                k_factor(config),
                k_factor(config),
            );
            assert(stream_mass(post, threshold) * k_factor(config) == k_factor(config)
                * stream_mass(post, threshold)) by (nonlinear_arith);
            assert(k_factor(config) * stream_mass(records@, threshold) == stream_mass(
                records@,
                threshold,
            ) * k_factor(config)) by (nonlinear_arith);
        }
        proof {
            let kk = k_factor(config);
            let sp = stream_mass(post, threshold);
            assert(kk * sp <= u64::MAX);
            assert(mass(ctx.state().acc) + 1 + n_scores + indices@.len() == sp);
            assert(ctx.config_spec() == config);
            assert(ctx.can_absorb(n_scores as int, indices@.len() as int));
        }
        ctx.compute_time(record.layer, n_scores, indices.as_slice());
        k = k + 1;
    }
    proof {
        assert(records@.take(k as int) =~= records@);
    }
    ctx.into_result()
}

// ── Laws ─────────────────────────────────────────────────────────

/// A sequence without repeated elements is its own deduplication.
pub proof fn lemma_dedup_distinct<A>(s: Seq<A>)
    requires
        s.no_duplicates(),
    ensures
        dedup(s) == s,
    decreases s.len(),
{
    if s.len() > 0 {
        let p = s.drop_last();
        assert(p.no_duplicates());
        lemma_dedup_distinct(p);
        if p.contains(s.last()) {
            let j = choose|j: int| 0 <= j < p.len() && p[j] == s.last();
            assert(s[j] == s[s.len() - 1]);
        }
        assert(p.push(s.last()) =~= s);
    }
}

/// With one record per round, feeding a record whose active indices are
/// distinct keeps the batched-round metrics equal to the per-record ones and
/// leaves nothing pending, whatever the record: this holds of every state a
/// [`PimContext`] built with [`PimContext::new`] reaches through
/// [`PimContext::compute_time`], and of the end of the stream.
pub proof fn law_single_batch_step_is_async(
    st: SimState,
    cfg: PimConfig,
    remap: Option<RemapTable>,
    layer: i32,
    total: int,
    s: Seq<usize>,
)
    requires
        st.pending.len() == 0,
        same_batch_as_async(st.acc),
        s.no_duplicates(),
    ensures
        step_state(st, cfg, remap, 1, layer, total, s).pending.len() == 0,
        same_batch_as_async(step_state(st, cfg, remap, 1, layer, total, s).acc),
        same_batch_as_async(finish_state(st, cfg, remap).acc),
{
    lemma_dedup_distinct(s);
    let one = Seq::<Seq<usize>>::empty().push(s);
    assert(concat_all(one) =~= s) by {
        assert(one.drop_last() =~= Seq::<Seq<usize>>::empty());
        assert(concat_all(Seq::<Seq<usize>>::empty()) =~= Seq::<usize>::empty());
        assert(Seq::<usize>::empty() + s =~= s);
    }
    assert(st.pending =~= Seq::<Seq<usize>>::empty());
}

proof fn lemma_single_batch_step(records: Seq<Record>, threshold: u32, cfg: PimConfig, remap: Option<RemapTable>)
    requires
        forall|k: int| 0 <= k < records.len() ==> (#[trigger] records[k]).scores@.len() <= usize::MAX,
    ensures
        sim_fold(records, threshold, cfg, remap, 1).pending.len() == 0,
        same_batch_as_async(sim_fold(records, threshold, cfg, remap, 1).acc),
    decreases records.len(),
{
    if records.len() > 0 {
        assert forall|k: int| 0 <= k < records.len() - 1 implies (#[trigger] records.drop_last()[k]).scores@.len()
            <= usize::MAX by {
            assert(records.drop_last()[k] == records[k]);
        }
        lemma_single_batch_step(records.drop_last(), threshold, cfg, remap);
        let r = records.last();
        assert(r == records[records.len() - 1]);
        let s = active_positions(r.scores@, threshold);
        lemma_active_positions(r.scores@, threshold);
        assert(s.no_duplicates()) by {
            assert forall|i: int, j: int| 0 <= i < s.len() && 0 <= j < s.len() && i != j implies s[i]
                != s[j] by {
                if i < j {
                    assert(s[i] < s[j]);
                } else {
                    assert(s[j] < s[i]);
                }
            }
        }
        law_single_batch_step_is_async(
            sim_fold(records.drop_last(), threshold, cfg, remap, 1),
            cfg,
            remap,
            r.layer,
            r.scores@.len() as int,
            s,
        );
    }
}

/// The six batched-round metrics equal their per-record counterparts.
pub open spec fn same_batch_as_async(r: PimResult) -> bool {
    &&& r.up_total_batch_time == r.up_total_asnc_time
    &&& r.up_total_batch_time_bal == r.up_total_asnc_time_bal
    &&& r.up_batch_imbalance_overhead == r.up_async_imbalance_overhead
    &&& r.down_total_batch_time == r.down_total_async_time
    &&& r.down_total_batch_time_bal == r.down_total_async_time_bal
    &&& r.down_batch_imbalance_overhead == r.down_async_imbalance_overhead
}

/// With one record per batch, the batched-round metrics degenerate to the
/// plain per-record async metrics (a record's active neurons are distinct,
/// so the union of a one-record batch is the record itself).
pub proof fn law_single_batch_is_async(
    records: Seq<Record>,
    threshold: u32,
    cfg: PimConfig,
    remap: Option<RemapTable>,
)
    requires
        forall|k: int| 0 <= k < records.len() ==> (#[trigger] records[k]).scores@.len() <= usize::MAX,
    ensures
        same_batch_as_async(finish_state(sim_fold(records, threshold, cfg, remap, 1), cfg, remap).acc),
{
    lemma_single_batch_step(records, threshold, cfg, remap);
}

/// Sum of a sequence of counts.
pub open spec fn count_sum(c: Seq<nat>) -> int
    decreases c.len(),
{
    if c.len() == 0 {
        0
    } else {
        count_sum(c.drop_last()) + c.last()
    }
}

/// The largest count times the number of counts bounds their sum.
pub proof fn lemma_sum_le_max_times_len(c: Seq<nat>)
    ensures
        0 <= count_sum(c) <= seq_max(c) * c.len(),
    decreases c.len(),
{
    if c.len() > 0 {
        let p = c.drop_last();
        lemma_sum_le_max_times_len(p);
        assert(seq_max(p) <= seq_max(c));
        assert(seq_max(p) * p.len() <= seq_max(c) * p.len()) by (nonlinear_arith)
            requires
                seq_max(p) <= seq_max(c),
        ;
        assert(c.last() <= seq_max(c));
        assert(seq_max(c) * p.len() + seq_max(c) == seq_max(c) * c.len()) by (nonlinear_arith)
            requires
                c.len() == p.len() + 1,
        ;
    }
}

/// Some count is at least the even share of the sum.
pub proof fn lemma_even_share_le_max(c: Seq<nat>)
    requires
        c.len() >= 1,
    ensures
        ceil_div(count_sum(c), c.len() as int) <= seq_max(c),
{
    lemma_sum_le_max_times_len(c);
    let n = c.len() as int;
    let m = count_sum(c);
    let x = seq_max(c) as int;
    assert(ceil_div(m, n) <= x) by (nonlinear_arith)
        requires
            n >= 1,
            0 <= m <= x * n,
            ceil_div(m, n) == m / n + if m % n != 0 {
                1int
            } else {
                0int
            },
    {
        assert(m == n * (m / n) + m % n);
        if m % n != 0 {
            assert(m / n < x);
        }
    }
}

/// Adding one to the count at `beta` adds one to the sum.
pub proof fn lemma_count_sum_bump(a: Seq<nat>, b: Seq<nat>, beta: int)
    requires
        a.len() == b.len(),
        0 <= beta < a.len(),
        forall|i: int| 0 <= i < a.len() ==> #[trigger] b[i] == a[i] + if i == beta {
            1nat
        } else {
            0nat
        },
    ensures
        count_sum(b) == count_sum(a) + 1,
    decreases a.len(),
{
    if beta < a.len() - 1 {
        lemma_count_sum_bump(a.drop_last(), b.drop_last(), beta);
    } else {
        assert(a.drop_last() =~= b.drop_last());
    }
}

proof fn lemma_bank_in_range(proj: Projection, cfg: PimConfig, table: Option<Seq<usize>>, i: usize)
    requires
        cfg_wf(cfg),
        row_fits(table, cfg.banks as int),
    ensures
        0 <= bank_of(proj, cfg, table, i) < cfg.banks,
{
    if let Some(t) = table {
        if (i as int) < t.len() {
            assert(table->0[i as int] < cfg.banks);
            return;
        }
    }
    let bpc = cfg.banks_per_channel as int;
    let ch = cfg.channels as int;
    let c = (i as int / bpc) % ch;
    assert(c * bpc + i as int % bpc < cfg.banks) by (nonlinear_arith)
        requires
            0 <= c < ch,
            0 <= i as int % bpc < bpc,
            ch * bpc <= cfg.banks,
            bpc > 0,
    {
        assert(c * bpc <= (ch - 1) * bpc);
    }
    assert(0 <= c * bpc) by (nonlinear_arith)
        requires
            0 <= c,
            bpc > 0,
    ;
}

proof fn lemma_bank_counts_sum(s: Seq<usize>, proj: Projection, cfg: PimConfig, table: Option<Seq<usize>>)
    requires
        cfg_wf(cfg),
        row_fits(table, cfg.banks as int),
    ensures
        count_sum(Seq::new(cfg.banks as nat, |b: int| bank_count(s, proj, cfg, table, b))) == s.len(),
    decreases s.len(),
{
    let n = cfg.banks as nat;
    if s.len() == 0 {
        let z = Seq::new(n, |b: int| bank_count(s, proj, cfg, table, b));
        assert forall|k: nat| k <= n implies #[trigger] count_sum(z.take(k as int)) == 0 by {
            lemma_zero_prefix_sum(z, k);
        }
        assert(z.take(n as int) =~= z);
    } else {
        let p = s.drop_last();
        lemma_bank_counts_sum(p, proj, cfg, table);
        lemma_bank_in_range(proj, cfg, table, s.last());
        lemma_count_sum_bump(
            Seq::new(n, |b: int| bank_count(p, proj, cfg, table, b)),
            Seq::new(n, |b: int| bank_count(s, proj, cfg, table, b)),
            bank_of(proj, cfg, table, s.last()),
        );
    }
}

proof fn lemma_zero_prefix_sum(z: Seq<nat>, k: nat)
    requires
        k <= z.len(),
        forall|i: int| 0 <= i < z.len() ==> #[trigger] z[i] == 0,
    ensures
        count_sum(z.take(k as int)) == 0,
    decreases k,
{
    if k > 0 {
        lemma_zero_prefix_sum(z, (k - 1) as nat);
        assert(z.take(k as int).drop_last() =~= z.take(k - 1));
    }
}

/// The even split of a round's active neurons over all banks is a lower
/// bound on its busiest bank, whatever the placement: no static mapping can
/// beat the ideal.
pub proof fn law_even_split_is_lower_bound(
    s: Seq<usize>,
    proj: Projection,
    cfg: PimConfig,
    table: Option<Seq<usize>>,
)
    requires
        cfg_wf(cfg),
        row_fits(table, cfg.banks as int),
    ensures
        ceil_div(s.len() as int, cfg.banks as int) <= busiest_bank(s, proj, cfg, table),
{
    lemma_bank_counts_sum(s, proj, cfg, table);
    lemma_even_share_le_max(Seq::new(cfg.banks as nat, |b: int| bank_count(s, proj, cfg, table, b)));
}


// ── Merging partial runs ─────────────────────────────────────────

/// The state of a fresh simulation.
pub open spec fn start_state(batch_group: int) -> SimState {
    SimState { acc: empty_result(batch_group as u64), pending: Seq::empty(), pending_layer: None, last: None }
}

/// The state after feeding `records` in order to a simulation in state `st`.
pub open spec fn fold_from(
    st: SimState,
    records: Seq<Record>,
    threshold: u32,
    cfg: PimConfig,
    remap: Option<RemapTable>,
    batch_group: int,
) -> SimState
    decreases records.len(),
{
    if records.len() == 0 {
        st
    } else {
        let r = records.last();
        step_state(
            fold_from(st, records.drop_last(), threshold, cfg, remap, batch_group),
            cfg,
            remap,
            batch_group,
            r.layer,
            r.scores@.len() as int,
            active_positions(r.scores@, threshold),
        )
    }
}

/// Feeding `a ++ b` is feeding `b` to the state that `a` left.
pub proof fn lemma_fold_concat(
    a: Seq<Record>,
    b: Seq<Record>,
    threshold: u32,
    cfg: PimConfig,
    remap: Option<RemapTable>,
    batch_group: int,
)
    ensures
        sim_fold(a + b, threshold, cfg, remap, batch_group) == fold_from(
            sim_fold(a, threshold, cfg, remap, batch_group),
            b,
            threshold,
            cfg,
            remap,
            batch_group,
        ),
    decreases b.len(),
{
    if b.len() == 0 {
        assert(a + b =~= a);
    } else {
        lemma_fold_concat(a, b.drop_last(), threshold, cfg, remap, batch_group);
        assert((a + b).drop_last() =~= a + b.drop_last());
        assert((a + b).last() == b.last());
    }
}

/// Counter addition modulo 2^64 is associative.
proof fn lemma_plus_assoc()
    ensures
        forall|x: u64, y: u64, d: int| #[trigger] plus(plus(x, y as int), d) == plus(x, plus(y, d) as int),
{
    reveal(plus);
    assert forall|x: u64, y: u64, d: int| #[trigger] plus(plus(x, y as int), d) == plus(x, plus(y, d) as int) by {
        let m: int = 0x1_0000_0000_0000_0000;
        vstd::arithmetic::div_mod::lemma_add_mod_noop_right(d, x + y, m);
        vstd::arithmetic::div_mod::lemma_add_mod_noop_right(x as int, y + d, m);
        assert(d + (x + y) == x + (y + d));
    }
}

/// `x` is `y` run on top of the totals `o`: its totals are `o` plus those of
/// `y`, and both hold the same pending batch and the same unpaired record.
pub open spec fn offset_by(x: SimState, y: SimState, o: PimResult) -> bool {
    &&& x.acc == merged_result(o, y.acc)
    &&& x.pending == y.pending
    &&& x.last == y.last
    &&& (x.pending_layer == y.pending_layer || (y.pending_layer is None && y.pending.len() == 0))
}

proof fn lemma_flush_offset(x: SimState, y: SimState, o: PimResult, cfg: PimConfig, remap: Option<RemapTable>)
    requires
        offset_by(x, y, o),
    ensures
        offset_by(flush_state(x, cfg, remap), flush_state(y, cfg, remap), o),
{
    lemma_plus_assoc();
    if x.pending.len() > 0 {
        let l = y.pending_layer.unwrap();
        assert(batch_flush(merged_result(o, y.acc), cfg, remap, l, y.pending) == merged_result(
            o,
            batch_flush(y.acc, cfg, remap, l, y.pending),
        ));
    }
}

proof fn lemma_step_offset(
    x: SimState,
    y: SimState,
    o: PimResult,
    cfg: PimConfig,
    remap: Option<RemapTable>,
    batch_group: int,
    layer: i32,
    total: int,
    s: Seq<usize>,
)
    requires
        offset_by(x, y, o),
    ensures
        offset_by(
            step_state(x, cfg, remap, batch_group, layer, total, s),
            step_state(y, cfg, remap, batch_group, layer, total, s),
            o,
        ),
{
    lemma_plus_assoc();
    assert(record_step(merged_result(o, y.acc), cfg, remap, layer, total, s, y.last) == merged_result(
        o,
        record_step(y.acc, cfg, remap, layer, total, s, y.last),
    ));
    let x1 = SimState {
        acc: record_step(x.acc, cfg, remap, layer, total, s, x.last),
        last: if x.last is Some {
            None
        } else {
            Some(s)
        },
        ..x
    };
    let y1 = SimState {
        acc: record_step(y.acc, cfg, remap, layer, total, s, y.last),
        last: if y.last is Some {
            None
        } else {
            Some(s)
        },
        ..y
    };
    assert(offset_by(x1, y1, o));
    lemma_flush_offset(x1, y1, o, cfg, remap);
    let x2 = if x.pending_layer != Some(layer) {
        SimState { pending_layer: Some(layer), ..flush_state(x1, cfg, remap) }
    } else {
        x1
    };
    let y2 = if y.pending_layer != Some(layer) {
        SimState { pending_layer: Some(layer), ..flush_state(y1, cfg, remap) }
    } else {
        y1
    };
    assert(offset_by(x2, y2, o));
    assert(x2.pending_layer == y2.pending_layer);
    let x3 = SimState { pending: x2.pending.push(s), ..x2 };
    let y3 = SimState { pending: y2.pending.push(s), ..y2 };
    assert(offset_by(x3, y3, o));
    lemma_flush_offset(x3, y3, o, cfg, remap);
}

proof fn lemma_fold_offset(
    x: SimState,
    y: SimState,
    o: PimResult,
    records: Seq<Record>,
    threshold: u32,
    cfg: PimConfig,
    remap: Option<RemapTable>,
    batch_group: int,
)
    requires
        offset_by(x, y, o),
    ensures
        offset_by(
            fold_from(x, records, threshold, cfg, remap, batch_group),
            fold_from(y, records, threshold, cfg, remap, batch_group),
            o,
        ),
    decreases records.len(),
{
    if records.len() > 0 {
        lemma_fold_offset(x, y, o, records.drop_last(), threshold, cfg, remap, batch_group);
        let r = records.last();
        lemma_step_offset(
            fold_from(x, records.drop_last(), threshold, cfg, remap, batch_group),
            fold_from(y, records.drop_last(), threshold, cfg, remap, batch_group),
            o,
            cfg,
            remap,
            batch_group,
            r.layer,
            r.scores@.len() as int,
            active_positions(r.scores@, threshold),
        );
    }
}

proof fn lemma_finish_offset(x: SimState, y: SimState, o: PimResult, cfg: PimConfig, remap: Option<RemapTable>)
    requires
        offset_by(x, y, o),
    ensures
        finish_state(x, cfg, remap).acc == merged_result(o, finish_state(y, cfg, remap).acc),
{
    lemma_plus_assoc();
    lemma_flush_offset(x, y, o, cfg, remap);
}

/// A record of another layer dispatches the pending batch first, so a
/// stream that starts on another layer sees the same state whether or not
/// the batch was dispatched before it.
proof fn lemma_fold_after_flush(
    st: SimState,
    records: Seq<Record>,
    threshold: u32,
    cfg: PimConfig,
    remap: Option<RemapTable>,
    batch_group: int,
)
    requires
        records.len() > 0,
        st.pending.len() == 0 || st.pending_layer != Some(records[0].layer),
    ensures
        fold_from(st, records, threshold, cfg, remap, batch_group) == fold_from(
            flush_state(st, cfg, remap),
            records,
            threshold,
            cfg,
            remap,
            batch_group,
        ),
    decreases records.len(),
{
    if records.len() > 1 {
        assert(records.drop_last()[0] == records[0]);
        lemma_fold_after_flush(st, records.drop_last(), threshold, cfg, remap, batch_group);
    } else if st.pending.len() > 0 {
        let r = records.last();
        assert(r == records[0]);
        let s = active_positions(r.scores@, threshold);
        let l = st.pending_layer.unwrap();
        let a1 = record_step(st.acc, cfg, remap, r.layer, r.scores@.len() as int, s, st.last);
        let f = flush_state(st, cfg, remap);
        assert(record_step(f.acc, cfg, remap, r.layer, r.scores@.len() as int, s, st.last)
            == batch_flush(a1, cfg, remap, l, st.pending));
        assert(fold_from(st, records.drop_last(), threshold, cfg, remap, batch_group) == st);
        assert(fold_from(f, records.drop_last(), threshold, cfg, remap, batch_group) == f);
    }
}

/// After an even number of records every record has found its partner.
proof fn lemma_fold_pairs(
    records: Seq<Record>,
    threshold: u32,
    cfg: PimConfig,
    remap: Option<RemapTable>,
    batch_group: int,
)
    ensures
        (sim_fold(records, threshold, cfg, remap, batch_group).last is None) <==> records.len() % 2
            == 0,
    decreases records.len(),
{
    if records.len() > 0 {
        lemma_fold_pairs(records.drop_last(), threshold, cfg, remap, batch_group);
    }
}

/// Merging the results of two record streams gives what one serial pass
/// over the first stream followed by the second counts, provided the first
/// stream leaves no record waiting for a partner (it holds an even number of
/// records, or nothing follows it) and no batch that the second stream
/// would have continued (nothing pending, or the second stream opens on
/// another layer). Otherwise the boundary splits a pair or a batch, and the
/// inner-product or batched totals differ.
#[verifier::spinoff_prover]
pub proof fn law_merge_is_serial_pass(
    a: Seq<Record>,
    b: Seq<Record>,
    threshold: u32,
    cfg: PimConfig,
    remap: Option<RemapTable>,
    batch_group: int,
)
    requires
        a.len() % 2 == 0 || b.len() == 0,
        b.len() == 0 || sim_fold(a, threshold, cfg, remap, batch_group).pending.len() == 0
            || sim_fold(a, threshold, cfg, remap, batch_group).pending_layer != Some(b[0].layer),
    ensures
        finish_state(sim_fold(a + b, threshold, cfg, remap, batch_group), cfg, remap).acc
            == merged_result(
            finish_state(sim_fold(a, threshold, cfg, remap, batch_group), cfg, remap).acc,
            finish_state(sim_fold(b, threshold, cfg, remap, batch_group), cfg, remap).acc,
        ),
{
    lemma_plus_in_range();
    let sa = sim_fold(a, threshold, cfg, remap, batch_group);
    let fresh = start_state(batch_group);
    lemma_fold_concat(a, b, threshold, cfg, remap, batch_group);
    lemma_fold_concat(Seq::empty(), b, threshold, cfg, remap, batch_group);
    assert(Seq::<Record>::empty() + b =~= b);
    assert(sim_fold(Seq::empty(), threshold, cfg, remap, batch_group) == fresh);
    if b.len() == 0 {
        let fa = finish_state(sa, cfg, remap).acc;
        assert(fold_from(fresh, b, threshold, cfg, remap, batch_group) == fresh);
        assert(finish_state(fresh, cfg, remap).acc == empty_result(batch_group as u64));
        assert(merged_result(fa, empty_result(batch_group as u64)) == fa);
    } else {
        lemma_fold_pairs(a, threshold, cfg, remap, batch_group);
        let fl = flush_state(sa, cfg, remap);
        let o = fl.acc;
        lemma_fold_after_flush(sa, b, threshold, cfg, remap, batch_group);
        assert(merged_result(o, empty_result(batch_group as u64)) == o);
        assert(offset_by(fl, fresh, o));
        lemma_fold_offset(fl, fresh, o, b, threshold, cfg, remap, batch_group);
        lemma_finish_offset(
            fold_from(fl, b, threshold, cfg, remap, batch_group),
            fold_from(fresh, b, threshold, cfg, remap, batch_group),
            o,
            cfg,
            remap,
        );
        assert(finish_state(sa, cfg, remap).acc == o);
    }
}

/// The totals that each record adds on its own, whatever came before it:
/// every count but the two-record inner product (which pairs a record with
/// its neighbour) and the batched rounds.
pub open spec fn per_record_totals(r: PimResult) -> PimResult {
    PimResult {
        down_total_interproduct_time_two: 0,
        batch_group: 0,
        up_total_batch_time: 0,
        up_total_batch_time_bal: 0,
        up_batch_imbalance_overhead: 0,
        down_total_batch_time: 0,
        down_total_batch_time_bal: 0,
        down_batch_imbalance_overhead: 0,
        ..r
    }
}

proof fn lemma_per_record_step(
    x: PimResult,
    y: PimResult,
    o: PimResult,
    cfg: PimConfig,
    remap: Option<RemapTable>,
    layer: i32,
    total: int,
    s: Seq<usize>,
    lx: Option<Seq<usize>>,
    ly: Option<Seq<usize>>,
)
    requires
        per_record_totals(x) == per_record_totals(merged_result(o, y)),
    ensures
        per_record_totals(record_step(x, cfg, remap, layer, total, s, lx)) == per_record_totals(
            merged_result(o, record_step(y, cfg, remap, layer, total, s, ly)),
        ),
{
    lemma_plus_assoc();
    assert(x.total_records == plus(o.total_records, y.total_records as int));
    assert(x.total_neurons == plus(o.total_neurons, y.total_neurons as int));
    assert(x.total_selected_neurons == plus(o.total_selected_neurons, y.total_selected_neurons as int));
    assert(x.up_dense == plus(o.up_dense, y.up_dense as int));
    assert(x.down_dense == plus(o.down_dense, y.down_dense as int));
    assert(x.up_total_naive_time == plus(o.up_total_naive_time, y.up_total_naive_time as int));
    assert(x.up_total_asnc_time == plus(o.up_total_asnc_time, y.up_total_asnc_time as int));
    assert(x.down_total_async_time == plus(o.down_total_async_time, y.down_total_async_time as int));
    assert(x.down_total_interproduct_time_single == plus(
        o.down_total_interproduct_time_single,
        y.down_total_interproduct_time_single as int,
    ));
    assert(x.up_total_asnc_time_bal == plus(o.up_total_asnc_time_bal, y.up_total_asnc_time_bal as int));
    assert(x.down_total_async_time_bal == plus(
        o.down_total_async_time_bal,
        y.down_total_async_time_bal as int,
    ));
    assert(x.up_async_imbalance_overhead == plus(
        o.up_async_imbalance_overhead,
        y.up_async_imbalance_overhead as int,
    ));
    assert(x.down_async_imbalance_overhead == plus(
        o.down_async_imbalance_overhead,
        y.down_async_imbalance_overhead as int,
    ));
}

proof fn lemma_per_record_fold(
    x: SimState,
    y: SimState,
    o: PimResult,
    records: Seq<Record>,
    threshold: u32,
    cfg: PimConfig,
    remap: Option<RemapTable>,
    batch_group: int,
)
    requires
        per_record_totals(x.acc) == per_record_totals(merged_result(o, y.acc)),
    ensures
        per_record_totals(fold_from(x, records, threshold, cfg, remap, batch_group).acc)
            == per_record_totals(
            merged_result(o, fold_from(y, records, threshold, cfg, remap, batch_group).acc),
        ),
    decreases records.len(),
{
    if records.len() > 0 {
        let r = records.last();
        let px = fold_from(x, records.drop_last(), threshold, cfg, remap, batch_group);
        let py = fold_from(y, records.drop_last(), threshold, cfg, remap, batch_group);
        lemma_per_record_fold(x, y, o, records.drop_last(), threshold, cfg, remap, batch_group);
        lemma_per_record_step(
            px.acc,
            py.acc,
            o,
            cfg,
            remap,
            r.layer,
            r.scores@.len() as int,
            active_positions(r.scores@, threshold),
            px.last,
            py.last,
        );
    }
}

/// Merging the results of two record streams gives, for every per-record
/// total, what one serial pass over the first stream followed by the
/// second counts, wherever the boundary falls.
pub proof fn law_merge_per_record_totals(
    a: Seq<Record>,
    b: Seq<Record>,
    threshold: u32,
    cfg: PimConfig,
    remap: Option<RemapTable>,
    batch_group: int,
)
    ensures
        per_record_totals(finish_state(sim_fold(a + b, threshold, cfg, remap, batch_group), cfg, remap).acc)
            == per_record_totals(
            merged_result(
                finish_state(sim_fold(a, threshold, cfg, remap, batch_group), cfg, remap).acc,
                finish_state(sim_fold(b, threshold, cfg, remap, batch_group), cfg, remap).acc,
            ),
        ),
{
    lemma_plus_in_range();
    let sa = sim_fold(a, threshold, cfg, remap, batch_group);
    let fresh = start_state(batch_group);
    let o = finish_state(sa, cfg, remap).acc;
    lemma_fold_concat(a, b, threshold, cfg, remap, batch_group);
    lemma_fold_concat(Seq::empty(), b, threshold, cfg, remap, batch_group);
    assert(Seq::<Record>::empty() + b =~= b);
    assert(sim_fold(Seq::empty(), threshold, cfg, remap, batch_group) == fresh);
    assert(per_record_totals(sa.acc) == per_record_totals(o));
    assert(merged_result(o, empty_result(batch_group as u64)).total_records == o.total_records);
    assert(per_record_totals(sa.acc) == per_record_totals(merged_result(o, fresh.acc)));
    lemma_per_record_fold(sa, fresh, o, b, threshold, cfg, remap, batch_group);
}

/// A result with the two-record inner product left out.
pub open spec fn except_pairing(r: PimResult) -> PimResult {
    PimResult { down_total_interproduct_time_two: 0, ..r }
}

proof fn lemma_fold_batch_group(
    records: Seq<Record>,
    threshold: u32,
    cfg: PimConfig,
    remap: Option<RemapTable>,
    batch_group: int,
)
    ensures
        sim_fold(records, threshold, cfg, remap, batch_group).acc.batch_group == batch_group as u64,
        finish_state(sim_fold(records, threshold, cfg, remap, batch_group), cfg, remap).acc.batch_group
            == batch_group as u64,
    decreases records.len(),
{
    if records.len() > 0 {
        lemma_fold_batch_group(records.drop_last(), threshold, cfg, remap, batch_group);
    }
}

/// With one record per round, merging the results of two record streams
/// gives what one serial pass over both counts on every total but the
/// two-record inner product, wherever the boundary falls.
pub proof fn law_merge_one_record_rounds(
    a: Seq<Record>,
    b: Seq<Record>,
    threshold: u32,
    cfg: PimConfig,
    remap: Option<RemapTable>,
)
    requires
        forall|k: int| 0 <= k < a.len() ==> (#[trigger] a[k]).scores@.len() <= usize::MAX,
        forall|k: int| 0 <= k < b.len() ==> (#[trigger] b[k]).scores@.len() <= usize::MAX,
    ensures
        except_pairing(finish_state(sim_fold(a + b, threshold, cfg, remap, 1), cfg, remap).acc)
            == except_pairing(
            merged_result(
                finish_state(sim_fold(a, threshold, cfg, remap, 1), cfg, remap).acc,
                finish_state(sim_fold(b, threshold, cfg, remap, 1), cfg, remap).acc,
            ),
        ),
{
    let ab = a + b;
    assert forall|k: int| 0 <= k < ab.len() implies (#[trigger] ab[k]).scores@.len() <= usize::MAX by {
        if k < a.len() {
            assert(ab[k] == a[k]);
        } else {
            assert(ab[k] == b[k - a.len()]);
        }
    }
    law_merge_per_record_totals(a, b, threshold, cfg, remap, 1);
    law_single_batch_is_async(a, threshold, cfg, remap);
    law_single_batch_is_async(b, threshold, cfg, remap);
    law_single_batch_is_async(ab, threshold, cfg, remap);
    lemma_fold_batch_group(a, threshold, cfg, remap, 1);
    lemma_fold_batch_group(ab, threshold, cfg, remap, 1);
    let s = finish_state(sim_fold(ab, threshold, cfg, remap, 1), cfg, remap).acc;
    let m = merged_result(
        finish_state(sim_fold(a, threshold, cfg, remap, 1), cfg, remap).acc,
        finish_state(sim_fold(b, threshold, cfg, remap, 1), cfg, remap).acc,
    );
    assert(per_record_totals(s) == per_record_totals(m));
    assert(s.up_total_asnc_time == m.up_total_asnc_time);
    assert(s.up_total_asnc_time_bal == m.up_total_asnc_time_bal);
    assert(s.up_async_imbalance_overhead == m.up_async_imbalance_overhead);
    assert(s.down_total_async_time == m.down_total_async_time);
    assert(s.down_total_async_time_bal == m.down_total_async_time_bal);
    assert(s.down_async_imbalance_overhead == m.down_async_imbalance_overhead);
    assert(s.down_total_interproduct_time_single == m.down_total_interproduct_time_single);
}

// ── Imbalance overheads ──────────────────────────────────────────

/// Every imbalance overhead is its total less its balanced total (on the
/// 64-bit counters, which the executable code never lets wrap).
pub open spec fn overheads_consistent(a: PimResult) -> bool {
    &&& plus(a.up_total_asnc_time_bal, a.up_async_imbalance_overhead as int) == a.up_total_asnc_time
    &&& plus(a.down_total_async_time_bal, a.down_async_imbalance_overhead as int)
        == a.down_total_async_time
    &&& plus(a.up_total_batch_time_bal, a.up_batch_imbalance_overhead as int) == a.up_total_batch_time
    &&& plus(a.down_total_batch_time_bal, a.down_batch_imbalance_overhead as int)
        == a.down_total_batch_time
}

/// Adding `u` to a total, `i <= u` to its balanced total and `u - i` to its
/// overhead keeps the overhead the difference.
proof fn lemma_overhead_add(t: u64, b: u64, o: u64, u: int, i: int)
    requires
        plus(b, o as int) == t,
    ensures
        plus(plus(b, i), plus(o, u - i) as int) == plus(t, u),
{
    reveal(plus);
    let m: int = 0x1_0000_0000_0000_0000;
    vstd::arithmetic::div_mod::lemma_add_mod_noop(b + i, o + u - i, m);
    vstd::arithmetic::div_mod::lemma_add_mod_noop_right(u, b + o, m);
    assert(b + i + (o + u - i) == u + (b + o));
}

proof fn lemma_remap_row_fits(remap: Option<RemapTable>, proj: Projection, layer: i32, banks: int)
    requires
        remap matches Some(t) ==> remap_fits(t, banks),
    ensures
        row_fits(remap_row(remap, proj, layer), banks),
{
    if let Some(r) = remap {
        let t = match proj {
            Projection::Up => r.up_remap@,
            Projection::Down => r.down_remap@,
        };
        if t.contains_key(layer) {
            assert forall|k: int| 0 <= k < t[layer]@.len() implies #[trigger] t[layer]@[k] < banks by {}
        }
    }
}

/// The busiest bank of a round, in rows, is at least the round's even
/// split, so the overhead added is the busiest less the even split.
proof fn lemma_round_overhead(s: Seq<usize>, proj: Projection, cfg: PimConfig, remap: Option<RemapTable>, layer: i32)
    requires
        cfg_wf(cfg),
        remap matches Some(t) ==> remap_fits(t, cfg.banks as int),
    ensures
        ({
            let u = busiest_bank(s, proj, cfg, remap_row(remap, proj, layer)) as int;
            let i = ceil_div(s.len() as int, cfg.banks as int);
            let r = rows_per_neuron(cfg);
            overhead(u, i) * r == u * r - i * r
        }),
{
    lemma_remap_row_fits(remap, proj, layer, cfg.banks as int);
    law_even_split_is_lower_bound(s, proj, cfg, remap_row(remap, proj, layer));
    let u = busiest_bank(s, proj, cfg, remap_row(remap, proj, layer)) as int;
    let i = ceil_div(s.len() as int, cfg.banks as int);
    let r = rows_per_neuron(cfg);
    assert((u - i) * r == u * r - i * r) by (nonlinear_arith);
}

proof fn lemma_flush_consistent(st: SimState, cfg: PimConfig, remap: Option<RemapTable>)
    requires
        cfg_wf(cfg),
        remap matches Some(t) ==> remap_fits(t, cfg.banks as int),
        overheads_consistent(st.acc),
    ensures
        overheads_consistent(flush_state(st, cfg, remap).acc),
{
    if st.pending.len() > 0 {
        let layer = st.pending_layer.unwrap();
        let u = dedup(concat_all(st.pending));
        let r = rows_per_neuron(cfg);
        let i = ceil_div(u.len() as int, cfg.banks as int);
        lemma_round_overhead(u, Projection::Up, cfg, remap, layer);
        lemma_round_overhead(u, Projection::Down, cfg, remap, layer);
        let um = busiest_bank(u, Projection::Up, cfg, remap_row(remap, Projection::Up, layer)) as int;
        let dm = busiest_bank(u, Projection::Down, cfg, remap_row(remap, Projection::Down, layer)) as int;
        let a = st.acc;
        lemma_overhead_add(a.up_total_batch_time, a.up_total_batch_time_bal, a.up_batch_imbalance_overhead, um * r, i * r);
        lemma_overhead_add(
            a.down_total_batch_time,
            a.down_total_batch_time_bal,
            a.down_batch_imbalance_overhead,
            dm * r,
            i * r,
        );
    }
}

proof fn lemma_step_consistent(
    st: SimState,
    cfg: PimConfig,
    remap: Option<RemapTable>,
    batch_group: int,
    layer: i32,
    total: int,
    s: Seq<usize>,
)
    requires
        cfg_wf(cfg),
        remap matches Some(t) ==> remap_fits(t, cfg.banks as int),
        overheads_consistent(st.acc),
    ensures
        overheads_consistent(step_state(st, cfg, remap, batch_group, layer, total, s).acc),
{
    let r = rows_per_neuron(cfg);
    let i = ceil_div(s.len() as int, cfg.banks as int);
    lemma_round_overhead(s, Projection::Up, cfg, remap, layer);
    lemma_round_overhead(s, Projection::Down, cfg, remap, layer);
    let um = busiest_bank(s, Projection::Up, cfg, remap_row(remap, Projection::Up, layer)) as int;
    let dm = busiest_bank(s, Projection::Down, cfg, remap_row(remap, Projection::Down, layer)) as int;
    let a = st.acc;
    lemma_overhead_add(a.up_total_asnc_time, a.up_total_asnc_time_bal, a.up_async_imbalance_overhead, um * r, i * r);
    lemma_overhead_add(
        a.down_total_async_time,
        a.down_total_async_time_bal,
        a.down_async_imbalance_overhead,
        dm * r,
        i * r,
    );
    let st1 = SimState {
        acc: record_step(st.acc, cfg, remap, layer, total, s, st.last),
        last: if st.last is Some {
            None
        } else {
            Some(s)
        },
        ..st
    };
    assert(overheads_consistent(st1.acc));
    lemma_flush_consistent(st1, cfg, remap);
    let st2 = if st.pending_layer != Some(layer) {
        SimState { pending_layer: Some(layer), ..flush_state(st1, cfg, remap) }
    } else {
        st1
    };
    let st3 = SimState { pending: st2.pending.push(s), ..st2 };
    lemma_flush_consistent(st3, cfg, remap);
}

proof fn lemma_fold_consistent(
    records: Seq<Record>,
    threshold: u32,
    cfg: PimConfig,
    remap: Option<RemapTable>,
    batch_group: int,
)
    requires
        cfg_wf(cfg),
        remap matches Some(t) ==> remap_fits(t, cfg.banks as int),
    ensures
        overheads_consistent(sim_fold(records, threshold, cfg, remap, batch_group).acc),
    decreases records.len(),
{
    if records.len() == 0 {
        lemma_plus_in_range();
    } else {
        lemma_fold_consistent(records.drop_last(), threshold, cfg, remap, batch_group);
        let r = records.last();
        lemma_step_consistent(
            sim_fold(records.drop_last(), threshold, cfg, remap, batch_group),
            cfg,
            remap,
            batch_group,
            r.layer,
            r.scores@.len() as int,
            active_positions(r.scores@, threshold),
        );
    }
}

/// Every imbalance overhead of a simulation over a record stream is its
/// total less its balanced total: per-record and batched, UP and DOWN.
pub proof fn law_overhead_is_excess(
    records: Seq<Record>,
    threshold: u32,
    cfg: PimConfig,
    remap: Option<RemapTable>,
    batch_group: int,
)
    requires
        cfg_wf(cfg),
        remap matches Some(t) ==> remap_fits(t, cfg.banks as int),
    ensures
        overheads_consistent(
            finish_state(sim_fold(records, threshold, cfg, remap, batch_group), cfg, remap).acc,
        ),
{
    let st = sim_fold(records, threshold, cfg, remap, batch_group);
    lemma_fold_consistent(records, threshold, cfg, remap, batch_group);
    lemma_flush_consistent(st, cfg, remap);
}

/// Every entry of the row is its position modulo `banks`: what the modulo
/// strategy gives with one bank per slot (see [`law_modulo_mapping_row`]).
pub open spec fn is_modulo_row(row: Seq<usize>, banks: int) -> bool {
    forall|j: int| 0 <= j < row.len() ==> #[trigger] row[j] == j % banks
}

/// Every row of both arrays of the table is a modulo row.
pub open spec fn is_modulo_table(m: RemapTable, banks: int) -> bool {
    &&& forall|l: i32| #[trigger] m.up_remap@.contains_key(l) ==> is_modulo_row(m.up_remap@[l]@, banks)
    &&& forall|l: i32| #[trigger] m.down_remap@.contains_key(l) ==> is_modulo_row(m.down_remap@[l]@, banks)
}

/// The modulo strategy with one bank per slot gives a modulo row.
pub proof fn law_modulo_mapping_row(w: Seq<u64>, p: MappingParams)
    requires
        p.span == 1,
        p.n_banks >= 1,
    ensures
        forall|j: int|
            0 <= j < w.len() ==> #[trigger] mapping_spec(w, p, MappingStrategy::Modulo)[j] == j
                % (p.n_banks as int),
{
}

proof fn lemma_modulo_bank(proj: Projection, cfg: PimConfig, table: Option<Seq<usize>>, i: usize)
    requires
        cfg_wf(cfg),
        cfg.channels * cfg.banks_per_channel == cfg.banks,
        table matches Some(t) ==> is_modulo_row(t, cfg.banks as int),
    ensures
        bank_of(proj, cfg, table, i) == bank_of(proj, cfg, None, i),
{
    if let Some(row) = table {
        if (i as int) < row.len() {
            let x = i as int;
            let bpc = cfg.banks_per_channel as int;
            let ch = cfg.channels as int;
            assert(row[x] == x % (cfg.banks as int));
            vstd::arithmetic::div_mod::lemma_breakdown(x, bpc, ch);
            assert(bpc * ch == cfg.banks as int) by (nonlinear_arith)
                requires
                    ch * bpc == cfg.banks as int,
            ;
            assert(bpc * ((x / bpc) % ch) == ((x / bpc) % ch) * bpc) by (nonlinear_arith);
        }
    }
}

/// A modulo mapping with one bank per slot, used as a remap row, places
/// every neuron in the bank the naive layout gives it, for either
/// projection, when the channels tile the bank array exactly.
pub proof fn law_modulo_remap_is_naive(
    w: Seq<u64>,
    p: MappingParams,
    row: Seq<usize>,
    cfg: PimConfig,
    proj: Projection,
    i: usize,
)
    requires
        cfg_wf(cfg),
        cfg.channels * cfg.banks_per_channel == cfg.banks,
        p.n_banks == cfg.banks,
        p.span == 1,
        row.len() == w.len(),
        forall|j: int| 0 <= j < w.len() ==> #[trigger] row[j] == mapping_spec(w, p, MappingStrategy::Modulo)[j],
    ensures
        bank_of(proj, cfg, Some(row), i) == bank_of(proj, cfg, None, i),
{
    law_modulo_mapping_row(w, p);
    lemma_modulo_bank(proj, cfg, Some(row), i);
}

proof fn lemma_modulo_busiest(s: Seq<usize>, proj: Projection, cfg: PimConfig, table: Option<Seq<usize>>)
    requires
        cfg_wf(cfg),
        cfg.channels * cfg.banks_per_channel == cfg.banks,
        table matches Some(t) ==> is_modulo_row(t, cfg.banks as int),
    ensures
        busiest_bank(s, proj, cfg, table) == busiest_bank(s, proj, cfg, None),
{
    assert forall|b: int| #[trigger] bank_count(s, proj, cfg, table, b) == bank_count(s, proj, cfg, None, b) by {
        lemma_modulo_count(s, proj, cfg, table, b);
    }
    assert(Seq::new(cfg.banks as nat, |b: int| bank_count(s, proj, cfg, table, b)) =~= Seq::new(
        cfg.banks as nat,
        |b: int| bank_count(s, proj, cfg, None, b),
    ));
}

proof fn lemma_modulo_count(s: Seq<usize>, proj: Projection, cfg: PimConfig, table: Option<Seq<usize>>, b: int)
    requires
        cfg_wf(cfg),
        cfg.channels * cfg.banks_per_channel == cfg.banks,
        table matches Some(t) ==> is_modulo_row(t, cfg.banks as int),
    ensures
        bank_count(s, proj, cfg, table, b) == bank_count(s, proj, cfg, None, b),
    decreases s.len(),
{
    if s.len() > 0 {
        lemma_modulo_count(s.drop_last(), proj, cfg, table, b);
        lemma_modulo_bank(proj, cfg, table, s.last());
    }
}

proof fn lemma_modulo_rows(m: RemapTable, cfg: PimConfig, proj: Projection, layer: i32)
    requires
        is_modulo_table(m, cfg.banks as int),
    ensures
        remap_row(Some(m), proj, layer) matches Some(t) ==> is_modulo_row(t, cfg.banks as int),
{
    match proj {
        Projection::Up => {
            if m.up_remap@.contains_key(layer) {
            }
        },
        Projection::Down => {
            if m.down_remap@.contains_key(layer) {
            }
        },
    }
}

proof fn lemma_modulo_step(
    st: SimState,
    cfg: PimConfig,
    m: RemapTable,
    batch_group: int,
    layer: i32,
    total: int,
    s: Seq<usize>,
)
    requires
        cfg_wf(cfg),
        cfg.channels * cfg.banks_per_channel == cfg.banks,
        is_modulo_table(m, cfg.banks as int),
    ensures
        step_state(st, cfg, Some(m), batch_group, layer, total, s) == step_state(
            st,
            cfg,
            None,
            batch_group,
            layer,
            total,
            s,
        ),
        flush_state(st, cfg, Some(m)) == flush_state(st, cfg, None),
{
    lemma_modulo_rows(m, cfg, Projection::Up, layer);
    lemma_modulo_rows(m, cfg, Projection::Down, layer);
    lemma_modulo_busiest(s, Projection::Up, cfg, remap_row(Some(m), Projection::Up, layer));
    lemma_modulo_busiest(s, Projection::Down, cfg, remap_row(Some(m), Projection::Down, layer));
    assert(record_step(st.acc, cfg, Some(m), layer, total, s, st.last) == record_step(
        st.acc,
        cfg,
        None,
        layer,
        total,
        s,
        st.last,
    ));
    assert forall|x: SimState| #[trigger] flush_state(x, cfg, Some(m)) == flush_state(x, cfg, None) by {
        if x.pending.len() > 0 {
            let l = x.pending_layer.unwrap();
            let u = dedup(concat_all(x.pending));
            lemma_modulo_rows(m, cfg, Projection::Up, l);
            lemma_modulo_rows(m, cfg, Projection::Down, l);
            lemma_modulo_busiest(u, Projection::Up, cfg, remap_row(Some(m), Projection::Up, l));
            lemma_modulo_busiest(u, Projection::Down, cfg, remap_row(Some(m), Projection::Down, l));
        }
    }
}

/// A remap table of modulo rows (one bank per slot, as the modulo strategy
/// gives) reproduces the naive run exactly, on every total, when the
/// channels tile the bank array.
pub proof fn law_modulo_remap_reproduces_naive_run(
    records: Seq<Record>,
    threshold: u32,
    cfg: PimConfig,
    m: RemapTable,
    batch_group: int,
)
    requires
        cfg_wf(cfg),
        cfg.channels * cfg.banks_per_channel == cfg.banks,
        is_modulo_table(m, cfg.banks as int),
    ensures
        sim_fold(records, threshold, cfg, Some(m), batch_group) == sim_fold(
            records,
            threshold,
            cfg,
            None,
            batch_group,
        ),
        finish_state(sim_fold(records, threshold, cfg, Some(m), batch_group), cfg, Some(m)).acc
            == finish_state(sim_fold(records, threshold, cfg, None, batch_group), cfg, None).acc,
    decreases records.len(),
{
    let st = sim_fold(records, threshold, cfg, None, batch_group);
    lemma_modulo_step(st, cfg, m, batch_group, 0, 0, Seq::empty());
    if records.len() > 0 {
        law_modulo_remap_reproduces_naive_run(records.drop_last(), threshold, cfg, m, batch_group);
        let r = records.last();
        lemma_modulo_step(
            sim_fold(records.drop_last(), threshold, cfg, None, batch_group),
            cfg,
            m,
            batch_group,
            r.layer,
            r.scores@.len() as int,
            active_positions(r.scores@, threshold),
        );
    }
}

// ── Batched rounds against per-record rounds ─────────────────────

/// Sum of the busiest-bank counts of a sequence of rounds.
pub open spec fn busiest_sum(p: Seq<Seq<usize>>, proj: Projection, cfg: PimConfig, table: Option<Seq<usize>>) -> int
    decreases p.len(),
{
    if p.len() == 0 {
        0
    } else {
        busiest_sum(p.drop_last(), proj, cfg, table) + busiest_bank(p.last(), proj, cfg, table)
    }
}

/// Sum of the even splits of a sequence of rounds over `banks` banks.
pub open spec fn even_split_sum(p: Seq<Seq<usize>>, banks: int) -> int
    decreases p.len(),
{
    if p.len() == 0 {
        0
    } else {
        even_split_sum(p.drop_last(), banks) + ceil_div(p.last().len() as int, banks)
    }
}

proof fn lemma_le_seq_max(s: Seq<nat>, i: int)
    requires
        0 <= i < s.len(),
    ensures
        s[i] <= seq_max(s),
    decreases s.len(),
{
    if i < s.len() - 1 {
        lemma_le_seq_max(s.drop_last(), i);
    }
}

proof fn lemma_bank_count_concat(
    x: Seq<usize>,
    y: Seq<usize>,
    proj: Projection,
    cfg: PimConfig,
    table: Option<Seq<usize>>,
    b: int,
)
    ensures
        bank_count(x + y, proj, cfg, table, b) == bank_count(x, proj, cfg, table, b) + bank_count(
            y,
            proj,
            cfg,
            table,
            b,
        ),
    decreases y.len(),
{
    if y.len() == 0 {
        assert(x + y =~= x);
    } else {
        lemma_bank_count_concat(x, y.drop_last(), proj, cfg, table, b);
        assert((x + y).drop_last() =~= x + y.drop_last());
        assert((x + y).last() == y.last());
    }
}

proof fn lemma_bank_count_dedup(s: Seq<usize>, proj: Projection, cfg: PimConfig, table: Option<Seq<usize>>, b: int)
    ensures
        bank_count(dedup(s), proj, cfg, table, b) <= bank_count(s, proj, cfg, table, b),
    decreases s.len(),
{
    if s.len() > 0 {
        let p = s.drop_last();
        lemma_bank_count_dedup(p, proj, cfg, table, b);
        let d = dedup(p);
        if !d.contains(s.last()) {
            assert(d.push(s.last()).drop_last() =~= d);
        }
    }
}

proof fn lemma_concat_count_le(p: Seq<Seq<usize>>, proj: Projection, cfg: PimConfig, table: Option<Seq<usize>>, b: int)
    requires
        0 <= b < cfg.banks,
    ensures
        bank_count(concat_all(p), proj, cfg, table, b) <= busiest_sum(p, proj, cfg, table),
        0 <= busiest_sum(p, proj, cfg, table),
    decreases p.len(),
{
    if p.len() > 0 {
        let q = p.drop_last();
        lemma_concat_count_le(q, proj, cfg, table, b);
        lemma_bank_count_concat(concat_all(q), p.last(), proj, cfg, table, b);
        lemma_le_seq_max(Seq::new(cfg.banks as nat, |c: int| bank_count(p.last(), proj, cfg, table, c)), b);
    }
}

/// The even split covers `x`.
proof fn lemma_ceil_div_covers(x: int, banks: int)
    requires
        x >= 0,
        banks >= 1,
    ensures
        ceil_div(x, banks) * banks >= x,
{
    let q = x / banks;
    let r = x % banks;
    assert(x == q * banks + r && 0 <= r < banks) by (nonlinear_arith)
        requires
            banks >= 1,
            q == x / banks,
            r == x % banks,
    ;
    assert(ceil_div(x, banks) * banks >= x) by (nonlinear_arith)
        requires
            x == q * banks + r,
            0 <= r < banks,
            ceil_div(x, banks) == q + if r != 0 {
                1int
            } else {
                0int
            },
    ;
}

/// The least `k` with `k * banks >= x` is the even split.
proof fn lemma_ceil_div_least(x: int, banks: int, k: int)
    requires
        x >= 0,
        banks >= 1,
        k * banks >= x,
    ensures
        ceil_div(x, banks) <= k,
        ceil_div(x, banks) * banks >= x,
{
    let q = x / banks;
    let r = x % banks;
    assert(x == q * banks + r && 0 <= r < banks) by (nonlinear_arith)
        requires
            banks >= 1,
            q == x / banks,
            r == x % banks,
    ;
    assert(ceil_div(x, banks) <= k && ceil_div(x, banks) * banks >= x) by (nonlinear_arith)
        requires
            x == q * banks + r,
            0 <= r < banks,
            k * banks >= x,
            ceil_div(x, banks) == q + if r != 0 {
                1int
            } else {
                0int
            },
    ;
}

proof fn lemma_concat_split_le(p: Seq<Seq<usize>>, banks: int)
    requires
        banks >= 1,
    ensures
        ceil_div(concat_all(p).len() as int, banks) <= even_split_sum(p, banks),
        even_split_sum(p, banks) * banks >= concat_all(p).len(),
    decreases p.len(),
{
    if p.len() == 0 {
        lemma_ceil_div_least(0, banks, 0);
    } else {
        let q = p.drop_last();
        lemma_concat_split_le(q, banks);
        let a = concat_all(q).len() as int;
        let l = p.last().len() as int;
        let e = even_split_sum(q, banks);
        lemma_ceil_div_covers(l, banks);
        let c = ceil_div(l, banks);
        assert((e + c) * banks >= a + l) by (nonlinear_arith)
            requires
                e * banks >= a,
                c * banks >= l,
        ;
        lemma_ceil_div_least(a + l, banks, e + c);
    }
}

/// Dispatching rounds together costs no more than dispatching them one by
/// one: the busiest bank of the union of their active neurons holds at most
/// the sum of the rounds' busiest banks, and the union's even split is at
/// most the sum of theirs (a neuron wanted by several rounds is read once).
pub proof fn law_batched_round_le_rounds(
    p: Seq<Seq<usize>>,
    proj: Projection,
    cfg: PimConfig,
    table: Option<Seq<usize>>,
)
    requires
        cfg.banks >= 1,
    ensures
        busiest_bank(dedup(concat_all(p)), proj, cfg, table) <= busiest_sum(p, proj, cfg, table),
        ceil_div(dedup(concat_all(p)).len() as int, cfg.banks as int) <= even_split_sum(p, cfg.banks as int),
{
    let u = dedup(concat_all(p));
    lemma_concat_count_le(p, proj, cfg, table, 0);
    let bound = busiest_sum(p, proj, cfg, table) as nat;
    let counts = Seq::new(cfg.banks as nat, |b: int| bank_count(u, proj, cfg, table, b));
    assert forall|b: int| 0 <= b < counts.len() implies counts[b] <= bound by {
        lemma_bank_count_dedup(concat_all(p), proj, cfg, table, b);
        lemma_concat_count_le(p, proj, cfg, table, b);
    }
    lemma_seq_max_bounded(counts, bound);
    lemma_dedup(concat_all(p));
    lemma_concat_split_le(p, cfg.banks as int);
    let banks = cfg.banks as int;
    lemma_ceil_div_covers(concat_all(p).len() as int, banks);
    lemma_ceil_div_least(u.len() as int, banks, ceil_div(concat_all(p).len() as int, banks));
}

// ── What a remap table does ──────────────────────────────────────

/// A remap table's row for a layer places every neuron it covers, for each
/// projection from that projection's own table: the UP bank of neuron `i`
/// is `up_remap[layer][i]` and the DOWN bank is `down_remap[layer][i]`.
/// Neurons the layer's row does not cover (or every neuron, when the table
/// has no row for the layer) keep the naive placement.
pub proof fn law_remap_table_places_neurons(m: RemapTable, cfg: PimConfig, layer: i32, i: usize)
    ensures
        m.down_remap@.contains_key(layer) && (i as int) < m.down_remap@[layer]@.len() ==> bank_of(
            Projection::Down,
            cfg,
            remap_row(Some(m), Projection::Down, layer),
            i,
        ) == m.down_remap@[layer]@[i as int],
        m.up_remap@.contains_key(layer) && (i as int) < m.up_remap@[layer]@.len() ==> bank_of(
            Projection::Up,
            cfg,
            remap_row(Some(m), Projection::Up, layer),
            i,
        ) == m.up_remap@[layer]@[i as int],
        !(m.down_remap@.contains_key(layer) && (i as int) < m.down_remap@[layer]@.len()) ==> bank_of(
            Projection::Down,
            cfg,
            remap_row(Some(m), Projection::Down, layer),
            i,
        ) == default_bank(Projection::Down, cfg, i),
        !(m.up_remap@.contains_key(layer) && (i as int) < m.up_remap@[layer]@.len()) ==> bank_of(
            Projection::Up,
            cfg,
            remap_row(Some(m), Projection::Up, layer),
            i,
        ) == default_bank(Projection::Up, cfg, i),
{
}

/// How many of the indices a row (or the naive placement, past the row)
/// sends to bank `b`.
pub open spec fn row_count(s: Seq<usize>, row: Seq<usize>, proj: Projection, cfg: PimConfig, b: int) -> nat
    decreases s.len(),
{
    if s.len() == 0 {
        0
    } else {
        row_count(s.drop_last(), row, proj, cfg, b) + if (if (s.last() as int) < row.len() {
            row[s.last() as int] as int
        } else {
            default_bank(proj, cfg, s.last())
        }) == b {
            1nat
        } else {
            0nat
        }
    }
}

proof fn lemma_row_count(s: Seq<usize>, m: RemapTable, proj: Projection, cfg: PimConfig, layer: i32, b: int)
    requires
        remap_row(Some(m), proj, layer) is Some,
    ensures
        bank_count(s, proj, cfg, remap_row(Some(m), proj, layer), b) == row_count(
            s,
            remap_row(Some(m), proj, layer)->0,
            proj,
            cfg,
            b,
        ),
    decreases s.len(),
{
    if s.len() > 0 {
        lemma_row_count(s.drop_last(), m, proj, cfg, layer, b);
    }
}

/// One record run with a remap table that has a DOWN row for the record's
/// layer: the per-record DOWN async time is the rows of its busiest bank,
/// the banks being those the DOWN row gives the active neurons (and the
/// UP time likewise from the UP row, when there is one).
pub proof fn law_remapped_record_uses_its_rows(
    r: Record,
    threshold: u32,
    cfg: PimConfig,
    m: RemapTable,
    bg: int,
)
    ensures
        ({
            let s = active_positions(r.scores@, threshold);
            let st = sim_fold(seq![r], threshold, cfg, Some(m), bg);
            &&& m.down_remap@.contains_key(r.layer) ==> st.acc.down_total_async_time == plus(
                0,
                seq_max(
                    Seq::new(
                        cfg.banks as nat,
                        |b: int| row_count(s, m.down_remap@[r.layer]@, Projection::Down, cfg, b),
                    ),
                ) * rows_per_neuron(cfg),
            )
            &&& m.up_remap@.contains_key(r.layer) ==> st.acc.up_total_asnc_time == plus(
                0,
                seq_max(
                    Seq::new(
                        cfg.banks as nat,
                        |b: int| row_count(s, m.up_remap@[r.layer]@, Projection::Up, cfg, b),
                    ),
                ) * rows_per_neuron(cfg),
            )
        }),
{
    let s = active_positions(r.scores@, threshold);
    assert(seq![r].drop_last() =~= Seq::<Record>::empty());
    assert(seq![r].last() == r);
    let st0 = sim_fold(seq![r].drop_last(), threshold, cfg, Some(m), bg);
    assert(st0.acc == empty_result(bg as u64));
    let st1 = step_state(st0, cfg, Some(m), bg, r.layer, r.scores@.len() as int, s);
    assert(sim_fold(seq![r], threshold, cfg, Some(m), bg) == st1);
    let a1 = record_step(st0.acc, cfg, Some(m), r.layer, r.scores@.len() as int, s, st0.last);
    assert(st1.acc.down_total_async_time == a1.down_total_async_time);
    assert(st1.acc.up_total_asnc_time == a1.up_total_asnc_time);
    if m.down_remap@.contains_key(r.layer) {
        assert forall|b: int| #[trigger] bank_count(s, Projection::Down, cfg, remap_row(Some(m), Projection::Down, r.layer), b)
            == row_count(s, m.down_remap@[r.layer]@, Projection::Down, cfg, b) by {
            lemma_row_count(s, m, Projection::Down, cfg, r.layer, b);
        }
        assert(Seq::new(
            cfg.banks as nat,
            |b: int| bank_count(s, Projection::Down, cfg, remap_row(Some(m), Projection::Down, r.layer), b),
        ) =~= Seq::new(
            cfg.banks as nat,
            |b: int| row_count(s, m.down_remap@[r.layer]@, Projection::Down, cfg, b),
        ));
    }
    if m.up_remap@.contains_key(r.layer) {
        assert forall|b: int| #[trigger] bank_count(s, Projection::Up, cfg, remap_row(Some(m), Projection::Up, r.layer), b)
            == row_count(s, m.up_remap@[r.layer]@, Projection::Up, cfg, b) by {
            lemma_row_count(s, m, Projection::Up, cfg, r.layer, b);
        }
        assert(Seq::new(
            cfg.banks as nat,
            |b: int| bank_count(s, Projection::Up, cfg, remap_row(Some(m), Projection::Up, r.layer), b),
        ) =~= Seq::new(
            cfg.banks as nat,
            |b: int| row_count(s, m.up_remap@[r.layer]@, Projection::Up, cfg, b),
        ));
    }
}

} // verus!
