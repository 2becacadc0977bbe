//! UP/DOWN physical-layout model: the naive / non-distributed /
//! distributed / distributed-and-staggered comparison, costed in time
//! (row-open + compute, ns).
//!
//! UP (gather): every active neuron is one independent row of
//! `up_rows_per_bank` pages. Striping a neuron over `span` banks turns the
//! array into `banks / span` larger logical banks and streams its pages in
//! parallel, so a neuron costs `ceil(up_rows_per_bank / span)` row reads.
//!
//! DOWN (scatter-accumulate): the layout is transposed; every output
//! dimension is one tensor whose coefficients are split into row groups of
//! `row_group_size` neurons. A row group is opened when any of its neurons
//! is active, and computed chunk by chunk, where a chunk whose neurons are
//! all inactive is skipped. Distributing a tensor's row groups over `span`
//! banks places row group `r` of tensor `t` at position `(r + offset) %
//! span`, with `offset = t % span` when staggered and 0 otherwise.
use std::collections::HashMap;
use vstd::prelude::*;

use crate::pim::config::PimConfig;
use crate::pim::simulate::{
    ceil_div, channels_ok, count_sum, dedup, lemma_count_sum_bump, lemma_even_share_le_max, max_of,
    naive_channel_rows, naive_rows, seq_max,
};
use crate::record::{active_positions, lemma_active_positions, Record};

verus! {

broadcast use vstd::std_specs::hash::group_hash_axioms;

/// Precharge + activate time of one row, ns. Row open and compute never
/// overlap: the compute unit works in the row buffer itself.
pub const ROW_OPEN_NS: u64 = 56;

/// Compute throughput, bytes per cycle.
pub const BYTES_PER_CYCLE: u64 = 16;

/// Length of one compute cycle, ns.
pub const NS_PER_CYCLE: u64 = 1;

/// One physical-layout configuration for a single projection.
#[derive(Debug, Clone, Copy, PartialEq, Eq, Structural)]
pub struct SpanLayout {
    /// Physical banks striped per tensor. 1 = not distributed.
    pub span: usize,
    /// Whether the row/bank assignment is rotated per tensor (DOWN only).
    pub stagger: bool,
}

impl SpanLayout {
    /// One bank per tensor, no rotation.
    pub fn non_distributed() -> (l: Self)
        ensures
            l.span == 1,
            !l.stagger,
    {
        SpanLayout { span: 1, stagger: false }
    }
}

/// One projection's calibration inputs: a per-layer bank remap for UP
/// (generated for a specific span) and a per-layer clustering permutation
/// for DOWN.
#[derive(Debug, Clone, Default)]
pub struct LayoutCalibration {
    pub up_remap: HashMap<i32, Vec<usize>>,
    pub down_slot_of: HashMap<i32, Vec<usize>>,
}

// ── Geometry ─────────────────────────────────────────────────────

/// Hardware parameters the layout model computes with: rows of at least
/// one compute chunk, a non-zero weight width, and non-empty bank and
/// channel counts, each within 32 bits. The 32-bit caps are a bound chosen
/// for the model (real arrays are many orders of magnitude smaller): they
/// keep every product of these sizes with a record's neuron count inside
/// the 64- and 128-bit arithmetic of the per-record costs.
pub open spec fn layout_cfg_ok(cfg: PimConfig) -> bool {
    &&& cfg.page_size >= 16
    &&& cfg.weight_bits >= 1
    &&& cfg.banks >= 1
    &&& cfg.channels >= 1
    &&& cfg.banks_per_channel >= 1
    &&& cfg.page_size <= u32::MAX
    &&& cfg.weight_bits <= u32::MAX
    &&& cfg.banks <= u32::MAX
    &&& cfg.channels <= u32::MAX
    &&& cfg.banks_per_channel <= u32::MAX
    &&& cfg.activation_size <= u32::MAX
}

/// Whether the layout model can compute with `cfg` (see [`layout_cfg_ok`]).
pub fn layout_config_supported(cfg: &PimConfig) -> (ok: bool)
    ensures
        ok == layout_cfg_ok(*cfg),
{
    cfg.page_size >= 16 && cfg.weight_bits >= 1 && cfg.banks >= 1 && cfg.channels >= 1
        && cfg.banks_per_channel >= 1 && cfg.page_size <= u32::MAX as u64 && cfg.weight_bits
        <= u32::MAX as u64 && cfg.banks <= u32::MAX as u64 && cfg.channels <= u32::MAX as u64
        && cfg.banks_per_channel <= u32::MAX as u64 && cfg.activation_size <= u32::MAX as u64
}

/// Pages one neuron's UP row occupies when stored whole in one bank.
pub open spec fn up_rows_per_bank(cfg: PimConfig) -> int {
    ceil_div(cfg.activation_size * cfg.weight_bits, 8 * cfg.page_size)
}

/// Compute time of one full page, ns.
pub open spec fn page_compute(page_size: int) -> int {
    ceil_div(page_size * NS_PER_CYCLE, BYTES_PER_CYCLE as int)
}

/// Time of one UP row read: open plus full-page compute, ns.
pub open spec fn up_row_time(cfg: PimConfig) -> int {
    ROW_OPEN_NS + page_compute(cfg.page_size as int)
}

/// Neurons per compute chunk (at least one).
pub open spec fn chunk_size(cfg: PimConfig) -> int {
    let c = (BYTES_PER_CYCLE * 8) as int / cfg.weight_bits as int;
    if c < 1 {
        1
    } else {
        c
    }
}

/// Compute chunks per DOWN row group (one page).
pub open spec fn chunks_per_row_group(cfg: PimConfig) -> int {
    cfg.page_size as int / BYTES_PER_CYCLE as int
}

/// Neurons per DOWN row group.
pub open spec fn row_group_size(cfg: PimConfig) -> int {
    chunk_size(cfg) * chunks_per_row_group(cfg)
}

fn page_compute_ns(page_size: u64) -> (t: u64)
    requires
        page_size <= u32::MAX,
    ensures
        t == page_compute(page_size as int),
{
    let a = page_size * NS_PER_CYCLE;
    a / BYTES_PER_CYCLE + if a % BYTES_PER_CYCLE != 0 {
        1
    } else {
        0
    }
}

fn chunk_compute_ns() -> (t: u64)
    ensures
        t == NS_PER_CYCLE,
{
    // one BYTES_PER_CYCLE-wide chunk is exactly one compute cycle
    NS_PER_CYCLE
}

// ── UP: busiest logical bank ─────────────────────────────────────

/// An optional borrowed row as an optional sequence.
pub open spec fn opt_seq(t: Option<&Vec<usize>>) -> Option<Seq<usize>> {
    match t {
        Some(v) => Some(v@),
        None => None,
    }
}

/// The UP remap row of `layer` in an optional calibration.
pub open spec fn calib_up_row(calib: Option<&LayoutCalibration>, layer: i32) -> Option<Seq<usize>> {
    match calib {
        Some(c) => if c.up_remap@.contains_key(layer) {
            Some(c.up_remap@[layer]@)
        } else {
            None
        },
        None => None,
    }
}

/// The DOWN clustering row of `layer` in an optional calibration.
pub open spec fn calib_down_row(calib: Option<&LayoutCalibration>, layer: i32) -> Option<Seq<usize>> {
    match calib {
        Some(c) => if c.down_slot_of@.contains_key(layer) {
            Some(c.down_slot_of@[layer]@)
        } else {
            None
        },
        None => None,
    }
}

/// Logical UP bank of neuron `i`: its remapped (or `i % banks`) physical
/// bank, divided by the span, wrapped to the logical bank count.
pub open spec fn up_slot(table: Option<Seq<usize>>, banks: int, span: int, i: usize) -> int {
    let bank = match table {
        Some(t) => if (i as int) < t.len() {
            t[i as int] as int
        } else {
            i as int % banks
        },
        None => i as int % banks,
    };
    (bank / span) % (banks / span)
}

/// How many of the indices land in logical UP bank `q`.
pub open spec fn up_slot_hits(s: Seq<usize>, table: Option<Seq<usize>>, banks: int, span: int, q: int) -> nat
    decreases s.len(),
{
    if s.len() == 0 {
        0
    } else {
        up_slot_hits(s.drop_last(), table, banks, span, q) + if up_slot(table, banks, span, s.last())
            == q {
            1nat
        } else {
            0nat
        }
    }
}

/// The busiest logical UP bank's neuron count.
pub open spec fn up_busiest(s: Seq<usize>, table: Option<Seq<usize>>, banks: int, span: int) -> nat {
    seq_max(Seq::new((banks / span) as nat, |q: int| up_slot_hits(s, table, banks, span, q)))
}

proof fn lemma_up_slot_hits_bounded(s: Seq<usize>, table: Option<Seq<usize>>, banks: int, span: int, q: int)
    ensures
        up_slot_hits(s, table, banks, span, q) <= s.len(),
    decreases s.len(),
{
    if s.len() > 0 {
        lemma_up_slot_hits_bounded(s.drop_last(), table, banks, span, q);
    }
}

/// Count how many active neurons land in each of `banks / span` logical
/// banks, and return the busiest one's count.
fn up_busiest_count(
    indices: &[usize],
    layer: i32,
    banks: usize,
    layout: SpanLayout,
    calib: Option<&LayoutCalibration>,
) -> (n: usize)
    requires
        1 <= layout.span <= banks,
    ensures
        n == up_busiest(indices@, calib_up_row(calib, layer), banks as int, layout.span as int),
        n <= indices@.len(),
{
    let span = layout.span;
    let n_slots = banks / span;
    let ghost tv = calib_up_row(calib, layer);
    proof {
        vstd::arithmetic::div_mod::lemma_div_is_ordered(span as int, banks as int, span as int);
        vstd::arithmetic::div_mod::lemma_div_by_self(span as int);
    }
    let table: Option<&Vec<usize>> = match calib {
        Some(c) => c.up_remap.get(&layer),
        None => None,
    };
    assert(match table {
        Some(t) => tv == Some(t@),
        None => tv is None,
    });
    let mut per_slot: Vec<usize> = vec![0usize; n_slots];
    let mut k: usize = 0;
    while k < indices.len()
        invariant
            1 <= span <= banks,
            n_slots == banks / span,
            n_slots >= 1,
            match table {
                Some(t) => tv == Some(t@),
                None => tv is None,
            },
            k <= indices@.len(),
            per_slot@.len() == n_slots,
            forall|q: int|
                0 <= q < n_slots ==> #[trigger] per_slot@[q] == up_slot_hits(
                    indices@.take(k as int),
                    tv,
                    banks as int,
                    span as int,
                    q,
                ),
            forall|q: int| 0 <= q < n_slots ==> per_slot@[q] <= k,
        decreases indices@.len() - k,
    {
        let i = indices[k];
        let bank = match table {
            Some(t) => if i < t.len() {
                t[i]
            } else {
                i % banks
            },
            None => i % banks,
        };
        let q = (bank / span) % n_slots;
        assert(q as int == up_slot(tv, banks as int, span as int, i));
        assert(indices@.take(k + 1).drop_last() =~= indices@.take(k as int));
        let c = per_slot[q];
        per_slot.set(q, c + 1);
        k = k + 1;
    }
    assert(indices@.take(k as int) =~= indices@);
    let m = max_of(&per_slot);
    assert(per_slot@.map_values(|x: usize| x as nat) =~= Seq::new(
        n_slots as nat,
        |q: int| up_slot_hits(indices@, tv, banks as int, span as int, q),
    ));
    proof {
        let v = Seq::new(n_slots as nat, |q: int| up_slot_hits(indices@, tv, banks as int, span as int, q));
        assert forall|q: int| 0 <= q < v.len() implies v[q] <= indices@.len() by {
            lemma_up_slot_hits_bounded(indices@, tv, banks as int, span as int, q);
        }
        crate::pim::simulate::lemma_seq_max_bounded(v, indices@.len());
    }
    m
}

// ── DOWN: row-group and chunk activity ───────────────────────────

/// Counts as integers.
pub open spec fn counts_seq(v: Seq<usize>) -> Seq<int> {
    v.map_values(|x: usize| x as int)
}

/// Position of neuron `i` in DOWN's clustered order (`i` itself when no
/// clustering row covers it).
pub open spec fn down_slot(slot_of: Option<Seq<usize>>, i: usize) -> int {
    match slot_of {
        Some(t) => if (i as int) < t.len() {
            t[i as int] as int
        } else {
            i as int
        },
        None => i as int,
    }
}

/// Compute chunk `c` holds at least one of the active neurons.
pub open spec fn chunk_hit(s: Seq<usize>, slot_of: Option<Seq<usize>>, cs: int, c: int) -> bool {
    exists|k: int| 0 <= k < s.len() && #[trigger] down_slot(slot_of, s[k]) / cs == c
}

/// How many of the chunks `lo .. lo + len` hold an active neuron.
pub open spec fn chunks_hit(s: Seq<usize>, slot_of: Option<Seq<usize>>, cs: int, lo: int, len: int) -> nat
    decreases len,
{
    if len <= 0 {
        0
    } else {
        chunks_hit(s, slot_of, cs, lo, len - 1) + if chunk_hit(s, slot_of, cs, lo + len - 1) {
            1nat
        } else {
            0nat
        }
    }
}
proof fn lemma_chunk_hit_step(s: Seq<usize>, slot_of: Option<Seq<usize>>, cs: int, c: int, k: int)
    requires
        0 <= k < s.len(),
    ensures
        chunk_hit(s.take(k + 1), slot_of, cs, c) <==> (chunk_hit(s.take(k), slot_of, cs, c) || down_slot(
            slot_of,
            s[k],
        ) / cs == c),
{
    let pre = s.take(k);
    let post = s.take(k + 1);
    if chunk_hit(post, slot_of, cs, c) {
        let j = choose|j: int| 0 <= j < post.len() && #[trigger] down_slot(slot_of, post[j]) / cs == c;
        if j < k {
            assert(down_slot(slot_of, pre[j]) / cs == c);
        }
    }
    if chunk_hit(pre, slot_of, cs, c) {
        let j = choose|j: int| 0 <= j < pre.len() && #[trigger] down_slot(slot_of, pre[j]) / cs == c;
        assert(down_slot(slot_of, post[j]) / cs == c);
    }
    if down_slot(slot_of, s[k]) / cs == c {
        assert(down_slot(slot_of, post[k]) / cs == c);
    }
}

/// For each of DOWN's row groups, whether it is active (holds an active
/// neuron) and how many of its chunks are individually active, under the
/// clustering permutation (`None` = natural neuron order).
fn down_activity(
    indices: &[usize],
    chunk_size: usize,
    chunks_per_row_group: usize,
    n_row_groups: usize,
    slot_of: Option<&Vec<usize>>,
) -> (r: (Vec<bool>, Vec<usize>))
    requires
        chunk_size >= 1,
        n_row_groups * chunks_per_row_group <= usize::MAX,
    ensures
        r.0@.len() == n_row_groups,
        r.1@.len() == n_row_groups,
        forall|g: int|
            0 <= g < n_row_groups ==> #[trigger] r.1@[g] == chunks_hit(
                indices@,
                opt_seq(slot_of),
                chunk_size as int,
                g * chunks_per_row_group as int,
                chunks_per_row_group as int,
            ),
        forall|g: int| 0 <= g < n_row_groups ==> #[trigger] r.0@[g] == (r.1@[g] > 0),
        forall|g: int| 0 <= g < n_row_groups ==> #[trigger] r.1@[g] <= chunks_per_row_group,
{
    let cpr = chunks_per_row_group;
    let n_chunks = n_row_groups * cpr;
    let ghost so = opt_seq(slot_of);
    let ghost cs = chunk_size as int;
    let mut chunk_active: Vec<bool> = vec![false; n_chunks];
    let mut k: usize = 0;
    while k < indices.len()
        invariant
            chunk_size >= 1,
            cs == chunk_size as int,
            so == opt_seq(slot_of),
            k <= indices@.len(),
            chunk_active@.len() == n_chunks,
            forall|c: int|
                0 <= c < n_chunks ==> #[trigger] chunk_active@[c] == chunk_hit(
                    indices@.take(k as int),
                    so,
                    cs,
                    c,
                ),
        decreases indices@.len() - k,
    {
        let i = indices[k];
        let slot = match slot_of {
            Some(t) => if i < t.len() {
                t[i]
            } else {
                i
            },
            None => i,
        };
        assert(slot as int == down_slot(so, i));
        let chunk = slot / chunk_size;
        let ghost before = chunk_active@;
        if chunk < n_chunks {
            chunk_active.set(chunk, true);
        }
        proof {
            assert forall|c: int| 0 <= c < n_chunks implies #[trigger] chunk_active@[c] == chunk_hit(
                indices@.take(k + 1),
                so,
                cs,
                c,
            ) by {
                lemma_chunk_hit_step(indices@, so, cs, c, k as int);
                assert(before[c] == chunk_hit(indices@.take(k as int), so, cs, c));
            }
        }
        k = k + 1;
    }
    assert(indices@.take(k as int) =~= indices@);
    let mut row_active: Vec<bool> = Vec::new();
    let mut chunk_counts: Vec<usize> = Vec::new();
    let mut g: usize = 0;
    while g < n_row_groups
        invariant
            chunk_size >= 1,
            cs == chunk_size as int,
            so == opt_seq(slot_of),
            cpr == chunks_per_row_group,
            n_chunks == n_row_groups * cpr,
            chunk_active@.len() == n_chunks,
            forall|c: int| 0 <= c < n_chunks ==> #[trigger] chunk_active@[c] == chunk_hit(indices@, so, cs, c),
            g <= n_row_groups,
            row_active@.len() == g,
            chunk_counts@.len() == g,
            forall|h: int|
                0 <= h < g ==> #[trigger] chunk_counts@[h] == chunks_hit(
                    indices@,
                    so,
                    cs,
                    h * cpr as int,
                    cpr as int,
                ),
            forall|h: int| 0 <= h < g ==> #[trigger] row_active@[h] == (chunk_counts@[h] > 0),
            forall|h: int| 0 <= h < g ==> #[trigger] chunk_counts@[h] <= cpr,
        decreases n_row_groups - g,
    {
        proof {
            assert((g as int + 1) * cpr <= n_row_groups as int * cpr) by (nonlinear_arith)
                requires
                    g + 1 <= n_row_groups,
                    cpr >= 0,
            ;
            assert((g as int + 1) * cpr == g as int * cpr + cpr) by (nonlinear_arith);
        }
        let start = g * cpr;
        let mut count: usize = 0;
        let mut j: usize = 0;
        while j < cpr
            invariant
                cs == chunk_size as int,
                so == opt_seq(slot_of),
                start + cpr <= n_chunks,
                chunk_active@.len() == n_chunks,
                forall|c: int| 0 <= c < n_chunks ==> #[trigger] chunk_active@[c] == chunk_hit(indices@, so, cs, c),
                j <= cpr,
                count == chunks_hit(indices@, so, cs, start as int, j as int),
                count <= j,
            decreases cpr - j,
        {
            if chunk_active[start + j] {
                count = count + 1;
            }
            j = j + 1;
        }
        chunk_counts.push(count);
        row_active.push(count > 0);
        g = g + 1;
    }
    (row_active, chunk_counts)
}

// ── DOWN: busiest bank position ──────────────────────────────────

/// Rotation of tensor `t`'s row groups over the span's positions.
pub open spec fn tensor_offset(layout: SpanLayout, t: int) -> int {
    if layout.stagger {
        t % layout.span as int
    } else {
        0
    }
}

/// Summed weight of the active row groups `0 .. rr` that a tensor with
/// rotation `off` places at position `p`.
pub open spec fn pos_sum(ra: Seq<bool>, wts: Seq<int>, span: int, off: int, p: int, rr: int) -> int
    decreases rr,
{
    if rr <= 0 {
        0
    } else {
        pos_sum(ra, wts, span, off, p, rr - 1) + if ra[rr - 1] && (rr - 1 + off) % span == p {
            wts[rr - 1]
        } else {
            0
        }
    }
}

/// Summed weight at position `p` over tensors `0 .. tt`.
pub open spec fn pos_total(ra: Seq<bool>, wts: Seq<int>, layout: SpanLayout, p: int, tt: int) -> int
    decreases tt,
{
    if tt <= 0 {
        0
    } else {
        pos_total(ra, wts, layout, p, tt - 1) + pos_sum(
            ra,
            wts,
            layout.span as int,
            tensor_offset(layout, tt - 1),
            p,
            ra.len() as int,
        )
    }
}

/// Weight 1 for every row group: row opens.
pub open spec fn unit_weights(n: int) -> Seq<int> {
    Seq::new(n as nat, |r: int| 1int)
}

/// Every row group costs the full chunk count: compute without sub-row skip.
pub open spec fn full_weights(n: int, cpr: int) -> Seq<int> {
    Seq::new(n as nat, |r: int| cpr)
}

/// Row opens, computed chunks (with skip) and computed chunks (without) at
/// position `p`, over `tt` tensors.
pub open spec fn position_load(ra: Seq<bool>, cc: Seq<int>, cpr: int, layout: SpanLayout, p: int, tt: int) -> (
    int,
    int,
    int,
) {
    (
        pos_total(ra, unit_weights(ra.len() as int), layout, p, tt),
        pos_total(ra, cc, layout, p, tt),
        pos_total(ra, full_weights(ra.len() as int, cpr), layout, p, tt),
    )
}

/// Time of a position: row opens plus computed chunks, ns.
pub open spec fn position_time(load: (int, int, int)) -> int {
    load.0 * ROW_OPEN_NS + load.1 * NS_PER_CYCLE
}

/// `p` is the busiest position: its time is the largest, and no later
/// position's time equals it.
pub open spec fn is_busiest_pos(times: Seq<int>, p: int) -> bool {
    &&& 0 <= p < times.len()
    &&& forall|q: int| 0 <= q < times.len() ==> #[trigger] times[q] <= times[p]
    &&& forall|q: int| p < q < times.len() ==> #[trigger] times[q] < times[p]
}

/// The busiest position's loads, for DOWN this record: row opens, chunks
/// computed with sub-row skip, and chunks computed without.
pub open spec fn down_busiest(ra: Seq<bool>, cc: Seq<int>, cpr: int, tt: int, layout: SpanLayout) -> (
    int,
    int,
    int,
) {
    let times = Seq::new(
        layout.span as nat,
        |p: int| position_time(position_load(ra, cc, cpr, layout, p, tt)),
    );
    position_load(ra, cc, cpr, layout, choose|p: int| is_busiest_pos(times, p), tt)
}

proof fn lemma_pos_sum_bounded(ra: Seq<bool>, wts: Seq<int>, span: int, off: int, p: int, rr: int, m: int)
    requires
        0 <= rr <= ra.len(),
        wts.len() == ra.len(),
        m >= 0,
        forall|r: int| 0 <= r < wts.len() ==> 0 <= #[trigger] wts[r] <= m,
    ensures
        0 <= pos_sum(ra, wts, span, off, p, rr) <= rr * m,
    decreases rr,
{
    if rr > 0 {
        lemma_pos_sum_bounded(ra, wts, span, off, p, rr - 1, m);
        assert((rr - 1) * m + m == rr * m) by (nonlinear_arith);
    }
}

proof fn lemma_pos_total_bounded(ra: Seq<bool>, wts: Seq<int>, layout: SpanLayout, p: int, tt: int, m: int)
    requires
        tt >= 0,
        wts.len() == ra.len(),
        m >= 0,
        forall|r: int| 0 <= r < wts.len() ==> 0 <= #[trigger] wts[r] <= m,
    ensures
        0 <= pos_total(ra, wts, layout, p, tt) <= tt * (ra.len() * m),
    decreases tt,
{
    if tt > 0 {
        lemma_pos_total_bounded(ra, wts, layout, p, tt - 1, m);
        lemma_pos_sum_bounded(
            ra,
            wts,
            layout.span as int,
            tensor_offset(layout, tt - 1),
            p,
            ra.len() as int,
            m,
        );
        assert((tt - 1) * (ra.len() * m) + ra.len() * m == tt * (ra.len() * m)) by (nonlinear_arith);
    }
}

proof fn lemma_step_bound(
    ra: Seq<bool>,
    w: Seq<int>,
    layout: SpanLayout,
    pos: int,
    t: int,
    offset: int,
    r: int,
    m: int,
)
    requires
        w.len() == ra.len(),
        m >= 0,
        t >= 0,
        0 <= r < ra.len(),
        forall|g: int| 0 <= g < w.len() ==> 0 <= #[trigger] w[g] <= m,
    ensures
        0 <= pos_total(ra, w, layout, pos, t) + pos_sum(ra, w, layout.span as int, offset, pos, r + 1)
            <= (t + 1) * (ra.len() * m),
{
    lemma_pos_total_bounded(ra, w, layout, pos, t, m);
    lemma_pos_sum_bounded(ra, w, layout.span as int, offset, pos, r + 1, m);
    assert(t * (ra.len() * m) + (r + 1) * m <= (t + 1) * (ra.len() * m)) by (nonlinear_arith)
        requires
            r + 1 <= ra.len(),
            m >= 0,
    ;
}

proof fn lemma_busiest_unique(times: Seq<int>, a: int, b: int)
    requires
        is_busiest_pos(times, a),
        is_busiest_pos(times, b),
    ensures
        a == b,
{
    if a < b {
        assert(times[b] < times[a]);
        assert(times[a] <= times[b]);
    } else if b < a {
        assert(times[a] < times[b]);
        assert(times[b] <= times[a]);
    }
}

/// Busiest bank-position totals for DOWN this record: row opens, and
/// chunk computes with and without sub-row skip. "Busiest" is by time (row
/// opens plus skipped-chunk compute), the last such position on ties.
/// Every tensor of a group sees the same row pattern, so one group is
/// simulated exactly.
fn down_busiest_position(
    row_active: &Vec<bool>,
    chunk_counts: &Vec<usize>,
    chunks_per_row_group: usize,
    tensors_per_group: usize,
    layout: SpanLayout,
) -> (r: (u128, u128, u128))
    requires
        1 <= layout.span <= u32::MAX,
        chunks_per_row_group >= 1,
        row_active@.len() == chunk_counts@.len(),
        row_active@.len() <= u32::MAX,
        chunks_per_row_group <= u32::MAX,
        tensors_per_group <= u32::MAX,
        forall|g: int| 0 <= g < chunk_counts@.len() ==> #[trigger] chunk_counts@[g] <= chunks_per_row_group,
    ensures
        (r.0 as int, r.1 as int, r.2 as int) == down_busiest(
            row_active@,
            counts_seq(chunk_counts@),
            chunks_per_row_group as int,
            tensors_per_group as int,
            layout,
        ),
        r.0 <= tensors_per_group as int * row_active@.len(),
        r.1 <= tensors_per_group as int * (row_active@.len() * chunks_per_row_group),
        r.2 <= tensors_per_group as int * (row_active@.len() * chunks_per_row_group),
{
    let span = layout.span;
    let nr = row_active.len();
    let ghost ra = row_active@;
    let ghost cc = counts_seq(chunk_counts@);
    let ghost cpr = chunks_per_row_group as int;
    let ghost ones = unit_weights(nr as int);
    let ghost full = full_weights(nr as int, cpr);
    let ghost bound = tensors_per_group as int * (nr as int * cpr);
    let mut opens: Vec<u128> = vec![0u128; span];
    let mut chunks: Vec<u128> = vec![0u128; span];
    let mut chunks_full: Vec<u128> = vec![0u128; span];
    proof {
        assert(bound <= 0xffff_ffff_ffff_ffff_ffff_ffff) by (nonlinear_arith)
            requires
                0 <= tensors_per_group <= 0xffff_ffff,
                0 <= nr <= 0xffff_ffff,
                0 <= cpr <= 0xffff_ffff,
                bound == tensors_per_group as int * (nr as int * cpr),
        ;
    }
    let mut t: usize = 0;
    while t < tensors_per_group
        invariant
            span == layout.span,
            span >= 1,
            nr == ra.len(),
            ra == row_active@,
            cc == counts_seq(chunk_counts@),
            cc.len() == nr,
            cpr == chunks_per_row_group as int,
            ones == unit_weights(nr as int),
            full == full_weights(nr as int, cpr),
            forall|g: int| 0 <= g < nr ==> 0 <= #[trigger] cc[g] <= cpr,
            bound == tensors_per_group as int * (nr as int * cpr),
            bound <= 0xffff_ffff_ffff_ffff_ffff_ffff,
            nr <= u32::MAX,
            cpr <= u32::MAX,
            cpr >= 1,
            span <= u32::MAX,
            t <= tensors_per_group,
            opens@.len() == span,
            chunks@.len() == span,
            chunks_full@.len() == span,
            forall|p: int| 0 <= p < span ==> #[trigger] opens@[p] == pos_total(ra, ones, layout, p, t as int),
            forall|p: int| 0 <= p < span ==> #[trigger] chunks@[p] == pos_total(ra, cc, layout, p, t as int),
            forall|p: int|
                0 <= p < span ==> #[trigger] chunks_full@[p] == pos_total(ra, full, layout, p, t as int),
        decreases tensors_per_group - t,
    {
        let offset: usize = if layout.stagger {
            t % span
        } else {
            0
        };
        assert(offset as int == tensor_offset(layout, t as int));
        let mut r: usize = 0;
        while r < nr
            invariant
                span == layout.span,
                span >= 1,
                nr == ra.len(),
                ra == row_active@,
                cc == counts_seq(chunk_counts@),
                cc.len() == nr,
                cpr == chunks_per_row_group as int,
                ones == unit_weights(nr as int),
                full == full_weights(nr as int, cpr),
                forall|g: int| 0 <= g < nr ==> 0 <= #[trigger] cc[g] <= cpr,
                bound == tensors_per_group as int * (nr as int * cpr),
                bound <= 0xffff_ffff_ffff_ffff_ffff_ffff,
                nr <= u32::MAX,
                cpr <= u32::MAX,
                cpr >= 1,
                span <= u32::MAX,
                t < tensors_per_group,
                offset as int == tensor_offset(layout, t as int),
                offset < span,
                r <= nr,
                opens@.len() == span,
                chunks@.len() == span,
                chunks_full@.len() == span,
                forall|p: int|
                    0 <= p < span ==> #[trigger] opens@[p] == pos_total(ra, ones, layout, p, t as int)
                        + pos_sum(ra, ones, span as int, offset as int, p, r as int),
                forall|p: int|
                    0 <= p < span ==> #[trigger] chunks@[p] == pos_total(ra, cc, layout, p, t as int)
                        + pos_sum(ra, cc, span as int, offset as int, p, r as int),
                forall|p: int|
                    0 <= p < span ==> #[trigger] chunks_full@[p] == pos_total(ra, full, layout, p, t as int)
                        + pos_sum(ra, full, span as int, offset as int, p, r as int),
            decreases nr - r,
        {
            if row_active[r] {
                let pos = ((r as u64 + offset as u64) % span as u64) as usize;
                proof {
                    lemma_step_bound(ra, ones, layout, pos as int, t as int, offset as int, r as int, 1);
                    lemma_step_bound(ra, cc, layout, pos as int, t as int, offset as int, r as int, cpr);
                    lemma_step_bound(ra, full, layout, pos as int, t as int, offset as int, r as int, cpr);
                    assert((t as int + 1) * (nr as int * 1) <= bound) by (nonlinear_arith)
                        requires
                            t + 1 <= tensors_per_group,
                            bound == tensors_per_group as int * (nr as int * cpr),
                            cpr >= 1,
                            nr >= 0,
                    ;
                    assert((t as int + 1) * (nr as int * cpr) <= bound) by (nonlinear_arith)
                        requires
                            t + 1 <= tensors_per_group,
                            bound == tensors_per_group as int * (nr as int * cpr),
                            cpr >= 0,
                            nr >= 0,
                    ;
                }
                let o = opens[pos];
                opens.set(pos, o + 1);
                let c = chunks[pos];
                chunks.set(pos, c + chunk_counts[r] as u128);
                let f = chunks_full[pos];
                chunks_full.set(pos, f + chunks_per_row_group as u128);
            }
            r = r + 1;
        }
        t = t + 1;
    }
    let ghost times = Seq::new(
        span as nat,
        |p: int| position_time(position_load(ra, cc, cpr, layout, p, tensors_per_group as int)),
    );
    proof {
        assert forall|q: int| 0 <= q < span implies #[trigger] opens@[q] <= 0xffff_ffff_ffff_ffff_ffff_ffff
            && chunks@[q] <= 0xffff_ffff_ffff_ffff_ffff_ffff by {
            lemma_pos_total_bounded(ra, ones, layout, q, tensors_per_group as int, 1);
            lemma_pos_total_bounded(ra, cc, layout, q, tensors_per_group as int, cpr);
            assert(tensors_per_group as int * (nr as int * 1) <= bound) by (nonlinear_arith)
                requires
                    bound == tensors_per_group as int * (nr as int * cpr),
                    cpr >= 1,
                    nr >= 0,
                    tensors_per_group >= 0,
            ;
        }
        assert forall|q: int| 0 <= q < span implies #[trigger] times[q] == opens@[q] * ROW_OPEN_NS
            + chunks@[q] * NS_PER_CYCLE by {}
    }
    let mut best: usize = 0;
    let mut best_time: u128 = 0;
    let mut p: usize = 0;
    while p < span
        invariant
            span == layout.span,
            span >= 1,
            opens@.len() == span,
            chunks@.len() == span,
            times.len() == span,
            forall|q: int|
                0 <= q < span ==> #[trigger] times[q] == opens@[q] * ROW_OPEN_NS + chunks@[q] * NS_PER_CYCLE,
            forall|q: int|
                0 <= q < span ==> #[trigger] opens@[q] <= 0xffff_ffff_ffff_ffff_ffff_ffff && chunks@[q]
                    <= 0xffff_ffff_ffff_ffff_ffff_ffff,
            p <= span,
            best < span,
            p > 0 ==> best < p && best_time == times[best as int],
            p == 0 ==> best == 0 && best_time == 0,
            forall|q: int| 0 <= q < p ==> #[trigger] times[q] <= best_time,
            forall|q: int| best < q < p ==> #[trigger] times[q] < best_time,
        decreases span - p,
    {
        let t = opens[p] * (ROW_OPEN_NS as u128) + chunks[p] * (NS_PER_CYCLE as u128);
        if t >= best_time {
            best_time = t;
            best = p;
        }
        p = p + 1;
    }
    proof {
        lemma_pos_total_bounded(ra, ones, layout, best as int, tensors_per_group as int, 1);
        lemma_pos_total_bounded(ra, cc, layout, best as int, tensors_per_group as int, cpr);
        lemma_pos_total_bounded(ra, full, layout, best as int, tensors_per_group as int, cpr);
        assert(is_busiest_pos(times, best as int));
        lemma_busiest_unique(times, best as int, choose|q: int| is_busiest_pos(times, q));
    }
    (opens[best], chunks[best], chunks_full[best])
}

// ── Results ──────────────────────────────────────────────────────

/// Accumulated busiest-unit totals for one named layout configuration:
/// raw row and chunk counts, and the resulting time in ns.
#[derive(Debug, Clone)]
pub struct LayoutTotals {
    pub name: String,
    /// UP: busiest logical bank's total page reads.
    pub up_rows: u64,
    /// UP: `up_rows` in ns (row open + full-page compute per row).
    pub up_time_ns: u64,
    /// DOWN: busiest position's row opens.
    pub down_rows: u64,
    /// DOWN: busiest position's computed chunks with sub-row skip.
    pub down_chunk_compute: u64,
    /// DOWN: the same position's computed chunks without sub-row skip.
    pub down_chunk_compute_full_row: u64,
    /// DOWN time with sub-row skip: opens * ROW_OPEN_NS + chunks * NS_PER_CYCLE.
    pub down_time_ns: u64,
    /// DOWN time without sub-row skip.
    pub down_time_ns_full_row: u64,
}

/// Result of [`run_layout_comparison`]: the hardware-forced naive
/// reference (UP: all banks of a channel lockstep to any active row in it;
/// DOWN: every row read and every chunk computed), the GPU weight traffic,
/// per-record oracle lower bounds, and every configuration's totals.
#[derive(Debug, Clone)]
pub struct LayoutComparisonResult {
    pub records: u64,
    pub naive_up_rows: u64,
    pub naive_up_time_ns: u64,
    pub naive_down_rows: u64,
    pub naive_down_time_ns: u64,
    /// FFN weight bytes a dense GPU kernel streams (both projections).
    pub gpu_dense_bytes: u64,
    /// Weight bytes an ideal sparse kernel streams (active neurons only).
    pub gpu_sparse_bytes: u64,
    /// UP oracle: each record's active neurons spread evenly over all banks.
    pub oracle_up_rows: u64,
    pub oracle_up_time_ns: u64,
    /// DOWN oracle: each bank's tensors with the active coefficients packed
    /// into the fewest row groups and chunks.
    pub oracle_down_rows: u64,
    pub oracle_down_chunks: u64,
    pub oracle_down_time_ns: u64,
    pub configs: Vec<LayoutTotals>,
    /// Per-(token, batch) FFN latency, one vector per configuration: the
    /// `up_time + down_time` of the token's records, tokens in order of
    /// first appearance.
    pub per_token_latency: Vec<Vec<u64>>,
}

/// Why a layout comparison produced no result.
#[derive(Debug, Clone, Copy, PartialEq, Eq, Structural)]
pub enum LayoutError {
    /// A running total does not fit in 64 bits.
    Overflow,
}

/// One named configuration: name, UP layout, UP calibration, DOWN layout,
/// DOWN calibration (`None` = naive `i % banks` / natural neuron order).
pub type LayoutConfig<'a> = (
    &'a str,
    SpanLayout,
    Option<&'a LayoutCalibration>,
    SpanLayout,
    Option<&'a LayoutCalibration>,
);

// ── Per-record cost ──────────────────────────────────────────────

/// One configuration's busiest-unit cost of one record.
pub struct ConfigCost {
    pub up_rows: int,
    pub up_time: int,
    pub down_rows: int,
    pub down_chunks: int,
    pub down_chunks_full: int,
    pub down_time: int,
    pub down_time_full: int,
}

/// Costs summed over records (or of a single record).
pub struct StreamCost {
    pub records: int,
    pub naive_up_rows: int,
    pub naive_down_rows: int,
    pub gpu_dense_bytes: int,
    pub gpu_sparse_bytes: int,
    pub oracle_up_rows: int,
    pub oracle_down_rows: int,
    pub oracle_down_chunks: int,
    pub configs: Seq<ConfigCost>,
}

/// DOWN row groups of a record with `n` neurons.
pub open spec fn row_groups(cfg: PimConfig, n: int) -> int {
    ceil_div(n, row_group_size(cfg))
}

/// Active chunk count of every row group of a record.
pub open spec fn group_chunks(cfg: PimConfig, s: Seq<usize>, slot_of: Option<Seq<usize>>, n: int) -> Seq<int> {
    let cpr = chunks_per_row_group(cfg);
    Seq::new(
        row_groups(cfg, n) as nat,
        |g: int| chunks_hit(s, slot_of, chunk_size(cfg), g * cpr, cpr) as int,
    )
}

/// Cost of `r` under configuration `c`.
pub open spec fn config_cost(r: Record, threshold: u32, cfg: PimConfig, c: LayoutConfig) -> ConfigCost {
    let s = active_positions(r.scores@, threshold);
    let up_count = up_busiest(s, calib_up_row(c.2, r.layer), cfg.banks as int, c.1.span as int);
    let up_rows = up_count * ceil_div(up_rows_per_bank(cfg), c.1.span as int);
    let cc = group_chunks(cfg, s, calib_down_row(c.4, r.layer), r.scores@.len() as int);
    let ra = Seq::new(cc.len(), |g: int| cc[g] > 0);
    let tpg = (cfg.activation_size * c.3.span) as int / cfg.banks as int;
    let d = down_busiest(ra, cc, chunks_per_row_group(cfg), tpg, c.3);
    ConfigCost {
        up_rows,
        up_time: up_rows * up_row_time(cfg),
        down_rows: d.0,
        down_chunks: d.1,
        down_chunks_full: d.2,
        down_time: d.0 * ROW_OPEN_NS + d.1 * NS_PER_CYCLE,
        down_time_full: d.0 * ROW_OPEN_NS + d.2 * NS_PER_CYCLE,
    }
}

/// Cost of one record: naive references, GPU traffic, oracles, and every
/// configuration's cost.
pub open spec fn record_cost(r: Record, threshold: u32, cfg: PimConfig, cfgs: Seq<LayoutConfig>) -> StreamCost {
    let s = active_positions(r.scores@, threshold);
    let a = s.len() as int;
    let n = r.scores@.len() as int;
    let tpb = cfg.activation_size as int / cfg.banks as int;
    let width = cfg.activation_size * cfg.weight_bits;
    StreamCost {
        records: 1,
        naive_up_rows: naive_rows(s, cfg) * up_rows_per_bank(cfg),
        naive_down_rows: row_groups(cfg, n) * tpb,
        gpu_dense_bytes: 2 * ceil_div(n * width, 8),
        gpu_sparse_bytes: 2 * ceil_div(a * width, 8),
        oracle_up_rows: ceil_div(a, cfg.banks as int) * up_rows_per_bank(cfg),
        oracle_down_rows: (if ceil_div(a, row_group_size(cfg)) < 1 && a > 0 {
            1
        } else {
            ceil_div(a, row_group_size(cfg))
        }) * tpb,
        oracle_down_chunks: ceil_div(a, chunk_size(cfg)) * tpb,
        configs: Seq::new(cfgs.len(), |i: int| config_cost(r, threshold, cfg, cfgs[i])),
    }
}

/// Field-wise sum of two configuration costs.
pub open spec fn add_config_cost(x: ConfigCost, y: ConfigCost) -> ConfigCost {
    ConfigCost {
        up_rows: x.up_rows + y.up_rows,
        up_time: x.up_time + y.up_time,
        down_rows: x.down_rows + y.down_rows,
        down_chunks: x.down_chunks + y.down_chunks,
        down_chunks_full: x.down_chunks_full + y.down_chunks_full,
        down_time: x.down_time + y.down_time,
        down_time_full: x.down_time_full + y.down_time_full,
    }
}

/// Field-wise sum of two costs.
pub open spec fn add_cost(x: StreamCost, y: StreamCost) -> StreamCost {
    StreamCost {
        records: x.records + y.records,
        naive_up_rows: x.naive_up_rows + y.naive_up_rows,
        naive_down_rows: x.naive_down_rows + y.naive_down_rows,
        gpu_dense_bytes: x.gpu_dense_bytes + y.gpu_dense_bytes,
        gpu_sparse_bytes: x.gpu_sparse_bytes + y.gpu_sparse_bytes,
        oracle_up_rows: x.oracle_up_rows + y.oracle_up_rows,
        oracle_down_rows: x.oracle_down_rows + y.oracle_down_rows,
        oracle_down_chunks: x.oracle_down_chunks + y.oracle_down_chunks,
        configs: Seq::new(x.configs.len(), |i: int| add_config_cost(x.configs[i], y.configs[i])),
    }
}

/// The cost of no record.
pub open spec fn zero_cost(n_configs: int) -> StreamCost {
    StreamCost {
        records: 0,
        naive_up_rows: 0,
        naive_down_rows: 0,
        gpu_dense_bytes: 0,
        gpu_sparse_bytes: 0,
        oracle_up_rows: 0,
        oracle_down_rows: 0,
        oracle_down_chunks: 0,
        configs: Seq::new(
            n_configs as nat,
            |i: int|
                ConfigCost {
                    up_rows: 0,
                    up_time: 0,
                    down_rows: 0,
                    down_chunks: 0,
                    down_chunks_full: 0,
                    down_time: 0,
                    down_time_full: 0,
                },
        ),
    }
}

/// The summed cost of a record stream.
pub open spec fn stream_cost(records: Seq<Record>, threshold: u32, cfg: PimConfig, cfgs: Seq<LayoutConfig>) -> StreamCost
    decreases records.len(),
{
    if records.len() == 0 {
        zero_cost(cfgs.len() as int)
    } else {
        add_cost(
            stream_cost(records.drop_last(), threshold, cfg, cfgs),
            record_cost(records.last(), threshold, cfg, cfgs),
        )
    }
}

/// Configurations the model can cost: every span between 1 and the bank
/// count. A span counts physical banks of the array striped together, so a
/// span wider than the array would name banks it does not have; the bound
/// also keeps the per-position arithmetic within its limits.
pub open spec fn layouts_ok(cfgs: Seq<LayoutConfig>, banks: int) -> bool {
    forall|i: int|
        0 <= i < cfgs.len() ==> 1 <= (#[trigger] cfgs[i]).1.span <= banks && 1 <= cfgs[i].3.span
            <= banks
}

/// Whether every configuration's spans lie between 1 and `banks` (see
/// [`layouts_ok`]).
pub fn layouts_supported(configs: &[LayoutConfig], banks: u64) -> (ok: bool)
    ensures
        ok == layouts_ok(configs@, banks as int),
{
    let mut i: usize = 0;
    while i < configs.len()
        invariant
            i <= configs@.len(),
            forall|j: int|
                0 <= j < i ==> 1 <= (#[trigger] configs@[j]).1.span <= banks && 1 <= configs@[j].3.span
                    <= banks,
        decreases configs@.len() - i,
    {
        let c = &configs[i];
        if !(1 <= c.1.span && c.1.span as u64 <= banks && 1 <= c.3.span && c.3.span as u64 <= banks) {
            assert(!(1 <= configs@[i as int].1.span <= banks && 1 <= configs@[i as int].3.span <= banks));
            return false;
        }
        i = i + 1;
    }
    true
}

/// A configuration's per-record cost, computed.
struct ConfigStep {
    up_rows: u128,
    up_time: u128,
    opens: u128,
    chunks: u128,
    chunks_full: u128,
    down_time: u128,
    down_time_full: u128,
}

spec fn step_is(st: ConfigStep, c: ConfigCost) -> bool {
    &&& st.up_rows == c.up_rows
    &&& st.up_time == c.up_time
    &&& st.opens == c.down_rows
    &&& st.chunks == c.down_chunks
    &&& st.chunks_full == c.down_chunks_full
    &&& st.down_time == c.down_time
    &&& st.down_time_full == c.down_time_full
}

/// The record-independent geometry of a run.
struct Geometry {
    banks: usize,
    up_rows_per_bank: u64,
    up_row_time_ns: u64,
    chunk_size: usize,
    chunks_per_row_group: usize,
    row_group_size: u64,
}

spec fn geometry_of(g: Geometry, cfg: PimConfig) -> bool {
    &&& g.banks == cfg.banks
    &&& g.up_rows_per_bank == up_rows_per_bank(cfg)
    &&& g.up_row_time_ns == up_row_time(cfg)
    &&& g.chunk_size == chunk_size(cfg)
    &&& g.chunks_per_row_group == chunks_per_row_group(cfg)
    &&& g.row_group_size == row_group_size(cfg)
    &&& 1 <= g.chunk_size <= 128
    &&& 1 <= g.chunks_per_row_group <= u32::MAX
    &&& g.up_row_time_ns <= u32::MAX
    &&& g.up_rows_per_bank <= u64::MAX
    &&& g.row_group_size == g.chunk_size * g.chunks_per_row_group
}

fn geometry(cfg: &PimConfig) -> (g: Geometry)
    requires
        layout_cfg_ok(*cfg),
    ensures
        geometry_of(g, *cfg),
{
    proof {
        assert(cfg.activation_size * cfg.weight_bits < u64::MAX) by (nonlinear_arith)
            requires
                cfg.activation_size <= 0xffff_ffff,
                cfg.weight_bits <= 0xffff_ffff,
        ;
    }
    let width = cfg.activation_size * cfg.weight_bits;
    let page_bits = 8 * cfg.page_size;
    proof {
        assert(width / page_bits <= width) by (nonlinear_arith)
            requires
                page_bits >= 1,
                width >= 0,
        ;
    }
    let up_rows_per_bank = width / page_bits + if width % page_bits != 0 {
        1
    } else {
        0
    };
    let up_row_time_ns = ROW_OPEN_NS + page_compute_ns(cfg.page_size);
    let q = (BYTES_PER_CYCLE * 8) / cfg.weight_bits;
    let chunk_size: usize = if q < 1 {
        1
    } else {
        q as usize
    };
    let chunks_per_row_group = (cfg.page_size / BYTES_PER_CYCLE) as usize;
    proof {
        assert(chunks_per_row_group * chunk_size <= 128 * 0xffff_ffffint) by (nonlinear_arith)
            requires
                1 <= chunk_size <= 128,
                chunks_per_row_group <= 0xffff_ffff,
        ;
    }
    let row_group_size = chunk_size as u64 * chunks_per_row_group as u64;
    Geometry {
        banks: cfg.banks as usize,
        up_rows_per_bank,
        up_row_time_ns,
        chunk_size,
        chunks_per_row_group,
        row_group_size,
    }
}

fn ceil_div_u128(a: u128, b: u128) -> (c: u128)
    requires
        b >= 1,
    ensures
        c == ceil_div(a as int, b as int),
        c <= a,
{
    proof {
        assert(a / b <= a) by (nonlinear_arith)
            requires
                b >= 1,
        ;
        if a % b != 0 {
            assert(a / b < a) by (nonlinear_arith)
                requires
                    b >= 1,
                    a % b != 0,
            ;
        }
    }
    a / b + if a % b != 0 {
        1
    } else {
        0
    }
}

/// The DOWN clustering row of a layer, borrowed from an optional calibration.
fn down_row<'a>(calib: Option<&'a LayoutCalibration>, layer: i32) -> (t: Option<&'a Vec<usize>>)
    ensures
        opt_seq(t) == calib_down_row(calib, layer),
{
    match calib {
        Some(c) => c.down_slot_of.get(&layer),
        None => None,
    }
}

/// Cost of one record under one configuration.
fn config_step(
    indices: &Vec<usize>,
    record: &Record,
    threshold: u32,
    cfg: &PimConfig,
    g: &Geometry,
    c: &LayoutConfig,
) -> (st: ConfigStep)
    requires
        layout_cfg_ok(*cfg),
        geometry_of(*g, *cfg),
        indices@ == active_positions(record.scores@, threshold),
        record.scores@.len() <= i32::MAX,
        1 <= c.1.span <= cfg.banks,
        1 <= c.3.span <= cfg.banks,
    ensures
        step_is(st, config_cost(*record, threshold, *cfg, *c)),
        st.up_rows <= u64::MAX * 0xffff_ffffint,
        st.up_time <= u64::MAX * 0xffff_ffffint * 0xffff_ffffint,
        st.opens <= 0xffff_ffff * 0xffff_ffffint,
        st.chunks <= 0xffff_ffff * 0xffff_ffff * 0xffff_ffffint,
        st.chunks_full <= 0xffff_ffff * 0xffff_ffff * 0xffff_ffffint,
{
    proof {
        lemma_active_positions(record.scores@, threshold);
    }
    let ghost cost = config_cost(*record, threshold, *cfg, *c);
    // UP
    let up_span = c.1.span;
    let up_count = up_busiest_count(indices.as_slice(), record.layer, g.banks, c.1, c.2);
    let rpn = ceil_div_u128(g.up_rows_per_bank as u128, up_span as u128);
    proof {
        assert(up_count as int * rpn as int <= 0xffff_ffff * u64::MAX) by (nonlinear_arith)
            requires
                up_count <= 0xffff_ffff,
                rpn <= u64::MAX,
        ;
        assert(up_count as int * rpn as int * g.up_row_time_ns as int <= u64::MAX * 0xffff_ffffint
            * 0xffff_ffffint) by (nonlinear_arith)
            requires
                up_count as int * rpn as int <= 0xffff_ffff * u64::MAX,
                g.up_row_time_ns <= 0xffff_ffff,
        ;
    }
    let up_rows: u128 = up_count as u128 * rpn;
    let up_time: u128 = up_rows * g.up_row_time_ns as u128;
    // DOWN
    let n = record.scores.len();
    proof {
        assert(g.row_group_size >= 1) by (nonlinear_arith)
            requires
                g.row_group_size == g.chunk_size * g.chunks_per_row_group,
                g.chunk_size >= 1,
                g.chunks_per_row_group >= 1,
        ;
    }
    let nrg128 = ceil_div_u128(n as u128, g.row_group_size as u128);
    let nrg = nrg128 as usize;
    proof {
        assert(nrg as int * g.chunks_per_row_group as int <= n + g.chunks_per_row_group) by (
        nonlinear_arith)
            requires
                nrg == ceil_div(n as int, g.row_group_size as int),
                g.row_group_size == g.chunk_size * g.chunks_per_row_group,
                g.chunk_size >= 1,
                g.chunks_per_row_group >= 1,
                n >= 0,
        {
            let rgs = g.row_group_size as int;
            let q = n as int / rgs;
            assert(q * rgs <= n);
            assert(nrg <= q + 1);
            assert(nrg * g.chunks_per_row_group <= (q + 1) * g.chunks_per_row_group);
            assert(q * g.chunks_per_row_group <= q * rgs);
        }
    }
    let slot_of = down_row(c.4, record.layer);
    let (ra, cc) = down_activity(indices.as_slice(), g.chunk_size, g.chunks_per_row_group, nrg, slot_of);
    let ghost cpr = g.chunks_per_row_group as int;
    proof {
        assert(counts_seq(cc@) =~= group_chunks(
            *cfg,
            indices@,
            calib_down_row(c.4, record.layer),
            n as int,
        ));
        assert(ra@ =~= Seq::new(
            counts_seq(cc@).len(),
            |h: int| counts_seq(cc@)[h] > 0,
        ));
        assert(cfg.activation_size * c.3.span <= cfg.activation_size * cfg.banks) by (nonlinear_arith)
            requires
                c.3.span <= cfg.banks,
        ;
        assert(cfg.activation_size * cfg.banks < u64::MAX) by (nonlinear_arith)
            requires
                cfg.activation_size <= 0xffff_ffff,
                cfg.banks <= 0xffff_ffff,
        ;
        assert((cfg.activation_size * c.3.span) / cfg.banks as int <= cfg.activation_size) by (
        nonlinear_arith)
            requires
                cfg.activation_size * c.3.span <= cfg.activation_size * cfg.banks,
                cfg.banks >= 1,
        {
            assert((cfg.activation_size * cfg.banks) / cfg.banks as int == cfg.activation_size);
        }
    }
    let tpg = ((cfg.activation_size * c.3.span as u64) / cfg.banks) as usize;
    let (opens, chunks, chunks_full) = down_busiest_position(&ra, &cc, g.chunks_per_row_group, tpg, c.3);
    proof {
        assert(opens <= 0xffff_ffff * 0xffff_ffffint) by (nonlinear_arith)
            requires
                opens <= tpg as int * ra@.len(),
                tpg <= 0xffff_ffff,
                ra@.len() <= 0xffff_ffff,
        ;
        assert(tpg as int * (ra@.len() * cpr) <= 0xffff_ffff * 0xffff_ffff * 0xffff_ffffint) by (
        nonlinear_arith)
            requires
                tpg <= 0xffff_ffff,
                ra@.len() <= 0xffff_ffff,
                0 <= cpr <= 0xffff_ffff,
        ;
    }
    ConfigStep {
        up_rows,
        up_time,
        opens,
        chunks,
        chunks_full,
        down_time: opens * (ROW_OPEN_NS as u128) + chunks * (NS_PER_CYCLE as u128),
        down_time_full: opens * (ROW_OPEN_NS as u128) + chunks_full * (NS_PER_CYCLE as u128),
    }
}

/// A record's cost, computed.
struct RecordStep {
    naive_up_rows: u128,
    naive_down_rows: u128,
    gpu_dense_bytes: u128,
    gpu_sparse_bytes: u128,
    oracle_up_rows: u128,
    oracle_down_rows: u128,
    oracle_down_chunks: u128,
    configs: Vec<ConfigStep>,
}

spec fn record_step_is(st: RecordStep, c: StreamCost) -> bool {
    &&& c.records == 1
    &&& st.naive_up_rows == c.naive_up_rows
    &&& st.naive_down_rows == c.naive_down_rows
    &&& st.gpu_dense_bytes == c.gpu_dense_bytes
    &&& st.gpu_sparse_bytes == c.gpu_sparse_bytes
    &&& st.oracle_up_rows == c.oracle_up_rows
    &&& st.oracle_down_rows == c.oracle_down_rows
    &&& st.oracle_down_chunks == c.oracle_down_chunks
    &&& st.configs@.len() == c.configs.len()
    &&& forall|i: int| 0 <= i < st.configs@.len() ==> step_is(#[trigger] st.configs@[i], c.configs[i])
}

/// Cost of one record under every configuration.
fn record_step(record: &Record, threshold: u32, cfg: &PimConfig, g: &Geometry, configs: &[LayoutConfig]) -> (st:
    RecordStep)
    requires
        layout_cfg_ok(*cfg),
        geometry_of(*g, *cfg),
        record.scores@.len() <= i32::MAX,
        layouts_ok(configs@, cfg.banks as int),
    ensures
        record_step_is(st, record_cost(*record, threshold, *cfg, configs@)),
{
    let ghost cost = record_cost(*record, threshold, *cfg, configs@);
    let indices = record.active_indices(threshold);
    proof {
        lemma_active_positions(record.scores@, threshold);
    }
    let n = record.scores.len();
    let a = indices.len();
    let nr = naive_channel_rows(indices.as_slice(), cfg);
    let urpb = g.up_rows_per_bank as u128;
    proof {
        assert(nr as int * urpb <= 0xffff_ffff * u64::MAX) by (nonlinear_arith)
            requires
                nr <= 0xffff_ffff,
                urpb <= u64::MAX,
        ;
        assert(g.row_group_size >= 1) by (nonlinear_arith)
            requires
                g.row_group_size == g.chunk_size * g.chunks_per_row_group,
                g.chunk_size >= 1,
                g.chunks_per_row_group >= 1,
        ;
        assert(cfg.activation_size * cfg.weight_bits < u64::MAX) by (nonlinear_arith)
            requires
                cfg.activation_size <= 0xffff_ffff,
                cfg.weight_bits <= 0xffff_ffff,
        ;
    }
    let naive_up_rows = nr as u128 * urpb;
    let nrg = ceil_div_u128(n as u128, g.row_group_size as u128);
    let tpb = (cfg.activation_size / cfg.banks) as u128;
    let width = (cfg.activation_size * cfg.weight_bits) as u128;
    proof {
        assert(nrg * tpb <= 0xffff_ffff * 0xffff_ffffint) by (nonlinear_arith)
            requires
                nrg <= 0xffff_ffff,
                tpb <= 0xffff_ffff,
        ;
        assert(n as int * width <= 0xffff_ffff * u64::MAX) by (nonlinear_arith)
            requires
                n <= 0xffff_ffff,
                width <= u64::MAX,
        ;
        assert(a as int * width <= 0xffff_ffff * u64::MAX) by (nonlinear_arith)
            requires
                a <= 0xffff_ffff,
                width <= u64::MAX,
        ;
    }
    let naive_down_rows = nrg * tpb;
    let gpu_dense_bytes = 2 * ceil_div_u128(n as u128 * width, 8);
    let gpu_sparse_bytes = 2 * ceil_div_u128(a as u128 * width, 8);
    let per_bank = ceil_div_u128(a as u128, g.banks as u128);
    proof {
        assert(per_bank * urpb <= 0xffff_ffff * u64::MAX) by (nonlinear_arith)
            requires
                per_bank <= 0xffff_ffff,
                urpb <= u64::MAX,
        ;
    }
    let oracle_up_rows = per_bank * urpb;
    let groups = ceil_div_u128(a as u128, g.row_group_size as u128);
    let groups_min: u128 = if groups < 1 && a > 0 {
        1
    } else {
        groups
    };
    let chunk_total = ceil_div_u128(a as u128, g.chunk_size as u128);
    proof {
        assert(groups_min * tpb <= 0xffff_ffff * 0xffff_ffffint) by (nonlinear_arith)
            requires
                groups_min <= 0xffff_ffff,
                tpb <= 0xffff_ffff,
        ;
        assert(chunk_total * tpb <= 0xffff_ffff * 0xffff_ffffint) by (nonlinear_arith)
            requires
                chunk_total <= 0xffff_ffff,
                tpb <= 0xffff_ffff,
        ;
    }
    let oracle_down_rows = groups_min * tpb;
    let oracle_down_chunks = chunk_total * tpb;
    let mut steps: Vec<ConfigStep> = Vec::new();
    let mut i: usize = 0;
    while i < configs.len()
        invariant
            layout_cfg_ok(*cfg),
            geometry_of(*g, *cfg),
            record.scores@.len() <= i32::MAX,
            layouts_ok(configs@, cfg.banks as int),
            indices@ == active_positions(record.scores@, threshold),
            cost == record_cost(*record, threshold, *cfg, configs@),
            i <= configs@.len(),
            steps@.len() == i,
            forall|j: int| 0 <= j < i ==> step_is(#[trigger] steps@[j], cost.configs[j]),
        decreases configs@.len() - i,
    {
        assert(1 <= configs@[i as int].1.span <= cfg.banks);
        let st = config_step(&indices, record, threshold, cfg, g, &configs[i]);
        steps.push(st);
        i = i + 1;
    }
    RecordStep {
        naive_up_rows,
        naive_down_rows,
        gpu_dense_bytes,
        gpu_sparse_bytes,
        oracle_up_rows,
        oracle_down_rows,
        oracle_down_chunks,
        configs: steps,
    }
}

// ── Accumulation ─────────────────────────────────────────────────

/// Every total of a cost fits in 64 bits.
pub open spec fn cost_fits(c: StreamCost) -> bool {
    &&& c.records <= u64::MAX
    &&& c.naive_up_rows <= u64::MAX
    &&& c.naive_down_rows <= u64::MAX
    &&& c.gpu_dense_bytes <= u64::MAX
    &&& c.gpu_sparse_bytes <= u64::MAX
    &&& c.oracle_up_rows <= u64::MAX
    &&& c.oracle_down_rows <= u64::MAX
    &&& c.oracle_down_chunks <= u64::MAX
    &&& forall|i: int| 0 <= i < c.configs.len() ==> config_fits(#[trigger] c.configs[i])
}

/// Every total of a configuration's cost fits in 64 bits.
pub open spec fn config_fits(c: ConfigCost) -> bool {
    &&& c.up_rows <= u64::MAX
    &&& c.up_time <= u64::MAX
    &&& c.down_rows <= u64::MAX
    &&& c.down_chunks <= u64::MAX
    &&& c.down_chunks_full <= u64::MAX
    &&& c.down_time <= u64::MAX
    &&& c.down_time_full <= u64::MAX
}

/// The totals of `t` are those of `c`.
pub open spec fn totals_are(t: LayoutTotals, c: ConfigCost) -> bool {
    &&& t.up_rows == c.up_rows
    &&& t.up_time_ns == c.up_time
    &&& t.down_rows == c.down_rows
    &&& t.down_chunk_compute == c.down_chunks
    &&& t.down_chunk_compute_full_row == c.down_chunks_full
    &&& t.down_time_ns == c.down_time
    &&& t.down_time_ns_full_row == c.down_time_full
}

/// The accumulated totals of `r` are those of `c`.
pub open spec fn result_is(r: LayoutComparisonResult, c: StreamCost) -> bool {
    &&& r.records == c.records
    &&& r.naive_up_rows == c.naive_up_rows
    &&& r.naive_down_rows == c.naive_down_rows
    &&& r.gpu_dense_bytes == c.gpu_dense_bytes
    &&& r.gpu_sparse_bytes == c.gpu_sparse_bytes
    &&& r.oracle_up_rows == c.oracle_up_rows
    &&& r.oracle_down_rows == c.oracle_down_rows
    &&& r.oracle_down_chunks == c.oracle_down_chunks
    &&& r.configs@.len() == c.configs.len()
    &&& forall|i: int| 0 <= i < r.configs@.len() ==> totals_are(#[trigger] r.configs@[i], c.configs[i])
}
/// `acc + d`, unless it does not fit in 64 bits.
fn add_checked(acc: u64, d: u128) -> (r: Option<u64>)
    ensures
        match r {
            Some(v) => v == acc + d && acc + d <= u64::MAX,
            None => acc + d > u64::MAX,
        },
{
    if d > (u64::MAX - acc) as u128 {
        None
    } else {
        Some(acc + d as u64)
    }
}

/// Add one configuration's record cost to its totals; false (totals
/// unspecified) when a total would not fit in 64 bits.
fn add_config_step(t: &mut LayoutTotals, st: &ConfigStep) -> (ok: bool)
    ensures
        final(t).name == old(t).name,
        ok ==> totals_are(*final(t), add_config_cost(totals_cost(*old(t)), step_config_cost(*st))),
        !ok ==> !config_fits(add_config_cost(totals_cost(*old(t)), step_config_cost(*st))),
{
    match add_checked(t.up_rows, st.up_rows) {
        Some(v) => t.up_rows = v,
        None => return false,
    }
    match add_checked(t.up_time_ns, st.up_time) {
        Some(v) => t.up_time_ns = v,
        None => return false,
    }
    match add_checked(t.down_rows, st.opens) {
        Some(v) => t.down_rows = v,
        None => return false,
    }
    match add_checked(t.down_chunk_compute, st.chunks) {
        Some(v) => t.down_chunk_compute = v,
        None => return false,
    }
    match add_checked(t.down_chunk_compute_full_row, st.chunks_full) {
        Some(v) => t.down_chunk_compute_full_row = v,
        None => return false,
    }
    match add_checked(t.down_time_ns, st.down_time) {
        Some(v) => t.down_time_ns = v,
        None => return false,
    }
    match add_checked(t.down_time_ns_full_row, st.down_time_full) {
        Some(v) => t.down_time_ns_full_row = v,
        None => return false,
    }
    true
}

/// A configuration's totals as a cost.
pub open spec fn totals_cost(t: LayoutTotals) -> ConfigCost {
    ConfigCost {
        up_rows: t.up_rows as int,
        up_time: t.up_time_ns as int,
        down_rows: t.down_rows as int,
        down_chunks: t.down_chunk_compute as int,
        down_chunks_full: t.down_chunk_compute_full_row as int,
        down_time: t.down_time_ns as int,
        down_time_full: t.down_time_ns_full_row as int,
    }
}

spec fn step_config_cost(c: ConfigStep) -> ConfigCost {
    ConfigCost {
        up_rows: c.up_rows as int,
        up_time: c.up_time as int,
        down_rows: c.opens as int,
        down_chunks: c.chunks as int,
        down_chunks_full: c.chunks_full as int,
        down_time: c.down_time as int,
        down_time_full: c.down_time_full as int,
    }
}

/// Add one record's cost to the running totals; false when a total would
/// not fit in 64 bits.
fn accumulate(
    res: &mut LayoutComparisonResult,
    st: &RecordStep,
    Ghost(sc): Ghost<StreamCost>,
    Ghost(dc): Ghost<StreamCost>,
) -> (ok: bool)
    requires
        result_is(*old(res), sc),
        record_step_is(*st, dc),
        sc.configs.len() == dc.configs.len(),
    ensures
        final(res).configs@.len() == old(res).configs@.len(),
        forall|i: int|
            0 <= i < final(res).configs@.len() ==> (#[trigger] final(res).configs@[i]).name@ == old(
                res,
            ).configs@[i].name@,
        final(res).per_token_latency == old(res).per_token_latency,
        ok ==> result_is(*final(res), add_cost(sc, dc)),
        !ok ==> !cost_fits(add_cost(sc, dc)),
{
    let ghost total = add_cost(sc, dc);
    match add_checked(res.records, 1) {
        Some(v) => res.records = v,
        None => return false,
    }
    match add_checked(res.naive_up_rows, st.naive_up_rows) {
        Some(v) => res.naive_up_rows = v,
        None => return false,
    }
    match add_checked(res.naive_down_rows, st.naive_down_rows) {
        Some(v) => res.naive_down_rows = v,
        None => return false,
    }
    match add_checked(res.gpu_dense_bytes, st.gpu_dense_bytes) {
        Some(v) => res.gpu_dense_bytes = v,
        None => return false,
    }
    match add_checked(res.gpu_sparse_bytes, st.gpu_sparse_bytes) {
        Some(v) => res.gpu_sparse_bytes = v,
        None => return false,
    }
    match add_checked(res.oracle_up_rows, st.oracle_up_rows) {
        Some(v) => res.oracle_up_rows = v,
        None => return false,
    }
    match add_checked(res.oracle_down_rows, st.oracle_down_rows) {
        Some(v) => res.oracle_down_rows = v,
        None => return false,
    }
    match add_checked(res.oracle_down_chunks, st.oracle_down_chunks) {
        Some(v) => res.oracle_down_chunks = v,
        None => return false,
    }
    let n = res.configs.len();
    let mut i: usize = 0;
    while i < n
        invariant
            n == res.configs@.len(),
            n == old(res).configs@.len(),
            n == sc.configs.len(),
            n == dc.configs.len(),
            record_step_is(*st, dc),
            result_is(*old(res), sc),
            total == add_cost(sc, dc),
            i <= n,
            res.per_token_latency == old(res).per_token_latency,
            res.records == total.records,
            res.naive_up_rows == total.naive_up_rows,
            res.naive_down_rows == total.naive_down_rows,
            res.gpu_dense_bytes == total.gpu_dense_bytes,
            res.gpu_sparse_bytes == total.gpu_sparse_bytes,
            res.oracle_up_rows == total.oracle_up_rows,
            res.oracle_down_rows == total.oracle_down_rows,
            res.oracle_down_chunks == total.oracle_down_chunks,
            forall|j: int| 0 <= j < n ==> (#[trigger] res.configs@[j]).name@ == old(res).configs@[j].name@,
            forall|j: int| 0 <= j < i ==> totals_are(#[trigger] res.configs@[j], total.configs[j]),
            forall|j: int| i <= j < n ==> #[trigger] res.configs@[j] == old(res).configs@[j],
        decreases n - i,
    {
        let cur = &res.configs[i];
        let mut t = LayoutTotals {
            name: cur.name.clone(),
            up_rows: cur.up_rows,
            up_time_ns: cur.up_time_ns,
            down_rows: cur.down_rows,
            down_chunk_compute: cur.down_chunk_compute,
            down_chunk_compute_full_row: cur.down_chunk_compute_full_row,
            down_time_ns: cur.down_time_ns,
            down_time_ns_full_row: cur.down_time_ns_full_row,
        };
        assert(totals_cost(t) == sc.configs[i as int]);
        assert(step_config_cost(st.configs@[i as int]) == dc.configs[i as int]);
        let ok = add_config_step(&mut t, &st.configs[i]);
        if !ok {
            assert(!config_fits(total.configs[i as int]));
            return false;
        }
        res.configs.set(i, t);
        i = i + 1;
    }
    true
}

// ── Per-token latency ────────────────────────────────────────────

/// The `(token, batch)` a record belongs to.
pub open spec fn token_of(r: Record) -> (i32, i32) {
    (r.token, r.batch)
}

/// The tokens of a stream, in order of first appearance.
pub open spec fn token_order(records: Seq<Record>) -> Seq<(i32, i32)> {
    dedup(records.map_values(|r: Record| token_of(r)))
}

/// FFN latency of token `key` under configuration `c`: the UP plus DOWN
/// time of all its records.
pub open spec fn token_latency(
    records: Seq<Record>,
    threshold: u32,
    cfg: PimConfig,
    cfgs: Seq<LayoutConfig>,
    key: (i32, i32),
    c: int,
) -> int
    decreases records.len(),
{
    if records.len() == 0 {
        0
    } else {
        token_latency(records.drop_last(), threshold, cfg, cfgs, key, c) + if token_of(records.last())
            == key {
            let cc = config_cost(records.last(), threshold, cfg, cfgs[c]);
            cc.up_time + cc.down_time
        } else {
            0
        }
    }
}

/// A 64-bit key that identifies a `(token, batch)` pair.
spec fn token_key(key: (i32, i32)) -> int {
    key.0 as int * 0x1_0000_0000 + (key.1 as int + 0x8000_0000)
}

proof fn lemma_token_key(a: (i32, i32), b: (i32, i32))
    ensures
        i64::MIN <= token_key(a) <= i64::MAX,
        token_key(a) == token_key(b) ==> a == b,
{
    assert(i64::MIN <= token_key(a) <= i64::MAX) by (nonlinear_arith)
        requires
            i32::MIN <= a.0 <= i32::MAX,
            i32::MIN <= a.1 <= i32::MAX,
            token_key(a) == a.0 as int * 0x1_0000_0000 + (a.1 as int + 0x8000_0000),
    ;
    if token_key(a) == token_key(b) {
        assert(a.0 == b.0) by (nonlinear_arith)
            requires
                i32::MIN <= a.1 <= i32::MAX,
                i32::MIN <= b.1 <= i32::MAX,
                a.0 as int * 0x1_0000_0000 + (a.1 as int + 0x8000_0000) == b.0 as int * 0x1_0000_0000
                    + (b.1 as int + 0x8000_0000),
        ;
    }
}

fn token_key_of(token: i32, batch: i32) -> (k: i64)
    ensures
        k == token_key((token, batch)),
{
    proof {
        lemma_token_key((token, batch), (token, batch));
        assert(i64::MIN <= token as int * 0x1_0000_0000 <= i64::MAX) by (nonlinear_arith)
            requires
                i32::MIN <= token <= i32::MAX,
        ;
    }
    token as i64 * 0x1_0000_0000 + (batch as i64 + 0x8000_0000)
}

/// Per-token latency sums, tokens in order of first appearance.
struct TokenLatency {
    keys: Vec<(i32, i32)>,
    index: HashMap<i64, usize>,
    sums: Vec<Vec<u64>>,
}

spec fn token_wf(t: TokenLatency, nc: int) -> bool {
    &&& t.sums@.len() == t.keys@.len()
    &&& forall|p: int| 0 <= p < t.keys@.len() ==> (#[trigger] t.sums@[p])@.len() == nc
    &&& forall|p: int|
        0 <= p < t.keys@.len() ==> t.index@.contains_key(token_key(#[trigger] t.keys@[p]) as i64)
            && t.index@[token_key(t.keys@[p]) as i64] == p
    &&& forall|kk: i64|
        #[trigger] t.index@.contains_key(kk) ==> t.index@[kk] < t.keys@.len() && token_key(
            t.keys@[t.index@[kk] as int],
        ) == kk
}

spec fn token_state_is(
    t: TokenLatency,
    records: Seq<Record>,
    threshold: u32,
    cfg: PimConfig,
    cfgs: Seq<LayoutConfig>,
) -> bool {
    &&& t.keys@ == token_order(records)
    &&& forall|p: int, c: int|
        #![trigger t.sums@[p]@[c]]
        0 <= p < t.keys@.len() && 0 <= c < cfgs.len() ==> t.sums@[p]@[c] == token_latency(
            records,
            threshold,
            cfg,
            cfgs,
            t.keys@[p],
            c,
        )
}

proof fn lemma_token_latency_push(
    records: Seq<Record>,
    r: Record,
    threshold: u32,
    cfg: PimConfig,
    cfgs: Seq<LayoutConfig>,
    key: (i32, i32),
    c: int,
)
    ensures
        token_latency(records.push(r), threshold, cfg, cfgs, key, c) == token_latency(
            records,
            threshold,
            cfg,
            cfgs,
            key,
            c,
        ) + if token_of(r) == key {
            config_cost(r, threshold, cfg, cfgs[c]).up_time + config_cost(
                r,
                threshold,
                cfg,
                cfgs[c],
            ).down_time
        } else {
            0
        },
{
    assert(records.push(r).drop_last() =~= records);
}

proof fn lemma_token_order_push(records: Seq<Record>, r: Record)
    ensures
        token_order(records.push(r)) == if token_order(records).contains(token_of(r)) {
            token_order(records)
        } else {
            token_order(records).push(token_of(r))
        },
        forall|key: (i32, i32)|
            token_order(records).contains(key) <==> records.map_values(|x: Record| token_of(x)).contains(
                key,
            ),
{
    let m = records.map_values(|x: Record| token_of(x));
    assert(records.push(r).map_values(|x: Record| token_of(x)) =~= m.push(token_of(r)));
    crate::pim::simulate::lemma_dedup_push(m, token_of(r));
    crate::pim::simulate::lemma_dedup(m);
}

proof fn lemma_token_latency_absent(
    records: Seq<Record>,
    threshold: u32,
    cfg: PimConfig,
    cfgs: Seq<LayoutConfig>,
    key: (i32, i32),
    c: int,
)
    requires
        !token_order(records).contains(key),
    ensures
        token_latency(records, threshold, cfg, cfgs, key, c) == 0,
    decreases records.len(),
{
    lemma_token_order_push(records, records[0]);
    if records.len() > 0 {
        let m = records.map_values(|x: Record| token_of(x));
        let p = records.drop_last();
        assert(p.map_values(|x: Record| token_of(x)) =~= m.drop_last());
        lemma_token_order_push(p, records.last());
        if token_order(p).contains(key) {
            let mp = p.map_values(|x: Record| token_of(x));
            let j = choose|j: int| 0 <= j < mp.len() && mp[j] == key;
            assert(m[j] == key);
        }
        lemma_token_latency_absent(p, threshold, cfg, cfgs, key, c);
        assert(m[m.len() - 1] == token_of(records.last()));
    }
}

/// Add one record's per-configuration latency to its token's sums; false
/// when a sum would not fit in 64 bits.
fn token_add(
    t: &mut TokenLatency,
    r: &Record,
    deltas: &Vec<u128>,
    Ghost(records): Ghost<Seq<Record>>,
    Ghost(threshold): Ghost<u32>,
    Ghost(cfg): Ghost<PimConfig>,
    Ghost(cfgs): Ghost<Seq<LayoutConfig>>,
) -> (ok: bool)
    requires
        token_wf(*old(t), cfgs.len() as int),
        token_state_is(*old(t), records, threshold, cfg, cfgs),
        deltas@.len() == cfgs.len(),
        forall|c: int|
            0 <= c < cfgs.len() ==> #[trigger] deltas@[c] == config_cost(*r, threshold, cfg, cfgs[c]).up_time
                + config_cost(*r, threshold, cfg, cfgs[c]).down_time,
    ensures
        ok ==> token_wf(*final(t), cfgs.len() as int) && token_state_is(
            *final(t),
            records.push(*r),
            threshold,
            cfg,
            cfgs,
        ),
        !ok ==> exists|c: int|
            0 <= c < cfgs.len() && #[trigger] token_latency(
                records.push(*r),
                threshold,
                cfg,
                cfgs,
                token_of(*r),
                c,
            ) > u64::MAX,
{
    let ghost nc = cfgs.len() as int;
    let ghost tok = token_of(*r);
    let ghost post = records.push(*r);
    let key = token_key_of(r.token, r.batch);
    proof {
        lemma_token_order_push(records, *r);
        assert forall|k2: (i32, i32), c: int| 0 <= c < nc implies token_latency(
            post,
            threshold,
            cfg,
            cfgs,
            k2,
            c,
        ) == token_latency(records, threshold, cfg, cfgs, k2, c) + if tok == k2 {
            deltas@[c] as int
        } else {
            0
        } by {
            lemma_token_latency_push(records, *r, threshold, cfg, cfgs, k2, c);
        }
    }
    let found = match t.index.get(&key) {
        Some(p) => Some(*p),
        None => None,
    };
    match found {
        Some(p) => {
            proof {
                lemma_token_key(t.keys@[p as int], tok);
                assert(t.keys@[p as int] == tok);
                assert(token_order(records).contains(tok)) by {
                    assert(token_order(records)[p as int] == tok);
                }
            }
            let n = deltas.len();
            let mut row: Vec<u64> = Vec::new();
            let mut c: usize = 0;
            while c < n
                invariant
                    n == nc,
                    nc == cfgs.len(),
                    post == records.push(*r),
                    tok == token_of(*r),
                    deltas@.len() == nc,
                    p < t.keys@.len(),
                    t.keys@[p as int] == tok,
                    token_wf(*t, nc),
                    token_state_is(*t, records, threshold, cfg, cfgs),
                    forall|c2: int, k2: (i32, i32)|
                        0 <= c2 < nc ==> #[trigger] token_latency(post, threshold, cfg, cfgs, k2, c2)
                            == token_latency(records, threshold, cfg, cfgs, k2, c2) + if tok == k2 {
                            deltas@[c2] as int
                        } else {
                            0
                        },
                    c <= n,
                    row@.len() == c,
                    forall|c2: int|
                        0 <= c2 < c ==> #[trigger] row@[c2] == token_latency(
                            post,
                            threshold,
                            cfg,
                            cfgs,
                            tok,
                            c2,
                        ),
                decreases n - c,
            {
                let cur = t.sums[p][c];
                assert(t.sums@[p as int]@[c as int] == cur);
                assert(cur == token_latency(records, threshold, cfg, cfgs, tok, c as int));
                assert(token_latency(post, threshold, cfg, cfgs, tok, c as int) == cur + deltas@[c as int]);
                match add_checked(cur, deltas[c]) {
                    Some(v) => row.push(v),
                    None => {
                        assert(token_latency(post, threshold, cfg, cfgs, tok, c as int) > u64::MAX);
                        return false;
                    },
                }
                c = c + 1;
            }
            t.sums.set(p, row);
            proof {
                assert(post.map_values(|x: Record| token_of(x)) =~= records.map_values(
                    |x: Record| token_of(x),
                ).push(tok));
                assert forall|q: int, c2: int|
                    0 <= q < t.keys@.len() && 0 <= c2 < nc implies #[trigger] t.sums@[q]@[c2]
                    == token_latency(post, threshold, cfg, cfgs, t.keys@[q], c2) by {
                    if q != p {
                        lemma_token_key(t.keys@[q], tok);
                        assert(t.keys@[q] != tok);
                    }
                }
            }
            true
        },
        None => {
            proof {
                assert(!t.index@.contains_key(key));
                if token_order(records).contains(tok) {
                    let q = choose|q: int| 0 <= q < t.keys@.len() && t.keys@[q] == tok;
                    assert(t.index@.contains_key(token_key(t.keys@[q]) as i64));
                }
                assert forall|c2: int| 0 <= c2 < nc implies token_latency(
                    records,
                    threshold,
                    cfg,
                    cfgs,
                    tok,
                    c2,
                ) == 0 by {
                    lemma_token_latency_absent(records, threshold, cfg, cfgs, tok, c2);
                }
            }
            let n = deltas.len();
            let mut row: Vec<u64> = Vec::new();
            let mut c: usize = 0;
            while c < n
                invariant
                    n == nc,
                    nc == cfgs.len(),
                    post == records.push(*r),
                    tok == token_of(*r),
                    deltas@.len() == nc,
                    forall|c2: int|
                        0 <= c2 < nc ==> #[trigger] token_latency(post, threshold, cfg, cfgs, tok, c2)
                            == deltas@[c2] as int,
                    c <= n,
                    row@.len() == c,
                    forall|c2: int|
                        0 <= c2 < c ==> #[trigger] row@[c2] == token_latency(
                            post,
                            threshold,
                            cfg,
                            cfgs,
                            tok,
                            c2,
                        ),
                decreases n - c,
            {
                match add_checked(0, deltas[c]) {
                    Some(v) => row.push(v),
                    None => {
                        assert(token_latency(post, threshold, cfg, cfgs, tok, c as int) > u64::MAX);
                        return false;
                    },
                }
                c = c + 1;
            }
            let len = t.keys.len();
            t.keys.push((r.token, r.batch));
            t.index.insert(key, len);
            t.sums.push(row);
            proof {
                assert(t.keys@[len as int] == tok);
                assert forall|q: int| 0 <= q < t.keys@.len() implies t.index@.contains_key(
                    token_key(#[trigger] t.keys@[q]) as i64,
                ) && t.index@[token_key(t.keys@[q]) as i64] == q by {
                    if q < len {
                        lemma_token_key(t.keys@[q], tok);
                    }
                }
                assert forall|q: int, c2: int|
                    0 <= q < t.keys@.len() && 0 <= c2 < nc implies #[trigger] t.sums@[q]@[c2]
                    == token_latency(post, threshold, cfg, cfgs, t.keys@[q], c2) by {
                    if q < len {
                        assert(t.keys@[q] != tok);
                    }
                }
            }
            true
        },
    }
}

// ── The comparison ───────────────────────────────────────────────

/// The end-of-run times derived from the totals fit in 64 bits.
pub open spec fn derived_fit(c: StreamCost, cfg: PimConfig) -> bool {
    &&& c.naive_up_rows * up_row_time(cfg) <= u64::MAX
    &&& c.naive_down_rows * ROW_OPEN_NS + c.naive_down_rows * chunks_per_row_group(cfg) * NS_PER_CYCLE
        <= u64::MAX
    &&& c.oracle_up_rows * up_row_time(cfg) <= u64::MAX
    &&& c.oracle_down_rows * ROW_OPEN_NS + c.oracle_down_chunks * NS_PER_CYCLE <= u64::MAX
}

/// Every running total of the comparison over `records`, per-token
/// latencies included, fits in 64 bits.
pub open spec fn running_fit(records: Seq<Record>, threshold: u32, cfg: PimConfig, cfgs: Seq<LayoutConfig>) -> bool {
    &&& forall|j: int|
        0 <= j <= records.len() ==> #[trigger] cost_fits(stream_cost(records.take(j), threshold, cfg, cfgs))
    &&& forall|j: int, key: (i32, i32), c: int|
        0 <= j <= records.len() && 0 <= c < cfgs.len() ==> #[trigger] token_latency(
            records.take(j),
            threshold,
            cfg,
            cfgs,
            key,
            c,
        ) <= u64::MAX
}

/// Every running total of the comparison over `records`, per-token
/// latencies and end-of-run times included, fits in 64 bits.
pub open spec fn comparison_fits(
    records: Seq<Record>,
    threshold: u32,
    cfg: PimConfig,
    cfgs: Seq<LayoutConfig>,
) -> bool {
    &&& running_fit(records, threshold, cfg, cfgs)
    &&& derived_fit(stream_cost(records, threshold, cfg, cfgs), cfg)
}

/// A prefix of a stream whose running totals fit has running totals that
/// fit.
pub proof fn lemma_running_fit_prefix(
    records: Seq<Record>,
    k: int,
    threshold: u32,
    cfg: PimConfig,
    cfgs: Seq<LayoutConfig>,
)
    requires
        0 <= k <= records.len(),
        running_fit(records, threshold, cfg, cfgs),
    ensures
        running_fit(records.take(k), threshold, cfg, cfgs),
{
    let p = records.take(k);
    assert forall|j: int| 0 <= j <= p.len() implies #[trigger] cost_fits(
        stream_cost(p.take(j), threshold, cfg, cfgs),
    ) by {
        assert(p.take(j) =~= records.take(j));
    }
    assert forall|j: int, key: (i32, i32), c: int| 0 <= j <= p.len() && 0 <= c < cfgs.len() implies #[trigger] token_latency(
        p.take(j),
        threshold,
        cfg,
        cfgs,
        key,
        c,
    ) <= u64::MAX by {
        assert(p.take(j) =~= records.take(j));
    }
}

/// `res` is the layout comparison of `records`: the summed costs, the
/// end-of-run times derived from them, the configurations' names, and the
/// per-token latencies.
pub open spec fn is_comparison(
    res: LayoutComparisonResult,
    records: Seq<Record>,
    threshold: u32,
    cfg: PimConfig,
    cfgs: Seq<LayoutConfig>,
) -> bool {
    let c = stream_cost(records, threshold, cfg, cfgs);
    let tokens = token_order(records);
    &&& result_is(res, c)
    &&& res.naive_up_time_ns == c.naive_up_rows * up_row_time(cfg)
    &&& res.naive_down_time_ns == c.naive_down_rows * ROW_OPEN_NS + c.naive_down_rows
        * chunks_per_row_group(cfg) * NS_PER_CYCLE
    &&& res.oracle_up_time_ns == c.oracle_up_rows * up_row_time(cfg)
    &&& res.oracle_down_time_ns == c.oracle_down_rows * ROW_OPEN_NS + c.oracle_down_chunks
        * NS_PER_CYCLE
    &&& forall|i: int| 0 <= i < cfgs.len() ==> (#[trigger] res.configs@[i]).name@ == cfgs[i].0@
    &&& res.per_token_latency@.len() == cfgs.len()
    &&& forall|i: int|
        0 <= i < cfgs.len() ==> (#[trigger] res.per_token_latency@[i])@.len() == tokens.len()
    &&& forall|i: int, j: int|
        #![trigger res.per_token_latency@[i]@[j]]
        0 <= i < cfgs.len() && 0 <= j < tokens.len() ==> res.per_token_latency@[i]@[j]
            == token_latency(records, threshold, cfg, cfgs, tokens[j], i)
}

proof fn lemma_stream_cost_configs(records: Seq<Record>, threshold: u32, cfg: PimConfig, cfgs: Seq<LayoutConfig>)
    ensures
        stream_cost(records, threshold, cfg, cfgs).configs.len() == cfgs.len(),
    decreases records.len(),
{
    if records.len() > 0 {
        lemma_stream_cost_configs(records.drop_last(), threshold, cfg, cfgs);
    }
}

/// The end-of-run times of the totals: naive UP and DOWN, oracle UP and
/// DOWN; `None` when one does not fit in 64 bits.
fn end_times(res: &LayoutComparisonResult, g: &Geometry) -> (t: Option<(u64, u64, u64, u64)>)
    requires
        g.up_row_time_ns <= u32::MAX,
        g.chunks_per_row_group <= u32::MAX,
    ensures
        match t {
            Some(v) => {
                &&& v.0 == res.naive_up_rows * g.up_row_time_ns
                &&& v.1 == res.naive_down_rows * ROW_OPEN_NS + res.naive_down_rows
                    * g.chunks_per_row_group * NS_PER_CYCLE
                &&& v.2 == res.oracle_up_rows * g.up_row_time_ns
                &&& v.3 == res.oracle_down_rows * ROW_OPEN_NS + res.oracle_down_chunks * NS_PER_CYCLE
            },
            None => {
                ||| res.naive_up_rows * g.up_row_time_ns > u64::MAX
                ||| res.naive_down_rows * ROW_OPEN_NS + res.naive_down_rows * g.chunks_per_row_group
                    * NS_PER_CYCLE > u64::MAX
                ||| res.oracle_up_rows * g.up_row_time_ns > u64::MAX
                ||| res.oracle_down_rows * ROW_OPEN_NS + res.oracle_down_chunks * NS_PER_CYCLE > u64::MAX
            },
        },
{
    let urt = g.up_row_time_ns as u128;
    let cpr = g.chunks_per_row_group as u128;
    proof {
        let x = res.naive_up_rows as int;
        let y = res.naive_down_rows as int;
        let z = res.oracle_up_rows as int;
        assert(x * urt <= u64::MAX * 0xffff_ffffint) by (nonlinear_arith)
            requires
                0 <= x <= u64::MAX,
                0 <= urt <= 0xffff_ffff,
        ;
        assert(z * urt <= u64::MAX * 0xffff_ffffint) by (nonlinear_arith)
            requires
                0 <= z <= u64::MAX,
                0 <= urt <= 0xffff_ffff,
        ;
        assert(y * cpr <= u64::MAX * 0xffff_ffffint) by (nonlinear_arith)
            requires
                0 <= y <= u64::MAX,
                0 <= cpr <= 0xffff_ffff,
        ;
    }
    let naive_up = res.naive_up_rows as u128 * urt;
    let naive_down = res.naive_down_rows as u128 * 56 + res.naive_down_rows as u128 * cpr;
    let oracle_up = res.oracle_up_rows as u128 * urt;
    let oracle_down = res.oracle_down_rows as u128 * 56 + res.oracle_down_chunks as u128;
    if naive_up > u64::MAX as u128 || naive_down > u64::MAX as u128 || oracle_up > u64::MAX as u128
        || oracle_down > u64::MAX as u128 {
        None
    } else {
        Some((naive_up as u64, naive_down as u64, oracle_up as u64, oracle_down as u64))
    }
}

/// A layout comparison in progress: the records fed so far, with their
/// running totals and per-token latencies.
pub struct LayoutRun<'a> {
    threshold: u32,
    config: PimConfig,
    configs: &'a [LayoutConfig<'a>],
    g: Geometry,
    res: LayoutComparisonResult,
    tl: TokenLatency,
    seen: Ghost<Seq<Record>>,
}

impl<'a> LayoutRun<'a> {
    /// The records fed so far.
    pub closed spec fn records(&self) -> Seq<Record> {
        self.seen@
    }

    pub closed spec fn threshold_spec(&self) -> u32 {
        self.threshold
    }

    pub closed spec fn config_spec(&self) -> PimConfig {
        self.config
    }

    pub closed spec fn configs_spec(&self) -> Seq<LayoutConfig<'a>> {
        self.configs@
    }

    /// The running state is that of the records fed so far, and every
    /// running total fits.
    pub closed spec fn wf(&self) -> bool {
        let rs = self.seen@;
        let cs = self.configs@;
        let nc = cs.len() as int;
        &&& layout_cfg_ok(self.config)
        &&& geometry_of(self.g, self.config)
        &&& layouts_ok(cs, self.config.banks as int)
        &&& forall|j: int| 0 <= j < rs.len() ==> (#[trigger] rs[j]).scores@.len() <= i32::MAX
        &&& result_is(self.res, stream_cost(rs, self.threshold, self.config, cs))
        &&& self.res.configs@.len() == nc
        &&& forall|j: int| 0 <= j < nc ==> (#[trigger] self.res.configs@[j]).name@ == cs[j].0@
        &&& self.res.per_token_latency@.len() == 0
        &&& token_wf(self.tl, nc)
        &&& token_state_is(self.tl, rs, self.threshold, self.config, cs)
        &&& running_fit(rs, self.threshold, self.config, cs)
    }

    /// A comparison of no record yet.
    pub fn new(threshold: u32, config: &PimConfig, configs: &'a [LayoutConfig<'a>]) -> (r: Self)
        requires
            layout_cfg_ok(*config),
            layouts_ok(configs@, config.banks as int),
        ensures
            r.wf(),
            r.records() == Seq::<Record>::empty(),
            r.threshold_spec() == threshold,
            r.config_spec() == *config,
            r.configs_spec() == configs@,
    {
        let ghost cs = configs@;
        let ghost nc = cs.len() as int;
        let g = geometry(config);
        let mut totals: Vec<LayoutTotals> = Vec::new();
        let mut i: usize = 0;
        while i < configs.len()
            invariant
                cs == configs@,
                nc == cs.len(),
                i <= cs.len(),
                totals@.len() == i,
                forall|j: int| 0 <= j < i ==> (#[trigger] totals@[j]).name@ == cs[j].0@,
                forall|j: int|
                    0 <= j < i ==> totals_are(#[trigger] totals@[j], zero_cost(nc).configs[j]),
            decreases cs.len() - i,
        {
            let name: String = configs[i].0.to_owned();
            totals.push(
                LayoutTotals {
                    name,
                    up_rows: 0,
                    up_time_ns: 0,
                    down_rows: 0,
                    down_chunk_compute: 0,
                    down_chunk_compute_full_row: 0,
                    down_time_ns: 0,
                    down_time_ns_full_row: 0,
                },
            );
            i = i + 1;
        }
        let res = LayoutComparisonResult {
            records: 0,
            naive_up_rows: 0,
            naive_up_time_ns: 0,
            naive_down_rows: 0,
            naive_down_time_ns: 0,
            gpu_dense_bytes: 0,
            gpu_sparse_bytes: 0,
            oracle_up_rows: 0,
            oracle_up_time_ns: 0,
            oracle_down_rows: 0,
            oracle_down_chunks: 0,
            oracle_down_time_ns: 0,
            configs: totals,
            per_token_latency: Vec::new(),
        };
        let tl = TokenLatency { keys: Vec::new(), index: HashMap::new(), sums: Vec::new() };
        let ghost empty = Seq::<Record>::empty();
        proof {
            assert(token_order(empty) =~= Seq::<(i32, i32)>::empty()) by {
                assert(empty.map_values(|x: Record| token_of(x)) =~= Seq::<(i32, i32)>::empty());
            }
            assert forall|j: int| 0 <= j <= empty.len() implies #[trigger] cost_fits(
                stream_cost(empty.take(j), threshold, *config, cs),
            ) by {
                assert(empty.take(j) =~= empty);
            }
            assert forall|j: int, key: (i32, i32), c: int| 0 <= j <= empty.len() && 0 <= c < nc implies #[trigger] token_latency(
                empty.take(j),
                threshold,
                *config,
                cs,
                key,
                c,
            ) <= u64::MAX by {
                assert(empty.take(j) =~= empty);
            }
        }
        LayoutRun { threshold, config: *config, configs, g, res, tl, seen: Ghost(empty) }
    }

    /// Feed one record. Fails with `Overflow`, consuming the run, when a
    /// running total would not fit in 64 bits.
    pub fn add(self, record: &Record) -> (r: Result<Self, LayoutError>)
        requires
            self.wf(),
            record.scores@.len() <= i32::MAX,
        ensures
            match r {
                Ok(next) => {
                    &&& next.wf()
                    &&& next.records() == self.records().push(*record)
                    &&& next.threshold_spec() == self.threshold_spec()
                    &&& next.config_spec() == self.config_spec()
                    &&& next.configs_spec() == self.configs_spec()
                },
                Err(e) => e == LayoutError::Overflow && !running_fit(
                    self.records().push(*record),
                    self.threshold_spec(),
                    self.config_spec(),
                    self.configs_spec(),
                ),
            },
    {
        let mut run = self;
        let ghost rs = run.seen@;
        let ghost cs = run.configs@;
        let ghost nc = cs.len() as int;
        let ghost threshold = run.threshold;
        let ghost cfg = run.config;
        let ghost post = rs.push(*record);
        let st = record_step(record, run.threshold, &run.config, &run.g, run.configs);
        let ghost before = stream_cost(rs, threshold, cfg, cs);
        let ghost delta = record_cost(*record, threshold, cfg, cs);
        proof {
            assert(post.drop_last() =~= rs);
            assert(post.take(post.len() as int) =~= post);
            lemma_stream_cost_configs(rs, threshold, cfg, cs);
            assert forall|c2: int| 0 <= c2 < nc implies (#[trigger] before.configs[c2]).up_time >= 0
                && before.configs[c2].down_time >= 0 by {
                assert(totals_are(run.res.configs@[c2], before.configs[c2]));
            }
        }
        let ok = accumulate(&mut run.res, &st, Ghost(before), Ghost(delta));
        if !ok {
            proof {
                assert(!cost_fits(stream_cost(post.take(post.len() as int), threshold, cfg, cs)));
            }
            return Err(LayoutError::Overflow);
        }
        let mut deltas: Vec<u128> = Vec::new();
        let mut c: usize = 0;
        while c < st.configs.len()
            invariant
                st.configs@.len() == nc,
                record_step_is(st, delta),
                delta == record_cost(*record, threshold, cfg, cs),
                result_is(run.res, add_cost(before, delta)),
                before.configs.len() == nc,
                forall|c2: int|
                    0 <= c2 < nc ==> (#[trigger] before.configs[c2]).up_time >= 0
                        && before.configs[c2].down_time >= 0,
                c <= nc,
                deltas@.len() == c,
                forall|c2: int|
                    0 <= c2 < c ==> #[trigger] deltas@[c2] == config_cost(
                        *record,
                        threshold,
                        cfg,
                        cs[c2],
                    ).up_time + config_cost(*record, threshold, cfg, cs[c2]).down_time,
            decreases nc - c,
        {
            let sc = &st.configs[c];
            proof {
                assert(step_is(st.configs@[c as int], delta.configs[c as int]));
                assert(totals_are(run.res.configs@[c as int], add_cost(before, delta).configs[c as int]));
            }
            deltas.push(sc.up_time + sc.down_time);
            c = c + 1;
        }
        let tok_ok = token_add(
            &mut run.tl,
            record,
            &deltas,
            Ghost(rs),
            Ghost(threshold),
            Ghost(cfg),
            Ghost(cs),
        );
        if !tok_ok {
            proof {
                let c2 = choose|c2: int|
                    0 <= c2 < cs.len() && #[trigger] token_latency(
                        post,
                        threshold,
                        cfg,
                        cs,
                        token_of(*record),
                        c2,
                    ) > u64::MAX;
                assert(post.take(post.len() as int) =~= post);
                assert(token_latency(post.take(post.len() as int), threshold, cfg, cs, token_of(*record), c2)
                    > u64::MAX);
            }
            return Err(LayoutError::Overflow);
        }
        proof {
            let pc = stream_cost(post, threshold, cfg, cs);
            assert(pc == add_cost(before, delta));
            assert forall|i2: int| 0 <= i2 < pc.configs.len() implies config_fits(#[trigger] pc.configs[i2]) by {
                assert(totals_are(run.res.configs@[i2], pc.configs[i2]));
            }
            assert(cost_fits(pc));
            assert forall|key: (i32, i32), c2: int| 0 <= c2 < nc implies #[trigger] token_latency(
                post,
                threshold,
                cfg,
                cs,
                key,
                c2,
            ) <= u64::MAX by {
                if token_order(post).contains(key) {
                    let q = choose|q: int| 0 <= q < run.tl.keys@.len() && run.tl.keys@[q] == key;
                    assert(run.tl.sums@[q]@[c2] == token_latency(post, threshold, cfg, cs, key, c2));
                } else {
                    lemma_token_latency_absent(post, threshold, cfg, cs, key, c2);
                }
            }
            assert forall|j: int| 0 <= j <= post.len() implies #[trigger] cost_fits(
                stream_cost(post.take(j), threshold, cfg, cs),
            ) by {
                if j < post.len() {
                    assert(post.take(j) =~= rs.take(j));
                } else {
                    assert(post.take(j) =~= post);
                }
            }
            assert forall|j: int, key: (i32, i32), c2: int| 0 <= j <= post.len() && 0 <= c2 < nc implies #[trigger] token_latency(
                post.take(j),
                threshold,
                cfg,
                cs,
                key,
                c2,
            ) <= u64::MAX by {
                if j < post.len() {
                    assert(post.take(j) =~= rs.take(j));
                } else {
                    assert(post.take(j) =~= post);
                }
            }
            assert forall|j: int| 0 <= j < post.len() implies (#[trigger] post[j]).scores@.len() <= i32::MAX by {
                if j < rs.len() {
                    assert(post[j] == rs[j]);
                }
            }
        }
        run.seen = Ghost(post);
        Ok(run)
    }

    /// The comparison of the records fed: end-of-run times derived, and the
    /// per-token latencies laid out per configuration. Fails with
    /// `Overflow` when an end-of-run time would not fit in 64 bits.
    pub fn finish(self) -> (r: Result<LayoutComparisonResult, LayoutError>)
        requires
            self.wf(),
        ensures
            match r {
                Ok(res) => comparison_fits(
                    self.records(),
                    self.threshold_spec(),
                    self.config_spec(),
                    self.configs_spec(),
                ) && is_comparison(
                    res,
                    self.records(),
                    self.threshold_spec(),
                    self.config_spec(),
                    self.configs_spec(),
                ),
                Err(e) => e == LayoutError::Overflow && !comparison_fits(
                    self.records(),
                    self.threshold_spec(),
                    self.config_spec(),
                    self.configs_spec(),
                ),
            },
    {
        let run = self;
        let ghost rs = run.seen@;
        let ghost cs = run.configs@;
        let ghost nc = cs.len() as int;
        let ghost threshold = run.threshold;
        let ghost cfg = run.config;
        let g = run.g;
        let mut res = run.res;
        let tl = run.tl;
        let times = end_times(&res, &g);
        let (naive_up_time, naive_down_time, oracle_up_time, oracle_down_time) = match times {
            Some(t) => t,
            None => {
                return Err(LayoutError::Overflow);
            },
        };
        res.naive_up_time_ns = naive_up_time;
        res.naive_down_time_ns = naive_down_time;
        res.oracle_up_time_ns = oracle_up_time;
        res.oracle_down_time_ns = oracle_down_time;
        let ghost tokens = token_order(rs);
        let mut latency: Vec<Vec<u64>> = Vec::new();
        let n_configs = run.configs.len();
        let mut c: usize = 0;
        while c < n_configs
            invariant
                n_configs == nc,
                nc == cs.len(),
                tokens == token_order(rs),
                token_wf(tl, nc),
                token_state_is(tl, rs, threshold, cfg, cs),
                c <= nc,
                latency@.len() == c,
                forall|i2: int| 0 <= i2 < c ==> (#[trigger] latency@[i2])@.len() == tokens.len(),
                forall|i2: int, j: int|
                    #![trigger latency@[i2]@[j]]
                    0 <= i2 < c && 0 <= j < tokens.len() ==> latency@[i2]@[j] == token_latency(
                        rs,
                        threshold,
                        cfg,
                        cs,
                        tokens[j],
                        i2,
                    ),
            decreases nc - c,
        {
            let mut v: Vec<u64> = Vec::new();
            let mut p: usize = 0;
            while p < tl.sums.len()
                invariant
                    token_wf(tl, nc),
                    token_state_is(tl, rs, threshold, cfg, cs),
                    tokens == token_order(rs),
                    nc == cs.len(),
                    c < nc,
                    p <= tl.keys@.len(),
                    v@.len() == p,
                    forall|j: int|
                        0 <= j < p ==> #[trigger] v@[j] == token_latency(rs, threshold, cfg, cs, tokens[j], c as int),
                decreases tl.keys@.len() - p,
            {
                assert(tl.sums@[p as int]@.len() == nc);
                let x = tl.sums[p][c];
                assert(tl.sums@[p as int]@[c as int] == x);
                v.push(x);
                p = p + 1;
            }
            latency.push(v);
            c = c + 1;
        }
        res.per_token_latency = latency;
        proof {
            let sc = stream_cost(rs, threshold, cfg, cs);
            assert(result_is(res, sc));
            assert(derived_fit(sc, cfg));
        }
        Ok(res)
    }
}

/// Run every named configuration over the same record stream, summing
/// busiest-unit row and chunk counts and their time for each, plus the
/// naive reference, the GPU weight traffic and the oracles (see
/// [`is_comparison`]). Fails with `Overflow` exactly when a running total
/// would not fit in 64 bits.
pub fn run_layout_comparison(
    records: &Vec<Record>,
    threshold: u32,
    config: &PimConfig,
    configs: &[LayoutConfig],
) -> (res: Result<LayoutComparisonResult, LayoutError>)
    requires
        layout_cfg_ok(*config),
        layouts_ok(configs@, config.banks as int),
        forall|k: int| 0 <= k < records@.len() ==> (#[trigger] records@[k]).scores@.len() <= i32::MAX,
    ensures
        match res {
            Ok(r) => comparison_fits(records@, threshold, *config, configs@) && is_comparison(
                r,
                records@,
                threshold,
                *config,
                configs@,
            ),
            Err(e) => e == LayoutError::Overflow && !comparison_fits(
                records@,
                threshold,
                *config,
                configs@,
            ),
        },
{
    let ghost rs = records@;
    let mut run = LayoutRun::new(threshold, config, configs);
    let mut k: usize = 0;
    while k < records.len()
        invariant
            rs == records@,
            forall|j: int| 0 <= j < rs.len() ==> (#[trigger] rs[j]).scores@.len() <= i32::MAX,
            run.wf(),
            k <= rs.len(),
            run.records() == rs.take(k as int),
            run.threshold_spec() == threshold,
            run.config_spec() == *config,
            run.configs_spec() == configs@,
        decreases rs.len() - k,
    {
        assert(rs.take(k + 1) =~= rs.take(k as int).push(rs[k as int]));
        match run.add(&records[k]) {
            Ok(next) => run = next,
            Err(e) => {
                proof {
                    if running_fit(rs, threshold, *config, configs@) {
                        lemma_running_fit_prefix(rs, k + 1, threshold, *config, configs@);
                    }
                }
                return Err(e);
            },
        }
        k = k + 1;
    }
    assert(rs.take(k as int) =~= rs);
    run.finish()
}

// ── Merging per-file results ─────────────────────────────────────

/// The field-wise sums of two configuration totals fit in 64 bits.
pub open spec fn totals_can_merge(a: LayoutTotals, b: LayoutTotals) -> bool {
    &&& a.up_rows + b.up_rows <= u64::MAX
    &&& a.up_time_ns + b.up_time_ns <= u64::MAX
    &&& a.down_rows + b.down_rows <= u64::MAX
    &&& a.down_chunk_compute + b.down_chunk_compute <= u64::MAX
    &&& a.down_chunk_compute_full_row + b.down_chunk_compute_full_row <= u64::MAX
    &&& a.down_time_ns + b.down_time_ns <= u64::MAX
    &&& a.down_time_ns_full_row + b.down_time_ns_full_row <= u64::MAX
}

/// `r` holds `a`'s name and the field-wise sums of `a` and `b`.
pub open spec fn totals_merged(r: LayoutTotals, a: LayoutTotals, b: LayoutTotals) -> bool {
    &&& r.name@ == a.name@
    &&& r.up_rows == a.up_rows + b.up_rows
    &&& r.up_time_ns == a.up_time_ns + b.up_time_ns
    &&& r.down_rows == a.down_rows + b.down_rows
    &&& r.down_chunk_compute == a.down_chunk_compute + b.down_chunk_compute
    &&& r.down_chunk_compute_full_row == a.down_chunk_compute_full_row + b.down_chunk_compute_full_row
    &&& r.down_time_ns == a.down_time_ns + b.down_time_ns
    &&& r.down_time_ns_full_row == a.down_time_ns_full_row + b.down_time_ns_full_row
}

impl LayoutTotals {
    /// Whether [`LayoutTotals::merge`] accepts the pair.
    pub fn can_merge(&self, other: &Self) -> (ok: bool)
        ensures
            ok == totals_can_merge(*self, *other),
    {
        self.up_rows <= u64::MAX - other.up_rows && self.up_time_ns <= u64::MAX - other.up_time_ns
            && self.down_rows <= u64::MAX - other.down_rows && self.down_chunk_compute <= u64::MAX
            - other.down_chunk_compute && self.down_chunk_compute_full_row <= u64::MAX
            - other.down_chunk_compute_full_row && self.down_time_ns <= u64::MAX - other.down_time_ns
            && self.down_time_ns_full_row <= u64::MAX - other.down_time_ns_full_row
    }

    /// Sum two per-file busiest-unit totals of the same named configuration
    /// (the name is this one's).
    pub fn merge(self, other: Self) -> (r: Self)
        requires
            totals_can_merge(self, other),
        ensures
            totals_merged(r, self, other),
    {
        LayoutTotals {
            name: self.name,
            up_rows: self.up_rows + other.up_rows,
            up_time_ns: self.up_time_ns + other.up_time_ns,
            down_rows: self.down_rows + other.down_rows,
            down_chunk_compute: self.down_chunk_compute + other.down_chunk_compute,
            down_chunk_compute_full_row: self.down_chunk_compute_full_row
                + other.down_chunk_compute_full_row,
            down_time_ns: self.down_time_ns + other.down_time_ns,
            down_time_ns_full_row: self.down_time_ns_full_row + other.down_time_ns_full_row,
        }
    }
}

/// The scalar field-wise sums of two results, and those of every pair of
/// configuration totals, fit in 64 bits.
pub open spec fn comparisons_can_merge(a: LayoutComparisonResult, b: LayoutComparisonResult) -> bool {
    &&& a.records + b.records <= u64::MAX
    &&& a.naive_up_rows + b.naive_up_rows <= u64::MAX
    &&& a.naive_up_time_ns + b.naive_up_time_ns <= u64::MAX
    &&& a.naive_down_rows + b.naive_down_rows <= u64::MAX
    &&& a.naive_down_time_ns + b.naive_down_time_ns <= u64::MAX
    &&& a.gpu_dense_bytes + b.gpu_dense_bytes <= u64::MAX
    &&& a.gpu_sparse_bytes + b.gpu_sparse_bytes <= u64::MAX
    &&& a.oracle_up_rows + b.oracle_up_rows <= u64::MAX
    &&& a.oracle_up_time_ns + b.oracle_up_time_ns <= u64::MAX
    &&& a.oracle_down_rows + b.oracle_down_rows <= u64::MAX
    &&& a.oracle_down_chunks + b.oracle_down_chunks <= u64::MAX
    &&& a.oracle_down_time_ns + b.oracle_down_time_ns <= u64::MAX
    &&& forall|i: int|
        0 <= i < a.configs@.len() && i < b.configs@.len() ==> totals_can_merge(
            #[trigger] a.configs@[i],
            b.configs@[i],
        )
}

/// Per-token latencies of two merged results: `b`'s when `a` has none,
/// else each of `a`'s lists extended by `b`'s list of the same index.
pub open spec fn merged_latency(a: Seq<Vec<u64>>, b: Seq<Vec<u64>>) -> Seq<Seq<u64>> {
    if a.len() == 0 {
        b.map_values(|v: Vec<u64>| v@)
    } else {
        Seq::new(
            a.len(),
            |i: int|
                if i < b.len() {
                    a[i]@ + b[i]@
                } else {
                    a[i]@
                },
        )
    }
}

/// `r` is the merge of `a` and `b`.
pub open spec fn comparison_merged(
    r: LayoutComparisonResult,
    a: LayoutComparisonResult,
    b: LayoutComparisonResult,
) -> bool {
    &&& r.records == a.records + b.records
    &&& r.naive_up_rows == a.naive_up_rows + b.naive_up_rows
    &&& r.naive_up_time_ns == a.naive_up_time_ns + b.naive_up_time_ns
    &&& r.naive_down_rows == a.naive_down_rows + b.naive_down_rows
    &&& r.naive_down_time_ns == a.naive_down_time_ns + b.naive_down_time_ns
    &&& r.gpu_dense_bytes == a.gpu_dense_bytes + b.gpu_dense_bytes
    &&& r.gpu_sparse_bytes == a.gpu_sparse_bytes + b.gpu_sparse_bytes
    &&& r.oracle_up_rows == a.oracle_up_rows + b.oracle_up_rows
    &&& r.oracle_up_time_ns == a.oracle_up_time_ns + b.oracle_up_time_ns
    &&& r.oracle_down_rows == a.oracle_down_rows + b.oracle_down_rows
    &&& r.oracle_down_chunks == a.oracle_down_chunks + b.oracle_down_chunks
    &&& r.oracle_down_time_ns == a.oracle_down_time_ns + b.oracle_down_time_ns
    &&& r.configs@.len() == a.configs@.len()
    &&& forall|i: int|
        0 <= i < a.configs@.len() ==> if i < b.configs@.len() {
            totals_merged(#[trigger] r.configs@[i], a.configs@[i], b.configs@[i])
        } else {
            totals_merged(r.configs@[i], a.configs@[i], zero_totals(a.configs@[i].name))
        }
    &&& r.per_token_latency@.map_values(|v: Vec<u64>| v@) == merged_latency(
        a.per_token_latency@,
        b.per_token_latency@,
    )
}

/// Totals of nothing, under a name.
pub open spec fn zero_totals(name: String) -> LayoutTotals {
    LayoutTotals {
        name,
        up_rows: 0,
        up_time_ns: 0,
        down_rows: 0,
        down_chunk_compute: 0,
        down_chunk_compute_full_row: 0,
        down_time_ns: 0,
        down_time_ns_full_row: 0,
    }
}

fn copy_totals(t: &LayoutTotals) -> (r: LayoutTotals)
    ensures
        totals_merged(r, *t, zero_totals(t.name)),
{
    LayoutTotals {
        name: t.name.clone(),
        up_rows: t.up_rows,
        up_time_ns: t.up_time_ns,
        down_rows: t.down_rows,
        down_chunk_compute: t.down_chunk_compute,
        down_chunk_compute_full_row: t.down_chunk_compute_full_row,
        down_time_ns: t.down_time_ns,
        down_time_ns_full_row: t.down_time_ns_full_row,
    }
}

fn copy_u64s(dst: &mut Vec<u64>, src: &Vec<u64>)
    ensures
        final(dst)@ == old(dst)@ + src@,
{
    let mut i: usize = 0;
    while i < src.len()
        invariant
            i <= src@.len(),
            dst@ == old(dst)@ + src@.take(i as int),
        decreases src@.len() - i,
    {
        dst.push(src[i]);
        i = i + 1;
        assert(src@.take(i as int) =~= src@.take(i - 1).push(src@[i - 1]));
    }
    assert(src@.take(i as int) =~= src@);
}

impl LayoutComparisonResult {
    /// Whether [`LayoutComparisonResult::merge`] accepts the pair.
    pub fn can_merge(&self, other: &Self) -> (ok: bool)
        ensures
            ok == comparisons_can_merge(*self, *other),
    {
        let a = self;
        let b = other;
        let scalars = a.records <= u64::MAX - b.records && a.naive_up_rows <= u64::MAX
            - b.naive_up_rows && a.naive_up_time_ns <= u64::MAX - b.naive_up_time_ns
            && a.naive_down_rows <= u64::MAX - b.naive_down_rows && a.naive_down_time_ns
            <= u64::MAX - b.naive_down_time_ns && a.gpu_dense_bytes <= u64::MAX - b.gpu_dense_bytes
            && a.gpu_sparse_bytes <= u64::MAX - b.gpu_sparse_bytes && a.oracle_up_rows <= u64::MAX
            - b.oracle_up_rows && a.oracle_up_time_ns <= u64::MAX - b.oracle_up_time_ns
            && a.oracle_down_rows <= u64::MAX - b.oracle_down_rows && a.oracle_down_chunks
            <= u64::MAX - b.oracle_down_chunks && a.oracle_down_time_ns <= u64::MAX
            - b.oracle_down_time_ns;
        if !scalars {
            return false;
        }
        let n = if self.configs.len() < other.configs.len() {
            self.configs.len()
        } else {
            other.configs.len()
        };
        let mut i: usize = 0;
        while i < n
            invariant
                n <= self.configs@.len(),
                n <= other.configs@.len(),
                n == self.configs@.len() || n == other.configs@.len(),
                i <= n,
                forall|j: int| 0 <= j < i ==> totals_can_merge(#[trigger] self.configs@[j], other.configs@[j]),
            decreases n - i,
        {
            if !self.configs[i].can_merge(&other.configs[i]) {
                assert(!totals_can_merge(self.configs@[i as int], other.configs@[i as int]));
                return false;
            }
            i = i + 1;
        }
        true
    }

    /// Sum two independent per-file results computed with the same
    /// configurations: scalar totals add, configuration totals add pairwise,
    /// per-token latency lists are concatenated.
    pub fn merge(self, other: Self) -> (r: Self)
        requires
            comparisons_can_merge(self, other),
        ensures
            comparison_merged(r, self, other),
    {
        let n = self.configs.len();
        let mut configs: Vec<LayoutTotals> = Vec::new();
        let mut i: usize = 0;
        while i < n
            invariant
                n == self.configs@.len(),
                comparisons_can_merge(self, other),
                i <= n,
                configs@.len() == i,
                forall|j: int|
                    0 <= j < i ==> if j < other.configs@.len() {
                        totals_merged(#[trigger] configs@[j], self.configs@[j], other.configs@[j])
                    } else {
                        totals_merged(configs@[j], self.configs@[j], zero_totals(self.configs@[j].name))
                    },
            decreases n - i,
        {
            let a = copy_totals(&self.configs[i]);
            if i < other.configs.len() {
                assert(totals_can_merge(self.configs@[i as int], other.configs@[i as int]));
                let b = copy_totals(&other.configs[i]);
                configs.push(a.merge(b));
            } else {
                configs.push(a);
            }
            i = i + 1;
        }
        let latency: Vec<Vec<u64>> = if self.per_token_latency.len() == 0 {
            other.per_token_latency
        } else {
            let m = self.per_token_latency.len();
            let mut lat: Vec<Vec<u64>> = Vec::new();
            let mut k: usize = 0;
            while k < m
                invariant
                    m == self.per_token_latency@.len(),
                    m > 0,
                    k <= m,
                    lat@.len() == k,
                    forall|j: int|
                        0 <= j < k ==> (#[trigger] lat@[j])@ == merged_latency(
                            self.per_token_latency@,
                            other.per_token_latency@,
                        )[j],
                decreases m - k,
            {
                let mut v: Vec<u64> = Vec::new();
                copy_u64s(&mut v, &self.per_token_latency[k]);
                if k < other.per_token_latency.len() {
                    copy_u64s(&mut v, &other.per_token_latency[k]);
                }
                assert(v@ =~= merged_latency(self.per_token_latency@, other.per_token_latency@)[k as int]);
                lat.push(v);
                k = k + 1;
            }
            lat
        };
        let r = LayoutComparisonResult {
            records: self.records + other.records,
            naive_up_rows: self.naive_up_rows + other.naive_up_rows,
            naive_up_time_ns: self.naive_up_time_ns + other.naive_up_time_ns,
            naive_down_rows: self.naive_down_rows + other.naive_down_rows,
            naive_down_time_ns: self.naive_down_time_ns + other.naive_down_time_ns,
            gpu_dense_bytes: self.gpu_dense_bytes + other.gpu_dense_bytes,
            gpu_sparse_bytes: self.gpu_sparse_bytes + other.gpu_sparse_bytes,
            oracle_up_rows: self.oracle_up_rows + other.oracle_up_rows,
            oracle_up_time_ns: self.oracle_up_time_ns + other.oracle_up_time_ns,
            oracle_down_rows: self.oracle_down_rows + other.oracle_down_rows,
            oracle_down_chunks: self.oracle_down_chunks + other.oracle_down_chunks,
            oracle_down_time_ns: self.oracle_down_time_ns + other.oracle_down_time_ns,
            configs,
            per_token_latency: latency,
        };
        assert(r.per_token_latency@.map_values(|v: Vec<u64>| v@) =~= merged_latency(
            self.per_token_latency@,
            other.per_token_latency@,
        ));
        r
    }
}

// ── Laws ─────────────────────────────────────────────────────────

proof fn lemma_stream_cost_concat(
    ra: Seq<Record>,
    rb: Seq<Record>,
    threshold: u32,
    cfg: PimConfig,
    cfgs: Seq<LayoutConfig>,
)
    ensures
        stream_cost(ra + rb, threshold, cfg, cfgs).records == stream_cost(ra, threshold, cfg, cfgs).records
            + stream_cost(rb, threshold, cfg, cfgs).records,
        stream_cost(ra + rb, threshold, cfg, cfgs).naive_up_rows == stream_cost(
            ra,
            threshold,
            cfg,
            cfgs,
        ).naive_up_rows + stream_cost(rb, threshold, cfg, cfgs).naive_up_rows,
        stream_cost(ra + rb, threshold, cfg, cfgs).naive_down_rows == stream_cost(
            ra,
            threshold,
            cfg,
            cfgs,
        ).naive_down_rows + stream_cost(rb, threshold, cfg, cfgs).naive_down_rows,
        stream_cost(ra + rb, threshold, cfg, cfgs).gpu_dense_bytes == stream_cost(
            ra,
            threshold,
            cfg,
            cfgs,
        ).gpu_dense_bytes + stream_cost(rb, threshold, cfg, cfgs).gpu_dense_bytes,
        stream_cost(ra + rb, threshold, cfg, cfgs).gpu_sparse_bytes == stream_cost(
            ra,
            threshold,
            cfg,
            cfgs,
        ).gpu_sparse_bytes + stream_cost(rb, threshold, cfg, cfgs).gpu_sparse_bytes,
        stream_cost(ra + rb, threshold, cfg, cfgs).oracle_up_rows == stream_cost(
            ra,
            threshold,
            cfg,
            cfgs,
        ).oracle_up_rows + stream_cost(rb, threshold, cfg, cfgs).oracle_up_rows,
        stream_cost(ra + rb, threshold, cfg, cfgs).oracle_down_rows == stream_cost(
            ra,
            threshold,
            cfg,
            cfgs,
        ).oracle_down_rows + stream_cost(rb, threshold, cfg, cfgs).oracle_down_rows,
        stream_cost(ra + rb, threshold, cfg, cfgs).oracle_down_chunks == stream_cost(
            ra,
            threshold,
            cfg,
            cfgs,
        ).oracle_down_chunks + stream_cost(rb, threshold, cfg, cfgs).oracle_down_chunks,
        stream_cost(ra + rb, threshold, cfg, cfgs).configs.len() == cfgs.len(),
        forall|i: int|
            0 <= i < cfgs.len() ==> #[trigger] stream_cost(ra + rb, threshold, cfg, cfgs).configs[i]
                == add_config_cost(
                stream_cost(ra, threshold, cfg, cfgs).configs[i],
                stream_cost(rb, threshold, cfg, cfgs).configs[i],
            ),
    decreases rb.len(),
{
    lemma_stream_cost_configs(ra, threshold, cfg, cfgs);
    lemma_stream_cost_configs(rb, threshold, cfg, cfgs);
    lemma_stream_cost_configs(ra + rb, threshold, cfg, cfgs);
    if rb.len() == 0 {
        assert(ra + rb =~= ra);
    } else {
        let rp = rb.drop_last();
        lemma_stream_cost_concat(ra, rp, threshold, cfg, cfgs);
        lemma_stream_cost_configs(rp, threshold, cfg, cfgs);
        lemma_stream_cost_configs(ra + rp, threshold, cfg, cfgs);
        assert((ra + rb).drop_last() =~= ra + rp);
        assert((ra + rb).last() == rb.last());
    }
}

/// Merging the results of two record streams gives the totals, and the
/// end-of-run times, of the two streams run as one: each file is an
/// independent stream, so the per-file comparison is exact.
pub proof fn law_layout_merge_is_concatenation(
    a: LayoutComparisonResult,
    b: LayoutComparisonResult,
    merged: LayoutComparisonResult,
    ra: Seq<Record>,
    rb: Seq<Record>,
    threshold: u32,
    cfg: PimConfig,
    cfgs: Seq<LayoutConfig>,
)
    requires
        is_comparison(a, ra, threshold, cfg, cfgs),
        is_comparison(b, rb, threshold, cfg, cfgs),
        comparison_merged(merged, a, b),
    ensures
        result_is(merged, stream_cost(ra + rb, threshold, cfg, cfgs)),
        is_comparison_totals(merged, ra + rb, threshold, cfg, cfgs),
{
    lemma_stream_cost_concat(ra, rb, threshold, cfg, cfgs);
    lemma_stream_cost_configs(ra, threshold, cfg, cfgs);
    lemma_stream_cost_configs(rb, threshold, cfg, cfgs);
    let c = stream_cost(ra + rb, threshold, cfg, cfgs);
    let ca = stream_cost(ra, threshold, cfg, cfgs);
    let cb = stream_cost(rb, threshold, cfg, cfgs);
    assert forall|i: int| 0 <= i < merged.configs@.len() implies totals_are(
        #[trigger] merged.configs@[i],
        c.configs[i],
    ) by {
        assert(totals_are(a.configs@[i], ca.configs[i]));
        assert(totals_are(b.configs@[i], cb.configs[i]));
    }
    let urt = up_row_time(cfg);
    let cpr = chunks_per_row_group(cfg);
    assert((ca.naive_up_rows + cb.naive_up_rows) * urt == ca.naive_up_rows * urt + cb.naive_up_rows
        * urt) by (nonlinear_arith);
    assert((ca.oracle_up_rows + cb.oracle_up_rows) * urt == ca.oracle_up_rows * urt
        + cb.oracle_up_rows * urt) by (nonlinear_arith);
    assert((ca.naive_down_rows + cb.naive_down_rows) * cpr == ca.naive_down_rows * cpr
        + cb.naive_down_rows * cpr) by (nonlinear_arith);
}

/// The totals and end-of-run times of `res` are those of `records`.
pub open spec fn is_comparison_totals(
    res: LayoutComparisonResult,
    records: Seq<Record>,
    threshold: u32,
    cfg: PimConfig,
    cfgs: Seq<LayoutConfig>,
) -> bool {
    let c = stream_cost(records, threshold, cfg, cfgs);
    &&& result_is(res, c)
    &&& res.naive_up_time_ns == c.naive_up_rows * up_row_time(cfg)
    &&& res.naive_down_time_ns == c.naive_down_rows * ROW_OPEN_NS + c.naive_down_rows
        * chunks_per_row_group(cfg) * NS_PER_CYCLE
    &&& res.oracle_up_time_ns == c.oracle_up_rows * up_row_time(cfg)
    &&& res.oracle_down_time_ns == c.oracle_down_rows * ROW_OPEN_NS + c.oracle_down_chunks
        * NS_PER_CYCLE
}

/// UP has no shared row structure to rotate: a configuration's UP cost does
/// not depend on the UP layout's stagger flag.
pub proof fn law_up_ignores_stagger(r: Record, threshold: u32, cfg: PimConfig, c: LayoutConfig, d: LayoutConfig)
    requires
        c.1.span == d.1.span,
        c.2 == d.2,
    ensures
        config_cost(r, threshold, cfg, c).up_rows == config_cost(r, threshold, cfg, d).up_rows,
        config_cost(r, threshold, cfg, c).up_time == config_cost(r, threshold, cfg, d).up_time,
{
}

/// Over a whole record stream, the UP totals of a configuration depend only
/// on its UP span and UP calibration: its stagger flag and its DOWN layout
/// and calibration change nothing there.
pub proof fn law_stream_up_ignores_stagger(
    records: Seq<Record>,
    threshold: u32,
    cfg: PimConfig,
    cfgs: Seq<LayoutConfig>,
    i: int,
    dfgs: Seq<LayoutConfig>,
    j: int,
)
    requires
        0 <= i < cfgs.len(),
        0 <= j < dfgs.len(),
        cfgs[i].1.span == dfgs[j].1.span,
        cfgs[i].2 == dfgs[j].2,
    ensures
        stream_cost(records, threshold, cfg, cfgs).configs[i].up_rows == stream_cost(
            records,
            threshold,
            cfg,
            dfgs,
        ).configs[j].up_rows,
        stream_cost(records, threshold, cfg, cfgs).configs[i].up_time == stream_cost(
            records,
            threshold,
            cfg,
            dfgs,
        ).configs[j].up_time,
    decreases records.len(),
{
    lemma_stream_cost_configs(records, threshold, cfg, cfgs);
    lemma_stream_cost_configs(records, threshold, cfg, dfgs);
    if records.len() > 0 {
        let p = records.drop_last();
        let r = records.last();
        law_stream_up_ignores_stagger(p, threshold, cfg, cfgs, i, dfgs, j);
        lemma_stream_cost_configs(p, threshold, cfg, cfgs);
        lemma_stream_cost_configs(p, threshold, cfg, dfgs);
        law_up_ignores_stagger(r, threshold, cfg, cfgs[i], dfgs[j]);
        assert(record_cost(r, threshold, cfg, cfgs).configs[i] == config_cost(r, threshold, cfg, cfgs[i]));
        assert(record_cost(r, threshold, cfg, dfgs).configs[j] == config_cost(r, threshold, cfg, dfgs[j]));
    }
}

proof fn lemma_up_hits_sum(s: Seq<usize>, table: Option<Seq<usize>>, banks: int)
    requires
        banks >= 1,
    ensures
        count_sum(Seq::new(banks as nat, |q: int| up_slot_hits(s, table, banks, 1, q))) == s.len(),
    decreases s.len(),
{
    let n = banks as nat;
    if s.len() == 0 {
        let z = Seq::new(n, |q: int| up_slot_hits(s, table, banks, 1, q));
        lemma_zero_sum(z, n);
        assert(z.take(n as int) =~= z);
    } else {
        let p = s.drop_last();
        lemma_up_hits_sum(p, table, banks);
        let q = up_slot(table, banks, 1, s.last());
        assert(0 <= q < banks);
        lemma_count_sum_bump(
            Seq::new(n, |x: int| up_slot_hits(p, table, banks, 1, x)),
            Seq::new(n, |x: int| up_slot_hits(s, table, banks, 1, x)),
            q,
        );
    }
}

proof fn lemma_zero_sum(z: Seq<nat>, k: nat)
    requires
        k <= z.len(),
        forall|i: int| 0 <= i < z.len() ==> #[trigger] z[i] == 0,
    ensures
        count_sum(z.take(k as int)) == 0,
    decreases k,
{
    if k > 0 {
        lemma_zero_sum(z, (k - 1) as nat);
        assert(z.take(k as int).drop_last() =~= z.take(k - 1));
    }
}

/// For a non-distributed UP layout, the per-record UP oracle (active
/// neurons spread perfectly evenly over all banks) is a lower bound on the
/// busiest bank's row reads, whatever the remap: no static placement beats
/// it.
pub proof fn law_oracle_up_is_lower_bound(
    r: Record,
    threshold: u32,
    cfg: PimConfig,
    cfgs: Seq<LayoutConfig>,
    c: LayoutConfig,
)
    requires
        layout_cfg_ok(cfg),
        c.1.span == 1,
    ensures
        record_cost(r, threshold, cfg, cfgs).oracle_up_rows <= config_cost(r, threshold, cfg, c).up_rows,
{
    let s = active_positions(r.scores@, threshold);
    let banks = cfg.banks as int;
    let table = calib_up_row(c.2, r.layer);
    lemma_up_hits_sum(s, table, banks);
    let hits = Seq::new(banks as nat, |q: int| up_slot_hits(s, table, banks, 1, q));
    lemma_even_share_le_max(hits);
    assert(Seq::new((banks / 1) as nat, |q: int| up_slot_hits(s, table, banks, 1, q)) =~= hits);
    let urpb = up_rows_per_bank(cfg);
    assert(urpb >= 0) by {
        let x = cfg.activation_size * cfg.weight_bits;
        let y = 8 * cfg.page_size;
        assert(x / y >= 0) by (nonlinear_arith)
            requires
                x >= 0,
                y > 0,
        ;
    }
    assert(ceil_div(urpb, 1) == urpb);
    let lo = ceil_div(s.len() as int, banks);
    let hi = up_busiest(s, table, banks, 1) as int;
    assert(lo * urpb <= hi * urpb) by (nonlinear_arith)
        requires
            lo <= hi,
            urpb >= 0,
    ;
}

// ── Staggered distribution of DOWN ───────────────────────────────

/// Summed weight of the active row groups `0 .. rr`.
pub open spec fn active_weight(ra: Seq<bool>, wts: Seq<int>, rr: int) -> int
    decreases rr,
{
    if rr <= 0 {
        0
    } else {
        active_weight(ra, wts, rr - 1) + if ra[rr - 1] {
            wts[rr - 1]
        } else {
            0
        }
    }
}

/// How many rotations `o < m` put row group `x` at position `p` of a
/// span-`s` group.
spec fn rot_hits(x: int, s: int, p: int, m: int) -> int
    decreases m,
{
    if m <= 0 {
        0
    } else {
        rot_hits(x, s, p, m - 1) + if (x + (m - 1)) % s == p {
            1int
        } else {
            0int
        }
    }
}

/// The one rotation below `s` that puts row group `x` at position `p`.
spec fn rot_of(x: int, s: int, p: int) -> int {
    if p >= x % s {
        p - x % s
    } else {
        p - x % s + s
    }
}

proof fn lemma_rot_unique(x: int, s: int, p: int, o: int)
    requires
        x >= 0,
        s >= 1,
        0 <= p < s,
        0 <= o < s,
    ensures
        ((x + o) % s == p) <==> (o == rot_of(x, s, p)),
        0 <= rot_of(x, s, p) < s,
{
    let q = x / s;
    let xr = x % s;
    assert(x == q * s + xr && 0 <= xr < s) by (nonlinear_arith)
        requires
            s >= 1,
            q == x / s,
            xr == x % s,
    ;
    if xr + o < s {
        assert(x + o == q * s + (xr + o)) by (nonlinear_arith)
            requires
                x == q * s + xr,
        ;
        vstd::arithmetic::div_mod::lemma_fundamental_div_mod_converse(x + o, s, q, xr + o);
    } else {
        assert(x + o == (q + 1) * s + (xr + o - s)) by (nonlinear_arith)
            requires
                x == q * s + xr,
        ;
        vstd::arithmetic::div_mod::lemma_fundamental_div_mod_converse(x + o, s, q + 1, xr + o - s);
    }
}

proof fn lemma_rot_hits_upto(x: int, s: int, p: int, m: int)
    requires
        x >= 0,
        s >= 1,
        0 <= p < s,
        0 <= m <= s,
    ensures
        rot_hits(x, s, p, m) == if rot_of(x, s, p) < m {
            1int
        } else {
            0int
        },
    decreases m,
{
    lemma_rot_unique(x, s, p, 0);
    if m > 0 {
        lemma_rot_hits_upto(x, s, p, m - 1);
        lemma_rot_unique(x, s, p, m - 1);
    }
}

/// Sum over rotations `o < m` of the weight that a tensor rotated by `o`
/// places at position `p`, over row groups `0 .. rr`.
spec fn rot_total(ra: Seq<bool>, wts: Seq<int>, s: int, p: int, m: int, rr: int) -> int
    decreases m,
{
    if m <= 0 {
        0
    } else {
        rot_total(ra, wts, s, p, m - 1, rr) + pos_sum(ra, wts, s, m - 1, p, rr)
    }
}

proof fn lemma_rot_total_step(ra: Seq<bool>, wts: Seq<int>, s: int, p: int, m: int, rr: int)
    requires
        rr >= 1,
        m >= 0,
    ensures
        rot_total(ra, wts, s, p, m, rr) == rot_total(ra, wts, s, p, m, rr - 1) + if ra[rr - 1] {
            wts[rr - 1] * rot_hits(rr - 1, s, p, m)
        } else {
            0
        },
    decreases m,
{
    if m > 0 {
        lemma_rot_total_step(ra, wts, s, p, m - 1, rr);
        let h = rot_hits(rr - 1, s, p, m - 1);
        let w = wts[rr - 1];
        assert(w * (h + 1) == w * h + w) by (nonlinear_arith);
    }
}

proof fn lemma_rot_total_zero(ra: Seq<bool>, wts: Seq<int>, s: int, p: int, m: int)
    ensures
        rot_total(ra, wts, s, p, m, 0) == 0,
    decreases m,
{
    if m > 0 {
        lemma_rot_total_zero(ra, wts, s, p, m - 1);
    }
}

proof fn lemma_rot_total_full(ra: Seq<bool>, wts: Seq<int>, s: int, p: int, rr: int)
    requires
        s >= 1,
        0 <= p < s,
        rr >= 0,
    ensures
        rot_total(ra, wts, s, p, s, rr) == active_weight(ra, wts, rr),
    decreases rr,
{
    if rr == 0 {
        lemma_rot_total_zero(ra, wts, s, p, s);
    } else {
        lemma_rot_total_full(ra, wts, s, p, rr - 1);
        lemma_rot_total_step(ra, wts, s, p, s, rr);
        lemma_rot_hits_upto(rr - 1, s, p, s);
        lemma_rot_unique(rr - 1, s, p, 0);
    }
}

proof fn lemma_staggered_total(ra: Seq<bool>, wts: Seq<int>, layout: SpanLayout, p: int, j: int, m: int)
    requires
        layout.stagger,
        layout.span >= 1,
        0 <= p < layout.span,
        j >= 0,
        0 <= m <= layout.span,
    ensures
        pos_total(ra, wts, layout, p, j * layout.span + m) == j * active_weight(ra, wts, ra.len() as int)
            + rot_total(ra, wts, layout.span as int, p, m, ra.len() as int),
    decreases j, m,
{
    let s = layout.span as int;
    let aw = active_weight(ra, wts, ra.len() as int);
    if m > 0 {
        lemma_staggered_total(ra, wts, layout, p, j, m - 1);
        vstd::arithmetic::div_mod::lemma_fundamental_div_mod_converse(j * s + (m - 1), s, j, m - 1);
        assert(j * s + m - 1 == j * s + (m - 1));
    } else if j > 0 {
        lemma_staggered_total(ra, wts, layout, p, j - 1, s);
        lemma_rot_total_full(ra, wts, s, p, ra.len() as int);
        assert(j * s == (j - 1) * s + s) by (nonlinear_arith);
        assert(j * aw == (j - 1) * aw + aw) by (nonlinear_arith);
    } else {
        assert(j * s == 0 && j * aw == 0) by (nonlinear_arith)
            requires
                j == 0,
        ;
    }
}

proof fn lemma_flat_pos_sum(ra: Seq<bool>, wts: Seq<int>, rr: int)
    requires
        rr >= 0,
    ensures
        pos_sum(ra, wts, 1, 0, 0, rr) == active_weight(ra, wts, rr),
    decreases rr,
{
    if rr > 0 {
        lemma_flat_pos_sum(ra, wts, rr - 1);
        assert((rr - 1 + 0) % 1 == 0);
    }
}

proof fn lemma_flat_total(ra: Seq<bool>, wts: Seq<int>, layout: SpanLayout, k: int)
    requires
        layout.span == 1,
        !layout.stagger,
        k >= 0,
    ensures
        pos_total(ra, wts, layout, 0, k) == k * active_weight(ra, wts, ra.len() as int),
    decreases k,
{
    if k > 0 {
        lemma_flat_total(ra, wts, layout, k - 1);
        lemma_flat_pos_sum(ra, wts, ra.len() as int);
        let aw = active_weight(ra, wts, ra.len() as int);
        assert(k * aw == (k - 1) * aw + aw) by (nonlinear_arith);
    } else {
        let aw = active_weight(ra, wts, ra.len() as int);
        assert(k * aw == 0) by (nonlinear_arith)
            requires
                k == 0,
        ;
    }
}

/// With every position of a staggered span-`s` group over `k * s` tensors
/// carrying what the single position of the non-distributed layout over
/// `k` tensors carries, the busiest positions carry the same.
proof fn lemma_staggered_busiest(ra: Seq<bool>, cc: Seq<int>, cpr: int, k: int, st: SpanLayout, flat: SpanLayout)
    requires
        st.stagger,
        st.span >= 1,
        flat.span == 1,
        !flat.stagger,
        k >= 0,
        cc.len() == ra.len(),
    ensures
        down_busiest(ra, cc, cpr, k * st.span, st) == down_busiest(ra, cc, cpr, k, flat),
{
    let s = st.span as int;
    let n = ra.len() as int;
    let uw = unit_weights(n);
    let fw = full_weights(n, cpr);
    let common = position_load(ra, cc, cpr, flat, 0, k);
    lemma_flat_total(ra, uw, flat, k);
    lemma_flat_total(ra, cc, flat, k);
    lemma_flat_total(ra, fw, flat, k);
    assert forall|p: int| 0 <= p < s implies #[trigger] position_load(ra, cc, cpr, st, p, k * s) == common by {
        lemma_staggered_total(ra, uw, st, p, k, 0);
        lemma_staggered_total(ra, cc, st, p, k, 0);
        lemma_staggered_total(ra, fw, st, p, k, 0);
        lemma_rot_total_zero(ra, uw, s, p, 0);
        assert(k * s + 0 == k * s);
    }
    let times = Seq::new(st.span as nat, |p: int| position_time(position_load(ra, cc, cpr, st, p, k * s)));
    assert(is_busiest_pos(times, s - 1)) by {
        assert(times[s - 1] == position_time(common));
        assert forall|q: int| 0 <= q < times.len() implies #[trigger] times[q] <= times[s - 1] by {
            assert(times[q] == position_time(common));
        }
    }
    let pc = choose|p: int| is_busiest_pos(times, p);
    assert(is_busiest_pos(times, pc));
    assert(position_load(ra, cc, cpr, st, pc, k * s) == common);
    let ftimes = Seq::new(flat.span as nat, |p: int| position_time(position_load(ra, cc, cpr, flat, p, k)));
    assert(is_busiest_pos(ftimes, 0));
    let pf = choose|p: int| is_busiest_pos(ftimes, p);
    assert(is_busiest_pos(ftimes, pf));
    assert(pf == 0);
}

/// A staggered span-distributed DOWN layout costs each record exactly what
/// the non-distributed layout does (same calibration), when the banks
/// divide the activation width: staggering spreads every row group evenly
/// over the span's positions.
pub proof fn law_stagger_restores_flat_down(
    r: Record,
    threshold: u32,
    cfg: PimConfig,
    c: LayoutConfig,
    d: LayoutConfig,
)
    requires
        cfg.banks >= 1,
        cfg.activation_size % cfg.banks == 0,
        c.3.stagger,
        c.3.span >= 1,
        d.3.span == 1,
        !d.3.stagger,
        c.4 == d.4,
    ensures
        config_cost(r, threshold, cfg, c).down_rows == config_cost(r, threshold, cfg, d).down_rows,
        config_cost(r, threshold, cfg, c).down_chunks == config_cost(r, threshold, cfg, d).down_chunks,
        config_cost(r, threshold, cfg, c).down_chunks_full == config_cost(r, threshold, cfg, d).down_chunks_full,
        config_cost(r, threshold, cfg, c).down_time == config_cost(r, threshold, cfg, d).down_time,
        config_cost(r, threshold, cfg, c).down_time_full == config_cost(r, threshold, cfg, d).down_time_full,
{
    let s = active_positions(r.scores@, threshold);
    let cc = group_chunks(cfg, s, calib_down_row(c.4, r.layer), r.scores@.len() as int);
    let ra = Seq::new(cc.len(), |g: int| cc[g] > 0);
    let b = cfg.banks as int;
    let a = cfg.activation_size as int;
    let k = a / b;
    let sp = c.3.span as int;
    assert(a == k * b) by (nonlinear_arith)
        requires
            b >= 1,
            k == a / b,
            a % b == 0,
    ;
    assert(a * sp == (k * sp) * b) by (nonlinear_arith)
        requires
            a == k * b,
    ;
    assert(k * sp >= 0) by (nonlinear_arith)
        requires
            k >= 0,
            sp >= 1,
    ;
    vstd::arithmetic::div_mod::lemma_fundamental_div_mod_converse(a * sp, b, k * sp, 0);
    vstd::arithmetic::div_mod::lemma_fundamental_div_mod_converse(a * 1, b, k, 0);
    assert((cfg.activation_size * c.3.span) as int == a * sp);
    assert((cfg.activation_size * d.3.span) as int == a * 1);
    lemma_staggered_busiest(ra, cc, chunks_per_row_group(cfg), k, c.3, d.3);
}

/// Over a whole record stream, a staggered span-distributed DOWN layout
/// totals exactly what the non-distributed layout with the same calibration
/// does, when the banks divide the activation width.
pub proof fn law_stream_stagger_restores_flat_down(
    records: Seq<Record>,
    threshold: u32,
    cfg: PimConfig,
    cfgs: Seq<LayoutConfig>,
    i: int,
    j: int,
)
    requires
        cfg.banks >= 1,
        cfg.activation_size % cfg.banks == 0,
        0 <= i < cfgs.len(),
        0 <= j < cfgs.len(),
        cfgs[i].3.stagger,
        cfgs[i].3.span >= 1,
        cfgs[j].3.span == 1,
        !cfgs[j].3.stagger,
        cfgs[i].4 == cfgs[j].4,
    ensures
        stream_cost(records, threshold, cfg, cfgs).configs[i].down_rows == stream_cost(
            records,
            threshold,
            cfg,
            cfgs,
        ).configs[j].down_rows,
        stream_cost(records, threshold, cfg, cfgs).configs[i].down_chunks == stream_cost(
            records,
            threshold,
            cfg,
            cfgs,
        ).configs[j].down_chunks,
        stream_cost(records, threshold, cfg, cfgs).configs[i].down_chunks_full == stream_cost(
            records,
            threshold,
            cfg,
            cfgs,
        ).configs[j].down_chunks_full,
        stream_cost(records, threshold, cfg, cfgs).configs[i].down_time == stream_cost(
            records,
            threshold,
            cfg,
            cfgs,
        ).configs[j].down_time,
        stream_cost(records, threshold, cfg, cfgs).configs[i].down_time_full == stream_cost(
            records,
            threshold,
            cfg,
            cfgs,
        ).configs[j].down_time_full,
    decreases records.len(),
{
    lemma_stream_cost_configs(records, threshold, cfg, cfgs);
    if records.len() > 0 {
        let p = records.drop_last();
        let r = records.last();
        law_stream_stagger_restores_flat_down(p, threshold, cfg, cfgs, i, j);
        lemma_stream_cost_configs(p, threshold, cfg, cfgs);
        law_stagger_restores_flat_down(r, threshold, cfg, cfgs[i], cfgs[j]);
        assert(record_cost(r, threshold, cfg, cfgs).configs[i] == config_cost(r, threshold, cfg, cfgs[i]));
        assert(record_cost(r, threshold, cfg, cfgs).configs[j] == config_cost(r, threshold, cfg, cfgs[j]));
    }
}

// ── What a calibration row does ──────────────────────────────────

/// A configuration's DOWN calibration row for a layer, when it has one,
/// places every neuron it covers: the DOWN slot of neuron `i` is the row's
/// entry `i` (so its compute chunk is that entry divided by the chunk
/// size), and the record's DOWN cost is computed on those slots. Without a
/// row for the layer, neurons keep their own index as slot.
pub proof fn law_down_calibration_row_places_neurons(
    r: Record,
    threshold: u32,
    cfg: PimConfig,
    c: LayoutConfig,
    i: usize,
)
    ensures
        (c.4 matches Some(cal) && cal.down_slot_of@.contains_key(r.layer) && (i as int)
            < cal.down_slot_of@[r.layer]@.len()) ==> down_slot(calib_down_row(c.4, r.layer), i)
            == c.4->0.down_slot_of@[r.layer]@[i as int],
        (c.4 matches Some(cal) && cal.down_slot_of@.contains_key(r.layer)) ==> group_chunks(
            cfg,
            active_positions(r.scores@, threshold),
            calib_down_row(c.4, r.layer),
            r.scores@.len() as int,
        ) == group_chunks(
            cfg,
            active_positions(r.scores@, threshold),
            Some(c.4->0.down_slot_of@[r.layer]@),
            r.scores@.len() as int,
        ),
        !(c.4 matches Some(cal) && cal.down_slot_of@.contains_key(r.layer)) ==> down_slot(
            calib_down_row(c.4, r.layer),
            i,
        ) == i as int,
{
}

/// The chunk of every active neuron under a DOWN calibration row is the
/// row's entry for it divided by the chunk size: a chunk is hit exactly when
/// some active neuron's row entry falls in it.
pub proof fn law_down_chunk_of_calibrated_neuron(
    s: Seq<usize>,
    row: Seq<usize>,
    cs: int,
    ch: int,
)
    requires
        forall|k: int| 0 <= k < s.len() ==> (#[trigger] s[k] as int) < row.len(),
    ensures
        chunk_hit(s, Some(row), cs, ch) <==> exists|k: int|
            0 <= k < s.len() && (#[trigger] row[s[k] as int]) as int / cs == ch,
{
    if chunk_hit(s, Some(row), cs, ch) {
        let k = choose|k: int| 0 <= k < s.len() && #[trigger] down_slot(Some(row), s[k]) / cs == ch;
        assert((row[s[k] as int] as int) / cs == ch);
    }
    if exists|k: int| 0 <= k < s.len() && (#[trigger] row[s[k] as int]) as int / cs == ch {
        let k = choose|k: int| 0 <= k < s.len() && (#[trigger] row[s[k] as int]) as int / cs == ch;
        assert(down_slot(Some(row), s[k]) / cs == ch);
    }
}

/// A configuration's UP calibration row for a layer, when it has one,
/// places every neuron it covers: the logical UP bank of neuron `i` is the
/// row's entry `i` divided by the span, wrapped to the logical bank count.
/// Without a row for the layer, neuron `i` sits in physical bank
/// `i % banks`.
pub proof fn law_up_calibration_row_places_neurons(
    r: Record,
    c: LayoutConfig,
    banks: int,
    span: int,
    i: usize,
)
    ensures
        (c.2 matches Some(cal) && cal.up_remap@.contains_key(r.layer) && (i as int)
            < cal.up_remap@[r.layer]@.len()) ==> up_slot(calib_up_row(c.2, r.layer), banks, span, i)
            == ((c.2->0.up_remap@[r.layer]@[i as int] as int) / span) % (banks / span),
        !(c.2 matches Some(cal) && cal.up_remap@.contains_key(r.layer)) ==> up_slot(
            calib_up_row(c.2, r.layer),
            banks,
            span,
            i,
        ) == ((i as int % banks) / span) % (banks / span),
{
}

} // verus!
