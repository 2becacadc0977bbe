//! Conversion of simulated row counts into DRAM time and GPU cycles, and
//! where simulation results are stored.
use vstd::prelude::*;

use crate::pim::simulate::PimResult;

verus! {

/// What `std::path::Path::join` gives for `base` and `name`, as text.
pub uninterp spec fn path_join(base: Seq<char>, name: Seq<char>) -> Seq<char>;

/// What `std::path::Path::with_extension` gives for `path` and `ext`, as
/// text.
pub uninterp spec fn path_with_extension(path: Seq<char>, ext: Seq<char>) -> Seq<char>;

/// Calls `std::path::Path::join`: the contract claims only that the text of
/// the joined path is a function of the two arguments' text.
#[verifier::external_body]
fn join_path(base: &str, name: &str) -> (r: String)
    ensures
        r@ == path_join(base@, name@),
{
    std::path::Path::new(base).join(name).to_string_lossy().into_owned()
}

/// The text holds no path separator (a slash or a backslash).
pub open spec fn no_separator(s: Seq<char>) -> bool {
    forall|i: int| 0 <= i < s.len() ==> s[i] != '/' && s[i] != '\\'
}

/// Calls `std::path::Path::with_extension`, which panics on an extension
/// holding a path separator (hence the `requires`): the contract claims only
/// that the text of the result is a function of the two arguments' text.
#[verifier::external_body]
fn with_extension(path: &str, ext: &str) -> (r: String)
    requires
        no_separator(ext@),
    ensures
        r@ == path_with_extension(path@, ext@),
{
    std::path::Path::new(path).with_extension(ext).to_string_lossy().into_owned()
}

/// Where the simulation result for an input is stored: `simulation.json`
/// inside it when the input is a directory, else the input with its
/// extension replaced by `json`.
pub fn derive_json_path(input_path: &str, is_dir: bool) -> (p: String)
    ensures
        is_dir ==> p@ == path_join(input_path@, "simulation.json"@),
        !is_dir ==> p@ == path_with_extension(input_path@, "json"@),
{
    if is_dir {
        join_path(input_path, "simulation.json")
    } else {
        proof {
            reveal_strlit("json");
        }
        with_extension(input_path, "json")
    }
}

/// Where the remapped simulation result for an input is stored:
/// `simulation_remap.json` inside it when the input is a directory, else
/// the input with its extension replaced by `remap.json`.
pub fn derive_remap_json_path(input_path: &str, is_dir: bool) -> (p: String)
    ensures
        is_dir ==> p@ == path_join(input_path@, "simulation_remap.json"@),
        !is_dir ==> p@ == path_with_extension(input_path@, "remap.json"@),
{
    if is_dir {
        join_path(input_path, "simulation_remap.json")
    } else {
        proof {
            reveal_strlit("remap.json");
        }
        with_extension(input_path, "remap.json")
    }
}

/// Cycle-count result converted from PIM simulation stats: each row count
/// costed as row-open time (56 ns per row) and compute time (64 ns per
/// row), plus the GPU bandwidth-bound reference.
#[derive(Debug, Clone, Copy, PartialEq, Eq)]
pub struct CycleResult {
    pub gpu_cycle: u64,
    pub gpu_cycle_sparse: u64,
    pub up_dense_row_open: u64,
    pub up_dense_compute: u64,
    pub up_total_naive_time_row_open: u64,
    pub up_total_naive_time_compute: u64,
    pub up_total_asnc_time_row_open: u64,
    pub up_total_asnc_time_compute: u64,
    pub down_dense_row_open: u64,
    pub down_dense_compute: u64,
    pub down_total_interproduct_time_single_row_open: u64,
    pub down_total_interproduct_time_single_compute: u64,
    pub down_total_interproduct_time_two_row_open: u64,
    pub down_total_interproduct_time_two_compute: u64,
    pub down_total_async_time_row_open: u64,
    pub down_total_async_time_compute: u64,
    pub up_total_asnc_time_bal_row_open: u64,
    pub up_total_asnc_time_bal_compute: u64,
    pub down_total_async_time_bal_row_open: u64,
    pub down_total_async_time_bal_compute: u64,
    pub up_async_imbalance_overhead_row_open: u64,
    pub up_async_imbalance_overhead_compute: u64,
    pub down_async_imbalance_overhead_row_open: u64,
    pub down_async_imbalance_overhead_compute: u64,
    pub batch_group: u64,
    pub up_total_batch_time_row_open: u64,
    pub up_total_batch_time_compute: u64,
    pub up_total_batch_time_bal_row_open: u64,
    pub up_total_batch_time_bal_compute: u64,
    pub up_batch_imbalance_overhead_row_open: u64,
    pub up_batch_imbalance_overhead_compute: u64,
    pub down_total_batch_time_row_open: u64,
    pub down_total_batch_time_compute: u64,
    pub down_total_batch_time_bal_row_open: u64,
    pub down_total_batch_time_bal_compute: u64,
    pub down_batch_imbalance_overhead_row_open: u64,
    pub down_batch_imbalance_overhead_compute: u64,
}

/// The conversion of [`compute_cycles`] does not overflow.
pub open spec fn cycles_fit(stat: PimResult) -> bool {
    &&& stat.total_neurons * 16384 <= u64::MAX
    &&& stat.total_selected_neurons * 16384 <= u64::MAX
    &&& stat.up_dense * 64 <= u64::MAX
    &&& stat.up_total_naive_time * 64 <= u64::MAX
    &&& stat.up_total_asnc_time * 64 <= u64::MAX
    &&& stat.down_dense * 64 <= u64::MAX
    &&& stat.down_total_interproduct_time_single * 64 <= u64::MAX
    &&& stat.down_total_interproduct_time_two * 64 <= u64::MAX
    &&& stat.down_total_async_time * 64 <= u64::MAX
    &&& stat.up_total_asnc_time_bal * 64 <= u64::MAX
    &&& stat.down_total_async_time_bal * 64 <= u64::MAX
    &&& stat.up_async_imbalance_overhead * 64 <= u64::MAX
    &&& stat.down_async_imbalance_overhead * 64 <= u64::MAX
    &&& stat.up_total_batch_time * 64 <= u64::MAX
    &&& stat.up_total_batch_time_bal * 64 <= u64::MAX
    &&& stat.up_batch_imbalance_overhead * 64 <= u64::MAX
    &&& stat.down_total_batch_time * 64 <= u64::MAX
    &&& stat.down_total_batch_time_bal * 64 <= u64::MAX
    &&& stat.down_batch_imbalance_overhead * 64 <= u64::MAX
}

/// Whether [`compute_cycles`] can convert `stat` without overflow.
pub fn cycles_in_range(stat: &PimResult) -> (ok: bool)
    ensures
        ok == cycles_fit(*stat),
{
    stat.total_neurons <= u64::MAX / 16384 && stat.total_selected_neurons <= u64::MAX / 16384 && stat.up_dense <= u64::MAX / 64 && stat.up_total_naive_time <= u64::MAX / 64 && stat.up_total_asnc_time <= u64::MAX / 64 && stat.down_dense <= u64::MAX / 64 && stat.down_total_interproduct_time_single <= u64::MAX / 64 && stat.down_total_interproduct_time_two <= u64::MAX / 64 && stat.down_total_async_time <= u64::MAX / 64 && stat.up_total_asnc_time_bal <= u64::MAX / 64 && stat.down_total_async_time_bal <= u64::MAX / 64 && stat.up_async_imbalance_overhead <= u64::MAX / 64 && stat.down_async_imbalance_overhead <= u64::MAX / 64 && stat.up_total_batch_time <= u64::MAX / 64 && stat.up_total_batch_time_bal <= u64::MAX / 64 && stat.up_batch_imbalance_overhead <= u64::MAX / 64 && stat.down_total_batch_time <= u64::MAX / 64 && stat.down_total_batch_time_bal <= u64::MAX / 64 && stat.down_batch_imbalance_overhead <= u64::MAX / 64
}

/// Convert PIM simulation stats to cycle counts: the GPU streams every
/// (resp. every selected) neuron's 4096 f32 weights at 128 bytes/ns, twice
/// (two ungated projections); every PIM row count becomes row-open and
/// compute nanoseconds.
pub fn compute_cycles(stat: &PimResult) -> (c: CycleResult)
    requires
        cycles_fit(*stat),
    ensures
        c.gpu_cycle == stat.total_neurons * 4096 * 4 / 128 * 2,
        c.gpu_cycle_sparse == stat.total_selected_neurons * 4096 * 4 / 128 * 2,
            c.up_dense_row_open == stat.up_dense * 56,
            c.up_dense_compute == stat.up_dense * 64,
            c.up_total_naive_time_row_open == stat.up_total_naive_time * 56,
            c.up_total_naive_time_compute == stat.up_total_naive_time * 64,
            c.up_total_asnc_time_row_open == stat.up_total_asnc_time * 56,
            c.up_total_asnc_time_compute == stat.up_total_asnc_time * 64,
            c.down_dense_row_open == stat.down_dense * 56,
            c.down_dense_compute == stat.down_dense * 64,
            c.down_total_interproduct_time_single_row_open == stat.down_total_interproduct_time_single * 56,
            c.down_total_interproduct_time_single_compute == stat.down_total_interproduct_time_single * 64,
            c.down_total_interproduct_time_two_row_open == stat.down_total_interproduct_time_two * 56,
            c.down_total_interproduct_time_two_compute == stat.down_total_interproduct_time_two * 64,
            c.down_total_async_time_row_open == stat.down_total_async_time * 56,
            c.down_total_async_time_compute == stat.down_total_async_time * 64,
            c.up_total_asnc_time_bal_row_open == stat.up_total_asnc_time_bal * 56,
            c.up_total_asnc_time_bal_compute == stat.up_total_asnc_time_bal * 64,
            c.down_total_async_time_bal_row_open == stat.down_total_async_time_bal * 56,
            c.down_total_async_time_bal_compute == stat.down_total_async_time_bal * 64,
            c.up_async_imbalance_overhead_row_open == stat.up_async_imbalance_overhead * 56,
            c.up_async_imbalance_overhead_compute == stat.up_async_imbalance_overhead * 64,
            c.down_async_imbalance_overhead_row_open == stat.down_async_imbalance_overhead * 56,
            c.down_async_imbalance_overhead_compute == stat.down_async_imbalance_overhead * 64,
            c.up_total_batch_time_row_open == stat.up_total_batch_time * 56,
            c.up_total_batch_time_compute == stat.up_total_batch_time * 64,
            c.up_total_batch_time_bal_row_open == stat.up_total_batch_time_bal * 56,
            c.up_total_batch_time_bal_compute == stat.up_total_batch_time_bal * 64,
            c.up_batch_imbalance_overhead_row_open == stat.up_batch_imbalance_overhead * 56,
            c.up_batch_imbalance_overhead_compute == stat.up_batch_imbalance_overhead * 64,
            c.down_total_batch_time_row_open == stat.down_total_batch_time * 56,
            c.down_total_batch_time_compute == stat.down_total_batch_time * 64,
            c.down_total_batch_time_bal_row_open == stat.down_total_batch_time_bal * 56,
            c.down_total_batch_time_bal_compute == stat.down_total_batch_time_bal * 64,
            c.down_batch_imbalance_overhead_row_open == stat.down_batch_imbalance_overhead * 56,
            c.down_batch_imbalance_overhead_compute == stat.down_batch_imbalance_overhead * 64,
        c.batch_group == stat.batch_group,
{
    let bandwidth: u64 = 128; // 1024/8 bytes/ns
    let data_width: u64 = 4;
    let row_open: u64 = 56; // ns
    let row_compute: u64 = 64; // 1024/16 ns
    let enable_gate = false;

    // GPU baseline
    let mut gpu_cycle = stat.total_neurons * 4096 * data_width / bandwidth;
    if enable_gate {
        gpu_cycle = gpu_cycle * 3;
    } else {
        gpu_cycle = gpu_cycle * 2;
    }
    let gpu_cycle_sparse = stat.total_selected_neurons * 4096 * data_width / bandwidth * 2;

    let up_dense_row_open = stat.up_dense * row_open;
    let up_dense_compute = stat.up_dense * row_compute;
    let up_total_naive_time_row_open = stat.up_total_naive_time * row_open;
    let up_total_naive_time_compute = stat.up_total_naive_time * row_compute;
    let up_total_asnc_time_row_open = stat.up_total_asnc_time * row_open;
    let up_total_asnc_time_compute = stat.up_total_asnc_time * row_compute;
    let down_dense_row_open = stat.down_dense * row_open;
    let down_dense_compute = stat.down_dense * row_compute;
    let down_total_interproduct_time_single_row_open = stat.down_total_interproduct_time_single * row_open;
    let down_total_interproduct_time_single_compute = stat.down_total_interproduct_time_single * row_compute;
    let down_total_interproduct_time_two_row_open = stat.down_total_interproduct_time_two * row_open;
    let down_total_interproduct_time_two_compute = stat.down_total_interproduct_time_two * row_compute;
    let down_total_async_time_row_open = stat.down_total_async_time * row_open;
    let down_total_async_time_compute = stat.down_total_async_time * row_compute;
    let up_total_asnc_time_bal_row_open = stat.up_total_asnc_time_bal * row_open;
    let up_total_asnc_time_bal_compute = stat.up_total_asnc_time_bal * row_compute;
    let down_total_async_time_bal_row_open = stat.down_total_async_time_bal * row_open;
    let down_total_async_time_bal_compute = stat.down_total_async_time_bal * row_compute;
    let up_async_imbalance_overhead_row_open = stat.up_async_imbalance_overhead * row_open;
    let up_async_imbalance_overhead_compute = stat.up_async_imbalance_overhead * row_compute;
    let down_async_imbalance_overhead_row_open = stat.down_async_imbalance_overhead * row_open;
    let down_async_imbalance_overhead_compute = stat.down_async_imbalance_overhead * row_compute;
    let up_total_batch_time_row_open = stat.up_total_batch_time * row_open;
    let up_total_batch_time_compute = stat.up_total_batch_time * row_compute;
    let up_total_batch_time_bal_row_open = stat.up_total_batch_time_bal * row_open;
    let up_total_batch_time_bal_compute = stat.up_total_batch_time_bal * row_compute;
    let up_batch_imbalance_overhead_row_open = stat.up_batch_imbalance_overhead * row_open;
    let up_batch_imbalance_overhead_compute = stat.up_batch_imbalance_overhead * row_compute;
    let down_total_batch_time_row_open = stat.down_total_batch_time * row_open;
    let down_total_batch_time_compute = stat.down_total_batch_time * row_compute;
    let down_total_batch_time_bal_row_open = stat.down_total_batch_time_bal * row_open;
    let down_total_batch_time_bal_compute = stat.down_total_batch_time_bal * row_compute;
    let down_batch_imbalance_overhead_row_open = stat.down_batch_imbalance_overhead * row_open;
    let down_batch_imbalance_overhead_compute = stat.down_batch_imbalance_overhead * row_compute;

    CycleResult {
        gpu_cycle,
        gpu_cycle_sparse,
        up_dense_row_open,
        up_dense_compute,
        up_total_naive_time_row_open,
        up_total_naive_time_compute,
        up_total_asnc_time_row_open,
        up_total_asnc_time_compute,
        down_dense_row_open,
        down_dense_compute,
        down_total_interproduct_time_single_row_open,
        down_total_interproduct_time_single_compute,
        down_total_interproduct_time_two_row_open,
        down_total_interproduct_time_two_compute,
        down_total_async_time_row_open,
        down_total_async_time_compute,
        up_total_asnc_time_bal_row_open,
        up_total_asnc_time_bal_compute,
        down_total_async_time_bal_row_open,
        down_total_async_time_bal_compute,
        up_async_imbalance_overhead_row_open,
        up_async_imbalance_overhead_compute,
        down_async_imbalance_overhead_row_open,
        down_async_imbalance_overhead_compute,
        batch_group: stat.batch_group,
        up_total_batch_time_row_open,
        up_total_batch_time_compute,
        up_total_batch_time_bal_row_open,
        up_total_batch_time_bal_compute,
        up_batch_imbalance_overhead_row_open,
        up_batch_imbalance_overhead_compute,
        down_total_batch_time_row_open,
        down_total_batch_time_compute,
        down_total_batch_time_bal_row_open,
        down_total_batch_time_bal_compute,
        down_batch_imbalance_overhead_row_open,
        down_batch_imbalance_overhead_compute,
    }
}

} // verus!
