//! Sparse-activation trace analysis and processing-in-memory (PIM) bank
//! timing simulation for the FFN layers of ReLU-sparse language models.
use vstd::prelude::*;

pub mod calibration;
pub mod histogram;
pub mod pim;
pub mod record;
pub mod sparsity;

pub use calibration::{
    compute_activation_stats, merge_activation_tables, LayerActivationStats, LayerActivationTable,
};
pub use histogram::{compute_histograms, LayerHistograms};
pub use pim::config::PimConfig;
pub use pim::cycle::{compute_cycles, derive_json_path, derive_remap_json_path, CycleResult};
pub use pim::layout::{
    run_layout_comparison, LayoutCalibration, LayoutComparisonResult, LayoutError, LayoutTotals,
    SpanLayout,
};
pub use pim::mapping::{
    build_remap_table, cluster_slot_of, generate_mapping, mapping_quality, MappingParams,
    MappingQuality, MappingStrategy, MappingStrategyArg, RemapTable,
};
pub use pim::report::{build_balance_report, BalanceReportRow};
pub use pim::simulate::{run_simulation, run_simulation_batched, PimContext, PimResult};
pub use record::{FilterIter, Record, RecordIter};
pub use sparsity::{compute_sparsity, LayerSparsity, SparsityStats};

verus! {

} // verus!
