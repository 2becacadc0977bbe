use std::collections::HashMap;

use parse_histogram::pim::cycle::cycles_in_range;
use parse_histogram::{
    build_balance_report, compute_cycles, derive_json_path, derive_remap_json_path, generate_mapping,
    run_simulation, run_simulation_batched, MappingParams, MappingStrategy, PimConfig, PimContext, PimResult,
    Record, RemapTable,
};

fn rec(layer: i32, n: usize, active: &[usize]) -> Record {
    let mut scores = vec![(-1.0f32).to_bits(); n];
    for &i in active {
        scores[i] = 1.0f32.to_bits();
    }
    Record { token: 0, layer, batch: 0, scores }
}

fn zero() -> u32 {
    0.0f32.to_bits()
}

#[test]
fn default_config() {
    let c = PimConfig::default();
    assert_eq!((c.page_size, c.banks, c.channels, c.banks_per_channel), (1024, 1024, 32, 32));
    assert_eq!((c.data_width, c.weight_bits, c.activation_size, c.neuron_size), (4, 32, 4096, 11008));
}

#[test]
fn one_record_simulation_exact_totals() {
    let r = run_simulation(&vec![rec(0, 2048, &[0, 5, 1024])], zero(), PimConfig::default(), None);
    assert_eq!((r.total_records, r.total_neurons, r.total_selected_neurons), (1, 2048, 3));
    assert_eq!((r.up_dense, r.down_dense), (32, 32));
    assert_eq!(r.up_total_naive_time, 32);
    assert_eq!((r.up_total_asnc_time, r.up_total_asnc_time_bal, r.up_async_imbalance_overhead), (32, 16, 16));
    assert_eq!((r.down_total_async_time, r.down_total_async_time_bal, r.down_async_imbalance_overhead), (32, 16, 16));
    // the unpaired record is flushed into the two-record inner product on its own rows
    assert_eq!((r.down_total_interproduct_time_single, r.down_total_interproduct_time_two), (8, 8));
    assert_eq!(r.batch_group, 1);
}

#[test]
fn single_record_batches_equal_async_metrics() {
    let records = vec![rec(0, 2048, &[0, 5, 1024]), rec(1, 1024, &[3, 35, 67]), rec(1, 1024, &[])];
    let r = run_simulation_batched(&records, zero(), PimConfig::default(), None, 1);
    assert_eq!(r.up_total_batch_time, r.up_total_asnc_time);
    assert_eq!(r.up_total_batch_time_bal, r.up_total_asnc_time_bal);
    assert_eq!(r.up_batch_imbalance_overhead, r.up_async_imbalance_overhead);
    assert_eq!(r.down_total_batch_time, r.down_total_async_time);
    assert_eq!(r.down_total_batch_time_bal, r.down_total_async_time_bal);
    assert_eq!(r.down_batch_imbalance_overhead, r.down_async_imbalance_overhead);
}

#[test]
fn pairs_and_batches_of_two_records() {
    let records = vec![rec(0, 2048, &[0, 5, 1024]), rec(0, 2048, &[2])];
    let r = run_simulation_batched(&records, zero(), PimConfig::default(), None, 2);
    assert_eq!((r.down_total_interproduct_time_single, r.down_total_interproduct_time_two), (12, 8));
    assert_eq!((r.up_total_asnc_time, r.up_total_asnc_time_bal, r.up_async_imbalance_overhead), (48, 32, 16));
    assert_eq!((r.up_total_batch_time, r.up_total_batch_time_bal, r.up_batch_imbalance_overhead), (32, 16, 16));
    assert_eq!(r.batch_group, 2);
}

#[test]
fn remap_moves_neurons_between_banks() {
    let mut up = HashMap::new();
    up.insert(0, vec![7, 7, 7, 7, 7, 7]);
    let remap = RemapTable { down_remap: HashMap::new(), up_remap: up };
    let r = run_simulation(&vec![rec(0, 2048, &[0, 5])], zero(), PimConfig::default(), Some(remap));
    assert_eq!(r.up_total_asnc_time, 32);
    assert_eq!(r.down_total_async_time, 16);
}

#[test]
fn context_streams_like_the_batch_runner() {
    let records = vec![rec(0, 2048, &[0, 5, 1024]), rec(0, 2048, &[2])];
    let mut ctx = PimContext::with_batch_group(PimConfig::default(), None, 2);
    for r in &records {
        let idx = r.active_indices(zero());
        assert!(ctx.has_room(r.scores.len(), idx.len()));
        ctx.compute_time(r.layer, r.scores.len(), &idx);
    }
    let streamed = ctx.into_result();
    let whole = run_simulation_batched(&records, zero(), PimConfig::default(), None, 2);
    assert_eq!(streamed, whole);
    let empty = PimContext::new(PimConfig::default(), None).into_result();
    assert_eq!(empty.total_records, 0);
    assert_eq!(empty.batch_group, 1);
}

#[test]
fn merging_results_adds_every_count() {
    let a = run_simulation(&vec![rec(0, 2048, &[0, 5, 1024])], zero(), PimConfig::default(), None);
    let b = run_simulation(&vec![rec(0, 1024, &[1])], zero(), PimConfig::default(), None);
    assert!(a.can_merge(&b));
    let m = a.merge(b);
    assert_eq!(m.total_records, 2);
    assert_eq!(m.total_neurons, 3072);
    assert_eq!(m.up_total_asnc_time, a.up_total_asnc_time + b.up_total_asnc_time);
    assert_eq!(m.batch_group, 1);
    let batched = run_simulation_batched(&vec![rec(0, 8, &[1])], zero(), PimConfig::default(), None, 3);
    assert!(!a.can_merge(&batched));
    let mut big = a;
    big.total_records = u64::MAX;
    assert!(!big.can_merge(&b));
}

#[test]
fn cycles_cost_rows_as_open_plus_compute() {
    let r = run_simulation(&vec![rec(0, 2048, &[0, 5, 1024])], zero(), PimConfig::default(), None);
    assert!(cycles_in_range(&r));
    let c = compute_cycles(&r);
    assert_eq!((c.gpu_cycle, c.gpu_cycle_sparse), (524288, 768));
    assert_eq!((c.up_dense_row_open, c.up_dense_compute), (1792, 2048));
    assert_eq!((c.up_total_asnc_time_row_open, c.up_total_asnc_time_compute), (1792, 2048));
    assert_eq!((c.down_total_interproduct_time_single_row_open, c.down_total_interproduct_time_single_compute), (448, 512));
    assert_eq!((c.down_total_interproduct_time_two_row_open, c.down_total_interproduct_time_two_compute), (448, 512));
    assert_eq!(c.batch_group, 1);
    let mut huge = r;
    huge.total_neurons = u64::MAX;
    assert!(!cycles_in_range(&huge));
}

#[test]
fn balance_report_rows() {
    let records = vec![rec(0, 2048, &[0, 5, 1024])];
    let naive = run_simulation(&records, zero(), PimConfig::default(), None);
    let rows = build_balance_report(&naive, &naive);
    assert_eq!(rows.len(), 2);
    assert_eq!(rows[0].name, "up_async");
    assert_eq!((rows[0].naive_rows, rows[0].remap_rows, rows[0].ideal_rows), (32, 32, 16));
    assert_eq!(rows[1].name, "down_async");
    let batched = run_simulation_batched(&records, zero(), PimConfig::default(), None, 2);
    let rows = build_balance_report(&batched, &batched);
    assert_eq!(rows.len(), 4);
    assert_eq!(rows[2].name, "up_batch");
    assert_eq!(rows[3].name, "down_batch");
}

#[test]
fn json_paths_next_to_the_input() {
    assert_eq!(derive_json_path("runs/a.bin", false), "runs/a.json");
    assert_eq!(derive_json_path("runs/dump", true), "runs/dump/simulation.json");
    assert_eq!(derive_remap_json_path("runs/a.bin", false), "runs/a.remap.json");
    assert_eq!(derive_remap_json_path("runs/dump", true), "runs/dump/simulation_remap.json");
    assert_eq!(derive_json_path("noext", false), "noext.json");
}

#[test]
fn merged_halves_match_one_serial_pass() {
    let a = vec![rec(0, 2048, &[0, 5, 1024]), rec(0, 2048, &[2])];
    let b = vec![rec(1, 1024, &[3, 35, 67]), rec(1, 1024, &[1]), rec(0, 2048, &[7])];
    let cfg = PimConfig::default();
    let whole: Vec<Record> = a.iter().chain(b.iter()).cloned().collect();
    let serial = run_simulation_batched(&whole, zero(), cfg.clone(), None, 2);
    let ra = run_simulation_batched(&a, zero(), cfg.clone(), None, 2);
    let rb = run_simulation_batched(&b, zero(), cfg, None, 2);
    assert!(ra.can_merge(&rb));
    assert_eq!(ra.merge(rb), serial);
}

#[test]
fn odd_boundary_changes_only_the_two_record_inner_product() {
    let a = vec![rec(0, 2048, &[0, 5, 1024])];
    let b = vec![rec(1, 1024, &[3, 35, 67])];
    let cfg = PimConfig::default();
    let whole: Vec<Record> = a.iter().chain(b.iter()).cloned().collect();
    let serial = run_simulation(&whole, zero(), cfg.clone(), None);
    let merged = run_simulation(&a, zero(), cfg.clone(), None).merge(run_simulation(&b, zero(), cfg, None));
    assert_eq!(
        (merged.total_records, merged.total_neurons, merged.total_selected_neurons),
        (serial.total_records, serial.total_neurons, serial.total_selected_neurons)
    );
    assert_eq!((merged.up_dense, merged.down_dense), (serial.up_dense, serial.down_dense));
    assert_eq!(merged.up_total_asnc_time, serial.up_total_asnc_time);
    assert_eq!(merged.down_total_async_time, serial.down_total_async_time);
    assert_eq!(merged.down_total_interproduct_time_single, serial.down_total_interproduct_time_single);
    assert_eq!(merged.up_total_batch_time, serial.up_total_batch_time);
    assert_eq!((merged.down_total_interproduct_time_two, serial.down_total_interproduct_time_two), (12, 8));
}

#[test]
fn finishing_flushes_the_unpaired_record_into_the_pair_metric() {
    let mut ctx = PimContext::new(PimConfig::default(), None);
    ctx.compute_time(0, 2048, &[0, 1024]);
    let r = ctx.into_result();
    assert_eq!((r.down_total_interproduct_time_single, r.down_total_interproduct_time_two), (8, 8));
}

#[test]
fn modulo_remap_reproduces_the_naive_placement() {
    let cfg = PimConfig::default();
    let params = MappingParams { n_banks: 1024, span: 1, capacity_slack_permille: 1000 };
    let row = generate_mapping(&vec![0u64; 2048], &params, MappingStrategy::Modulo);
    let mut up = HashMap::new();
    let mut down = HashMap::new();
    up.insert(0, row.clone());
    down.insert(0, row);
    let remap = RemapTable { down_remap: down, up_remap: up };
    let records = vec![rec(0, 2048, &[0, 5, 33, 1024, 1056, 2047])];
    let naive = run_simulation(&records, zero(), cfg, None);
    let remapped = run_simulation(&records, zero(), cfg, Some(remap));
    assert_eq!(naive, remapped);
}

#[test]
fn a_context_builds_for_any_configuration_and_checks_on_feeding() {
    let mut bad = PimConfig::default();
    bad.page_size = 0;
    let ctx = PimContext::with_batch_group(bad, None, 3);
    assert!(!ctx.is_supported());
    let r = ctx.into_result();
    assert_eq!(r.batch_group, 3);
    assert_eq!((r.total_records, r.up_total_asnc_time, r.down_total_interproduct_time_two), (0, 0, 0));
    assert!(PimContext::new(PimConfig::default(), None).is_supported());
}

#[test]
fn run_totals_stay_balanced() {
    let mut ctx = PimContext::with_batch_group(PimConfig::default(), None, 2);
    ctx.compute_time(0, 2048, &[0, 5, 1024]);
    ctx.compute_time(0, 2048, &[0, 2, 1025]);
    ctx.compute_time(1, 2048, &[7]);
    let r = ctx.into_result();
    assert_eq!(r.up_total_asnc_time, r.up_total_asnc_time_bal + r.up_async_imbalance_overhead);
    assert_eq!(r.down_total_batch_time, r.down_total_batch_time_bal + r.down_batch_imbalance_overhead);
    assert!(r.up_total_batch_time <= r.up_total_asnc_time);
    assert!(r.down_total_batch_time_bal <= r.down_total_async_time_bal);
}
