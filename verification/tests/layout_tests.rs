use std::collections::HashMap;

use parse_histogram::pim::layout::{LayoutConfig, LayoutRun};
use parse_histogram::pim::sweep::{
    best_config, best_pim_total, cluster_calibration, greedy_up_calibration, layout_report_configs,
    random_calibration,
};
use parse_histogram::{
    run_layout_comparison, LayerActivationStats, LayerActivationTable, LayoutCalibration,
    LayoutComparisonResult, LayoutError, LayoutTotals, MappingParams, PimConfig, Record, SpanLayout,
};

fn rec(token: i32, layer: i32, n: usize, active: &[usize]) -> Record {
    let mut scores = vec![(-1.0f32).to_bits(); n];
    for &i in active {
        scores[i] = 1.0f32.to_bits();
    }
    Record { token, layer, batch: 0, scores }
}

fn zero() -> u32 {
    0.0f32.to_bits()
}

fn two_configs() -> Vec<LayoutConfig<'static>> {
    vec![
        ("flat", SpanLayout::non_distributed(), None, SpanLayout::non_distributed(), None),
        (
            "span2",
            SpanLayout { span: 2, stagger: true },
            None,
            SpanLayout { span: 2, stagger: true },
            None,
        ),
    ]
}

#[test]
fn non_distributed_layout() {
    let l = SpanLayout::non_distributed();
    assert_eq!(l, SpanLayout { span: 1, stagger: false });
}

#[test]
fn one_record_layout_comparison_exact() {
    let records = vec![rec(0, 0, 512, &[0, 1, 300])];
    let r = run_layout_comparison(&records, zero(), &PimConfig::default(), &two_configs()).unwrap();
    assert_eq!(r.records, 1);
    assert_eq!((r.naive_up_rows, r.naive_up_time_ns), (16, 1920));
    assert_eq!((r.naive_down_rows, r.naive_down_time_ns), (8, 960));
    assert_eq!((r.gpu_dense_bytes, r.gpu_sparse_bytes), (16777216, 98304));
    assert_eq!((r.oracle_up_rows, r.oracle_up_time_ns), (16, 1920));
    assert_eq!((r.oracle_down_rows, r.oracle_down_chunks, r.oracle_down_time_ns), (4, 4, 228));
    assert_eq!(r.configs.len(), 2);
    let flat = &r.configs[0];
    assert_eq!(flat.name, "flat");
    assert_eq!((flat.up_rows, flat.up_time_ns), (16, 1920));
    assert_eq!((flat.down_rows, flat.down_chunk_compute, flat.down_chunk_compute_full_row), (8, 8, 512));
    assert_eq!((flat.down_time_ns, flat.down_time_ns_full_row), (456, 960));
    let wide = &r.configs[1];
    assert_eq!((wide.up_rows, wide.up_time_ns), (16, 1920));
    assert_eq!((wide.down_rows, wide.down_chunk_compute, wide.down_chunk_compute_full_row), (8, 8, 512));
    assert_eq!(r.per_token_latency, vec![vec![2376], vec![2376]]);
}

#[test]
fn per_token_latency_sums_a_tokens_records_in_first_appearance_order() {
    let records = vec![rec(5, 0, 512, &[0]), rec(2, 0, 512, &[0]), rec(5, 1, 512, &[0])];
    let cfg = vec![("flat", SpanLayout::non_distributed(), None, SpanLayout::non_distributed(), None)];
    let r = run_layout_comparison(&records, zero(), &PimConfig::default(), &cfg).unwrap();
    let one = r.configs[0].up_time_ns / 3 + r.configs[0].down_time_ns / 3;
    assert_eq!(r.per_token_latency, vec![vec![2 * one, one]]);
}

#[test]
fn staggering_does_not_change_up_cost() {
    let records = vec![rec(0, 0, 2048, &[0, 1, 2, 3, 700, 1500])];
    let cfgs = vec![
        ("a", SpanLayout { span: 4, stagger: false }, None, SpanLayout::non_distributed(), None),
        ("b", SpanLayout { span: 4, stagger: true }, None, SpanLayout::non_distributed(), None),
    ];
    let r = run_layout_comparison(&records, zero(), &PimConfig::default(), &cfgs).unwrap();
    assert_eq!(r.configs[0].up_rows, r.configs[1].up_rows);
    assert_eq!(r.configs[0].up_time_ns, r.configs[1].up_time_ns);
}

#[test]
fn oracle_bounds_the_non_distributed_up_cost() {
    let records = vec![rec(0, 0, 4096, &[0, 1024, 2048, 3072, 5, 6]), rec(1, 0, 4096, &[])];
    let cfgs = vec![("flat", SpanLayout::non_distributed(), None, SpanLayout::non_distributed(), None)];
    let r = run_layout_comparison(&records, zero(), &PimConfig::default(), &cfgs).unwrap();
    assert!(r.oracle_up_rows <= r.configs[0].up_rows);
    assert_eq!(r.configs[0].up_rows, 4 * 16);
}

#[test]
fn merged_per_file_results_equal_one_run() {
    let a = vec![rec(0, 0, 512, &[0, 1, 300]), rec(1, 1, 512, &[7])];
    let b = vec![rec(2, 0, 512, &[256, 511])];
    let cfgs = two_configs();
    let cfg = PimConfig::default();
    let ra = run_layout_comparison(&a, zero(), &cfg, &cfgs).unwrap();
    let rb = run_layout_comparison(&b, zero(), &cfg, &cfgs).unwrap();
    assert!(ra.can_merge(&rb));
    let merged = ra.merge(rb);
    let all: Vec<Record> = a.iter().chain(b.iter()).cloned().collect();
    let whole = run_layout_comparison(&all, zero(), &cfg, &cfgs).unwrap();
    assert_eq!(merged.records, whole.records);
    assert_eq!(merged.naive_up_time_ns, whole.naive_up_time_ns);
    assert_eq!(merged.naive_down_time_ns, whole.naive_down_time_ns);
    assert_eq!(merged.oracle_down_time_ns, whole.oracle_down_time_ns);
    assert_eq!(merged.gpu_dense_bytes, whole.gpu_dense_bytes);
    for (m, w) in merged.configs.iter().zip(whole.configs.iter()) {
        assert_eq!(m.name, w.name);
        assert_eq!((m.up_time_ns, m.down_time_ns, m.down_time_ns_full_row), (w.up_time_ns, w.down_time_ns, w.down_time_ns_full_row));
    }
    assert_eq!(merged.per_token_latency, whole.per_token_latency);
}

#[test]
fn merging_into_an_empty_latency_list_takes_the_other() {
    let cfg = PimConfig::default();
    let none: Vec<LayoutConfig<'static>> = Vec::new();
    let a = run_layout_comparison(&vec![rec(0, 0, 8, &[1])], zero(), &cfg, &none).unwrap();
    let b = run_layout_comparison(&vec![rec(1, 0, 8, &[1])], zero(), &cfg, &none).unwrap();
    let m = a.merge(b);
    assert_eq!(m.records, 2);
    assert!(m.configs.is_empty());
    assert!(m.per_token_latency.is_empty());
}

#[test]
fn totals_merge_and_overflow() {
    let t = LayoutTotals {
        name: "x".to_string(),
        up_rows: 1,
        up_time_ns: 2,
        down_rows: 3,
        down_chunk_compute: 4,
        down_chunk_compute_full_row: 5,
        down_time_ns: 6,
        down_time_ns_full_row: 7,
    };
    let mut u = t.clone();
    u.name = "y".to_string();
    assert!(t.can_merge(&u));
    let m = t.clone().merge(u.clone());
    assert_eq!(m.name, "x");
    assert_eq!((m.up_rows, m.down_time_ns_full_row), (2, 14));
    u.up_time_ns = u64::MAX;
    assert!(!t.can_merge(&u));
}

#[test]
fn comparison_overflow_is_an_error() {
    let records = vec![rec(0, 0, 512, &[0, 1, 300])];
    let mut cfg = PimConfig::default();
    cfg.banks = 1 << 20;
    cfg.page_size = 16;
    cfg.activation_size = u32::MAX as u64;
    cfg.weight_bits = u32::MAX as u64;
    let res = run_layout_comparison(&records, zero(), &cfg, &two_configs());
    assert_eq!(res.err(), Some(LayoutError::Overflow));
}

fn stats() -> LayerActivationTable {
    let mut t: LayerActivationTable = HashMap::new();
    t.insert(0, LayerActivationStats { total_records: 4, activated_counts: vec![5, 1, 9, 1, 7] });
    t.insert(2, LayerActivationStats { total_records: 4, activated_counts: vec![0, 3] });
    t
}

#[test]
fn calibrations_cover_every_layer() {
    let s = stats();
    let greedy = greedy_up_calibration(&s, &MappingParams { n_banks: 4, span: 2, capacity_slack_permille: 1000 });
    assert_eq!(greedy.up_remap[&0], vec![2, 0, 0, 0, 2]);
    assert_eq!(greedy.up_remap.len(), 2);
    assert!(greedy.down_slot_of.is_empty());
    let cluster = cluster_calibration(&s);
    assert_eq!(cluster.down_slot_of[&0], vec![2, 3, 0, 4, 1]);
    assert_eq!(cluster.down_slot_of[&2], vec![1, 0]);
    assert!(cluster.up_remap.is_empty());
    let random = random_calibration(&s, 2);
    assert_eq!(random.up_remap[&2].len(), 2);
    let mut two = random.up_remap[&2].clone();
    two.sort();
    assert_eq!(two, vec![0, 1]);
}

#[test]
fn report_configurations_in_order() {
    let a = LayoutCalibration::default();
    let b = LayoutCalibration::default();
    let c = LayoutCalibration::default();
    let v = layout_report_configs(&a, &b, &c, 4, 8);
    let names: Vec<&str> = v.iter().map(|x| x.0).collect();
    assert_eq!(
        names,
        vec![
            "non-distributed async",
            "distributed, no stagger",
            "distributed + staggered",
            "non-distributed + down-clustered",
            "distributed+staggered+clustered"
        ]
    );
    assert_eq!(v[2].1, SpanLayout { span: 4, stagger: true });
    assert_eq!(v[2].3, SpanLayout { span: 8, stagger: true });
    assert!(v[0].4.is_none() && v[3].4.is_some());
}

fn totals(up: u64, down: u64) -> LayoutTotals {
    LayoutTotals {
        name: String::new(),
        up_rows: 0,
        up_time_ns: up,
        down_rows: 0,
        down_chunk_compute: 0,
        down_chunk_compute_full_row: 0,
        down_time_ns: down,
        down_time_ns_full_row: 0,
    }
}

#[test]
fn best_configuration_and_total() {
    let v = vec![totals(10, 50), totals(30, 20), totals(5, 45), totals(40, 8)];
    assert_eq!(best_config(&v), Some(3));
    assert_eq!(best_pim_total(&v), 5 + 8);
    assert_eq!(best_config(&Vec::new()), None);
    assert_eq!(best_pim_total(&Vec::new()), 0);
    let big = vec![totals(u64::MAX, u64::MAX)];
    assert_eq!(best_pim_total(&big), 2 * (u64::MAX as u128));
    assert_eq!(best_config(&vec![totals(1, 1), totals(2, 0)]), Some(0));
}

#[test]
fn empty_stream_costs_nothing() {
    let r: LayoutComparisonResult =
        run_layout_comparison(&Vec::new(), zero(), &PimConfig::default(), &two_configs()).unwrap();
    assert_eq!(r.records, 0);
    assert_eq!(r.configs[1].name, "span2");
    assert_eq!(r.per_token_latency, vec![Vec::<u64>::new(), Vec::new()]);
}

#[test]
fn streamed_run_equals_the_whole_stream() {
    let records = vec![rec(0, 0, 512, &[0, 1, 300]), rec(1, 1, 512, &[7]), rec(0, 1, 512, &[])];
    let cfgs = two_configs();
    let cfg = PimConfig::default();
    let mut run = LayoutRun::new(zero(), &cfg, &cfgs);
    for r in &records {
        run = run.add(r).unwrap();
    }
    let streamed = run.finish().unwrap();
    let whole = run_layout_comparison(&records, zero(), &cfg, &cfgs).unwrap();
    assert_eq!(streamed.records, 3);
    assert_eq!(streamed.naive_down_time_ns, whole.naive_down_time_ns);
    assert_eq!(streamed.configs[1].down_time_ns, whole.configs[1].down_time_ns);
    assert_eq!(streamed.per_token_latency, whole.per_token_latency);
}

#[test]
fn staggered_distribution_restores_the_flat_down_cost() {
    let cfgs: Vec<LayoutConfig> = vec![
        ("flat", SpanLayout::non_distributed(), None, SpanLayout::non_distributed(), None),
        ("staggered", SpanLayout::non_distributed(), None, SpanLayout { span: 4, stagger: true }, None),
    ];
    let records = vec![rec(0, 0, 2048, &[0, 1, 300, 700, 1500]), rec(1, 0, 2048, &[5, 2047])];
    let r = run_layout_comparison(&records, zero(), &PimConfig::default(), &cfgs).unwrap();
    let (a, b) = (&r.configs[0], &r.configs[1]);
    assert_eq!((a.down_rows, a.down_chunk_compute, a.down_time_ns), (b.down_rows, b.down_chunk_compute, b.down_time_ns));
    assert_eq!(a.down_chunk_compute_full_row, b.down_chunk_compute_full_row);
}
