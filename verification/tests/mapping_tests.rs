use std::collections::HashMap;

use parse_histogram::pim::mapping::random_remap;
use parse_histogram::{
    build_remap_table, cluster_slot_of, generate_mapping, mapping_quality, LayerActivationStats,
    LayerActivationTable, MappingParams, MappingStrategy, MappingStrategyArg, RemapTable,
};

fn params(n_banks: usize, span: usize, permille: u64) -> MappingParams {
    MappingParams { n_banks, span, capacity_slack_permille: permille }
}

const W: [u64; 5] = [5, 1, 9, 1, 7];

#[test]
fn default_params() {
    let p = MappingParams::default();
    assert_eq!((p.n_banks, p.span, p.capacity_slack_permille), (1024, 1, 1200));
}

#[test]
fn strategy_args_select_strategies() {
    assert_eq!(MappingStrategyArg::Modulo.strategy(), MappingStrategy::Modulo);
    assert_eq!(MappingStrategyArg::RoundRobin.strategy(), MappingStrategy::SortedRoundRobin);
    assert_eq!(MappingStrategyArg::Greedy.strategy(), MappingStrategy::GreedyLpt);
}

#[test]
fn cluster_slot_of_ranks_by_descending_weight_ties_by_index() {
    assert_eq!(cluster_slot_of(&W), vec![2, 3, 0, 4, 1]);
    assert_eq!(cluster_slot_of(&[1, 1, 1]), vec![0, 1, 2]);
    assert_eq!(cluster_slot_of(&[]), Vec::<usize>::new());
    assert_eq!(cluster_slot_of(&[0, u64::MAX, 3]), vec![2, 0, 1]);
}

#[test]
fn modulo_mapping_ignores_weights() {
    let p = params(4, 2, 1000);
    assert_eq!(generate_mapping(&W, &p, MappingStrategy::Modulo), vec![0, 2, 0, 2, 0]);
    assert_eq!(generate_mapping(&[0; 5], &p, MappingStrategy::Modulo), vec![0, 2, 0, 2, 0]);
}

#[test]
fn sorted_round_robin_deals_by_rank() {
    let p = params(4, 2, 1000);
    assert_eq!(generate_mapping(&W, &p, MappingStrategy::SortedRoundRobin), vec![0, 2, 0, 0, 2]);
}

#[test]
fn greedy_lpt_fills_least_loaded_slot() {
    let p = params(4, 2, 1000);
    assert_eq!(generate_mapping(&W, &p, MappingStrategy::GreedyLpt), vec![2, 0, 0, 0, 2]);
    // cap 2 (slack 0.5): the last neuron finds every slot full and falls back to slot 0
    let tight = params(4, 2, 500);
    assert_eq!(generate_mapping(&W, &tight, MappingStrategy::GreedyLpt), vec![2, 0, 0, 0, 2]);
    // span 1, eight banks: each of the five neurons gets a bank of its own
    let wide = params(8, 1, 1200);
    assert_eq!(generate_mapping(&W, &wide, MappingStrategy::GreedyLpt), vec![2, 3, 0, 4, 1]);
}

#[test]
fn greedy_with_tight_slack_balances_counts() {
    let w: Vec<u64> = vec![100, 1, 1, 1, 1, 1, 1, 1];
    let p = params(2, 1, 1000);
    let banks = generate_mapping(&w, &p, MappingStrategy::GreedyLpt);
    let in0 = banks.iter().filter(|&&b| b == 0).count();
    assert_eq!(in0, 4);
    assert_eq!(banks.len() - in0, 4);
    let loose = params(2, 1, 4000);
    let banks = generate_mapping(&w, &loose, MappingStrategy::GreedyLpt);
    assert_eq!(banks, vec![0, 1, 1, 1, 1, 1, 1, 1]);
}

#[test]
fn every_strategy_yields_span_aligned_banks_in_range() {
    let w: Vec<u64> = (0..37).map(|i| (i * 7919 % 101) as u64).collect();
    for strategy in [MappingStrategy::Modulo, MappingStrategy::SortedRoundRobin, MappingStrategy::GreedyLpt] {
        for (n_banks, span) in [(16, 1), (16, 4), (12, 3), (8, 8)] {
            let banks = generate_mapping(&w, &params(n_banks, span, 1200), strategy);
            assert_eq!(banks.len(), w.len());
            assert!(banks.iter().all(|&b| b < n_banks && b % span == 0));
        }
    }
}

#[test]
fn mapping_quality_counts_slots_and_loads() {
    let p = params(4, 2, 1000);
    let q = mapping_quality(&W, &[2, 0, 0, 0, 2], &p);
    assert_eq!(q.n_slots, 2);
    assert_eq!(q.slot_counts, vec![3, 2]);
    assert_eq!(q.slot_loads, vec![11, 12]);
    assert_eq!((q.neuron_count_min, q.neuron_count_max), (2, 3));
    assert_eq!((q.load_min, q.load_max), (Some(11), 12));
}

#[test]
fn mapping_quality_of_empty_mapping() {
    let q = mapping_quality(&[], &[], &params(6, 2, 1000));
    assert_eq!(q.slot_counts, vec![0, 0, 0]);
    assert_eq!(q.load_min, Some(0));
    let none = mapping_quality(&[], &[], &params(1, 2, 1000));
    assert_eq!(none.n_slots, 0);
    assert_eq!(none.load_min, None);
    assert_eq!((none.neuron_count_min, none.neuron_count_max, none.load_max), (0, 0, 0));
}

#[test]
fn remap_table_maps_every_layer_for_both_arrays() {
    let mut stats: LayerActivationTable = HashMap::new();
    stats.insert(3, LayerActivationStats { total_records: 10, activated_counts: W.to_vec() });
    stats.insert(8, LayerActivationStats { total_records: 0, activated_counts: vec![4, 4] });
    let up = params(4, 2, 1000);
    let down = params(8, 1, 1000);
    let t = build_remap_table(&stats, &up, &down, MappingStrategy::GreedyLpt);
    assert_eq!(t.up_remap.len(), 2);
    assert_eq!(t.down_remap.len(), 2);
    assert_eq!(t.up_remap[&3], vec![2, 0, 0, 0, 2]);
    assert_eq!(t.down_remap[&3], vec![2, 3, 0, 4, 1]);
    // no records seen: every weight counts as zero, so neurons go in index order
    assert_eq!(t.down_remap[&8], vec![0, 1]);
    assert!(t.fits_banks(8));
    assert!(!t.fits_banks(4));
}

#[test]
fn fits_banks_checks_every_entry() {
    let mut t = RemapTable { down_remap: HashMap::new(), up_remap: HashMap::new() };
    assert!(t.fits_banks(0));
    t.up_remap.insert(0, vec![0, 3]);
    assert!(t.fits_banks(4));
    assert!(!t.fits_banks(3));
}

#[test]
fn random_remap_is_a_balanced_deterministic_deal() {
    let a = random_remap(3, 16, 4);
    let b = random_remap(3, 16, 4);
    assert_eq!(a, b);
    for bank in 0..4 {
        assert_eq!(a.iter().filter(|&&x| x == bank).count(), 4);
    }
    let c = random_remap(4, 16, 4);
    assert_ne!(a, c);
    assert_eq!(random_remap(-1, 5, 8).iter().filter(|&&x| x < 5).count(), 5);
    assert_eq!(random_remap(0, 0, 3), Vec::<usize>::new());
    assert_eq!(random_remap(9, 1, 3), vec![0]);
}

#[test]
fn greedy_at_unit_slack_keeps_counts_within_rounding() {
    let p = params(4, 1, 1000);
    let banks = generate_mapping(&[0; 5], &p, MappingStrategy::GreedyLpt);
    assert_eq!(banks, vec![0, 0, 1, 2, 3]);
    let mut counts = [0usize; 4];
    for &b in &banks {
        counts[b] += 1;
    }
    assert!(counts.iter().max().unwrap() - counts.iter().min().unwrap() <= 1);
}

#[test]
fn greedy_above_unit_slack_lets_any_slot_reach_the_cap() {
    let p = params(4, 1, 1200);
    let banks = generate_mapping(&[5, 0, 0, 0, 0], &p, MappingStrategy::GreedyLpt);
    let mut counts = [0usize; 4];
    for &b in &banks {
        counts[b] += 1;
    }
    assert_eq!(counts, [1, 2, 2, 0]);
}
