use parse_histogram::calibration::add_to_activation_stats;
use parse_histogram::histogram::add_to_histograms;
use parse_histogram::sparsity::add_to_sparsity;
use parse_histogram::{
    compute_activation_stats, compute_histograms, compute_sparsity, merge_activation_tables,
    LayerActivationStats, LayerActivationTable, LayerHistograms, LayerSparsity, Record,
};

fn rec(token: i32, layer: i32, batch: i32, scores: &[f32]) -> Record {
    Record { token, layer, batch, scores: scores.iter().map(|s| s.to_bits()).collect() }
}

fn zero() -> u32 {
    0.0f32.to_bits()
}

fn sample() -> Vec<Record> {
    vec![
        rec(0, 0, 0, &[1.0, -0.5, 2.0]),
        rec(0, 1, 0, &[-0.5, 0.5]),
        rec(1, 0, 0, &[0.5, 3.0]),
        rec(1, 1, 0, &[-1.0, -0.5, -0.5, 4.0]),
    ]
}

#[test]
fn histograms_count_active_positions_per_layer() {
    let h = compute_histograms(&sample(), zero());
    assert_eq!(h.len(), 2);
    assert_eq!(h[&0], vec![2, 1, 1]);
    assert_eq!(h[&1], vec![0, 1, 0, 1]);
    let mut streamed: LayerHistograms = LayerHistograms::new();
    for r in &sample() {
        add_to_histograms(&mut streamed, r, zero());
    }
    assert_eq!(streamed, h);
}

#[test]
fn histograms_respect_threshold() {
    let h = compute_histograms(&sample(), 0.75f32.to_bits());
    assert_eq!(h[&0], vec![1, 1, 1]);
    assert_eq!(h[&1], vec![0, 0, 0, 1]);
    assert!(compute_histograms(&Vec::new(), zero()).is_empty());
}

#[test]
fn sparsity_counts_neurons_and_active_neurons() {
    let s = compute_sparsity(&sample(), zero());
    assert_eq!(s.overall, LayerSparsity { total_neurons: 11, activated_neurons: 6 });
    assert_eq!(s.per_layer[&0], LayerSparsity { total_neurons: 5, activated_neurons: 4 });
    assert_eq!(s.per_layer[&1], LayerSparsity { total_neurons: 6, activated_neurons: 2 });
    let mut streamed = compute_sparsity(&Vec::new(), zero());
    assert_eq!(streamed.overall, LayerSparsity { total_neurons: 0, activated_neurons: 0 });
    for r in &sample() {
        add_to_sparsity(&mut streamed, r, zero());
    }
    assert_eq!(streamed.overall, s.overall);
    assert_eq!(streamed.per_layer, s.per_layer);
}

#[test]
fn activation_stats_count_records_and_active_positions() {
    let t = compute_activation_stats(&sample(), zero());
    assert_eq!(t.len(), 2);
    assert_eq!(t[&0].total_records, 2);
    assert_eq!(t[&0].activated_counts, vec![2, 1, 1]);
    assert_eq!(t[&1].total_records, 2);
    assert_eq!(t[&1].activated_counts, vec![0, 1, 0, 1]);
    let mut streamed: LayerActivationTable = LayerActivationTable::new();
    for r in &sample() {
        add_to_activation_stats(&mut streamed, r, zero());
    }
    assert_eq!(streamed[&1].activated_counts, t[&1].activated_counts);
}

#[test]
fn merged_tables_equal_the_stats_of_the_concatenation() {
    let all = sample();
    let (a, b) = all.split_at(2);
    let merged = merge_activation_tables(
        compute_activation_stats(&a.to_vec(), zero()),
        compute_activation_stats(&b.to_vec(), zero()),
    );
    let whole = compute_activation_stats(&all, zero());
    assert_eq!(merged.len(), whole.len());
    for (layer, s) in &whole {
        assert_eq!(merged[layer].total_records, s.total_records);
        assert_eq!(merged[layer].activated_counts, s.activated_counts);
    }
}

#[test]
fn activation_weights_are_counts_or_zero_without_records() {
    let s = LayerActivationStats { total_records: 3, activated_counts: vec![3, 0, 2] };
    assert_eq!(s.activation_weights(), vec![3, 0, 2]);
    let empty = LayerActivationStats { total_records: 0, activated_counts: vec![5, 1] };
    assert_eq!(empty.activation_weights(), vec![0, 0]);
}
