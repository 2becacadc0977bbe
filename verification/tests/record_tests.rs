use parse_histogram::record::{
    decode_header, decode_record, score_reaches, RecordError, RecordHeader, HEADER_LEN,
};
use parse_histogram::{FilterIter, Record, RecordIter};

fn rec(token: i32, layer: i32, batch: i32, scores: &[f32]) -> Record {
    Record { token, layer, batch, scores: scores.iter().map(|s| s.to_bits()).collect() }
}

fn header_bytes(token: i32, layer: i32, batch: i32, n: i32) -> Vec<u8> {
    let mut b = Vec::new();
    b.extend_from_slice(&token.to_le_bytes());
    b.extend_from_slice(&layer.to_le_bytes());
    b.extend_from_slice(&batch.to_le_bytes());
    b.extend_from_slice(&n.to_le_bytes());
    b
}

#[test]
fn score_reaches_matches_f32_comparison() {
    let values = [
        0.0f32, -0.0, 1.0, -1.0, 0.5, 3.5, -2.25, f32::MIN_POSITIVE, f32::MAX, f32::MIN,
        f32::INFINITY, f32::NEG_INFINITY, f32::NAN, 1e-30, -1e-30,
    ];
    for &a in &values {
        for &b in &values {
            assert_eq!(score_reaches(a.to_bits(), b.to_bits()), a >= b, "{} >= {}", a, b);
        }
    }
}

#[test]
fn active_positions_are_scores_reaching_threshold() {
    let r = rec(0, 0, 0, &[0.0, 1.0, -1.0, 0.25, 2.0]);
    assert_eq!(r.active_indices(0.0f32.to_bits()), vec![0, 1, 3, 4]);
    assert_eq!(r.activated_count(0.0f32.to_bits()), 4);
    assert_eq!(r.active_indices(0.5f32.to_bits()), vec![1, 4]);
    assert_eq!(r.activated_count(5.0f32.to_bits()), 0);
}

#[test]
fn header_and_record_decode_little_endian() {
    let hb = header_bytes(7, -3, 2, 3);
    assert_eq!(hb.len(), HEADER_LEN);
    let h = decode_header(&hb);
    assert_eq!(h, RecordHeader { token: 7, layer: -3, batch: 2, n_neurons: 3 });
    assert_eq!(h.data_len(), 12);
    let mut data = Vec::new();
    for s in [1.5f32, -0.0, 8.0] {
        data.extend_from_slice(&s.to_le_bytes());
    }
    let r = decode_record(&h, &data);
    assert_eq!(r.token, 7);
    assert_eq!(r.layer, -3);
    assert_eq!(r.batch, 2);
    assert_eq!(r.scores, vec![1.5f32.to_bits(), (-0.0f32).to_bits(), 8.0f32.to_bits()]);
}

#[test]
fn record_iter_counts_headers_and_rejects_non_positive_counts() {
    let mut it = RecordIter::new(vec![1u8, 2, 3]);
    assert_eq!(it.index(), 0);
    assert!(!it.is_done());
    let ok = it.begin_record(&header_bytes(1, 2, 3, 4));
    assert_eq!(ok, Ok(RecordHeader { token: 1, layer: 2, batch: 3, n_neurons: 4 }));
    assert_eq!(it.index(), 1);
    let zero = it.begin_record(&header_bytes(1, 2, 3, 0));
    assert_eq!(zero, Err(RecordError::NonPositiveNeurons { index: 2, n_neurons: 0 }));
    let neg = it.begin_record(&header_bytes(1, 2, 3, -5));
    assert_eq!(neg, Err(RecordError::NonPositiveNeurons { index: 3, n_neurons: -5 }));
    it.reader_mut().push(9);
    it.end_of_stream();
    assert!(it.is_done());
    assert_eq!(it.index(), 3);
    assert_eq!(it.into_inner(), vec![1u8, 2, 3, 9]);
}

#[test]
fn filter_keeps_matching_layer_and_batch() {
    let a = rec(0, 1, 2, &[1.0]);
    let b = rec(0, 1, 3, &[1.0]);
    let c = rec(0, 4, 2, &[1.0]);
    let f = FilterIter::new((), Some(1), Some(2));
    assert!(f.keeps(&a));
    assert!(!f.keeps(&b));
    assert!(!f.keeps(&c));
    let any = FilterIter::new((), None, None);
    assert!(any.keeps(&a) && any.keeps(&b) && any.keeps(&c));
    let mut layer_only = FilterIter::new(5u32, Some(4), None);
    assert!(layer_only.keeps(&c));
    assert!(!layer_only.keeps(&a));
    *layer_only.inner_mut() = 6;
    assert!(layer_only.keeps(&c));
}

#[test]
fn scores_equal_to_the_threshold_are_active() {
    let r = rec(0, 0, 0, &[0.0, 0.5, -1.0, 0.0]);
    assert_eq!(r.activated_count(0.0f32.to_bits()), 3);
    let z = rec(0, 0, 0, &[-0.0, f32::NAN]);
    assert_eq!(z.active_indices(0.0f32.to_bits()), vec![0]);
}
