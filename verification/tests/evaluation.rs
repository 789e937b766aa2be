//! Metrics, risk control and the log of labels.
use std::collections::HashSet;

use octasoma::conformal::{quantile_at, rcps_select};
use octasoma::feedback::{FeedbackSource, RelevanceFeedback};
use octasoma::metrics::{
    first_places, first_relevant_rank, precision_at_k, precision_steps, recall_at_k,
};

fn set(ids: &[u64]) -> HashSet<u64> {
    ids.iter().copied().collect()
}

fn ratio(r: (usize, usize)) -> f64 {
    r.0 as f64 / r.1 as f64
}

fn reciprocal_rank(retrieved: &[u64], relevant: &HashSet<u64>) -> f64 {
    match first_relevant_rank(retrieved, relevant) {
        0 => 0.0,
        r => 1.0 / r as f64,
    }
}

#[test]
fn recall_precision_and_rr_hand_values() {
    // retrieved top-4 = [1,2,3,4]; relevant = {2,4,9}.
    let retrieved = [1, 2, 3, 4];
    let relevant = set(&[2, 4, 9]);
    assert!((ratio(recall_at_k(&retrieved, &relevant, 4)) - 2.0 / 3.0).abs() < 1e-12);
    assert!((ratio(precision_at_k(&retrieved, &relevant, 4)) - 0.5).abs() < 1e-12);
    assert!((reciprocal_rank(&retrieved, &relevant) - 0.5).abs() < 1e-12);
    assert_eq!(reciprocal_rank(&retrieved, &set(&[9])), 0.0);
    // Short result lists are not penalised for missing positions.
    assert!((ratio(precision_at_k(&[2], &relevant, 4)) - 1.0).abs() < 1e-12);
}

#[test]
fn map_and_mrr_hand_values() {
    // Hits at ranks 2 and 4 of 3 relevant: AP = (1/2 + 2/4) / 3.
    let steps = precision_steps(&[1, 2, 3, 4], &set(&[2, 4, 9]));
    let ap = steps.iter().map(|&s| ratio(s)).sum::<f64>() / 3.0;
    assert!((ap - (0.5 + 0.5) / 3.0).abs() < 1e-12);
    let mrr = (reciprocal_rank(&[1, 2], &set(&[2]))
        + reciprocal_rank(&[3, 1], &set(&[3]))
        + reciprocal_rank(&[5, 6], &set(&[7])))
        / 3.0;
    assert!((mrr - (0.5 + 1.0) / 3.0).abs() < 1e-12);
}

#[test]
fn nothing_relevant_is_nothing_recalled() {
    assert_eq!(recall_at_k(&[1, 2], &set(&[]), 2), (0, 1));
    assert_eq!(ratio(precision_at_k(&[], &set(&[1]), 5)), 0.0);
}

#[test]
fn an_item_that_is_ranked_twice_is_recalled_once() {
    assert_eq!(recall_at_k(&[2, 2], &set(&[2]), 2), (1, 1));
    assert_eq!(recall_at_k(&[2, 2, 4], &set(&[2, 4, 9]), 3), (2, 3));
    // Both ranks hold a relevant item, so both count for precision.
    assert_eq!(precision_at_k(&[2, 2], &set(&[2]), 2), (2, 2));
    assert_eq!(precision_steps(&[2, 2, 4], &set(&[2, 4])), vec![(1, 1), (2, 3)]);
}

#[test]
fn a_repeated_item_is_new_once() {
    assert_eq!(first_places(&[3, 1, 3, 2, 1]), vec![true, true, false, true, false]);
    assert!(first_places(&[]).is_empty());
}

#[test]
fn looking_deeper_loses_nothing() {
    let ranked = [7, 2, 9, 2, 4];
    let relevant = set(&[2, 4, 9]);
    let found: Vec<usize> = (1..=5).map(|k| recall_at_k(&ranked, &relevant, k).0).collect();
    assert_eq!(found, vec![0, 1, 2, 2, 3]);
}

fn conformal_quantile(scores: &[f64], alpha: f64) -> f64 {
    let n = scores.len();
    let keys: Vec<u64> = scores.iter().map(|s| s.to_bits()).collect();
    let rank = (((n + 1) as f64) * (1.0 - alpha)).ceil() as usize;
    match quantile_at(&keys, rank) {
        Some(i) => scores[i],
        None => f64::INFINITY,
    }
}

#[test]
fn conformal_quantile_is_finite_sample_correct() {
    // n=4, alpha=0.5: k = ceil(5*0.5) = 3, the 3rd smallest is 0.3.
    let q = conformal_quantile(&[0.4, 0.1, 0.3, 0.2], 0.5);
    assert!((q - 0.3).abs() < 1e-12, "q = {q}");
    // Too few calibration points for the asked coverage: infinity, never fake.
    assert!(conformal_quantile(&[0.5, 0.7], 0.1).is_infinite());
    assert!(conformal_quantile(&[], 0.5).is_infinite());
}

fn select(risks: &[f64], n: usize, alpha: f64, delta: f64) -> Option<usize> {
    let slack = ((1.0 / delta).ln() / (2.0 * n as f64)).sqrt();
    let controlled: Vec<bool> = risks.iter().map(|r| r + slack <= alpha).collect();
    rcps_select(&controlled)
}

#[test]
fn rcps_picks_the_smallest_certified_candidate_and_stops_at_a_violation() {
    // n large enough that the UCB slack is ~0.048 at delta=0.1.
    let n = 1000;
    // Monotone risks; alpha=0.2 certifies indices 2 and 3 only.
    assert_eq!(select(&[0.5, 0.3, 0.1, 0.0], n, 0.2, 0.1), Some(2));
    // A violation in the middle stops the scan: index 1's UCB > alpha, so index 0 is never
    // reached even though its risk is low.
    assert_eq!(select(&[0.0, 0.9, 0.0], n, 0.2, 0.1), Some(2));
    // Nothing certifies.
    assert_eq!(select(&[0.5, 0.4], n, 0.2, 0.1), None);
    // Too little data certifies nothing, whatever the risks.
    assert_eq!(select(&[0.0, 0.0], 3, 0.05, 0.05), None);
}

#[test]
fn records_and_projects_calibration_views() {
    let mut log = RelevanceFeedback::new();
    assert!(log.is_empty());
    log.record("q1", "m1", 0.9f32.to_bits(), true);
    log.record("q1", "m2", 0.7f32.to_bits(), false);
    log.record_ground_truth("q2", "m3", 0.8f32.to_bits(), true);

    assert_eq!(log.len(), 3);
    assert_eq!(log.relevant_count(), 2);
    assert_eq!(
        log.score_labels(),
        vec![
            (0.9f32.to_bits(), true),
            (0.7f32.to_bits(), false),
            (0.8f32.to_bits(), true)
        ]
    );
    assert_eq!(log.entries()[0].source, FeedbackSource::RetrievedCandidate);
    assert_eq!(log.entries()[2].source, FeedbackSource::ExternalGroundTruth);
    // Only independent confirmed-relevant targets calibrate recall coverage.
    let nc: Vec<f32> = log.nonconformity().iter().map(|&s| 1.0 - f32::from_bits(s)).collect();
    assert_eq!(nc.len(), 1);
    assert!((nc[0] - 0.2).abs() < 1e-6);
}

#[test]
fn a_temperature_needs_both_verdicts() {
    let mut log = RelevanceFeedback::new();
    log.record("q", "a", 1, true);
    assert!(!log.identifies_temperature());
    log.record("q", "b", 1, true);
    assert!(!log.identifies_temperature());
    log.record("q", "c", 1, false);
    assert!(log.identifies_temperature());
}
