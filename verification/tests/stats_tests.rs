use team_trial_tracker::plot::{UmaBoxPlot, UmaData};
use team_trial_tracker::stats::{get_percentile, mean_score, sort_scores};
use std::collections::HashSet;

/// The box plot as the floating-point formulas compute it.
struct Expected {
    min: u32,
    median: u32,
    mean: u32,
    max: u32,
    q1: u32,
    q3: u32,
    lower_whisker: u32,
    upper_whisker: u32,
    outliers: HashSet<u32>,
}

fn float_percentile(data: &[u32], fraction: f64) -> u32 {
    let count = (data.len() - 1) as f64;
    let point = count * fraction;
    let lower_idx = point.floor() as usize;
    let upper_idx = point.ceil() as usize;
    let lower_val = data[lower_idx] as f64;
    let upper_val = data[upper_idx] as f64;
    let fract = point.fract();
    (lower_val * (1.0 - fract) + upper_val * fract) as u32
}

fn expected(scores: &[u32]) -> Expected {
    let mut sorted = scores.to_vec();
    sorted.sort_unstable();
    let mean = sorted.iter().sum::<u32>() / sorted.len() as u32;
    let min = sorted[0];
    let max = *sorted.last().unwrap();
    let q1 = float_percentile(&sorted, 0.25) as f64;
    let median = float_percentile(&sorted, 0.5);
    let q3 = float_percentile(&sorted, 0.75) as f64;
    let iqr = q3 - q1;
    let lower = ((q1 - 1.5 * iqr) as u32).max(min);
    let upper = ((q3 + 1.5 * iqr) as u32).min(max);
    let outliers: HashSet<u32> =
        sorted.iter().copied().filter(|s| *s < lower || *s > upper).collect();
    let lower_whisker = *sorted.iter().find(|s| !outliers.contains(s)).unwrap();
    let upper_whisker = *sorted.iter().rfind(|s| !outliers.contains(s)).unwrap();
    Expected {
        min,
        median,
        mean,
        max,
        q1: q1 as u32,
        q3: q3 as u32,
        lower_whisker,
        upper_whisker,
        outliers,
    }
}

fn check(scores: &[u32]) {
    let data = UmaData { name: "Mayano Top Gun".to_string(), scores: scores.to_vec() };
    let b = UmaBoxPlot::from_uma_data(&data);
    let e = expected(scores);
    assert_eq!(b.label, "Mayano Top Gun");
    assert_eq!(b.min, e.min);
    assert_eq!(b.max, e.max);
    assert_eq!(b.mean, e.mean);
    assert_eq!(b.q1, e.q1, "q1 of {scores:?}");
    assert_eq!(b.median, e.median, "median of {scores:?}");
    assert_eq!(b.q3, e.q3, "q3 of {scores:?}");
    assert_eq!(b.lower_whisker, e.lower_whisker, "lower whisker of {scores:?}");
    assert_eq!(b.upper_whisker, e.upper_whisker, "upper whisker of {scores:?}");
    assert_eq!(b.outliers.iter().copied().collect::<HashSet<u32>>(), e.outliers);
    assert!(b.outliers.windows(2).all(|w| w[0] < w[1]));
}

#[test]
fn box_plot_of_small_lists() {
    check(&[47131]);
    check(&[40000, 50000]);
    check(&[50000, 40000, 45000]);
    check(&[1, 2, 3, 4, 5, 100]);
    check(&[0, 100, 100, 100, 100]);
    check(&[10, 10, 10, 10]);
}

#[test]
fn box_plot_exact_values() {
    let data = UmaData { name: "Special Week".to_string(), scores: vec![1, 2, 3, 4, 5, 100] };
    let b = UmaBoxPlot::from_uma_data(&data);
    // Positions 1.25, 2.5 and 3.75 between the sorted scores.
    assert_eq!((b.q1, b.median, b.q3), (2, 3, 4));
    assert_eq!(b.mean, 19);
    assert_eq!((b.lower_whisker, b.upper_whisker), (1, 5));
    assert_eq!(b.outliers, vec![100]);
}

#[test]
fn box_plot_matches_floating_point_on_generated_lists() {
    let mut seed: u64 = 0x2545f4914f6cdd1d;
    for n in 1..60usize {
        for _ in 0..20 {
            let mut v = Vec::new();
            for _ in 0..n {
                seed ^= seed << 13;
                seed ^= seed >> 7;
                seed ^= seed << 17;
                v.push(30000 + (seed % 30000) as u32);
            }
            check(&v);
        }
    }
}

#[test]
fn percentiles_and_mean() {
    let data = vec![10, 20, 30, 40];
    assert_eq!(get_percentile(&data, 0), 10);
    assert_eq!(get_percentile(&data, 1), 17);
    assert_eq!(get_percentile(&data, 2), 25);
    assert_eq!(get_percentile(&data, 3), 32);
    assert_eq!(get_percentile(&data, 4), 40);
    assert_eq!(mean_score(&vec![1, 2, 4]), 2);
    assert_eq!(sort_scores(&vec![3, 1, 2, 1]), vec![1, 1, 2, 3]);
}

#[test]
fn box_plot_ignores_score_order() {
    let a = UmaBoxPlot::from_uma_data(&UmaData { name: "A".to_string(), scores: vec![9, 1, 50, 4, 4, 7] });
    let b = UmaBoxPlot::from_uma_data(&UmaData { name: "A".to_string(), scores: vec![4, 50, 7, 9, 4, 1] });
    assert_eq!(
        (a.min, a.q1, a.median, a.mean, a.q3, a.max, a.lower_whisker, a.upper_whisker, a.outliers),
        (b.min, b.q1, b.median, b.mean, b.q3, b.max, b.lower_whisker, b.upper_whisker, b.outliers)
    );
}
