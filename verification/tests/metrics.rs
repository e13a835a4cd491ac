use quant_edge::calendar::Date;
use quant_edge::metrics::ic::{self, Sample};
use quant_edge::metrics::stats::{self, Baseline, Skipped};
use quant_edge::number::Number;

fn n(x: f64) -> Number {
    Number::from_bits(x.to_bits())
}

fn f(x: Number) -> f64 {
    f64::from_bits(x.to_bits())
}

fn ns(v: &[f64]) -> Vec<Number> {
    v.iter().map(|x| n(*x)).collect()
}

fn d(s: &str) -> Date {
    Date::from_text(s).unwrap()
}

/// Linear correlation of a sample, nothing where a side does not vary.
fn correlate(xs: &[f64], ys: &[f64]) -> Option<f64> {
    let k = xs.len() as f64;
    let mx = xs.iter().sum::<f64>() / k;
    let my = ys.iter().sum::<f64>() / k;
    let cov: f64 = xs.iter().zip(ys).map(|(x, y)| (x - mx) * (y - my)).sum();
    let vx: f64 = xs.iter().map(|x| (x - mx).powi(2)).sum();
    let vy: f64 = ys.iter().map(|y| (y - my).powi(2)).sum();
    if vx < 1e-18 || vy < 1e-18 {
        return None;
    }
    Some((cov / (vx.sqrt() * vy.sqrt())).clamp(-1.0, 1.0))
}

fn pearson(xs: &[f64], ys: &[f64]) -> Option<f64> {
    let s: Sample = ic::pearson(&ns(xs), &ns(ys))?;
    let a: Vec<f64> = s.xs.iter().map(|x| f(*x)).collect();
    let b: Vec<f64> = s.ys.iter().map(|x| f(*x)).collect();
    correlate(&a, &b)
}

fn ranks(v: &[f64]) -> Vec<f64> {
    ic::ranks(&ns(v)).iter().map(|r| *r as f64 / 2.0).collect()
}

fn spearman(xs: &[f64], ys: &[f64]) -> Option<f64> {
    let s = ic::spearman(&ns(xs), &ns(ys))?;
    let a: Vec<f64> = s.xs.iter().map(|x| *x as f64 / 2.0).collect();
    let b: Vec<f64> = s.ys.iter().map(|x| *x as f64 / 2.0).collect();
    correlate(&a, &b)
}

#[test]
fn pearson_perfect_and_inverse() {
    let x = [1.0, 2.0, 3.0, 4.0];
    assert!((pearson(&x, &[2.0, 4.0, 6.0, 8.0]).unwrap() - 1.0).abs() < 1e-12);
    assert!((pearson(&x, &[8.0, 6.0, 4.0, 2.0]).unwrap() + 1.0).abs() < 1e-12);
}

#[test]
fn pearson_none_when_no_variance_or_too_few() {
    assert!(pearson(&[1.0, 1.0, 1.0], &[1.0, 2.0, 3.0]).is_none());
    assert!(pearson(&[1.0], &[1.0]).is_none());
    assert!(ic::pearson(&ns(&[1.0]), &ns(&[1.0])).is_none());
}

#[test]
fn ranks_average_ties() {
    assert_eq!(ranks(&[10.0, 20.0, 20.0, 30.0]), vec![1.0, 2.5, 2.5, 4.0]);
}

#[test]
fn spearman_is_rank_based_not_linear() {
    let x = [1.0, 2.0, 3.0, 4.0, 5.0];
    let y = [1.0, 10.0, 100.0, 1_000.0, 100_000.0];
    assert!((spearman(&x, &y).unwrap() - 1.0).abs() < 1e-12);
    assert!(pearson(&x, &y).unwrap() < 0.9);
}

#[test]
fn spearman_resists_a_single_outlier() {
    let x = [1.0, 2.0, 3.0, 4.0, 5.0, 6.0];
    let y = [1.0, 2.0, 3.0, 4.0, 5.0, 1_000_000.0];
    assert!((spearman(&x, &y).unwrap() - 1.0).abs() < 1e-12);
}

#[test]
fn non_finite_pairs_are_dropped() {
    let x = [1.0, 2.0, f64::NAN, 4.0];
    let y = [1.0, 2.0, 3.0, 4.0];
    assert!((spearman(&x, &y).unwrap() - 1.0).abs() < 1e-12);
    let s = ic::drop_non_finite(&ns(&x), &ns(&y));
    assert_eq!(s.xs, ns(&[1.0, 2.0, 4.0]));
    assert_eq!(s.ys, ns(&[1.0, 2.0, 4.0]));
}

#[test]
fn summary_stats() {
    let s = ic::summarize(&ns(&[0.1, 0.1, 0.1, -0.1]));
    let v: Vec<f64> = s.kept.iter().map(|x| f(*x)).collect();
    let mean = v.iter().sum::<f64>() / v.len() as f64;
    let std = (v.iter().map(|x| (x - mean).powi(2)).sum::<f64>() / 3.0).sqrt();
    assert_eq!(v.len(), 4);
    assert!((mean - 0.05).abs() < 1e-12);
    assert!((s.hits as f64 / 4.0 - 0.75).abs() < 1e-12);
    assert!(mean / (std / 2.0) > 0.0);
    assert_eq!(ic::summarize(&Vec::new()).kept.len(), 0);
}

#[test]
fn a_coefficient_that_is_not_finite_counts_neither_as_a_period_nor_as_a_hit() {
    let s = ic::summarize(&ns(&[0.2, f64::NAN, f64::INFINITY, 0.0]));
    assert_eq!(s.kept, ns(&[0.2, 0.0]));
    assert_eq!(s.hits, 1);
}

#[test]
fn reversed_values_have_mirrored_ranks() {
    let a = ic::ranks(&ns(&[5.0, -1.0, 5.0, 2.0]));
    let b = ic::ranks(&ns(&[-5.0, 1.0, -5.0, -2.0]));
    assert_eq!(a, vec![7, 2, 7, 4]);
    for i in 0..4 {
        assert_eq!(a[i] + b[i], 10);
    }
}

#[test]
fn the_two_zeros_share_a_rank() {
    assert_eq!(ic::ranks(&ns(&[0.0, -0.0, 1.0])), vec![3, 3, 6]);
}

// ── Drawdowns ────────────────────────────────────────────────────────────────

/// The depth of every day below its last peak.
fn depths(values: &[f64]) -> Vec<Number> {
    let peaks = stats::peaks(&ns(values));
    values.iter().enumerate().map(|(i, v)| n((v - values[peaks[i]]) / values[peaks[i]])).collect()
}

fn days(k: usize) -> Vec<Date> {
    (0..k).map(|i| d("2024-01-01").plus_days(i as i64)).collect()
}

#[test]
fn steady_growth_has_no_drawdown() {
    let v: Vec<f64> = (0..50).map(|i| 1_000.0 * 1.001f64.powi(i)).collect();
    let (max, periods) = stats::compute_drawdowns(&days(50), &ns(&v), &depths(&v));
    assert_eq!(f(max), 0.0);
    assert!(periods.is_empty());
}

#[test]
fn drawdown_is_detected_with_its_recovery() {
    let v = [100.0, 120.0, 60.0, 90.0, 121.0, 125.0];
    let (max, periods) = stats::compute_drawdowns(&days(6), &ns(&v), &depths(&v));
    assert!((f(max) + 0.5).abs() < 1e-9, "max dd {}", f(max));
    assert_eq!(periods.len(), 1);
    assert!(periods[0].recovery_date.is_some());
    assert_eq!(periods[0].peak_date, d("2024-01-02"));
    assert_eq!(periods[0].trough_date, d("2024-01-03"));
    assert_eq!(periods[0].recovery_date, Some(d("2024-01-05")));
    assert_eq!(periods[0].recovery_days, Some(2));
}

#[test]
fn an_open_drawdown_has_no_recovery_and_the_deepest_comes_first() {
    let v = [100.0, 90.0, 100.0, 50.0, 70.0];
    let (max, periods) = stats::compute_drawdowns(&days(5), &ns(&v), &depths(&v));
    assert_eq!(f(max), -0.5);
    assert_eq!(periods.len(), 2);
    assert_eq!(f(periods[0].drawdown_pct), -0.5);
    assert_eq!(periods[0].recovery_date, None);
    assert_eq!(periods[0].recovery_days, None);
    assert_eq!(periods[1].peak_date, d("2024-01-01"));
    assert_eq!(periods[1].recovery_date, Some(d("2024-01-03")));
}

#[test]
fn flat_days_stay_in_the_sample_of_returns() {
    // The deviation is taken over every return, so flat days stay in the sample.
    let values = ns(&[100.0, 100.0, 100.0, 98.0, 98.0, 98.0]);
    let steps = stats::daily_returns_from_snapshots(&values);
    let r: Vec<f64> = steps
        .iter()
        .map(|s| s.map_or(0.0, |(a, b)| (f(b) - f(a)) / f(a)))
        .collect();
    assert_eq!(r.len(), 5);
    let dd = (r.iter().map(|x| x.min(0.0).powi(2)).sum::<f64>() / r.len() as f64).sqrt();
    assert!((dd - (0.02f64.powi(2) / 5.0).sqrt()).abs() < 1e-12);
    assert!(stats::daily_returns_from_snapshots(&Vec::new()).is_empty());
}

#[test]
fn a_day_after_a_worthless_portfolio_has_no_return() {
    let steps = stats::daily_returns_from_snapshots(&ns(&[0.0, 5.0, 6.0]));
    assert_eq!(steps, vec![None, Some((n(5.0), n(6.0)))]);
}

#[test]
fn too_few_snapshots_yields_an_empty_report() {
    assert!(!stats::has_metrics(1));
    assert!(stats::has_metrics(2));
}

#[test]
fn percentile_picks_the_expected_element() {
    let v = ns(&[1.0, 2.0, 3.0, 4.0, 5.0]);
    let at = |p: f64| (p / 100.0 * 4.0).round() as usize;
    assert_eq!(f(stats::percentile(&v, at(0.0))), 1.0);
    assert_eq!(f(stats::percentile(&v, at(50.0))), 3.0);
    assert_eq!(f(stats::percentile(&v, at(100.0))), 5.0);
    assert_eq!(f(stats::percentile(&v, 99)), 5.0);
    assert_eq!(f(stats::percentile(&Vec::new(), 0)), 0.0);
}

#[test]
fn baseline_percentiles_are_rounded_to_the_nearest_position() {
    let v = ns(&[5.0, 3.0, 1.0, 4.0, 2.0, 6.0, 7.0, 8.0, 9.0, 10.0, 11.0]);
    let r = stats::baseline_returns(&v, n(8.5));
    assert_eq!((f(r.percentile_5), f(r.median), f(r.percentile_95)), (2.0, 6.0, 11.0));
    assert_eq!(r.beat, 3);
    for k in 1..400usize {
        let v: Vec<Number> = (0..k).map(|i| n(i as f64)).collect();
        let r = stats::baseline_returns(&v, n(0.0));
        let at = |p: f64| (p / 100.0 * (k - 1) as f64).round();
        assert_eq!((f(r.percentile_5), f(r.median), f(r.percentile_95)), (at(5.0), at(50.0), at(95.0)));
    }
    let none = stats::baseline_returns(&Vec::new(), n(0.0));
    assert_eq!((none.percentile_5, none.beat), (n(0.0), 0));
}

// ── Random baseline ──────────────────────────────────────────────────────────

fn universe_of(k: usize) -> (Vec<String>, Vec<Number>) {
    let names = (0..k).map(|i| format!("T{i:02}")).collect();
    let returns_of = (0..k).map(|i| n(-0.5 + i as f64 * 0.05)).collect();
    (names, returns_of)
}

/// Returns of random portfolios, in increasing order.
fn simulate(b: &Baseline, returns_of: &[Number], runs: usize, seed: u64) -> Vec<Number> {
    let sims: Vec<Number> = stats::draw_portfolios(b, runs, seed)
        .iter()
        .map(|p| n(p.iter().map(|i| f(returns_of[*i])).sum::<f64>() / b.size as f64))
        .collect();
    stats::sorted_numbers(&sims)
}

#[test]
fn monte_carlo_draws_differ_so_the_distribution_is_not_degenerate() {
    let (names, rs) = universe_of(30);
    let b = stats::plan_baseline(&vec![3; 30], &names, &rs).unwrap();
    let sims = simulate(&b, &rs, 2_000, 7);
    assert_eq!(sims.len(), 2_000);
    let r = stats::baseline_returns(&sims, n(0.0));
    let (p5, p95) = (f(r.percentile_5), f(r.percentile_95));
    assert_eq!(r.percentile_5, stats::percentile(&sims, 100));
    assert_eq!(r.percentile_95, stats::percentile(&sims, 1_899));
    assert!(p5 <= f(r.median) && f(r.median) <= p95);
    assert!(p95 > p5 + 0.05, "p5={p5} p95={p95}");
}

#[test]
fn monte_carlo_beat_rate_reflects_relative_performance() {
    let (names, rs) = universe_of(30);
    let b = stats::plan_baseline(&vec![3; 30], &names, &rs).unwrap();
    let sims = simulate(&b, &rs, 1_000, 1);
    let strong = 1.05f64.powi(29) - 1.0;
    let weak = 0.97f64.powi(29) - 1.0;
    assert!((stats::count_beating(&sims, n(strong)) as f64) / 10.0 < 1.0);
    assert!((stats::count_beating(&sims, n(weak)) as f64) / 10.0 > 99.0);
}

#[test]
fn monte_carlo_is_reproducible_for_a_fixed_seed() {
    let (names, rs) = universe_of(30);
    let b = stats::plan_baseline(&vec![3; 30], &names, &rs).unwrap();
    assert_eq!(simulate(&b, &rs, 500, 99), simulate(&b, &rs, 500, 99));
    assert_ne!(stats::draw_portfolios(&b, 500, 99), stats::draw_portfolios(&b, 500, 98));
}

#[test]
fn monte_carlo_is_skipped_when_the_universe_is_no_bigger_than_the_portfolio() {
    let (names, rs) = universe_of(3);
    let e = stats::plan_baseline(&vec![3; 30], &names, &rs).unwrap_err();
    assert_eq!(e, Skipped::UniverseTooSmall { names: 3, size: 3 });
    assert_eq!(e.message(), "universe of 3 names is not larger than the 3-name portfolio");
    let e = stats::plan_baseline(&vec![3; 30], &Vec::new(), &Vec::new()).unwrap_err();
    assert_eq!(e, Skipped::UniverseTooSmall { names: 0, size: 3 });
}

#[test]
fn a_strategy_that_held_nothing_has_no_baseline() {
    let (names, rs) = universe_of(5);
    let e = stats::plan_baseline(&vec![0; 4], &names, &rs).unwrap_err();
    assert_eq!(e, Skipped::HeldNothing);
    assert_eq!(e.message(), "strategy held nothing");
}

#[test]
fn the_typical_size_is_the_median_of_the_days_with_positions() {
    assert_eq!(stats::typical_size(&vec![0, 9, 3, 0, 5]), Some(5));
    assert_eq!(stats::typical_size(&vec![4, 2]), Some(4));
    assert_eq!(stats::typical_size(&vec![0]), None);
}

#[test]
fn the_pool_is_sorted_by_name_and_leaves_out_unknown_returns() {
    let names = vec!["C".to_string(), "A".to_string(), "B".to_string()];
    assert_eq!(stats::pool(&names, &ns(&[1.0, f64::NAN, 2.0])), vec![2, 0]);
}

#[test]
fn random_portfolios_hold_distinct_names_of_the_pool() {
    let b = Baseline { size: 4, pool: vec![3, 5, 7, 11, 13] };
    for p in stats::draw_portfolios(&b, 50, 3) {
        let mut q = p.clone();
        q.sort();
        q.dedup();
        assert_eq!(q.len(), 4);
        assert!(p.iter().all(|i| b.pool.contains(i)));
    }
}

#[test]
fn ranks_add_up_whatever_is_tied() {
    for v in [vec![], vec![4.0], vec![2.0, 2.0, 2.0], vec![3.0, 1.0, 3.0, -0.0, 0.0]] {
        let sum: f64 = ranks(&v).iter().sum();
        let n = v.len() as f64;
        assert_eq!(sum, n * (n + 1.0) / 2.0);
    }
}
