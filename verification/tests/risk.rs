use quant_edge::number::Number;
use quant_edge::risk::{
    cap_weights, group_exposure, is_invertible, is_negligible, limit_applies, sorted_finite,
    weights_below, BreakerState, DrawdownBreaker,
};

fn n(x: f64) -> Number {
    Number::from_bits(x.to_bits())
}

fn f(x: Number) -> f64 {
    f64::from_bits(x.to_bits())
}

fn step(b: &DrawdownBreaker, s: &mut BreakerState, value: f64) -> bool {
    let fall = s.observe(n(value)).map_or(0.0, |p| (f(p) - value) / f(p));
    b.step(s, n(fall))
}

#[test]
fn breaker_trips_on_threshold_and_releases_with_hysteresis() {
    let b = DrawdownBreaker { threshold: n(0.20), resume_at: n(0.10) };
    let mut s = BreakerState::default();
    assert!(!step(&b, &mut s, 100.0));
    assert!(!step(&b, &mut s, 85.0));
    assert!(step(&b, &mut s, 78.0));
    assert!(step(&b, &mut s, 85.0));
    assert!(!step(&b, &mut s, 92.0));
}

#[test]
fn breaker_does_not_flip_flop_on_noise_right_at_the_threshold() {
    let b = DrawdownBreaker { threshold: n(0.20), resume_at: n(0.10) };
    let mut s = BreakerState::default();
    step(&b, &mut s, 100.0);
    assert!(step(&b, &mut s, 79.5));
    assert!(step(&b, &mut s, 81.0));
    assert!(step(&b, &mut s, 79.0));
}

#[test]
fn breaker_tracks_a_rising_peak() {
    let b = DrawdownBreaker::default();
    let mut s = BreakerState::default();
    step(&b, &mut s, 100.0);
    step(&b, &mut s, 120.0);
    assert!((f(s.peak) - 120.0).abs() < 1e-9);
    assert!(!step(&b, &mut s, 102.0));
}

#[test]
fn a_drawdown_of_just_the_threshold_does_not_trip_the_breaker() {
    let b = DrawdownBreaker { threshold: n(0.25), resume_at: n(0.10) };
    let mut s = BreakerState::default();
    step(&b, &mut s, 100.0);
    assert!(!step(&b, &mut s, 75.0));
    assert!(step(&b, &mut s, 74.0));
    assert!(!step(&b, &mut s, 90.0), "a drawdown of just the lower level lets go");
}

/// Value at risk by linear interpolation between sorted returns.
fn var(returns: &[f64], confidence: f64) -> Option<f64> {
    let s = sorted_finite(&returns.iter().map(|x| n(*x)).collect());
    if s.is_empty() {
        return None;
    }
    let rank = (1.0 - confidence) * (s.len() - 1) as f64;
    let (lo, hi) = (rank.floor() as usize, rank.ceil() as usize);
    Some(f(s[lo]) + (f(s[hi]) - f(s[lo])) * (rank - lo as f64))
}

/// Mean of the worst returns, of one at least.
fn cvar(returns: &[f64], confidence: f64) -> Option<f64> {
    let s = sorted_finite(&returns.iter().map(|x| n(*x)).collect());
    if s.is_empty() {
        return None;
    }
    let k = (((1.0 - confidence) * s.len() as f64).round() as usize).max(1);
    Some(s[..k].iter().map(|x| f(*x)).sum::<f64>() / k as f64)
}

#[test]
fn var_matches_hand_computed_linear_interpolation() {
    let r: Vec<f64> = (1..=10).map(|i| i as f64).collect();
    let v = var(&r, 0.70).unwrap();
    assert!((v - 3.7).abs() < 1e-9, "{v}");
}

#[test]
fn cvar_averages_the_worst_tail_fraction() {
    let mut r: Vec<f64> = vec![0.0; 90];
    r.extend((1..=10).map(|i| -0.01 * i as f64));
    let cv = cvar(&r, 0.90).unwrap();
    let expected = -(1..=10).map(|i| 0.01 * i as f64).sum::<f64>() / 10.0;
    assert!((cv - expected).abs() < 1e-9, "{cv} vs {expected}");
    let v = var(&r, 0.90).unwrap();
    assert!(cv <= v, "CVaR must be at least as bad as VaR ({cv} vs {v})");
}

#[test]
fn cvar_never_looks_at_fewer_than_one_observation() {
    assert!((cvar(&[0.05, -0.01, -0.20], 0.99).unwrap() - (-0.20)).abs() < 1e-9);
}

#[test]
fn var_cvar_empty_and_nan_handling() {
    assert!(var(&[], 0.95).is_none());
    assert!(cvar(&[], 0.95).is_none());
    assert!(var(&[0.01, f64::NAN, -0.02], 0.5).is_some());
}

#[test]
fn group_exposure_sums_weights_per_group_and_buckets_unmapped_as_unknown() {
    let tickers = vec!["A".to_string(), "B".to_string(), "C".to_string()];
    let weights = [0.3, 0.2, 0.5];
    let mapping = vec![
        ("A".to_string(), "Tech".to_string()),
        ("B".to_string(), "Tech".to_string()),
    ];
    let groups = group_exposure(&tickers, &mapping);
    let sum = |name: &str| -> f64 {
        groups
            .iter()
            .filter(|g| g.name == name)
            .flat_map(|g| g.members.iter())
            .map(|i| weights[*i])
            .sum()
    };
    assert!((sum("Tech") - 0.5).abs() < 1e-9);
    assert!((sum("Unknown") - 0.5).abs() < 1e-9, "C has no sector mapping");
    assert_eq!(groups.iter().map(|g| g.members.len()).sum::<usize>(), 3, "each ticker once");
}

/// Weights that add up to one and respect a limit as far as that is possible.
fn apply_position_cap(weights: &[f64], max: f64) -> Vec<f64> {
    if !limit_applies(weights.len(), n(max)) {
        return Vec::new();
    }
    let total: f64 = weights.iter().sum();
    let mut w: Vec<Number> = weights.iter().map(|x| n(x / total)).collect();
    for _ in 0..w.len() {
        let excess: f64 = w.iter().map(|x| (f(*x) - max).max(0.0)).sum();
        if is_negligible(n(excess)) {
            break;
        }
        cap_weights(&mut w, n(max));
        let open = weights_below(&w, n(max - 1e-12));
        let room: f64 = open.iter().map(|i| f(w[*i])).sum();
        if is_negligible(n(room)) {
            break;
        }
        for i in open {
            w[i] = n(f(w[i]) + excess * (f(w[i]) / room));
        }
    }
    w.iter().map(|x| f(*x)).collect()
}

#[test]
fn position_cap_redistributes_excess_and_preserves_total() {
    let c = apply_position_cap(&[0.60, 0.20, 0.20], 0.40);
    assert!(c[0] <= 0.40 + 1e-9);
    assert!((c.iter().sum::<f64>() - 1.0).abs() < 1e-6);
    assert!((c[1] - c[2]).abs() < 1e-9);
    assert!(c[1] > 0.20);
}

#[test]
fn position_cap_handles_a_cascade_where_redistribution_itself_breaches_the_cap() {
    let c = apply_position_cap(&[0.80, 0.11, 0.09], 0.34);
    assert!(c.iter().all(|v| *v <= 0.34 + 1e-6));
    assert!((c.iter().sum::<f64>() - 1.0).abs() < 1e-6);
}

#[test]
fn position_cap_renormalises_weights_that_do_not_sum_to_one() {
    let c = apply_position_cap(&[60.0, 20.0, 20.0], 0.40);
    assert!((c.iter().sum::<f64>() - 1.0).abs() < 1e-6);
}

#[test]
fn position_cap_edge_cases() {
    assert!(apply_position_cap(&[], 0.3).is_empty());
    assert!(apply_position_cap(&[1.0], 0.0).is_empty());
    for v in apply_position_cap(&[0.4, 0.3, 0.3], 0.1) {
        assert!((v - 0.1).abs() < 1e-6);
    }
}

/// Weights in proportion to the inverse of volatility, zero where it cannot be inverted.
fn inverse_vol_weights(vols: &[f64]) -> Vec<f64> {
    let inv: Vec<f64> =
        vols.iter().map(|v| if is_invertible(n(*v)) { 1.0 / v } else { 0.0 }).collect();
    let total: f64 = inv.iter().sum();
    inv.iter().map(|x| if total > 0.0 { x / total } else { 0.0 }).collect()
}

#[test]
fn inverse_vol_weights_favour_the_calmer_name() {
    let w = inverse_vol_weights(&[0.10, 0.40]);
    assert!(w[0] > w[1]);
    assert!((w[0] + w[1] - 1.0).abs() < 1e-9);
    assert!((w[0] / w[1] - 4.0).abs() < 1e-6);
}

#[test]
fn inverse_vol_weights_zero_out_invalid_entries_without_crashing() {
    let w = inverse_vol_weights(&[0.10, 0.0, -1.0]);
    assert_eq!(w[1], 0.0);
    assert_eq!(w[2], 0.0);
    assert!((w[0] - 1.0).abs() < 1e-9);
}

#[test]
fn inverse_vol_weights_all_invalid_returns_zeros_not_nan() {
    assert!(inverse_vol_weights(&[0.0, -1.0]).iter().all(|x| *x == 0.0));
}
