use quant_edge::calendar::Date;
use quant_edge::correlations::concentration_guard::ConcentrationGuard;
use quant_edge::correlations::correlation_matrix::{
    by_day, compute_correlation_matrix, find_value, from_stored, pearson_from_date_maps,
    return_steps, to_stored, window_start, CorrelationData, CorrelationPair, DayReturn,
    IndustryReturns,
};
use quant_edge::correlations::pairs_signal::{name, recent_spreads, spread_inputs};
use quant_edge::data::source::PriceBar;
use quant_edge::number::Number;
use quant_edge::signals::SignalScore;

fn n(x: f64) -> Number {
    Number::from_bits(x.to_bits())
}

fn f(x: Number) -> f64 {
    f64::from_bits(x.to_bits())
}

fn d(s: &str) -> Date {
    Date::from_text(s).unwrap()
}

fn pair(a: &str, b: &str, r: f64) -> CorrelationPair {
    CorrelationPair { a: a.to_string(), b: b.to_string(), r: n(r) }
}

fn data(pairs: Vec<CorrelationPair>, returns_of: Vec<IndustryReturns>) -> CorrelationData {
    CorrelationData { pairs, returns_of, as_of: d("2024-06-03") }
}

fn score(ticker: &str, industry: &str, rank: usize) -> SignalScore {
    SignalScore {
        ticker: ticker.to_string(),
        industry: industry.to_string(),
        rank,
        composite: n(70.0),
        macro_on: true,
    }
}

fn returns_from(industry: &str, first: &str, values: &[f64]) -> IndustryReturns {
    IndustryReturns {
        industry: industry.to_string(),
        days: values
            .iter()
            .enumerate()
            .map(|(i, v)| DayReturn { date: d(first).plus_days(i as i64), value: n(*v) })
            .collect(),
    }
}

#[test]
fn a_correlation_is_found_whichever_industry_comes_first() {
    let c = data(vec![pair("Banks", "Chips", 0.4)], vec![]);
    assert_eq!(c.get_correlation("Banks", "Chips"), Some(n(0.4)));
    assert_eq!(c.get_correlation("Chips", "Banks"), Some(n(0.4)));
    assert_eq!(c.get_correlation("Chips", "Steel"), None);
}

#[test]
fn the_closest_peers_come_first() {
    let c = data(
        vec![
            pair("A", "B", 0.7),
            pair("A", "C", 0.9),
            pair("A", "D", 0.5),
            pair("B", "C", 0.99),
            pair("A", "E", 0.1),
        ],
        vec![],
    );
    let peers = c.top_correlated("A", n(0.6), 3);
    let got: Vec<&str> = peers.iter().map(|p| p.industry.as_str()).collect();
    assert_eq!(got, vec!["C", "B"]);
    assert_eq!(f(peers[0].r), 0.9);
    assert_eq!(c.top_correlated("A", n(0.6), 1).len(), 1);
    assert_eq!(c.sorted_pairs()[..3], [3, 1, 0]);
}

#[test]
fn returns_are_taken_between_positive_closes() {
    let bar = |date: &str, close: f64| PriceBar {
        date: d(date),
        open: n(close),
        high: n(close),
        low: n(close),
        close: n(close),
        adj_close: n(close),
        adj_open: n(close),
        volume: 1,
    };
    let steps = return_steps(&vec![
        bar("2024-01-01", 0.0),
        bar("2024-01-02", 10.0),
        bar("2024-01-03", 11.0),
    ]);
    let ends: Vec<(Date, f64, f64)> = steps.iter().map(|s| (s.date, f(s.prev), f(s.curr))).collect();
    assert_eq!(ends, vec![(d("2024-01-03"), 10.0, 11.0)]);
}

#[test]
fn the_returns_of_an_industry_are_gathered_by_day() {
    let day = |date: &str, v: f64| DayReturn { date: d(date), value: n(v) };
    let b = by_day(&vec![
        day("2024-01-03", 0.1),
        day("2024-01-02", 0.2),
        day("2024-01-03", 0.3),
    ]);
    assert_eq!(b.len(), 2);
    assert_eq!(b[0].date, d("2024-01-02"));
    assert_eq!(b[1].values, vec![n(0.1), n(0.3)]);
    let s = vec![day("2024-01-02", 0.2)];
    assert_eq!(find_value(&s, d("2024-01-02")), Some(n(0.2)));
    assert_eq!(find_value(&s, d("2024-01-03")), None);
}

#[test]
fn two_industries_are_compared_only_over_enough_common_days() {
    let v: Vec<f64> = (0..60).map(|i| (i % 7) as f64).collect();
    let a = returns_from("A", "2024-01-01", &v);
    let b = returns_from("B", "2024-01-01", &v);
    let s = pearson_from_date_maps(&a.days, &b.days).unwrap();
    assert_eq!((s.xs.len(), s.ys.len()), (60, 60));
    let shifted = returns_from("B", "2024-01-02", &v);
    assert!(pearson_from_date_maps(&a.days, &shifted.days).is_none());
}

#[test]
fn a_matrix_lists_each_pair_once_with_its_coefficient() {
    let names: Vec<String> = ["A", "B", "C"].iter().map(|s| s.to_string()).collect();
    let rows = vec![vec![Some(n(0.25)), None], vec![Some(n(-0.5))], vec![]];
    let pairs = compute_correlation_matrix(&names, &rows);
    let got: Vec<(&str, &str, f64)> =
        pairs.iter().map(|p| (p.a.as_str(), p.b.as_str(), f(p.r))).collect();
    assert_eq!(got, vec![("A", "B", 0.25), ("B", "C", -0.5)]);
}

#[test]
fn stored_pairs_are_used_only_while_fresh() {
    let pairs = vec![pair("A", "B", 0.7)];
    let rows = to_stored(&pairs, d("2024-06-03"));
    assert_eq!(rows[0].window_days, 90);
    assert_eq!(rows[0].date, d("2024-06-03"));
    let back = from_stored(true, &rows).unwrap();
    assert_eq!((back[0].a.as_str(), back[0].b.as_str(), back[0].r), ("A", "B", n(0.7)));
    assert!(from_stored(false, &rows).is_none());
    assert!(from_stored(true, &Vec::new()).is_none());
    assert_eq!(window_start(d("2024-06-03")), d("2024-02-19"));
}

#[test]
fn only_the_lower_ranked_of_two_close_picks_is_flagged() {
    let c = data(vec![pair("Banks", "Insurers", 0.8), pair("Chips", "Insurers", 0.7)], vec![]);
    let scores = vec![
        score("JPM", "Banks", 1),
        score("ALL", "Insurers", 2),
        score("BAC", "Banks", 3),
        score("NVDA", "Chips", 4),
    ];
    let w = ConcentrationGuard::check(&scores, &c);
    assert!(!ConcentrationGuard::has_warning(&w, "JPM"));
    let all = ConcentrationGuard::warning_of(&w, "ALL").unwrap();
    assert_eq!((all.correlated_with.as_str(), f(all.correlation)), ("JPM", 0.8));
    let bac = ConcentrationGuard::warning_of(&w, "BAC").unwrap();
    assert_eq!((bac.correlated_with.as_str(), f(bac.correlation)), ("JPM", 1.0));
    assert!(ConcentrationGuard::warning_of(&w, "NVDA").is_none(), "0.7 is not above the limit");
}

#[test]
fn picks_below_the_tenth_are_not_looked_at() {
    let scores: Vec<SignalScore> =
        (0..11).map(|i| score(&format!("T{i}"), "Banks", i + 1)).collect();
    let w = ConcentrationGuard::check(&scores, &data(vec![], vec![]));
    assert_eq!(w.len(), 9);
    assert!(!ConcentrationGuard::has_warning(&w, "T10"));
}

#[test]
fn spreads_need_a_close_peer_and_twenty_days() {
    assert_eq!(name(), "Pairs");
    let v: Vec<f64> = (0..20).map(|i| i as f64).collect();
    let own = returns_from("A", "2024-01-01", &v);
    let peer = returns_from("B", "2024-01-01", &v);
    let c = data(vec![pair("A", "B", 0.7)], vec![own, peer]);
    let inputs = spread_inputs(&c, "A").unwrap();
    assert_eq!(inputs.len(), 20);
    assert_eq!(inputs[3].own, n(3.0));
    assert_eq!(inputs[3].peers, vec![n(3.0)]);
    assert!(spread_inputs(&c, "C").is_none());
    let short = data(
        vec![pair("A", "B", 0.7)],
        vec![returns_from("A", "2024-01-01", &v[..19]), returns_from("B", "2024-01-01", &v)],
    );
    assert!(spread_inputs(&short, "A").is_none());
    assert_eq!(recent_spreads(n(1e-10), 25), None);
    assert_eq!(recent_spreads(n(0.5), 25), Some(15));
}
