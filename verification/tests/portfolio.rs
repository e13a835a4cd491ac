use quant_edge::calendar::Date;
use quant_edge::data::prices::PriceSeries;
use quant_edge::data::source::PriceBar;
use quant_edge::number::Number;
use quant_edge::portfolio::analytics::{self, HeldValue};
use quant_edge::portfolio::engine::{self, PricePoint, RebalanceFrequency};
use quant_edge::portfolio::rebalancer;
use quant_edge::portfolio::weights;
use quant_edge::roles::{self, CandidateData, CompanySlot, IndustryRoster, Role, RoleAssignment};

fn n(x: f64) -> Number {
    Number::from_bits(x.to_bits())
}

fn f(x: Number) -> f64 {
    f64::from_bits(x.to_bits())
}

fn d(s: &str) -> Date {
    Date::from_text(s).unwrap()
}

fn texts(v: &[&str]) -> Vec<String> {
    v.iter().map(|s| s.to_string()).collect()
}

#[test]
fn monthly_checkpoints_do_not_drift_from_a_month_end_start() {
    let cps = RebalanceFrequency::Monthly.checkpoints(d("2024-01-31"), d("2024-06-30"));
    assert_eq!(
        cps,
        vec![d("2024-02-29"), d("2024-03-31"), d("2024-04-30"), d("2024-05-31"), d("2024-06-30")]
    );
}

#[test]
fn quarterly_and_annual_checkpoints() {
    let q = RebalanceFrequency::Quarterly.checkpoints(d("2024-01-15"), d("2025-01-15"));
    assert_eq!(q, vec![d("2024-04-15"), d("2024-07-15"), d("2024-10-15"), d("2025-01-15")]);
    let a = RebalanceFrequency::Annual.checkpoints(d("2024-02-29"), d("2027-03-01"));
    assert_eq!(a, vec![d("2025-02-28"), d("2026-02-28"), d("2027-02-28")]);
}

#[test]
fn weekly_and_daily_checkpoints() {
    let w = RebalanceFrequency::Weekly.checkpoints(d("2024-01-01"), d("2024-01-22"));
    assert_eq!(w, vec![d("2024-01-08"), d("2024-01-15"), d("2024-01-22")]);
    let dly = RebalanceFrequency::Daily.checkpoints(d("2024-01-01"), d("2024-01-03"));
    assert_eq!(dly, vec![d("2024-01-02"), d("2024-01-03")]);
}

#[test]
fn checkpoints_empty_when_window_is_shorter_than_the_period() {
    assert!(RebalanceFrequency::Annual.checkpoints(d("2024-01-01"), d("2024-06-01")).is_empty());
}

#[test]
fn buy_and_hold_returns_use_first_and_last_price() {
    let p = |date: &str, price: f64| PricePoint { date: d(date), price: n(price) };
    let a = vec![p("2024-01-02", 100.0), p("2024-01-05", 150.0), p("2024-01-03", 90.0)];
    let (first, last) = engine::buy_and_hold_prices(&a).unwrap();
    assert!((f(last) / f(first) - 1.0 - 0.5).abs() < 1e-12);
    let bad = vec![p("2024-01-02", 0.0), p("2024-01-05", 5.0)];
    assert!(engine::buy_and_hold_prices(&bad).is_none(), "zero start price must be excluded");
}

#[test]
fn a_run_skips_weekends_and_rebalances_once_a_checkpoint_is_reached() {
    // 2024-01-06 is a Saturday: its checkpoint is met on Monday.
    let plan = engine::run_plan(d("2024-01-04"), d("2024-01-09"), &vec![d("2024-01-06")]);
    let days: Vec<(Date, bool)> = plan.iter().map(|p| (p.date, p.rebalance)).collect();
    assert_eq!(
        days,
        vec![
            (d("2024-01-04"), false),
            (d("2024-01-05"), false),
            (d("2024-01-08"), true),
            (d("2024-01-09"), false),
        ]
    );
}

#[test]
fn the_most_recent_price_is_carried_forward() {
    let at = |date: &str, price: f64| PricePoint { date: d(date), price: n(price) };
    let friday = vec![at("2024-01-05", 10.0)];
    assert_eq!(engine::last_known_ticker_price(&friday, d("2024-01-12")), Some(n(10.0)));
    assert_eq!(engine::last_known_ticker_price(&friday, d("2024-06-01")), Some(n(10.0)));
    assert_eq!(engine::last_known_ticker_price(&friday, d("2024-01-04")), None);
    let v = vec![at("2024-01-09", 8.0), at("2024-01-02", 7.0), at("2024-01-05", 9.0)];
    assert_eq!(engine::last_known_ticker_price(&v, d("2024-01-02")), Some(n(7.0)));
    assert_eq!(engine::last_known_ticker_price(&v, d("2024-01-08")), Some(n(9.0)));
    assert_eq!(engine::last_known_ticker_price(&v, d("2024-02-01")), Some(n(8.0)));
    assert_eq!(engine::allocation_price(&v, d("2024-02-01")), Some(n(8.0)));
    assert_eq!(engine::allocation_price(&vec![at("2024-01-02", 0.0)], d("2024-01-02")), None);
}

#[test]
fn equal_weights_add_up_and_count_a_repeated_ticker_twice() {
    let w = weights::equal_weights(&texts(&["A", "B", "A", "C"]));
    let total: usize = w.iter().map(|x| x.numerator).sum();
    assert_eq!(total, 4);
    assert!(w.iter().all(|x| x.denominator == 4));
    let a = w.iter().find(|x| x.ticker == "A").unwrap();
    assert_eq!(a.numerator, 2);
}

// ── Roles ────────────────────────────────────────────────────────────────────

fn roster(code: u32, holders: &[(Role, &str)]) -> IndustryRoster {
    IndustryRoster {
        industry_code: code,
        industry_name: format!("Industry {code}"),
        as_of: d("2024-01-01"),
        assignments: holders
            .iter()
            .map(|(role, t)| RoleAssignment {
                industry_code: code,
                industry_name: format!("Industry {code}"),
                role: *role,
                ticker: t.to_string(),
                company_name: t.to_string(),
                metric_value: n(1.0),
                as_of: d("2024-01-01"),
            })
            .collect(),
    }
}

#[test]
fn every_role_has_a_label_and_deep_value_prefers_the_cheapest() {
    assert_eq!(Role::all().len(), 7);
    assert_eq!(Role::MomentumLeader.label(), "MomentumLeader");
    assert_eq!(Role::MomentumLeader.fundamental_field(), None);
    assert_eq!(Role::DeepValue.fundamental_field(), Some("price_to_book"));
    assert!(!Role::DeepValue.higher_is_better());
    assert!(Role::FastestGrower.higher_is_better());
}

#[test]
fn the_best_momentum_wins_its_role() {
    let slot = |t: &str| CompanySlot {
        ticker: t.to_string(),
        name: format!("{t} Inc"),
        industry_name: "Software".to_string(),
    };
    let data = |m: Option<f64>| CandidateData {
        fundamentals: None,
        momentum: m.map(n),
        revenue_share: n(0.0),
    };
    let r = roles::classify_industry(
        451030,
        &vec![slot("A"), slot("B"), slot("C")],
        &vec![data(Some(0.1)), data(Some(0.3)), data(None)],
        n(0.0),
        &Role::all(),
        d("2024-01-01"),
    );
    assert_eq!(r.assignments.len(), 1);
    assert_eq!(r.get(Role::MomentumLeader).unwrap().ticker, "B");
    assert!(r.get(Role::DeepValue).is_none());
    assert!(r.holds_any_role("B"));
    assert!(!r.holds_any_role("A"));
}

#[test]
fn a_swap_is_a_role_that_changed_hands_in_an_industry_of_both_rosters() {
    let before = vec![
        roster(10, &[(Role::DeepValue, "A"), (Role::MomentumLeader, "B")]),
        roster(20, &[(Role::DeepValue, "X")]),
    ];
    let after = vec![
        roster(10, &[(Role::DeepValue, "A"), (Role::MomentumLeader, "C")]),
        roster(30, &[(Role::DeepValue, "Y")]),
    ];
    let events = rebalancer::swap_events(&before, &after, d("2024-02-01"));
    assert_eq!(events.len(), 1);
    assert_eq!(events[0].outgoing, "B");
    assert_eq!(events[0].incoming, "C");
    assert_eq!(events[0].industry_code, 10);
    assert_eq!(rebalancer::swap_count(&events, Role::MomentumLeader), 1);
    assert_eq!(rebalancer::swap_count(&events, Role::DeepValue), 0);
    assert!(roles::detect_swaps(&before[0], &before[0]).is_empty());
}

#[test]
fn the_reason_for_a_swap_names_the_winner() {
    assert_eq!(
        rebalancer::swap_reason("C", Role::MomentumLeader, "0.3000"),
        "C now leads MomentumLeader with metric value 0.3000"
    );
}

// ── Analytics ────────────────────────────────────────────────────────────────

fn bar(date: &str, close: f64) -> PriceBar {
    let c = n(close);
    PriceBar { date: d(date), open: c, high: c, low: c, close: c, adj_close: c, adj_open: c, volume: 1 }
}

#[test]
fn a_benchmark_starts_from_the_close_before_or_the_first_one_after() {
    let s = PriceSeries::new(vec![bar("2024-01-05", 10.0), bar("2024-01-08", 11.0)]);
    assert_eq!(analytics::benchmark_start(&s, d("2024-01-07")), Some(n(10.0)));
    assert_eq!(analytics::benchmark_start(&s, d("2024-01-01")), Some(n(10.0)));
    assert_eq!(analytics::benchmark_start(&PriceSeries::new(Vec::new()), d("2024-01-01")), None);
    assert_eq!(analytics::benchmark_level(&s, d("2024-01-01"), n(9.0)), n(9.0));
    assert_eq!(analytics::benchmark_level(&s, d("2024-01-09"), n(9.0)), n(11.0));
}

#[test]
fn turnover_is_paid_only_where_it_costs_less_than_the_portfolio() {
    assert!(analytics::pays_turnover(n(1.0), n(100.0)));
    assert!(!analytics::pays_turnover(n(0.0), n(100.0)));
    assert!(!analytics::pays_turnover(n(100.0), n(100.0)));
}

#[test]
fn touched_tickers_are_those_before_and_after() {
    let t = analytics::touched_tickers(&texts(&["B", "A"]), &texts(&["C", "B"]));
    assert_eq!(t, texts(&["A", "B", "C"]));
}

#[test]
fn role_and_industry_returns_use_the_holdings_of_the_final_rosters() {
    let held = |v: &[(&str, f64)]| -> Vec<HeldValue> {
        v.iter().map(|(t, x)| HeldValue { ticker: t.to_string(), value: n(*x) }).collect()
    };
    let rosters = vec![
        roster(10, &[(Role::DeepValue, "A"), (Role::MomentumLeader, "B")]),
        roster(20, &[(Role::DeepValue, "X")]),
    ];
    let first = held(&[("A", 10.0), ("B", 20.0)]);
    let last = held(&[("A", 15.0), ("X", 30.0)]);
    let r = analytics::compute_role_return(Role::DeepValue, &rosters, &first, &last, 2).unwrap();
    assert_eq!(r.start, vec![n(10.0)]);
    assert_eq!(r.end, vec![n(15.0), n(30.0)]);
    assert!(analytics::compute_role_return(Role::MostLeveraged, &rosters, &first, &last, 2).is_none());
    assert!(analytics::compute_role_return(Role::DeepValue, &rosters, &first, &last, 1).is_none());
    let p = analytics::compute_industry_performance(&rosters, &first, &last, 2);
    assert_eq!(p.len(), 2);
    assert_eq!(p[0].start, vec![n(10.0), n(20.0)]);
    assert_eq!(p[1].start, Vec::<Number>::new());
    assert!(analytics::compute_industry_performance(&rosters, &first, &last, 1).is_empty());
    let w = analytics::weights_by_role(&rosters, &held(&[("A", 0.5), ("B", 0.5)]), Role::DeepValue);
    assert_eq!(w, vec![n(0.5)]);
}

#[test]
fn role_weights_share_out_by_role() {
    let rosters = vec![
        roster(1, &[(Role::DeepValue, "A"), (Role::FastestGrower, "B")]),
        roster(2, &[(Role::DeepValue, "C")]),
    ];
    let flat = rebalancer::role_tickers(&rosters);
    let got: Vec<(&str, Role)> = flat.iter().map(|x| (x.ticker.as_str(), x.role)).collect();
    assert_eq!(
        got,
        vec![("A", Role::DeepValue), ("B", Role::FastestGrower), ("C", Role::DeepValue)]
    );
    let buckets = weights::role_buckets(&flat);
    assert_eq!(buckets.len(), 2);
    let deep = buckets.iter().find(|b| b.role == Role::DeepValue).unwrap();
    assert_eq!(deep.tickers, texts(&["A", "C"]));
}

#[test]
fn industries_without_an_assignment_have_no_roster() {
    let kept = roles::classify_universe(vec![
        roster(1, &[]),
        roster(2, &[(Role::DeepValue, "A")]),
        roster(3, &[]),
        roster(4, &[(Role::FastestGrower, "B")]),
    ]);
    let codes: Vec<u32> = kept.iter().map(|r| r.industry_code).collect();
    assert_eq!(codes, vec![2, 4]);
    let events = rebalancer::swap_events(
        &kept,
        &vec![roster(2, &[(Role::DeepValue, "C")])],
        d("2024-02-01"),
    );
    assert_eq!(events.len(), 1);
    assert_eq!(events[0].industry_name, "Industry 2");
}
