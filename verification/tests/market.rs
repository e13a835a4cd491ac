use quant_edge::calendar::Date;
use quant_edge::costs::{RealizedGain, TaxModel};
use quant_edge::data::prices::PriceSeries;
use quant_edge::data::source::PriceBar;
use quant_edge::earnings::{flag_near_earnings, is_near_earnings, nearest_earnings, EarningsDates};
use quant_edge::fx::{conversion, rate_on, Conversion, Currency};
use quant_edge::number::Number;

fn n(x: f64) -> Number {
    Number::from_bits(x.to_bits())
}

fn f(x: Number) -> f64 {
    f64::from_bits(x.to_bits())
}

fn d(s: &str) -> Date {
    Date::from_text(s).unwrap()
}

fn bar(date: &str, close: f64) -> PriceBar {
    let c = n(close);
    PriceBar { date: d(date), open: c, high: c, low: c, close: c, adj_close: c, adj_open: c, volume: 1 }
}

// ── Earnings ─────────────────────────────────────────────────────────────────

#[test]
fn flags_dates_within_the_window_on_either_side() {
    let dates = vec![d("2024-01-20")];
    assert!(is_near_earnings(d("2024-01-15"), &dates, 5), "5 days before");
    assert!(is_near_earnings(d("2024-01-25"), &dates, 5), "5 days after");
    assert!(!is_near_earnings(d("2024-01-13"), &dates, 5), "6 days before: out of window");
    assert!(!is_near_earnings(d("2024-01-27"), &dates, 5), "7 days after: out of window");
}

#[test]
fn exactly_on_the_earnings_date_counts() {
    let dates = vec![d("2024-01-20")];
    assert!(is_near_earnings(d("2024-01-20"), &dates, 3));
}

#[test]
fn no_dates_is_never_flagged() {
    assert!(!is_near_earnings(d("2024-01-20"), &Vec::new(), 30));
    assert!(nearest_earnings(d("2024-01-20"), &Vec::new()).is_none());
}

#[test]
fn nearest_picks_the_closest_of_several_candidates() {
    let dates = vec![d("2024-01-01"), d("2024-06-01"), d("2024-01-25")];
    let got = nearest_earnings(d("2024-01-20"), &dates).unwrap();
    assert_eq!(got, d("2024-01-25"));
}

#[test]
fn flag_near_earnings_sorts_by_proximity_and_skips_tickers_with_no_dates() {
    let name = |t: &str, dates: Vec<Date>| EarningsDates { ticker: t.to_string(), dates };
    let per_ticker = vec![
        name("FAR", vec![d("2024-03-01")]),
        name("SOON", vec![d("2024-01-21")]),
        name("NONE", vec![]),
        name("TODAY", vec![d("2024-01-20")]),
    ];
    let flags = flag_near_earnings(d("2024-01-20"), &per_ticker, 5);
    let tickers: Vec<&str> = flags.iter().map(|x| x.ticker.as_str()).collect();
    assert_eq!(tickers, vec!["TODAY", "SOON"]);
    assert_eq!(flags[0].days_away, 0);
    assert_eq!(flags[1].days_away, 1);
}

// ── Currencies ───────────────────────────────────────────────────────────────

fn convert_at_rate(amount: f64, from: Currency, to: Currency, rate: f64) -> f64 {
    match conversion(from, to) {
        Conversion::Keep => amount,
        Conversion::Divide => amount / rate,
        Conversion::Multiply => amount * rate,
    }
}

#[test]
fn ticker_currency_follows_the_ns_suffix_convention() {
    assert_eq!(Currency::of_ticker("RELIANCE.NS"), Currency::Inr);
    assert_eq!(Currency::of_ticker("AAPL"), Currency::Usd);
    assert_eq!(Currency::of_ticker("TCS.NS"), Currency::Inr);
}

#[test]
fn same_currency_conversion_is_a_no_op_even_with_a_nonsense_rate() {
    assert_eq!(convert_at_rate(100.0, Currency::Usd, Currency::Usd, 0.0), 100.0);
    assert_eq!(convert_at_rate(100.0, Currency::Inr, Currency::Inr, -5.0), 100.0);
}

#[test]
fn inr_to_usd_divides_and_usd_to_inr_multiplies() {
    assert!((convert_at_rate(9000.0, Currency::Inr, Currency::Usd, 90.0) - 100.0).abs() < 1e-9);
    assert!((convert_at_rate(100.0, Currency::Usd, Currency::Inr, 90.0) - 9000.0).abs() < 1e-9);
}

#[test]
fn round_trip_is_the_identity() {
    let original = 12345.67;
    let to_usd = convert_at_rate(original, Currency::Inr, Currency::Usd, 87.3);
    let back = convert_at_rate(to_usd, Currency::Usd, Currency::Inr, 87.3);
    assert!((back - original).abs() < 1e-6);
}

#[test]
fn the_rate_of_a_weekend_is_the_one_before_it() {
    let rates = PriceSeries::new(vec![bar("2024-01-05", 83.0), bar("2024-01-08", 84.0)]);
    assert_eq!(rate_on(&rates, d("2024-01-07")), Some(n(83.0)));
    assert_eq!(rate_on(&rates, d("2024-01-04")), None);
}

// ── Taxes ────────────────────────────────────────────────────────────────────

fn gain(entry: &str, exit: &str, pnl: f64) -> RealizedGain {
    RealizedGain { entry_date: d(entry), exit_date: d(exit), pnl: n(pnl) }
}

/// Tax of all years: a short-term loss shelters long-term gains, then the exemption applies.
fn total_tax(t: &TaxModel, gains: &Vec<RealizedGain>) -> f64 {
    t.assess(gains)
        .iter()
        .map(|y| {
            let short: f64 = y.short_term.iter().map(|i| f(gains[*i].pnl)).sum();
            let mut long: f64 = y.long_term.iter().map(|i| f(gains[*i].pnl)).sum();
            if short < 0.0 {
                long += short;
            }
            let long = (long.max(0.0) - f(t.annual_long_term_exemption)).max(0.0);
            short.max(0.0) * f(t.short_term_rate) + long * f(t.long_term_rate)
        })
        .sum()
}

#[test]
fn short_term_gain_taxed_at_short_rate() {
    let t = TaxModel::india_equity();
    let tax = total_tax(&t, &vec![gain("2024-08-01", "2024-09-01", 10_000.0)]);
    assert!((tax - 2_000.0).abs() < 1e-9);
}

#[test]
fn long_term_gain_uses_exemption_then_rate() {
    let t = TaxModel::india_equity();
    let tax = total_tax(&t, &vec![gain("2023-01-01", "2024-06-01", 225_000.0)]);
    assert!((tax - 12_500.0).abs() < 1e-9);
}

#[test]
fn short_term_loss_shelters_long_term_gain_but_not_vice_versa() {
    let mut t = TaxModel::india_equity();
    t.annual_long_term_exemption = n(0.0);
    let tax = total_tax(
        &t,
        &vec![
            gain("2023-01-01", "2024-06-01", 100_000.0),
            gain("2024-05-01", "2024-06-15", -40_000.0),
        ],
    );
    assert!((tax - 60_000.0 * 0.125).abs() < 1e-9);
    let tax = total_tax(
        &t,
        &vec![
            gain("2023-01-01", "2024-06-01", -50_000.0),
            gain("2024-05-01", "2024-06-15", 10_000.0),
        ],
    );
    assert!((tax - 2_000.0).abs() < 1e-9);
}

#[test]
fn net_losses_produce_no_tax_and_no_refund() {
    let tax = total_tax(&TaxModel::us_taxable(), &vec![gain("2024-01-10", "2024-02-10", -5_000.0)]);
    assert_eq!(tax, 0.0);
}

#[test]
fn fiscal_year_boundary_splits_years() {
    let t = TaxModel::india_equity();
    let years = t.assess(&vec![
        gain("2024-01-01", "2024-03-31", 1_000.0),
        gain("2024-01-01", "2024-04-01", 1_000.0),
    ]);
    assert_eq!(years.len(), 2);
    assert_eq!(years[0].tax_year, 2023);
    assert_eq!(years[1].tax_year, 2024);
}

#[test]
fn every_gain_is_taxed_once() {
    let t = TaxModel::india_equity();
    let years = t.assess(&vec![
        gain("2023-01-01", "2024-06-01", -50_000.0),
        gain("2024-05-01", "2024-06-15", 10_000.0),
    ]);
    assert_eq!(years.len(), 1);
    assert_eq!(years[0].tax_year, 2024);
    assert_eq!(years[0].short_term, vec![1]);
    assert_eq!(years[0].long_term, vec![0]);
    assert!(t.assess(&Vec::new()).is_empty());
}
