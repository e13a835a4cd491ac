use quant_edge::calendar::Date;
use quant_edge::daily::backfill::{Backfill, DayOutcome, BACKFILL_DIR};
use quant_edge::data::asof::{
    is_genuine_snapshot, is_historical, latest_usable, AsOf, LIVE_GRACE_DAYS,
};
use quant_edge::data::cache::{has_price_coverage, is_fresh, read_list, store_list};
use quant_edge::data::fred::{
    bars_to_macro_points, build_snapshot, compute_macro_regime, fred_points, last_value,
    parse_fred_csv, value_n_days_ago, yield_ends,
};
use quant_edge::data::membership::{
    extend_timeline, members_on, membership_as_of, membership_union, put_snapshot, same_members,
    MembershipSnapshot,
};
use quant_edge::data::prices::{momentum_12m1m, PriceSeries, PriceStore};
use quant_edge::data::source::{classify_cap, MarketCap, PriceBar};
use quant_edge::data::types::{
    InsiderTrade, MacroDataPoint, MacroSnapshot, NewsItem, PitFact, RedditSnapshot,
};
use quant_edge::number::Number;

fn n(x: f64) -> Number {
    Number::from_bits(x.to_bits())
}

fn f(x: Number) -> f64 {
    f64::from_bits(x.to_bits())
}

fn d(s: &str) -> Date {
    Date::from_text(s).unwrap()
}

fn bar(date: &str, close: f64) -> PriceBar {
    let c = n(close);
    PriceBar {
        date: d(date),
        open: c,
        high: c,
        low: c,
        close: c,
        adj_close: c,
        adj_open: c,
        volume: 1_000_000,
    }
}

// ── Price series ─────────────────────────────────────────────────────────────

fn series() -> PriceSeries {
    PriceSeries::new(vec![
        bar("2024-01-05", 10.0),
        bar("2024-01-08", 11.0),
        bar("2024-01-09", 12.0),
    ])
}

#[test]
fn on_or_before_forward_fills_over_a_weekend() {
    let s = series();
    assert_eq!(f(s.on_or_before(d("2024-01-07")).unwrap().close), 10.0);
    assert_eq!(f(s.on_or_before(d("2024-01-08")).unwrap().close), 11.0);
    assert!(s.on_or_before(d("2024-01-04")).is_none());
}

#[test]
fn strictly_after_never_returns_the_same_day() {
    let s = series();
    assert_eq!(s.strictly_after(d("2024-01-05")).unwrap().date, d("2024-01-08"));
    assert_eq!(s.strictly_after(d("2024-01-07")).unwrap().date, d("2024-01-08"));
    assert!(s.strictly_after(d("2024-01-09")).is_none());
}

#[test]
fn on_requires_an_exact_trading_day() {
    let s = series();
    assert!(s.on(d("2024-01-06")).is_none());
    assert_eq!(f(s.on(d("2024-01-09")).unwrap().close), 12.0);
}

#[test]
fn unsorted_duplicate_and_bad_bars_are_cleaned() {
    let s = PriceSeries::new(vec![
        bar("2024-01-09", 12.0),
        bar("2024-01-05", 10.0),
        bar("2024-01-05", 10.5),
        bar("2024-01-08", 0.0),
        bar("2024-01-08", f64::NAN),
    ]);
    assert_eq!(s.len(), 2);
    assert_eq!(f(s.on(d("2024-01-05")).unwrap().close), 10.5);
}

#[test]
fn window_is_inclusive_on_both_ends() {
    let s = series();
    assert_eq!(s.window(d("2024-01-05"), d("2024-01-08")).len(), 2);
    assert!(s.window(d("2024-01-10"), d("2024-01-12")).is_empty());
    assert!(s.window(d("2024-01-09"), d("2024-01-05")).is_empty());
}

#[test]
fn a_series_knows_its_first_and_last_day() {
    let s = PriceSeries::new(vec![bar("2024-01-09", 1.0), bar("2024-01-05", 1.0)]);
    assert_eq!(s.first_date(), Some(d("2024-01-05")));
    assert_eq!(s.last_date(), Some(d("2024-01-09")));
    assert_eq!(PriceSeries::new(Vec::new()).first_date(), None);
    assert_eq!(PriceSeries::new(Vec::new()).last_date(), None);
}

#[test]
fn calendar_is_the_sorted_union() {
    let mut st = PriceStore::new();
    st.insert("A".to_string(), PriceSeries::new(vec![bar("2024-01-05", 1.0), bar("2024-01-09", 1.0)]));
    st.insert("B".to_string(), PriceSeries::new(vec![bar("2024-01-08", 1.0)]));
    assert_eq!(
        st.calendar(d("2024-01-01"), d("2024-12-31")),
        vec![d("2024-01-05"), d("2024-01-08"), d("2024-01-09")]
    );
}

#[test]
fn dollar_volume_and_vol() {
    let bars: Vec<PriceBar> = (0..30)
        .map(|i| {
            let mut b = bar("2024-01-01", 100.0 + (i % 3) as f64);
            b.date = d("2024-01-01").plus_days(i);
            b.volume = 10;
            b
        })
        .collect();
    let s = PriceSeries::new(bars);
    let last = s.last_n_through(d("2024-02-15"), 20);
    let adv = last.iter().map(|b| f(b.close) * b.volume as f64).sum::<f64>() / last.len() as f64;
    assert!(adv > 900.0 && adv < 1100.0);
    let w = s.volatility_window(d("2024-02-15"), 20).unwrap();
    let r: Vec<f64> = w.windows(2).map(|p| f(p[1].adj_close) / f(p[0].adj_close) - 1.0).collect();
    let mean = r.iter().sum::<f64>() / r.len() as f64;
    assert!(r.iter().map(|x| (x - mean).powi(2)).sum::<f64>() > 0.0);
    assert!(s.volatility_window(d("2024-01-03"), 20).is_none());
}

#[test]
fn a_store_keeps_the_last_series_of_a_ticker() {
    let mut st = PriceStore::new();
    assert!(st.is_empty());
    st.insert("A".to_string(), series());
    st.insert("A".to_string(), PriceSeries::new(vec![bar("2024-01-05", 1.0)]));
    assert_eq!(st.len(), 1);
    assert_eq!(st.get("A").unwrap().len(), 1);
    assert!(st.get("B").is_none());
}

#[test]
fn momentum_needs_a_year_of_bars() {
    let bars: Vec<PriceBar> = (0..300)
        .map(|i| {
            let mut b = bar("2023-01-01", 100.0 + i as f64);
            b.date = d("2023-01-01").plus_days(i);
            b
        })
        .collect();
    assert!(momentum_12m1m(&bars).is_some());
    assert!(momentum_12m1m(&bars[..20]).is_none());
}

#[test]
fn market_caps_fall_into_three_tiers() {
    assert_eq!(classify_cap(n(1.9e9)), MarketCap::SmallCap);
    assert_eq!(classify_cap(n(2e9)), MarketCap::MidCap);
    assert_eq!(classify_cap(n(1e10)), MarketCap::LargeCap);
    for c in [MarketCap::SmallCap, MarketCap::MidCap, MarketCap::LargeCap] {
        assert_eq!(MarketCap::from_name(c.name()), c);
    }
}

// ── Views of the past ────────────────────────────────────────────────────────

fn bars() -> Vec<PriceBar> {
    vec![
        bar("2023-06-28", 10.0),
        bar("2023-06-30", 11.0),
        bar("2023-07-03", 12.0),
        bar("2023-08-01", 99.0),
    ]
}

fn insiders() -> Vec<InsiderTrade> {
    let mk = |filed: &str, traded: &str, name: &str| InsiderTrade {
        ticker: "X".to_string(),
        filing_date: d(filed),
        trade_date: d(traded),
        insider_name: name.to_string(),
        insider_role: "CEO".to_string(),
        shares: n(1.0),
        transaction_type: "A".to_string(),
    };
    vec![
        mk("2023-06-20", "2023-06-18", "a"),
        mk("2023-07-05", "2023-06-29", "b"),
        mk("2023-07-10", "2023-07-08", "c"),
    ]
}

fn facts() -> Vec<PitFact> {
    let mk = |end: &str, value: f64, filed: &str| PitFact {
        concept: "assets".to_string(),
        start: None,
        end: d(end),
        value: n(value),
        filed: d(filed),
        form: "10-Q".to_string(),
    };
    vec![mk("2023-03-31", 1.0, "2023-05-01"), mk("2023-06-30", 2.0, "2023-08-01")]
}

fn view(date: &str) -> AsOf {
    AsOf::new(d(date), d("2026-01-15"))
}

#[test]
fn nothing_after_the_as_of_date_is_ever_returned() {
    let v = view("2023-06-30");
    let seen = v.price_bars(bars());
    assert!(seen.iter().all(|b| b.date.days <= d("2023-06-30").days));
    assert_eq!(seen.len(), 2);
    assert_eq!(f(v.last_bar(bars()).unwrap().close), 11.0);

    let trades = v.insider_trades(insiders());
    assert_eq!(trades.len(), 1, "filed-after and future trades must be hidden");
    assert_eq!(trades[0].insider_name, "a");

    let item = |date: &str, headline: &str| NewsItem {
        ticker: "X".to_string(),
        article_date: d(date),
        tone: n(1.0),
        headline: headline.to_string(),
        source: "s".to_string(),
    };
    let news = v.news_items(vec![item("2023-06-25", "past"), item("2023-07-02", "future")]);
    assert_eq!(news.len(), 1);
    assert_eq!(news[0].headline, "past");

    let snap = |date: &str, sub: &str| RedditSnapshot {
        ticker: "X".to_string(),
        fetch_date: d(date),
        subreddit: sub.to_string(),
        mention_count: 5,
        avg_upvote_ratio: n(0.8),
        total_comments: 1,
    };
    let reddit = v.reddit_snapshots(vec![snap("2023-06-29", "wsb"), snap("2023-07-04", "stocks")]);
    assert_eq!(reddit.len(), 1);
    assert!(reddit.iter().all(|r| r.fetch_date.days <= d("2023-06-30").days));

    let point = |date: &str, value: f64| MacroDataPoint {
        series_id: "VIXCLS".to_string(),
        date: d(date),
        value: n(value),
    };
    let vix = v.macro_points(vec![point("2023-06-29", 14.0), point("2023-07-05", 40.0)]);
    assert_eq!(vix.len(), 1);
    assert_eq!(f(vix[0].value), 14.0);

    let known = v.pit_facts(facts());
    assert_eq!(known.len(), 1, "the 2023-06-30 balance sheet was filed in August");
    assert_eq!(f(known[0].value), 1.0);
}

#[test]
fn moving_the_view_forward_reveals_more_but_only_what_had_happened() {
    let later = view("2023-07-06");
    assert_eq!(later.insider_trades(insiders()).len(), 2);
    assert_eq!(later.price_bars(bars()).len(), 3);
    assert_eq!(later.pit_facts(facts()).len(), 1);
    assert_eq!(view("2023-09-01").pit_facts(facts()).len(), 2);
}

#[test]
fn a_view_of_the_past_cannot_see_a_current_snapshot_of_fundamentals() {
    let v = view("2020-01-31");
    assert!(!v.accepts_fundamentals(Some("yahoo_current")));
    assert!(!v.accepts_fundamentals(Some("legacy")));
    assert!(!v.accepts_fundamentals(None));
    assert!(v.accepts_fundamentals(Some("sec_pit")));
}

#[test]
fn reddit_rows_collected_long_after_their_label_are_hidden() {
    assert!(!is_genuine_snapshot(d("2023-06-29"), d("2026-01-15")));
    assert!(is_genuine_snapshot(d("2023-06-29"), d("2023-06-29")));
}

#[test]
fn a_live_view_accepts_a_current_snapshot() {
    let today = d("2026-01-15");
    let v = AsOf::new(today, today);
    assert!(!v.is_historical());
    assert!(v.accepts_fundamentals(Some("yahoo_current")));
}

#[test]
fn historical_boundary() {
    let today = d("2026-01-15");
    assert!(is_historical(today.plus_days(-(LIVE_GRACE_DAYS + 1)), today));
    assert!(!is_historical(today.plus_days(-LIVE_GRACE_DAYS), today));
    assert!(!is_historical(today, today));
}

#[test]
fn correlation_matrix_lookup_is_bound_to_the_as_of_date() {
    let rows = [(d("2023-06-01"), 0.5), (d("2024-06-01"), 0.9)];
    let dates: Vec<Date> = rows.iter().map(|r| r.0).collect();
    let usable = latest_usable(&dates, d("2023-06-20"), 30);
    assert_eq!(usable, Some(d("2023-06-01")));
    let got: Vec<f64> = rows.iter().filter(|r| Some(r.0) == usable).map(|r| r.1).collect();
    assert_eq!(got.len(), 1);
    assert!((got[0] - 0.5_f64).abs() < 1e-12, "must not load the 2024 matrix");
    assert_eq!(latest_usable(&dates, d("2023-09-01"), 30), None, "too old to use at that date");
    assert_eq!(latest_usable(&dates, d("2023-01-01"), 30), None, "nothing existed yet");
}

// ── Membership ───────────────────────────────────────────────────────────────

fn snap(date: &str, tickers: &[&str]) -> MembershipSnapshot {
    MembershipSnapshot { date: d(date), tickers: tickers.iter().map(|s| s.to_string()).collect() }
}

fn seeded() -> Vec<MembershipSnapshot> {
    vec![
        snap("2020-01-01", &["AAPL", "MSFT", "GME"]),
        snap("2020-12-21", &["AAPL", "MSFT", "TSLA"]),
        snap("2021-06-01", &["AAPL", "MSFT", "TSLA", "COIN"]),
    ]
}

#[test]
fn as_of_picks_the_latest_change_on_or_before_the_date() {
    let c = seeded();
    assert_eq!(membership_as_of(&c, d("2020-06-15")), vec!["AAPL", "MSFT", "GME"]);
    assert_eq!(membership_as_of(&c, d("2020-12-21")), vec!["AAPL", "MSFT", "TSLA"]);
    assert_eq!(membership_as_of(&c, d("2021-01-15")), vec!["AAPL", "MSFT", "TSLA"]);
    assert_eq!(membership_as_of(&c, d("2021-06-01")), vec!["AAPL", "MSFT", "TSLA", "COIN"]);
}

#[test]
fn as_of_before_the_dataset_falls_back_to_the_earliest_row() {
    assert_eq!(membership_as_of(&seeded(), d("1999-01-01")), vec!["AAPL", "MSFT", "GME"]);
}

#[test]
fn union_covers_every_member_across_the_window_including_the_row_just_before_it() {
    let c = seeded();
    let mut v = membership_union(&c, d("2020-02-01"), d("2020-03-01"));
    v.sort();
    assert_eq!(v, vec!["AAPL", "GME", "MSFT"]);
    let u = membership_union(&c, d("2020-12-01"), d("2020-12-31"));
    assert!(u.contains(&"GME".to_string()) && u.contains(&"TSLA".to_string()), "{u:?}");
    assert!(!u.contains(&"COIN".to_string()));
}

#[test]
fn has_cache_respects_the_max_age_window() {
    let now = 1_700_000_000;
    assert!(is_fresh(now, now, 30 * 86_400));
    assert!(!is_fresh(now, now, -86_400), "a negative window must never be considered fresh");
}

#[test]
fn re_saving_overwrites_rather_than_duplicating() {
    let mut c = seeded();
    put_snapshot(&mut c, snap("2020-01-01", &["ONLY"]));
    assert_eq!(c.len(), 3);
    assert_eq!(membership_as_of(&c, d("2020-06-01")), vec!["ONLY"]);
}

#[test]
fn a_timeline_grows_only_where_the_members_change() {
    let t = |v: &[&str]| v.iter().map(|s| s.to_string()).collect::<Vec<String>>();
    let mut line = Vec::new();
    extend_timeline(&mut line, d("2024-01-01"), t(&["A", "B"]));
    extend_timeline(&mut line, d("2024-01-02"), t(&["B", "A"]));
    extend_timeline(&mut line, d("2024-01-03"), t(&["A", "C"]));
    assert_eq!(line.len(), 2);
    assert_eq!(members_on(&line, d("2024-01-02")), t(&["A", "B"]));
    assert_eq!(members_on(&line, d("2024-01-03")), t(&["A", "C"]));
    assert!(same_members(&t(&["A", "B"]), &t(&["B", "A"])));
    assert!(!same_members(&t(&["A"]), &t(&["B", "A"])));
}

#[test]
fn lists_are_stored_with_commas_and_read_back() {
    let v = vec!["A".to_string(), "B.NS".to_string()];
    assert_eq!(store_list(&v), "A,B.NS");
    assert_eq!(read_list("A,B.NS"), v);
    assert!(read_list("").is_empty());
}

#[test]
fn stored_prices_cover_a_range_that_has_enough_bars() {
    assert!(has_price_coverage(20, d("2024-01-01"), d("2024-01-31")));
    assert!(!has_price_coverage(1, d("2024-01-01"), d("2024-12-31")));
    assert!(!has_price_coverage(4, d("2024-01-01"), d("2024-01-08")), "four of five are not nine in ten");
    assert!(has_price_coverage(5, d("2024-01-01"), d("2024-01-08")));
    assert!(has_price_coverage(9, d("2024-01-01"), d("2024-01-15")));
}

// ── Macro data ───────────────────────────────────────────────────────────────

fn regime(vix: Option<f64>, now: Option<f64>, ago: Option<f64>) -> bool {
    let rise = match (now, ago) {
        (Some(a), Some(b)) => Some(n(a - b)),
        _ => None,
    };
    compute_macro_regime(vix.map(n), rise)
}

#[test]
fn yahoo_closes_become_macro_points_and_bad_values_are_dropped() {
    let pts = bars_to_macro_points(
        "VIXCLS",
        &vec![
            bar("2024-01-02", 13.2),
            bar("2024-01-03", f64::NAN),
            bar("2024-01-04", 0.0),
            bar("2024-01-05", 14.1),
        ],
    );
    assert_eq!(pts.len(), 2);
    assert!(pts.iter().all(|p| p.series_id == "VIXCLS"));
    assert_eq!(f(pts[1].value), 14.1);
}

#[test]
fn regime_flips_on_high_vix_or_a_yield_spike() {
    assert!(regime(Some(18.0), Some(4.0), Some(3.9)));
    assert!(!regime(Some(31.0), Some(4.0), Some(3.9)), "VIX >= 25 is risk-off");
    assert!(!regime(Some(15.0), Some(4.6), Some(4.0)), "+0.6 in 30d is a spike");
    assert!(regime(None, None, None), "no data is fail-open (and now warns loudly)");
    assert!(!regime(Some(25.0), None, None));
    assert!(regime(Some(15.0), Some(4.5), Some(4.0)), "a rise of just 0.5 is no spike");
    assert!(!regime(None, Some(4.75), Some(4.0)));
}

#[test]
fn a_fred_table_gives_the_values_that_can_be_read() {
    let rows = parse_fred_csv("DATE,DGS10\n2024-01-02,3.95\n2024-01-03,.\nbad,1\n2024-01-04,4.00\n");
    let values = rows.iter().map(|r| r.value.parse::<f64>().ok().map(n)).collect();
    let pts = fred_points("DGS10", &rows, &values);
    assert_eq!(pts.len(), 2);
    assert_eq!(pts[0].date, d("2024-01-02"));
    assert_eq!(last_value(&pts), Some(n(4.0)));
    assert_eq!(value_n_days_ago(&pts, d("2024-02-02"), 30), Some(n(3.95)));
    assert_eq!(value_n_days_ago(&pts, d("2024-02-03"), 30), Some(n(4.0)), "a day after is closer");
    assert_eq!(value_n_days_ago(&pts, d("2024-02-02"), 60), Some(n(3.95)), "the closest, if later");
    assert_eq!(value_n_days_ago(&pts, d("2024-01-03"), 0), Some(n(3.95)), "the earlier of a tie");
    assert_eq!(value_n_days_ago(&Vec::new(), d("2024-01-03"), 0), None);
    let (now, ago) = yield_ends(&pts, d("2024-02-02"));
    assert_eq!((now, ago), (Some(n(4.0)), Some(n(3.95))));
    let s = build_snapshot(d("2024-02-02"), &Vec::new(), &pts, n(0.05));
    assert!(s.macro_on);
    assert_eq!(s.yield_10y, Some(n(4.0)));
    assert_eq!(
        build_snapshot(d("2024-02-02"), &Vec::new(), &Vec::new(), n(0.0)),
        MacroSnapshot::neutral(d("2024-02-02"))
    );
}

// ── Backfill ─────────────────────────────────────────────────────────────────

#[test]
fn last_day_is_clamped_outside_the_live_window() {
    let today = d("2026-01-15");
    let b = Backfill::new(today, today, 10);
    assert!(b.last_day.days <= today.plus_days(-(LIVE_GRACE_DAYS + 1)).days);
    assert!(b.last_day.days < today.days);
}

#[test]
fn a_negative_window_scores_no_day() {
    let mut b = Backfill::new(d("2026-01-09"), d("2026-01-15"), -3);
    assert_eq!(b.first_day, d("2026-01-12"));
    assert!(b.next_day().is_none());
}

#[test]
fn a_backfill_counts_what_became_of_each_day() {
    let today = d("2026-01-15");
    let mut b = Backfill::new(d("2026-01-09"), today, 2);
    let mut days = Vec::new();
    while let Some(day) = b.next_day() {
        days.push(day);
        let outcome = if day == d("2026-01-09") { DayOutcome::Ranked(day) } else { DayOutcome::Failed };
        if b.scored_day(day, outcome) {
            b.recorded(true);
        }
    }
    assert_eq!(days.last(), Some(&d("2026-01-09")));
    assert!(days.iter().all(|x| !x.is_weekend()));
    assert_eq!(b.written, 1);
    assert_eq!(b.failed as usize, days.len() - 1);
    assert!(b.summary(BACKFILL_DIR, true).contains("backfill_log"));
}
