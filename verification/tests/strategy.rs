use quant_edge::calendar::Date;
use quant_edge::daily::morning::{recent_returns, split_by_market};
use quant_edge::daily::picks::{holding_period_days, score_based_picks};
use quant_edge::data::source::{FundamentalSnapshot, PriceBar};
use quant_edge::gics::{normalise, GicsRow, GicsTaxonomy};
use quant_edge::llm::gemini::{answer, strip_markdown_fences, Part, ReplyError};
use quant_edge::llm::strategy_spec::{ScaledWeights, SpecError, StrategySpec};
use quant_edge::number::Number;
use quant_edge::paper_trading::engine::{
    default_strategy, initial_picks, last_price, PaperPortfolio, Quote,
};
use quant_edge::roles::{
    classify_industry, compute_price_return, compute_revenue_cagr, detect_swaps, momentum_window,
    CandidateData, CompanySlot, Role,
};
use quant_edge::signals::SignalScore;

fn n(x: f64) -> Number {
    Number::from_bits(x.to_bits())
}

fn f(x: Number) -> f64 {
    f64::from_bits(x.to_bits())
}

fn d(s: &str) -> Date {
    Date::from_text(s).unwrap()
}

fn scores(composites: &[f64]) -> Vec<SignalScore> {
    composites
        .iter()
        .enumerate()
        .map(|(i, c)| SignalScore {
            ticker: format!("T{i}"),
            industry: "Banks".to_string(),
            rank: i + 1,
            composite: n(*c),
            macro_on: true,
        })
        .collect()
}

fn tickers(v: &Vec<SignalScore>) -> Vec<&str> {
    v.iter().map(|s| s.ticker.as_str()).collect()
}

// ── Strategy specifications ──────────────────────────────────────────────────

/// Validates as a caller does: with the sum of the weights and each weight divided by it.
fn validate(spec: &mut StrategySpec) -> Result<(), SpecError> {
    let w = spec.signal_weights;
    let all = [w.momentum, w.fundamental, w.insider, w.sentiment, w.pairs];
    let total: f64 = all.iter().filter_map(|v| *v).map(f).sum();
    let scale = 1.0 / total;
    let scaled = |v: Option<Number>| n(v.map_or(0.0, f) * scale);
    spec.validate(
        n(total),
        ScaledWeights {
            momentum: scaled(w.momentum),
            fundamental: scaled(w.fundamental),
            insider: scaled(w.insider),
            sentiment: scaled(w.sentiment),
            pairs: scaled(w.pairs),
        },
    )
}

#[test]
fn counts_of_zero_become_one_and_large_ones_are_refused() {
    let mut s = StrategySpec::default();
    s.top_n = 0;
    s.holding_period_days = 0;
    assert_eq!(validate(&mut s), Ok(()));
    assert_eq!((s.top_n, s.holding_period_days), (1, 1));
    s.top_n = 51;
    assert_eq!(validate(&mut s), Err(SpecError::TopN(51)));
    assert_eq!(SpecError::TopN(51).message(), "top_n must be between 1 and 50, got 51");
    s.top_n = 50;
    s.holding_period_days = 366;
    assert_eq!(validate(&mut s), Err(SpecError::HoldingPeriod(366)));
    assert_eq!(
        SpecError::HoldingPeriod(366).message(),
        "holding_period_days must be between 1 and 365, got 366"
    );
}

#[test]
fn weights_above_one_are_scaled_down_and_unset_ones_stay_unset() {
    let mut s = StrategySpec::default();
    s.signal_weights.momentum = Some(n(1.5));
    s.signal_weights.insider = Some(n(0.5));
    assert_eq!(validate(&mut s), Ok(()));
    assert_eq!(s.signal_weights.momentum, Some(n(0.75)));
    assert_eq!(s.signal_weights.insider, Some(n(0.25)));
    assert_eq!(s.signal_weights.pairs, None);
    let before = s.signal_weights;
    assert_eq!(validate(&mut s), Ok(()));
    assert_eq!(s.signal_weights, before, "a sum of one is left alone");
}

#[test]
fn an_answer_is_the_first_text_that_is_no_thought() {
    let part = |text: &str, thought: bool| Part { text: text.to_string(), thought };
    let got = answer(&vec![vec![part("hmm", true), part("yes", false), part("no", false)]]);
    assert_eq!(got.unwrap(), "yes");
    assert!(matches!(answer(&Vec::new()), Err(ReplyError::NoCandidates)));
    assert!(matches!(answer(&vec![vec![part("hmm", true)]]), Err(ReplyError::NoAnswer)));
    assert!(!ReplyError::NoAnswer.message().is_empty());
}

#[test]
fn fences_around_an_answer_are_removed() {
    assert_eq!(strip_markdown_fences("```json\n{\"a\":1}\n```"), "{\"a\":1}");
    assert_eq!(strip_markdown_fences("```\nx\n```  "), "x");
    assert_eq!(strip_markdown_fences(" x "), "x");
}

// ── Picks ────────────────────────────────────────────────────────────────────

#[test]
fn picks_are_clamped_between_five_and_thirty() {
    let few = scores(&[80.0, 70.0, 50.0, 40.0, 30.0, 20.0]);
    assert_eq!(tickers(&score_based_picks(&few, n(60.0))), vec!["T0", "T1", "T2", "T3", "T4"]);
    let many = scores(&[90.0; 40]);
    assert_eq!(score_based_picks(&many, n(60.0)).len(), 30);
    let some = scores(&[90.0, 80.0, 70.0, 65.0, 61.0, 60.0, 59.0]);
    assert_eq!(score_based_picks(&some, n(60.0)).len(), 6);
}

#[test]
fn nothing_is_picked_while_risk_is_off() {
    let mut s = scores(&[90.0, 80.0, 70.0, 65.0, 61.0, 60.0]);
    s[3].macro_on = false;
    assert!(score_based_picks(&s, n(60.0)).is_empty());
}

#[test]
fn the_holding_period_has_a_default() {
    assert_eq!(holding_period_days(None), 25);
    assert_eq!(holding_period_days(Some("40")), 40);
    assert_eq!(holding_period_days(Some("forty")), 25);
}

#[test]
fn picks_are_split_by_exchange() {
    let mut s = scores(&[90.0, 80.0, 70.0]);
    s[1].ticker = "TCS.NS".to_string();
    let (nse, us) = split_by_market(&s);
    assert_eq!(tickers(&nse), vec!["TCS.NS"]);
    assert_eq!(tickers(&us), vec!["T0", "T2"]);
}

#[test]
fn recent_returns_need_enough_bars() {
    let bars: Vec<PriceBar> = (0..21)
        .map(|i| {
            let c = n(100.0 + i as f64);
            PriceBar {
                date: d("2024-01-01").plus_days(i),
                open: c,
                high: c,
                low: c,
                close: c,
                adj_close: c,
                adj_open: c,
                volume: 1,
            }
        })
        .collect();
    let (week, month) = recent_returns(&bars);
    assert_eq!(week, Some((n(115.0), n(120.0))));
    assert_eq!(month, Some((n(100.0), n(120.0))));
    assert_eq!(recent_returns(&bars[..5].to_vec()), (None, None));
    assert_eq!(last_price(&bars), n(120.0));
    assert_eq!(last_price(&Vec::new()), n(0.0));
}

// ── Paper portfolio ──────────────────────────────────────────────────────────

fn quote(price: f64, alloc: f64, cash: f64) -> Quote {
    let shares = alloc / price;
    Quote {
        price: n(price),
        shares: n(shares),
        cost: n(shares * price),
        budget: n(cash + 1.0),
        cash_after: n(cash - shares * price),
    }
}

#[test]
fn a_paper_portfolio_sells_what_is_no_longer_picked() {
    let spec = default_strategy(25);
    assert_eq!((spec.name.as_str(), spec.top_n, spec.holding_period_days), ("Daily Engine", 15, 25));
    assert!(spec.signal_weights.momentum.is_none() && spec.filters.macro_filter_enabled);
    assert!(spec.filters.sectors.is_none() && spec.filters.min_market_cap_b.is_none());
    let picks = initial_picks(&spec, &scores(&[90.0, 80.0]));
    assert_eq!(tickers(&picks), vec!["T0", "T1"]);
    let start = d("2024-01-01");
    let mut p = PaperPortfolio::new(spec, n(1_000.0), start);
    assert!(p.buy("T0", quote(50.0, 500.0, 1_000.0), start));
    assert!(p.buy("T1", quote(20.0, 500.0, 500.0), start));
    assert!(!p.buy("T1", quote(20.0, 100.0, 500.0), start), "already held");
    assert!(!p.buy("T2", quote(20.0, 100.0, 0.0), start), "more than the cash and one");
    assert!(!p.buy("T2", quote(-1.0, 0.0, 10.0), start), "no price");
    assert_eq!(f(p.cash), 0.0);
    p.mark(0, n(55.0), n(10.0));
    p.mark(1, n(0.0), n(7.0));
    assert_eq!(f(p.positions[0].current_price), 55.0);
    assert_eq!(f(p.positions[1].current_price), 20.0, "no price leaves the position alone");
    assert!(!p.rebalance_due(d("2024-01-25")));
    assert!(p.rebalance_due(d("2024-01-26")));
    let sold = p.drop_unpicked(&scores(&[90.0]));
    assert_eq!(sold.len(), 1);
    assert_eq!(sold[0].ticker, "T1");
    assert!(p.is_held("T0") && !p.is_held("T1"));
    p.rebalanced(n(500.0), d("2024-01-26"));
    assert_eq!(p.days_since_rebalance(d("2024-01-28")), 2);
}

// ── Taxonomy ─────────────────────────────────────────────────────────────────

fn taxonomy() -> GicsTaxonomy {
    let row = |s: u32, g: u32, i: u32, name: &str| GicsRow {
        sector_code: s,
        sector_name: format!("S{s}"),
        industry_group_code: g,
        industry_group_name: format!("G{g}"),
        industry_code: i,
        industry_name: name.to_string(),
    };
    GicsTaxonomy::from_rows(&vec![
        row(10, 1010, 101010, "Energy Equipment"),
        row(10, 1010, 101020, "Oil  &  Gas"),
        row(45, 4530, 453010, "Semiconductors"),
    ])
}

#[test]
fn sectors_and_groups_are_listed_once() {
    let t = taxonomy();
    assert_eq!((t.sectors.len(), t.industry_groups.len(), t.industry_count()), (2, 2, 3));
    assert_eq!(t.sector_by_code(45).unwrap().name, "S45");
    assert!(t.sector_by_code(99).is_none());
    assert_eq!(t.industries_in_sector(10).len(), 2);
    assert_eq!(t.industries_in_group(4530).len(), 1);
    assert_eq!(t.industry_by_code(101020).unwrap().sector_code, 10);
}

#[test]
fn an_industry_is_found_by_code_or_by_name() {
    let t = taxonomy();
    assert_eq!(t.resolve(" 453010 ").unwrap().name, "Semiconductors");
    assert_eq!(t.resolve("  OIL & gas ").unwrap().code, 101020);
    assert_eq!(t.industry_by_name("ÉNERGY").map(|i| i.code), None);
    assert!(t.resolve("123").is_none());
    assert_eq!(normalise("  ÉNERGY \t Équipment "), "énergy équipment");
}

#[test]
fn sectors_share_out_the_industries() {
    let t = taxonomy();
    let mut all: Vec<u32> = t
        .sectors
        .iter()
        .flat_map(|s| t.industries_in_sector(s.code))
        .map(|i| i.code)
        .collect();
    all.sort();
    assert_eq!(all, vec![101010, 101020, 453010]);
    assert!(t.industries_in_sector(99).is_empty());
}

#[test]
fn codes_and_names_resolve_to_their_industry() {
    let t = taxonomy();
    for i in &t.industries {
        for input in [
            i.code.to_string(),
            format!(" \t{}\n", i.code),
            i.name.clone(),
            format!("  {} ", i.name.to_uppercase()),
        ] {
            assert_eq!(t.resolve(&input).unwrap().code, i.code, "{input}");
        }
        let once = normalise(&i.name);
        assert_eq!(normalise(&once), once);
    }
}

#[test]
fn industries_are_picked_in_the_order_of_the_table() {
    let t = taxonomy();
    let got: Vec<u32> = t.pick_n(2, &vec![101010]).iter().map(|i| i.code).collect();
    assert_eq!(got, vec![101020, 453010]);
    assert_eq!(t.pick_n(1, &vec![]).len(), 1);
}

// ── Roles ────────────────────────────────────────────────────────────────────

fn company(revenue: f64, book: f64) -> CandidateData {
    CandidateData {
        fundamentals: Some(FundamentalSnapshot {
            ticker: "X".to_string(),
            date: d("2024-01-01"),
            revenue_ttm: Some(n(revenue)),
            revenue_cagr_3yr: None,
            net_margin_pct: None,
            debt_to_equity: None,
            price_to_book: Some(n(book)),
            price_return_12m_1m: None,
            market_share_proxy: None,
            operating_cashflow: None,
            return_on_assets: None,
            gross_profit_margin: None,
        }),
        momentum: None,
        revenue_share: n(revenue / 300.0),
    }
}

#[test]
fn each_role_goes_to_the_company_with_the_best_metric() {
    let slot = |t: &str| CompanySlot {
        ticker: t.to_string(),
        name: format!("{t} Inc"),
        industry_name: "Chips".to_string(),
    };
    let slots = vec![slot("A"), slot("B")];
    let roles = Role::all();
    let before = classify_industry(
        1,
        &slots,
        &vec![company(100.0, 5.0), company(200.0, 2.0)],
        n(300.0),
        &roles,
        d("2024-01-01"),
    );
    assert_eq!(before.get(Role::LargestByRevenue).unwrap().ticker, "B");
    assert_eq!(before.get(Role::DeepValue).unwrap().ticker, "B");
    assert!(before.get(Role::MomentumLeader).is_none());
    assert_eq!(before.industry_name, "Chips");
    assert!(before.holds_any_role("B") && !before.holds_any_role("A"));
    let after = classify_industry(
        1,
        &slots,
        &vec![company(250.0, 5.0), company(50.0, 2.0)],
        n(300.0),
        &roles,
        d("2024-02-01"),
    );
    let swaps = detect_swaps(&before, &after);
    assert!(swaps.iter().all(|s| s.outgoing == "B" && s.incoming == "A"));
    let of: Vec<Role> = swaps.iter().map(|s| s.role).collect();
    assert!(of.contains(&Role::LargestByRevenue) && of.contains(&Role::ConsumerReach));
    assert!(!of.contains(&Role::DeepValue));
}

#[test]
fn momentum_leaves_the_latest_month_out() {
    let (from, to) = momentum_window(d("2024-05-31"));
    assert_eq!(to, d("2024-04-30"));
    assert_eq!(from, d("2023-05-31"));
    assert_eq!(compute_price_return(&Vec::new()), None);
    assert_eq!(Role::DeepValue.higher_is_better(), false);
    assert!(Role::FastestGrower.higher_is_better());
}

#[test]
fn revenue_growth_needs_two_positive_revenues() {
    let of = |revenue: f64| company(revenue, 1.0).fundamentals.unwrap();
    assert_eq!(compute_revenue_cagr(&of(200.0), &of(100.0)), Some((n(100.0), n(200.0))));
    assert_eq!(compute_revenue_cagr(&of(200.0), &of(0.0)), None);
    assert_eq!(compute_revenue_cagr(&of(-1.0), &of(100.0)), None);
    let mut unknown = of(1.0);
    unknown.revenue_ttm = None;
    assert_eq!(compute_revenue_cagr(&unknown, &of(100.0)), None);
}

#[test]
fn a_normal_name_is_small_and_spaced_once() {
    assert_eq!(normalise(" ENERGY \t  Equipment & Z \n"), "energy equipment & z");
    assert_eq!(normalise(" \t "), "");
    assert_eq!(normalise("[@`{"), "[@`{");
    assert!(!normalise("A\u{212a}ÀZ").contains(|c: char| c.is_ascii_uppercase()));
}
