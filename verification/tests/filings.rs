use quant_edge::calendar::Date;
use quant_edge::data::edgar::{
    extract_insider_info, form4_filings, form4_url, insider_trades, lookup_cik, padded_cik,
    parse_form4_xml, raw_form4_filename, read_directory, Attempts, CikLookup, SubmissionsError,
};
use quant_edge::data::gdelt::{
    parse_gdelt_date, parse_gdelt_response, request_url, urlencoded, ReplyError,
};
use quant_edge::data::json::{parse, Json};
use quant_edge::data::reddit::{parse_reddit_response, search_url, timeframe, TallyError};
use quant_edge::data::sec_facts::{
    build_snapshot, latest_instant, latest_known, parse_companyfacts, revenue_cagr_3yr,
    snapshot_sources, ttm, SnapshotInputs, SnapshotRatios, Ttm,
};
use quant_edge::data::source::{MarketCap, PriceBar};
use quant_edge::data::types::{InsiderTrade, PitFact};
use quant_edge::data::xml::{xml_all_sections, xml_nested_val, xml_section, xml_val};
use quant_edge::data::yahoo::{
    accept_crumb, asset_info, chart_bars, chart_url, choose_source, current_figures, extract_raw,
    stored_prices, today_prices, Columns, FundamentalsSource, QuotedBar,
};
use quant_edge::number::Number;

fn n(x: f64) -> Number {
    Number::from_bits(x.to_bits())
}

fn f(x: Number) -> f64 {
    f64::from_bits(x.to_bits())
}

fn d(s: &str) -> Date {
    Date::from_text(s).unwrap()
}

// ── Insider filings ──────────────────────────────────────────────────────────

/// A filing with one transaction per row: date, code, shares, acquired or disposed.
fn form4(title: &str, txs: &[(&str, &str, &str, &str)]) -> String {
    let mut body = String::new();
    for (date, code, shares, ad) in txs {
        body.push_str(&format!(
            "<nonDerivativeTransaction> <securityTitle><value>Common Stock</value></securityTitle> \
             <transactionDate><value>{date}</value></transactionDate> \
             <transactionCoding><transactionFormType>4</transactionFormType> \
             <transactionCode>{code}</transactionCode><equitySwapInvolved>0</equitySwapInvolved></transactionCoding> \
             <transactionAmounts> \
             <transactionShares><value>{shares}</value><footnoteId id=\"F1\"/></transactionShares> \
             <transactionPricePerShare><value>10</value></transactionPricePerShare> \
             <transactionAcquiredDisposedCode><value>{ad}</value></transactionAcquiredDisposedCode> \
             </transactionAmounts> </nonDerivativeTransaction>"
        ));
    }
    format!(
        "<?xml version=\"1.0\"?><ownershipDocument> \
         <reportingOwner><reportingOwnerId><rptOwnerCik>1</rptOwnerCik><rptOwnerName>DOE JANE</rptOwnerName></reportingOwnerId> \
         <reportingOwnerRelationship><isDirector>0</isDirector><isOfficer>1</isOfficer> \
         <officerTitle>{title}</officerTitle></reportingOwnerRelationship></reportingOwner> \
         <nonDerivativeTable>{body}</nonDerivativeTable></ownershipDocument>"
    )
}

fn trades(ticker: &str, filed: &str, xml: &str) -> Vec<InsiderTrade> {
    let raw = parse_form4_xml(ticker, d(filed), xml);
    let shares = raw.iter().map(|t| t.shares.parse::<f64>().ok().map(n)).collect();
    insider_trades(&raw, &shares)
}

#[test]
fn only_open_market_purchases_and_sales_are_kept() {
    let xml = form4(
        "Chief Financial Officer",
        &[
            ("2024-05-01", "P", "100", "A"),
            ("2024-05-02", "S", "250", "D"),
            ("2024-05-03", "F", "999", "D"),
            ("2024-05-04", "A", "500", "A"),
            ("2024-05-05", "M", "300", "A"),
            ("2024-05-06", "G", "50", "D"),
        ],
    );
    let t = trades("XYZ", "2024-05-07", &xml);
    assert_eq!(t.len(), 2, "{t:?}");
    assert_eq!(t[0].transaction_type, "A");
    assert_eq!(f(t[0].shares), 100.0);
    assert_eq!(t[1].transaction_type, "D");
    assert_eq!(t[1].trade_date, d("2024-05-02"));
    assert!(t.iter().all(|x| x.filing_date == d("2024-05-07")));
    assert!(t.iter().all(|x| x.insider_role == "CFO" && x.insider_name == "DOE JANE"));
}

#[test]
fn a_filing_with_only_compensation_events_yields_nothing() {
    let xml = form4("Director", &[("2024-05-03", "F", "999", "D"), ("2024-05-04", "A", "500", "A")]);
    assert!(trades("XYZ", "2024-05-07", &xml).is_empty());
}

#[test]
fn a_vice_president_is_not_treated_as_the_president() {
    let xml = form4("Vice President, Sales", &[("2024-05-01", "P", "10", "A")]);
    assert_eq!(trades("X", "2024-05-02", &xml)[0].insider_role, "Officer");
    let xml = form4("President", &[("2024-05-01", "P", "10", "A")]);
    assert_eq!(trades("X", "2024-05-02", &xml)[0].insider_role, "President");
}

#[test]
fn the_raw_xml_filename_drops_the_xsl_rendering_directory() {
    assert_eq!(raw_form4_filename("xslF345X06/wk-form4_1789766132.xml"), "wk-form4_1789766132.xml");
    assert_eq!(raw_form4_filename("form4.xml"), "form4.xml");
}

#[test]
fn trades_without_a_readable_number_of_shares_are_dropped() {
    let xml = form4("CEO", &[("2024-05-01", "P", "", "A"), ("2024-05-01", "P", "x", "A")]);
    assert!(trades("X", "2024-05-02", &xml).is_empty());
    assert_eq!(extract_insider_info(&xml), ("DOE JANE".to_string(), "CEO".to_string()));
}

#[test]
fn a_request_waits_longer_after_each_failure_and_then_gives_up() {
    let mut a = Attempts::new(3);
    assert_eq!(a.next_delay(), Some(150));
    assert_eq!(a.next_delay(), Some(650));
    assert_eq!(a.next_delay(), Some(1_150));
    assert_eq!(a.next_delay(), None);
    let mut once = Attempts::new(0);
    assert_eq!(once.next_delay(), Some(150));
    assert_eq!(once.next_delay(), None);
}

#[test]
fn the_directory_of_companies_is_searched_by_ticker() {
    let doc = parse(
        r#"{"0":{"cik_str":320193,"ticker":"AAPL","title":"Apple"},"1":{"cik_str":1,"ticker":"X"}}"#,
    )
    .unwrap();
    let dir = read_directory(&doc);
    assert_eq!(dir.len(), 2);
    assert!(matches!(lookup_cik(&dir, "aapl"), CikLookup::Found(320193)));
    assert!(matches!(lookup_cik(&dir, "ZZZ"), CikLookup::Unknown));
    assert!(matches!(lookup_cik(&Vec::new(), "AAPL"), CikLookup::NotLoaded));
    assert_eq!(padded_cik(320193), "0000320193");
}

#[test]
fn recent_form_4_filings_are_listed_with_their_documents() {
    let doc = parse(
        r#"{"filings":{"recent":{
            "form":["4","10-Q","4"],
            "filingDate":["2024-05-07","2024-05-06","2020-01-01"],
            "accessionNumber":["0001-24-1","0001-24-2","0001-20-3"],
            "primaryDocument":["xsl/a.xml","b.htm","c.xml"]}}}"#,
    )
    .unwrap();
    let got = form4_filings(&doc, d("2024-05-10"), 90).unwrap();
    assert_eq!(got.len(), 1);
    assert_eq!(got[0].filing_date, d("2024-05-07"));
    let url = form4_url(320193, &got[0].accession, &got[0].document);
    assert!(url.contains("0001241") && url.ends_with("a.xml"), "{url}");
    let bad = parse("{}").unwrap();
    assert_eq!(form4_filings(&bad, d("2024-05-10"), 90).unwrap_err(), SubmissionsError::NoRecentFilings);
    let no_forms = parse(r#"{"filings":{"recent":{}}}"#).unwrap();
    let e = form4_filings(&no_forms, d("2024-05-10"), 90).unwrap_err();
    assert_eq!(e, SubmissionsError::NoForms);
    assert!(!e.message().is_empty());
}

#[test]
fn tags_are_found_with_and_without_attributes() {
    let xml = "<a x=\"1\"><b> hi </b></a><a><b>two</b></a>";
    assert_eq!(xml_val(xml, "b").as_deref(), Some("hi"));
    assert_eq!(xml_section(xml, "a").as_deref(), Some("<b>two</b>"));
    assert_eq!(xml_nested_val("<o><v>3</v></o>", "o", "v").as_deref(), Some("3"));
    assert_eq!(xml_all_sections(xml, "a"), vec!["<b> hi </b>", "<b>two</b>"]);
    assert_eq!(xml_val(xml, "c"), None);
}

// ── Company facts ────────────────────────────────────────────────────────────

fn flow(concept: &str, start: &str, end: &str, value: f64, filed: &str) -> PitFact {
    PitFact {
        concept: concept.to_string(),
        start: Some(d(start)),
        end: d(end),
        value: n(value),
        filed: d(filed),
        form: "10-Q".to_string(),
    }
}

fn instant(concept: &str, end: &str, value: f64, filed: &str) -> PitFact {
    PitFact {
        concept: concept.to_string(),
        start: None,
        end: d(end),
        value: n(value),
        filed: d(filed),
        form: "10-Q".to_string(),
    }
}

fn company() -> Vec<PitFact> {
    vec![
        flow("revenue", "2020-10-01", "2021-09-30", 800.0, "2021-11-01"),
        flow("revenue", "2021-10-01", "2022-09-30", 1_000.0, "2022-11-01"),
        flow("revenue", "2021-10-01", "2021-12-31", 250.0, "2022-02-01"),
        flow("revenue", "2022-10-01", "2022-12-31", 300.0, "2023-02-01"),
        flow("net_income", "2021-10-01", "2022-09-30", 100.0, "2022-11-01"),
        instant("assets", "2022-09-30", 2_000.0, "2022-11-01"),
        instant("equity", "2022-09-30", 500.0, "2022-11-01"),
        instant("long_term_debt", "2022-09-30", 300.0, "2022-11-01"),
        instant("shares_outstanding", "2022-10-20", 10.0, "2022-11-01"),
    ]
}

fn total(t: Option<Ttm>) -> Option<f64> {
    t.map(|x| f(x.annual) + x.year_to_date.map_or(0.0, |(now, before)| f(now) - f(before)))
}

fn ttm_of(facts: &Vec<PitFact>, concept: &str, as_of: &str) -> Option<f64> {
    total(ttm(facts, concept, d(as_of)))
}

fn snapshot(facts: &Vec<PitFact>, as_of: &str, price: Option<f64>) -> Option<SnapshotRatios> {
    let s = snapshot_sources(facts, d(as_of));
    let debt = match (s.long_term_debt, s.short_term_debt) {
        (None, None) => None,
        (a, b) => Some(n(a.map_or(0.0, f) + b.map_or(0.0, f))),
    };
    build_snapshot(SnapshotInputs {
        revenue: total(s.revenue).map(n),
        net_income: total(s.net_income).map(n),
        gross_profit: total(s.gross_profit).map(n),
        assets: s.assets,
        equity: s.equity,
        shares: s.shares,
        debt,
        price: price.map(n),
    })
}

fn ratio(p: Option<(Number, Number)>) -> Option<f64> {
    p.map(|(a, b)| f(a) / f(b))
}

fn cagr(p: Option<(Number, Number)>) -> Option<f64> {
    p.map(|(base, latest)| (f(latest) / f(base)).powf(1.0 / 3.0) - 1.0)
}

#[test]
fn ttm_adds_current_ytd_and_subtracts_prior_year_ytd() {
    let v = ttm_of(&company(), "revenue", "2023-03-01").unwrap();
    assert!((v - 1_050.0).abs() < 1e-9, "{v}");
}

#[test]
fn point_in_time_ignores_filings_not_yet_public() {
    let before = ttm_of(&company(), "revenue", "2022-12-15").unwrap();
    assert!((before - 1_000.0).abs() < 1e-9, "{before}");
    let earlier = ttm_of(&company(), "revenue", "2022-10-15").unwrap();
    assert!((earlier - 800.0).abs() < 1e-9, "{earlier}");
}

#[test]
fn restatements_apply_only_once_filed() {
    let mut facts = company();
    facts.push(flow("revenue", "2021-10-01", "2022-09-30", 1_100.0, "2023-11-01"));
    let before = ttm_of(&facts, "revenue", "2022-12-15").unwrap();
    assert!((before - 1_000.0).abs() < 1e-9, "old value until the restatement is filed");
    let known = latest_known(&facts, "revenue", d("2023-12-01"));
    let fy22: Vec<&PitFact> = known
        .iter()
        .map(|i| &facts[*i])
        .filter(|x| x.start == Some(d("2021-10-01")) && x.end == d("2022-09-30"))
        .collect();
    assert_eq!(fy22.len(), 1);
    assert_eq!(f(fy22[0].value), 1_100.0);
}

#[test]
fn stale_data_is_dropped() {
    assert!(ttm(&company(), "revenue", d("2026-01-01")).is_none());
    assert!(latest_instant(&company(), "assets", d("2026-01-01")).is_none());
}

#[test]
fn snapshot_derives_ratios() {
    let s = snapshot(&company(), "2023-03-01", Some(60.0)).unwrap();
    assert!((f(s.revenue_ttm.unwrap()) - 1_050.0).abs() < 1e-9);
    assert!((ratio(s.debt_to_equity).unwrap() * 100.0 - 60.0).abs() < 1e-9);
    assert!((ratio(s.return_on_assets).unwrap() * 100.0 - 5.0).abs() < 1e-9);
    let (price, shares, equity) = s.price_to_book.unwrap();
    assert!((f(price) * f(shares) / f(equity) - 1.2).abs() < 1e-9);
}

#[test]
fn snapshot_is_none_before_any_filing() {
    assert!(snapshot(&company(), "2021-01-01", None).is_none());
}

#[test]
fn negative_equity_leaves_leverage_unknown() {
    let mut facts = company();
    facts.retain(|x| x.concept != "equity");
    facts.push(instant("equity", "2022-09-30", -50.0, "2022-11-01"));
    let s = snapshot(&facts, "2023-03-01", Some(60.0)).unwrap();
    assert!(s.debt_to_equity.is_none());
    assert!(s.price_to_book.is_none());
}

#[test]
fn revenue_cagr_uses_fiscal_years_known_at_the_date() {
    let mut facts = company();
    facts.push(flow("revenue", "2018-10-01", "2019-09-30", 500.0, "2019-11-01"));
    facts.push(flow("revenue", "2019-10-01", "2020-09-30", 600.0, "2020-11-01"));
    let c = cagr(revenue_cagr_3yr(&facts, d("2023-03-01"))).unwrap();
    assert!((c - (2.0f64.powf(1.0 / 3.0) - 1.0)).abs() < 1e-9, "{c}");
    assert!(revenue_cagr_3yr(&facts, d("2022-10-15")).is_none());
    facts.push(flow("revenue", "2017-10-01", "2018-09-30", 400.0, "2018-11-01"));
    let earlier = cagr(revenue_cagr_3yr(&facts, d("2022-10-15"))).unwrap();
    assert!((earlier - ((800.0f64 / 400.0).powf(1.0 / 3.0) - 1.0)).abs() < 1e-9, "{earlier}");
}

#[test]
fn parse_keeps_only_periodic_filings_and_merges_tags() {
    let doc = parse(
        r#"{
        "facts": {
            "us-gaap": {
                "Revenues": { "units": { "USD": [
                    { "start": "2017-10-01", "end": "2018-09-29", "val": 200.0, "form": "10-K", "filed": "2018-11-05" }
                ]}},
                "RevenueFromContractWithCustomerExcludingAssessedTax": { "units": { "USD": [
                    { "start": "2018-09-30", "end": "2019-09-28", "val": 260.0, "form": "10-K", "filed": "2019-10-31" },
                    { "start": "2019-09-29", "end": "2019-12-28", "val": 90.0, "form": "8-K", "filed": "2020-01-28" }
                ]}},
                "Assets": { "units": { "USD": [
                    { "end": "2019-09-28", "val": 900.0, "form": "10-K", "filed": "2019-10-31" }
                ]}}
            },
            "dei": { "EntityCommonStockSharesOutstanding": { "units": { "shares": [
                { "end": "2019-10-18", "val": 4.5, "form": "10-K", "filed": "2019-10-31" }
            ]}}}
        }
    }"#,
    )
    .unwrap();
    let facts = parse_companyfacts(&doc);
    assert_eq!(
        facts.iter().filter(|x| x.concept == "revenue").count(),
        2,
        "both tags merge; the 8-K is dropped"
    );
    assert!(facts.iter().all(|x| x.form != "8-K"));
    let assets = facts.iter().find(|x| x.concept == "assets").unwrap();
    assert!(assets.start.is_none());
    assert!(facts.iter().any(|x| x.concept == "shares_outstanding"));
}

#[test]
fn duplicate_tags_for_the_same_period_keep_the_first() {
    let doc = parse(
        r#"{
        "facts": { "us-gaap": {
            "StockholdersEquity": { "units": { "USD": [
                { "end": "2020-12-31", "val": 100.0, "form": "10-K", "filed": "2021-02-01" } ]}},
            "StockholdersEquityIncludingPortionAttributableToNoncontrollingInterest": { "units": { "USD": [
                { "end": "2020-12-31", "val": 130.0, "form": "10-K", "filed": "2021-02-01" } ]}}
        }}
    }"#,
    )
    .unwrap();
    let facts = parse_companyfacts(&doc);
    assert_eq!(facts.len(), 1);
    assert_eq!(f(facts[0].value), 100.0, "parent-only equity is listed first and wins");
}

// ── Documents ────────────────────────────────────────────────────────────────

#[test]
fn documents_are_read_with_their_members() {
    let doc = parse(r#"{"a":[1,-2.5,"x",true,null],"b":{"raw":3}}"#).unwrap();
    let list = doc.member("a").unwrap().as_list().unwrap();
    assert_eq!(list.len(), 5);
    assert_eq!(list[0].as_natural(), Some(1));
    assert_eq!(list[1].as_number(), Some(n(-2.5)));
    assert_eq!(list[1].as_natural(), None);
    assert_eq!(list[2].as_text(), Some("x"));
    assert!(matches!(list[3], Json::Bool(true)));
    assert!(matches!(list[4], Json::Null));
    assert_eq!(extract_raw(doc.member("b")), Some(n(3.0)));
    assert_eq!(extract_raw(None), None);
    assert!(doc.member("c").is_none());
    assert!(parse("{").is_none());
}

// ── News and forums ──────────────────────────────────────────────────────────

#[test]
fn news_is_read_with_its_dates() {
    assert_eq!(parse_gdelt_date("20240507T101500Z"), Some(d("2024-05-07")));
    assert_eq!(parse_gdelt_date("2024"), None);
    let reply = r#"{"articles":[{"seendate":"20240507T101500Z","title":"Hi","domain":"a.com","tone":1.5}]}"#;
    let news = parse_gdelt_response("X", reply, d("2024-06-01")).unwrap();
    assert_eq!(news.len(), 1);
    assert_eq!(news[0].article_date, d("2024-05-07"));
    assert_eq!(news[0].headline, "Hi");
    assert_eq!(news[0].source, "a.com");
    assert!(parse_gdelt_response("X", "oops", d("2024-06-01")).is_err());
    assert!(request_url("X", 500).contains("90"));
    assert_eq!(urlencoded("a b"), "a+b");
}

#[test]
fn mentions_are_counted_from_a_search() {
    let reply = r#"{"data":{"children":[
        {"data":{"upvote_ratio":0.9,"num_comments":3}},
        {"data":{"upvote_ratio":0.5,"num_comments":4}}]}}"#;
    let t = parse_reddit_response(reply).unwrap();
    assert_eq!(t.mention_count, 2);
    assert_eq!(t.total_comments, 7);
    assert_eq!(t.upvote_ratios, vec![n(0.9), n(0.5)]);
    assert_eq!(parse_reddit_response("x").unwrap_err(), TallyError::NotJson);
    let huge = r#"{"data":{"children":[
        {"data":{"num_comments":4294967295}},{"data":{"num_comments":1}}]}}"#;
    assert_eq!(parse_reddit_response(huge).unwrap_err(), TallyError::TooLarge);
    assert_eq!(timeframe(1), "day");
    assert_eq!(timeframe(7), "week");
    assert!(search_url("TSLA", "stocks", 7).contains("stocks"));
}

// ── Quotes ───────────────────────────────────────────────────────────────────

#[test]
fn chart_rows_without_a_price_are_dropped() {
    let c = Columns {
        timestamps: vec![1_704_153_600, 1_704_240_000],
        open: vec![Some(n(1.0)), None],
        high: vec![Some(n(2.0)), Some(n(2.0))],
        low: vec![Some(n(1.0)), Some(n(1.0))],
        close: vec![Some(n(1.5)), None],
        volume: vec![Some(7), None],
        adj_close: vec![Some(n(1.4)), None],
    };
    let bars = chart_bars(&c);
    assert_eq!(bars.len(), 1);
    assert_eq!(bars[0].date, d("2024-01-02"));
    assert_eq!(bars[0].adj_close, n(1.4));
    let url = chart_url("AAPL", d("2024-01-02"), d("2024-01-03"));
    assert!(url.contains("AAPL") && url.contains("1704153600"), "{url}");
}

#[test]
fn a_crumb_is_accepted_only_from_a_good_reply() {
    assert_eq!(accept_crumb(true, "abc123"), Some("abc123".to_string()));
    assert_eq!(accept_crumb(false, "abc123"), None);
    assert_eq!(accept_crumb(true, ""), None);
}

#[test]
fn current_numbers_are_refused_for_the_past() {
    assert!(matches!(choose_source(true, true, true), FundamentalsSource::Stored));
    assert!(matches!(choose_source(false, true, true), FundamentalsSource::Filings));
    assert!(matches!(choose_source(false, false, true), FundamentalsSource::Refused));
    assert!(matches!(choose_source(false, false, false), FundamentalsSource::Current));
    let fin = parse(r#"{"totalRevenue":{"raw":10}}"#).unwrap();
    let stats = parse(r#"{"priceToBook":{"raw":2.5}}"#).unwrap();
    let x = current_figures(&fin, &stats);
    assert_eq!(x.total_revenue, Some(n(10.0)));
    assert_eq!(x.price_to_book, Some(n(2.5)));
    assert_eq!(x.debt_to_equity, None);
}

#[test]
fn todays_prices_come_from_the_last_bar() {
    let bar = |date: &str| QuotedBar {
        date: d(date),
        open: n(1.0),
        high: n(4.0),
        low: n(0.5),
        close: n(2.0),
        adj_close: n(3.0),
        volume: 7,
    };
    assert_eq!(today_prices(&Vec::new(), d("2024-01-05")), None);
    let bars = vec![bar("2024-01-04"), bar("2024-01-05")];
    assert_eq!(today_prices(&bars, d("2024-01-05")), Some((n(1.0), n(3.0))));
    assert_eq!(today_prices(&bars, d("2024-01-08")), Some((n(2.0), n(3.0))));
    assert_eq!(stored_prices(&Vec::new()), (n(0.0), n(0.0)));
    let stored = PriceBar {
        date: d("2024-01-05"),
        open: n(1.0),
        high: n(4.0),
        low: n(0.5),
        close: n(2.0),
        adj_close: n(3.0),
        adj_open: n(1.5),
        volume: 7,
    };
    assert_eq!(stored_prices(&vec![stored]), (n(1.0), n(3.0)));
}

#[test]
fn a_company_is_described_by_its_reply() {
    let price = parse(
        r#"{"longName":"Apple Inc.","exchangeName":"NasdaqGS","currency":"USD","marketCap":{"raw":3e12}}"#,
    )
    .unwrap();
    let profile = parse(r#"{"industry":"Consumer Electronics"}"#).unwrap();
    let x = asset_info("AAPL", &price, &profile);
    assert_eq!((x.ticker.as_str(), x.name.as_str()), ("AAPL", "Apple Inc."));
    assert_eq!((x.exchange.as_str(), x.currency.as_str()), ("NasdaqGS", "USD"));
    assert_eq!(x.gics_industry.as_deref(), Some("Consumer Electronics"));
    assert_eq!(x.market_cap_usd, Some(n(3e12)));
    assert!(matches!(x.market_cap_tier, Some(MarketCap::LargeCap)));
    let empty = parse("{}").unwrap();
    let y = asset_info("XYZ", &empty, &empty);
    assert_eq!((y.name.as_str(), y.exchange.as_str()), ("XYZ", "UNKNOWN"));
    assert!(y.gics_industry.is_none() && y.market_cap_tier.is_none());
}

#[test]
fn what_is_filed_later_does_not_change_a_snapshot() {
    let plain = company();
    let mut other = vec![flow("revenue", "2021-10-01", "2022-09-30", 5.0, "2024-01-01")];
    other.extend(company());
    other.insert(3, instant("assets", "2022-09-30", 7.0, "2023-06-01"));
    other.push(instant("equity", "2023-03-31", 9.0, "2023-05-01"));
    let day = d("2023-03-01");
    assert_eq!(snapshot_sources(&plain, day), snapshot_sources(&other, day));
    let later = d("2023-06-02");
    assert_ne!(snapshot_sources(&plain, later), snapshot_sources(&other, later));
}

#[test]
fn a_news_date_is_cut_after_eight_bytes() {
    assert_eq!(parse_gdelt_date("20240115"), Some(d("2024-01-15")));
    // A no-break space takes two bytes, which leaves six of the digits.
    assert_eq!(parse_gdelt_date("\u{a0}20240115"), None);
    assert_eq!(parse_gdelt_date("\u{a0}2024011"), None);
    assert_eq!(parse_gdelt_date("20240115é"), Some(d("2024-01-15")));
    assert_eq!(parse_gdelt_date("2024-01-15é"), None);
    let reply = |date: &str| format!(r#"{{"articles":[{{"seendate":"{date}","tone":1.5}}]}}"#);
    let today = d("2024-06-01");
    let news = parse_gdelt_response("X", &reply("\u{a0}20240115"), today).unwrap();
    assert_eq!(news[0].article_date, today);
    let split = parse_gdelt_response("X", &reply("2024011é"), today);
    assert_eq!(split.err(), Some(ReplyError::SplitDate));
    assert_eq!(parse_gdelt_response("X", "oops", today).err(), Some(ReplyError::NotJson));
    let untold = r#"{"articles":[{"seendate":"2024011é"}]}"#;
    assert_eq!(parse_gdelt_response("X", untold, today).unwrap().len(), 0);
}
