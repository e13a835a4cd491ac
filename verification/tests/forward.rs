use quant_edge::calendar::Date;
use quant_edge::data::prices::{PriceSeries, PriceStore};
use quant_edge::data::source::PriceBar;
use quant_edge::forward_test::diff::{biggest_first, diff, diff_latest};
use quant_edge::forward_test::evaluation::{
    cash_entries, earliest_data, evaluate_entry, evaluate_log, status, status_entry,
    tickers_to_load, EntryStatus, Hold, Mark, Outcome,
};
use quant_edge::forward_test::{
    data_through, entry_files, entry_name, is_entry_name, record, universe_hash, verify, Figures,
    ForwardEntry, LogInput, LoggedPick, NotNewer, RankedName,
};
use quant_edge::journal::find_model_composite;
use quant_edge::metrics::ic;
use quant_edge::number::Number;
use quant_edge::signals::SignalScore;

fn n(x: f64) -> Number {
    Number::from_bits(x.to_bits())
}

fn f(x: Number) -> f64 {
    f64::from_bits(x.to_bits())
}

fn d(s: &str) -> Date {
    Date::from_text(s).unwrap()
}

fn score(t: &str, composite: f64, macro_on: bool) -> SignalScore {
    SignalScore {
        ticker: t.to_string(),
        industry: "Ind".to_string(),
        rank: 1,
        composite: n(composite),
        macro_on,
    }
}

fn figures(composite: f64) -> Figures {
    Figures {
        composite: n(composite),
        momentum_raw: n(composite / 50.0 - 1.0),
        fundamental_raw: n(0.0),
        insider_raw: n(0.0),
        sentiment_raw: n(0.0),
        pairs_raw: n(0.0),
        signals_available: 1,
    }
}

fn picked(scores: &[SignalScore]) -> Vec<LoggedPick> {
    scores.iter().map(|s| LoggedPick::from_score(s, figures(f(s.composite)), Vec::new())).collect()
}

fn input(date: &str, through: &str, scores: Vec<SignalScore>, picks: Vec<LoggedPick>) -> LogInput {
    let fs = scores.iter().map(|s| figures(f(s.composite))).collect();
    LogInput {
        as_of: d(date),
        data_through: d(through),
        strategy: "test".to_string(),
        scores,
        figures: fs,
        picks,
        vix: None,
        generated_at_utc: String::new(),
        code_version: None,
    }
}

/// The bytes that an entry is stored as.
fn stored(e: &ForwardEntry) -> Vec<u8> {
    format!(
        "{:?}",
        (
            e.schema_version, e.as_of, e.data_through, &e.strategy, e.macro_on, e.vix,
            e.universe_size, &e.universe_hash, &e.picks, &e.ranking, &e.prev_hash,
        )
    )
    .into_bytes()
}

fn append(log: &mut Vec<ForwardEntry>, x: LogInput) -> Result<(), NotNewer> {
    let mut e = record(log, x)?;
    let body = stored(&e);
    e.seal(body);
    log.push(e);
    Ok(())
}

fn rec(log: &mut Vec<ForwardEntry>, date: &str, picks: &[SignalScore]) -> Result<(), NotNewer> {
    let scores = vec![score("AAA", 75.0, true), score("BBB", 55.0, true)];
    let through = d(date).plus_days(-1).text();
    append(log, input(date, &through, scores, picked(picks)))
}

#[test]
fn a_fresh_chain_verifies() {
    let mut log = Vec::new();
    rec(&mut log, "2024-03-01", &[score("AAA", 75.0, true)]).unwrap();
    rec(&mut log, "2024-03-04", &[score("BBB", 70.0, true)]).unwrap();
    rec(&mut log, "2024-03-05", &[]).unwrap();
    let v = verify(&log);
    assert!(v.ok(), "{v:?}");
    assert_eq!(v.n_entries, 3);
}

#[test]
fn each_entry_commits_to_the_previous_one() {
    let mut log = Vec::new();
    rec(&mut log, "2024-03-01", &[score("AAA", 75.0, true)]).unwrap();
    rec(&mut log, "2024-03-04", &[score("AAA", 75.0, true)]).unwrap();
    assert_eq!(log[0].prev_hash, "");
    assert_eq!(log[1].prev_hash, log[0].hash);
    assert_ne!(log[0].hash, log[1].hash);
}

#[test]
fn editing_a_past_entry_is_detected() {
    let mut log = Vec::new();
    rec(&mut log, "2024-03-01", &[score("AAA", 75.0, true)]).unwrap();
    rec(&mut log, "2024-03-04", &[score("BBB", 70.0, true)]).unwrap();
    log[0].picks[0].ticker = "ZZZ".to_string();
    // The digest covers the stored bytes, which are made anew from the fields on reading.
    log[0].body = stored(&log[0]);
    let v = verify(&log);
    assert!(!v.ok());
    assert!(v.first_error.unwrap().contains("2024-03-01"));
}

#[test]
fn deleting_a_middle_entry_is_detected() {
    let mut log = Vec::new();
    rec(&mut log, "2024-03-01", &[score("AAA", 75.0, true)]).unwrap();
    rec(&mut log, "2024-03-04", &[score("AAA", 75.0, true)]).unwrap();
    rec(&mut log, "2024-03-05", &[score("AAA", 75.0, true)]).unwrap();
    log.remove(1);
    let v = verify(&log);
    assert!(!v.ok());
    assert!(v.first_error.unwrap().contains("2024-03-05"));
}

#[test]
fn recording_refuses_overwrites_and_back_dating() {
    let mut log = Vec::new();
    rec(&mut log, "2024-03-04", &[score("AAA", 75.0, true)]).unwrap();
    let e = rec(&mut log, "2024-03-04", &[score("BBB", 75.0, true)]).unwrap_err();
    assert_eq!(e, NotNewer { as_of: d("2024-03-04"), latest: d("2024-03-04") });
    assert!(e.message().contains("2024-03-04"));
    assert!(rec(&mut log, "2024-03-01", &[score("BBB", 75.0, true)]).is_err(), "back-dating");
    assert_eq!(log.len(), 1);
    assert!(rec(&mut log, "2024-03-05", &[]).is_ok());
}

#[test]
fn an_empty_directory_verifies_trivially() {
    let v = verify(&Vec::new());
    assert!(v.ok() && v.n_entries == 0);
    // A directory that is not there lists no files.
    let files = entry_files(&vec![]);
    assert!(files.is_empty() && verify(&Vec::new()).ok());
}

#[test]
fn a_realistic_full_size_entry_verifies_reliably() {
    let scores: Vec<SignalScore> = (0..317)
        .map(|i| {
            let raw = ((i as f64) * 0.0137 - 1.0).sin() * 0.913 + (i as f64).sqrt() * 1e-7;
            score(&format!("TICK{i:04}"), 50.0 + 50.0 * raw, true)
        })
        .collect();
    let picks = picked(&scores[..30]);
    let mut x = input("2024-03-04", "2024-03-01", scores, picks);
    x.vix = Some(n(17.35));
    let mut log = Vec::new();
    append(&mut log, x).unwrap();
    let v = verify(&log);
    assert!(v.ok(), "{v:?}");
    assert_eq!(log[0].universe_size, 317);
    assert_eq!(log[0].ranking.len(), 317);
}

#[test]
fn dropping_the_latest_entry_leaves_a_chain_that_verifies() {
    let mut log = Vec::new();
    rec(&mut log, "2024-03-01", &[]).unwrap();
    rec(&mut log, "2024-03-04", &[]).unwrap();
    log.pop();
    assert!(verify(&log).ok());
}

#[test]
fn universe_hash_ignores_order_and_duplicates() {
    let a = universe_hash(&vec!["B".into(), "A".into(), "A".into()]);
    let b = universe_hash(&vec!["A".into(), "B".into()]);
    assert_eq!(a, b);
    assert_ne!(a, universe_hash(&vec!["A".into(), "C".into()]));
}

#[test]
fn digests_are_sha256_in_hexadecimal() {
    let mut log = Vec::new();
    rec(&mut log, "2024-03-01", &[]).unwrap();
    log[0].seal(b"abc".to_vec());
    assert_eq!(
        log[0].hash,
        "ba7816bf8f01cfea414140de5dae2223b00361a396177a9cb410ff61f20015ad"
    );
    assert_eq!(log[0].compute_hash(), log[0].hash);
}

#[test]
fn risk_off_is_recorded_as_a_cash_entry() {
    let mut x = input("2024-03-04", "2024-03-01", vec![score("AAA", 75.0, false)], Vec::new());
    x.vix = Some(n(31.0));
    let e = record(&Vec::new(), x).unwrap();
    assert!(!e.macro_on);
    assert!(e.picks.is_empty());
    assert_eq!(e.vix, Some(n(31.0)));
}

#[test]
fn entries_are_stored_under_their_dates() {
    assert_eq!(entry_name(d("2024-03-04")), "2024-03-04.json");
    assert!(is_entry_name("2024-03-04.json"));
    assert!(!is_entry_name("notes.json"));
    assert!(!is_entry_name("2024-03-04.txt"));
    let names = vec![
        "2024-03-05.json".to_string(),
        "README".to_string(),
        "2024-03-04.json".to_string(),
    ];
    assert_eq!(entry_files(&names), vec!["2024-03-04.json", "2024-03-05.json"]);
}

#[test]
fn the_data_reaches_to_the_latest_bar_of_any_name() {
    let bars = vec![Some(d("2024-03-01")), None, Some(d("2024-03-04"))];
    assert_eq!(data_through(&bars, d("2024-03-05")), d("2024-03-04"));
    assert_eq!(data_through(&vec![None], d("2024-03-05")), d("2024-03-05"));
}

// ── Evaluation ───────────────────────────────────────────────────────────────

fn series_from(rows: &[(&str, f64, f64)]) -> PriceSeries {
    PriceSeries::new(
        rows.iter()
            .map(|(date, o, c)| PriceBar {
                date: d(date),
                open: n(*o),
                high: n(o.max(*c)),
                low: n(o.min(*c)),
                close: n(*c),
                adj_close: n(*c),
                adj_open: n(*o),
                volume: 1_000_000,
            })
            .collect(),
    )
}

fn store(rows: &[(&str, &[(&str, f64, f64)])]) -> PriceStore {
    let mut s = PriceStore::new();
    for (t, r) in rows {
        s.insert(t.to_string(), series_from(r));
    }
    s
}

fn entry_with(picks: &[&str], through: &str) -> ForwardEntry {
    let scores: Vec<SignalScore> = picks.iter().map(|t| score(t, 75.0, true)).collect();
    let as_of = d(through).plus_days(1).text();
    let mut e = record(&Vec::new(), input(&as_of, through, Vec::new(), picked(&scores))).unwrap();
    let body = stored(&e);
    e.seal(body);
    e
}

fn hold_return(h: &Hold) -> f64 {
    f(h.exit_close) / f(h.entry_open) - 1.0
}

fn mark_return(m: &Mark) -> f64 {
    f(m.latest_close) / f(m.entry_open) - 1.0
}

fn basket_return(o: &Outcome) -> f64 {
    if o.basket.is_empty() {
        0.0
    } else {
        o.basket.iter().map(hold_return).sum::<f64>() / o.basket.len() as f64
    }
}

#[test]
fn evaluation_enters_at_the_next_open_after_the_data_and_exits_at_the_horizon_close() {
    let s = store(&[(
        "AAA",
        &[
            ("2024-03-04", 90.0, 90.0),
            ("2024-03-05", 100.0, 95.0),
            ("2024-03-06", 110.0, 120.0),
            ("2024-03-07", 120.0, 200.0),
        ],
    )]);
    let out = evaluate_entry(&entry_with(&["AAA"], "2024-03-04"), &s, None, 2).unwrap();
    assert_eq!(out.entry_date, d("2024-03-05"));
    assert_eq!(out.exit_date, d("2024-03-06"));
    assert!((basket_return(&out) - 0.20).abs() < 1e-9, "{}", basket_return(&out));
    assert!(out.benchmark.is_none(), "no benchmark supplied");
}

#[test]
fn an_entry_that_has_not_matured_is_pending_not_scored() {
    let s = store(&[("AAA", &[("2024-03-04", 90.0, 90.0), ("2024-03-05", 100.0, 95.0)])]);
    let e = entry_with(&["AAA"], "2024-03-04");
    assert!(evaluate_entry(&e, &s, None, 5).is_none());
    let (outcomes, pending) = evaluate_log(&vec![e], &s, None, 5);
    assert!(outcomes.is_empty());
    assert_eq!(pending, 1);
}

#[test]
fn basket_is_equal_weight_and_excess_is_vs_the_benchmark() {
    let s = store(&[
        ("UP", &[("2024-03-04", 100.0, 100.0), ("2024-03-05", 100.0, 110.0), ("2024-03-06", 110.0, 120.0)]),
        ("DOWN", &[("2024-03-04", 100.0, 100.0), ("2024-03-05", 100.0, 95.0), ("2024-03-06", 95.0, 90.0)]),
    ]);
    let bench = series_from(&[("2024-03-04", 100.0, 100.0), ("2024-03-05", 100.0, 101.0), ("2024-03-06", 101.0, 102.0)]);
    let out = evaluate_entry(&entry_with(&["UP", "DOWN"], "2024-03-04"), &s, Some(&bench), 2).unwrap();
    assert!((basket_return(&out) - 0.05).abs() < 1e-9);
    let b = hold_return(&out.benchmark.unwrap());
    assert!((b - 0.02).abs() < 1e-9);
    assert!((basket_return(&out) - b - 0.03).abs() < 1e-9);
}

#[test]
fn a_cash_entry_returns_zero_and_loses_to_a_rising_benchmark() {
    let bench = series_from(&[("2024-03-04", 100.0, 100.0), ("2024-03-05", 100.0, 104.0), ("2024-03-06", 104.0, 110.0)]);
    let e = entry_with(&[], "2024-03-04");
    let out = evaluate_entry(&e, &PriceStore::new(), Some(&bench), 2).unwrap();
    assert!(out.in_cash);
    assert_eq!(basket_return(&out), 0.0);
    assert!((0.0 - hold_return(&out.benchmark.unwrap()) + 0.10).abs() < 1e-9, "sat out a +10% rally");
    assert!(evaluate_entry(&e, &PriceStore::new(), None, 2).is_none());
}

#[test]
fn cash_entries_are_counted() {
    let bench = series_from(&[("2024-03-05", 100.0, 104.0), ("2024-03-06", 104.0, 110.0)]);
    let log = vec![entry_with(&[], "2024-03-04"), entry_with(&["GONE"], "2024-03-04")];
    let (outcomes, pending) = evaluate_log(&log, &PriceStore::new(), Some(&bench), 2);
    assert_eq!(outcomes.len(), 1);
    assert_eq!(cash_entries(&outcomes), 1);
    assert_eq!(pending, 1);
}

#[test]
fn rank_ic_uses_the_whole_ranking_not_just_the_picks() {
    let mut s = PriceStore::new();
    let mut ranking = Vec::new();
    for i in 0..25 {
        let t = format!("T{i:02}");
        let end = 100.0 + i as f64;
        s.insert(
            t.clone(),
            series_from(&[("2024-03-04", 100.0, 100.0), ("2024-03-05", 100.0, 100.0), ("2024-03-06", 100.0, end)]),
        );
        ranking.push(RankedName { ticker: t, composite: n(40.0 + i as f64), signals_available: 3 });
    }
    let mut e = entry_with(&["T24"], "2024-03-04");
    e.ranking = ranking;
    let out = evaluate_entry(&e, &s, None, 2).unwrap();
    let pairs = out.ranking.unwrap();
    assert_eq!(pairs.len(), 25);
    let xs: Vec<Number> = pairs.iter().map(|p| p.composite).collect();
    let ys: Vec<Number> = pairs.iter().map(|p| n(hold_return(&p.hold))).collect();
    let ranks = ic::spearman(&xs, &ys).unwrap();
    assert_eq!(ranks.xs, ranks.ys, "the orders agree, so the rank correlation is one");
    e.ranking.truncate(10);
    assert!(evaluate_entry(&e, &s, None, 2).unwrap().ranking.is_none());
}

// ── Status ───────────────────────────────────────────────────────────────────

fn basket_return_so_far(x: &EntryStatus) -> Option<f64> {
    if x.in_cash {
        return Some(0.0);
    }
    let sum: f64 = x.picks.iter().map(|p| mark_return(&p.mark)).sum();
    (!x.picks.is_empty()).then_some(sum / x.picks.len() as f64)
}

#[test]
fn status_reports_a_running_return_long_before_the_horizon_matures() {
    let s = store(&[("AAA", &[("2024-03-04", 100.0, 100.0), ("2024-03-05", 100.0, 110.0), ("2024-03-06", 110.0, 120.0)])]);
    let e = entry_with(&["AAA"], "2024-03-04");
    assert!(evaluate_entry(&e, &s, None, 21).is_none());
    let x = status_entry(&e, &s, None, 21);
    assert!(!x.matured);
    assert_eq!(x.picks.len(), 1);
    assert_eq!(x.picks[0].mark.as_of, d("2024-03-06"));
    assert_eq!(x.picks[0].mark.trading_days_held, 2);
    assert!((mark_return(&x.picks[0].mark) - 0.20).abs() < 1e-9);
    assert!((basket_return_so_far(&x).unwrap() - 0.20).abs() < 1e-9);
}

#[test]
fn status_marks_an_entry_matured_once_every_pick_has_enough_history() {
    let s = store(&[("AAA", &[("2024-03-04", 100.0, 100.0), ("2024-03-05", 100.0, 110.0), ("2024-03-06", 110.0, 120.0)])]);
    let e = entry_with(&["AAA"], "2024-03-04");
    assert!(status_entry(&e, &s, None, 2).matured, "2 trading days held, horizon 2: fully matured");
    let log = vec![entry_with(&[], "2024-03-04"), e];
    assert!(status(&log, &s, None, 2).is_empty());
    assert_eq!(status(&log, &s, None, 3).len(), 1);
}

#[test]
fn status_of_a_cash_entry_is_always_matured_with_zero_return() {
    let bench = series_from(&[("2024-03-04", 100.0, 100.0), ("2024-03-05", 100.0, 104.0), ("2024-03-06", 104.0, 108.0)]);
    let x = status_entry(&entry_with(&[], "2024-03-04"), &PriceStore::new(), Some(&bench), 21);
    assert!(x.in_cash);
    assert!(x.matured);
    assert!(x.picks.is_empty());
    assert_eq!(basket_return_so_far(&x), Some(0.0));
    assert!((mark_return(&x.benchmark.unwrap()) - 0.08).abs() < 1e-9);
}

#[test]
fn status_skips_a_pick_that_has_not_entered_yet() {
    let s = store(&[("AAA", &[("2024-03-04", 100.0, 100.0)])]);
    let x = status_entry(&entry_with(&["AAA"], "2024-03-04"), &s, None, 21);
    assert!(x.picks.is_empty());
    assert!(basket_return_so_far(&x).is_none());
    assert!(!x.matured);
}

#[test]
fn the_history_to_load_covers_every_entry() {
    let log = vec![entry_with(&["B", "A"], "2024-03-04"), entry_with(&["A"], "2024-03-01")];
    assert_eq!(earliest_data(&log, d("2024-06-01")), d("2024-03-01"));
    assert_eq!(tickers_to_load(&log, false), vec!["A", "B"]);
}

// ── Differences ──────────────────────────────────────────────────────────────

fn entry_on(date: &str, picks: &[&str], macro_on: bool, ranking: &[(&str, f64)]) -> ForwardEntry {
    let mut e = entry_with(picks, "2023-12-29");
    e.as_of = d(date);
    e.macro_on = macro_on;
    e.ranking = ranking
        .iter()
        .map(|(t, c)| RankedName { ticker: t.to_string(), composite: n(*c), signals_available: 1 })
        .collect();
    e
}

#[test]
fn detects_added_and_removed_picks() {
    let x = diff(
        &entry_on("2024-01-01", &["A", "B"], true, &[]),
        &entry_on("2024-01-02", &["A", "C"], true, &[]),
    );
    assert_eq!(x.picks_added, vec!["C"]);
    assert_eq!(x.picks_removed, vec!["B"]);
    assert!(x.regime_changed.is_none());
}

#[test]
fn detects_a_regime_flip() {
    let prev = entry_on("2024-01-01", &[], true, &[]);
    let curr = entry_on("2024-01-02", &[], false, &[]);
    assert_eq!(diff(&prev, &curr).regime_changed, Some((true, false)));
    let prev = entry_on("2024-01-01", &[], false, &[]);
    assert!(diff(&prev, &curr).regime_changed.is_none());
}

#[test]
fn ranks_movers_by_absolute_delta_and_ignores_names_not_in_both() {
    let x = diff(
        &entry_on("2024-01-01", &[], true, &[("A", 50.0), ("B", 50.0), ("ONLY_PREV", 90.0)]),
        &entry_on("2024-01-02", &[], true, &[("A", 55.0), ("B", 30.0), ("ONLY_CURR", 10.0)]),
    );
    assert_eq!(x.movers.len(), 2, "ONLY_PREV/ONLY_CURR must be excluded");
    let deltas: Vec<f64> = x.movers.iter().map(|m| f(m.curr_composite) - f(m.prev_composite)).collect();
    let order = biggest_first(&deltas.iter().map(|v| n(*v)).collect());
    assert_eq!(x.movers[order[0]].ticker, "B", "the bigger move (|-20|) ranks first");
    assert!((deltas[order[0]] + 20.0).abs() < 1e-9);
    assert!((deltas[order[1]] - 5.0).abs() < 1e-9);
}

#[test]
fn order_of_arguments_does_not_matter() {
    let prev = entry_on("2024-01-01", &[], true, &[]);
    let curr = entry_on("2024-01-05", &[], false, &[]);
    let d1 = diff(&prev, &curr);
    let d2 = diff(&curr, &prev);
    assert_eq!(d1.prev_date, d2.prev_date);
    assert_eq!(d1.curr_date, d2.curr_date);
    assert_eq!(d1.regime_changed, d2.regime_changed);
}

#[test]
fn diff_latest_needs_at_least_two_real_entries_on_disk() {
    let mut log = Vec::new();
    assert!(diff_latest(&log).is_none());
    let scores = vec![score("A", 80.0, true)];
    let picks = picked(&scores);
    append(&mut log, input("2024-03-01", "2024-02-29", scores, picks)).unwrap();
    assert!(diff_latest(&log).is_none(), "still only one entry");
    append(&mut log, input("2024-03-04", "2024-03-01", vec![score("A", 20.0, true)], Vec::new())).unwrap();
    let x = diff_latest(&log).unwrap();
    assert_eq!(x.prev_date, d("2024-03-01"));
    assert_eq!(x.curr_date, d("2024-03-04"));
    assert_eq!(x.picks_removed, vec!["A"]);
}

// ── Scores for the journal ───────────────────────────────────────────────────

#[test]
fn find_model_composite_matches_within_a_week_and_prefers_the_latest() {
    let mut log = Vec::new();
    append(&mut log, input("2024-01-01", "2023-12-29", vec![score("AAPL", 70.0, true)], Vec::new())).unwrap();
    append(&mut log, input("2024-01-05", "2024-01-04", vec![score("AAPL", 80.0, true)], Vec::new())).unwrap();
    let found = find_model_composite(&log, "aapl", d("2024-01-06")).unwrap();
    assert!((f(found) - 80.0).abs() < 1e-6, "{}", f(found));
    assert!(find_model_composite(&log, "AAPL", d("2024-01-20")).is_none());
    assert!(find_model_composite(&log, "ZZZZ", d("2024-01-06")).is_none());
}

#[test]
fn an_entry_waits_until_every_pick_has_prices() {
    let bars = [("2024-03-04", 90.0, 90.0), ("2024-03-05", 100.0, 95.0), ("2024-03-06", 110.0, 120.0)];
    let one = store(&[("AAA", &bars)]);
    let e = entry_with(&["AAA", "BBB"], "2024-03-04");
    assert!(evaluate_entry(&e, &one, None, 2).is_none(), "BBB has no history");
    let x = status_entry(&e, &one, None, 2);
    assert_eq!(x.picks.len(), 1);
    assert!(!x.matured, "it stays among the open calls until it can be evaluated");
    let both = store(&[("AAA", &bars), ("BBB", &bars)]);
    assert_eq!(evaluate_entry(&e, &both, None, 2).unwrap().basket.len(), 2);
    assert!(status_entry(&e, &both, None, 2).matured);
    let (done, pending) = evaluate_log(&vec![e], &one, None, 2);
    assert_eq!((done.len(), pending), (0, 1));
}

#[test]
fn a_universe_digest_is_lower_case_hexadecimal() {
    let h = universe_hash(&vec!["BBB".into(), "AAA".into()]);
    assert_eq!(h.len(), 64);
    assert!(h.chars().all(|c| c.is_ascii_digit() || ('a'..='f').contains(&c)));
    let empty = universe_hash(&vec![]);
    assert_eq!(empty, "e3b0c44298fc1c149afbf4c8996fb92427ae41e4649b934ca495991b7852b855");
}

#[test]
fn removing_several_entries_is_detected() {
    let mut log = Vec::new();
    for date in ["2024-03-01", "2024-03-04", "2024-03-05", "2024-03-06", "2024-03-07"] {
        rec(&mut log, date, &[score("AAA", 75.0, true)]).unwrap();
    }
    log.remove(3);
    log.remove(1);
    assert!(verify(&log).first_error.unwrap().starts_with("2024-03-05"));
    log.remove(0);
    assert!(verify(&log).first_error.unwrap().starts_with("2024-03-05"));
}
