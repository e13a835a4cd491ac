use quant_edge::calendar::Date;
use quant_edge::journal::{summarize, Journal, JournalEntry, JournalError, NewDecision};
use quant_edge::number::Number;

fn n(x: f64) -> Number {
    Number::from_bits(x.to_bits())
}

fn f(x: Number) -> f64 {
    f64::from_bits(x.to_bits())
}

fn d(s: &str) -> Date {
    Date::from_text(s).unwrap()
}

fn pct(ends: (Number, Number)) -> f64 {
    (f(ends.1) / f(ends.0) - 1.0) * 100.0
}

fn mean(v: &[(Number, Number)]) -> f64 {
    if v.is_empty() {
        0.0
    } else {
        v.iter().map(|e| pct(*e)).sum::<f64>() / v.len() as f64
    }
}

fn entry(status: &str, entry_price: f64, exit_price: Option<f64>, model: Option<f64>) -> JournalEntry {
    JournalEntry {
        id: 1,
        ticker: "X".to_string(),
        entry_date: d("2024-01-01"),
        thesis: "test".to_string(),
        expected_holding_days: 20,
        entry_price: n(entry_price),
        model_composite_at_entry: model.map(n),
        status: status.to_string(),
        exit_date: exit_price.map(|_| d("2024-01-25")),
        exit_price: exit_price.map(n),
        outcome_notes: None,
    }
}

fn decision(ticker: &str, thesis: &str, days: u32, price: f64) -> NewDecision {
    NewDecision {
        ticker: ticker.to_string(),
        entry_date: d("2024-01-01"),
        thesis: thesis.to_string(),
        expected_holding_days: days,
        entry_price: n(price),
        model_composite_at_entry: None,
    }
}

#[test]
fn is_due_only_once_the_holding_period_has_elapsed_and_still_open() {
    let e = entry("open", 100.0, None, None);
    assert!(!e.is_due(d("2024-01-10")));
    assert!(e.is_due(d("2024-01-21")));
    let closed = entry("closed", 100.0, Some(110.0), None);
    assert!(!closed.is_due(d("2024-02-01")), "a closed entry is never due");
}

#[test]
fn days_held_never_goes_negative() {
    let e = entry("open", 100.0, None, None);
    assert_eq!(e.days_held(d("2023-12-25")), 0);
    assert_eq!(e.days_held(d("2024-01-11")), 10);
}

#[test]
fn return_pct_is_none_while_open_and_correct_once_closed() {
    assert!(entry("open", 100.0, None, None).return_ends().is_none());
    let e = entry("closed", 100.0, Some(120.0), None);
    assert!((pct(e.return_ends().unwrap()) - 20.0).abs() < 1e-9);
    let loser = entry("closed", 100.0, Some(80.0), None);
    assert!((pct(loser.return_ends().unwrap()) + 20.0).abs() < 1e-9);
}

#[test]
fn agreement_uses_the_60_threshold_and_is_none_without_a_model_score() {
    assert_eq!(entry("open", 100.0, None, Some(75.0)).agreed_with_model(), Some(true));
    assert_eq!(entry("open", 100.0, None, Some(45.0)).agreed_with_model(), Some(false));
    assert_eq!(entry("open", 100.0, None, Some(60.0)).agreed_with_model(), Some(true));
    assert_eq!(entry("open", 100.0, None, None).agreed_with_model(), None);
}

#[test]
fn summarize_splits_by_agreement_and_ignores_open_entries() {
    let entries = vec![
        entry("closed", 100.0, Some(110.0), Some(80.0)),
        entry("closed", 100.0, Some(90.0), Some(80.0)),
        entry("closed", 100.0, Some(130.0), Some(20.0)),
        entry("open", 100.0, None, Some(80.0)),
    ];
    let s = summarize(&entries);
    assert_eq!(s.n_closed, 3);
    assert!((mean(&s.closed) - 10.0).abs() < 1e-6, "{}", mean(&s.closed));
    let hits = s.closed.iter().filter(|e| pct(**e) > 0.0).count();
    assert!((hits as f64 / 3.0 * 100.0 - 66.666).abs() < 0.01);
    assert_eq!(s.agreed.len(), 2);
    assert_eq!(s.disagreed.len(), 1);
    assert!((mean(&s.agreed) - 0.0).abs() < 1e-6);
    assert!((mean(&s.disagreed) - 30.0).abs() < 1e-6);
}

#[test]
fn summarize_of_no_closed_entries_is_the_zero_default() {
    let s = summarize(&vec![entry("open", 100.0, None, None)]);
    assert_eq!(s.n_closed, 0);
    assert_eq!(mean(&s.closed), 0.0);
}

#[test]
fn add_rejects_an_empty_thesis_or_nonsense_prices() {
    let mut j = Journal::new();
    let t = "solid quarter ahead";
    assert_eq!(j.add(&decision("AAPL", "", 20, 150.0)), Err(JournalError::EmptyThesis));
    assert_eq!(j.add(&decision("AAPL", t, 20, 0.0)), Err(JournalError::EntryPriceNotPositive));
    assert_eq!(j.add(&decision("AAPL", t, 0, 150.0)), Err(JournalError::HoldingNotPositive));
    assert_eq!(j.add(&decision(" ", t, 20, 150.0)), Err(JournalError::EmptyTicker));
    assert!(j.add(&decision("AAPL", t, 20, 150.0)).is_ok());
}

#[test]
fn full_lifecycle_add_list_close_list() {
    let mut j = Journal::new();
    let mut x = decision("AAPL", "iPhone cycle reacceleration", 20, 150.0);
    x.model_composite_at_entry = Some(n(72.0));
    let id = j.add(&x).unwrap();
    let open = j.list(Some("open"));
    assert_eq!(open.len(), 1);
    assert_eq!(j.entries[open[0]].id, id);
    assert!(j.entries[open[0]].is_open());
    j.close(id, d("2024-01-25"), n(165.0), Some("thesis played out".to_string())).unwrap();
    assert!(j.list(Some("open")).is_empty());
    let closed = j.list(Some("closed"));
    assert_eq!(closed.len(), 1);
    assert!((pct(j.entries[closed[0]].return_ends().unwrap()) - 10.0).abs() < 1e-6);
    assert_eq!(j.entries[closed[0]].outcome_notes.as_deref(), Some("thesis played out"));
    assert_eq!(j.list(None).len(), 1);
}

#[test]
fn closing_an_already_closed_or_missing_id_fails_cleanly() {
    let mut j = Journal::new();
    let id = j.add(&decision("X", "t", 5, 10.0)).unwrap();
    assert_eq!(
        j.close(id, d("2024-01-10"), n(0.0), None),
        Err(JournalError::ExitPriceNotPositive)
    );
    j.close(id, d("2024-01-10"), n(12.0), None).unwrap();
    assert_eq!(
        j.close(id, d("2024-01-11"), n(13.0), None),
        Err(JournalError::NotOpen(id)),
        "double close must fail"
    );
    assert!(j.close(id + 999, d("2024-01-11"), n(13.0), None).is_err());
    assert!(!JournalError::NotOpen(id).message().is_empty());
}

#[test]
fn an_open_decision_has_no_return_even_with_an_exit_price() {
    assert!(entry("open", 100.0, Some(120.0), None).return_ends().is_none());
    assert!(entry("closed", 100.0, Some(120.0), None).return_ends().is_some());
}
