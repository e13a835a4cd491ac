use quant_edge::calendar::{days_in_month, subtract_months, subtract_years, Date};
use quant_edge::number::Number;
use quant_edge::order::{
    descending_order, insert_sorted, is_text_le, is_text_lt, join, sorted_distinct, stable_order,
};
use quant_edge::sheet::{colour_for, colour_of_sign, put, put_three, put_two};
use quant_edge::signals::{select_picks, top_picks, SignalScore};
use quant_edge::text::{
    contains, decimal_text, ends_with, lines, pad_left, pad_right, parse_u32, repeat_char,
    signed_text, split, strip_ansi, trim, words,
};

fn n(x: f64) -> Number {
    Number::from_bits(x.to_bits())
}

fn d(s: &str) -> Date {
    Date::from_text(s).unwrap()
}

fn texts(v: &[&str]) -> Vec<String> {
    v.iter().map(|s| s.to_string()).collect()
}

// ── Dates ────────────────────────────────────────────────────────────────────

#[test]
fn a_date_and_its_parts_agree() {
    assert_eq!(Date::from_ymd_opt(2024, 2, 29).unwrap().ymd(), (2024, 2, 29));
    assert!(Date::from_ymd_opt(2023, 2, 29).is_none());
    assert!(Date::from_ymd_opt(2023, 13, 1).is_none());
    assert_eq!(d("2024-02-29").text(), "2024-02-29");
    assert_eq!(Date::parse("20240229", "%Y%m%d"), Some(d("2024-02-29")));
    assert_eq!(Date::parse("2024-02-30", "%Y-%m-%d"), None);
    assert!(Date::from_text("yesterday").is_none());
}

#[test]
fn days_are_counted_across_month_ends() {
    assert_eq!(d("2024-03-01").days_since(d("2024-02-28")), 2);
    assert_eq!(d("2024-02-28").plus_days(2), d("2024-03-01"));
    assert_eq!(d("2024-01-31").checked_add_months(1), Some(d("2024-02-29")));
    assert!(d("2024-06-01").is_weekend());
    assert!(d("2024-06-02").is_weekend());
    assert!(!d("2024-06-03").is_weekend());
}

#[test]
fn timestamps_give_their_day() {
    assert_eq!(Date::from_timestamp(0), Some(d("1970-01-01")));
    assert_eq!(Date::from_timestamp(-1), Some(d("1969-12-31")));
    assert_eq!(Date::from_timestamp(86_400), Some(d("1970-01-02")));
    assert_eq!(Date::from_timestamp(i64::MAX), None);
    assert_eq!(d("1970-01-02").to_epoch(), 86_400);
}

#[test]
fn months_have_their_lengths() {
    assert_eq!(days_in_month(2024, 2), 29);
    assert_eq!(days_in_month(2100, 2), 28);
    assert_eq!(days_in_month(2000, 2), 29);
    assert_eq!(days_in_month(2023, 4), 30);
    assert_eq!(days_in_month(2023, 12), 31);
}

#[test]
fn going_back_keeps_the_day_where_the_month_has_it() {
    assert_eq!(subtract_months(d("2024-03-31"), 1), d("2024-02-29"));
    assert_eq!(subtract_months(d("2024-01-15"), 1), d("2023-12-15"));
    assert_eq!(subtract_months(d("2024-05-15"), 12), d("2023-05-15"));
    assert_eq!(subtract_years(d("2024-02-29"), 1), d("2024-02-29"));
    assert_eq!(subtract_years(d("2024-02-29"), 4), d("2020-02-29"));
    assert_eq!(subtract_years(d("2024-05-15"), 3), d("2021-05-15"));
}

// ── Numbers ──────────────────────────────────────────────────────────────────

#[test]
fn numbers_compare_as_they_do_in_hardware() {
    let v = [f64::NEG_INFINITY, -2.5, -1e-300, -0.0, 0.0, 1e-300, 1.0, 2.5, f64::INFINITY, f64::NAN];
    for a in v {
        assert_eq!(n(a).is_nan(), a.is_nan());
        assert_eq!(n(a).is_finite(), a.is_finite());
        assert_eq!(n(a).is_positive(), a > 0.0 && a.is_finite());
        assert_eq!(n(a).abs().to_bits(), a.abs().to_bits());
        for b in v {
            assert_eq!(n(a).is_lt(n(b)), a < b, "{a} < {b}");
            assert_eq!(n(a).is_le(n(b)), a <= b, "{a} <= {b}");
        }
    }
    assert_eq!(n(2.0).min(n(1.0)), n(1.0));
    assert_eq!(Number::zero(), n(0.0));
}

// ── Texts ────────────────────────────────────────────────────────────────────

#[test]
fn texts_are_cut_and_searched() {
    assert_eq!(trim(" \t a b\u{3000}\n"), "a b");
    assert_eq!(words("  a  b\tc "), texts(&["a", "b", "c"]));
    assert_eq!(split("a,,b,", ','), texts(&["a", "", "b", ""]));
    assert_eq!(lines("a\r\nb\n\nc"), texts(&["a", "b", "", "c"]));
    assert_eq!(lines("a\n"), texts(&["a"]));
    assert!(contains("abcabd", "abd") && !contains("abc", "abd") && contains("x", ""));
    assert!(ends_with("RELIANCE.NS", ".NS") && !ends_with("NS", ".NS"));
    assert_eq!(strip_ansi("\x1b[1m\x1b[97mhi\x1b[0m there"), "hi there");
}

#[test]
fn numbers_are_read_and_written_as_texts() {
    assert_eq!(decimal_text(0), "0");
    assert_eq!(decimal_text(u64::MAX), u64::MAX.to_string());
    assert_eq!(signed_text(-12), "-12");
    assert_eq!(signed_text(i64::MIN), i64::MIN.to_string());
    for s in ["0", "+7", "4294967295", "4294967296", "", "+", "-1", "1x", "007"] {
        assert_eq!(parse_u32(s), s.parse::<u32>().ok(), "{s:?}");
    }
}

#[test]
fn texts_are_padded_by_characters() {
    assert_eq!(pad_left("é", 3), format!("{:>3}", "é"));
    assert_eq!(pad_right("é", 3), format!("{:<3}", "é"));
    assert_eq!(pad_left("long", 2), "long");
    assert_eq!(repeat_char('─', 3), "───");
}

#[test]
fn texts_are_ordered_by_their_bytes() {
    let v = ["", "A", "AA", "B", "a", "é", "€", "\u{10000}"];
    for a in v {
        for b in v {
            assert_eq!(is_text_le(a, b), a <= b, "{a} {b}");
            assert_eq!(is_text_lt(a, b), a < b, "{a} {b}");
        }
    }
    assert_eq!(sorted_distinct(&texts(&["b", "a", "b"])), texts(&["a", "b"]));
    let mut s = texts(&["a", "c"]);
    insert_sorted(&mut s, "b");
    insert_sorted(&mut s, "b");
    assert_eq!(s, texts(&["a", "b", "c"]));
    assert_eq!(join(&s, "\n"), "a\nb\nc");
    assert_eq!(join(&Vec::new(), ","), "");
}

#[test]
fn sorting_keeps_the_order_of_equals() {
    assert_eq!(stable_order(&vec![3, 1, 3, 2]), vec![1, 3, 0, 2]);
    assert_eq!(descending_order(&vec![n(1.0), n(3.0), n(1.0), n(2.0)]), vec![1, 3, 0, 2]);
}

#[test]
fn lines_are_put_together_from_parts() {
    let mut v = Vec::new();
    put(&mut v, "a");
    put_two(&mut v, "b", "c");
    put_three(&mut v, "d", "e", "f");
    assert_eq!(v, texts(&["a", "bc", "def"]));
    assert_eq!(colour_for(n(0.5)), "\x1b[32m");
    assert_eq!(colour_for(n(0.0)), "\x1b[97m");
    assert_eq!(colour_for(n(-0.1)), "\x1b[31m");
    assert_eq!(colour_of_sign(n(-0.1)), "\x1b[31m");
}

// ── Scores ───────────────────────────────────────────────────────────────────

#[test]
fn the_first_picks_that_reach_the_score_are_taken() {
    let s: Vec<SignalScore> = [80.0, 40.0, 60.0, 70.0]
        .iter()
        .enumerate()
        .map(|(i, c)| SignalScore {
            ticker: format!("T{i}"),
            industry: "I".to_string(),
            rank: i + 1,
            composite: n(*c),
            macro_on: true,
        })
        .collect();
    let mut off = s.clone();
    off[1].macro_on = false;
    assert!(select_picks(&off, 2, Some(n(60.0)), true).is_empty());
    assert_eq!(select_picks(&off, 2, Some(n(60.0)), false).len(), 2);
    assert_eq!(select_picks(&s, 2, Some(n(60.0)), true).len(), 2);
    let got: Vec<String> = top_picks(&s, Some(n(60.0)), 2).into_iter().map(|p| p.ticker).collect();
    assert_eq!(got, texts(&["T0", "T2"]));
    assert_eq!(top_picks(&s, None, 3).len(), 3);
}
