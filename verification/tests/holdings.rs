use quant_edge::calendar::Date;
use quant_edge::holdings::{
    first_unpriced, parse_trades_csv, read_trades_csv, reconcile, trade_order, Amounts, Holding,
    Holdings, Side, Trade, TradeError,
};
use quant_edge::number::Number;

fn n(x: f64) -> Number {
    Number::from_bits(x.to_bits())
}

fn f(x: Number) -> f64 {
    f64::from_bits(x.to_bits())
}

fn d(s: &str) -> Date {
    Date::from_text(s).unwrap()
}

fn number(s: &str) -> Option<Number> {
    s.parse::<f64>().ok().map(n)
}

fn parse(csv: &str) -> Result<Vec<Trade>, TradeError> {
    let table = read_trades_csv(csv)?;
    let amounts: Vec<Amounts> = table
        .rows
        .iter()
        .map(|r| Amounts {
            quantity: number(&r.quantity),
            price: r.price.as_deref().and_then(number),
            fees: r.fees.as_deref().and_then(number),
        })
        .collect();
    parse_trades_csv(table, &amounts)
}

fn trade(date: &str, side: Side, quantity: f64, price: f64, fees: f64) -> Trade {
    Trade {
        date: d(date),
        ticker: "X".to_string(),
        side,
        quantity: n(quantity),
        price: n(price),
        fees: n(fees),
    }
}

/// Positions by average cost.
fn compute_holdings(trades: &Vec<Trade>) -> Holdings {
    let mut all = Holdings::new();
    for i in trade_order(trades) {
        let t = &trades[i];
        let h = all.get(&t.ticker);
        let (q, c) = (f(h.quantity), f(h.avg_cost));
        let next = match t.side {
            Side::Buy => {
                let total = q + f(t.quantity);
                let cost = (q * c + f(t.quantity) * f(t.price) + f(t.fees)) / total;
                h.after_buy(n(total), n(cost))
            }
            Side::Sell => {
                let sold = f(h.sell_quantity(t.quantity));
                let pnl = f(h.realized_pnl) + sold * (f(t.price) - c) - f(t.fees);
                h.after_sell(n(q - sold), n(pnl))
            }
        };
        all.set(&t.ticker, next);
    }
    all
}

#[test]
fn parses_the_documented_schema() {
    let csv = "date,ticker,side,quantity,price,fees\n\
               2024-01-15,AAPL,BUY,10,185.50,1.00\n\
               2024-06-01,aapl,sell,4,210.00,1.00\n";
    let trades = parse(csv).unwrap();
    assert_eq!(trades.len(), 2);
    assert_eq!(trades[0].ticker, "AAPL");
    assert_eq!(trades[1].side, Side::Sell);
    assert_eq!(trades[1].ticker, "AAPL", "lowercase ticker/side normalised to upper");
}

#[test]
fn fees_default_to_zero_when_the_column_is_absent_or_blank() {
    let trades = parse("date,ticker,side,quantity,price\n2024-01-15,AAPL,BUY,10,185.50\n").unwrap();
    assert_eq!(f(trades[0].fees), 0.0);
    let trades =
        parse("date,ticker,side,quantity,price,fees\n2024-01-15,AAPL,BUY,10,185.50,\n").unwrap();
    assert_eq!(f(trades[0].fees), 0.0);
}

#[test]
fn column_order_does_not_matter() {
    let trades = parse("ticker,price,date,side,quantity\nMSFT,400.0,2024-02-01,BUY,5\n").unwrap();
    assert_eq!(trades[0].ticker, "MSFT");
    assert_eq!(f(trades[0].price), 400.0);
}

#[test]
fn rejects_missing_columns_bad_values_and_unknown_side() {
    assert!(parse("date,ticker,side,quantity\n2024-01-01,X,BUY,1\n").is_err(), "missing price column");
    assert!(parse("date,ticker,side,quantity,price\nnotadate,X,BUY,1,10\n").is_err());
    assert!(parse("date,ticker,side,quantity,price\n2024-01-01,X,HOLD,1,10\n").is_err());
    assert!(parse("date,ticker,side,quantity,price\n2024-01-01,X,BUY,-1,10\n").is_err(), "negative quantity");
    assert!(parse("").is_err());
}

#[test]
fn every_fault_of_a_trade_file_has_its_error() {
    let head = "date,ticker,side,quantity,price,fees\n";
    let err = |row: &str| parse(&format!("{head}{row}\n")).unwrap_err();
    assert!(matches!(parse("").unwrap_err(), TradeError::Empty));
    assert!(matches!(
        parse("date,ticker,side,quantity\n").unwrap_err(),
        TradeError::MissingColumn(c) if c == "price"
    ));
    assert!(matches!(err("2024-01-01"), TradeError::ShortRow(_)));
    assert!(matches!(err("x,X,BUY,1,10,0"), TradeError::BadDate(_)));
    assert!(matches!(err("2024-01-01,X,HOLD,1,10,0"), TradeError::BadSide(_, _)));
    assert!(matches!(err("2024-01-01,X,BUY,q,10,0"), TradeError::BadQuantity(_)));
    assert!(matches!(err("2024-01-01,X,BUY,1,p,0"), TradeError::BadPrice(_)));
    assert!(matches!(err("2024-01-01,X,BUY,0,10,0"), TradeError::QuantityNotPositive(_)));
    assert!(matches!(err("2024-01-01,X,BUY,1,0,0"), TradeError::PriceNotPositive(_)));
    assert!(matches!(err("2024-01-01,X,BUY,1,10,z"), TradeError::BadFees(_)));
    assert!(!err("2024-01-01,X,BUY,1,10,z").message().is_empty());
}

#[test]
fn holdings_track_weighted_average_cost_across_multiple_buys() {
    let h = compute_holdings(&vec![
        trade("2024-01-01", Side::Buy, 10.0, 100.0, 0.0),
        trade("2024-02-01", Side::Buy, 10.0, 200.0, 0.0),
    ])
    .get("X");
    assert_eq!(f(h.quantity), 20.0);
    assert!((f(h.avg_cost) - 150.0).abs() < 1e-9);
}

#[test]
fn a_sell_realises_pnl_against_average_cost_without_changing_it() {
    let h = compute_holdings(&vec![
        trade("2024-01-01", Side::Buy, 10.0, 100.0, 0.0),
        trade("2024-06-01", Side::Sell, 4.0, 150.0, 2.0),
    ])
    .get("X");
    assert_eq!(f(h.quantity), 6.0);
    assert!((f(h.avg_cost) - 100.0).abs() < 1e-9, "remaining shares keep the original cost basis");
    assert!((f(h.realized_pnl) - (4.0 * 50.0 - 2.0)).abs() < 1e-9);
}

#[test]
fn fully_exited_positions_are_dropped_but_remembered_if_they_had_pnl() {
    let all = compute_holdings(&vec![
        trade("2024-01-01", Side::Buy, 10.0, 100.0, 0.0),
        trade("2024-06-01", Side::Sell, 10.0, 150.0, 0.0),
    ]);
    let h = all.get("X");
    assert_eq!(f(h.quantity), 0.0);
    assert!((f(h.realized_pnl) - 500.0).abs() < 1e-9, "closed position's P&L is still reported");
    assert_eq!(all.reported_tickers(), vec!["X".to_string()]);
}

#[test]
fn a_sale_of_more_than_is_held_sells_what_is_held() {
    let h = Holding { quantity: n(3.0), avg_cost: n(1.0), realized_pnl: n(0.0) };
    assert_eq!(f(h.sell_quantity(n(5.0))), 3.0);
    assert_eq!(f(h.sell_quantity(n(2.0))), 2.0);
}

#[test]
fn reconciliation_sorts_tickers_into_three_buckets() {
    let mut held = Holdings::new();
    held.set("AAPL", Holding { quantity: n(10.0), ..Default::default() });
    held.set("TSLA", Holding { quantity: n(5.0), ..Default::default() });
    let model = vec!["AAPL".to_string(), "MSFT".to_string()];
    let r = reconcile(&held, &model);
    assert_eq!(r.in_both, vec!["AAPL"]);
    assert_eq!(r.only_held, vec!["TSLA"]);
    assert_eq!(r.only_model, vec!["MSFT"]);
}

#[test]
fn a_name_that_was_sold_off_is_not_held() {
    let mut held = Holdings::new();
    held.set("AAPL", Holding { quantity: n(10.0), ..Default::default() });
    held.set("X", Holding { realized_pnl: n(500.0), ..Default::default() });
    assert_eq!(held.reported_tickers(), vec!["AAPL", "X"]);
    assert_eq!(held.held_tickers(), vec!["AAPL"]);
    let r = reconcile(&held, &vec!["AAPL".to_string(), "X".to_string()]);
    assert_eq!(r.in_both, vec!["AAPL"]);
    assert!(r.only_held.is_empty());
    assert_eq!(r.only_model, vec!["X"]);
}

#[test]
fn every_ticker_that_is_still_held_needs_a_price() {
    let all = compute_holdings(&vec![trade("2023-01-01", Side::Buy, 10.0, 100.0, 0.0)]);
    assert!(first_unpriced(&all, &Vec::new()).is_some());
    assert!(first_unpriced(&all, &vec!["X".to_string()]).is_none());
}

#[test]
fn a_fully_closed_book_needs_no_prices() {
    let all = compute_holdings(&vec![
        trade("2023-01-01", Side::Buy, 10.0, 100.0, 0.0),
        trade("2024-01-01", Side::Sell, 10.0, 120.0, 0.0),
    ]);
    assert!(first_unpriced(&all, &Vec::new()).is_none());
}
