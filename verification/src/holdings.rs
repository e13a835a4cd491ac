//! Real trades: their import, the holdings they add up to, and how those
//! compare with the model's picks.
//!
//! Trades are imported from a small table with the columns `date`, `ticker`,
//! `side`, `quantity`, `price` and, optionally, `fees`, in any order.

use vstd::prelude::*;
use vstd::string::*;

use crate::calendar;
use crate::calendar::Date;
use crate::number::Number;
use crate::order;
use crate::text;

verus! {

/// Encoding of 0.000000001, the quantity up to which nothing is held.
pub const DUST: u64 = 0x3E11_2E0B_E826_D695;

/// Buying or selling.
#[derive(Clone, Copy, Debug, PartialEq, Eq, Structural)]
pub enum Side {
    Buy,
    Sell,
}

/// A trade.
#[derive(Debug)]
pub struct Trade {
    pub date: Date,
    pub ticker: String,
    pub side: Side,
    pub quantity: Number,
    pub price: Number,
    pub fees: Number,
}

// ── Import ───────────────────────────────────────────────────────────────────

/// Why a table of trades is refused. Rows are numbered as lines that are not blank, the header
/// being the first.
#[derive(Debug)]
pub enum TradeError {
    Empty,
    MissingColumn(String),
    ShortRow(usize),
    BadDate(usize),
    BadSide(usize, String),
    BadQuantity(usize),
    BadPrice(usize),
    QuantityNotPositive(usize),
    PriceNotPositive(usize),
    BadFees(usize),
}

/// What an error says.
pub enum ErrorView {
    Empty,
    MissingColumn(Seq<char>),
    ShortRow(int),
    BadDate(int),
    BadSide(int, Seq<char>),
    BadQuantity(int),
    BadPrice(int),
    QuantityNotPositive(int),
    PriceNotPositive(int),
    BadFees(int),
}

impl View for TradeError {
    type V = ErrorView;

    open spec fn view(&self) -> ErrorView {
        match self {
            TradeError::Empty => ErrorView::Empty,
            TradeError::MissingColumn(s) => ErrorView::MissingColumn(s@),
            TradeError::ShortRow(n) => ErrorView::ShortRow(*n as int),
            TradeError::BadDate(n) => ErrorView::BadDate(*n as int),
            TradeError::BadSide(n, s) => ErrorView::BadSide(*n as int, s@),
            TradeError::BadQuantity(n) => ErrorView::BadQuantity(*n as int),
            TradeError::BadPrice(n) => ErrorView::BadPrice(*n as int),
            TradeError::QuantityNotPositive(n) => ErrorView::QuantityNotPositive(*n as int),
            TradeError::PriceNotPositive(n) => ErrorView::PriceNotPositive(*n as int),
            TradeError::BadFees(n) => ErrorView::BadFees(*n as int),
        }
    }
}

/// A text that begins with a row's number.
pub open spec fn row_text(n: int, rest: Seq<char>) -> Seq<char> {
    "row "@ + text::decimal(n as nat) + rest
}

/// An error in words.
pub open spec fn error_text(e: ErrorView) -> Seq<char> {
    match e {
        ErrorView::Empty => "empty CSV: no header row"@,
        ErrorView::MissingColumn(s) => "CSV is missing a '"@ + s + "' column"@,
        ErrorView::ShortRow(n) => row_text(n, " (line "@) + text::decimal(n as nat)
            + ") is missing a column"@,
        ErrorView::BadDate(n) => row_text(n, ": bad date"@),
        ErrorView::BadSide(n, s) => row_text(n, ": side must be BUY or SELL, got '"@) + s + "'"@,
        ErrorView::BadQuantity(n) => row_text(n, ": bad quantity"@),
        ErrorView::BadPrice(n) => row_text(n, ": bad price"@),
        ErrorView::QuantityNotPositive(n) => row_text(n, ": quantity must be positive"@),
        ErrorView::PriceNotPositive(n) => row_text(n, ": price must be positive"@),
        ErrorView::BadFees(n) => row_text(n, ": bad fees"@),
    }
}

/// A text that begins with a row's number.
fn row_message(n: usize, rest: &str) -> (r: String)
    ensures
        r@ == row_text(n as int, rest@),
{
    let mut s: String = "row ".to_owned();
    s.append(text::decimal_text(n as u64).as_str());
    s.append(rest);
    s
}

impl TradeError {
    /// The error in words.
    pub fn message(&self) -> (r: String)
        ensures
            r@ == error_text(self@),
    {
        match self {
            TradeError::Empty => "empty CSV: no header row".to_owned(),
            TradeError::MissingColumn(name) => {
                let mut s: String = "CSV is missing a '".to_owned();
                s.append(name.as_str());
                s.append("' column");
                s
            },
            TradeError::ShortRow(n) => {
                let mut s: String = row_message(*n, " (line ");
                s.append(text::decimal_text(*n as u64).as_str());
                s.append(") is missing a column");
                s
            },
            TradeError::BadDate(n) => row_message(*n, ": bad date"),
            TradeError::BadSide(n, side) => {
                let mut s: String = row_message(*n, ": side must be BUY or SELL, got '");
                s.append(side.as_str());
                s.append("'");
                s
            },
            TradeError::BadQuantity(n) => row_message(*n, ": bad quantity"),
            TradeError::BadPrice(n) => row_message(*n, ": bad price"),
            TradeError::QuantityNotPositive(n) => row_message(*n, ": quantity must be positive"),
            TradeError::PriceNotPositive(n) => row_message(*n, ": price must be positive"),
            TradeError::BadFees(n) => row_message(*n, ": bad fees"),
        }
    }
}

/// The lines that are not blank.
pub open spec fn filled(lines: Seq<Seq<char>>) -> Seq<Seq<char>> {
    lines.filter(|l: Seq<char>| text::trimmed(l).len() > 0)
}

/// The fields of a line, without white space round them.
pub open spec fn fields(line: Seq<char>) -> Seq<Seq<char>> {
    text::split_from(line, ',', 0).map_values(|f: Seq<char>| text::trimmed(f))
}

/// The names of the columns, in lower case.
pub open spec fn columns(header: Seq<char>) -> Seq<Seq<char>> {
    fields(header).map_values(|f: Seq<char>| text::lower_text(f))
}

/// The position of the first column with a name.
pub open spec fn column(cols: Seq<Seq<char>>, name: Seq<char>) -> Option<int>
    decreases cols.len(),
{
    if cols.len() == 0 {
        None
    } else {
        match column(cols.drop_last(), name) {
            Some(i) => Some(i),
            None => if cols.last() == name {
                Some(cols.len() - 1)
            } else {
                None
            },
        }
    }
}

/// Where the columns of a table are.
#[derive(Clone, Copy, Debug, PartialEq, Eq, Structural)]
pub struct Layout {
    pub date: usize,
    pub ticker: usize,
    pub side: usize,
    pub quantity: usize,
    pub price: usize,
    pub fees: Option<usize>,
}

/// Where the columns of a table are, or the first that is missing.
pub open spec fn layout(cols: Seq<Seq<char>>) -> Result<Layout, ErrorView> {
    match (
        column(cols, "date"@),
        column(cols, "ticker"@),
        column(cols, "side"@),
        column(cols, "quantity"@),
        column(cols, "price"@),
    ) {
        (None, _, _, _, _) => Err(ErrorView::MissingColumn("date"@)),
        (_, None, _, _, _) => Err(ErrorView::MissingColumn("ticker"@)),
        (_, _, None, _, _) => Err(ErrorView::MissingColumn("side"@)),
        (_, _, _, None, _) => Err(ErrorView::MissingColumn("quantity"@)),
        (_, _, _, _, None) => Err(ErrorView::MissingColumn("price"@)),
        (Some(d), Some(t), Some(s), Some(q), Some(p)) => Ok(
            Layout {
                date: d as usize,
                ticker: t as usize,
                side: s as usize,
                quantity: q as usize,
                price: p as usize,
                fees: match column(cols, "fees"@) {
                    Some(f) => Some(f as usize),
                    None => None,
                },
            },
        ),
    }
}

/// A row as it was read, its amounts still as text.
#[derive(Debug)]
pub struct RawTrade {
    /// The row's number.
    pub row: usize,
    pub date: Date,
    pub ticker: String,
    pub side: Side,
    pub quantity: String,
    /// Nothing where the row ends before the column.
    pub price: Option<String>,
    /// Nothing where there is no column or it is blank.
    pub fees: Option<String>,
}

/// What a row says.
pub struct RawView {
    pub row: int,
    pub day: int,
    pub ticker: Seq<char>,
    pub side: Side,
    pub quantity: Seq<char>,
    pub price: Option<Seq<char>>,
    pub fees: Option<Seq<char>>,
}

/// A text that may be missing.
pub open spec fn optional(s: Option<String>) -> Option<Seq<char>> {
    match s {
        Some(t) => Some(t@),
        None => None,
    }
}

impl View for RawTrade {
    type V = RawView;

    open spec fn view(&self) -> RawView {
        RawView {
            row: self.row as int,
            day: self.date.days as int,
            ticker: self.ticker@,
            side: self.side,
            quantity: self.quantity@,
            price: optional(self.price),
            fees: optional(self.fees),
        }
    }
}

/// The side that a text names.
pub open spec fn side_of(upper: Seq<char>) -> Option<Side> {
    if upper == "BUY"@ || upper == "B"@ {
        Some(Side::Buy)
    } else if upper == "SELL"@ || upper == "S"@ {
        Some(Side::Sell)
    } else {
        None
    }
}

/// What a row says, or the first fault in it before its amounts are read.
pub open spec fn raw_row(f: Seq<Seq<char>>, l: Layout, n: int) -> Result<RawView, ErrorView> {
    if l.date >= f.len() {
        Err(ErrorView::ShortRow(n))
    } else if calendar::plain_day(f[l.date as int]) is None {
        Err(ErrorView::BadDate(n))
    } else if l.ticker >= f.len() {
        Err(ErrorView::ShortRow(n))
    } else if l.side >= f.len() {
        Err(ErrorView::ShortRow(n))
    } else if side_of(text::upper_text(f[l.side as int])) is None {
        Err(ErrorView::BadSide(n, text::upper_text(f[l.side as int])))
    } else if l.quantity >= f.len() {
        Err(ErrorView::ShortRow(n))
    } else {
        Ok(
            RawView {
                row: n,
                day: calendar::plain_day(f[l.date as int])->0,
                ticker: text::upper_text(f[l.ticker as int]),
                side: side_of(text::upper_text(f[l.side as int]))->0,
                quantity: f[l.quantity as int],
                price: if l.price < f.len() {
                    Some(f[l.price as int])
                } else {
                    None
                },
                fees: match l.fees {
                    Some(i) => if i < f.len() && text::trimmed(f[i as int]).len() > 0 {
                        Some(text::trimmed(f[i as int]))
                    } else {
                        None
                    },
                    None => None,
                },
            },
        )
    }
}

/// The rows before the first fault, and that fault.
pub struct RowsView {
    pub rows: Seq<RawView>,
    pub fault: Option<ErrorView>,
}

/// What the first `n` lines below the header say.
pub open spec fn rows_upto(lines: Seq<Seq<char>>, l: Layout, n: int) -> RowsView
    decreases n,
{
    if n <= 0 {
        RowsView { rows: seq![], fault: None }
    } else {
        let before = rows_upto(lines, l, n - 1);
        if before.fault is Some {
            before
        } else {
            match raw_row(fields(lines[n]), l, n + 1) {
                Ok(r) => RowsView { rows: before.rows.push(r), fault: None },
                Err(e) => RowsView { rows: before.rows, fault: Some(e) },
            }
        }
    }
}

/// What a table says.
pub open spec fn table(s: Seq<char>) -> Result<RowsView, ErrorView> {
    let lines = filled(text::lines_from(s, 0));
    if lines.len() == 0 {
        Err(ErrorView::Empty)
    } else {
        match layout(columns(lines[0])) {
            Ok(l) => Ok(rows_upto(lines, l, lines.len() - 1)),
            Err(e) => Err(e),
        }
    }
}

/// A table as it was read: its rows before the first fault, and that fault.
#[derive(Debug)]
pub struct RawTable {
    pub rows: Vec<RawTrade>,
    pub fault: Option<TradeError>,
}

/// What rows say.
pub open spec fn raw_views(s: Seq<RawTrade>) -> Seq<RawView> {
    s.map_values(|r: RawTrade| r@)
}

/// A fault that may be missing.
pub open spec fn fault_view(e: Option<TradeError>) -> Option<ErrorView> {
    match e {
        Some(x) => Some(x@),
        None => None,
    }
}

/// The lines that are not blank.
fn filled_lines(s: &str) -> (r: Vec<String>)
    ensures
        text::texts(r@) == filled(text::lines_from(s@, 0)),
{
    let lines: Vec<String> = text::lines(s);
    let ghost all = text::texts(lines@);
    let ghost keep = |l: Seq<char>| text::trimmed(l).len() > 0;
    let mut out: Vec<String> = Vec::new();
    let mut i: usize = 0;
    proof {
        reveal(Seq::filter);
        assert(all.take(0) =~= seq![]);
        assert(text::texts(out@) =~= all.take(0).filter(keep));
    }
    while i < lines.len()
        invariant
            i <= lines@.len(),
            all == text::texts(lines@),
            keep == (|l: Seq<char>| text::trimmed(l).len() > 0),
            text::texts(out@) == all.take(i as int).filter(keep),
        decreases lines@.len() - i,
    {
        let ghost before = text::texts(out@);
        proof {
            reveal(Seq::filter);
            assert(all.take(i + 1).drop_last() =~= all.take(i as int));
            assert(all.take(i + 1).last() == lines@[i as int]@);
        }
        let t: String = text::trim(lines[i].as_str());
        if t.as_str().unicode_len() > 0 {
            out.push(lines[i].clone());
            proof {
                assert(text::texts(out@) =~= before.push(lines@[i as int]@));
            }
        }
        i = i + 1;
    }
    proof {
        assert(all.take(lines@.len() as int) =~= all);
    }
    out
}

/// The fields of a line.
fn line_fields(line: &str) -> (r: Vec<String>)
    ensures
        text::texts(r@) == fields(line@),
{
    let parts: Vec<String> = text::split(line, ',');
    let mut out: Vec<String> = Vec::new();
    let mut i: usize = 0;
    while i < parts.len()
        invariant
            i <= parts@.len(),
            out@.len() == i,
            forall|k: int| 0 <= k < i ==> (#[trigger] out@[k])@ == text::trimmed(parts@[k]@),
        decreases parts@.len() - i,
    {
        out.push(text::trim(parts[i].as_str()));
        i = i + 1;
    }
    proof {
        let all = text::texts(parts@);
        assert forall|k: int| 0 <= k < all.len() implies text::texts(out@)[k] == fields(line@)[k] by {
            assert(all[k] == parts@[k]@);
            assert(out@[k]@ == text::trimmed(parts@[k]@));
        }
        assert(text::texts(out@) =~= fields(line@));
    }
    out
}

/// The names of the columns.
fn header_columns(header: &str) -> (r: Vec<String>)
    ensures
        text::texts(r@) == columns(header@),
{
    let parts: Vec<String> = line_fields(header);
    let mut out: Vec<String> = Vec::new();
    let mut i: usize = 0;
    while i < parts.len()
        invariant
            i <= parts@.len(),
            out@.len() == i,
            forall|k: int| 0 <= k < i ==> (#[trigger] out@[k])@ == text::lower_text(parts@[k]@),
        decreases parts@.len() - i,
    {
        out.push(text::to_lower(parts[i].as_str()));
        i = i + 1;
    }
    proof {
        let all = text::texts(parts@);
        assert forall|k: int| 0 <= k < all.len() implies text::texts(out@)[k] == columns(
            header@,
        )[k] by {
            assert(all[k] == parts@[k]@);
            assert(out@[k]@ == text::lower_text(parts@[k]@));
        }
        assert(text::texts(out@) =~= columns(header@));
    }
    out
}

/// `column` gives the first position of a name.
proof fn lemma_column(cols: Seq<Seq<char>>, name: Seq<char>)
    ensures
        match column(cols, name) {
            Some(i) => 0 <= i < cols.len() && cols[i] == name && forall|k: int|
                0 <= k < i ==> (#[trigger] cols[k]) != name,
            None => forall|k: int| 0 <= k < cols.len() ==> (#[trigger] cols[k]) != name,
        },
    decreases cols.len(),
{
    if cols.len() > 0 {
        let init = cols.drop_last();
        lemma_column(init, name);
        assert forall|k: int| 0 <= k < init.len() implies (#[trigger] cols[k]) == init[k] by {}
        if column(init, name) is None {
            assert forall|k: int| 0 <= k < init.len() implies (#[trigger] cols[k]) != name by {
                assert(init[k] == cols[k]);
            }
        }
    }
}

/// The position of the first column with a name.
fn find_column(cols: &Vec<String>, name: &str) -> (r: Option<usize>)
    ensures
        match r {
            Some(i) => column(text::texts(cols@), name@) == Some(i as int),
            None => column(text::texts(cols@), name@) is None,
        },
{
    let r: Option<usize> = text::position_of(cols, name);
    proof {
        lemma_column(text::texts(cols@), name@);
        let all = text::texts(cols@);
        match r {
            Some(i) => {
                assert(all[i as int] == name@);
            },
            None => {},
        }
    }
    r
}

/// Where the columns of a table are.
fn find_layout(cols: &Vec<String>) -> (r: Result<Layout, TradeError>)
    ensures
        match r {
            Ok(l) => layout(text::texts(cols@)) == Ok::<Layout, ErrorView>(l),
            Err(e) => layout(text::texts(cols@)) == Err::<Layout, ErrorView>(e@),
        },
{
    let date: usize = match find_column(cols, "date") {
        Some(i) => i,
        None => {
            return Err(TradeError::MissingColumn("date".to_owned()));
        },
    };
    let ticker: usize = match find_column(cols, "ticker") {
        Some(i) => i,
        None => {
            return Err(TradeError::MissingColumn("ticker".to_owned()));
        },
    };
    let side: usize = match find_column(cols, "side") {
        Some(i) => i,
        None => {
            return Err(TradeError::MissingColumn("side".to_owned()));
        },
    };
    let quantity: usize = match find_column(cols, "quantity") {
        Some(i) => i,
        None => {
            return Err(TradeError::MissingColumn("quantity".to_owned()));
        },
    };
    let price: usize = match find_column(cols, "price") {
        Some(i) => i,
        None => {
            return Err(TradeError::MissingColumn("price".to_owned()));
        },
    };
    Ok(Layout { date, ticker, side, quantity, price, fees: find_column(cols, "fees") })
}

/// The side that a text names.
fn read_side(upper: &str) -> (r: Option<Side>)
    ensures
        r == side_of(upper@),
{
    if text::same_text(upper, "BUY") || text::same_text(upper, "B") {
        Some(Side::Buy)
    } else if text::same_text(upper, "SELL") || text::same_text(upper, "S") {
        Some(Side::Sell)
    } else {
        None
    }
}

/// What a row says, or the first fault in it.
fn read_row(f: &Vec<String>, l: Layout, n: usize) -> (r: Result<RawTrade, TradeError>)
    ensures
        match r {
            Ok(t) => raw_row(text::texts(f@), l, n as int) == Ok::<RawView, ErrorView>(t@),
            Err(e) => raw_row(text::texts(f@), l, n as int) == Err::<RawView, ErrorView>(e@),
        },
{
    if l.date >= f.len() {
        return Err(TradeError::ShortRow(n));
    }
    let date: Date = match Date::from_text(f[l.date].as_str()) {
        Some(d) => d,
        None => {
            return Err(TradeError::BadDate(n));
        },
    };
    if l.ticker >= f.len() || l.side >= f.len() {
        return Err(TradeError::ShortRow(n));
    }
    let upper: String = text::to_upper(f[l.side].as_str());
    let side: Side = match read_side(upper.as_str()) {
        Some(s) => s,
        None => {
            return Err(TradeError::BadSide(n, upper));
        },
    };
    if l.quantity >= f.len() {
        return Err(TradeError::ShortRow(n));
    }
    let price: Option<String> = if l.price < f.len() {
        Some(f[l.price].clone())
    } else {
        None
    };
    let fees: Option<String> = match l.fees {
        Some(i) => if i < f.len() {
            let t: String = text::trim(f[i].as_str());
            if t.as_str().unicode_len() > 0 {
                Some(t)
            } else {
                None
            }
        } else {
            None
        },
        None => None,
    };
    Ok(
        RawTrade {
            row: n,
            date,
            ticker: text::to_upper(f[l.ticker].as_str()),
            side,
            quantity: f[l.quantity].clone(),
            price,
            fees,
        },
    )
}

/// Reads a table of trades, leaving its amounts as text.
pub fn read_trades_csv(s: &str) -> (r: Result<RawTable, TradeError>)
    ensures
        match (r, table(s@)) {
            (Ok(t), Ok(v)) => raw_views(t.rows@) == v.rows && fault_view(t.fault) == v.fault,
            (Err(e), Err(v)) => e@ == v,
            _ => false,
        },
{
    let lines: Vec<String> = filled_lines(s);
    let ghost all = text::texts(lines@);
    if lines.len() == 0 {
        return Err(TradeError::Empty);
    }
    let cols: Vec<String> = header_columns(lines[0].as_str());
    proof {
        assert(all[0] == lines@[0]@);
    }
    let l: Layout = match find_layout(&cols) {
        Ok(l) => l,
        Err(e) => {
            return Err(e);
        },
    };
    let mut rows: Vec<RawTrade> = Vec::new();
    let mut i: usize = 1;
    proof {
        assert(raw_views(rows@) =~= rows_upto(all, l, 0).rows);
    }
    while i < lines.len()
        invariant
            1 <= i <= lines@.len(),
            all == text::texts(lines@),
            raw_views(rows@) == rows_upto(all, l, i - 1).rows,
            rows_upto(all, l, i - 1).fault is None,
            lines@.len() > 0,
            table(s@) == Ok::<RowsView, ErrorView>(rows_upto(all, l, lines@.len() - 1)),
        decreases lines@.len() - i,
    {
        let ghost before = rows@;
        let f: Vec<String> = line_fields(lines[i].as_str());
        proof {
            assert(all[i as int] == lines@[i as int]@);
        }
        match read_row(&f, l, i + 1) {
            Ok(t) => {
                rows.push(t);
                proof {
                    assert(raw_views(rows@) =~= raw_views(before).push(t@));
                }
            },
            Err(e) => {
                proof {
                    lemma_fault_stays(all, l, i as int, lines@.len() - 1);
                }
                return Ok(RawTable { rows, fault: Some(e) });
            },
        }
        i = i + 1;
    }
    Ok(RawTable { rows, fault: None })
}

/// Nothing below the first fault counts.
proof fn lemma_fault_stays(lines: Seq<Seq<char>>, l: Layout, n: int, m: int)
    requires
        0 <= n <= m,
        rows_upto(lines, l, n).fault is Some,
    ensures
        rows_upto(lines, l, m) == rows_upto(lines, l, n),
    decreases m - n,
{
    if n < m {
        lemma_fault_stays(lines, l, n, m - 1);
    }
}

/// What the amounts of a row read as: nothing for a text that is no number.
#[derive(Clone, Copy, Debug, PartialEq, Eq, Structural)]
pub struct Amounts {
    pub quantity: Option<Number>,
    pub price: Option<Number>,
    pub fees: Option<Number>,
}

/// What a trade says.
pub struct TradeView {
    pub day: int,
    pub ticker: Seq<char>,
    pub side: Side,
    pub quantity: Number,
    pub price: Number,
    pub fees: Number,
}

impl View for Trade {
    type V = TradeView;

    open spec fn view(&self) -> TradeView {
        TradeView {
            day: self.date.days as int,
            ticker: self.ticker@,
            side: self.side,
            quantity: self.quantity,
            price: self.price,
            fees: self.fees,
        }
    }
}

/// The trade of a row, or the first fault in its amounts. Fees default to zero.
pub open spec fn priced(r: RawView, a: Amounts) -> Result<TradeView, ErrorView> {
    let zero = Number { bits: 0 };
    if a.quantity is None {
        Err(ErrorView::BadQuantity(r.row))
    } else if r.price is None {
        Err(ErrorView::ShortRow(r.row))
    } else if a.price is None {
        Err(ErrorView::BadPrice(r.row))
    } else if !zero.lt(a.quantity->0) {
        Err(ErrorView::QuantityNotPositive(r.row))
    } else if !zero.lt(a.price->0) {
        Err(ErrorView::PriceNotPositive(r.row))
    } else if r.fees is Some && a.fees is None {
        Err(ErrorView::BadFees(r.row))
    } else {
        Ok(
            TradeView {
                day: r.day,
                ticker: r.ticker,
                side: r.side,
                quantity: a.quantity->0,
                price: a.price->0,
                fees: if r.fees is Some {
                    a.fees->0
                } else {
                    zero
                },
            },
        )
    }
}

/// The trades of the first `n` rows, or the first fault in their amounts.
pub open spec fn priced_upto(rows: Seq<RawView>, a: Seq<Amounts>, n: int) -> Result<
    Seq<TradeView>,
    ErrorView,
>
    decreases n,
{
    if n <= 0 {
        Ok(seq![])
    } else {
        match priced_upto(rows, a, n - 1) {
            Err(e) => Err(e),
            Ok(s) => match priced(rows[n - 1], a[n - 1]) {
                Err(e) => Err(e),
                Ok(t) => Ok(s.push(t)),
            },
        }
    }
}

/// What trades say.
pub open spec fn trade_views(s: Seq<Trade>) -> Seq<TradeView> {
    s.map_values(|t: Trade| t@)
}

/// The trade of a row, or the first fault in its amounts.
fn price_row(r: &RawTrade, a: Amounts) -> (t: Result<Trade, TradeError>)
    ensures
        match t {
            Ok(x) => priced(r@, a) == Ok::<TradeView, ErrorView>(x@),
            Err(e) => priced(r@, a) == Err::<TradeView, ErrorView>(e@),
        },
{
    let quantity: Number = match a.quantity {
        Some(q) => q,
        None => {
            return Err(TradeError::BadQuantity(r.row));
        },
    };
    if r.price.is_none() {
        return Err(TradeError::ShortRow(r.row));
    }
    let price: Number = match a.price {
        Some(p) => p,
        None => {
            return Err(TradeError::BadPrice(r.row));
        },
    };
    if !Number::zero().is_lt(quantity) {
        return Err(TradeError::QuantityNotPositive(r.row));
    }
    if !Number::zero().is_lt(price) {
        return Err(TradeError::PriceNotPositive(r.row));
    }
    let fees: Number = if r.fees.is_some() {
        match a.fees {
            Some(f) => f,
            None => {
                return Err(TradeError::BadFees(r.row));
            },
        }
    } else {
        Number::zero()
    };
    Ok(
        Trade {
            date: r.date,
            ticker: r.ticker.clone(),
            side: r.side,
            quantity,
            price,
            fees,
        },
    )
}

/// The trades of a table, given what the amounts of each row read as. The first fault, from the top
/// of the table down, refuses the whole table.
pub fn parse_trades_csv(t: RawTable, amounts: &Vec<Amounts>) -> (r: Result<Vec<Trade>, TradeError>)
    requires
        amounts@.len() == t.rows@.len(),
    ensures
        match (r, priced_upto(raw_views(t.rows@), amounts@, t.rows@.len() as int)) {
            (Ok(v), Ok(s)) => t.fault is None && trade_views(v@) == s,
            (Err(e), Ok(_)) => t.fault is Some && e@ == t.fault->0@,
            (Err(e), Err(x)) => e@ == x,
            _ => false,
        },
{
    let ghost rows = raw_views(t.rows@);
    let mut out: Vec<Trade> = Vec::new();
    let mut i: usize = 0;
    proof {
        assert(trade_views(out@) =~= seq![]);
    }
    while i < t.rows.len()
        invariant
            i <= t.rows@.len(),
            amounts@.len() == t.rows@.len(),
            rows == raw_views(t.rows@),
            priced_upto(rows, amounts@, i as int) == Ok::<Seq<TradeView>, ErrorView>(
                trade_views(out@),
            ),
        decreases t.rows@.len() - i,
    {
        let ghost before = out@;
        proof {
            assert(rows[i as int] == t.rows@[i as int]@);
        }
        match price_row(&t.rows[i], amounts[i]) {
            Ok(x) => {
                out.push(x);
                proof {
                    assert(trade_views(out@) =~= trade_views(before).push(x@));
                }
            },
            Err(e) => {
                proof {
                    lemma_refusal_stays(rows, amounts@, i + 1, t.rows@.len() as int);
                }
                return Err(e);
            },
        }
        i = i + 1;
    }
    match t.fault {
        Some(e) => Err(e),
        None => Ok(out),
    }
}

/// Nothing below the first fault counts.
proof fn lemma_refusal_stays(rows: Seq<RawView>, a: Seq<Amounts>, n: int, m: int)
    requires
        0 <= n <= m,
        priced_upto(rows, a, n) is Err,
    ensures
        priced_upto(rows, a, m) == priced_upto(rows, a, n),
    decreases m - n,
{
    if n < m {
        lemma_refusal_stays(rows, a, n, m - 1);
    }
}

// ── Holdings ─────────────────────────────────────────────────────────────────

/// What is held of a name.
#[derive(Clone, Copy, Debug, PartialEq, Eq, Structural)]
pub struct Holding {
    pub quantity: Number,
    /// Average cost of what is held now.
    pub avg_cost: Number,
    pub realized_pnl: Number,
}

impl Default for Holding {
    fn default() -> (r: Holding)
        ensures
            r.quantity.bits == 0,
            r.avg_cost.bits == 0,
            r.realized_pnl.bits == 0,
    {
        Holding {
            quantity: Number::zero(),
            avg_cost: Number::zero(),
            realized_pnl: Number::zero(),
        }
    }
}

impl Holding {
    /// After a purchase that makes the quantity `quantity` and, spread over it, the cost
    /// `avg_cost`.
    pub fn after_buy(self, quantity: Number, avg_cost: Number) -> (r: Holding)
        ensures
            r == (Holding {
                quantity,
                avg_cost: if (Number { bits: 0 }).lt(quantity) {
                    avg_cost
                } else {
                    Number { bits: 0 }
                },
                realized_pnl: self.realized_pnl,
            }),
    {
        Holding {
            quantity,
            avg_cost: if Number::zero().is_lt(quantity) {
                avg_cost
            } else {
                Number::zero()
            },
            realized_pnl: self.realized_pnl,
        }
    }

    /// How much of an order to sell can be filled: no more than is held.
    pub fn sell_quantity(self, wanted: Number) -> (r: Number)
        ensures
            r == wanted.smaller(self.quantity),
    {
        wanted.min(self.quantity)
    }

    /// After a sale that leaves `quantity` and brings the realised result to `realized_pnl`. The
    /// average cost of what is left stays; where nothing is left, quantity and cost are zero.
    pub fn after_sell(self, quantity: Number, realized_pnl: Number) -> (r: Holding)
        ensures
            r == (if quantity.le(Number { bits: DUST }) {
                Holding {
                    quantity: Number { bits: 0 },
                    avg_cost: Number { bits: 0 },
                    realized_pnl,
                }
            } else {
                Holding { quantity, avg_cost: self.avg_cost, realized_pnl }
            }),
    {
        if quantity.is_le(Number { bits: DUST }) {
            Holding { quantity: Number::zero(), avg_cost: Number::zero(), realized_pnl }
        } else {
            Holding { quantity, avg_cost: self.avg_cost, realized_pnl }
        }
    }

    /// Whether something is held.
    pub open spec fn held(self) -> bool {
        (Number { bits: DUST }).lt(self.quantity)
    }

    /// Whether something is held.
    pub fn is_held(self) -> (r: bool)
        ensures
            r == self.held(),
    {
        let dust: Number = Number { bits: DUST };
        dust.is_lt(self.quantity)
    }

    /// Whether a holding is worth reporting: something is held, or a result was realised.
    pub open spec fn reported(self) -> bool {
        self.held() || self.realized_pnl.nan() || self.realized_pnl.place() != 0
    }

    /// Whether a holding is worth reporting.
    pub fn is_reported(self) -> (r: bool)
        ensures
            r == self.reported(),
    {
        self.is_held() || self.realized_pnl.is_nan() || self.realized_pnl.key() != 0
    }
}

/// The days of trades.
pub open spec fn trade_days(s: Seq<Trade>) -> Seq<i64> {
    s.map_values(|t: Trade| t.date.days as i64)
}

/// The order in which trades add up to holdings: by date, those of one day as they are listed.
pub fn trade_order(trades: &Vec<Trade>) -> (p: Vec<usize>)
    ensures
        order::is_stable_order(trade_days(trades@), p@),
{
    let mut days: Vec<i64> = Vec::new();
    let mut i: usize = 0;
    while i < trades.len()
        invariant
            i <= trades@.len(),
            days@.len() == i,
            forall|k: int| 0 <= k < i ==> (#[trigger] days@[k]) == trades@[k].date.days,
        decreases trades@.len() - i,
    {
        days.push(trades[i].date.days as i64);
        i = i + 1;
    }
    proof {
        assert(days@ =~= trade_days(trades@));
    }
    order::stable_order(&days)
}

/// The holdings by ticker.
#[derive(Debug)]
pub struct Holdings {
    pub tickers: Vec<String>,
    pub holdings: Vec<Holding>,
}

/// The holding of a ticker.
pub open spec fn holding_of(
    tickers: Seq<Seq<char>>,
    holdings: Seq<Holding>,
    t: Seq<char>,
) -> Option<Holding>
    decreases tickers.len(),
{
    if tickers.len() == 0 {
        None
    } else if tickers.last() == t {
        Some(holdings[tickers.len() - 1])
    } else {
        holding_of(tickers.drop_last(), holdings, t)
    }
}

/// The holding of a ticker is found at its only position.
proof fn lemma_holding_at(tickers: Seq<Seq<char>>, holdings: Seq<Holding>, i: int)
    requires
        0 <= i < tickers.len(),
        forall|a: int, b: int| 0 <= a < b < tickers.len() ==> tickers[a] != tickers[b],
    ensures
        holding_of(tickers, holdings, tickers[i]) == Some(holdings[i]),
    decreases tickers.len(),
{
    if i < tickers.len() - 1 {
        let init = tickers.drop_last();
        assert(tickers[i] != tickers[tickers.len() - 1]);
        assert forall|a: int, b: int| 0 <= a < b < init.len() implies init[a] != init[b] by {
            assert(tickers[a] != tickers[b]);
        }
        lemma_holding_at(init, holdings, i);
    }
}

/// A ticker that is not listed has no holding.
proof fn lemma_no_holding(tickers: Seq<Seq<char>>, holdings: Seq<Holding>, t: Seq<char>)
    requires
        !tickers.contains(t),
    ensures
        holding_of(tickers, holdings, t) is None,
    decreases tickers.len(),
{
    if tickers.len() > 0 {
        assert(tickers[tickers.len() - 1] != t);
        let init = tickers.drop_last();
        assert(!init.contains(t)) by {
            if init.contains(t) {
                let k = choose|k: int| 0 <= k < init.len() && init[k] == t;
                assert(tickers[k] == t);
            }
        }
        lemma_no_holding(init, holdings, t);
    }
}

/// Whether a holding goes on a list of what is held or, where sold ones count too, is worth
/// reporting.
pub open spec fn listed(h: Holding, only_held: bool) -> bool {
    if only_held {
        h.held()
    } else {
        h.reported()
    }
}

impl Holdings {
    /// As many holdings as tickers, and no ticker twice.
    pub open spec fn well_formed(&self) -> bool {
        &&& self.tickers@.len() == self.holdings@.len()
        &&& forall|a: int, b: int|
            0 <= a < b < self.tickers@.len() ==> (#[trigger] self.tickers@[a])@ != (
            #[trigger] self.tickers@[b])@
    }

    /// The holding of a ticker.
    pub open spec fn of(&self, t: Seq<char>) -> Option<Holding> {
        holding_of(text::texts(self.tickers@), self.holdings@, t)
    }

    /// No holdings.
    pub fn new() -> (r: Holdings)
        ensures
            r.well_formed(),
            r.tickers@.len() == 0,
            forall|t: Seq<char>| (#[trigger] r.of(t)) is None,
    {
        Holdings { tickers: Vec::new(), holdings: Vec::new() }
    }

    /// The holding of a ticker, or an empty one.
    pub fn get(&self, ticker: &str) -> (r: Holding)
        requires
            self.well_formed(),
        ensures
            self.of(ticker@) matches Some(h) ==> r == h,
            self.of(ticker@) is None ==> r.quantity.bits == 0 && r.avg_cost.bits == 0
                && r.realized_pnl.bits == 0,
    {
        let ghost all = text::texts(self.tickers@);
        match text::position_of(&self.tickers, ticker) {
            Some(i) => {
                proof {
                    assert(all[i as int] == ticker@);
                    assert forall|a: int, b: int| 0 <= a < b < all.len() implies all[a] != all[b] by {
                        assert(self.tickers@[a]@ != self.tickers@[b]@);
                    }
                    lemma_holding_at(all, self.holdings@, i as int);
                }
                self.holdings[i]
            },
            None => {
                proof {
                    lemma_no_holding(all, self.holdings@, ticker@);
                }
                Holding::default()
            },
        }
    }

    /// Sets the holding of a ticker.
    pub fn set(&mut self, ticker: &str, holding: Holding)
        requires
            old(self).well_formed(),
        ensures
            final(self).well_formed(),
            final(self).of(ticker@) == Some(holding),
            forall|t: Seq<char>| t != ticker@ ==> (#[trigger] final(self).of(t)) == old(self).of(t),
    {
        let ghost all = text::texts(self.tickers@);
        let ghost old_holdings = self.holdings@;
        match text::position_of(&self.tickers, ticker) {
            Some(i) => {
                self.holdings.set(i, holding);
                proof {
                    assert(all[i as int] == ticker@);
                    assert forall|a: int, b: int| 0 <= a < b < all.len() implies all[a] != all[b] by {
                        assert(self.tickers@[a]@ != self.tickers@[b]@);
                    }
                    lemma_holding_at(all, self.holdings@, i as int);
                    assert forall|t: Seq<char>| t != ticker@ implies holding_of(
                        all,
                        self.holdings@,
                        t,
                    ) == holding_of(all, old_holdings, t) by {
                        if all.contains(t) {
                            let k = choose|k: int| 0 <= k < all.len() && all[k] == t;
                            lemma_holding_at(all, self.holdings@, k);
                            lemma_holding_at(all, old_holdings, k);
                        } else {
                            lemma_no_holding(all, self.holdings@, t);
                            lemma_no_holding(all, old_holdings, t);
                        }
                    }
                }
            },
            None => {
                self.tickers.push(ticker.to_owned());
                self.holdings.push(holding);
                proof {
                    let more = text::texts(self.tickers@);
                    assert(more =~= all.push(ticker@));
                    assert(more.drop_last() =~= all);
                    assert forall|a: int, b: int| 0 <= a < b < self.tickers@.len() implies (
                    #[trigger] self.tickers@[a])@ != (#[trigger] self.tickers@[b])@ by {
                        assert(more[a] == self.tickers@[a]@);
                        assert(more[b] == self.tickers@[b]@);
                        if b == all.len() {
                            assert(all[a] == more[a]);
                            assert(all.contains(more[a]));
                        }
                    }
                    assert forall|t: Seq<char>| t != ticker@ implies (#[trigger] self.of(t))
                        == holding_of(all, old_holdings, t) by {
                        lemma_same_prefix(all, self.holdings@, old_holdings, t);
                    }
                }
            },
        }
    }

    /// Whether a ticker is held.
    pub open spec fn holds(&self, ticker: Seq<char>) -> bool {
        self.of(ticker) is Some && self.of(ticker)->0.held()
    }

    /// The tickers whose holding is worth reporting, in increasing order.
    pub fn reported_tickers(&self) -> (r: Vec<String>)
        requires
            self.well_formed(),
        ensures
            order::strictly_sorted(text::texts(r@)),
            forall|t: Seq<char>| #[trigger]
                text::texts(r@).contains(t) <==> (self.of(t) is Some && self.of(t)->0.reported()),
    {
        self.tickers_listed(false)
    }

    /// The tickers that are held, in increasing order. One that was sold off is not among them.
    pub fn held_tickers(&self) -> (r: Vec<String>)
        requires
            self.well_formed(),
        ensures
            order::strictly_sorted(text::texts(r@)),
            forall|t: Seq<char>| #[trigger] text::texts(r@).contains(t) <==> self.holds(t),
    {
        self.tickers_listed(true)
    }

    /// The tickers that are held or, where sold ones count too, worth reporting.
    fn tickers_listed(&self, only_held: bool) -> (r: Vec<String>)
        requires
            self.well_formed(),
        ensures
            order::strictly_sorted(text::texts(r@)),
            forall|t: Seq<char>| #[trigger]
                text::texts(r@).contains(t) <==> (self.of(t) is Some && listed(
                    self.of(t)->0,
                    only_held,
                )),
    {
        let ghost all = text::texts(self.tickers@);
        proof {
            assert forall|a: int, b: int| 0 <= a < b < all.len() implies all[a] != all[b] by {
                assert(self.tickers@[a]@ != self.tickers@[b]@);
            }
        }
        let mut out: Vec<String> = Vec::new();
        let mut i: usize = 0;
        proof {
            assert(text::texts(out@) =~= Seq::<Seq<char>>::empty());
        }
        while i < self.tickers.len()
            invariant
                i <= self.tickers@.len(),
                self.well_formed(),
                all == text::texts(self.tickers@),
                order::strictly_sorted(text::texts(out@)),
                forall|t: Seq<char>| #[trigger]
                    text::texts(out@).contains(t) <==> exists|k: int|
                        0 <= k < i && (#[trigger] all[k]) == t && listed(self.holdings@[k], only_held),
            decreases self.tickers@.len() - i,
        {
            let ghost before = text::texts(out@);
            proof {
                assert(all[i as int] == self.tickers@[i as int]@);
            }
            let h: Holding = self.holdings[i];
            if h.is_held() || (!only_held && h.is_reported()) {
                order::insert_sorted(&mut out, self.tickers[i].as_str());
            }
            proof {
                assert forall|t: Seq<char>| #[trigger]
                    text::texts(out@).contains(t) <==> exists|k: int|
                        0 <= k < i + 1 && (#[trigger] all[k]) == t && listed(self.holdings@[k], only_held) by {
                    assert(before.contains(t) <==> exists|k: int|
                        0 <= k < i && (#[trigger] all[k]) == t && listed(self.holdings@[k], only_held));
                    if t == all[i as int] && listed(self.holdings@[i as int], only_held) {
                        assert(all[i as int] == t);
                    }
                }
            }
            i = i + 1;
        }
        proof {
            assert forall|t: Seq<char>| #[trigger]
                text::texts(out@).contains(t) <==> (self.of(t) is Some && listed(
                    self.of(t)->0,
                    only_held,
                )) by {
                if all.contains(t) {
                    let k = choose|k: int| 0 <= k < all.len() && all[k] == t;
                    lemma_holding_at(all, self.holdings@, k);
                } else {
                    lemma_no_holding(all, self.holdings@, t);
                    if text::texts(out@).contains(t) {
                        let k = choose|k: int|
                            0 <= k < self.tickers@.len() && (#[trigger] all[k]) == t
                                && listed(self.holdings@[k], only_held);
                        assert(all.contains(t));
                    }
                }
            }
        }
        out
    }
}

/// What is found among tickers depends on their holdings alone.
proof fn lemma_same_prefix(
    tickers: Seq<Seq<char>>,
    a: Seq<Holding>,
    b: Seq<Holding>,
    t: Seq<char>,
)
    requires
        tickers.len() <= a.len(),
        tickers.len() <= b.len(),
        forall|i: int| 0 <= i < tickers.len() ==> a[i] == b[i],
    ensures
        holding_of(tickers, a, t) == holding_of(tickers, b, t),
    decreases tickers.len(),
{
    if tickers.len() > 0 {
        lemma_same_prefix(tickers.drop_last(), a, b, t);
    }
}

// ── Reconciliation ───────────────────────────────────────────────────────────

/// How what is held compares with what the model picks; each list in increasing order.
#[derive(Debug)]
pub struct Reconciliation {
    /// Held and picked.
    pub in_both: Vec<String>,
    /// Held and not picked.
    pub only_held: Vec<String>,
    /// Picked and not held.
    pub only_model: Vec<String>,
}

/// The tickers of `a` that are in `b`, or that are not, in increasing order.
fn select(a: &Vec<String>, b: &Vec<String>, in_b: bool) -> (r: Vec<String>)
    ensures
        order::strictly_sorted(text::texts(r@)),
        forall|t: Seq<char>| #[trigger]
            text::texts(r@).contains(t) <==> text::texts(a@).contains(t) && text::texts(
                b@,
            ).contains(t) == in_b,
{
    let ghost all = text::texts(a@);
    let mut out: Vec<String> = Vec::new();
    let mut i: usize = 0;
    proof {
        assert(text::texts(out@) =~= Seq::<Seq<char>>::empty());
    }
    while i < a.len()
        invariant
            i <= a@.len(),
            all == text::texts(a@),
            order::strictly_sorted(text::texts(out@)),
            forall|t: Seq<char>| #[trigger]
                text::texts(out@).contains(t) <==> text::texts(b@).contains(t) == in_b && exists|
                    k: int,
                | 0 <= k < i && (#[trigger] all[k]) == t,
        decreases a@.len() - i,
    {
        let ghost before = text::texts(out@);
        proof {
            assert(all[i as int] == a@[i as int]@);
        }
        if text::contains_text(b, a[i].as_str()) == in_b {
            order::insert_sorted(&mut out, a[i].as_str());
        }
        proof {
            assert forall|t: Seq<char>| #[trigger]
                text::texts(out@).contains(t) <==> text::texts(b@).contains(t) == in_b && exists|
                    k: int,
                | 0 <= k < i + 1 && (#[trigger] all[k]) == t by {
                assert(before.contains(t) <==> text::texts(b@).contains(t) == in_b && exists|k: int|
                    0 <= k < i && (#[trigger] all[k]) == t);
                if t == all[i as int] {
                    assert(all[i as int] == t);
                }
            }
        }
        i = i + 1;
    }
    proof {
        assert forall|t: Seq<char>| #[trigger]
            text::texts(out@).contains(t) <==> all.contains(t) && text::texts(b@).contains(t)
                == in_b by {
            if all.contains(t) {
                let k = choose|k: int| 0 <= k < all.len() && all[k] == t;
                assert(all[k] == t);
            }
        }
    }
    out
}

/// Sorts the tickers held and picked into three lists. A ticker that was sold off is not held.
pub fn reconcile(held: &Holdings, model_picks: &Vec<String>) -> (r: Reconciliation)
    requires
        held.well_formed(),
    ensures
        order::strictly_sorted(text::texts(r.in_both@)),
        order::strictly_sorted(text::texts(r.only_held@)),
        order::strictly_sorted(text::texts(r.only_model@)),
        forall|t: Seq<char>| #[trigger]
            text::texts(r.in_both@).contains(t) <==> held.holds(t) && text::texts(
                model_picks@,
            ).contains(t),
        forall|t: Seq<char>| #[trigger]
            text::texts(r.only_held@).contains(t) <==> held.holds(t) && !text::texts(model_picks@).contains(t),
        forall|t: Seq<char>| #[trigger]
            text::texts(r.only_model@).contains(t) <==> text::texts(model_picks@).contains(t)
                && !held.holds(t),
{
    let names: Vec<String> = held.held_tickers();
    Reconciliation {
        in_both: select(&names, model_picks, true),
        only_held: select(&names, model_picks, false),
        only_model: select(model_picks, &names, false),
    }
}

/// The position of the first ticker that is still held and has no price; nothing where every one
/// has one.
pub fn first_unpriced(h: &Holdings, priced_tickers: &Vec<String>) -> (r: Option<usize>)
    requires
        h.well_formed(),
    ensures
        match r {
            Some(i) => i < h.tickers@.len() && !h.holdings@[i as int].quantity.le(
                Number { bits: 0 },
            ) && !text::texts(priced_tickers@).contains(h.tickers@[i as int]@) && forall|k: int|
                0 <= k < i && !h.holdings@[k].quantity.le(Number { bits: 0 }) ==> text::texts(
                    priced_tickers@,
                ).contains((#[trigger] h.tickers@[k])@),
            None => forall|i: int|
                0 <= i < h.tickers@.len() && !h.holdings@[i].quantity.le(Number { bits: 0 })
                    ==> text::texts(priced_tickers@).contains((#[trigger] h.tickers@[i])@),
        },
{
    let mut i: usize = 0;
    while i < h.tickers.len()
        invariant
            i <= h.tickers@.len(),
            h.well_formed(),
            forall|k: int|
                0 <= k < i && !h.holdings@[k].quantity.le(Number { bits: 0 }) ==> text::texts(
                    priced_tickers@,
                ).contains((#[trigger] h.tickers@[k])@),
        decreases h.tickers@.len() - i,
    {
        if !h.holdings[i].quantity.is_le(Number::zero()) && !text::contains_text(
            priced_tickers,
            h.tickers[i].as_str(),
        ) {
            return Some(i);
        }
        i = i + 1;
    }
    None
}

// ── What a table of trades and the holdings mean ─────────────────────────────

/// Whether a row of a table says what stands under the headings of a line.
pub open spec fn stands_under(
    header: Seq<char>,
    line: Seq<char>,
    heading: Seq<char>,
    cell: Seq<char>,
) -> bool {
    exists|c: int|
        0 <= c < columns(header).len() && (#[trigger] columns(header)[c]) == heading && c < fields(
            line,
        ).len() && fields(line)[c] == cell
}

proof fn lemma_rows(lines: Seq<Seq<char>>, l: Layout, n: int)
    requires
        0 <= n < lines.len(),
    ensures
        rows_upto(lines, l, n).rows.len() <= n,
        forall|k: int|
            0 <= k < rows_upto(lines, l, n).rows.len() ==> raw_row(
                fields(lines[k + 1]),
                l,
                k + 2,
            ) == Ok::<RawView, ErrorView>(#[trigger] rows_upto(lines, l, n).rows[k]),
        rows_upto(lines, l, n).fault is None ==> rows_upto(lines, l, n).rows.len() == n,
    decreases n,
{
    if n > 0 {
        lemma_rows(lines, l, n - 1);
        let before = rows_upto(lines, l, n - 1);
        let now = rows_upto(lines, l, n);
        assert forall|k: int| 0 <= k < now.rows.len() implies raw_row(
            fields(lines[k + 1]),
            l,
            k + 2,
        ) == Ok::<RawView, ErrorView>(#[trigger] now.rows[k]) by {
            if k < before.rows.len() {
                assert(now.rows[k] == before.rows[k]);
            }
        }
    }
}

/// Every row says what stands in its line under the heading of that name, wherever the column is,
/// and carries the number of the line, the heading being the first. The quantity is the text under
/// `quantity`, the price the text under `price` and the ticker, in upper case, that under `ticker`.
pub proof fn rows_follow_their_headings(s: &str, t: RawTable, k: int)
    requires
        call_ensures(read_trades_csv, (s,), Ok::<RawTable, TradeError>(t)),
        0 <= k < t.rows@.len(),
        columns(filled(text::lines_from(s@, 0))[0]).len() <= usize::MAX,
    ensures
        ({
            let lines = filled(text::lines_from(s@, 0));
            let r = t.rows@[k];
            &&& k + 1 < lines.len()
            &&& r.row == k + 2
            &&& stands_under(lines[0], lines[k + 1], "quantity"@, r.quantity@)
            &&& (r.price matches Some(p) ==> stands_under(lines[0], lines[k + 1], "price"@, p@))
            &&& exists|cell: Seq<char>| #[trigger]
                stands_under(lines[0], lines[k + 1], "ticker"@, cell) && r.ticker@
                    == text::upper_text(cell)
            &&& exists|cell: Seq<char>| #[trigger]
                stands_under(lines[0], lines[k + 1], "date"@, cell) && calendar::plain_day(cell)
                    == Some(r.date.days as int)
            &&& exists|cell: Seq<char>| #[trigger]
                stands_under(lines[0], lines[k + 1], "side"@, cell) && (text::upper_text(cell)
                    == "BUY"@ || text::upper_text(cell) == "B"@ <==> r.side == Side::Buy)
        }),
{
    let lines = filled(text::lines_from(s@, 0));
    let cols = columns(lines[0]);
    let v = table(s@)->Ok_0;
    let l = layout(cols)->Ok_0;
    lemma_rows(lines, l, lines.len() - 1);
    let r = t.rows@[k];
    assert(raw_views(t.rows@)[k] == r@);
    assert(raw_views(t.rows@).len() == t.rows@.len());
    assert(r@ == v.rows[k]);
    let f = fields(lines[k + 1]);
    assert(raw_row(f, l, k + 2) == Ok::<RawView, ErrorView>(r@));
    lemma_column(cols, "date"@);
    lemma_column(cols, "ticker"@);
    lemma_column(cols, "side"@);
    lemma_column(cols, "quantity"@);
    lemma_column(cols, "price"@);
    assert(cols[l.quantity as int] == "quantity"@ && f[l.quantity as int] == r.quantity@);
    assert(stands_under(lines[0], lines[k + 1], "ticker"@, f[l.ticker as int])) by {
        assert(cols[l.ticker as int] == "ticker"@);
    }
    assert(stands_under(lines[0], lines[k + 1], "date"@, f[l.date as int])) by {
        assert(cols[l.date as int] == "date"@);
    }
    assert(stands_under(lines[0], lines[k + 1], "side"@, f[l.side as int])) by {
        assert(cols[l.side as int] == "side"@);
    }
    if let Some(p) = r.price {
        assert(cols[l.price as int] == "price"@ && f[l.price as int] == p@);
    }
}

/// A trade takes its amounts from its own row, and the first fault refuses them all: every quantity
/// and price is above zero, and fees that are not given are zero.
pub proof fn trades_keep_the_amounts_of_their_rows(
    t: RawTable,
    amounts: Vec<Amounts>,
    v: Vec<Trade>,
    k: int,
)
    requires
        call_ensures(parse_trades_csv, (t, &amounts), Ok::<Vec<Trade>, TradeError>(v)),
        amounts@.len() == t.rows@.len(),
        0 <= k < t.rows@.len(),
    ensures
        v@.len() == t.rows@.len(),
        v@[k].ticker@ == t.rows@[k].ticker@,
        v@[k].side == t.rows@[k].side,
        v@[k].date == t.rows@[k].date,
        amounts@[k].quantity == Some(v@[k].quantity) && 0 < v@[k].quantity.bits
            <= 0x7FF0_0000_0000_0000,
        amounts@[k].price == Some(v@[k].price) && 0 < v@[k].price.bits <= 0x7FF0_0000_0000_0000,
        t.rows@[k].fees is Some ==> amounts@[k].fees == Some(v@[k].fees),
        t.rows@[k].fees is None ==> v@[k].fees.bits == 0,
{
    let rows = raw_views(t.rows@);
    let n = t.rows@.len() as int;
    lemma_priced(rows, amounts@, n);
    let all = priced_upto(rows, amounts@, n)->Ok_0;
    assert(trade_views(v@).len() == v@.len());
    assert(trade_views(v@)[k] == v@[k]@);
    assert(rows[k] == t.rows@[k]@);
}

proof fn lemma_priced(rows: Seq<RawView>, a: Seq<Amounts>, n: int)
    requires
        0 <= n,
    ensures
        priced_upto(rows, a, n) matches Ok(s) ==> s.len() == n && forall|k: int|
            0 <= k < n ==> priced(rows[k], a[k]) == Ok::<TradeView, ErrorView>(#[trigger] s[k]),
    decreases n,
{
    if n > 0 {
        lemma_priced(rows, a, n - 1);
        if let Ok(s) = priced_upto(rows, a, n) {
            let before = priced_upto(rows, a, n - 1)->Ok_0;
            assert forall|k: int| 0 <= k < n implies priced(rows[k], a[k]) == Ok::<
                TradeView,
                ErrorView,
            >(#[trigger] s[k]) by {
                if k < n - 1 {
                    assert(s[k] == before[k]);
                }
            }
        }
    }
}

/// Buying changes quantity and average cost and leaves the realised result; selling changes the
/// quantity and the realised result and leaves the average cost, unless nothing is left.
pub proof fn buying_and_selling_change_their_own_figures(
    h: Holding,
    quantity: Number,
    cost: Number,
    left: Number,
    realized: Number,
    bought: Holding,
    sold: Holding,
)
    requires
        call_ensures(Holding::after_buy, (h, quantity, cost), bought),
        call_ensures(Holding::after_sell, (bought, left, realized), sold),
        0 < quantity.bits <= 0x7FF0_0000_0000_0000,
    ensures
        bought.quantity == quantity,
        bought.avg_cost == cost,
        bought.realized_pnl == h.realized_pnl,
        sold.realized_pnl == realized,
        0x3E11_2E0B_E826_D695 < left.bits <= 0x7FF0_0000_0000_0000 ==> sold.quantity == left
            && sold.avg_cost == cost,
        left.bits <= 0x3E11_2E0B_E826_D695 ==> sold.quantity.bits == 0 && sold.avg_cost.bits == 0,
{
}

/// No more is sold than is held, and no more than is wanted.
pub proof fn no_more_is_sold_than_held(h: Holding, wanted: Number, r: Number)
    requires
        call_ensures(Holding::sell_quantity, (h, wanted), r),
        !wanted.nan(),
        !h.quantity.nan(),
    ensures
        !wanted.lt(r),
        !h.quantity.lt(r),
        r == wanted || r == h.quantity,
{
}

/// Trades add up in the order of their days, those of one day as they are listed.
pub proof fn trades_add_up_by_day(trades: Vec<Trade>, p: Vec<usize>, i: int, j: int)
    requires
        call_ensures(trade_order, (&trades,), p),
        0 <= i < j < p@.len(),
    ensures
        p@.len() == trades@.len(),
        p@[i] < trades@.len() && p@[j] < trades@.len(),
        trades@[p@[i] as int].date.days <= trades@[p@[j] as int].date.days,
        trades@[p@[i] as int].date == trades@[p@[j] as int].date ==> p@[i] < p@[j],
{
    let keys = trade_days(trades@);
    assert(order::precedes(keys, p@[i] as int, p@[j] as int));
    assert(keys[p@[i] as int] == trades@[p@[i] as int].date.days as i64);
    assert(keys[p@[j] as int] == trades@[p@[j] as int].date.days as i64);
}

/// What was set is what is found, and other tickers keep theirs.
pub proof fn what_was_set_is_found(
    before: &mut Holdings,
    ticker: &str,
    holding: Holding,
    found: Holding,
    other: &str,
    kept: Holding,
    had: Holding,
)
    requires
        call_ensures(Holdings::set, (before, ticker, holding), ()),
        call_ensures(Holdings::get, (final(before), ticker), found),
        call_ensures(Holdings::get, (final(before), other), kept),
        call_ensures(Holdings::get, (old(before), other), had),
        other@ != ticker@,
    ensures
        found == holding,
        kept == had,
{
    assert(final(before).of(other@) == old(before).of(other@));
}

/// The three lists part the names: one that is held and picked is in the first alone, one that is
/// held alone in the second and one that is picked alone in the third. What is left below a
/// billionth is not held.
pub proof fn reconciling_parts_the_names(
    h: Holdings,
    picks: Vec<String>,
    r: Reconciliation,
    t: Seq<char>,
    i: int,
    k: int,
)
    requires
        call_ensures(reconcile, (&h, &picks), r),
        h.well_formed(),
        0 <= i < h.tickers@.len(),
        t == h.tickers@[i]@,
        0 <= k < picks@.len(),
    ensures
        0x3E11_2E0B_E826_D695 < h.holdings@[i].quantity.bits <= 0x7FF0_0000_0000_0000
            && picks@[k]@ == t ==> text::texts(r.in_both@).contains(t) && !text::texts(
            r.only_held@,
        ).contains(t) && !text::texts(r.only_model@).contains(t),
        h.holdings@[i].quantity.bits <= 0x3E11_2E0B_E826_D695 && picks@[k]@ == t ==> text::texts(
            r.only_model@,
        ).contains(t) && !text::texts(r.in_both@).contains(t),
        0x3E11_2E0B_E826_D695 < h.holdings@[i].quantity.bits <= 0x7FF0_0000_0000_0000 && !(
        text::texts(picks@).contains(t)) ==> text::texts(r.only_held@).contains(t),
{
    let names = text::texts(h.tickers@);
    assert forall|a: int, b: int| 0 <= a < b < names.len() implies names[a] != names[b] by {
        assert(h.tickers@[a]@ != h.tickers@[b]@);
    }
    lemma_holding_at(names, h.holdings@, i);
    assert(names[i] == t);
    if picks@[k]@ == t {
        assert(text::texts(picks@)[k] == t);
    }
    assert(text::texts(r.in_both@).contains(t) <==> h.holds(t) && text::texts(picks@).contains(t));
    assert(text::texts(r.only_held@).contains(t) <==> h.holds(t) && !text::texts(picks@).contains(t));
    assert(text::texts(r.only_model@).contains(t) <==> text::texts(picks@).contains(t) && !h.holds(
        t,
    ));
}

/// A holding is reported where something is held or a result was realised, one way or the other.
pub proof fn results_are_reported_either_way(h: Holding, r: bool, held: bool)
    requires
        call_ensures(Holding::is_reported, (h,), r),
        call_ensures(Holding::is_held, (h,), held),
    ensures
        held ==> r,
        h.realized_pnl.bits != 0 && h.realized_pnl.bits != 0x8000_0000_0000_0000 ==> r,
        !held && h.realized_pnl.bits == 0 ==> !r,
{
}

/// Tickers are listed as held where their quantity is more than dust, and as reported where they
/// are held or have made a gain or a loss.
pub proof fn held_tickers_are_reported(
    h: Holdings,
    held_list: Vec<String>,
    reported: Vec<String>,
    t: Seq<char>,
)
    requires
        h.well_formed(),
        call_ensures(Holdings::held_tickers, (&h,), held_list),
        call_ensures(Holdings::reported_tickers, (&h,), reported),
    ensures
        text::texts(held_list@).contains(t) ==> text::texts(reported@).contains(t),
        text::texts(held_list@).contains(t) <==> (h.of(t) matches Some(x) && (Number {
            bits: 0x3E11_2E0B_E826_D695,
        }).lt(x.quantity)),
        text::texts(reported@).contains(t) && !text::texts(held_list@).contains(t) ==> (h.of(
            t,
        ) matches Some(x) && x.realized_pnl.bits != 0),
        (h.of(t) matches Some(x) && 0 < x.realized_pnl.bits < 0x7FF0_0000_0000_0000) ==> text::texts(
            reported@,
        ).contains(t),
{
    let args = (&h,);
    assert(text::texts(held_list@).contains(t) <==> args.0.holds(t));
    assert(text::texts(reported@).contains(t) <==> (args.0.of(t) is Some && args.0.of(
        t,
    )->0.reported()));
}

/// Nothing held costs nothing: a purchase that leaves no quantity leaves no average cost, and the
/// realised result stays.
pub proof fn nothing_held_has_no_cost(h: Holding, quantity: Number, cost: Number, r: Holding)
    requires
        call_ensures(Holding::after_buy, (h, quantity, cost), r),
        quantity.bits == 0 || quantity.bits >= 0x8000_0000_0000_0000,
    ensures
        r.quantity == quantity && r.avg_cost.bits == 0 && r.realized_pnl == h.realized_pnl,
{
}

} // verus!
