//! Replay of the daily job over past dates: which days are scored, what each
//! outcome counts as, and the summary of the run.
//!
//! A replay is a backtest and no forward evidence. Its days always lie in the
//! past, outside the window in which sources that describe the present may be
//! asked, however the replay is called.

use vstd::prelude::*;
use vstd::string::*;

use crate::calendar;
use crate::calendar::Date;
use crate::data::asof;
use crate::data::asof::LIVE_GRACE_DAYS;
use crate::text;

verus! {

/// Directory of the records of a replay.
pub const BACKFILL_DIR: &'static str = "backfill_log";

/// Name under which the days of a replay are recorded.
pub const BACKFILL_LABEL: &'static str = "BACKFILL: point-in-time replay (a backtest, NOT forward evidence)";

/// Seconds that scoring one day may take.
pub const PER_DAY_BUDGET_SECS: u64 = 180;

/// What became of scoring a day.
#[derive(Clone, Copy, Debug, PartialEq, Eq, Structural)]
pub enum DayOutcome {
    /// Names were ranked on data through a date.
    Ranked(Date),
    /// The ranking named nobody.
    Empty,
    /// The ranking failed.
    Failed,
    /// The day's budget was used up.
    TimedOut,
}

/// A run over past days.
#[derive(Clone, Copy, Debug, PartialEq, Eq, Structural)]
pub struct Backfill {
    pub first_day: Date,
    pub last_day: Date,
    /// The first day that has not been considered.
    pub next: Date,
    /// Days handed out so far.
    pub scored: u64,
    /// Days that await `recorded`.
    pub open: u64,
    pub written: u64,
    pub skipped_closed: u64,
    pub failed: u64,
    pub timed_out: u64,
}

/// The latest day that a replay run on `today` may score.
pub open spec fn latest_safe(today: int) -> int {
    today - (LIVE_GRACE_DAYS + 1)
}

/// A day, moved back to `latest` where it lies after it.
pub open spec fn clamped(day: int, latest: int) -> int {
    if day <= latest {
        day
    } else {
        latest
    }
}

/// Whether a day number is that of a weekday.
pub open spec fn weekday(day: int) -> bool {
    (day - 1) % 7 < 5
}

/// The summary of a run.
pub open spec fn summary_text(b: Backfill, dir: Seq<char>, corrected: bool) -> Seq<char> {
    "Backfill "@ + calendar::day_text(b.first_day.days as int) + " -> "@ + calendar::day_text(
        b.last_day.days as int,
    ) + " (clamped to stay "@ + text::decimal((LIVE_GRACE_DAYS + 1) as nat)
        + " day(s) before today, universe: "@ + (if corrected {
        "point-in-time S&P 500 membership"@
    } else {
        "today's list (not survivorship-corrected)"@
    }) + "): "@ + text::decimal(b.written as nat) + " day(s) recorded in "@ + dir + ", "@
        + text::decimal(b.skipped_closed as nat) + " closed-market day(s) skipped, "@
        + text::decimal(b.failed as nat) + " failed, "@ + text::decimal(b.timed_out as nat)
        + " exceeded the per-day budget"@
}

impl Backfill {
    /// Every day that was handed out is counted once, and the run stays within its window.
    pub open spec fn well_formed(self) -> bool {
        &&& self.first_day.in_range()
        &&& self.last_day.in_range()
        &&& self.last_day.days < calendar::LAST_DAY
        &&& self.next.in_range()
        &&& self.first_day.days <= self.next.days
        &&& self.next.days <= self.last_day.days + 1 || self.next == self.first_day
        &&& self.scored == self.open + self.written + self.skipped_closed + self.failed
            + self.timed_out
        &&& self.scored <= self.next.days - self.first_day.days
    }

    /// A run over the `days` days before `last_day` and that day itself, moved back where it would
    /// reach into the live window of `today`. A negative number of days leaves no day to score.
    pub fn new(last_day: Date, today: Date, days: i64) -> (r: Backfill)
        requires
            last_day.in_range(),
            calendar::day_in_range(latest_safe(today.days as int)),
            today.in_range(),
            calendar::day_in_range(
                clamped(last_day.days as int, latest_safe(today.days as int)) - days,
            ),
        ensures
            r.well_formed(),
            r.last_day.days == clamped(last_day.days as int, latest_safe(today.days as int)),
            r.first_day.days == r.last_day.days - days,
            r.next == r.first_day,
            r.scored == 0,
            r.open == 0,
            r.written == 0,
            r.skipped_closed == 0,
            r.failed == 0,
            r.timed_out == 0,
    {
        let safe: Date = today.plus_days(-(LIVE_GRACE_DAYS + 1));
        let last: Date = if last_day.days <= safe.days {
            last_day
        } else {
            safe
        };
        let first: Date = last.plus_days(-days);
        Backfill {
            first_day: first,
            last_day: last,
            next: first,
            scored: 0,
            open: 0,
            written: 0,
            skipped_closed: 0,
            failed: 0,
            timed_out: 0,
        }
    }

    /// The next weekday of the window to score, or nothing once they are used up.
    pub fn next_day(&mut self) -> (r: Option<Date>)
        requires
            old(self).well_formed(),
        ensures
            final(self).well_formed(),
            final(self).first_day == old(self).first_day,
            final(self).last_day == old(self).last_day,
            final(self).written == old(self).written,
            final(self).skipped_closed == old(self).skipped_closed,
            final(self).failed == old(self).failed,
            final(self).timed_out == old(self).timed_out,
            match r {
                Some(d) => {
                    &&& old(self).next.days <= d.days <= old(self).last_day.days
                    &&& weekday(d.days as int)
                    &&& forall|k: int| old(self).next.days <= k < d.days ==> !#[trigger] weekday(k)
                    &&& final(self).next.days == d.days + 1
                    &&& final(self).open == old(self).open + 1
                    &&& d.in_range()
                },
                None => {
                    &&& forall|k: int|
                        old(self).next.days <= k <= old(self).last_day.days ==> !#[trigger] weekday(
                            k,
                        )
                    &&& final(self).open == old(self).open
                },
            },
    {
        let ghost start = self.next.days;
        while self.next.days <= self.last_day.days
            invariant
                self.well_formed(),
                start <= self.next.days,
                start == old(self).next.days,
                self.first_day == old(self).first_day,
                self.last_day == old(self).last_day,
                self.written == old(self).written,
                self.skipped_closed == old(self).skipped_closed,
                self.failed == old(self).failed,
                self.timed_out == old(self).timed_out,
                self.open == old(self).open,
                forall|k: int| start <= k < self.next.days ==> !#[trigger] weekday(k),
            decreases self.last_day.days + 1 - self.next.days,
        {
            let d: Date = self.next;
            let weekend: bool = d.is_weekend();
            self.next = d.plus_days(1);
            if !weekend {
                self.scored = self.scored + 1;
                self.open = self.open + 1;
                return Some(d);
            }
            proof {
                assert(!weekday(d.days as int));
            }
        }
        None
    }

    /// Takes in what became of scoring `day`: whether it is to be recorded.
    pub fn scored_day(&mut self, day: Date, outcome: DayOutcome) -> (r: bool)
        requires
            old(self).well_formed(),
            old(self).open > 0,
        ensures
            final(self).well_formed(),
            r == (outcome == DayOutcome::Ranked(day)),
            final(self).first_day == old(self).first_day,
            final(self).last_day == old(self).last_day,
            final(self).next == old(self).next,
            final(self).written == old(self).written,
            final(self).open == old(self).open - (if r {
                0int
            } else {
                1
            }),
            final(self).skipped_closed == old(self).skipped_closed + (if outcome is Ranked && !r {
                1int
            } else {
                0
            }),
            final(self).failed == old(self).failed + (if outcome is Empty || outcome is Failed {
                1int
            } else {
                0
            }),
            final(self).timed_out == old(self).timed_out + (if outcome is TimedOut {
                1int
            } else {
                0
            }),
    {
        match outcome {
            DayOutcome::Ranked(through) => {
                if through.days == day.days {
                    return true;
                }
                self.skipped_closed = self.skipped_closed + 1;
            },
            DayOutcome::Empty => {
                self.failed = self.failed + 1;
            },
            DayOutcome::Failed => {
                self.failed = self.failed + 1;
            },
            DayOutcome::TimedOut => {
                self.timed_out = self.timed_out + 1;
            },
        }
        self.open = self.open - 1;
        false
    }

    /// Takes in whether a day could be recorded.
    pub fn recorded(&mut self, done: bool)
        requires
            old(self).well_formed(),
            old(self).open > 0,
        ensures
            final(self).well_formed(),
            final(self).first_day == old(self).first_day,
            final(self).last_day == old(self).last_day,
            final(self).next == old(self).next,
            final(self).open == old(self).open - 1,
            final(self).written == old(self).written + (if done {
                1int
            } else {
                0
            }),
            final(self).failed == old(self).failed + (if done {
                0int
            } else {
                1
            }),
            final(self).skipped_closed == old(self).skipped_closed,
            final(self).timed_out == old(self).timed_out,
    {
        self.open = self.open - 1;
        if done {
            self.written = self.written + 1;
        } else {
            self.failed = self.failed + 1;
        }
    }

    /// The summary of the run.
    pub fn summary(&self, dir: &str, corrected: bool) -> (r: String)
        requires
            self.well_formed(),
        ensures
            r@ == summary_text(*self, dir@, corrected),
    {
        let mut s: String = "Backfill ".to_owned();
        s.append(self.first_day.text().as_str());
        s.append(" -> ");
        s.append(self.last_day.text().as_str());
        s.append(" (clamped to stay ");
        s.append(text::decimal_text((LIVE_GRACE_DAYS + 1) as u64).as_str());
        s.append(" day(s) before today, universe: ");
        if corrected {
            s.append("point-in-time S&P 500 membership");
        } else {
            s.append("today's list (not survivorship-corrected)");
        }
        s.append("): ");
        s.append(text::decimal_text(self.written).as_str());
        s.append(" day(s) recorded in ");
        s.append(dir);
        s.append(", ");
        s.append(text::decimal_text(self.skipped_closed).as_str());
        s.append(" closed-market day(s) skipped, ");
        s.append(text::decimal_text(self.failed).as_str());
        s.append(" failed, ");
        s.append(text::decimal_text(self.timed_out).as_str());
        s.append(" exceeded the per-day budget");
        s
    }
}

/// Every day that a replay may score is historical: no live source may be asked about it.
pub proof fn replayed_days_are_historical(day: int, last_day: int, today: int)
    requires
        last_day <= latest_safe(today),
        day <= last_day,
    ensures
        asof::historical(day, today),
{
}

/// Every day that a replay hands out lies four days or more before today, is no Saturday or Sunday,
/// and lies in the window that was asked for.
pub proof fn replays_stay_out_of_the_live_window(
    last_day: Date,
    today: Date,
    days: i64,
    b: Backfill,
    run: &mut Backfill,
    d: Option<Date>,
)
    requires
        last_day.in_range(),
        today.in_range(),
        calendar::day_in_range(today.days - 4),
        calendar::day_in_range(last_day.days - days),
        calendar::day_in_range(today.days - 4 - days),
        call_ensures(Backfill::new, (last_day, today, days), b),
        old(run).well_formed(),
        old(run).first_day == b.first_day,
        old(run).last_day == b.last_day,
        call_ensures(Backfill::next_day, (run,), d),
    ensures
        d matches Some(x) ==> x.days <= last_day.days && today.days - x.days >= 4,
        d matches Some(x) ==> (x.days - 1) % 7 != 5 && (x.days - 1) % 7 != 6,
        last_day.days <= today.days - 4 ==> (d matches Some(x) ==> last_day.days - days <= x.days),
{
}

/// Days are handed out one after the other: no day of the window is handed out twice, and none is
/// passed over but Saturdays and Sundays.
pub proof fn no_weekday_is_passed_over(
    a: &mut Backfill,
    b: &mut Backfill,
    first: Date,
    second: Option<Date>,
    day: int,
)
    requires
        old(a).well_formed(),
        call_ensures(Backfill::next_day, (a,), Some(first)),
        *old(b) == *final(a),
        call_ensures(Backfill::next_day, (b,), second),
        first.days < day <= old(a).last_day.days,
        second matches Some(d) ==> day < d.days,
    ensures
        (day - 1) % 7 >= 5,
        second matches Some(d) ==> first.days < d.days,
{
    assert(!weekday(day));
}

/// A day counts as recorded only where names were ranked on data of that very day and the record
/// was written; data of another day means that the market was closed.
pub proof fn days_count_by_what_became_of_them(
    a: &mut Backfill,
    day: Date,
    outcome: DayOutcome,
    keep: bool,
)
    requires
        old(a).well_formed(),
        old(a).open > 0,
        call_ensures(Backfill::scored_day, (a, day, outcome), keep),
    ensures
        keep <==> outcome == DayOutcome::Ranked(day),
        outcome matches DayOutcome::Ranked(d) && d != day ==> final(a).skipped_closed == old(a).skipped_closed + 1,
        outcome == DayOutcome::Empty || outcome == DayOutcome::Failed ==> final(a).failed == old(a).failed + 1,
        outcome == DayOutcome::TimedOut ==> final(a).timed_out == old(a).timed_out + 1,
        final(a).written == old(a).written,
        final(a).open + final(a).skipped_closed + final(a).failed + final(a).timed_out == old(a).open + old(a).skipped_closed + old(a).failed + old(a).timed_out,
{
}

/// A day that was to be recorded counts as written where it was, and as failed where it was not.
pub proof fn records_count_as_written_or_failed(a: &mut Backfill, done: bool)
    requires
        old(a).well_formed(),
        old(a).open > 0,
        call_ensures(Backfill::recorded, (a, done), ()),
    ensures
        done ==> final(a).written == old(a).written + 1 && final(a).failed == old(a).failed,
        !done ==> final(a).failed == old(a).failed + 1 && final(a).written == old(a).written,
        final(a).open == old(a).open - 1,
        final(a).skipped_closed == old(a).skipped_closed && final(a).timed_out == old(a).timed_out,
{
}

} // verus!
