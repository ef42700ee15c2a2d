//! Core data model: calendar dates, exact ratios, raw and derived bars,
//! positions, and the error taxonomy shared by every component.

use vstd::prelude::*;

verus! {

/// Largest magnitude a price tick may take. Keeping every price within this
/// bound lets all derived quantities (differences, true ranges) fit in `i64`.
pub const MAX_PRICE: i64 = 1_000_000_000_000;

/// A calendar date as plain fields, ordered lexicographically by
/// (year, month, day).
#[derive(Clone, Copy, Debug, PartialEq, Eq, Structural)]
pub struct Date {
    pub year: i32,
    pub month: u8,
    pub day: u8,
}

/// An exact ratio `num / den`; the quotient is never evaluated, so a zero
/// denominator can be rejected as a domain error instead of dividing.
#[derive(Clone, Copy, Debug, PartialEq, Eq, Structural)]
pub struct Ratio {
    pub num: i64,
    pub den: i64,
}

/// One raw observation for a trading day, as ingested.
#[derive(Clone, Copy, Debug, PartialEq, Eq, Structural)]
pub struct RawBar {
    pub date: Date,
    pub open: i64,
    pub high: i64,
    pub low: i64,
    pub close: i64,
    pub adj_close: i64,
    pub volume: i64,
}

/// One bar with derived statistics, produced by the deriver from a current
/// bar and a reference bar a fixed number of steps earlier.
#[derive(Clone, Copy, Debug, PartialEq, Eq, Structural)]
pub struct DerivedBar {
    pub open: i64,
    pub high: i64,
    pub low: i64,
    pub close: i64,
    pub date: Date,
    pub c2c_return: Ratio,
    pub c2c: i64,
    pub h2l_return: Ratio,
    pub h2l: i64,
    pub o2c_return: Ratio,
    pub o2c: i64,
    pub true_range: i64,
    pub true_range_pct: Ratio,
}

/// A rolled-up period bar has the same shape as a per-day derived bar; only
/// how its fields are computed differs.
pub type AggregatedBar = DerivedBar;

/// Calendar granularity for rolling daily bars up into periods.
#[derive(Clone, Copy, Debug, PartialEq, Eq, Structural)]
pub enum Granularity {
    Month,
    Quarter,
}

/// Direction of a breakout position, fixed at entry.
#[derive(Clone, Copy, Debug, PartialEq, Eq, Structural)]
pub enum PositionDirection {
    Long,
    Short,
}

/// A breakout position: opened on `entry_bar`, closed once `exit_bar` is set.
/// `id` is the index of the entry bar in the input series.
#[derive(Clone, Copy, Debug, PartialEq, Eq, Structural)]
pub struct Position {
    pub id: usize,
    pub entry_bar: DerivedBar,
    pub exit_bar: Option<DerivedBar>,
    pub direction: PositionDirection,
}

/// Failures the core components report to the caller.
#[derive(Clone, Copy, Debug, PartialEq, Eq, Structural)]
pub enum CoreError {
    /// A statistic would divide by zero; `date` identifies the offending bar.
    Domain { date: Date },
    /// An invalid period, window or stop fraction was rejected up front.
    Config,
}

/// A price tick within the magnitude bound.
pub open spec fn in_price(x: i64) -> bool {
    -MAX_PRICE <= x <= MAX_PRICE
}

/// A raw bar whose price fields are all within the tick bound.
pub open spec fn raw_wf(r: RawBar) -> bool {
    &&& in_price(r.open)
    &&& in_price(r.high)
    &&& in_price(r.low)
    &&& in_price(r.close)
    &&& in_price(r.adj_close)
}

/// A derived bar whose price fields are all within the tick bound.
pub open spec fn bar_wf(b: DerivedBar) -> bool {
    &&& in_price(b.open)
    &&& in_price(b.high)
    &&& in_price(b.low)
    &&& in_price(b.close)
}

/// A date whose month is a real calendar month.
pub open spec fn date_wf(d: Date) -> bool {
    1 <= d.month <= 12
}

/// Strict lexicographic order on (year, month, day).
pub open spec fn date_lt(a: Date, b: Date) -> bool {
    ||| a.year < b.year
    ||| (a.year == b.year && a.month < b.month)
    ||| (a.year == b.year && a.month == b.month && a.day < b.day)
}

pub open spec fn date_le(a: Date, b: Date) -> bool {
    date_lt(a, b) || a == b
}

/// Dates of a derived-bar sequence are strictly increasing.
pub open spec fn dates_ascending(s: Seq<DerivedBar>) -> bool {
    forall|i: int, j: int| 0 <= i < j < s.len() ==> date_lt(#[trigger] s[i].date, #[trigger] s[j].date)
}

/// Dates of a raw-bar sequence are strictly increasing.
pub open spec fn raw_dates_ascending(s: Seq<RawBar>) -> bool {
    forall|i: int, j: int| 0 <= i < j < s.len() ==> date_lt(#[trigger] s[i].date, #[trigger] s[j].date)
}

/// Mathematical absolute value.
pub open spec fn int_abs(x: int) -> int {
    if x < 0 { -x } else { x }
}

pub open spec fn int_max(a: int, b: int) -> int {
    if a >= b { a } else { b }
}

pub open spec fn int_min(a: int, b: int) -> int {
    if a <= b { a } else { b }
}

/// Maximum of three integers.
pub open spec fn int_max3(a: int, b: int, c: int) -> int {
    int_max(int_max(a, b), c)
}

/// True range against a reference close: the largest of the bar's own
/// high-low spread and the absolute gaps between either extreme and the
/// reference close.
pub open spec fn true_range_of(high: int, low: int, ref_close: int) -> int {
    int_max3(high - low, int_abs(high - ref_close), int_abs(ref_close - low))
}

/// The sequence-level view of a component's result.
pub open spec fn lift_res<T>(r: Result<Vec<T>, CoreError>) -> Result<Seq<T>, CoreError> {
    match r {
        Ok(v) => Ok(v@),
        Err(e) => Err(e),
    }
}

/// Absolute difference of two bounded ticks, exact.
pub fn tick_abs_diff(a: i64, b: i64) -> (r: i64)
    requires
        in_price(a),
        in_price(b),
    ensures
        r == int_abs(a - b),
{
    if a >= b {
        a - b
    } else {
        b - a
    }
}

/// Maximum of two ticks.
pub fn tick_max(a: i64, b: i64) -> (r: i64)
    ensures
        r == int_max(a as int, b as int),
{
    if a >= b {
        a
    } else {
        b
    }
}

/// Minimum of two ticks.
pub fn tick_min(a: i64, b: i64) -> (r: i64)
    ensures
        r == int_min(a as int, b as int),
{
    if a <= b {
        a
    } else {
        b
    }
}

/// Largest `high` over a nonempty bar sequence.
pub open spec fn seq_max_high(s: Seq<DerivedBar>) -> int
    decreases s.len(),
{
    if s.len() <= 1 {
        s[0].high as int
    } else {
        int_max(seq_max_high(s.drop_last()), s.last().high as int)
    }
}

/// Smallest `low` over a nonempty bar sequence.
pub open spec fn seq_min_low(s: Seq<DerivedBar>) -> int
    decreases s.len(),
{
    if s.len() <= 1 {
        s[0].low as int
    } else {
        int_min(seq_min_low(s.drop_last()), s.last().low as int)
    }
}

/// `seq_max_high` bounds every element and is attained by one.
pub proof fn lemma_seq_max_high(s: Seq<DerivedBar>)
    requires
        s.len() >= 1,
    ensures
        forall|i: int| 0 <= i < s.len() ==> (#[trigger] s[i]).high <= seq_max_high(s),
        exists|i: int| 0 <= i < s.len() && (#[trigger] s[i]).high == seq_max_high(s),
    decreases s.len(),
{
    if s.len() > 1 {
        lemma_seq_max_high(s.drop_last());
        assert forall|i: int| 0 <= i < s.len() implies (#[trigger] s[i]).high <= seq_max_high(s) by {
            if i < s.len() - 1 {
                assert(s.drop_last()[i] == s[i]);
            }
        }
        if s.last().high < seq_max_high(s) {
            let w = choose|i: int|
                0 <= i < s.drop_last().len() && (#[trigger] s.drop_last()[i]).high == seq_max_high(
                    s.drop_last(),
                );
            assert(s[w].high == seq_max_high(s));
        } else {
            assert(s[s.len() - 1].high == seq_max_high(s));
        }
    } else {
        assert(s[0].high == seq_max_high(s));
    }
}

/// `seq_min_low` bounds every element and is attained by one.
pub proof fn lemma_seq_min_low(s: Seq<DerivedBar>)
    requires
        s.len() >= 1,
    ensures
        forall|i: int| 0 <= i < s.len() ==> (#[trigger] s[i]).low >= seq_min_low(s),
        exists|i: int| 0 <= i < s.len() && (#[trigger] s[i]).low == seq_min_low(s),
    decreases s.len(),
{
    if s.len() > 1 {
        lemma_seq_min_low(s.drop_last());
        assert forall|i: int| 0 <= i < s.len() implies (#[trigger] s[i]).low >= seq_min_low(s) by {
            if i < s.len() - 1 {
                assert(s.drop_last()[i] == s[i]);
            }
        }
        if s.last().low > seq_min_low(s) {
            let w = choose|i: int|
                0 <= i < s.drop_last().len() && (#[trigger] s.drop_last()[i]).low == seq_min_low(
                    s.drop_last(),
                );
            assert(s[w].low == seq_min_low(s));
        } else {
            assert(s[s.len() - 1].low == seq_min_low(s));
        }
    } else {
        assert(s[0].low == seq_min_low(s));
    }
}

} // verus!
