//! Per-bar derivation: turns a raw OHLC series and a lookback period into a
//! series of bars carrying return and volatility statistics.

use vstd::prelude::*;
use crate::data::{
    bar_wf, date_lt, dates_ascending, lift_res, raw_dates_ascending, raw_wf, tick_abs_diff,
    tick_max, true_range_of, CoreError, DerivedBar, Ratio, RawBar,
};

verus! {

/// The divisors the per-bar statistics need are all nonzero.
pub open spec fn divisors_ok(r: RawBar) -> bool {
    r.open != 0 && r.close != 0 && r.low != 0
}

/// `d` carries exactly the statistics derived from current bar `cur` against
/// reference bar `prev` (the bar one lookback period earlier).
pub open spec fn derived_from(d: DerivedBar, cur: RawBar, prev: RawBar) -> bool {
    &&& d.open == cur.open
    &&& d.high == cur.high
    &&& d.low == cur.low
    &&& d.close == cur.close
    &&& d.date == cur.date
    &&& d.c2c == cur.close - prev.close
    &&& d.c2c_return.num == cur.close - prev.close
    &&& d.c2c_return.den == cur.close
    &&& d.h2l == cur.high - cur.low
    &&& d.h2l_return.num == cur.high - cur.low
    &&& d.h2l_return.den == cur.low
    &&& d.o2c == cur.close - cur.open
    &&& d.o2c_return.num == cur.close - cur.open
    &&& d.o2c_return.den == cur.open
    &&& d.true_range == true_range_of(cur.high as int, cur.low as int, prev.close as int)
    &&& d.true_range_pct.num == d.true_range
    &&& d.true_range_pct.den == cur.open
}

/// How many derived bars an input of length `n` yields for a given period:
/// one per index in `[period, n - 1)`, never negative.
pub open spec fn derived_len(n: int, period: int) -> int {
    if n >= period + 1 { n - period - 1 } else { 0 }
}

/// A successful derivation: exact length, every output bar derived from its
/// source pair, and no scanned bar with a zero divisor.
pub open spec fn derive_ok(rows: Seq<RawBar>, period: int, out: Seq<DerivedBar>) -> bool {
    &&& out.len() == derived_len(rows.len() as int, period)
    &&& forall|k: int| 0 <= k < out.len() ==> derived_from(#[trigger] out[k], rows[k + period], rows[k])
    &&& forall|i: int| period <= i < rows.len() - 1 ==> divisors_ok(#[trigger] rows[i])
}

/// `i` is the first scanned index whose bar has a zero divisor.
pub open spec fn first_bad_row(rows: Seq<RawBar>, period: int, i: int) -> bool {
    &&& period <= i < rows.len() - 1
    &&& !divisors_ok(rows[i])
    &&& forall|j: int| period <= j < i ==> divisors_ok(#[trigger] rows[j])
}

/// The full contract of derivation: a zero period is a configuration error;
/// a zero divisor on a scanned bar is a domain error naming the first such
/// bar's date; otherwise the result is the exact derived series.
pub open spec fn derive_post(rows: Seq<RawBar>, period: int, r: Result<Seq<DerivedBar>, CoreError>) -> bool {
    match r {
        Ok(out) => period >= 1 && derive_ok(rows, period, out),
        Err(e) => match e {
            CoreError::Config => period == 0,
            CoreError::Domain { date } => period >= 1
                && exists|i: int| #[trigger] first_bad_row(rows, period, i) && date == rows[i].date,
        },
    }
}

/// Derive per-bar statistics for each index in `[period, rows.len() - 1)`
/// against the bar `period` steps earlier; the final bar is never derived.
pub fn derive_bars(rows: &Vec<RawBar>, period: usize) -> (r: Result<Vec<DerivedBar>, CoreError>)
    requires
        forall|i: int| 0 <= i < rows@.len() ==> raw_wf(#[trigger] rows@[i]),
    ensures
        derive_post(rows@, period as int, lift_res(r)),
        r matches Ok(out) ==> out@.len() == derived_len(rows@.len() as int, period as int),
        r matches Ok(out) ==> forall|k: int| 0 <= k < out@.len()
            ==> (#[trigger] out@[k]).true_range >= out@[k].h2l && out@[k].true_range >= 0,
        r matches Ok(out) ==> forall|k: int| 0 <= k < out@.len() ==> bar_wf(#[trigger] out@[k]),
        r matches Ok(out) ==> (raw_dates_ascending(rows@) ==> dates_ascending(out@)),
{
    if period == 0 {
        return Err(CoreError::Config);
    }
    let n = rows.len();
    let mut out: Vec<DerivedBar> = Vec::new();
    if n <= period {
        return Ok(out);
    }
    let mut i: usize = period;
    while i < n - 1
        invariant
            1 <= period <= i <= n - 1,
            n == rows@.len(),
            n >= period + 1,
            forall|q: int| 0 <= q < rows@.len() ==> raw_wf(#[trigger] rows@[q]),
            out@.len() == i - period,
            forall|k: int| 0 <= k < out@.len() ==> derived_from(#[trigger] out@[k], rows@[k + period], rows@[k]),
            forall|j: int| period <= j < i ==> divisors_ok(#[trigger] rows@[j]),
        decreases n - i,
    {
        let cur = rows[i];
        let prev = rows[i - period];
        if cur.open == 0 || cur.close == 0 || cur.low == 0 {
            let ghost bad = i as int;
            proof {
                assert(first_bad_row(rows@, period as int, bad));
            }
            return Err(CoreError::Domain { date: cur.date });
        }
        let h2l = cur.high - cur.low;
        let tr = tick_max(
            tick_max(h2l, tick_abs_diff(cur.high, prev.close)),
            tick_abs_diff(prev.close, cur.low),
        );
        let d = DerivedBar {
            open: cur.open,
            high: cur.high,
            low: cur.low,
            close: cur.close,
            date: cur.date,
            c2c_return: Ratio { num: cur.close - prev.close, den: cur.close },
            c2c: cur.close - prev.close,
            h2l_return: Ratio { num: h2l, den: cur.low },
            h2l,
            o2c_return: Ratio { num: cur.close - cur.open, den: cur.open },
            o2c: cur.close - cur.open,
            true_range: tr,
            true_range_pct: Ratio { num: tr, den: cur.open },
        };
        out.push(d);
        i += 1;
    }
    proof {
        assert forall|k: int| 0 <= k < out@.len()
            implies (#[trigger] out@[k]).true_range >= out@[k].h2l && out@[k].true_range >= 0 by {
            assert(derived_from(out@[k], rows@[k + period], rows@[k]));
        }
        if raw_dates_ascending(rows@) {
            assert forall|k1: int, k2: int| 0 <= k1 < k2 < out@.len()
                implies date_lt(#[trigger] out@[k1].date, #[trigger] out@[k2].date) by {
                assert(derived_from(out@[k1], rows@[k1 + period], rows@[k1]));
                assert(derived_from(out@[k2], rows@[k2 + period], rows@[k2]));
                assert(date_lt(rows@[k1 + period].date, rows@[k2 + period].date));
            }
        }
    }
    Ok(out)
}

/// Derivation is a pure function of its inputs: any two results that satisfy
/// the derivation contract on the same rows and period are equal.
pub proof fn lemma_derive_deterministic(
    rows: Seq<RawBar>,
    period: int,
    r1: Result<Seq<DerivedBar>, CoreError>,
    r2: Result<Seq<DerivedBar>, CoreError>,
)
    requires
        derive_post(rows, period, r1),
        derive_post(rows, period, r2),
    ensures
        r1 == r2,
{
    match (r1, r2) {
        (Ok(o1), Ok(o2)) => {
            assert forall|k: int| 0 <= k < o1.len() implies o1[k] == o2[k] by {
                assert(derived_from(o1[k], rows[k + period], rows[k]));
                assert(derived_from(o2[k], rows[k + period], rows[k]));
                assert(o1[k].c2c_return == o2[k].c2c_return);
                assert(o1[k].h2l_return == o2[k].h2l_return);
                assert(o1[k].o2c_return == o2[k].o2c_return);
                assert(o1[k].true_range_pct == o2[k].true_range_pct);
            }
            assert(o1 =~= o2);
        }
        (Ok(o1), Err(e2)) => {
            match e2 {
                CoreError::Config => {}
                CoreError::Domain { date } => {
                    let i = choose|i: int| #[trigger] first_bad_row(rows, period, i) && date == rows[i].date;
                    assert(divisors_ok(rows[i]));
                }
            }
        }
        (Err(e1), Ok(o2)) => {
            match e1 {
                CoreError::Config => {}
                CoreError::Domain { date } => {
                    let i = choose|i: int| #[trigger] first_bad_row(rows, period, i) && date == rows[i].date;
                    assert(divisors_ok(rows[i]));
                }
            }
        }
        (Err(e1), Err(e2)) => {
            match (e1, e2) {
                (CoreError::Domain { date: d1 }, CoreError::Domain { date: d2 }) => {
                    let i1 = choose|i: int| #[trigger] first_bad_row(rows, period, i) && d1 == rows[i].date;
                    let i2 = choose|i: int| #[trigger] first_bad_row(rows, period, i) && d2 == rows[i].date;
                    if i1 < i2 {
                        assert(divisors_ok(rows[i1]));
                    }
                    if i2 < i1 {
                        assert(divisors_ok(rows[i2]));
                    }
                    assert(i1 == i2);
                }
                _ => {}
            }
        }
    }
}

} // verus!
