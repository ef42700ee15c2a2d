//! Period aggregation: rolls a date-ascending derived-bar series up into one
//! bar per calendar month or quarter, chaining each period's true range and
//! close-to-close statistics against the chronologically preceding period.

use vstd::prelude::*;
use crate::data::{
    bar_wf, date_wf, dates_ascending, in_price, lift_res, seq_max_high, seq_min_low,
    tick_abs_diff, tick_max, tick_min, true_range_of, AggregatedBar, CoreError, Date, DerivedBar,
    Granularity, Ratio,
};

verus! {

/// Chronologically sortable key of the calendar period a date falls in.
pub open spec fn period_key(g: Granularity, d: Date) -> int {
    match g {
        Granularity::Month => d.year * 12 + (d.month - 1),
        Granularity::Quarter => d.year * 4 + (d.month - 1) / 3,
    }
}

/// First day of the calendar period a date falls in.
pub open spec fn period_start(g: Granularity, d: Date) -> Date {
    match g {
        Granularity::Month => Date { year: d.year, month: d.month, day: 1 },
        Granularity::Quarter => Date {
            year: d.year,
            month: (((d.month - 1) / 3) * 3 + 1) as u8,
            day: 1,
        },
    }
}

/// Computes `period_key` on plain values.
pub fn period_key_of(g: Granularity, d: Date) -> (k: i64)
    requires
        date_wf(d),
    ensures
        k == period_key(g, d),
{
    match g {
        Granularity::Month => (d.year as i64) * 12 + ((d.month - 1) as i64),
        Granularity::Quarter => (d.year as i64) * 4 + (((d.month - 1) / 3) as i64),
    }
}

/// Computes `period_start` on plain values.
pub fn period_start_of(g: Granularity, d: Date) -> (s: Date)
    requires
        date_wf(d),
    ensures
        s == period_start(g, d),
{
    match g {
        Granularity::Month => Date { year: d.year, month: d.month, day: 1 },
        Granularity::Quarter => Date { year: d.year, month: ((d.month - 1) / 3) * 3 + 1, day: 1 },
    }
}

/// Length of the maximal leading run of bars sharing the first bar's period.
pub open spec fn run_len(bars: Seq<DerivedBar>, g: Granularity) -> int
    decreases bars.len(),
{
    if bars.len() == 0 {
        0
    } else if bars.len() >= 2 && period_key(g, bars[1].date) == period_key(g, bars[0].date) {
        1 + run_len(bars.subrange(1, bars.len() as int), g)
    } else {
        1
    }
}

/// The leading run is nonempty, shares one period key throughout, and is
/// maximal.
pub proof fn lemma_run_len(bars: Seq<DerivedBar>, g: Granularity)
    requires
        bars.len() >= 1,
    ensures
        1 <= run_len(bars, g) <= bars.len(),
        forall|i: int| 0 <= i < run_len(bars, g) ==> period_key(g, (#[trigger] bars[i]).date)
            == period_key(g, bars[0].date),
        run_len(bars, g) < bars.len() ==> period_key(g, bars[run_len(bars, g)].date)
            != period_key(g, bars[0].date),
    decreases bars.len(),
{
    if bars.len() >= 2 && period_key(g, bars[1].date) == period_key(g, bars[0].date) {
        let tail = bars.subrange(1, bars.len() as int);
        lemma_run_len(tail, g);
        assert forall|i: int| 0 <= i < run_len(bars, g) implies period_key(
            g,
            (#[trigger] bars[i]).date,
        ) == period_key(g, bars[0].date) by {
            if i >= 1 {
                assert(tail[i - 1] == bars[i]);
            }
        }
        if run_len(bars, g) < bars.len() {
            assert(tail[run_len(tail, g)] == bars[run_len(bars, g)]);
        }
    }
}

/// The aggregated bar `a` is exactly the rollup of `bucket` chained against
/// the previous period's close (absent for the first period).
pub open spec fn bucket_agg(
    bucket: Seq<DerivedBar>,
    g: Granularity,
    prev_close: Option<int>,
    a: AggregatedBar,
) -> bool {
    let high = seq_max_high(bucket);
    let low = seq_min_low(bucket);
    let open = bucket[0].open as int;
    let close = bucket.last().close as int;
    &&& a.open == open
    &&& a.high == high
    &&& a.low == low
    &&& a.close == close
    &&& a.date == period_start(g, bucket[0].date)
    &&& a.h2l == high - low
    &&& match prev_close {
        None => a.true_range == 0 && a.c2c == 0 && a.c2c_return.num == 0 && a.c2c_return.den == 1,
        Some(pc) => a.true_range == true_range_of(high, low, pc) && a.c2c == close - pc
            && a.c2c_return.num == close - pc && a.c2c_return.den == close,
    }
    &&& a.h2l_return.num == a.h2l
    &&& a.h2l_return.den == 1
    &&& a.true_range_pct.num == a.true_range
    &&& a.true_range_pct.den == open
    &&& a.o2c == open - close
    &&& a.o2c_return.num == close - open
    &&& a.o2c_return.den == open
}

/// The full aggregation contract, one leading run at a time: a run whose
/// open is zero — or whose close is zero while a predecessor period exists —
/// is a domain error dated at its period start; otherwise the first output
/// bar is the run's rollup and the rest aggregates the remaining bars
/// chained on that run's close.
pub open spec fn agg_rel(
    bars: Seq<DerivedBar>,
    g: Granularity,
    prev_close: Option<int>,
    r: Result<Seq<AggregatedBar>, CoreError>,
) -> bool
    decreases bars.len(),
    via agg_rel_decreases
{
    if bars.len() == 0 {
        match r {
            Ok(out) => out.len() == 0,
            Err(_) => false,
        }
    } else {
        let rl = run_len(bars, g);
        let bucket = bars.subrange(0, rl);
        let open = bucket[0].open as int;
        let close = bucket.last().close as int;
        if open == 0 || (prev_close is Some && close == 0) {
            match r {
                Ok(_) => false,
                Err(e) => e == (CoreError::Domain { date: period_start(g, bars[0].date) }),
            }
        } else {
            match r {
                Ok(out) => out.len() >= 1 && bucket_agg(bucket, g, prev_close, out[0]) && agg_rel(
                    bars.subrange(rl, bars.len() as int),
                    g,
                    Some(close),
                    Ok(out.subrange(1, out.len() as int)),
                ),
                Err(e) => agg_rel(bars.subrange(rl, bars.len() as int), g, Some(close), Err(e)),
            }
        }
    }
}

#[via_fn]
proof fn agg_rel_decreases(
    bars: Seq<DerivedBar>,
    g: Granularity,
    prev_close: Option<int>,
    r: Result<Seq<AggregatedBar>, CoreError>,
) {
    if bars.len() != 0 {
        lemma_run_len(bars, g);
    }
}

/// The spec-level view of the previous period's carried close.
pub open spec fn carry_view(p: Option<i64>) -> Option<int> {
    match p {
        Some(c) => Some(c as int),
        None => None,
    }
}

/// Prepend already-emitted aggregated bars to a result for the remainder.
pub open spec fn prepend_agg(
    pre: Seq<AggregatedBar>,
    r: Result<Seq<AggregatedBar>, CoreError>,
) -> Result<Seq<AggregatedBar>, CoreError> {
    match r {
        Ok(s) => Ok(pre + s),
        Err(e) => Err(e),
    }
}

/// The true-range and close-to-close fields of `a` are computed against the
/// close of `p`, the chronologically preceding aggregated bar.
pub open spec fn chained_against(a: AggregatedBar, p: AggregatedBar) -> bool {
    &&& a.c2c == a.close - p.close
    &&& a.c2c_return.num == a.c2c
    &&& a.c2c_return.den == a.close
    &&& a.true_range == true_range_of(a.high as int, a.low as int, p.close as int)
}

/// Every aggregated bar after the first is chained against its immediate
/// predecessor in the output, whatever the series or the granularity.
pub proof fn lemma_period_chaining(
    bars: Seq<DerivedBar>,
    g: Granularity,
    pc: Option<int>,
    out: Seq<AggregatedBar>,
)
    requires
        agg_rel(bars, g, pc, Ok(out)),
    ensures
        forall|k: int| 1 <= k < out.len() ==> chained_against(#[trigger] out[k], out[k - 1]),
        (match pc {
            Some(c) => out.len() >= 1 ==> out[0].c2c == out[0].close - c && out[0].c2c_return.num
                == out[0].c2c && out[0].c2c_return.den == out[0].close && out[0].true_range
                == true_range_of(out[0].high as int, out[0].low as int, c),
            None => true,
        }),
    decreases bars.len(),
{
    if bars.len() != 0 {
        lemma_run_len(bars, g);
        let rl = run_len(bars, g);
        let bucket = bars.subrange(0, rl);
        let close = bucket.last().close as int;
        let rest = bars.subrange(rl, bars.len() as int);
        let sub = out.subrange(1, out.len() as int);
        assert(bucket_agg(bucket, g, pc, out[0]));
        assert(agg_rel(rest, g, Some(close), Ok(sub)));
        lemma_period_chaining(rest, g, Some(close), sub);
        assert(out[0].close == close);
        assert forall|k: int| 1 <= k < out.len() implies chained_against(
            #[trigger] out[k],
            out[k - 1],
        ) by {
            assert(sub[k - 1] == out[k]);
            if k >= 2 {
                assert(sub[k - 2] == out[k - 1]);
            }
        }
    }
}

/// Aggregation is a pure function of the series, the granularity and the
/// carried close: any two results related to the same inputs are equal.
pub proof fn lemma_aggregate_deterministic(
    bars: Seq<DerivedBar>,
    g: Granularity,
    pc: Option<int>,
    r1: Result<Seq<AggregatedBar>, CoreError>,
    r2: Result<Seq<AggregatedBar>, CoreError>,
)
    requires
        agg_rel(bars, g, pc, r1),
        agg_rel(bars, g, pc, r2),
    ensures
        r1 == r2,
    decreases bars.len(),
{
    if bars.len() == 0 {
        match (r1, r2) {
            (Ok(o1), Ok(o2)) => {
                assert(o1 =~= o2);
            },
            _ => {},
        }
    } else {
        lemma_run_len(bars, g);
        let rl = run_len(bars, g);
        let bucket = bars.subrange(0, rl);
        let open = bucket[0].open as int;
        let close = bucket.last().close as int;
        let rest = bars.subrange(rl, bars.len() as int);
        if !(open == 0 || (pc is Some && close == 0)) {
            match (r1, r2) {
                (Ok(o1), Ok(o2)) => {
                    let s1 = o1.subrange(1, o1.len() as int);
                    let s2 = o2.subrange(1, o2.len() as int);
                    lemma_aggregate_deterministic(rest, g, Some(close), Ok(s1), Ok(s2));
                    assert(s1 == s2);
                    assert(bucket_agg(bucket, g, pc, o1[0]));
                    assert(bucket_agg(bucket, g, pc, o2[0]));
                    assert(o1[0].c2c_return == o2[0].c2c_return);
                    assert(o1[0].h2l_return == o2[0].h2l_return);
                    assert(o1[0].o2c_return == o2[0].o2c_return);
                    assert(o1[0].true_range_pct == o2[0].true_range_pct);
                    assert(o1[0] == o2[0]);
                    assert forall|k: int| 0 <= k < o1.len() implies o1[k] == o2[k] by {
                        if k >= 1 {
                            assert(s1[k - 1] == o1[k]);
                            assert(s2[k - 1] == o2[k]);
                        }
                    }
                    assert(o1 =~= o2);
                },
                (Ok(o1), Err(e2)) => {
                    let s1 = o1.subrange(1, o1.len() as int);
                    lemma_aggregate_deterministic(rest, g, Some(close), Ok(s1), Err(e2));
                },
                (Err(e1), Ok(o2)) => {
                    let s2 = o2.subrange(1, o2.len() as int);
                    lemma_aggregate_deterministic(rest, g, Some(close), Err(e1), Ok(s2));
                },
                (Err(e1), Err(e2)) => {
                    lemma_aggregate_deterministic(rest, g, Some(close), Err(e1), Err(e2));
                },
            }
        }
    }
}

/// The first aggregated period has no predecessor: its true range and
/// close-to-close statistics are zero by definition.
pub proof fn lemma_first_period_zero(bars: Seq<DerivedBar>, g: Granularity, out: Seq<AggregatedBar>)
    requires
        agg_rel(bars, g, None, Ok(out)),
    ensures
        out.len() >= 1 <==> bars.len() >= 1,
        out.len() >= 1 ==> out[0].true_range == 0 && out[0].c2c == 0 && out[0].c2c_return.num == 0
            && out[0].c2c_return.den == 1,
{
    if bars.len() != 0 {
        let rl = run_len(bars, g);
        let bucket = bars.subrange(0, rl);
        assert(bucket_agg(bucket, g, None, out[0]));
    }
}

/// Aggregate a date-ascending derived series into one bar per calendar
/// period, in chronological order, each chained against its predecessor.
pub fn aggregate(bars: &Vec<DerivedBar>, g: Granularity) -> (r: Result<
    Vec<AggregatedBar>,
    CoreError,
>)
    requires
        forall|i: int| 0 <= i < bars@.len() ==> bar_wf(#[trigger] bars@[i]),
        forall|i: int| 0 <= i < bars@.len() ==> date_wf((#[trigger] bars@[i]).date),
        dates_ascending(bars@),
    ensures
        agg_rel(bars@, g, None, lift_res(r)),
        (forall|i: int|
            0 <= i < bars@.len() ==> (#[trigger] bars@[i]).open != 0 && bars@[i].close != 0)
            ==> r is Ok,
        r matches Ok(out) ==> (out@.len() >= 1 <==> bars@.len() >= 1),
        r matches Ok(out) ==> (out@.len() >= 1 ==> out@[0].true_range == 0 && out@[0].c2c == 0
            && out@[0].c2c_return.num == 0 && out@[0].c2c_return.den == 1),
{
    let n = bars.len();
    let mut res: Vec<AggregatedBar> = Vec::new();
    let mut prev_close: Option<i64> = None;
    let mut i: usize = 0;
    proof {
        assert(bars@.subrange(0, n as int) =~= bars@);
        assert forall|rr: Result<Seq<AggregatedBar>, CoreError>|
            #[trigger] agg_rel(bars@.subrange(i as int, n as int), g, carry_view(prev_close), rr)
                implies agg_rel(bars@, g, None, prepend_agg(res@, rr)) by {
            match rr {
                Ok(s) => {
                    assert(Seq::<AggregatedBar>::empty() + s =~= s);
                },
                Err(_) => {},
            }
        }
    }
    while i < n
        invariant
            i <= n,
            n == bars@.len(),
            forall|q: int| 0 <= q < bars@.len() ==> bar_wf(#[trigger] bars@[q]),
            forall|q: int| 0 <= q < bars@.len() ==> date_wf((#[trigger] bars@[q]).date),
            prev_close matches Some(c) ==> in_price(c),
            forall|rr: Result<Seq<AggregatedBar>, CoreError>|
                #[trigger] agg_rel(bars@.subrange(i as int, n as int), g, carry_view(prev_close), rr)
                    ==> agg_rel(bars@, g, None, prepend_agg(res@, rr)),
        decreases n - i,
    {
        let ghost suffix = bars@.subrange(i as int, n as int);
        let k0 = period_key_of(g, bars[i].date);
        let mut j: usize = i + 1;
        while j < n && period_key_of(g, bars[j].date) == k0
            invariant
                i < j <= n,
                n == bars@.len(),
                forall|q: int| 0 <= q < bars@.len() ==> date_wf((#[trigger] bars@[q]).date),
                k0 == period_key(g, bars@[i as int].date),
                forall|t: int| i <= t < j ==> period_key(g, (#[trigger] bars@[t]).date) == k0,
            decreases n - j,
        {
            j += 1;
        }
        let ghost rl = run_len(suffix, g);
        proof {
            lemma_run_len(suffix, g);
            if rl < j - i {
                assert(suffix[rl] == bars@[i + rl]);
                assert(period_key(g, suffix[rl].date) == k0);
                assert(suffix[0] == bars@[i as int]);
                assert(false);
            }
            if rl > j - i {
                assert(suffix[j - i] == bars@[j as int]);
                assert(suffix[0] == bars@[i as int]);
                assert(period_key(g, suffix[j - i].date) == period_key(g, suffix[0].date));
                assert(false);
            }
            assert(rl == j - i);
            assert(suffix.subrange(0, rl) =~= bars@.subrange(i as int, j as int));
        }
        let mut high = bars[i].high;
        let mut low = bars[i].low;
        proof {
            assert(bars@.subrange(i as int, i + 1)[0] == bars@[i as int]);
        }
        let mut t: usize = i + 1;
        while t < j
            invariant
                i < t <= j <= n,
                n == bars@.len(),
                forall|q: int| 0 <= q < bars@.len() ==> bar_wf(#[trigger] bars@[q]),
                high == seq_max_high(bars@.subrange(i as int, t as int)),
                low == seq_min_low(bars@.subrange(i as int, t as int)),
                in_price(high),
                in_price(low),
            decreases j - t,
        {
            proof {
                assert(bars@.subrange(i as int, t + 1).drop_last() =~= bars@.subrange(
                    i as int,
                    t as int,
                ));
                assert(bars@.subrange(i as int, t + 1).last() == bars@[t as int]);
            }
            high = tick_max(high, bars[t].high);
            low = tick_min(low, bars[t].low);
            t += 1;
        }
        let open = bars[i].open;
        let close = bars[j - 1].close;
        let ghost bucket = suffix.subrange(0, rl);
        proof {
            assert(bucket == bars@.subrange(i as int, j as int));
            assert(bucket[0] == bars@[i as int]);
            assert(bucket.last() == bars@[j - 1]);
        }
        if open == 0 || (prev_close.is_some() && close == 0) {
            let e = CoreError::Domain { date: period_start_of(g, bars[i].date) };
            proof {
                assert(suffix[0] == bars@[i as int]);
                assert(agg_rel(suffix, g, carry_view(prev_close), Err(e)));
            }
            return Err(e);
        }
        let (tr, c2c, c2c_ret): (i64, i64, Ratio) = match prev_close {
            None => (0, 0, Ratio { num: 0, den: 1 }),
            Some(pc) => {
                let trv = tick_max(
                    tick_max(high - low, tick_abs_diff(high, pc)),
                    tick_abs_diff(pc, low),
                );
                (trv, close - pc, Ratio { num: close - pc, den: close })
            },
        };
        let a = AggregatedBar {
            open,
            high,
            low,
            close,
            date: period_start_of(g, bars[i].date),
            c2c_return: c2c_ret,
            c2c,
            h2l_return: Ratio { num: high - low, den: 1 },
            h2l: high - low,
            o2c_return: Ratio { num: close - open, den: open },
            o2c: open - close,
            true_range: tr,
            true_range_pct: Ratio { num: tr, den: open },
        };
        proof {
            assert(bucket_agg(bucket, g, carry_view(prev_close), a));
            let rest = bars@.subrange(j as int, n as int);
            assert(suffix.subrange(rl, suffix.len() as int) =~= rest);
            assert forall|rr2: Result<Seq<AggregatedBar>, CoreError>|
                #[trigger] agg_rel(rest, g, Some(close as int), rr2) implies agg_rel(
                bars@,
                g,
                None,
                prepend_agg(res@.push(a), rr2),
            ) by {
                match rr2 {
                    Ok(s) => {
                        let outw = seq![a] + s;
                        assert(outw[0] == a);
                        assert(outw.subrange(1, outw.len() as int) =~= s);
                        assert(agg_rel(suffix, g, carry_view(prev_close), Ok(outw)));
                        assert(agg_rel(bars@, g, None, prepend_agg(res@, Ok(outw))));
                        assert(res@ + (seq![a] + s) =~= res@.push(a) + s);
                    },
                    Err(e) => {
                        assert(agg_rel(suffix, g, carry_view(prev_close), Err(e)));
                        assert(agg_rel(bars@, g, None, prepend_agg(res@, Err(e))));
                    },
                }
            }
        }
        res.push(a);
        prev_close = Some(close);
        i = j;
    }
    proof {
        assert(bars@.subrange(i as int, n as int) =~= Seq::<DerivedBar>::empty());
        assert(agg_rel(
            bars@.subrange(i as int, n as int),
            g,
            carry_view(prev_close),
            Ok(Seq::<AggregatedBar>::empty()),
        ));
        assert(res@ + Seq::<AggregatedBar>::empty() =~= res@);
        assert(agg_rel(bars@, g, None, Ok(res@)));
        lemma_first_period_zero(bars@, g, res@);
    }
    Ok(res)
}

} // verus!
