//! Turtle-style breakout backtest: an explicit state machine folded over a
//! date-ascending bar series. The flat state enters long above the rolling
//! window high (short below the rolling low); an open position is closed once
//! the adverse move from its entry extreme reaches the stop fraction, and
//! only closed positions are reported.

use vstd::prelude::*;
use crate::data::{
    bar_wf, date_le, date_lt, dates_ascending, in_price, lemma_seq_max_high, lemma_seq_min_low,
    lift_res, seq_max_high, seq_min_low, tick_max, tick_min, CoreError, DerivedBar, Position,
    PositionDirection, Ratio, MAX_PRICE,
};

verus! {

/// A stop fraction is a valid nonnegative ratio.
pub open spec fn stop_valid(stop: Ratio) -> bool {
    stop.num >= 0 && stop.den >= 1
}

/// The configuration a breakout run rejects up front: the window must be
/// nonempty and strictly shorter than the series, the stop fraction valid.
pub open spec fn breakout_config_ok(len: int, window: int, stop: Ratio) -> bool {
    1 <= window < len && stop_valid(stop)
}

/// The adverse move against an open position on bar `cur` has reached the
/// stop fraction of its entry extreme (compared exactly by cross
/// multiplication with the stop's positive denominator).
pub open spec fn stop_hit(p: Position, cur: DerivedBar, stop: Ratio) -> bool {
    match p.direction {
        PositionDirection::Long => p.entry_bar.high - cur.low > 0 && (p.entry_bar.high - cur.low)
            * stop.den >= stop.num * p.entry_bar.high,
        PositionDirection::Short => cur.high - p.entry_bar.low > 0 && (cur.high - p.entry_bar.low)
            * stop.den >= stop.num * p.entry_bar.low,
    }
}

/// The position `p` closed on bar `cur`.
pub open spec fn closed_at(p: Position, cur: DerivedBar) -> Position {
    Position { id: p.id, entry_bar: p.entry_bar, exit_bar: Some(cur), direction: p.direction }
}

/// A position opened on bar `cur` at index `i`.
pub open spec fn opened_at(i: int, cur: DerivedBar, direction: PositionDirection) -> Position {
    Position { id: i as usize, entry_bar: cur, exit_bar: None, direction }
}

/// One transition of the state machine at index `i`: from the flat state a
/// close-out is never emitted and a breakout above the rolling window high
/// (below the rolling low) opens a long (short); from an open state a hit
/// stop emits the closed position and returns to flat.
pub open spec fn breakout_step(
    st: Option<Position>,
    bars: Seq<DerivedBar>,
    i: int,
    window: int,
    stop: Ratio,
) -> (Option<Position>, Option<Position>) {
    let cur = bars[i];
    match st {
        None => {
            if cur.high > seq_max_high(bars.subrange(i - window, i)) {
                (Some(opened_at(i, cur, PositionDirection::Long)), None)
            } else if cur.low < seq_min_low(bars.subrange(i - window, i)) {
                (Some(opened_at(i, cur, PositionDirection::Short)), None)
            } else {
                (None, None)
            }
        },
        Some(p) => {
            if stop_hit(p, cur, stop) {
                (None, Some(closed_at(p, cur)))
            } else {
                (Some(p), None)
            }
        },
    }
}

/// The state machine folded from index `i` to the end of the series:
/// the closed positions emitted, in closing order, and the final state.
pub open spec fn breakout_fold(
    bars: Seq<DerivedBar>,
    window: int,
    stop: Ratio,
    st: Option<Position>,
    i: int,
) -> (Seq<Position>, Option<Position>)
    decreases bars.len() - i,
{
    if i < 0 || i >= bars.len() {
        (Seq::empty(), st)
    } else {
        let stepped = breakout_step(st, bars, i, window, stop);
        let rest = breakout_fold(bars, window, stop, stepped.0, i + 1);
        match stepped.1 {
            Some(p) => (seq![p] + rest.0, rest.1),
            None => rest,
        }
    }
}

/// The closed positions of a full run starting flat at index `window`; with
/// `force_close` set, a position still open at the end of data is closed on
/// the final bar and appended, otherwise it is dropped.
pub open spec fn breakout_out(
    bars: Seq<DerivedBar>,
    window: int,
    stop: Ratio,
    force_close: bool,
) -> Seq<Position> {
    let fr = breakout_fold(bars, window, stop, None, window);
    if force_close {
        match fr.1 {
            Some(p) => fr.0.push(closed_at(p, bars.last())),
            None => fr.0,
        }
    } else {
        fr.0
    }
}

/// The exit bar of a closed position (the entry bar if still open).
pub open spec fn exit_of(p: Position) -> DerivedBar {
    match p.exit_bar {
        Some(x) => x,
        None => p.entry_bar,
    }
}

/// From the flat state, a long position is opened at index `i` exactly when
/// the bar's high exceeds every high of the `window` bars before it, and a
/// short exactly when no long triggers and the bar's low undercuts every low
/// of those bars; the flat state never emits a closed position.
pub proof fn lemma_flat_entry_condition(
    bars: Seq<DerivedBar>,
    window: int,
    stop: Ratio,
    i: int,
)
    requires
        1 <= window <= i < bars.len(),
    ensures
        (breakout_step(None, bars, i, window, stop).0 == Some(
            opened_at(i, bars[i], PositionDirection::Long),
        )) <==> (forall|t: int| i - window <= t < i ==> bars[i].high > (#[trigger] bars[t]).high),
        (breakout_step(None, bars, i, window, stop).0 == Some(
            opened_at(i, bars[i], PositionDirection::Short),
        )) <==> (!(forall|t: int| i - window <= t < i ==> bars[i].high > (#[trigger] bars[t]).high)
            && forall|t: int| i - window <= t < i ==> bars[i].low < (#[trigger] bars[t]).low),
        breakout_step(None, bars, i, window, stop).1 is None,
{
    let w = bars.subrange(i - window, i);
    lemma_seq_max_high(w);
    lemma_seq_min_low(w);
    assert(w.len() == window);
    assert forall|t: int| i - window <= t < i implies #[trigger] bars[t] == w[t - (i
        - window)] by {
        assert(w[t - (i - window)] == bars[t]);
    }
    if bars[i].high > seq_max_high(w) {
        assert forall|t: int| i - window <= t < i implies bars[i].high > (
        #[trigger] bars[t]).high by {
            assert(w[t - (i - window)].high <= seq_max_high(w));
        }
    } else {
        let m = choose|k: int| 0 <= k < w.len() && (#[trigger] w[k]).high == seq_max_high(w);
        assert(bars[m + (i - window)].high == seq_max_high(w));
        assert(!(forall|t: int| i - window <= t < i ==> bars[i].high > (
        #[trigger] bars[t]).high));
    }
    if bars[i].low < seq_min_low(w) {
        assert forall|t: int| i - window <= t < i implies bars[i].low < (
        #[trigger] bars[t]).low by {
            assert(w[t - (i - window)].low >= seq_min_low(w));
        }
    } else {
        let m = choose|k: int| 0 <= k < w.len() && (#[trigger] w[k]).low == seq_min_low(w);
        assert(w[m] == bars[m + (i - window)]);
        assert(!(bars[i].low < bars[m + (i - window)].low));
        assert(!(forall|t: int| i - window <= t < i ==> bars[i].low < (#[trigger] bars[t]).low));
    }
}

/// Exact comparison `a * d >= n * b`, carried out in wider arithmetic.
fn scaled_ge(a: i64, d: i64, n: i64, b: i64) -> (r: bool)
    requires
        -2 * MAX_PRICE <= a <= 2 * MAX_PRICE,
        -MAX_PRICE <= b <= MAX_PRICE,
    ensures
        r == (a * d >= n * b),
{
    proof {
        assert(i128::MIN < (a as int) * (d as int) < i128::MAX && i128::MIN < (n as int) * (
        b as int) < i128::MAX) by (nonlinear_arith)
            requires
                -2 * MAX_PRICE <= a <= 2 * MAX_PRICE,
                -MAX_PRICE <= b <= MAX_PRICE,
                i64::MIN <= d <= i64::MAX,
                i64::MIN <= n <= i64::MAX,
        ;
    }
    let x: i128 = (a as i128) * (d as i128);
    let y: i128 = (n as i128) * (b as i128);
    x >= y
}

/// Run the breakout backtest over a date-ascending series: closed positions
/// only, in the order they closed, each entered at the bar its `id` indexes
/// and exited on a strictly later bar (the final bar, possibly the entry bar
/// itself, when a still-open position is force-closed at the end of data).
#[verifier::rlimit(100)]
#[verifier::spinoff_prover]
pub fn run_breakout(
    bars: &Vec<DerivedBar>,
    window: usize,
    stop: Ratio,
    force_close: bool,
) -> (r: Result<Vec<Position>, CoreError>)
    requires
        forall|i: int| 0 <= i < bars@.len() ==> bar_wf(#[trigger] bars@[i]),
        dates_ascending(bars@),
    ensures
        r is Err <==> !breakout_config_ok(bars@.len() as int, window as int, stop),
        r matches Err(e) ==> e == CoreError::Config,
        r matches Ok(out) ==> out@ == breakout_out(bars@, window as int, stop, force_close),
        r matches Ok(out) ==> forall|k: int|
            0 <= k < out@.len() ==> (#[trigger] out@[k]).exit_bar is Some,
        r matches Ok(out) ==> forall|k: int|
            0 <= k < out@.len() ==> window <= (#[trigger] out@[k]).id < bars@.len()
                && out@[k].entry_bar == bars@[out@[k].id as int],
        r matches Ok(out) ==> forall|k: int|
            0 <= k < out@.len() ==> date_le(
                (#[trigger] out@[k]).entry_bar.date,
                exit_of(out@[k]).date,
            ),
        r matches Ok(out) ==> (!force_close ==> forall|k: int|
            0 <= k < out@.len() ==> date_lt(
                (#[trigger] out@[k]).entry_bar.date,
                exit_of(out@[k]).date,
            )),
        r matches Ok(out) ==> forall|k: int|
            0 <= k && k + 1 < out@.len() ==> date_lt(
                exit_of(#[trigger] out@[k]).date,
                out@[k + 1].entry_bar.date,
            ),
{
    let n = bars.len();
    if window == 0 || window >= n || stop.num < 0 || stop.den < 1 {
        return Err(CoreError::Config);
    }
    let mut res: Vec<Position> = Vec::new();
    let ghost mut xs: Seq<int> = Seq::empty();
    let mut st: Option<Position> = None;
    let mut i: usize = window;
    while i < n
        invariant
            1 <= window < n,
            n == bars@.len(),
            stop_valid(stop),
            window <= i <= n,
            forall|q: int| 0 <= q < bars@.len() ==> bar_wf(#[trigger] bars@[q]),
            dates_ascending(bars@),
            breakout_fold(bars@, window as int, stop, None, window as int).0 == res@
                + breakout_fold(bars@, window as int, stop, st, i as int).0,
            breakout_fold(bars@, window as int, stop, None, window as int).1 == breakout_fold(
                bars@,
                window as int,
                stop,
                st,
                i as int,
            ).1,
            xs.len() == res@.len(),
            forall|k: int| 0 <= k < res@.len() ==> window <= (#[trigger] res@[k]).id
                && (res@[k].id as int) < xs[k] && xs[k] < i
                && res@[k].entry_bar == bars@[res@[k].id as int]
                && res@[k].exit_bar == Some(bars@[xs[k]]),
            forall|k: int| 0 <= k && k + 1 < res@.len() ==> xs[k] < (#[trigger] res@[k + 1]).id,
            match st {
                Some(p) => p.exit_bar is None && window <= p.id && (p.id as int) < i
                    && p.entry_bar == bars@[p.id as int] && (res@.len() >= 1 ==> xs.last() < p.id),
                None => res@.len() >= 1 ==> xs.last() < i,
            },
        decreases n - i,
    {
        let cur = bars[i];
        let mut rh = bars[i - window].high;
        let mut rlow = bars[i - window].low;
        proof {
            assert(bars@.subrange((i - window) as int, (i - window) as int + 1)[0] == bars@[(i
                - window) as int]);
        }
        let mut t: usize = i - window + 1;
        while t < i
            invariant
                window <= i < n,
                i - window < t <= i,
                n == bars@.len(),
                forall|q: int| 0 <= q < bars@.len() ==> bar_wf(#[trigger] bars@[q]),
                rh == seq_max_high(bars@.subrange((i - window) as int, t as int)),
                rlow == seq_min_low(bars@.subrange((i - window) as int, t as int)),
                in_price(rh),
                in_price(rlow),
            decreases i - t,
        {
            proof {
                assert(bars@.subrange((i - window) as int, t as int + 1).drop_last()
                    =~= bars@.subrange((i - window) as int, t as int));
                assert(bars@.subrange((i - window) as int, t as int + 1).last()
                    == bars@[t as int]);
            }
            rh = tick_max(rh, bars[t].high);
            rlow = tick_min(rlow, bars[t].low);
            t += 1;
        }
        let ghost old_st = st;
        let ghost old_res = res@;
        let ghost old_xs = xs;
        let ghost stepped = breakout_step(old_st, bars@, i as int, window as int, stop);
        match st {
            None => {
                if cur.high > rh {
                    st = Some(
                        Position {
                            id: i,
                            entry_bar: cur,
                            exit_bar: None,
                            direction: PositionDirection::Long,
                        },
                    );
                } else if cur.low < rlow {
                    st = Some(
                        Position {
                            id: i,
                            entry_bar: cur,
                            exit_bar: None,
                            direction: PositionDirection::Short,
                        },
                    );
                }
                proof {
                    assert(stepped.0 == st && stepped.1 is None);
                }
            },
            Some(p) => {
                let hit: bool;
                match p.direction {
                    PositionDirection::Long => {
                        let adv = p.entry_bar.high - cur.low;
                        hit = adv > 0 && scaled_ge(adv, stop.den, stop.num, p.entry_bar.high);
                    },
                    PositionDirection::Short => {
                        let adv = cur.high - p.entry_bar.low;
                        hit = adv > 0 && scaled_ge(adv, stop.den, stop.num, p.entry_bar.low);
                    },
                }
                proof {
                    assert(hit == stop_hit(p, cur, stop));
                }
                if hit {
                    let closed = Position {
                        id: p.id,
                        entry_bar: p.entry_bar,
                        exit_bar: Some(cur),
                        direction: p.direction,
                    };
                    res.push(closed);
                    proof {
                        xs = xs.push(i as int);
                        assert(res@ == old_res.push(closed));
                        assert(xs == old_xs.push(i as int));
                        assert(old_xs.len() == old_res.len());
                        assert forall|k: int| 0 <= k && k + 1 < res@.len() implies xs[k] < (
                        #[trigger] res@[k + 1]).id by {
                            assert(res@.len() == old_res.len() + 1);
                            assert(0 <= k && k + 1 <= old_res.len());
                            assert(old_xs.push(i as int)[k] == xs[k]);
                            if k + 1 < res@.len() - 1 {
                                assert(old_res.push(closed)[k + 1] == old_res[k + 1]);
                                assert(old_xs.push(i as int)[k] == old_xs[k]);
                            } else {
                                assert(old_res.push(closed)[k + 1] == closed);
                                assert(old_xs.push(i as int)[k] == old_xs[k]);
                            }
                        }
                    }
                    st = None;
                    proof {
                        assert(stepped.0 is None && stepped.1 == Some(closed_at(p, cur)));
                    }
                } else {
                    proof {
                        assert(stepped.0 == Some(p) && stepped.1 is None);
                    }
                }
            },
        }
        proof {
            let wi = window as int;
            let foldi = breakout_fold(bars@, wi, stop, old_st, i as int);
            let foldn = breakout_fold(bars@, wi, stop, st, i as int + 1);
            assert(foldi == (match stepped.1 {
                Some(p) => (seq![p] + foldn.0, foldn.1),
                None => foldn,
            }));
            match stepped.1 {
                Some(p) => {
                    assert(old_res + (seq![p] + foldn.0) =~= res@ + foldn.0);
                },
                None => {},
            }
        }
        i += 1;
    }
    let ghost base = res@;
    let ghost basexs = xs;
    proof {
        assert(breakout_fold(bars@, window as int, stop, st, i as int).0
            =~= Seq::<Position>::empty());
        assert(base + Seq::<Position>::empty() =~= base);
        assert(breakout_fold(bars@, window as int, stop, None, window as int).0 == base);
        assert(breakout_fold(bars@, window as int, stop, None, window as int).1 == st);
    }
    if force_close {
        if let Some(p) = st {
            let closed = Position {
                id: p.id,
                entry_bar: p.entry_bar,
                exit_bar: Some(bars[n - 1]),
                direction: p.direction,
            };
            res.push(closed);
            proof {
                xs = xs.push(n as int - 1);
                assert(bars@.last() == bars@[n as int - 1]);
                assert(closed == closed_at(p, bars@.last()));
                assert(res@ == breakout_out(bars@, window as int, stop, force_close));
                assert(res@ == base.push(closed));
                assert forall|k: int| 0 <= k < base.len() implies #[trigger] res@[k]
                    == base[k] by {
                    assert(base.push(closed)[k] == base[k]);
                }
                assert(base.push(closed)[base.len() as int] == closed);
                assert(res@[base.len() as int] == closed);
                assert(window <= res@[base.len() as int].id < n);
                assert(res@[base.len() as int].entry_bar == bars@[res@[base.len() as int].id
                    as int]);
                assert(res@[base.len() as int].exit_bar == Some(bars@[n as int - 1]));
                assert(base.len() >= 1 ==> basexs.last() < res@[base.len() as int].id);
            }
        } else {
            proof {
                assert(res@ == breakout_out(bars@, window as int, stop, force_close));
            }
        }
    } else {
        proof {
            assert(res@ == breakout_out(bars@, window as int, stop, force_close));
        }
    }
    proof {
        assert forall|k: int| 0 <= k < res@.len() implies window <= (#[trigger] res@[k]).id
            < bars@.len() && res@[k].entry_bar == bars@[res@[k].id as int] && res@[k].exit_bar
            is Some by {
            if k < base.len() {
                assert(res@[k] == base[k]);
            }
        }
        assert forall|k: int| 0 <= k < res@.len() implies date_le(
            (#[trigger] res@[k]).entry_bar.date,
            exit_of(res@[k]).date,
        ) by {
            if k < base.len() {
                assert(res@[k] == base[k]);
                assert(date_lt(bars@[base[k].id as int].date, bars@[basexs[k]].date));
            } else {
                if (res@[k].id as int) < n as int - 1 {
                    assert(date_lt(bars@[res@[k].id as int].date, bars@[n as int - 1].date));
                }
            }
        }
        if !force_close {
            assert forall|k: int| 0 <= k < res@.len() implies date_lt(
                (#[trigger] res@[k]).entry_bar.date,
                exit_of(res@[k]).date,
            ) by {
                assert(res@[k] == base[k]);
                assert(date_lt(bars@[base[k].id as int].date, bars@[basexs[k]].date));
            }
        }
        assert forall|k: int| 0 <= k && k + 1 < res@.len() implies date_lt(
            exit_of(#[trigger] res@[k]).date,
            res@[k + 1].entry_bar.date,
        ) by {
            assert(res@[k] == base[k]);
            if k + 1 < base.len() {
                assert(res@[k + 1] == base[k + 1]);
                assert(basexs[k] < base[k + 1].id);
                assert(date_lt(bars@[basexs[k]].date, bars@[base[k + 1].id as int].date));
            } else {
                assert(basexs[k] < res@[k + 1].id);
                assert(date_lt(bars@[basexs[k]].date, bars@[res@[k + 1].id as int].date));
            }
        }
    }
    Ok(res)
}

} // verus!
