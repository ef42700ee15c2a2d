//! End-to-end and per-component checks of the analysis pipeline on concrete
//! series: derivation formulas, period rollups with chaining, breakout
//! entries and exits, and the error taxonomy.

use dor::aggregator::aggregate;
use dor::data::{CoreError, Date, DerivedBar, Granularity, PositionDirection, Ratio, RawBar};
use dor::deriver::derive_bars;
use dor::strategy::run_breakout;

fn day(year: i32, month: u8, d: u8) -> Date {
    Date { year, month, day: d }
}

fn raw(date: Date, open: i64, high: i64, low: i64, close: i64) -> RawBar {
    RawBar { date, open, high, low, close, adj_close: close, volume: 1000 }
}

/// A derived-shaped bar with the statistics zeroed, as aggregator and
/// strategy inputs only read prices and dates.
fn bar(date: Date, open: i64, high: i64, low: i64, close: i64) -> DerivedBar {
    DerivedBar {
        open,
        high,
        low,
        close,
        date,
        c2c_return: Ratio { num: 0, den: 1 },
        c2c: 0,
        h2l_return: Ratio { num: 0, den: 1 },
        h2l: 0,
        o2c_return: Ratio { num: 0, den: 1 },
        o2c: 0,
        true_range: 0,
        true_range_pct: Ratio { num: 0, den: 1 },
    }
}

/// A flat bar whose open, high, low and close are all the same price.
fn flat_bar(date: Date, price: i64) -> DerivedBar {
    bar(date, price, price, price, price)
}

fn january_days(prices: &[i64]) -> Vec<RawBar> {
    let mut rows = Vec::new();
    for (i, p) in prices.iter().enumerate() {
        rows.push(raw(day(2023, 1, (i + 1) as u8), *p, *p, *p, *p));
    }
    rows
}

#[test]
fn derive_length_matches_formula() {
    let rows = january_days(&[10, 11, 12, 13, 14, 15, 16, 17, 18, 19]);
    let out = derive_bars(&rows, 1).unwrap();
    assert_eq!(out.len(), 8);
    let out3 = derive_bars(&rows, 3).unwrap();
    assert_eq!(out3.len(), 6);
}

#[test]
fn derive_short_series_is_empty() {
    let rows = january_days(&[10, 11]);
    assert_eq!(derive_bars(&rows, 5).unwrap().len(), 0);
    let empty: Vec<RawBar> = Vec::new();
    assert_eq!(derive_bars(&empty, 1).unwrap().len(), 0);
}

#[test]
fn derive_zero_period_is_config_error() {
    let rows = january_days(&[10, 11, 12]);
    assert_eq!(derive_bars(&rows, 0), Err(CoreError::Config));
}

#[test]
fn derive_zero_divisor_is_domain_error() {
    let mut rows = january_days(&[10, 11, 12, 13]);
    rows[1].close = 0;
    assert_eq!(derive_bars(&rows, 1), Err(CoreError::Domain { date: day(2023, 1, 2) }));
}

#[test]
fn derive_zero_on_unscanned_bars_is_accepted() {
    // The first `period` bars and the final bar are never scanned.
    let mut rows = january_days(&[10, 11, 12, 13]);
    rows[0].low = 0;
    rows[3].open = 0;
    assert!(derive_bars(&rows, 1).is_ok());
}

#[test]
fn derived_true_range_dominates_spread() {
    let rows = vec![
        raw(day(2023, 1, 1), 100, 108, 95, 104),
        raw(day(2023, 1, 2), 104, 112, 99, 101),
        raw(day(2023, 1, 3), 101, 105, 88, 91),
        raw(day(2023, 1, 4), 91, 93, 90, 92),
    ];
    let out = derive_bars(&rows, 1).unwrap();
    for d in &out {
        assert!(d.true_range >= d.h2l);
        assert!(d.true_range >= 0);
    }
}

#[test]
fn derived_statistics_exact() {
    let rows = vec![
        raw(day(2023, 1, 1), 100, 108, 95, 104),
        raw(day(2023, 1, 2), 105, 112, 99, 101),
        raw(day(2023, 1, 3), 101, 105, 88, 91),
    ];
    let out = derive_bars(&rows, 1).unwrap();
    assert_eq!(out.len(), 1);
    let d = &out[0];
    // Derived from rows[1] against rows[0].
    assert_eq!(d.date, day(2023, 1, 2));
    assert_eq!(d.h2l, 13);
    // max(13, |112 - 104|, |104 - 99|) = 13
    assert_eq!(d.true_range, 13);
    assert_eq!(d.true_range_pct, Ratio { num: 13, den: 105 });
    assert_eq!(d.c2c, -3);
    assert_eq!(d.c2c_return, Ratio { num: -3, den: 101 });
    assert_eq!(d.h2l_return, Ratio { num: 13, den: 99 });
    assert_eq!(d.o2c, -4);
    assert_eq!(d.o2c_return, Ratio { num: -4, den: 105 });
}

#[test]
fn five_rising_days_end_to_end() {
    // open = high = low = close = 100..104 over five consecutive days.
    let rows = january_days(&[100, 101, 102, 103, 104]);
    let out = derive_bars(&rows, 1).unwrap();
    // Indices 1..3 inclusive; the final bar is excluded.
    assert_eq!(out.len(), 3);
    for (k, d) in out.iter().enumerate() {
        assert_eq!(d.date, day(2023, 1, (k + 2) as u8));
        assert_eq!(d.c2c, 1);
        assert_eq!(d.o2c, 0);
        assert_eq!(d.true_range, 1);
        assert_eq!(d.h2l, 0);
    }
}

#[test]
fn aggregate_two_months_chains_true_range() {
    let bars = vec![
        flat_bar(day(2023, 1, 5), 10),
        flat_bar(day(2023, 1, 6), 12),
        flat_bar(day(2023, 1, 7), 9),
        flat_bar(day(2023, 2, 3), 11),
        flat_bar(day(2023, 2, 4), 15),
        flat_bar(day(2023, 2, 5), 8),
    ];
    let out = aggregate(&bars, Granularity::Month).unwrap();
    assert_eq!(out.len(), 2);
    let first = &out[0];
    assert_eq!(first.date, day(2023, 1, 1));
    assert_eq!(first.open, 10);
    assert_eq!(first.high, 12);
    assert_eq!(first.low, 9);
    assert_eq!(first.close, 9);
    assert_eq!(first.true_range, 0);
    assert_eq!(first.c2c, 0);
    assert_eq!(first.c2c_return, Ratio { num: 0, den: 1 });
    let second = &out[1];
    assert_eq!(second.date, day(2023, 2, 1));
    assert_eq!(second.open, 11);
    assert_eq!(second.high, 15);
    assert_eq!(second.low, 8);
    assert_eq!(second.close, 8);
    // max(15 - 8, |15 - 9|, |9 - 8|) = 7
    assert_eq!(second.true_range, 7);
    assert_eq!(second.c2c, -1);
    assert_eq!(second.c2c_return, Ratio { num: -1, den: 8 });
    // The aggregated h2l return keeps the flat-difference quirk.
    assert_eq!(second.h2l_return, Ratio { num: 7, den: 1 });
    assert_eq!(second.h2l, 7);
    assert_eq!(second.o2c, 3);
    assert_eq!(second.o2c_return, Ratio { num: -3, den: 11 });
    assert_eq!(second.true_range_pct, Ratio { num: 7, den: 11 });
}

#[test]
fn aggregate_quarters_by_calendar_mapping() {
    let bars = vec![
        flat_bar(day(2023, 1, 10), 10),
        flat_bar(day(2023, 3, 10), 12),
        flat_bar(day(2023, 4, 10), 14),
        flat_bar(day(2023, 12, 10), 16),
    ];
    let out = aggregate(&bars, Granularity::Quarter).unwrap();
    assert_eq!(out.len(), 3);
    assert_eq!(out[0].date, day(2023, 1, 1));
    assert_eq!(out[0].open, 10);
    assert_eq!(out[0].close, 12);
    assert_eq!(out[1].date, day(2023, 4, 1));
    assert_eq!(out[2].date, day(2023, 10, 1));
    assert_eq!(out[2].c2c, 2);
}

#[test]
fn aggregate_empty_is_empty() {
    let bars: Vec<DerivedBar> = Vec::new();
    assert_eq!(aggregate(&bars, Granularity::Month).unwrap().len(), 0);
}

#[test]
fn aggregate_zero_open_is_domain_error() {
    let bars = vec![bar(day(2023, 5, 2), 0, 5, 1, 3)];
    assert_eq!(
        aggregate(&bars, Granularity::Month),
        Err(CoreError::Domain { date: day(2023, 5, 1) })
    );
}

#[test]
fn aggregate_zero_close_without_predecessor_is_accepted() {
    // A zero close only divides once a predecessor period exists.
    let bars = vec![bar(day(2023, 5, 2), 4, 5, 0, 0)];
    let out = aggregate(&bars, Granularity::Month).unwrap();
    assert_eq!(out.len(), 1);
    assert_eq!(out[0].c2c_return, Ratio { num: 0, den: 1 });
    let chained = vec![
        bar(day(2023, 5, 2), 4, 5, 1, 3),
        bar(day(2023, 6, 2), 4, 5, 1, 0),
    ];
    assert_eq!(
        aggregate(&chained, Granularity::Month),
        Err(CoreError::Domain { date: day(2023, 6, 1) })
    );
}

#[test]
fn breakout_first_long_entry_on_window_high() {
    // Strictly rising series; window 3: bar index 3 is the first that can
    // look back, and its high 103 beats max(100, 101, 102).
    let mut bars = Vec::new();
    for k in 0..8i64 {
        bars.push(flat_bar(day(2023, 1, (k + 1) as u8), 100 + k));
    }
    // Nothing closes on a rising series unless force-closed.
    let stop = Ratio { num: 1, den: 10 };
    assert_eq!(run_breakout(&bars, 3, stop, false).unwrap().len(), 0);
    let forced = run_breakout(&bars, 3, stop, true).unwrap();
    assert_eq!(forced.len(), 1);
    assert_eq!(forced[0].id, 3);
    assert_eq!(forced[0].direction, PositionDirection::Long);
    assert_eq!(forced[0].entry_bar.date, day(2023, 1, 4));
    assert_eq!(forced[0].exit_bar.unwrap().date, day(2023, 1, 8));
}

#[test]
fn breakout_long_closed_by_stop() {
    let bars = vec![
        flat_bar(day(2023, 1, 1), 100),
        flat_bar(day(2023, 1, 2), 100),
        flat_bar(day(2023, 1, 3), 100),
        flat_bar(day(2023, 1, 4), 110),  // long entry: 110 > 100
        flat_bar(day(2023, 1, 5), 105),  // adverse 5 < 11: stays open
        flat_bar(day(2023, 1, 6), 99),   // adverse 11 >= 11: closed
        flat_bar(day(2023, 1, 7), 99),
    ];
    let out = run_breakout(&bars, 3, Ratio { num: 1, den: 10 }, false).unwrap();
    assert_eq!(out.len(), 1);
    assert_eq!(out[0].id, 3);
    assert_eq!(out[0].direction, PositionDirection::Long);
    assert_eq!(out[0].entry_bar.date, day(2023, 1, 4));
    assert_eq!(out[0].exit_bar.unwrap().date, day(2023, 1, 6));
}

#[test]
fn breakout_short_closed_by_stop() {
    let bars = vec![
        flat_bar(day(2023, 1, 1), 100),
        flat_bar(day(2023, 1, 2), 100),
        flat_bar(day(2023, 1, 3), 100),
        flat_bar(day(2023, 1, 4), 90),   // short entry: 90 < 100
        flat_bar(day(2023, 1, 5), 95),   // adverse 5 < 9: stays open
        flat_bar(day(2023, 1, 6), 99),   // adverse 9 >= 9: closed
        flat_bar(day(2023, 1, 7), 99),
    ];
    let out = run_breakout(&bars, 3, Ratio { num: 1, den: 10 }, false).unwrap();
    assert_eq!(out.len(), 1);
    assert_eq!(out[0].id, 3);
    assert_eq!(out[0].direction, PositionDirection::Short);
    assert_eq!(out[0].exit_bar.unwrap().date, day(2023, 1, 6));
}

#[test]
fn breakout_rejects_bad_configuration() {
    let bars = vec![
        flat_bar(day(2023, 1, 1), 100),
        flat_bar(day(2023, 1, 2), 100),
    ];
    let stop = Ratio { num: 1, den: 10 };
    assert_eq!(run_breakout(&bars, 0, stop, false), Err(CoreError::Config));
    assert_eq!(run_breakout(&bars, 2, stop, false), Err(CoreError::Config));
    assert_eq!(run_breakout(&bars, 5, stop, false), Err(CoreError::Config));
    assert_eq!(
        run_breakout(&bars, 1, Ratio { num: -1, den: 10 }, false),
        Err(CoreError::Config)
    );
    assert_eq!(
        run_breakout(&bars, 1, Ratio { num: 1, den: 0 }, false),
        Err(CoreError::Config)
    );
}

#[test]
fn rerunning_components_gives_identical_results() {
    let rows = january_days(&[100, 104, 99, 108, 97, 103, 111, 95, 102, 100]);
    let first = derive_bars(&rows, 2).unwrap();
    let second = derive_bars(&rows, 2).unwrap();
    assert_eq!(first, second);
    let a1 = aggregate(&first, Granularity::Month).unwrap();
    let a2 = aggregate(&second, Granularity::Month).unwrap();
    assert_eq!(a1, a2);
    let stop = Ratio { num: 1, den: 10 };
    let p1 = run_breakout(&first, 3, stop, true).unwrap();
    let p2 = run_breakout(&first, 3, stop, true).unwrap();
    assert_eq!(p1, p2);
}

#[test]
fn pipeline_derive_then_aggregate() {
    let mut rows = Vec::new();
    let prices = [100i64, 104, 99, 108, 97, 103, 111, 95, 102, 100];
    for (k, p) in prices.iter().enumerate() {
        let m = if k < 5 { 1 } else { 2 };
        let d = (k % 5 + 1) as u8;
        rows.push(raw(day(2023, m, d), *p, p + 2, p - 2, p + 1));
    }
    let derived = derive_bars(&rows, 1).unwrap();
    assert_eq!(derived.len(), 8);
    let agg = aggregate(&derived, Granularity::Month).unwrap();
    assert_eq!(agg.len(), 2);
    assert_eq!(agg[0].true_range, 0);
    assert_eq!(agg[1].date, day(2023, 2, 1));
    // Second month chained against the first month's close.
    assert_eq!(agg[1].c2c, agg[1].close - agg[0].close);
}
