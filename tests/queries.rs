use smartmeter::frame::Frame;
use smartmeter::query::{load_estimate, range_bounds, select_range, QueryError, Record, Row, Watts};

fn rec(timestamp: i64, high: Option<i64>) -> Record {
    Record { timestamp, delivered_1: None, delivered_2: high }
}

fn row(timestamp: i64) -> Row {
    Row { timestamp, frame: Frame::empty() }
}

#[test]
fn one_kwh_over_one_hour_is_one_kilowatt() {
    let a = rec(0, Some(10_000_000_000));
    let b = rec(3600, Some(11_000_000_000));
    let w = b.watts_since(&a).unwrap();
    assert_eq!(w.num, 1000 * w.den);
    assert_eq!(w.rounded(), 1000);
}

#[test]
fn rate_does_not_depend_on_argument_order() {
    let a = rec(100, Some(5_000_000_000));
    let b = rec(400, Some(5_300_000_000));
    assert_eq!(a.watts_since(&b), b.watts_since(&a));
    assert_eq!(a.watts_since(&b).unwrap().rounded(), 3600);
}

#[test]
fn same_timestamp_is_ambiguous() {
    let a = rec(50, Some(1));
    let b = rec(50, Some(2));
    assert_eq!(a.watts_since(&b), Err(QueryError::AmbiguousWindow));
}

#[test]
fn missing_energy_is_incomplete() {
    let a = rec(0, None);
    let b = rec(60, Some(2));
    assert_eq!(a.watts_since(&b), Err(QueryError::IncompleteSample));
    assert_eq!(b.watts_since(&a), Err(QueryError::IncompleteSample));
}

#[test]
fn rounding_halves_up() {
    assert_eq!(Watts { num: 3, den: 2 }.rounded(), 2);
    assert_eq!(Watts { num: -3, den: 2 }.rounded(), -1);
    assert_eq!(Watts { num: -7, den: 2 }.rounded(), -3);
    assert_eq!(Watts { num: 7, den: 3 }.rounded(), 2);
    assert_eq!(Watts { num: -7, den: 3 }.rounded(), -2);
    assert!(Watts { num: 1, den: 1 }.can_round());
    assert!(!Watts { num: 1, den: 0 }.can_round());
}

#[test]
fn load_with_no_rows_has_no_data() {
    assert_eq!(load_estimate(10_000, &Vec::new()), Err(QueryError::NoData));
    let old = vec![rec(0, Some(1))];
    assert_eq!(load_estimate(10_000, &old), Err(QueryError::NoData));
}

#[test]
fn load_over_three_windows() {
    let now = 10_000;
    // 1 kWh per hour throughout: 1000 W in every window.
    let rows = vec![
        rec(now - 900, Some(0)),
        rec(now - 300, Some(600 * 1_000_000_000 / 3600)),
        rec(now - 60, Some(840 * 1_000_000_000 / 3600)),
        rec(now, Some(900 * 1_000_000_000 / 3600)),
    ];
    let est = load_estimate(now, &rows).unwrap();
    assert_eq!(est.one_minute.unwrap().rounded(), 1000);
    assert_eq!(est.five_minute.unwrap().rounded(), 1000);
    assert_eq!(est.fifteen_minute.unwrap().rounded(), 1000);
}

#[test]
fn load_selects_by_timestamp_not_position() {
    let now = 10_000;
    let rows = vec![
        rec(now, Some(3_600_000_000)),
        rec(now - 900, Some(0)),
        rec(now - 1800, Some(1)),
    ];
    // The slack admits rows up to 910 s old; the row 1800 s old is out.
    let est = load_estimate(now, &rows).unwrap();
    let w = est.fifteen_minute.unwrap();
    assert_eq!(w, rows[1].watts_since(&rows[0]).unwrap());
    assert_eq!(est.one_minute, Err(QueryError::AmbiguousWindow));
}

#[test]
fn window_slack_admits_sample_just_outside() {
    let now = 1_000;
    let rows = vec![rec(now - 69, Some(0)), rec(now, Some(1_000_000_000))];
    let est = load_estimate(now, &rows).unwrap();
    assert_eq!(est.one_minute, rows[0].watts_since(&rows[1]));
    let rows = vec![rec(now - 70, Some(0)), rec(now, Some(1_000_000_000))];
    let est = load_estimate(now, &rows).unwrap();
    assert_eq!(est.one_minute, Err(QueryError::AmbiguousWindow));
    assert_eq!(est.five_minute, rows[0].watts_since(&rows[1]));
}

#[test]
fn two_rows_same_timestamp_are_ambiguous() {
    let now = 5_000;
    let rows = vec![rec(now - 10, Some(1)), rec(now - 10, Some(2))];
    let est = load_estimate(now, &rows).unwrap();
    assert_eq!(est.one_minute, Err(QueryError::AmbiguousWindow));
    assert_eq!(est.five_minute, Err(QueryError::AmbiguousWindow));
    assert_eq!(est.fifteen_minute, Err(QueryError::AmbiguousWindow));
}

#[test]
fn short_window_without_sample_has_no_data() {
    let now = 5_000;
    let rows = vec![rec(now - 800, Some(0)), rec(now - 400, Some(1_000_000))];
    let est = load_estimate(now, &rows).unwrap();
    assert_eq!(est.one_minute, Err(QueryError::NoData));
    assert_eq!(est.five_minute, Err(QueryError::NoData));
    assert!(est.fifteen_minute.is_ok());
}

#[test]
fn incomplete_sample_in_window() {
    let now = 5_000;
    let rows = vec![rec(now - 800, None), rec(now - 30, Some(1)), rec(now, Some(2))];
    let est = load_estimate(now, &rows).unwrap();
    assert_eq!(est.fifteen_minute, Err(QueryError::IncompleteSample));
    assert!(est.one_minute.is_ok());
}

#[test]
fn range_is_inclusive_on_both_ends() {
    let rows = vec![row(5), row(10), row(15), row(20), row(25), row(15)];
    let got = select_range(10, 20, &rows);
    let stamps: Vec<i64> = got.iter().map(|r| r.timestamp).collect();
    assert_eq!(stamps, vec![10, 15, 20, 15]);
}

#[test]
fn range_with_no_rows_is_empty() {
    let rows = vec![row(5), row(30)];
    assert!(select_range(10, 20, &rows).is_empty());
    assert!(select_range(20, 10, &rows).is_empty());
}

#[test]
fn range_needs_both_bounds() {
    assert_eq!(range_bounds(None, Some(5)), Err(QueryError::MissingRangeBounds));
    assert_eq!(range_bounds(Some(5), None), Err(QueryError::MissingRangeBounds));
    assert_eq!(range_bounds(None, None), Err(QueryError::MissingRangeBounds));
    assert_eq!(range_bounds(Some(1), Some(2)), Ok((1, 2)));
}

#[test]
fn tied_rows_give_the_same_load_in_any_order() {
    let now = 1_000;
    let a = rec(1_000, Some(5_000_000_000));
    let b = rec(1_000, Some(6_000_000_000));
    let c = rec(100, Some(0));
    let orders = [
        vec![a, b, c],
        vec![b, a, c],
        vec![c, a, b],
        vec![c, b, a],
    ];
    let first = load_estimate(now, &orders[0]).unwrap();
    for rows in &orders[1..] {
        assert_eq!(load_estimate(now, rows).unwrap(), first);
    }
    // The end is the tied row with the larger energy.
    assert_eq!(first.fifteen_minute, c.watts_since(&b));
}

#[test]
fn tied_start_prefers_smaller_energy() {
    let now = 1_000;
    let rows = vec![rec(500, Some(2_000_000_000)), rec(500, Some(1_000_000_000)), rec(1_000, Some(3_000_000_000))];
    let est = load_estimate(now, &rows).unwrap();
    assert_eq!(est.fifteen_minute, rows[1].watts_since(&rows[2]));
}
