//! Queries over stored rows: average load over trailing windows, and rows
//! within a timestamp range.
use vstd::prelude::*;
use crate::frame::Frame;

verus! {

/// Why a query could not be answered.
#[derive(Clone, Copy, Debug, PartialEq, Eq, Structural)]
pub enum QueryError {
    /// No sample lies in the window.
    NoData,
    /// The samples chosen for a window share one timestamp.
    AmbiguousWindow,
    /// A chosen sample lacks the high-tariff delivered energy.
    IncompleteSample,
    /// The store could not be read or written.
    StoreUnavailable,
    /// A range query lacks its `from` or `to` bound.
    MissingRangeBounds,
}

/// A stored sample as the load query reads it: capture time in seconds, and
/// the cumulative delivered energies in billionths of a kWh.
#[derive(Clone, Copy, Debug, PartialEq, Eq, Structural)]
pub struct Record {
    pub timestamp: i64,
    pub delivered_1: Option<i64>,
    pub delivered_2: Option<i64>,
}

/// A stored row: a completed frame and the time it was captured.
#[derive(Clone, Copy, Debug, PartialEq, Eq, Structural)]
pub struct Row {
    pub timestamp: i64,
    pub frame: Frame,
}

/// An average power in watts, held exactly as `num / den` with `den > 0`.
#[derive(Clone, Copy, Debug, PartialEq, Eq, Structural)]
pub struct Watts {
    pub num: i128,
    pub den: i128,
}

/// Magnitude bound on both parts of a power, and a positive denominator.
pub const WATTS_BOUND: i128 = 0x1000_0000_0000_0000_0000_0000_0000_0000;

pub open spec fn watts_bounded(w: Watts) -> bool {
    0 < w.den < WATTS_BOUND && -WATTS_BOUND < w.num < WATTS_BOUND
}

/// Nearest whole number to `num / den`, halves rounded up.
pub open spec fn rounded_spec(w: Watts) -> int {
    (2 * w.num + w.den) / (2 * w.den)
}

impl Watts {
    /// Whether `rounded` may be called on this power.
    pub fn can_round(&self) -> (r: bool)
        ensures
            r == watts_bounded(*self),
    {
        0 < self.den && self.den < WATTS_BOUND && -WATTS_BOUND < self.num && self.num < WATTS_BOUND
    }

    /// The power rounded to whole watts, halves rounded up.
    pub fn rounded(&self) -> (r: i128)
        requires
            watts_bounded(*self),
        ensures
            r == rounded_spec(*self),
    {
        let x = 2 * self.num + self.den;
        let y = 2 * self.den;
        if x >= 0 {
            x / y
        } else {
            let q = (-x) / y;
            let m = (-x) % y;
            proof {
                let xi = x as int;
                let yi = y as int;
                let qi = q as int;
                let mi = m as int;
                assert(-xi == qi * yi + mi && 0 <= mi < yi) by {
                    vstd::arithmetic::div_mod::lemma_fundamental_div_mod(-xi, yi);
                }
                if mi == 0 {
                    assert(xi == (-qi) * yi) by (nonlinear_arith)
                        requires
                            -xi == qi * yi,
                    ;
                    vstd::arithmetic::div_mod::lemma_div_multiples_vanish(-qi, yi);
                } else {
                    assert(xi == (-qi - 1) * yi + (yi - mi)) by (nonlinear_arith)
                        requires
                            -xi == qi * yi + mi,
                    ;
                    vstd::arithmetic::div_mod::lemma_fundamental_div_mod_converse(
                        xi,
                        yi,
                        -qi - 1,
                        yi - mi,
                    );
                }
            }
            if m == 0 {
                -q
            } else {
                -q - 1
            }
        }
    }
}

/// Watt-seconds in one kWh.
pub const JOULES_PER_KWH: i128 = 3_600_000;

/// Billionths in one unit: energies are held in billionths of a kWh, so a
/// power is `delta * JOULES_PER_KWH / (seconds * NANO_DEN)` watts.
pub const NANO_DEN: i128 = 1_000_000_000;

/// Average power between two samples, from the high-tariff delivered energy:
/// the energy difference over the time difference, the later sample minus
/// the earlier, whichever order they are given in.
pub open spec fn watts_between(a: Record, b: Record) -> Result<Watts, QueryError> {
    if a.timestamp == b.timestamp {
        Err(QueryError::AmbiguousWindow)
    } else {
        let (lo, hi) = if a.timestamp < b.timestamp {
            (a, b)
        } else {
            (b, a)
        };
        match (lo.delivered_2, hi.delivered_2) {
            (Some(x), Some(y)) => Ok(
                Watts {
                    num: ((y - x) * JOULES_PER_KWH) as i128,
                    den: ((hi.timestamp - lo.timestamp) * NANO_DEN) as i128,
                },
            ),
            _ => Err(QueryError::IncompleteSample),
        }
    }
}

impl Record {
    /// Average power between this sample and `other`.
    pub fn watts_since(&self, other: &Record) -> (r: Result<Watts, QueryError>)
        ensures
            r == watts_between(*self, *other),
            r matches Ok(w) ==> watts_bounded(w),
    {
        if self.timestamp == other.timestamp {
            return Err(QueryError::AmbiguousWindow);
        }
        let (lo, hi) = if self.timestamp < other.timestamp {
            (self, other)
        } else {
            (other, self)
        };
        match (lo.delivered_2, hi.delivered_2) {
            (Some(x), Some(y)) => {
                let num = ((y as i128) - (x as i128)) * JOULES_PER_KWH;
                let den = ((hi.timestamp as i128) - (lo.timestamp as i128)) * NANO_DEN;
                Ok(Watts { num, den })
            },
            _ => Err(QueryError::IncompleteSample),
        }
    }
}

/// The average power between two samples does not depend on which of the
/// two is given first.
pub proof fn lemma_watts_symmetric(a: Record, b: Record)
    ensures
        watts_between(a, b) == watts_between(b, a),
{
}

/// Seconds of slack added to each window, so that a sample just outside
/// its nominal start still counts.
pub const WINDOW_SLACK: i64 = 10;

/// The three trailing windows, in seconds.
pub const ONE_MINUTE: i64 = 60;

pub const FIVE_MINUTES: i64 = 300;

pub const FIFTEEN_MINUTES: i64 = 900;

/// Average load over the three trailing windows.
#[derive(Clone, Copy, Debug, PartialEq, Eq)]
pub struct LoadEstimate {
    pub one_minute: Result<Watts, QueryError>,
    pub five_minute: Result<Watts, QueryError>,
    pub fifteen_minute: Result<Watts, QueryError>,
}

/// Whether a sample lies in the window of `secs` seconds that ends at `now`.
pub open spec fn in_window(r: Record, now: int, secs: int) -> bool {
    r.timestamp > now - secs - WINDOW_SLACK
}

pub open spec fn window_nonempty(rows: Seq<Record>, now: int, secs: int) -> bool {
    exists|j: int| 0 <= j < rows.len() && in_window(#[trigger] rows[j], now, secs)
}

/// Rank of a sample's high-tariff delivered energy among samples that
/// share a timestamp: an absent value ranks below every present one.
pub open spec fn energy_rank(r: Record) -> int {
    match r.delivered_2 {
        Some(x) => x as int,
        None => i64::MIN - 1,
    }
}

/// Samples ordered by timestamp, then by `energy_rank`. Rows equal in this
/// order give the same power with any other row.
pub open spec fn sample_le(a: Record, b: Record) -> bool {
    a.timestamp < b.timestamp || (a.timestamp == b.timestamp && energy_rank(a) <= energy_rank(b))
}

/// Row `i` is a least sample of the window in `sample_le` order.
pub open spec fn is_earliest(rows: Seq<Record>, now: int, secs: int, i: int) -> bool {
    0 <= i < rows.len() && in_window(rows[i], now, secs) && forall|j: int|
        0 <= j < rows.len() && in_window(#[trigger] rows[j], now, secs) ==> sample_le(
            rows[i],
            rows[j],
        )
}

/// Row `i` is a greatest sample of the window in `sample_le` order.
pub open spec fn is_latest(rows: Seq<Record>, now: int, secs: int, i: int) -> bool {
    0 <= i < rows.len() && in_window(rows[i], now, secs) && forall|j: int|
        0 <= j < rows.len() && in_window(#[trigger] rows[j], now, secs) ==> sample_le(
            rows[j],
            rows[i],
        )
}

/// Average load over the window of `secs` seconds: from its earliest sample
/// to the latest sample of the fifteen-minute window.
pub open spec fn window_load(rows: Seq<Record>, now: int, secs: int) -> Result<Watts, QueryError> {
    if window_nonempty(rows, now, secs) {
        let s = choose|i: int| is_earliest(rows, now, secs, i);
        let e = choose|i: int| is_latest(rows, now, FIFTEEN_MINUTES as int, i);
        watts_between(rows[s], rows[e])
    } else {
        Err(QueryError::NoData)
    }
}

/// The load estimate at `now` from the stored samples.
pub open spec fn load_spec(now: int, rows: Seq<Record>) -> Result<LoadEstimate, QueryError> {
    if window_nonempty(rows, now, FIFTEEN_MINUTES as int) {
        Ok(
            LoadEstimate {
                one_minute: window_load(rows, now, ONE_MINUTE as int),
                five_minute: window_load(rows, now, FIVE_MINUTES as int),
                fifteen_minute: window_load(rows, now, FIFTEEN_MINUTES as int),
            },
        )
    } else {
        Err(QueryError::NoData)
    }
}

/// Two samples equal in `sample_le` order give the same power with any
/// other sample.
proof fn lemma_same_rank(a: Record, b: Record, c: Record)
    requires
        sample_le(a, b),
        sample_le(b, a),
    ensures
        watts_between(a, c) == watts_between(b, c),
        watts_between(c, a) == watts_between(c, b),
{
    assert(a.timestamp == b.timestamp);
    assert(a.delivered_2 == b.delivered_2);
}

fn rank_lt(a: Option<i64>, b: Option<i64>) -> (r: bool)
    ensures
        r == (energy_rank(Record { timestamp: 0, delivered_1: None, delivered_2: a }) < energy_rank(
            Record { timestamp: 0, delivered_1: None, delivered_2: b },
        )),
{
    match (a, b) {
        (Some(x), Some(y)) => x < y,
        (None, Some(_)) => true,
        _ => false,
    }
}

/// Whether `a` comes strictly before `b` in `sample_le` order.
fn sample_lt(a: &Record, b: &Record) -> (r: bool)
    ensures
        r == !sample_le(*b, *a),
{
    a.timestamp < b.timestamp || (a.timestamp == b.timestamp && rank_lt(a.delivered_2, b.delivered_2))
}

/// A least (or, with `latest`, a greatest) sample of the window of `secs`
/// seconds ending at `now`.
fn pick_in_window(rows: &Vec<Record>, now: i64, secs: i64, latest: bool) -> (r: Option<usize>)
    requires
        0 <= secs <= FIFTEEN_MINUTES,
    ensures
        match r {
            Some(i) => if latest {
                is_latest(rows@, now as int, secs as int, i as int)
            } else {
                is_earliest(rows@, now as int, secs as int, i as int)
            },
            None => !window_nonempty(rows@, now as int, secs as int),
        },
{
    let threshold: i128 = (now as i128) - (secs as i128) - (WINDOW_SLACK as i128);
    let mut best: Option<usize> = None;
    let mut i: usize = 0;
    while i < rows.len()
        invariant
            i <= rows@.len(),
            threshold == now - secs - WINDOW_SLACK,
            match best {
                Some(b) => b < i && in_window(rows@[b as int], now as int, secs as int) && forall|
                    j: int,
                |
                    0 <= j < i && in_window(#[trigger] rows@[j], now as int, secs as int) ==> if latest {
                        sample_le(rows@[j], rows@[b as int])
                    } else {
                        sample_le(rows@[b as int], rows@[j])
                    },
                None => forall|j: int|
                    0 <= j < i ==> !in_window(#[trigger] rows@[j], now as int, secs as int),
            },
        decreases rows@.len() - i,
    {
        let t = rows[i].timestamp;
        if (t as i128) > threshold {
            match best {
                None => {
                    best = Some(i);
                },
                Some(b) => {
                    let better = if latest {
                        sample_lt(&rows[b], &rows[i])
                    } else {
                        sample_lt(&rows[i], &rows[b])
                    };
                    if better {
                        best = Some(i);
                    }
                },
            }
        }
        i = i + 1;
    }
    best
}

/// Average load over the trailing one, five and fifteen minutes at `now`,
/// from the stored samples. Each window runs from its earliest sample to the
/// latest sample of the fifteen-minute window, ties in timestamp broken by
/// `energy_rank`, so the result depends on which rows are given and not on
/// their order. A sample counts for a window when its timestamp is after the
/// window's start less `WINDOW_SLACK`.
pub fn load_estimate(now: i64, rows: &Vec<Record>) -> (r: Result<LoadEstimate, QueryError>)
    ensures
        r == load_spec(now as int, rows@),
        r matches Ok(est) ==> (est.one_minute matches Ok(w) ==> watts_bounded(w)) && (
        est.five_minute matches Ok(w) ==> watts_bounded(w)) && (est.fifteen_minute matches Ok(
            w,
        ) ==> watts_bounded(w)),
{
    let end = match pick_in_window(rows, now, FIFTEEN_MINUTES, true) {
        Some(e) => e,
        None => {
            return Err(QueryError::NoData);
        },
    };
    let one_minute = window_estimate(rows, now, ONE_MINUTE, end);
    let five_minute = window_estimate(rows, now, FIVE_MINUTES, end);
    let fifteen_minute = window_estimate(rows, now, FIFTEEN_MINUTES, end);
    Ok(LoadEstimate { one_minute, five_minute, fifteen_minute })
}

fn window_estimate(rows: &Vec<Record>, now: i64, secs: i64, end: usize) -> (r: Result<
    Watts,
    QueryError,
>)
    requires
        0 <= secs <= FIFTEEN_MINUTES,
        is_latest(rows@, now as int, FIFTEEN_MINUTES as int, end as int),
    ensures
        r == window_load(rows@, now as int, secs as int),
        r matches Ok(w) ==> watts_bounded(w),
{
    match pick_in_window(rows, now, secs, false) {
        Some(s) => {
            proof {
                let g = rows@;
                let cs = choose|i: int| is_earliest(g, now as int, secs as int, i);
                let ce = choose|i: int| is_latest(g, now as int, FIFTEEN_MINUTES as int, i);
                assert(in_window(g[cs], now as int, secs as int));
                assert(in_window(g[s as int], now as int, secs as int));
                assert(in_window(g[ce], now as int, FIFTEEN_MINUTES as int));
                assert(in_window(g[end as int], now as int, FIFTEEN_MINUTES as int));
                lemma_same_rank(g[s as int], g[cs], g[end as int]);
                lemma_same_rank(g[end as int], g[ce], g[cs]);
            }
            rows[s].watts_since(&rows[end])
        },
        None => Err(QueryError::NoData),
    }
}

/// The load at `now` when every sample of the fifteen-minute window shares
/// one timestamp: each window that holds a sample is ambiguous, and each that
/// holds none has no data.
pub proof fn lemma_single_timestamp_ambiguous(now: int, rows: Seq<Record>)
    requires
        window_nonempty(rows, now, FIFTEEN_MINUTES as int),
        forall|i: int, j: int|
            0 <= i < rows.len() && 0 <= j < rows.len() && in_window(
                #[trigger] rows[i],
                now,
                FIFTEEN_MINUTES as int,
            ) && in_window(#[trigger] rows[j], now, FIFTEEN_MINUTES as int) ==> rows[i].timestamp
                == rows[j].timestamp,
    ensures
        load_spec(now, rows) matches Ok(est) && est.fifteen_minute == Err::<Watts, QueryError>(
            QueryError::AmbiguousWindow,
        ) && est.five_minute == (if window_nonempty(rows, now, FIVE_MINUTES as int) {
            Err::<Watts, QueryError>(QueryError::AmbiguousWindow)
        } else {
            Err(QueryError::NoData)
        }) && est.one_minute == (if window_nonempty(rows, now, ONE_MINUTE as int) {
            Err::<Watts, QueryError>(QueryError::AmbiguousWindow)
        } else {
            Err(QueryError::NoData)
        }),
{
    lemma_window_exists(rows, now, FIFTEEN_MINUTES as int, true);
    let e = choose|i: int| is_latest(rows, now, FIFTEEN_MINUTES as int, i);
    lemma_window_exists(rows, now, FIFTEEN_MINUTES as int, false);
    let s15 = choose|i: int| is_earliest(rows, now, FIFTEEN_MINUTES as int, i);
    assert(rows[s15].timestamp == rows[e].timestamp);
    if window_nonempty(rows, now, FIVE_MINUTES as int) {
        lemma_window_exists(rows, now, FIVE_MINUTES as int, false);
        let s5 = choose|i: int| is_earliest(rows, now, FIVE_MINUTES as int, i);
        assert(in_window(rows[s5], now, FIFTEEN_MINUTES as int));
        assert(rows[s5].timestamp == rows[e].timestamp);
    }
    if window_nonempty(rows, now, ONE_MINUTE as int) {
        lemma_window_exists(rows, now, ONE_MINUTE as int, false);
        let s1 = choose|i: int| is_earliest(rows, now, ONE_MINUTE as int, i);
        assert(in_window(rows[s1], now, FIFTEEN_MINUTES as int));
        assert(rows[s1].timestamp == rows[e].timestamp);
    }
}

/// A window that holds a sample has a least and a greatest one.
proof fn lemma_window_exists(rows: Seq<Record>, now: int, secs: int, latest: bool)
    requires
        window_nonempty(rows, now, secs),
    ensures
        latest ==> exists|i: int| is_latest(rows, now, secs, i),
        !latest ==> exists|i: int| is_earliest(rows, now, secs, i),
    decreases rows.len(),
{
    let w = choose|j: int| 0 <= j < rows.len() && in_window(#[trigger] rows[j], now, secs);
    let shorter = rows.drop_last();
    let last = rows.len() - 1;
    if window_nonempty(shorter, now, secs) {
        lemma_window_exists(shorter, now, secs, latest);
        if latest {
            let b = choose|i: int| is_latest(shorter, now, secs, i);
            let pick = if in_window(rows[last], now, secs) && sample_le(rows[b], rows[last]) {
                last
            } else {
                b
            };
            assert forall|j: int| 0 <= j < rows.len() && in_window(#[trigger] rows[j], now, secs) implies sample_le(
                rows[j],
                rows[pick],
            ) by {
                if j < last {
                    assert(shorter[j] == rows[j]);
                }
            }
            assert(is_latest(rows, now, secs, pick));
        } else {
            let b = choose|i: int| is_earliest(shorter, now, secs, i);
            let pick = if in_window(rows[last], now, secs) && sample_le(rows[last], rows[b]) {
                last
            } else {
                b
            };
            assert forall|j: int| 0 <= j < rows.len() && in_window(#[trigger] rows[j], now, secs) implies sample_le(
                rows[pick],
                rows[j],
            ) by {
                if j < last {
                    assert(shorter[j] == rows[j]);
                }
            }
            assert(is_earliest(rows, now, secs, pick));
        }
    } else {
        assert(w == last) by {
            if w < last {
                assert(shorter[w] == rows[w]);
            }
        }
        assert forall|j: int| 0 <= j < rows.len() && in_window(#[trigger] rows[j], now, secs) implies j == last by {
            if j < last {
                assert(shorter[j] == rows[j]);
            }
        }
        if latest {
            assert(is_latest(rows, now, secs, last));
        } else {
            assert(is_earliest(rows, now, secs, last));
        }
    }
}

/// A least (or greatest) sample of a window is one in any sequence that
/// holds the same rows.
proof fn lemma_extreme_carries(
    rows: Seq<Record>,
    other: Seq<Record>,
    now: int,
    secs: int,
    i: int,
    latest: bool,
)
    requires
        forall|r: Record| rows.contains(r) <==> other.contains(r),
        latest ==> is_latest(rows, now, secs, i),
        !latest ==> is_earliest(rows, now, secs, i),
    ensures
        exists|j: int|
            0 <= j < other.len() && other[j] == rows[i] && (if latest {
                is_latest(other, now, secs, j)
            } else {
                is_earliest(other, now, secs, j)
            }),
{
    assert(rows.contains(rows[i]));
    let j = choose|j: int| 0 <= j < other.len() && other[j] == rows[i];
    assert forall|k: int| 0 <= k < other.len() && in_window(#[trigger] other[k], now, secs) implies (
    if latest {
        sample_le(other[k], other[j])
    } else {
        sample_le(other[j], other[k])
    }) by {
        assert(other.contains(other[k]));
        let m = choose|m: int| 0 <= m < rows.len() && rows[m] == other[k];
        assert(in_window(rows[m], now, secs));
    }
    if latest {
        assert(is_latest(other, now, secs, j));
    } else {
        assert(is_earliest(other, now, secs, j));
    }
}

proof fn lemma_window_load_same_rows(rows: Seq<Record>, other: Seq<Record>, now: int, secs: int)
    requires
        forall|r: Record| rows.contains(r) <==> other.contains(r),
        0 <= secs <= FIFTEEN_MINUTES,
    ensures
        window_nonempty(rows, now, secs) == window_nonempty(other, now, secs),
        window_load(rows, now, secs) == window_load(other, now, secs),
{
    if window_nonempty(rows, now, secs) {
        let w = choose|j: int| 0 <= j < rows.len() && in_window(#[trigger] rows[j], now, secs);
        assert(rows.contains(rows[w]));
        let w2 = choose|j: int| 0 <= j < other.len() && other[j] == rows[w];
        assert(in_window(other[w2], now, secs));
    }
    if window_nonempty(other, now, secs) {
        let w = choose|j: int| 0 <= j < other.len() && in_window(#[trigger] other[j], now, secs);
        assert(other.contains(other[w]));
        let w2 = choose|j: int| 0 <= j < rows.len() && rows[j] == other[w];
        assert(in_window(rows[w2], now, secs));
    }
    if window_nonempty(rows, now, secs) {
        let fifteen = FIFTEEN_MINUTES as int;
        assert(window_nonempty(rows, now, fifteen)) by {
            let w = choose|j: int| 0 <= j < rows.len() && in_window(#[trigger] rows[j], now, secs);
            assert(in_window(rows[w], now, fifteen));
        }
        lemma_window_exists(rows, now, secs, false);
        lemma_window_exists(rows, now, fifteen, true);
        lemma_window_exists(other, now, secs, false);
        lemma_window_exists(other, now, fifteen, true);
        let s1 = choose|i: int| is_earliest(rows, now, secs, i);
        let e1 = choose|i: int| is_latest(rows, now, fifteen, i);
        let s2 = choose|i: int| is_earliest(other, now, secs, i);
        let e2 = choose|i: int| is_latest(other, now, fifteen, i);
        lemma_extreme_carries(rows, other, now, secs, s1, false);
        lemma_extreme_carries(rows, other, now, fifteen, e1, true);
        let js = choose|j: int|
            0 <= j < other.len() && other[j] == rows[s1] && (if false {
                is_latest(other, now, secs, j)
            } else {
                is_earliest(other, now, secs, j)
            });
        let je = choose|j: int|
            0 <= j < other.len() && other[j] == rows[e1] && (if true {
                is_latest(other, now, fifteen, j)
            } else {
                is_earliest(other, now, fifteen, j)
            });
        assert(in_window(other[js], now, secs));
        assert(in_window(other[s2], now, secs));
        assert(in_window(other[je], now, fifteen));
        assert(in_window(other[e2], now, fifteen));
        lemma_same_rank(rows[s1], other[s2], rows[e1]);
        lemma_same_rank(rows[e1], other[e2], other[s2]);
    }
}

/// The load estimate depends only on which rows are given, not on their
/// order or on how often a row repeats.
pub proof fn lemma_load_order_independent(now: int, rows: Seq<Record>, other: Seq<Record>)
    requires
        forall|r: Record| rows.contains(r) <==> other.contains(r),
    ensures
        load_spec(now, rows) == load_spec(now, other),
{
    lemma_window_load_same_rows(rows, other, now, ONE_MINUTE as int);
    lemma_window_load_same_rows(rows, other, now, FIVE_MINUTES as int);
    lemma_window_load_same_rows(rows, other, now, FIFTEEN_MINUTES as int);
}

/// Whether a row's timestamp lies in `[from, to]`.
pub open spec fn in_range(r: Row, from: int, to: int) -> bool {
    from <= r.timestamp <= to
}

/// The bounds of a range query, when both are given.
pub fn range_bounds(from: Option<i64>, to: Option<i64>) -> (r: Result<(i64, i64), QueryError>)
    ensures
        r == match (from, to) {
            (Some(f), Some(t)) => Ok((f, t)),
            _ => Err(QueryError::MissingRangeBounds),
        },
{
    match (from, to) {
        (Some(f), Some(t)) => Ok((f, t)),
        _ => Err(QueryError::MissingRangeBounds),
    }
}

/// The rows whose timestamp lies in `[from, to]`, both ends included, in
/// the order given.
pub fn select_range(from: i64, to: i64, rows: &Vec<Row>) -> (r: Vec<Row>)
    ensures
        r@ == range_filter(rows@, from as int, to as int),
{
    let ghost pred = |x: Row| in_range(x, from as int, to as int);
    let mut out: Vec<Row> = Vec::new();
    let mut i: usize = 0;
    proof {
        reveal(Seq::filter);
        assert(rows@.subrange(0, 0) =~= Seq::<Row>::empty());
    }
    while i < rows.len()
        invariant
            i <= rows@.len(),
            pred == (|x: Row| in_range(x, from as int, to as int)),
            out@ == rows@.subrange(0, i as int).filter(pred),
        decreases rows@.len() - i,
    {
        proof {
            reveal(Seq::filter);
            assert(rows@.subrange(0, i + 1).drop_last() =~= rows@.subrange(0, i as int));
        }
        let row = rows[i];
        if from <= row.timestamp && row.timestamp <= to {
            out.push(row);
        }
        i = i + 1;
    }
    proof {
        assert(rows@.subrange(0, rows@.len() as int) =~= rows@);
    }
    out
}

/// The rows of `rows` whose timestamp lies in `[from, to]`, in order.
pub open spec fn range_filter(rows: Seq<Row>, from: int, to: int) -> Seq<Row> {
    rows.filter(|x: Row| in_range(x, from, to))
}

proof fn lemma_filter_within(rows: Seq<Row>, pred: spec_fn(Row) -> bool, r: Row)
    requires
        rows.filter(pred).contains(r),
    ensures
        rows.contains(r),
    decreases rows.len(),
{
    reveal(Seq::filter);
    if rows.len() > 0 {
        let shorter = rows.drop_last();
        if shorter.filter(pred).contains(r) {
            lemma_filter_within(shorter, pred, r);
            let i = choose|i: int| 0 <= i < shorter.len() && shorter[i] == r;
            assert(rows[i] == r);
        } else {
            assert(r == rows.last());
            assert(rows[rows.len() - 1] == r);
        }
    }
}

/// Every row in `[from, to]` is selected, and only those.
pub proof fn lemma_range_exact(from: int, to: int, rows: Seq<Row>)
    ensures
        forall|r: Row|
            #[trigger] range_filter(rows, from, to).contains(r) <==> rows.contains(r) && in_range(
                r,
                from,
                to,
            ),
{
    let pred = |x: Row| in_range(x, from, to);
    assert forall|r: Row| #[trigger] range_filter(rows, from, to).contains(r) <==> rows.contains(r)
        && in_range(r, from, to) by {
        if rows.contains(r) && in_range(r, from, to) {
            let i = choose|i: int| 0 <= i < rows.len() && rows[i] == r;
            rows.lemma_filter_contains(pred, i);
        }
        if rows.filter(pred).contains(r) {
            let i = choose|i: int| 0 <= i < rows.filter(pred).len() && rows.filter(pred)[i] == r;
            rows.lemma_filter_pred(pred, i);
            lemma_filter_within(rows, pred, r);
        }
    }
}

} // verus!
