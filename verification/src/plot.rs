//! The chart projector: computes everything a renderer needs to draw one
//! chart of one series — dot coordinates on a day-offset axis, the
//! connecting line through distinct positions, the smoothed trend path,
//! axis domains, and the min/max/average summary overlay.

use vstd::prelude::*;
use crate::model::{WeightLine, PlotType, WEIGHT_MAX_MILLI};
use crate::dates::{Date, day_number_of, to_duration};
use crate::numfmt::{tdiv, milli_label, milli_to_label};
use crate::trend::{seq_sum, spec_trend, trend_points};

verus! {

/// Why a chart could not be assembled.
#[derive(Clone, Copy, PartialEq, Eq, Structural, Debug)]
pub enum PlotError {
    /// The series holds no record: a caller-contract violation, reported
    /// rather than silently producing a blank chart.
    EmptySeries,
}

impl PlotError {
    pub fn message(&self) -> (r: &'static str)
        ensures
            r@ == "cannot plot an empty series"@,
    {
        "cannot plot an empty series"
    }
}

/// The three full-width statistic markers of a chart: lowest, highest and
/// average weight, with their one-decimal text labels, anchored at the
/// series' second dot.
#[derive(Clone, Debug, PartialEq)]
pub struct Summary {
    pub val_min: i64,
    pub val_max: i64,
    pub val_avg: i64,
    pub label_x: i64,
    pub min_label: String,
    pub max_label: String,
    pub avg_label: String,
}

/// Everything a renderer needs for one chart.  Weights are in thousandths
/// of a unit, positions in days since the series' start date.
#[derive(Clone, Debug, PartialEq)]
pub struct ChartSpec {
    pub title: String,
    pub plot_type: PlotType,
    pub start_date: Date,
    pub x_min: i64,
    pub x_max: i64,
    pub y_min: i64,
    pub y_max: i64,
    pub dots: Vec<(i64, i64)>,
    pub line_dots: Vec<(i64, i64)>,
    pub trend: Vec<(i64, i64)>,
    pub summary: Option<Summary>,
}

pub open spec fn offset_of(rec: WeightLine, d0: Date) -> int {
    day_number_of(rec.timestamp.date_spec()) - day_number_of(d0)
}

/// One dot per record: its day-offset and its weight.
pub open spec fn spec_dots(series: Seq<WeightLine>, d0: Date) -> Seq<(i64, i64)> {
    Seq::new(series.len(), |i: int| (offset_of(series[i], d0) as i64, series[i].weight))
}

/// The distinct-position dots: of each run of consecutive dots at one
/// position, only the first is kept for the line and the trend.
pub open spec fn dedup_dots(dots: Seq<(i64, i64)>) -> Seq<(i64, i64)>
    decreases dots.len(),
{
    if dots.len() == 0 {
        Seq::empty()
    } else {
        let front = dedup_dots(dots.drop_last());
        if dots.len() >= 2 && dots.last().0 == dots[dots.len() - 2].0 {
            front
        } else {
            front.push(dots.last())
        }
    }
}

pub open spec fn weights_of(series: Seq<WeightLine>) -> Seq<i64> {
    Seq::new(series.len(), |i: int| series[i].weight)
}

pub open spec fn spec_min(s: Seq<i64>) -> int
    decreases s.len(),
{
    if s.len() <= 1 {
        s[0] as int
    } else if s.last() < spec_min(s.drop_last()) {
        s.last() as int
    } else {
        spec_min(s.drop_last())
    }
}

pub open spec fn spec_max(s: Seq<i64>) -> int
    decreases s.len(),
{
    if s.len() <= 1 {
        s[0] as int
    } else if s.last() > spec_max(s.drop_last()) {
        s.last() as int
    } else {
        spec_max(s.drop_last())
    }
}

/// The summary markers say exactly what the statistics of the series are.
pub open spec fn summary_ok(sm: Summary, series: Seq<WeightLine>, d0: Date) -> bool {
    let ws = weights_of(series);
    &&& sm.val_min == spec_min(ws)
    &&& sm.val_max == spec_max(ws)
    &&& sm.val_avg == tdiv(seq_sum(ws), ws.len() as int)
    &&& sm.label_x == offset_of(series[1], d0)
    &&& sm.min_label@ == milli_label(sm.val_min as int)
    &&& sm.max_label@ == milli_label(sm.val_max as int)
    &&& sm.avg_label@ == milli_label(sm.val_avg as int)
}

/// The complete contract of one assembled chart over its series.
pub open spec fn chart_ok(
    cs: ChartSpec,
    series: Seq<WeightLine>,
    title: Seq<char>,
    pt: PlotType,
) -> bool {
    let d0 = series[0].timestamp.date_spec();
    let dots = spec_dots(series, d0);
    let line = dedup_dots(dots);
    let ws = weights_of(series);
    &&& series.len() > 0
    &&& cs.title@ == title
    &&& cs.plot_type == pt
    &&& cs.start_date == d0
    &&& cs.x_min == 0
    &&& cs.x_max == offset_of(series.last(), d0)
    &&& cs.y_min == spec_min(ws) - 5000
    &&& cs.y_max == spec_max(ws) + 5000
    &&& cs.dots@ == dots
    &&& cs.line_dots@ == line
    &&& cs.trend@ == spec_trend(line)
    &&& (cs.summary is Some <==> series.len() > 2)
    &&& (series.len() > 2 ==> summary_ok(cs.summary->Some_0, series, d0))
}

proof fn lemma_dedup_bounded(dots: Seq<(i64, i64)>)
    requires
        forall|i: int|
            0 <= i < dots.len() ==> -WEIGHT_MAX_MILLI <= (#[trigger] dots[i]).1
                <= WEIGHT_MAX_MILLI,
    ensures
        forall|i: int|
            0 <= i < dedup_dots(dots).len() ==> -WEIGHT_MAX_MILLI <= (#[trigger] dedup_dots(
                dots,
            )[i]).1 <= WEIGHT_MAX_MILLI,
    decreases dots.len(),
{
    if dots.len() == 0 {
    } else {
        assert(forall|i: int| 0 <= i < dots.drop_last().len() ==> #[trigger] dots.drop_last()[i]
            == dots[i]);
        lemma_dedup_bounded(dots.drop_last());
        let front = dedup_dots(dots.drop_last());
        assert forall|i: int|
            0 <= i < dedup_dots(dots).len() implies -WEIGHT_MAX_MILLI <= (#[trigger] dedup_dots(
            dots,
        )[i]).1 <= WEIGHT_MAX_MILLI by {
            if dots.len() >= 2 && dots.last().0 == dots[dots.len() - 2].0 {
                assert(dedup_dots(dots)[i] == front[i]);
            } else if i < front.len() {
                assert(dedup_dots(dots)[i] == front[i]);
            } else {
                assert(dedup_dots(dots)[i] == dots.last());
                assert(dots[dots.len() - 1] == dots.last());
            }
        }
    }
}

proof fn lemma_avg_in_range(sum: int, n: int)
    requires
        n >= 1,
        -(n * WEIGHT_MAX_MILLI) <= sum <= n * WEIGHT_MAX_MILLI,
    ensures
        -WEIGHT_MAX_MILLI <= tdiv(sum, n) <= WEIGHT_MAX_MILLI,
{
    if sum >= 0 {
        vstd::arithmetic::div_mod::lemma_div_is_ordered(sum, n * WEIGHT_MAX_MILLI, n);
        vstd::arithmetic::div_mod::lemma_div_by_multiple(WEIGHT_MAX_MILLI as int, n);
        vstd::arithmetic::div_mod::lemma_div_pos_is_pos(sum, n);
    } else {
        vstd::arithmetic::div_mod::lemma_div_is_ordered(-sum, n * WEIGHT_MAX_MILLI, n);
        vstd::arithmetic::div_mod::lemma_div_by_multiple(WEIGHT_MAX_MILLI as int, n);
        vstd::arithmetic::div_mod::lemma_div_pos_is_pos(-sum, n);
    }
}

/// Assembles one chart for the records `data[start..end]`: the axis
/// domains, every dot, the distinct-position line, the trend path and —
/// when the series has more than two records — the summary markers.  An
/// empty series is a contract violation and fails explicitly.
#[verifier::rlimit(100)]
pub fn plot(data: &Vec<WeightLine>, start: usize, end: usize, title: &str, plot_type: PlotType)
    -> (r: Result<ChartSpec, PlotError>)
    requires
        start <= end <= data@.len(),
        forall|i: int| start <= i < end ==> (#[trigger] data@[i]).wf(),
    ensures
        r is Ok <==> start < end,
        (r matches Ok(cs) ==> chart_ok(
            cs,
            data@.subrange(start as int, end as int),
            title@,
            plot_type,
        )),
{
    if start == end {
        return Err(PlotError::EmptySeries);
    }
    let ghost series = data@.subrange(start as int, end as int);
    let ghost ws = weights_of(series);
    proof {
        assert(forall|i: int| 0 <= i < series.len() ==> #[trigger] series[i] == data@[start + i]);
    }
    let d0 = data[start].timestamp.date();
    let n = end - start;
    let mut dots: Vec<(i64, i64)> = Vec::new();
    let mut line_dots: Vec<(i64, i64)> = Vec::new();
    let mut mn: i64 = data[start].weight;
    let mut mx: i64 = data[start].weight;
    let mut sum: i128 = 0;
    let mut t: usize = 0;
    while t < n
        invariant
            0 <= t <= n,
            n == series.len(),
            start + n == end <= data@.len(),
            series == data@.subrange(start as int, end as int),
            forall|i: int| 0 <= i < series.len() ==> #[trigger] series[i] == data@[start + i],
            forall|i: int| start <= i < end ==> (#[trigger] data@[i]).wf(),
            ws == weights_of(series),
            d0 == series[0].timestamp.date_spec(),
            d0.wf(),
            dots@.len() == t,
            forall|q: int| 0 <= q < t ==> #[trigger] dots@[q] == spec_dots(series, d0)[q],
            line_dots@ == dedup_dots(dots@),
            t >= 1 ==> mn == spec_min(ws.take(t as int)),
            t >= 1 ==> mx == spec_max(ws.take(t as int)),
            -WEIGHT_MAX_MILLI <= mn <= WEIGHT_MAX_MILLI,
            -WEIGHT_MAX_MILLI <= mx <= WEIGHT_MAX_MILLI,
            sum == seq_sum(ws.take(t as int)),
            -(t as int) * WEIGHT_MAX_MILLI <= sum <= (t as int) * WEIGHT_MAX_MILLI,
        decreases n - t,
    {
        let i = start + t;
        let off = to_duration(&data[i].timestamp, &d0);
        let w = data[i].weight;
        proof {
            assert(series[t as int] == data@[start + t]);
            assert(spec_dots(series, d0)[t as int] == (offset_of(series[t as int], d0) as i64,
                series[t as int].weight));
            assert(ws.take(t + 1).drop_last() =~= ws.take(t as int));
            assert(ws.take(t + 1).last() == ws[t as int]);
            assert(ws[t as int] == series[t as int].weight);
        }
        let ghost old_dots = dots@;
        dots.push((off, w));
        if t == 0 {
            line_dots.push((off, w));
        } else {
            let prev = dots[dots.len() - 2].0;
            if prev != off {
                line_dots.push((off, w));
            }
        }
        proof {
            assert(dots@.drop_last() =~= old_dots);
            assert(line_dots@ =~= dedup_dots(dots@));
        }
        if t == 0 {
            mn = w;
            mx = w;
        } else {
            if w < mn {
                mn = w;
            }
            if w > mx {
                mx = w;
            }
        }
        sum = sum + (w as i128);
        t = t + 1;
    }
    proof {
        assert(ws.take(n as int) =~= ws);
        assert(dots@ =~= spec_dots(series, d0));
        lemma_dedup_bounded(dots@);
    }
    let trend = trend_points(&line_dots);
    let x_max = dots[dots.len() - 1].0;
    proof {
        assert(dots@[n - 1] == spec_dots(series, d0)[n - 1]);
    }
    let summary = if n > 2 {
        proof {
            lemma_avg_in_range(seq_sum(ws), n as int);
        }
        let avg: i64 = if sum >= 0 {
            ((sum as u128) / (n as u128)) as i64
        } else {
            -((((-sum) as u128) / (n as u128)) as i64)
        };
        let label_x = dots[1].0;
        Some(
            Summary {
                val_min: mn,
                val_max: mx,
                val_avg: avg,
                label_x,
                min_label: milli_to_label(mn),
                max_label: milli_to_label(mx),
                avg_label: milli_to_label(avg),
            },
        )
    } else {
        None
    };
    Ok(
        ChartSpec {
            title: String::from_str(title),
            plot_type,
            start_date: d0,
            x_min: 0,
            x_max,
            y_min: mn - 5000,
            y_max: mx + 5000,
            dots,
            line_dots,
            trend,
            summary,
        },
    )
}

} // verus!
