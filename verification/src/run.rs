//! The orchestration of one run: titles and file names for every chart,
//! and the full pipeline from raw lines to a deterministic set of chart
//! requests — the whole series first, then each year ascending, then each
//! year's months ascending.

use vstd::prelude::*;
use crate::model::{WeightLine, PlotType, all_wf, sorted_by_ts};
use crate::agg::{Aggregation, YearBucket, fill_maps};
use crate::numfmt::{dec_string, u64_to_string};
use crate::parse::{Diagnostic, records_of, diags_of, parse_file, lemma_records_wf};
use crate::plot::{ChartSpec, PlotError, Summary, chart_ok, plot};
use crate::sort::{spec_sort, sort_records, lemma_spec_sort_wf, lemma_spec_sort_sorted};

verus! {

/// One chart to render: the output file's path, the chart's title, and the
/// assembled chart — or the error that explains its absence.
#[derive(Debug, PartialEq)]
pub struct ChartJob {
    pub path: String,
    pub title: String,
    pub result: Result<ChartSpec, PlotError>,
}

/// Every chart of one run, in rendering order.
#[derive(Debug, PartialEq)]
pub struct ChartSet {
    pub complete: ChartJob,
    pub years: Vec<ChartJob>,
    pub months: Vec<ChartJob>,
}

/// A year chart's title: the year, then `_full`.
pub open spec fn year_title(y: u32) -> Seq<char> {
    dec_string(y as int) + "_full"@
}

/// A month's two-digit key: zero-padded below ten.
pub open spec fn month_pad(m: u32) -> Seq<char> {
    if m < 10 {
        seq!['0'] + dec_string(m as int)
    } else {
        dec_string(m as int)
    }
}

/// A month chart's title: the year, an underscore, the padded month.
pub open spec fn month_title(y: u32, m: u32) -> Seq<char> {
    dec_string(y as int) + "_"@ + month_pad(m)
}

/// What a finished chart job promises: its title, its `.png` path derived
/// from the title, and a chart that meets the full chart contract for its
/// series — present exactly when the series is non-empty.
pub open spec fn job_ok(
    job: ChartJob,
    data: Seq<WeightLine>,
    start: int,
    end: int,
    title: Seq<char>,
    pt: PlotType,
) -> bool {
    &&& job.title@ == title
    &&& job.path@ == title + ".png"@
    &&& (job.result is Ok <==> start < end)
    &&& (job.result matches Ok(cs) ==> chart_ok(cs, data.subrange(start, end), title, pt))
}

/// The output file's name for a chart title.
pub fn build_path(title: &str) -> (r: String)
    ensures
        r@ == title@ + ".png"@,
{
    let path = String::from_str(title);
    proof {
        reveal_strlit(".png");
    }
    path.concat(".png")
}

/// Builds the chart job of one series: path, title, and assembled chart.
pub fn plot_wrapper(
    data: &Vec<WeightLine>,
    start: usize,
    end: usize,
    title: &str,
    plot_type: PlotType,
) -> (r: ChartJob)
    requires
        start <= end <= data@.len(),
        forall|i: int| start <= i < end ==> (#[trigger] data@[i]).wf(),
    ensures
        job_ok(r, data@, start as int, end as int, title@, plot_type),
{
    let path = build_path(title);
    let result = plot(data, start, end, title, plot_type);
    ChartJob { path, title: String::from_str(title), result }
}

/// The whole-series chart, titled `complete`.
pub fn plot_wrapper_complete(data: &Vec<WeightLine>) -> (r: ChartJob)
    requires
        all_wf(data@),
    ensures
        job_ok(r, data@, 0, data@.len() as int, "complete"@, PlotType::FULL),
{
    plot_wrapper(data, 0, data.len(), "complete", PlotType::FULL)
}

/// One chart per year bucket, in ascending year order.
pub fn plot_wrapper_year(data: &Vec<WeightLine>, agg: &Aggregation) -> (r: Vec<ChartJob>)
    requires
        agg.wf(data@),
        all_wf(data@),
    ensures
        r@.len() == agg.years@.len(),
        forall|k: int|
            0 <= k < r@.len() ==> job_ok(
                #[trigger] r@[k],
                data@,
                agg.years@[k].start as int,
                agg.years@[k].end as int,
                year_title(agg.years@[k].year),
                PlotType::YEAR,
            ),
{
    let mut jobs: Vec<ChartJob> = Vec::new();
    let mut k: usize = 0;
    while k < agg.years.len()
        invariant
            0 <= k <= agg.years@.len(),
            agg.wf(data@),
            all_wf(data@),
            jobs@.len() == k,
            forall|q: int|
                0 <= q < k ==> job_ok(
                    #[trigger] jobs@[q],
                    data@,
                    agg.years@[q].start as int,
                    agg.years@[q].end as int,
                    year_title(agg.years@[q].year),
                    PlotType::YEAR,
                ),
        decreases agg.years@.len() - k,
    {
        let yb = &agg.years[k];
        let mut title = u64_to_string(yb.year as u64);
        proof {
            reveal_strlit("_full");
        }
        title.append("_full");
        let job = plot_wrapper(data, yb.start, yb.end, title.as_str(), PlotType::YEAR);
        jobs.push(job);
        k = k + 1;
    }
    jobs
}

/// How many month charts the first `k` year buckets contribute.
pub open spec fn months_before(years: Seq<YearBucket>, k: int) -> int
    decreases k,
{
    if k <= 0 {
        0
    } else {
        months_before(years, k - 1) + years[k - 1].months@.len()
    }
}

pub proof fn lemma_months_before_mono(years: Seq<YearBucket>, a: int, b: int)
    requires
        0 <= a <= b,
    ensures
        months_before(years, a) <= months_before(years, b),
    decreases b,
{
    if a < b {
        lemma_months_before_mono(years, a, b - 1);
    }
}

/// One chart per month bucket: years ascending, months ascending within
/// each year, flattened in that order.
#[verifier::rlimit(100)]
pub fn plot_wrapper_month(data: &Vec<WeightLine>, agg: &Aggregation) -> (r: Vec<ChartJob>)
    requires
        agg.wf(data@),
        all_wf(data@),
    ensures
        r@.len() == months_before(agg.years@, agg.years@.len() as int),
        forall|k: int, l: int|
            0 <= k < agg.years@.len() && 0 <= l < agg.years@[k].months@.len() ==> job_ok(
                #[trigger] r@[months_before(agg.years@, k) + l],
                data@,
                agg.years@[k].months@[l].start as int,
                agg.years@[k].months@[l].end as int,
                month_title(agg.years@[k].year, agg.years@[k].months@[l].month),
                PlotType::MONTH,
            ),
{
    let ghost years = agg.years@;
    let mut jobs: Vec<ChartJob> = Vec::new();
    let mut k: usize = 0;
    while k < agg.years.len()
        invariant
            0 <= k <= years.len(),
            years == agg.years@,
            agg.wf(data@),
            all_wf(data@),
            jobs@.len() == months_before(years, k as int),
            forall|k2: int, l2: int|
                0 <= k2 < k && 0 <= l2 < years[k2].months@.len() ==> job_ok(
                    #[trigger] jobs@[months_before(years, k2) + l2],
                    data@,
                    years[k2].months@[l2].start as int,
                    years[k2].months@[l2].end as int,
                    month_title(years[k2].year, years[k2].months@[l2].month),
                    PlotType::MONTH,
                ),
        decreases years.len() - k,
    {
        let yb = &agg.years[k];
        let ghost base = months_before(years, k as int);
        let mut l: usize = 0;
        while l < yb.months.len()
            invariant
                0 <= l <= yb.months@.len(),
                yb == years[k as int],
                0 <= k < years.len(),
                years == agg.years@,
                agg.wf(data@),
                all_wf(data@),
                base == months_before(years, k as int),
                jobs@.len() == base + l,
                forall|k2: int, l2: int|
                    0 <= k2 < k && 0 <= l2 < years[k2].months@.len() ==> job_ok(
                        #[trigger] jobs@[months_before(years, k2) + l2],
                        data@,
                        years[k2].months@[l2].start as int,
                        years[k2].months@[l2].end as int,
                        month_title(years[k2].year, years[k2].months@[l2].month),
                        PlotType::MONTH,
                    ),
                forall|l2: int|
                    0 <= l2 < l ==> job_ok(
                        #[trigger] jobs@[base + l2],
                        data@,
                        years[k as int].months@[l2].start as int,
                        years[k as int].months@[l2].end as int,
                        month_title(years[k as int].year, years[k as int].months@[l2].month),
                        PlotType::MONTH,
                    ),
            decreases yb.months@.len() - l,
        {
            let mb = &yb.months[l];
            let mut title = u64_to_string(yb.year as u64);
            proof {
                reveal_strlit("_");
                reveal_strlit("0");
            }
            title.append("_");
            if mb.month < 10 {
                title.append("0");
            }
            title.append(u64_to_string(mb.month as u64).as_str());
            proof {
                assert(title@ =~= month_title(years[k as int].year, years[k as int].months@[
                    l as int].month));
            }
            let job = plot_wrapper(data, mb.start, mb.end, title.as_str(), PlotType::MONTH);
            let ghost old_jobs = jobs@;
            jobs.push(job);
            proof {
                assert(forall|q: int| 0 <= q < old_jobs.len() ==> #[trigger] jobs@[q]
                    == old_jobs[q]);
                assert forall|k2: int, l2: int|
                    0 <= k2 < k && 0 <= l2 < years[k2].months@.len() implies job_ok(
                    #[trigger] jobs@[months_before(years, k2) + l2],
                    data@,
                    years[k2].months@[l2].start as int,
                    years[k2].months@[l2].end as int,
                    month_title(years[k2].year, years[k2].months@[l2].month),
                    PlotType::MONTH,
                ) by {
                    lemma_months_before_mono(years, 0, k2);
                    lemma_months_before_mono(years, k2 + 1, k as int);
                    assert(months_before(years, k2 + 1) == months_before(years, k2) + years[
                        k2].months@.len());
                    assert(0 <= months_before(years, k2) + l2 < old_jobs.len());
                    assert(jobs@[months_before(years, k2) + l2] == old_jobs[months_before(
                        years,
                        k2,
                    ) + l2]);
                }
                assert forall|l2: int| 0 <= l2 < l + 1 implies job_ok(
                    #[trigger] jobs@[base + l2],
                    data@,
                    years[k as int].months@[l2].start as int,
                    years[k as int].months@[l2].end as int,
                    month_title(years[k as int].year, years[k as int].months@[l2].month),
                    PlotType::MONTH,
                ) by {
                    if l2 < l {
                        lemma_months_before_mono(years, 0, k as int);
                        assert(0 <= base + l2 < old_jobs.len());
                        assert(jobs@[base + l2] == old_jobs[base + l2]);
                    } else {
                        lemma_months_before_mono(years, 0, k as int);
                        assert(jobs@[base + l2] == job);
                    }
                }
            }
            l = l + 1;
        }
        proof {
            assert(months_before(years, k + 1) == base + years[k as int].months@.len());
        }
        k = k + 1;
    }
    jobs
}

/// Aggregates the sorted records and lays out every chart of the run:
/// the complete series, each year, each year's months.
pub fn run_with_lifetime(data: &Vec<WeightLine>) -> (r: (Aggregation, ChartSet))
    requires
        sorted_by_ts(data@),
        all_wf(data@),
    ensures
        r.0.wf(data@),
        job_ok(r.1.complete, data@, 0, data@.len() as int, "complete"@, PlotType::FULL),
        r.1.years@.len() == r.0.years@.len(),
        forall|k: int|
            0 <= k < r.1.years@.len() ==> job_ok(
                #[trigger] r.1.years@[k],
                data@,
                r.0.years@[k].start as int,
                r.0.years@[k].end as int,
                year_title(r.0.years@[k].year),
                PlotType::YEAR,
            ),
        r.1.months@.len() == months_before(r.0.years@, r.0.years@.len() as int),
        forall|k: int, l: int|
            0 <= k < r.0.years@.len() && 0 <= l < r.0.years@[k].months@.len() ==> job_ok(
                #[trigger] r.1.months@[months_before(r.0.years@, k) + l],
                data@,
                r.0.years@[k].months@[l].start as int,
                r.0.years@[k].months@[l].end as int,
                month_title(r.0.years@[k].year, r.0.years@[k].months@[l].month),
                PlotType::MONTH,
            ),
{
    let agg = fill_maps(data);
    let complete = plot_wrapper_complete(data);
    let years = plot_wrapper_year(data, &agg);
    let months = plot_wrapper_month(data, &agg);
    (agg, ChartSet { complete, years, months })
}

/// Everything one run computes from its input lines.
#[derive(Debug, PartialEq)]
pub struct PipelineOutput {
    pub records: Vec<WeightLine>,
    pub diagnostics: Vec<Diagnostic>,
    pub aggregation: Aggregation,
    pub charts: ChartSet,
}

/// Everything the pipeline promises of its output, over the input lines:
/// the records are the stably sorted parse of the lines, the diagnostics
/// are the dropped lines past the warm-up, the aggregation is well formed
/// over the records, and every chart job meets its full contract.
pub open spec fn pipeline_ok(r: PipelineOutput, lines: Seq<Seq<char>>) -> bool {
    &&& r.records@ == spec_sort(records_of(lines))
    &&& r.diagnostics@.len() == diags_of(lines).len()
    &&& forall|i: int|
        0 <= i < r.diagnostics@.len() ==> #[trigger] r.diagnostics@[i].index == diags_of(
            lines,
        )[i].0 && r.diagnostics@[i].line@ == diags_of(lines)[i].1
    &&& r.aggregation.wf(r.records@)
    &&& job_ok(
        r.charts.complete,
        r.records@,
        0,
        r.records@.len() as int,
        "complete"@,
        PlotType::FULL,
    )
    &&& r.charts.years@.len() == r.aggregation.years@.len()
    &&& forall|k: int|
        0 <= k < r.charts.years@.len() ==> job_ok(
            #[trigger] r.charts.years@[k],
            r.records@,
            r.aggregation.years@[k].start as int,
            r.aggregation.years@[k].end as int,
            year_title(r.aggregation.years@[k].year),
            PlotType::YEAR,
        )
    &&& r.charts.months@.len() == months_before(
        r.aggregation.years@,
        r.aggregation.years@.len() as int,
    )
    &&& forall|k: int, l: int|
        0 <= k < r.aggregation.years@.len() && 0 <= l
            < r.aggregation.years@[k].months@.len() ==> job_ok(
            #[trigger] r.charts.months@[months_before(r.aggregation.years@, k) + l],
            r.records@,
            r.aggregation.years@[k].months@[l].start as int,
            r.aggregation.years@[k].months@[l].end as int,
            month_title(r.aggregation.years@[k].year, r.aggregation.years@[k].months@[l].month),
            PlotType::MONTH,
        )
}

/// The whole pipeline: parse every line, sort the records
/// chronologically, aggregate by year and month, and lay out every chart.
/// Each step's result is a function of the input lines alone —
/// `lemma_pipeline_deterministic` states that as a law.
pub fn pipeline(lines: &Vec<String>) -> (r: PipelineOutput)
    ensures
        pipeline_ok(r, lines.deep_view()),
        sorted_by_ts(r.records@),
{
    let (parsed, diagnostics) = parse_file(lines);
    proof {
        lemma_records_wf(lines.deep_view());
    }
    let mut records = parsed;
    sort_records(&mut records);
    proof {
        lemma_spec_sort_sorted(records_of(lines.deep_view()));
        lemma_spec_sort_wf(records_of(lines.deep_view()));
    }
    let (aggregation, charts) = run_with_lifetime(&records);
    PipelineOutput { records, diagnostics, aggregation, charts }
}

/// Two summaries carry the same markers and label texts.
pub open spec fn summary_same(x: Summary, y: Summary) -> bool {
    &&& x.val_min == y.val_min
    &&& x.val_max == y.val_max
    &&& x.val_avg == y.val_avg
    &&& x.label_x == y.label_x
    &&& x.min_label@ == y.min_label@
    &&& x.max_label@ == y.max_label@
    &&& x.avg_label@ == y.avg_label@
}

/// Two chart specifications request byte-for-byte the same drawing: same
/// title, kind, domains, and primitive sets.
pub open spec fn chart_same(x: ChartSpec, y: ChartSpec) -> bool {
    &&& x.title@ == y.title@
    &&& x.plot_type == y.plot_type
    &&& x.start_date == y.start_date
    &&& x.x_min == y.x_min
    &&& x.x_max == y.x_max
    &&& x.y_min == y.y_min
    &&& x.y_max == y.y_max
    &&& x.dots@ == y.dots@
    &&& x.line_dots@ == y.line_dots@
    &&& x.trend@ == y.trend@
    &&& (x.summary is Some <==> y.summary is Some)
    &&& (x.summary matches Some(sx) ==> summary_same(sx, y.summary->0))
}

/// Two chart jobs agree on path, title, and the chart or its absence.
pub open spec fn job_same(x: ChartJob, y: ChartJob) -> bool {
    &&& x.title@ == y.title@
    &&& x.path@ == y.path@
    &&& (x.result is Ok <==> y.result is Ok)
    &&& (x.result matches Ok(cx) ==> chart_same(cx, y.result->Ok_0))
}

proof fn lemma_job_ok_same(
    x: ChartJob,
    y: ChartJob,
    data: Seq<WeightLine>,
    start: int,
    end: int,
    title: Seq<char>,
    pt: PlotType,
)
    requires
        job_ok(x, data, start, end, title, pt),
        job_ok(y, data, start, end, title, pt),
    ensures
        job_same(x, y),
{
}

proof fn lemma_months_before_same(a: Seq<YearBucket>, b: Seq<YearBucket>, k: int)
    requires
        forall|q: int| 0 <= q < k ==> (#[trigger] a[q]).months@.len() == b[q].months@.len(),
    ensures
        months_before(a, k) == months_before(b, k),
    decreases k,
{
    if k > 0 {
        lemma_months_before_same(a, b, k - 1);
    }
}

/// Running the pipeline twice over the same input requests byte-for-byte
/// identical chart specifications: the same records and diagnostics, the
/// same buckets, and for every chart the same title, path, domains and
/// primitive sets, in the same order.  Nothing depends on any hidden
/// iteration order.
#[verifier::rlimit(100)]
pub proof fn lemma_pipeline_deterministic(
    x: PipelineOutput,
    y: PipelineOutput,
    lines: Seq<Seq<char>>,
)
    requires
        pipeline_ok(x, lines),
        pipeline_ok(y, lines),
    ensures
        x.records@ == y.records@,
        x.diagnostics@.len() == y.diagnostics@.len(),
        forall|i: int|
            0 <= i < x.diagnostics@.len() ==> (#[trigger] x.diagnostics@[i]).index == (
            #[trigger] y.diagnostics@[i]).index && x.diagnostics@[i].line@
                == y.diagnostics@[i].line@,
        x.aggregation.years@.len() == y.aggregation.years@.len(),
        forall|k: int|
            0 <= k < x.aggregation.years@.len() ==> (#[trigger] x.aggregation.years@[k]).year == (
            #[trigger] y.aggregation.years@[k]).year && x.aggregation.years@[k].start
                == y.aggregation.years@[k].start && x.aggregation.years@[k].end
                == y.aggregation.years@[k].end && x.aggregation.years@[k].months@
                =~= y.aggregation.years@[k].months@,
        job_same(x.charts.complete, y.charts.complete),
        x.charts.years@.len() == y.charts.years@.len(),
        forall|k: int|
            0 <= k < x.charts.years@.len() ==> job_same(
                #[trigger] x.charts.years@[k],
                #[trigger] y.charts.years@[k],
            ),
        x.charts.months@.len() == y.charts.months@.len(),
        forall|k: int|
            0 <= k < x.charts.months@.len() ==> job_same(
                #[trigger] x.charts.months@[k],
                #[trigger] y.charts.months@[k],
            ),
{
    let data = x.records@;
    let xa = x.aggregation.years@;
    let ya = y.aggregation.years@;
    crate::agg::lemma_aggregation_unique(x.aggregation, y.aggregation, data);
    lemma_job_ok_same(
        x.charts.complete,
        y.charts.complete,
        data,
        0,
        data.len() as int,
        "complete"@,
        PlotType::FULL,
    );
    assert forall|k: int| 0 <= k < x.charts.years@.len() implies job_same(
        #[trigger] x.charts.years@[k],
        #[trigger] y.charts.years@[k],
    ) by {
        lemma_job_ok_same(
            x.charts.years@[k],
            y.charts.years@[k],
            data,
            xa[k].start as int,
            xa[k].end as int,
            year_title(xa[k].year),
            PlotType::YEAR,
        );
    }
    assert(forall|q: int| 0 <= q < xa.len() ==> (#[trigger] xa[q]).months@.len()
        == ya[q].months@.len());
    lemma_months_before_same(xa, ya, xa.len() as int);
    assert(x.charts.months@.len() == y.charts.months@.len());
    assert forall|k: int| 0 <= k < x.charts.months@.len() implies job_same(
        #[trigger] x.charts.months@[k],
        #[trigger] y.charts.months@[k],
    ) by {
        lemma_month_job_index(x, lines, k);
        let yk = choose|yk: int|
            0 <= yk < xa.len() && #[trigger] months_before(xa, yk) <= k < months_before(xa, yk)
                + xa[yk].months@.len();
        let l = k - months_before(xa, yk);
        lemma_months_before_same(xa, ya, yk);
        assert(xa[yk].months@[l] == ya[yk].months@[l]);
        assert(x.charts.months@[months_before(xa, yk) + l] == x.charts.months@[k]);
        assert(y.charts.months@[months_before(ya, yk) + l] == y.charts.months@[k]);
        lemma_job_ok_same(
            x.charts.months@[k],
            y.charts.months@[k],
            data,
            xa[yk].months@[l].start as int,
            xa[yk].months@[l].end as int,
            month_title(xa[yk].year, xa[yk].months@[l].month),
            PlotType::MONTH,
        );
    }
}

/// Every month-job index decomposes as a year's base plus a month offset.
proof fn lemma_month_job_index(x: PipelineOutput, lines: Seq<Seq<char>>, k: int)
    requires
        pipeline_ok(x, lines),
        0 <= k < x.charts.months@.len(),
    ensures
        exists|yk: int|
            0 <= yk < x.aggregation.years@.len() && #[trigger] months_before(
                x.aggregation.years@,
                yk,
            ) <= k < months_before(x.aggregation.years@, yk)
                + x.aggregation.years@[yk].months@.len(),
{
    let years = x.aggregation.years@;
    lemma_month_index_decomposes(years, years.len() as int, k);
}

proof fn lemma_month_index_decomposes(years: Seq<YearBucket>, upto: int, k: int)
    requires
        0 <= upto <= years.len(),
        0 <= k < months_before(years, upto),
    ensures
        exists|yk: int|
            0 <= yk < upto && #[trigger] months_before(years, yk) <= k < months_before(years, yk)
                + years[yk].months@.len(),
    decreases upto,
{
    if k < months_before(years, upto - 1) {
        lemma_month_index_decomposes(years, upto - 1, k);
        let yk = choose|yk: int|
            0 <= yk < upto - 1 && #[trigger] months_before(years, yk) <= k < months_before(
                years,
                yk,
            ) + years[yk].months@.len();
        assert(0 <= yk < upto && months_before(years, yk) <= k < months_before(years, yk)
            + years[yk].months@.len());
    } else {
        let yk = upto - 1;
        assert(months_before(years, upto) == months_before(years, yk) + years[yk].months@.len());
        assert(0 <= yk < upto && months_before(years, yk) <= k < months_before(years, yk)
            + years[yk].months@.len());
    }
}

} // verus!
