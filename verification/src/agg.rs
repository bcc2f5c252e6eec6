//! The aggregator: groups a chronologically sorted record store by calendar
//! year and by year + month.
//!
//! Because the store is sorted, every group is one contiguous index range
//! of it, so a bucket is a half-open range: no record is copied, and the
//! bucket keys come out strictly ascending by construction.

use vstd::prelude::*;
use crate::model::{WeightLine, all_wf, sorted_by_ts};

verus! {

/// One month's records: the range `start..end` of the store.
#[derive(Clone, Copy, PartialEq, Eq, Structural, Debug)]
pub struct MonthBucket {
    pub month: u32,
    pub start: usize,
    pub end: usize,
}

/// One year's records: the range `start..end` of the store, split into
/// month buckets that cover it.
#[derive(Clone, Debug, PartialEq)]
pub struct YearBucket {
    pub year: u32,
    pub start: usize,
    pub end: usize,
    pub months: Vec<MonthBucket>,
}

/// The three views the aggregator builds: the whole store is the complete
/// series, `years` the per-year series, their `months` the per-month ones.
#[derive(Clone, Debug, PartialEq)]
pub struct Aggregation {
    pub years: Vec<YearBucket>,
}

/// The month buckets tile the year's range `ys..ye` in order, each one
/// non-empty, with strictly ascending month keys, and every record they
/// cover carries that month (and the year's key).
pub open spec fn months_wf(
    months: Seq<MonthBucket>,
    data: Seq<WeightLine>,
    ys: int,
    ye: int,
    year: int,
) -> bool {
    &&& months.len() > 0
    &&& months[0].start == ys
    &&& months.last().end == ye
    &&& forall|k1: int, k2: int|
        0 <= k1 < months.len() && k2 == k1 + 1 && k2 < months.len() ==> (
        #[trigger] months[k1]).end == (#[trigger] months[k2]).start
    &&& forall|k: int| 0 <= k < months.len() ==> (#[trigger] months[k]).start < months[k].end
    &&& forall|k1: int, k2: int|
        0 <= k1 < months.len() && k2 == k1 + 1 && k2 < months.len() ==> (
        #[trigger] months[k1]).month < (#[trigger] months[k2]).month
    &&& forall|k: int| 0 <= k < months.len() ==> (#[trigger] months[k]).end <= data.len()
    &&& forall|k: int, j: int|
        0 <= k < months.len() && months[k].start <= j < months[k].end ==> (
        #[trigger] data[j]).timestamp.month == (#[trigger] months[k]).month
            && data[j].timestamp.year == year
}

/// The year buckets tile `0..n` in order, each one non-empty, with
/// strictly ascending year keys, every covered record carrying the year's
/// key, and each year's months well formed over the year's range.
pub open spec fn years_wf(years: Seq<YearBucket>, data: Seq<WeightLine>, n: int) -> bool {
    &&& n == 0 ==> years.len() == 0
    &&& n > 0 ==> years.len() > 0 && years[0].start == 0 && years.last().end == n
    &&& forall|k1: int, k2: int|
        0 <= k1 < years.len() && k2 == k1 + 1 && k2 < years.len() ==> (#[trigger] years[k1]).end
            == (#[trigger] years[k2]).start
    &&& forall|k: int| 0 <= k < years.len() ==> (#[trigger] years[k]).start < years[k].end
    &&& forall|k1: int, k2: int|
        0 <= k1 < years.len() && k2 == k1 + 1 && k2 < years.len() ==> (#[trigger] years[k1]).year
            < (#[trigger] years[k2]).year
    &&& forall|k: int| 0 <= k < years.len() ==> (#[trigger] years[k]).end <= data.len()
    &&& forall|k: int, j: int|
        0 <= k < years.len() && years[k].start <= j < years[k].end ==> (
        #[trigger] data[j]).timestamp.year == (#[trigger] years[k]).year
    &&& forall|k: int|
        0 <= k < years.len() ==> months_wf(
            (#[trigger] years[k]).months@,
            data,
            years[k].start as int,
            years[k].end as int,
            years[k].year as int,
        )
}

impl Aggregation {
    pub open spec fn wf(self, data: Seq<WeightLine>) -> bool {
        years_wf(self.years@, data, data.len() as int)
    }
}

// ---------------------------------------------------------------------------
// Building the aggregation.
// ---------------------------------------------------------------------------

/// Opens a fresh year bucket (with one fresh month bucket) for record `i`.
#[verifier::rlimit(100)]
fn push_year(
    years: &mut Vec<YearBucket>,
    i: usize,
    y: u32,
    m: u32,
    Ghost(data): Ghost<Seq<WeightLine>>,
)
    requires
        years_wf(old(years)@, data, i as int),
        i < data.len(),
        i < usize::MAX,
        data[i as int].timestamp.year == y,
        data[i as int].timestamp.month == m,
        old(years)@.len() > 0 ==> old(years)@.last().year < y,
    ensures
        years_wf(final(years)@, data, i + 1),
{
    let ghost old_years = years@;
    let mut ms: Vec<MonthBucket> = Vec::new();
    ms.push(MonthBucket { month: m, start: i, end: i + 1 });
    years.push(YearBucket { year: y, start: i, end: i + 1, months: ms });
    proof {
        let ys = years@;
        assert(forall|k: int| 0 <= k < ys.len() - 1 ==> #[trigger] ys[k] == old_years[k]);
        if old_years.len() == 0 {
            assert(i == 0);
        } else {
            assert(old_years.last().end == i);
        }
        assert(months_wf(ys.last().months@, data, i as int, i + 1, y as int));
        assert forall|k: int, j: int|
            0 <= k < ys.len() && (#[trigger] ys[k]).start <= j < ys[k].end implies (
        #[trigger] data[j]).timestamp.year == ys[k].year by {
            if k < ys.len() - 1 {
                assert(ys[k] == old_years[k]);
                assert(data[j].timestamp.year == old_years[k].year);
            } else {
                assert(j == i);
            }
        }
        assert(years_wf(ys, data, i + 1));
    }
}

/// Extends the last year bucket with record `i` of the same year, either
/// growing its last month bucket or opening a new one.
#[verifier::rlimit(100)]
fn extend_year(years: &mut Vec<YearBucket>, i: usize, m: u32, Ghost(data): Ghost<Seq<WeightLine>>)
    requires
        years_wf(old(years)@, data, i as int),
        old(years)@.len() > 0,
        i < data.len(),
        i < usize::MAX,
        data[i as int].timestamp.year == old(years)@.last().year,
        data[i as int].timestamp.month == m,
        old(years)@.last().months@.last().month <= m,
    ensures
        years_wf(final(years)@, data, i + 1),
{
    let ghost old_years = years@;
    let mut lb = years.pop().unwrap();
    proof {
        assert(old_years.last() == lb);
        assert(months_wf(lb.months@, data, lb.start as int, lb.end as int, lb.year as int));
        assert(lb.end == i);
    }
    lb.end = i + 1;
    let last_month = lb.months[lb.months.len() - 1].month;
    let ghost old_months = lb.months@;
    if last_month == m {
        let mut mb = lb.months.pop().unwrap();
        proof {
            assert(old_months.last() == mb);
        }
        mb.end = i + 1;
        lb.months.push(mb);
        proof {
            let ms = lb.months@;
            assert(ms.len() == old_months.len());
            assert(forall|k: int| 0 <= k < ms.len() - 1 ==> #[trigger] ms[k] == old_months[k]);
            assert(ms.last().month == old_months.last().month && ms.last().start
                == old_months.last().start && ms.last().end == i + 1);
            assert forall|k: int, j: int|
                0 <= k < ms.len() && (#[trigger] ms[k]).start <= j < ms[k].end implies (
            #[trigger] data[j]).timestamp.month == ms[k].month && data[j].timestamp.year
                == lb.year by {
                if k < ms.len() - 1 {
                    assert(ms[k] == old_months[k]);
                    assert(data[j].timestamp.month == old_months[k].month
                        && data[j].timestamp.year == lb.year);
                } else if j < i {
                    assert(old_months.last().start <= j < old_months.last().end);
                    assert(data[j].timestamp.month == old_months.last().month
                        && data[j].timestamp.year == lb.year);
                } else {
                    assert(j == i);
                }
            }
            assert(months_wf(ms, data, lb.start as int, i + 1, lb.year as int));
        }
    } else {
        lb.months.push(MonthBucket { month: m, start: i, end: i + 1 });
        proof {
            let ms = lb.months@;
            assert(forall|k: int| 0 <= k < ms.len() - 1 ==> #[trigger] ms[k] == old_months[k]);
            assert(old_months.last().end == i);
            assert(old_months.last().month < m);
            assert forall|k: int, j: int|
                0 <= k < ms.len() && (#[trigger] ms[k]).start <= j < ms[k].end implies (
            #[trigger] data[j]).timestamp.month == ms[k].month && data[j].timestamp.year
                == lb.year by {
                if k < ms.len() - 1 {
                    assert(ms[k] == old_months[k]);
                    assert(data[j].timestamp.month == old_months[k].month
                        && data[j].timestamp.year == lb.year);
                } else {
                    assert(j == i);
                }
            }
            assert(months_wf(ms, data, lb.start as int, i + 1, lb.year as int));
        }
    }
    let ghost lb_snap = lb;
    years.push(lb);
    proof {
        let ys = years@;
        assert(forall|k: int| 0 <= k < ys.len() - 1 ==> #[trigger] ys[k] == old_years[k]);
        assert(ys.last() == lb_snap);
        assert(ys.last().year == old_years.last().year && ys.last().start
            == old_years.last().start && ys.last().end == i + 1);
        assert forall|k: int, j: int|
            0 <= k < ys.len() && (#[trigger] ys[k]).start <= j < ys[k].end implies (
        #[trigger] data[j]).timestamp.year == ys[k].year by {
            if k < ys.len() - 1 {
                assert(ys[k] == old_years[k]);
                assert(data[j].timestamp.year == old_years[k].year);
            } else if j < i {
                assert(old_years.last().start <= j < old_years.last().end);
                assert(data[j].timestamp.year == old_years.last().year);
            } else {
                assert(j == i);
            }
        }
        assert(years_wf(ys, data, i + 1));
    }
}

/// Groups the sorted store into year buckets and month sub-buckets, both
/// keyed in strictly ascending order.
pub fn fill_maps(data: &Vec<WeightLine>) -> (r: Aggregation)
    requires
        sorted_by_ts(data@),
        all_wf(data@),
    ensures
        r.wf(data@),
{
    let mut years: Vec<YearBucket> = Vec::new();
    let mut i: usize = 0;
    while i < data.len()
        invariant
            0 <= i <= data.len(),
            sorted_by_ts(data@),
            all_wf(data@),
            years_wf(years@, data@, i as int),
        decreases data.len() - i,
    {
        let y = data[i].timestamp.year;
        let m = data[i].timestamp.month;
        if years.len() == 0 {
            push_year(&mut years, i, y, m, Ghost(data@));
        } else {
            let same_year = years[years.len() - 1].year == y;
            proof {
                let lb = years@.last();
                assert(lb.start <= i - 1 < lb.end);
                assert(data@[i - 1].timestamp.year == lb.year);
                assert(data@[i - 1].timestamp.le(data@[i as int].timestamp));
                assert(data@[i - 1].wf() && data@[i as int].wf());
                assert(data@[i - 1].timestamp.year <= y);
                if same_year {
                    // Within one year the months cannot decrease, and the
                    // last month bucket ends at the previous record.
                    assert(data@[i - 1].timestamp.month <= m);
                    let ms = lb.months@;
                    assert(months_wf(ms, data@, lb.start as int, lb.end as int, lb.year as int));
                    assert(ms.last().start <= i - 1 < ms.last().end);
                    assert(data@[i - 1].timestamp.month == ms.last().month);
                }
            }
            if same_year {
                extend_year(&mut years, i, m, Ghost(data@));
            } else {
                push_year(&mut years, i, y, m, Ghost(data@));
            }
        }
        i = i + 1;
    }
    Aggregation { years }
}

// ---------------------------------------------------------------------------
// Laws of the aggregation.
// ---------------------------------------------------------------------------

/// From adjacent ascent to global ascent of the year keys.
proof fn lemma_years_chain(years: Seq<YearBucket>, k: int, l: int)
    requires
        forall|q1: int, q2: int|
            0 <= q1 < years.len() && q2 == q1 + 1 && q2 < years.len() ==> (
            #[trigger] years[q1]).year < (#[trigger] years[q2]).year,
        forall|q1: int, q2: int|
            0 <= q1 < years.len() && q2 == q1 + 1 && q2 < years.len() ==> (
            #[trigger] years[q1]).end == (#[trigger] years[q2]).start,
        forall|q: int| 0 <= q < years.len() ==> (#[trigger] years[q]).start < years[q].end,
        0 <= k < l < years.len(),
    ensures
        years[k].year < years[l].year,
        years[k].end <= years[l].start,
    decreases l - k,
{
    if l == k + 1 {
    } else {
        lemma_years_chain(years, k, l - 1);
    }
}

proof fn lemma_months_chain(months: Seq<MonthBucket>, k: int, l: int)
    requires
        forall|q1: int, q2: int|
            0 <= q1 < months.len() && q2 == q1 + 1 && q2 < months.len() ==> (
            #[trigger] months[q1]).month < (#[trigger] months[q2]).month,
        forall|q1: int, q2: int|
            0 <= q1 < months.len() && q2 == q1 + 1 && q2 < months.len() ==> (
            #[trigger] months[q1]).end == (#[trigger] months[q2]).start,
        forall|q: int| 0 <= q < months.len() ==> (#[trigger] months[q]).start < months[q].end,
        0 <= k < l < months.len(),
    ensures
        months[k].month < months[l].month,
        months[k].end <= months[l].start,
    decreases l - k,
{
    if l == k + 1 {
    } else {
        lemma_months_chain(months, k, l - 1);
    }
}

/// Year keys, in bucket order, are strictly ascending; so are the month
/// keys within each year.
#[verifier::rlimit(100)]
pub proof fn lemma_keys_ascending(agg: Aggregation, data: Seq<WeightLine>)
    requires
        agg.wf(data),
    ensures
        forall|k: int, l: int|
            0 <= k < l < agg.years@.len() ==> (#[trigger] agg.years@[k]).year < (
            #[trigger] agg.years@[l]).year,
        forall|q: int, k: int, l: int|
            0 <= q < agg.years@.len() && 0 <= k < l < agg.years@[q].months@.len() ==> (
            #[trigger] agg.years@[q].months@[k]).month < (#[trigger] agg.years@[q].months@[l]).month,
{
    let years = agg.years@;
    assert forall|k: int, l: int| 0 <= k < l < years.len() implies (#[trigger] years[k]).year < (
    #[trigger] years[l]).year by {
        lemma_years_chain(years, k, l);
    }
    assert forall|q: int, k: int, l: int|
        0 <= q < years.len() && 0 <= k < l < years[q].months@.len() implies (
    #[trigger] years[q].months@[k]).month < (#[trigger] years[q].months@[l]).month by {
        assert(months_wf(
            years[q].months@,
            data,
            years[q].start as int,
            years[q].end as int,
            years[q].year as int,
        ));
        lemma_months_chain(years[q].months@, k, l);
    }
}

proof fn lemma_years_cover_upto(years: Seq<YearBucket>, j: int, l: int)
    requires
        forall|q1: int, q2: int|
            0 <= q1 < years.len() && q2 == q1 + 1 && q2 < years.len() ==> (
            #[trigger] years[q1]).end == (#[trigger] years[q2]).start,
        years.len() > 0,
        years[0].start == 0,
        0 <= l < years.len(),
        0 <= j < years[l].end,
    ensures
        exists|k: int| 0 <= k <= l && (#[trigger] years[k]).start <= j < years[k].end,
    decreases l,
{
    if years[l].start <= j {
        assert(0 <= l <= l && years[l].start <= j < years[l].end);
    } else {
        assert(l > 0);
        assert(years[l - 1].end == years[l].start);
        lemma_years_cover_upto(years, j, l - 1);
        let k = choose|k: int| 0 <= k <= l - 1 && (#[trigger] years[k]).start <= j < years[k].end;
        assert(0 <= k <= l && years[k].start <= j < years[k].end);
    }
}

proof fn lemma_months_cover_upto(months: Seq<MonthBucket>, ys: int, j: int, l: int)
    requires
        forall|q1: int, q2: int|
            0 <= q1 < months.len() && q2 == q1 + 1 && q2 < months.len() ==> (
            #[trigger] months[q1]).end == (#[trigger] months[q2]).start,
        months.len() > 0,
        months[0].start == ys,
        0 <= l < months.len(),
        ys <= j < months[l].end,
    ensures
        exists|k: int| 0 <= k <= l && (#[trigger] months[k]).start <= j < months[k].end,
    decreases l,
{
    if months[l].start <= j {
        assert(0 <= l <= l && months[l].start <= j < months[l].end);
    } else {
        assert(l > 0);
        assert(months[l - 1].end == months[l].start);
        lemma_months_cover_upto(months, ys, j, l - 1);
        let k = choose|k: int|
            0 <= k <= l - 1 && (#[trigger] months[k]).start <= j < months[k].end;
        assert(0 <= k <= l && months[k].start <= j < months[k].end);
    }
}

/// Aggregation is a partition: every record of the store lies in exactly
/// one year bucket, and in exactly one month bucket of that year — and the
/// month buckets of a year tile exactly the year's own range, so their
/// union, in order, is the year bucket itself.
#[verifier::rlimit(100)]
pub proof fn lemma_aggregation_partition(agg: Aggregation, data: Seq<WeightLine>, j: int)
    requires
        agg.wf(data),
        0 <= j < data.len(),
    ensures
        exists|k: int|
            0 <= k < agg.years@.len() && (#[trigger] agg.years@[k]).start <= j
                < agg.years@[k].end,
        forall|k1: int, k2: int|
            (0 <= k1 < agg.years@.len() && (#[trigger] agg.years@[k1]).start <= j
                < agg.years@[k1].end && 0 <= k2 < agg.years@.len() && (
            #[trigger] agg.years@[k2]).start <= j < agg.years@[k2].end) ==> k1 == k2,
        forall|k: int|
            0 <= k < agg.years@.len() && (#[trigger] agg.years@[k]).start <= j
                < agg.years@[k].end ==> (exists|l: int|
                0 <= l < agg.years@[k].months@.len() && (#[trigger] agg.years@[k].months@[l]).start
                    <= j < agg.years@[k].months@[l].end),
        forall|k: int, l1: int, l2: int|
            (0 <= k < agg.years@.len() && 0 <= l1 < agg.years@[k].months@.len() && 0 <= l2
                < agg.years@[k].months@.len() && (#[trigger] agg.years@[k].months@[l1]).start <= j
                < agg.years@[k].months@[l1].end && (#[trigger] agg.years@[k].months@[l2]).start
                <= j < agg.years@[k].months@[l2].end) ==> l1 == l2,
{
    let years = agg.years@;
    lemma_years_cover_upto(years, j, years.len() - 1);
    assert forall|k1: int, k2: int|
        (0 <= k1 < years.len() && (#[trigger] years[k1]).start <= j < years[k1].end && 0 <= k2
            < years.len() && (#[trigger] years[k2]).start <= j < years[k2].end) implies k1
        == k2 by {
        if k1 < k2 {
            lemma_years_chain(years, k1, k2);
        } else if k2 < k1 {
            lemma_years_chain(years, k2, k1);
        }
    }
    assert forall|k: int|
        0 <= k < years.len() && (#[trigger] years[k]).start <= j < years[k].end implies (exists|
            l: int,
        |
        0 <= l < years[k].months@.len() && (#[trigger] years[k].months@[l]).start <= j
            < years[k].months@[l].end) by {
        assert(months_wf(
            years[k].months@,
            data,
            years[k].start as int,
            years[k].end as int,
            years[k].year as int,
        ));
        lemma_months_cover_upto(
            years[k].months@,
            years[k].start as int,
            j,
            years[k].months@.len() - 1,
        );
    }
    assert forall|k: int, l1: int, l2: int|
        (0 <= k < years.len() && 0 <= l1 < years[k].months@.len() && 0 <= l2
            < years[k].months@.len() && (#[trigger] years[k].months@[l1]).start <= j
            < years[k].months@[l1].end && (#[trigger] years[k].months@[l2]).start <= j
            < years[k].months@[l2].end) implies l1 == l2 by {
        assert(months_wf(
            years[k].months@,
            data,
            years[k].start as int,
            years[k].end as int,
            years[k].year as int,
        ));
        if l1 < l2 {
            lemma_months_chain(years[k].months@, l1, l2);
        } else if l2 < l1 {
            lemma_months_chain(years[k].months@, l2, l1);
        }
    }
}


// ---------------------------------------------------------------------------
// The aggregation is determined by the store.
// ---------------------------------------------------------------------------

proof fn lemma_year_end_le(years: Seq<YearBucket>, data: Seq<WeightLine>, n: int, k: int)
    requires
        years_wf(years, data, n),
        n > 0,
        0 <= k < years.len(),
    ensures
        years[k].end <= n,
{
    if k < years.len() - 1 {
        lemma_years_chain(years, k, years.len() - 1);
    }
}

proof fn lemma_years_align(
    a: Seq<YearBucket>,
    b: Seq<YearBucket>,
    data: Seq<WeightLine>,
    n: int,
    k: int,
)
    requires
        years_wf(a, data, n),
        years_wf(b, data, n),
        n > 0,
        0 <= k < a.len(),
        k < b.len(),
        a[k].start == b[k].start,
    ensures
        a[k].year == b[k].year,
        a[k].end == b[k].end,
{
    let s = a[k].start as int;
    assert(data[s].timestamp.year == a[k].year);
    assert(data[s].timestamp.year == b[k].year);
    if a[k].end < b[k].end {
        lemma_year_end_le(b, data, n, k);
        let j = a[k].end as int;
        assert(data[j].timestamp.year == b[k].year);
        assert(j < n);
        assert(k < a.len() - 1) by {
            if k == a.len() - 1 {
                assert(a[k] == a.last());
                assert(a[k].end == n);
            }
        }
        assert(a[k + 1].start == a[k].end);
        assert(a[k + 1].start < a[k + 1].end);
        assert(data[j].timestamp.year == a[k + 1].year);
        assert(a[k].year < a[k + 1].year);
        assert(false);
    }
    if b[k].end < a[k].end {
        lemma_year_end_le(a, data, n, k);
        let j = b[k].end as int;
        assert(data[j].timestamp.year == a[k].year);
        assert(j < n);
        assert(k < b.len() - 1) by {
            if k == b.len() - 1 {
                assert(b[k] == b.last());
                assert(b[k].end == n);
            }
        }
        assert(b[k + 1].start == b[k].end);
        assert(b[k + 1].start < b[k + 1].end);
        assert(data[j].timestamp.year == b[k + 1].year);
        assert(b[k].year < b[k + 1].year);
        assert(false);
    }
}

proof fn lemma_years_align_upto(
    a: Seq<YearBucket>,
    b: Seq<YearBucket>,
    data: Seq<WeightLine>,
    n: int,
    k: int,
)
    requires
        years_wf(a, data, n),
        years_wf(b, data, n),
        n > 0,
        0 <= k < a.len(),
        k < b.len(),
    ensures
        a[k].start == b[k].start,
        a[k].end == b[k].end,
        a[k].year == b[k].year,
    decreases k,
{
    if k == 0 {
        assert(a[0].start == 0 && b[0].start == 0);
        lemma_years_align(a, b, data, n, 0);
    } else {
        lemma_years_align_upto(a, b, data, n, k - 1);
        assert(a[k].start == a[k - 1].end);
        assert(b[k].start == b[k - 1].end);
        lemma_years_align(a, b, data, n, k);
    }
}

proof fn lemma_years_same_len(a: Seq<YearBucket>, b: Seq<YearBucket>, data: Seq<WeightLine>, n: int)
    requires
        years_wf(a, data, n),
        years_wf(b, data, n),
        n >= 0,
    ensures
        a.len() == b.len(),
{
    if n == 0 {
    } else {
        if a.len() < b.len() {
            let k = a.len() - 1;
            lemma_years_align_upto(a, b, data, n, k);
            assert(a[k] == a.last());
            assert(a[k].end == n);
            assert(b[k + 1].start == b[k].end);
            lemma_year_end_le(b, data, n, k + 1);
            assert(b[k + 1].start < b[k + 1].end);
            assert(false);
        }
        if b.len() < a.len() {
            let k = b.len() - 1;
            lemma_years_align_upto(a, b, data, n, k);
            assert(b[k] == b.last());
            assert(b[k].end == n);
            assert(a[k + 1].start == a[k].end);
            lemma_year_end_le(a, data, n, k + 1);
            assert(a[k + 1].start < a[k + 1].end);
            assert(false);
        }
    }
}

proof fn lemma_month_end_le(
    months: Seq<MonthBucket>,
    data: Seq<WeightLine>,
    ys: int,
    ye: int,
    year: int,
    l: int,
)
    requires
        months_wf(months, data, ys, ye, year),
        0 <= l < months.len(),
    ensures
        months[l].end <= ye,
{
    if l < months.len() - 1 {
        lemma_months_chain(months, l, months.len() - 1);
    }
}

proof fn lemma_months_align(
    ma: Seq<MonthBucket>,
    mb: Seq<MonthBucket>,
    data: Seq<WeightLine>,
    ys: int,
    ye: int,
    year: int,
    l: int,
)
    requires
        months_wf(ma, data, ys, ye, year),
        months_wf(mb, data, ys, ye, year),
        0 <= l < ma.len(),
        l < mb.len(),
        ma[l].start == mb[l].start,
    ensures
        ma[l].month == mb[l].month,
        ma[l].end == mb[l].end,
{
    let s = ma[l].start as int;
    assert(data[s].timestamp.month == ma[l].month);
    assert(data[s].timestamp.month == mb[l].month);
    if ma[l].end < mb[l].end {
        lemma_month_end_le(mb, data, ys, ye, year, l);
        let j = ma[l].end as int;
        assert(data[j].timestamp.month == mb[l].month);
        assert(j < ye);
        assert(l < ma.len() - 1) by {
            if l == ma.len() - 1 {
                assert(ma[l] == ma.last());
                assert(ma[l].end == ye);
            }
        }
        assert(ma[l + 1].start == ma[l].end);
        assert(ma[l + 1].start < ma[l + 1].end);
        assert(data[j].timestamp.month == ma[l + 1].month);
        assert(ma[l].month < ma[l + 1].month);
        assert(false);
    }
    if mb[l].end < ma[l].end {
        lemma_month_end_le(ma, data, ys, ye, year, l);
        let j = mb[l].end as int;
        assert(data[j].timestamp.month == ma[l].month);
        assert(j < ye);
        assert(l < mb.len() - 1) by {
            if l == mb.len() - 1 {
                assert(mb[l] == mb.last());
                assert(mb[l].end == ye);
            }
        }
        assert(mb[l + 1].start == mb[l].end);
        assert(mb[l + 1].start < mb[l + 1].end);
        assert(data[j].timestamp.month == mb[l + 1].month);
        assert(mb[l].month < mb[l + 1].month);
        assert(false);
    }
}

proof fn lemma_months_align_upto(
    ma: Seq<MonthBucket>,
    mb: Seq<MonthBucket>,
    data: Seq<WeightLine>,
    ys: int,
    ye: int,
    year: int,
    l: int,
)
    requires
        months_wf(ma, data, ys, ye, year),
        months_wf(mb, data, ys, ye, year),
        0 <= l < ma.len(),
        l < mb.len(),
    ensures
        ma[l].start == mb[l].start,
        ma[l].end == mb[l].end,
        ma[l].month == mb[l].month,
    decreases l,
{
    if l == 0 {
        assert(ma[0].start == ys && mb[0].start == ys);
        lemma_months_align(ma, mb, data, ys, ye, year, 0);
    } else {
        lemma_months_align_upto(ma, mb, data, ys, ye, year, l - 1);
        assert(ma[l].start == ma[l - 1].end);
        assert(mb[l].start == mb[l - 1].end);
        lemma_months_align(ma, mb, data, ys, ye, year, l);
    }
}

proof fn lemma_months_same_len(
    ma: Seq<MonthBucket>,
    mb: Seq<MonthBucket>,
    data: Seq<WeightLine>,
    ys: int,
    ye: int,
    year: int,
)
    requires
        months_wf(ma, data, ys, ye, year),
        months_wf(mb, data, ys, ye, year),
    ensures
        ma.len() == mb.len(),
{
    if ma.len() < mb.len() {
        let l = ma.len() - 1;
        lemma_months_align_upto(ma, mb, data, ys, ye, year, l);
        assert(ma[l] == ma.last());
        assert(ma[l].end == ye);
        assert(mb[l + 1].start == mb[l].end);
        lemma_month_end_le(mb, data, ys, ye, year, l + 1);
        assert(mb[l + 1].start < mb[l + 1].end);
        assert(false);
    }
    if mb.len() < ma.len() {
        let l = mb.len() - 1;
        lemma_months_align_upto(ma, mb, data, ys, ye, year, l);
        assert(mb[l] == mb.last());
        assert(mb[l].end == ye);
        assert(ma[l + 1].start == ma[l].end);
        lemma_month_end_le(ma, data, ys, ye, year, l + 1);
        assert(ma[l + 1].start < ma[l + 1].end);
        assert(false);
    }
}

/// The aggregation is determined by the store: any two well-formed
/// aggregations of the same records agree bucket for bucket.  Together
/// with `fill_maps`' contract this makes the aggregation — and through it
/// every chart a run lays out — a function of the records alone, with no
/// dependence on any iteration order: two runs over identical input
/// request identical charts.
#[verifier::rlimit(100)]
pub proof fn lemma_aggregation_unique(a: Aggregation, b: Aggregation, data: Seq<WeightLine>)
    requires
        a.wf(data),
        b.wf(data),
    ensures
        a.years@.len() == b.years@.len(),
        forall|k: int|
            0 <= k < a.years@.len() ==> (#[trigger] a.years@[k]).year == (
            #[trigger] b.years@[k]).year && a.years@[k].start == b.years@[k].start
                && a.years@[k].end == b.years@[k].end && a.years@[k].months@
                =~= b.years@[k].months@,
{
    let ya = a.years@;
    let yb = b.years@;
    let n = data.len() as int;
    lemma_years_same_len(ya, yb, data, n);
    assert forall|k: int|
        0 <= k < ya.len() implies (#[trigger] ya[k]).year == (#[trigger] yb[k]).year
        && ya[k].start == yb[k].start && ya[k].end == yb[k].end && ya[k].months@
        =~= yb[k].months@ by {
        assert(n > 0);
        lemma_years_align_upto(ya, yb, data, n, k);
        let ma = ya[k].months@;
        let mb = yb[k].months@;
        let ys = ya[k].start as int;
        let ye = ya[k].end as int;
        let year = ya[k].year as int;
        assert(months_wf(ma, data, ys, ye, year));
        assert(months_wf(mb, data, ys, ye, year));
        lemma_months_same_len(ma, mb, data, ys, ye, year);
        assert forall|l: int| 0 <= l < ma.len() implies #[trigger] ma[l] == mb[l] by {
            lemma_months_align_upto(ma, mb, data, ys, ye, year, l);
        }
        assert(ma =~= mb);
    }
}


} // verus!
