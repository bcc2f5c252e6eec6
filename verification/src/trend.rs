//! The trend smoother: a windowed running average over an ordered sequence
//! of distinct-position (position, weight) dots.
//!
//! The first dot is emitted exactly as it is.  Every dot's weight also
//! enters a pending window of up to `TREND_WINDOW` raw values; a dot that
//! arrives with the window full makes the smoother emit, at that dot's
//! position, the average of the window and the new weight, and empties the
//! window (the window resets rather than slides, giving a blocky trend).
//! If the last emitted point does not sit at the final dot's position, one
//! final point is emitted there: the average of the leftover window.

use vstd::prelude::*;
use crate::model::WEIGHT_MAX_MILLI;
use crate::numfmt::{tdiv, div_trunc};

verus! {

/// How many raw values the window holds before an averaged point is
/// emitted.
pub const TREND_WINDOW: usize = 3;

pub open spec fn seq_sum(s: Seq<i64>) -> int
    decreases s.len(),
{
    if s.len() == 0 {
        0
    } else {
        seq_sum(s.drop_last()) + s.last()
    }
}

pub proof fn lemma_seq_sum_bound(s: Seq<i64>)
    requires
        forall|i: int| 0 <= i < s.len() ==> -WEIGHT_MAX_MILLI <= #[trigger] s[i] <= WEIGHT_MAX_MILLI,
    ensures
        -(s.len() as int) * WEIGHT_MAX_MILLI <= seq_sum(s) <= (s.len() as int) * WEIGHT_MAX_MILLI,
    decreases s.len(),
{
    if s.len() == 0 {
    } else {
        assert(forall|i: int| 0 <= i < s.drop_last().len() ==> #[trigger] s.drop_last()[i]
            == s[i]);
        lemma_seq_sum_bound(s.drop_last());
    }
}

/// The smoother's state after feeding a dot sequence: the emitted trend
/// points so far, and the pending window.
pub open spec fn trend_state(dots: Seq<(i64, i64)>) -> (Seq<(i64, i64)>, Seq<i64>)
    decreases dots.len(),
{
    if dots.len() == 0 {
        (Seq::empty(), Seq::empty())
    } else {
        let st = trend_state(dots.drop_last());
        let tr = st.0;
        let buf = st.1;
        let d = dots.last();
        if tr.len() == 0 {
            (seq![d], seq![d.1])
        } else if buf.len() < TREND_WINDOW as int {
            (tr, buf.push(d.1))
        } else {
            (tr.push((d.0, tdiv(seq_sum(buf) + d.1, buf.len() as int + 1) as i64)), Seq::empty())
        }
    }
}

/// The complete trend of a dot sequence, final backfill point included.
pub open spec fn spec_trend(dots: Seq<(i64, i64)>) -> Seq<(i64, i64)> {
    let st = trend_state(dots);
    let tr = st.0;
    let buf = st.1;
    if dots.len() == 0 {
        Seq::empty()
    } else if tr.last().0 != dots.last().0 {
        tr.push((dots.last().0, tdiv(seq_sum(buf), buf.len() as int) as i64))
    } else {
        tr
    }
}

/// Structural facts about the smoother's state, for every prefix: the
/// trend starts with the first dot, the window never overfills, its
/// values are dot weights in range, and the window is only empty right
/// after an emission at the latest dot's position.
pub proof fn lemma_trend_state(dots: Seq<(i64, i64)>)
    requires
        forall|i: int|
            0 <= i < dots.len() ==> -WEIGHT_MAX_MILLI <= (#[trigger] dots[i]).1
                <= WEIGHT_MAX_MILLI,
    ensures
        trend_state(dots).0.len() >= 1 <==> dots.len() >= 1,
        dots.len() >= 1 ==> trend_state(dots).0[0] == dots[0],
        trend_state(dots).1.len() <= TREND_WINDOW as int,
        dots.len() >= 1 ==> (trend_state(dots).1.len() >= 1 || trend_state(dots).0.last().0
            == dots.last().0),
        forall|i: int|
            0 <= i < trend_state(dots).1.len() ==> -WEIGHT_MAX_MILLI <= #[trigger] trend_state(
                dots,
            ).1[i] <= WEIGHT_MAX_MILLI,
    decreases dots.len(),
{
    if dots.len() == 0 {
    } else {
        assert(forall|i: int| 0 <= i < dots.drop_last().len() ==> #[trigger] dots.drop_last()[i]
            == dots[i]);
        lemma_trend_state(dots.drop_last());
    }
}

/// The first trend point is always the first dot, exactly; an input of one
/// single dot yields exactly that dot.
pub proof fn lemma_trend_first(dots: Seq<(i64, i64)>)
    requires
        dots.len() >= 1,
        forall|i: int|
            0 <= i < dots.len() ==> -WEIGHT_MAX_MILLI <= (#[trigger] dots[i]).1
                <= WEIGHT_MAX_MILLI,
    ensures
        spec_trend(dots).len() >= 1,
        spec_trend(dots)[0] == dots[0],
        dots.len() == 1 ==> spec_trend(dots) =~= seq![dots[0]],
{
    lemma_trend_state(dots);
    if dots.len() == 1 {
        assert(dots.drop_last().len() == 0);
        assert(trend_state(dots.drop_last()).0 =~= Seq::<(i64, i64)>::empty());
        assert(trend_state(dots).0 =~= seq![dots[0]]);
    }
}

/// Sums the pending window.
fn sum_window(tmp: &Vec<i64>) -> (r: i64)
    requires
        tmp@.len() <= TREND_WINDOW as int,
        forall|i: int| 0 <= i < tmp@.len() ==> -WEIGHT_MAX_MILLI <= #[trigger] tmp@[i]
            <= WEIGHT_MAX_MILLI,
    ensures
        r == seq_sum(tmp@),
        -3 * WEIGHT_MAX_MILLI <= r <= 3 * WEIGHT_MAX_MILLI,
{
    let mut sum: i64 = 0;
    let mut i: usize = 0;
    while i < tmp.len()
        invariant
            0 <= i <= tmp@.len() <= TREND_WINDOW as int,
            forall|q: int| 0 <= q < tmp@.len() ==> -WEIGHT_MAX_MILLI <= #[trigger] tmp@[q]
                <= WEIGHT_MAX_MILLI,
            sum == seq_sum(tmp@.take(i as int)),
            -(i as int) * WEIGHT_MAX_MILLI <= sum <= (i as int) * WEIGHT_MAX_MILLI,
        decreases tmp@.len() - i,
    {
        proof {
            assert(tmp@.take(i + 1).drop_last() =~= tmp@.take(i as int));
            assert(tmp@.take(i + 1).last() == tmp@[i as int]);
        }
        sum = sum + tmp[i];
        i = i + 1;
    }
    proof {
        assert(tmp@.take(tmp@.len() as int) =~= tmp@);
    }
    sum
}

/// Emits one averaged trend point at position `x` from the pending window
/// plus the new weight `y`, and empties the window.
pub fn trend_value(trend: &mut Vec<(i64, i64)>, trend_tmp: &mut Vec<i64>, x: i64, y: i64)
    requires
        old(trend_tmp)@.len() <= TREND_WINDOW as int,
        forall|i: int|
            0 <= i < old(trend_tmp)@.len() ==> -WEIGHT_MAX_MILLI <= #[trigger] old(trend_tmp)@[i]
                <= WEIGHT_MAX_MILLI,
        -WEIGHT_MAX_MILLI <= y <= WEIGHT_MAX_MILLI,
    ensures
        final(trend)@ == old(trend)@.push(
            (x, tdiv(seq_sum(old(trend_tmp)@) + y, old(trend_tmp)@.len() as int + 1) as i64),
        ),
        final(trend_tmp)@ == Seq::<i64>::empty(),
{
    let sum = sum_window(trend_tmp);
    let avg = div_trunc(sum + y, trend_tmp.len() as i64 + 1);
    trend_tmp.clear();
    trend.push((x, avg));
    proof {
        assert(final(trend_tmp)@ =~= Seq::<i64>::empty());
    }
}

/// Computes the whole trend of a distinct-position dot sequence.
pub fn trend_points(line_dots: &Vec<(i64, i64)>) -> (r: Vec<(i64, i64)>)
    requires
        forall|i: int|
            0 <= i < line_dots@.len() ==> -WEIGHT_MAX_MILLI <= (#[trigger] line_dots@[i]).1
                <= WEIGHT_MAX_MILLI,
    ensures
        r@ == spec_trend(line_dots@),
{
    let ghost dots = line_dots@;
    let mut trend: Vec<(i64, i64)> = Vec::new();
    let mut trend_tmp: Vec<i64> = Vec::new();
    let mut k: usize = 0;
    while k < line_dots.len()
        invariant
            0 <= k <= dots.len(),
            dots == line_dots@,
            forall|i: int|
                0 <= i < dots.len() ==> -WEIGHT_MAX_MILLI <= (#[trigger] dots[i]).1
                    <= WEIGHT_MAX_MILLI,
            (trend@, trend_tmp@) == trend_state(dots.take(k as int)),
        decreases dots.len() - k,
    {
        proof {
            assert(forall|i: int| 0 <= i < k ==> #[trigger] dots.take(k as int)[i] == dots[i]);
            lemma_trend_state(dots.take(k as int));
            assert(dots.take(k + 1).drop_last() =~= dots.take(k as int));
            assert(dots.take(k + 1).last() == dots[k as int]);
        }
        let d = line_dots[k];
        if trend.len() == 0 {
            trend.push(d);
            trend_tmp.push(d.1);
        } else if trend_tmp.len() < TREND_WINDOW {
            trend_tmp.push(d.1);
        } else {
            trend_value(&mut trend, &mut trend_tmp, d.0, d.1);
        }
        k = k + 1;
    }
    proof {
        assert(dots.take(dots.len() as int) =~= dots);
    }
    if line_dots.len() > 0 {
        proof {
            lemma_trend_state(dots);
            assert(forall|i: int| 0 <= i < trend_tmp@.len() ==> -WEIGHT_MAX_MILLI
                <= #[trigger] trend_tmp@[i] <= WEIGHT_MAX_MILLI);
        }
        let last_dot = line_dots[line_dots.len() - 1];
        let last_trend_x = trend[trend.len() - 1].0;
        if last_trend_x != last_dot.0 {
            let sum = sum_window(&trend_tmp);
            let avg = div_trunc(sum, trend_tmp.len() as i64);
            trend.push((last_dot.0, avg));
        }
    }
    trend
}

} // verus!
