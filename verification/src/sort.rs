//! Stable chronological sorting of the parsed records.

use vstd::prelude::*;
use vstd::multiset::Multiset;
use crate::model::{Timestamp, WeightLine, all_wf, sorted_by_ts};

verus! {

/// Stable insertion of a record into a chronologically sorted sequence:
/// the new record goes after every record that does not come strictly
/// later, so records with equal timestamps keep their original order.
pub open spec fn spec_insert(s: Seq<WeightLine>, x: WeightLine) -> Seq<WeightLine>
    decreases s.len(),
{
    if s.len() == 0 {
        seq![x]
    } else if s.last().timestamp.le(x.timestamp) {
        s.push(x)
    } else {
        spec_insert(s.drop_last(), x).push(s.last())
    }
}

/// The stable chronological sort of a record sequence, defined by inserting
/// the records one after the other in input order.
pub open spec fn spec_sort(s: Seq<WeightLine>) -> Seq<WeightLine>
    decreases s.len(),
{
    if s.len() == 0 {
        Seq::empty()
    } else {
        spec_insert(spec_sort(s.drop_last()), s.last())
    }
}

proof fn lemma_insert_elems(s: Seq<WeightLine>, x: WeightLine)
    ensures
        spec_insert(s, x).len() == s.len() + 1,
        forall|i: int|
            0 <= i < spec_insert(s, x).len() ==> (#[trigger] spec_insert(s, x)[i] == x
                || s.contains(spec_insert(s, x)[i])),
    decreases s.len(),
{
    if s.len() == 0 {
    } else if s.last().timestamp.le(x.timestamp) {
        assert(forall|i: int| 0 <= i < s.len() ==> s.contains(#[trigger] s[i]));
    } else {
        lemma_insert_elems(s.drop_last(), x);
        let inner = spec_insert(s.drop_last(), x);
        let r = inner.push(s.last());
        assert forall|i: int| 0 <= i < r.len() implies (#[trigger] r[i] == x || s.contains(
            r[i],
        )) by {
            if i < inner.len() {
                assert(r[i] == inner[i]);
                if inner[i] != x {
                    let j = choose|j: int|
                        0 <= j < s.drop_last().len() && s.drop_last()[j] == inner[i];
                    assert(s[j] == inner[i]);
                }
            } else {
                assert(r[i] == s.last());
                assert(s[s.len() - 1] == s.last());
            }
        }
    }
}

proof fn lemma_insert_sorted(s: Seq<WeightLine>, x: WeightLine)
    requires
        sorted_by_ts(s),
    ensures
        sorted_by_ts(spec_insert(s, x)),
    decreases s.len(),
{
    if s.len() == 0 {
    } else if s.last().timestamp.le(x.timestamp) {
        assert forall|i: int, j: int| 0 <= i <= j < s.push(x).len() implies #[trigger] s.push(
            x,
        )[i].timestamp.le(#[trigger] s.push(x)[j].timestamp) by {
            if j < s.len() {
            } else {
                if i < s.len() {
                    assert(s[i].timestamp.le(s.last().timestamp));
                }
            }
        }
    } else {
        assert(sorted_by_ts(s.drop_last())) by {
            assert(forall|i: int, j: int|
                0 <= i <= j < s.drop_last().len() ==> s.drop_last()[i] == s[i]
                    && s.drop_last()[j] == s[j]);
        }
        lemma_insert_sorted(s.drop_last(), x);
        lemma_insert_elems(s.drop_last(), x);
        let inner = spec_insert(s.drop_last(), x);
        let r = inner.push(s.last());
        assert forall|i: int, j: int| 0 <= i <= j < r.len() implies #[trigger] r[i].timestamp.le(
            #[trigger] r[j].timestamp,
        ) by {
            if j < inner.len() {
            } else {
                assert(r[j] == s.last());
                if i < inner.len() {
                    if inner[i] == x {
                        assert(x.timestamp.le(s.last().timestamp));
                    } else {
                        let k = choose|k: int|
                            0 <= k < s.drop_last().len() && s.drop_last()[k] == inner[i];
                        assert(s[k] == inner[i]);
                        assert(s[k].timestamp.le(s.last().timestamp));
                    }
                }
            }
        }
    }
}

proof fn lemma_insert_multiset(s: Seq<WeightLine>, x: WeightLine)
    ensures
        spec_insert(s, x).to_multiset() =~= s.to_multiset().insert(x),
    decreases s.len(),
{
    broadcast use vstd::seq_lib::group_to_multiset_ensures;

    if s.len() == 0 {
        assert(seq![x] =~= Seq::<WeightLine>::empty().push(x));
        assert(Seq::<WeightLine>::empty().to_multiset() =~= Multiset::<WeightLine>::empty());
    } else if s.last().timestamp.le(x.timestamp) {
    } else {
        lemma_insert_multiset(s.drop_last(), x);
        assert(s.drop_last().push(s.last()) =~= s);
        assert(spec_insert(s.drop_last(), x).push(s.last()).to_multiset() =~= spec_insert(
            s.drop_last(),
            x,
        ).to_multiset().insert(s.last()));
        assert(s.to_multiset() =~= s.drop_last().to_multiset().insert(s.last()));
    }
}

/// The sorted sequence is chronologically ordered.
pub proof fn lemma_spec_sort_sorted(s: Seq<WeightLine>)
    ensures
        sorted_by_ts(spec_sort(s)),
    decreases s.len(),
{
    if s.len() == 0 {
    } else {
        lemma_spec_sort_sorted(s.drop_last());
        lemma_insert_sorted(spec_sort(s.drop_last()), s.last());
    }
}

/// Sorting permutes the records: nothing is lost, duplicated or invented.
pub proof fn lemma_spec_sort_multiset(s: Seq<WeightLine>)
    ensures
        spec_sort(s).to_multiset() =~= s.to_multiset(),
        spec_sort(s).len() == s.len(),
    decreases s.len(),
{
    broadcast use vstd::seq_lib::group_to_multiset_ensures;

    if s.len() == 0 {
    } else {
        lemma_spec_sort_multiset(s.drop_last());
        lemma_insert_multiset(spec_sort(s.drop_last()), s.last());
        lemma_insert_elems(spec_sort(s.drop_last()), s.last());
        assert(s.drop_last().push(s.last()) =~= s);
        assert(s.to_multiset() =~= s.drop_last().to_multiset().insert(s.last()));
    }
}

/// Every record of the sorted sequence is one of the input's.
pub proof fn lemma_spec_sort_wf(s: Seq<WeightLine>)
    requires
        all_wf(s),
    ensures
        all_wf(spec_sort(s)),
    decreases s.len(),
{
    broadcast use vstd::seq_lib::group_to_multiset_ensures;

    lemma_spec_sort_multiset(s);
    assert forall|i: int| 0 <= i < spec_sort(s).len() implies #[trigger] spec_sort(s)[i].wf() by {
        let x = spec_sort(s)[i];
        assert(spec_sort(s).contains(x));
        assert(spec_sort(s).to_multiset().count(x) > 0);
        assert(s.contains(x));
        let j = choose|j: int| 0 <= j < s.len() && s[j] == x;
        assert(s[j].wf());
    }
}

/// Compares two well-formed timestamps chronologically.
fn ts_le_x(a: &Timestamp, b: &Timestamp) -> (r: bool)
    requires
        a.wf(),
        b.wf(),
    ensures
        r == a.le(*b),
{
    let ka: u64 = ((((a.year as u64 * 13 + a.month as u64) * 32 + a.day as u64) * 24
        + a.hour as u64) * 60 + a.minute as u64) * 60 + a.second as u64;
    let kb: u64 = ((((b.year as u64 * 13 + b.month as u64) * 32 + b.day as u64) * 24
        + b.hour as u64) * 60 + b.minute as u64) * 60 + b.second as u64;
    ka <= kb
}

/// Sorts the records chronologically, in place and stably: records with
/// equal timestamps keep their input order.
pub fn sort_records(data: &mut Vec<WeightLine>)
    requires
        all_wf(old(data)@),
    ensures
        final(data)@ == spec_sort(old(data)@),
        sorted_by_ts(final(data)@),
        final(data)@.to_multiset() =~= old(data)@.to_multiset(),
        all_wf(final(data)@),
{
    let ghost input = data@;
    let mut out: Vec<WeightLine> = Vec::new();
    let mut i: usize = 0;
    while i < data.len()
        invariant
            0 <= i <= data.len(),
            data@ == input,
            all_wf(input),
            out@ == spec_sort(input.take(i as int)),
            sorted_by_ts(out@),
            all_wf(out@),
        decreases data.len() - i,
    {
        let x = data[i];
        let ghost pre = out@;
        let mut p: usize = out.len();
        proof {
            assert(pre.take(pre.len() as int) =~= pre);
            assert(pre.skip(pre.len() as int) =~= Seq::<WeightLine>::empty());
            assert(spec_insert(pre, x) + Seq::<WeightLine>::empty() =~= spec_insert(pre, x));
        }
        loop
            invariant
                0 <= p <= out.len(),
                out@ == pre,
                all_wf(pre),
                x.wf(),
                spec_insert(pre, x) == spec_insert(pre.take(p as int), x) + pre.skip(p as int),
            ensures
                p == 0 || pre[p - 1].timestamp.le(x.timestamp),
            decreases p,
        {
            if p == 0 {
                break;
            }
            assert(pre[p - 1].wf());
            if ts_le_x(&out[p - 1].timestamp, &x.timestamp) {
                break;
            }
            proof {
                let tp = pre.take(p as int);
                assert(tp.last() == pre[p - 1]);
                assert(tp.drop_last() =~= pre.take(p - 1));
                assert(spec_insert(tp, x) == spec_insert(pre.take(p - 1), x).push(pre[p - 1]));
                assert(pre.skip(p - 1) =~= seq![pre[p - 1]] + pre.skip(p as int));
                assert(spec_insert(pre.take(p - 1), x).push(pre[p - 1]) + pre.skip(p as int)
                    =~= spec_insert(pre.take(p - 1), x) + pre.skip(p - 1));
            }
            p = p - 1;
        }
        proof {
            let tp = pre.take(p as int);
            if p == 0 {
                assert(tp =~= Seq::<WeightLine>::empty());
                assert(spec_insert(tp, x) =~= tp.push(x));
            } else {
                assert(tp.last() == pre[p - 1]);
                assert(pre[p - 1].timestamp.le(x.timestamp));
                assert(spec_insert(tp, x) =~= tp.push(x));
            }
        }
        out.insert(p, x);
        proof {
            assert(out@ =~= pre.take(p as int) + seq![x] + pre.skip(p as int));
            assert(pre.take(p as int).push(x) + pre.skip(p as int) =~= pre.take(p as int) + seq![
                x,
            ] + pre.skip(p as int));
            assert(out@ =~= spec_insert(pre, x));
            assert(input.take(i + 1).drop_last() =~= input.take(i as int));
            assert(input.take(i + 1).last() == input[i as int]);
            lemma_insert_sorted(pre, x);
            lemma_insert_elems(pre, x);
            assert forall|k: int| 0 <= k < out@.len() implies #[trigger] out@[k].wf() by {
                if out@[k] != x {
                    let j = choose|j: int| 0 <= j < pre.len() && pre[j] == out@[k];
                }
            }
        }
        i = i + 1;
    }
    proof {
        assert(input.take(input.len() as int) =~= input);
    }
    *data = out;
    proof {
        lemma_spec_sort_multiset(input);
    }
}

} // verus!
