//! Sequences of presentation times in increasing order.
use vstd::prelude::*;
use vstd::relations::sorted_by;

verus! {

/// Each time is at least every one before it.
pub open spec fn increasing(times: Seq<i64>) -> bool {
    forall|i: int, j: int| 0 <= i < j < times.len() ==> times[i] <= times[j]
}

/// Each time is later than every one before it.
pub open spec fn strictly_increasing(times: Seq<i64>) -> bool {
    forall|i: int, j: int| 0 <= i < j < times.len() ==> times[i] < times[j]
}

/// The times in increasing order.
pub open spec fn sorted(times: Seq<i64>) -> Seq<i64> {
    times.sort_by(|a: i64, b: i64| a <= b)
}

/// Sorting keeps what is there and puts it in order.
pub proof fn lemma_sorted(times: Seq<i64>)
    ensures
        increasing(sorted(times)),
        sorted(times).to_multiset() == times.to_multiset(),
        sorted(times).len() == times.len(),
        forall|time: i64| sorted(times).contains(time) <==> times.contains(time),
{
    let leq = |a: i64, b: i64| a <= b;
    times.lemma_sort_by_ensures(leq);
    assert forall|i: int, j: int| 0 <= i < j < sorted(times).len() implies sorted(times)[i]
        <= sorted(times)[j] by {
        assert(leq(sorted(times)[i], sorted(times)[j]));
    }
    times.to_multiset_ensures();
    sorted(times).to_multiset_ensures();
    assert forall|time: i64| sorted(times).contains(time) <==> times.contains(time) by {
        assert(sorted(times).to_multiset().count(time) == times.to_multiset().count(time));
    }
}

/// There is one increasing arrangement of given times.
pub proof fn lemma_sorted_unique(times: Seq<i64>, arranged: Seq<i64>)
    requires
        increasing(arranged),
        arranged.to_multiset() == times.to_multiset(),
    ensures
        arranged == sorted(times),
{
    let leq = |a: i64, b: i64| a <= b;
    times.lemma_sort_by_ensures(leq);
    assert(sorted_by(arranged, leq));
    vstd::seq_lib::lemma_sorted_unique(arranged, sorted(times), leq);
}

/// Merges two increasing sequences.
fn merge(a: &Vec<i64>, b: &Vec<i64>) -> (out: Vec<i64>)
    requires
        increasing(a@),
        increasing(b@),
    ensures
        increasing(out@),
        out@.to_multiset() == a@.to_multiset().add(b@.to_multiset()),
{
    broadcast use vstd::multiset::group_multiset_axioms;

    let mut out: Vec<i64> = Vec::new();
    let mut i: usize = 0;
    let mut j: usize = 0;
    proof {
        assert(a@.take(0) =~= Seq::<i64>::empty());
        assert(b@.take(0) =~= Seq::<i64>::empty());
        out@.to_multiset_ensures();
        vstd::multiset::lemma_multiset_empty_len(out@.to_multiset());
        assert(out@.to_multiset() =~= a@.take(0).to_multiset().add(b@.take(0).to_multiset()));
    }
    while i < a.len() || j < b.len()
        invariant
            i <= a@.len(),
            j <= b@.len(),
            increasing(a@),
            increasing(b@),
            increasing(out@),
            out@.to_multiset() == a@.take(i as int).to_multiset().add(
                b@.take(j as int).to_multiset(),
            ),
            forall|k: int, m: int|
                0 <= k < out@.len() && i <= m < a@.len() ==> out@[k] <= a@[m],
            forall|k: int, m: int|
                0 <= k < out@.len() && j <= m < b@.len() ==> out@[k] <= b@[m],
        decreases a@.len() - i + b@.len() - j,
    {
        if j >= b.len() || (i < a.len() && a[i] <= b[j]) {
            let time: i64 = a[i];
            proof {
                vstd::seq_lib::to_multiset_build(out@, time);
                vstd::seq_lib::to_multiset_build(a@.take(i as int), time);
                assert(a@.take(i as int).push(time) =~= a@.take(i + 1));
                assert(out@.push(time).to_multiset() =~= a@.take(i + 1).to_multiset().add(
                    b@.take(j as int).to_multiset(),
                ));
            }
            out.push(time);
            i += 1;
        } else {
            let time: i64 = b[j];
            proof {
                vstd::seq_lib::to_multiset_build(out@, time);
                vstd::seq_lib::to_multiset_build(b@.take(j as int), time);
                assert(b@.take(j as int).push(time) =~= b@.take(j + 1));
                assert(out@.push(time).to_multiset() =~= a@.take(i as int).to_multiset().add(
                    b@.take(j + 1).to_multiset(),
                ));
            }
            out.push(time);
            j += 1;
        }
    }
    assert(a@.take(i as int) =~= a@);
    assert(b@.take(j as int) =~= b@);
    out
}

/// The times from `from` up to `to` in increasing order.
fn sort_part(times: &Vec<i64>, from: usize, to: usize) -> (out: Vec<i64>)
    requires
        from <= to <= times@.len(),
    ensures
        increasing(out@),
        out@.to_multiset() == times@.subrange(from as int, to as int).to_multiset(),
    decreases to - from,
{
    let mut out: Vec<i64> = Vec::new();
    if from == to {
        assert(out@ =~= times@.subrange(from as int, to as int));
        out
    } else if to - from == 1 {
        out.push(times[from]);
        assert(out@ =~= times@.subrange(from as int, to as int));
        out
    } else {
        let middle: usize = from + (to - from) / 2;
        let low = sort_part(times, from, middle);
        let high = sort_part(times, middle, to);
        proof {
            let a = times@.subrange(from as int, middle as int);
            let b = times@.subrange(middle as int, to as int);
            assert(a + b =~= times@.subrange(from as int, to as int));
            vstd::seq_lib::lemma_multiset_commutative(a, b);
        }
        merge(&low, &high)
    }
}

/// Puts times in increasing order.
pub fn sort_times(times: &Vec<i64>) -> (out: Vec<i64>)
    ensures
        out@ == sorted(times@),
{
    let out = sort_part(times, 0, times.len());
    proof {
        assert(times@.subrange(0, times@.len() as int) =~= times@);
        lemma_sorted_unique(times@, out@);
    }
    out
}

/// No two neighbouring times are equal.
pub fn all_distinct(times: &Vec<i64>) -> (distinct: bool)
    requires
        increasing(times@),
    ensures
        distinct == strictly_increasing(times@),
        distinct == times@.no_duplicates(),
{
    let mut i: usize = 1;
    while i < times.len()
        invariant
            1 <= i,
            i <= times@.len() || times@.len() == 0,
            increasing(times@),
            forall|a: int, b: int| 0 <= a < b < i && b < times@.len() ==> times@[a] < times@[b],
        decreases times@.len() - i,
    {
        if times[i - 1] == times[i] {
            assert(!(times@[i - 1] < times@[i as int]));
            return false;
        }
        assert forall|a: int, b: int| 0 <= a < b < i + 1 && b < times@.len() implies times@[a]
            < times@[b] by {
            if b == i && a < i - 1 {
                assert(times@[a] < times@[i - 1]);
            }
        }
        i += 1;
    }
    true
}

/// Whether `time` is among increasing times.
pub fn find_time(times: &Vec<i64>, time: i64) -> (found: bool)
    requires
        increasing(times@),
    ensures
        found == times@.contains(time),
{
    let mut low: usize = 0;
    let mut high: usize = times.len();
    while low < high
        invariant
            low <= high <= times@.len(),
            increasing(times@),
            forall|k: int| 0 <= k < low ==> times@[k] < time,
            forall|k: int| high <= k < times@.len() ==> times@[k] > time,
        decreases high - low,
    {
        let middle: usize = low + (high - low) / 2;
        let at: i64 = times[middle];
        if at == time {
            assert(times@[middle as int] == time);
            return true;
        } else if at < time {
            assert forall|k: int| 0 <= k < middle + 1 implies times@[k] < time by {
                if k < middle {
                    assert(times@[k] <= times@[middle as int]);
                }
            }
            low = middle + 1;
        } else {
            assert forall|k: int| middle <= k < times@.len() implies times@[k] > time by {
                if k > middle {
                    assert(times@[middle as int] <= times@[k]);
                }
            }
            high = middle;
        }
    }
    assert forall|k: int| 0 <= k < times@.len() implies times@[k] != time by {
        if k < low {
            assert(times@[k] < time);
        } else {
            assert(times@[k] > time);
        }
    }
    false
}

} // verus!
