//! Sharing an H.264 clip out to several decoders: where it may be cut, and which picture
//! serves which epoch.
//!
//! A clip is cut only at verified IDR access units whose presentation times strictly follow
//! every earlier access unit. Which picture serves an epoch is computed once from the times
//! of the container, so the cuts cannot change it.
use vstd::prelude::*;
use std::ops::Range;
use crate::arith::{clamp_i64, saturating_difference};
use crate::order::strictly_increasing;
use crate::nal::{
    annexb, fault_from, frames_from, frames_inside, law_framed_data_is_stored_units,
    law_header_rules, lemma_annexb_push, length_prefixed, prefix_limit, push_unit, split_units,
    units_of, Frame, HeaderRule,
};
use crate::video::{
    disposable, epoch_end, epoch_end_spec, is_side_unit, is_unreferenced_slice, midpoint,
    neighbours_ok,
};

verus! {

/// How a clip is shared out to several decoders.
#[derive(Clone, Copy, Debug)]
pub struct ParallelConfig {
    /// Requested decode workers; at least two are needed to share a clip out.
    pub workers: usize,
    /// Consecutive spans are merged until a chunk covers at least this much media.
    pub chunk_target_ms: u64,
    /// Upper bound for decoded chunk tensors that were not handed over yet.
    pub buffer_bytes: usize,
}

/// One selected picture: presentation time and the epoch range it serves.
#[derive(Clone, Copy, Debug, PartialEq, Eq)]
pub struct Selection {
    pub pts: i64,
    pub epochs: (usize, usize),
}

/// One past the last epoch that `selections` serve.
pub open spec fn epochs_served(selections: Seq<Selection>) -> usize {
    if selections.len() == 0 {
        0
    } else {
        selections.last().epochs.1
    }
}

/// The presentation time after picture `i`.
pub open spec fn following(presented: Seq<i64>, i: int) -> Option<i64> {
    if i + 1 < presented.len() {
        Some(presented[i + 1])
    } else {
        None
    }
}

/// The selections that the first `count` presented pictures serve.
pub open spec fn selections_of(
    presented: Seq<i64>,
    window_ms: u64,
    total: usize,
    count: nat,
) -> Seq<Selection>
    decreases count,
{
    if count == 0 {
        Seq::empty()
    } else {
        let i = count - 1;
        let earlier = selections_of(presented, window_ms, total, i as nat);
        let end = epoch_end_spec(presented[i], following(presented, i), window_ms, total);
        if epochs_served(earlier) < end {
            earlier.push(Selection { pts: presented[i], epochs: (epochs_served(earlier), end) })
        } else {
            earlier
        }
    }
}

/// Every neighbouring pair of presentation times stays inside the machine integers.
pub open spec fn steps_ok(presented: Seq<i64>, window_ms: u64) -> bool {
    forall|i: int|
        0 <= i < presented.len() - 1 ==> neighbours_ok(
            #[trigger] presented[i],
            presented[i + 1],
            window_ms,
        )
}

/// Assigns every epoch to the picture that serves it, from the presentation times in
/// presentation order.
pub fn assign_epochs(presented: &[i64], window_ms: u64, total: usize) -> (out: Vec<Selection>)
    requires
        steps_ok(presented@, window_ms),
    ensures
        out@ == selections_of(presented@, window_ms, total, presented@.len()),
{
    let mut epoch: usize = 0;
    let mut out: Vec<Selection> = Vec::new();
    let mut i: usize = 0;
    while i < presented.len()
        invariant
            i <= presented@.len(),
            steps_ok(presented@, window_ms),
            out@ == selections_of(presented@, window_ms, total, i as nat),
            epoch == epochs_served(out@),
        decreases presented.len() - i,
    {
        let pts: i64 = presented[i];
        let next: Option<i64> = if i + 1 < presented.len() {
            Some(presented[i + 1])
        } else {
            None
        };
        let end: usize = epoch_end(pts, next, window_ms, total);
        if epoch < end {
            out.push(Selection { pts, epochs: (epoch, end) });
            epoch = end;
        }
        i += 1;
    }
    out
}

/// The selections serve the epochs from zero on, one after the other, each at least one.
pub open spec fn contiguous(selections: Seq<Selection>) -> bool {
    &&& selections.len() > 0 ==> selections[0].epochs.0 == 0
    &&& forall|i: int|
        #![trigger selections[i]]
        0 <= i < selections.len() ==> selections[i].epochs.0 < selections[i].epochs.1
    &&& forall|i: int|
        0 < i < selections.len() ==> #[trigger] selections[i].epochs.0 == selections[i - 1].epochs.1
}

/// What selections hand on, call by call: each epoch, and the time of the picture that serves
/// it.
pub open spec fn epoch_calls(selections: Seq<Selection>) -> Seq<(usize, i64)>
    decreases selections.len(),
{
    if selections.len() == 0 {
        Seq::empty()
    } else {
        let last = selections.last();
        epoch_calls(selections.drop_last()) + Seq::new(
            (last.epochs.1 - last.epochs.0) as nat,
            |i: int| ((last.epochs.0 + i) as usize, last.pts),
        )
    }
}

/// Every epoch before `total` is called once, in order, and with the time of the picture that
/// `selections` name for it.
pub open spec fn called_in_turn(selections: Seq<Selection>, total: usize) -> bool {
    let calls = epoch_calls(selections);
    &&& calls.len() == total
    &&& forall|epoch: int| 0 <= epoch < total ==> (#[trigger] calls[epoch]).0 == epoch
    &&& forall|i: int|
        0 <= i < selections.len() ==> (#[trigger] selections[i]).epochs.1 <= total
    &&& forall|i: int, epoch: int|
        0 <= i < selections.len() && selections[i].epochs.0 <= epoch < selections[i].epochs.1
            ==> (#[trigger] calls[epoch]).1 == (#[trigger] selections[i]).pts
}

/// Presentation times in presentation order, none before the start of the movie, and
/// all of them at epochs that a machine word can count.
pub open spec fn presentable(presented: Seq<i64>, window_ms: u64) -> bool {
    &&& window_ms > 0
    &&& forall|i: int, j: int| 0 <= i <= j < presented.len() ==> presented[i] <= presented[j]
    &&& forall|i: int|
        #![trigger presented[i]]
        0 <= i < presented.len() ==> 0 <= presented[i] && presented[i] as int / (
        window_ms as int) < usize::MAX
}

/// One past the last epoch that picture `i` may serve.
pub open spec fn end_of(presented: Seq<i64>, window_ms: u64, total: usize, i: int) -> usize {
    epoch_end_spec(presented[i], following(presented, i), window_ms, total)
}

proof fn lemma_selections_chain(presented: Seq<i64>, window_ms: u64, total: usize, count: nat)
    requires
        count <= presented.len(),
    ensures
        contiguous(selections_of(presented, window_ms, total, count)),
        epochs_served(selections_of(presented, window_ms, total, count)) <= total,
        forall|j: int|
            0 <= j < count ==> #[trigger] end_of(presented, window_ms, total, j) <= epochs_served(
                selections_of(presented, window_ms, total, count),
            ),
    decreases count,
{
    if count > 0 {
        lemma_selections_chain(presented, window_ms, total, (count - 1) as nat);
        let i = count - 1;
        assert(end_of(presented, window_ms, total, i) <= total);
    }
}

/// Every epoch is served exactly once and in order: the selections are contiguous from
/// the first epoch to the last.
pub proof fn law_every_epoch_served_once(presented: Seq<i64>, window_ms: u64, total: usize)
    requires
        presented.len() > 0,
    ensures
        contiguous(selections_of(presented, window_ms, total, presented.len())),
        epochs_served(selections_of(presented, window_ms, total, presented.len())) == total,
{
    lemma_selections_chain(presented, window_ms, total, presented.len());
    let last = presented.len() - 1;
    assert(end_of(presented, window_ms, total, last) == total);
}

/// The picture behind selection `k`.
proof fn lemma_selection_source(
    presented: Seq<i64>,
    window_ms: u64,
    total: usize,
    count: nat,
    k: int,
) -> (i: int)
    requires
        count <= presented.len(),
        0 <= k < selections_of(presented, window_ms, total, count).len(),
    ensures
        0 <= i < count,
        ({
            let s = selections_of(presented, window_ms, total, count)[k];
            &&& s.pts == presented[i]
            &&& s.epochs.1 == end_of(presented, window_ms, total, i)
            &&& forall|j: int|
                0 <= j < i ==> #[trigger] end_of(presented, window_ms, total, j) <= s.epochs.0
        }),
    decreases count,
{
    let earlier = selections_of(presented, window_ms, total, (count - 1) as nat);
    lemma_selections_chain(presented, window_ms, total, (count - 1) as nat);
    if k < earlier.len() {
        lemma_selection_source(presented, window_ms, total, (count - 1) as nat, k)
    } else {
        count - 1
    }
}

/// Selections present in the order of the pictures that they name.
pub proof fn lemma_selections_ascend(
    presented: Seq<i64>,
    window_ms: u64,
    total: usize,
    count: nat,
)
    requires
        count <= presented.len(),
        strictly_increasing(presented),
    ensures
        ({
            let selections = selections_of(presented, window_ms, total, count);
            &&& forall|i: int, j: int|
                0 <= i < j < selections.len() ==> selections[i].pts < selections[j].pts
            &&& forall|i: int|
                0 <= i < selections.len() ==> presented.contains((#[trigger] selections[i]).pts)
                    && selections[i].pts <= presented[count - 1]
        }),
    decreases count,
{
    if count > 0 {
        lemma_selections_ascend(presented, window_ms, total, (count - 1) as nat);
        let earlier = selections_of(presented, window_ms, total, (count - 1) as nat);
        let selections = selections_of(presented, window_ms, total, count);
        assert(presented.contains(presented[count - 1]));
        assert forall|i: int| 0 <= i < earlier.len() implies (#[trigger] earlier[i]).pts
            < presented[count - 1] by {
            assert(count > 1);
            assert(presented[count - 2] < presented[count - 1]);
        }
        assert forall|i: int| 0 <= i < selections.len() implies presented.contains(
            (#[trigger] selections[i]).pts,
        ) && selections[i].pts <= presented[count - 1] by {
            if i < earlier.len() {
                assert(selections[i] == earlier[i]);
            }
        }
        assert forall|i: int, j: int| 0 <= i < j < selections.len() implies selections[i].pts
            < selections[j].pts by {
            assert(selections[i] == earlier[i]);
            if j < earlier.len() {
                assert(selections[j] == earlier[j]);
            }
        }
    }
}

proof fn lemma_end_of(presented: Seq<i64>, window_ms: u64, total: usize, i: int, epoch: int)
    requires
        presentable(presented, window_ms),
        0 <= i < presented.len() - 1,
        0 <= epoch < total,
    ensures
        epoch < end_of(presented, window_ms, total, i) <==> 2 * (epoch * window_ms) <= presented[i]
            + presented[i + 1],
{
    let w = window_ms as int;
    let p = presented[i] as int;
    let n = presented[i + 1] as int;
    assert(presented[i] <= presented[i + 1]);
    let m = midpoint(p, n);
    assert(m as u64 == m);
    assert(m / w <= n / w) by (nonlinear_arith)
        requires
            m <= n,
            w > 0,
    ;
    assert(m / w + 1 <= usize::MAX);
    assert(epoch <= m / w <==> epoch * w <= m) by (nonlinear_arith)
        requires
            w > 0,
            0 <= epoch,
            0 <= m,
    ;
}

/// The distance between two times.
pub open spec fn distance(a: int, b: int) -> int {
    if a <= b {
        b - a
    } else {
        a - b
    }
}

/// Every epoch is served by the picture presented nearest to the epoch's start, and by
/// the earlier one where two are equally near.
pub proof fn law_nearest_picture_serves_epoch(
    presented: Seq<i64>,
    window_ms: u64,
    total: usize,
    k: int,
    epoch: int,
    other: int,
)
    requires
        presentable(presented, window_ms),
        0 <= k < selections_of(presented, window_ms, total, presented.len()).len(),
        selections_of(presented, window_ms, total, presented.len())[k].epochs.0 <= epoch
            < selections_of(presented, window_ms, total, presented.len())[k].epochs.1,
        0 <= other < presented.len(),
    ensures
        ({
            let served = selections_of(presented, window_ms, total, presented.len())[k].pts as int;
            let start = epoch * window_ms;
            let q = presented[other] as int;
            &&& distance(served, start) <= distance(q, start)
            &&& distance(served, start) == distance(q, start) ==> served <= q
        }),
{
    let n = presented.len();
    let s = selections_of(presented, window_ms, total, n)[k];
    let i = lemma_selection_source(presented, window_ms, total, n, k);
    lemma_selections_chain(presented, window_ms, total, n);
    assert(end_of(presented, window_ms, total, i) <= total);
    let start = epoch * window_ms;
    if other > i {
        lemma_end_of(presented, window_ms, total, i, epoch);
        assert(presented[i + 1] <= presented[other]);
        assert(presented[i] <= presented[i + 1]);
    } else if other < i {
        lemma_end_of(presented, window_ms, total, i - 1, epoch);
        assert(end_of(presented, window_ms, total, i - 1) <= s.epochs.0);
        assert(presented[other] <= presented[i - 1]);
        assert(presented[i - 1] <= presented[i]);
    }
}

/// The earliest presentation time among the samples from `k` on.
pub open spec fn earliest_from(pts: Seq<i64>, k: int) -> i64
    decreases pts.len() - k,
{
    if k < 0 || k >= pts.len() {
        i64::MAX
    } else if pts[k] < earliest_from(pts, k + 1) {
        pts[k]
    } else {
        earliest_from(pts, k + 1)
    }
}

/// Every sample before `k` presents strictly before every sample from `k` on.
pub open spec fn clean_cut(pts: Seq<i64>, k: int) -> bool {
    forall|i: int, j: int| 0 <= i < k && k <= j < pts.len() ==> pts[i] < pts[j]
}

/// A chunk that starts at `start` ends before sample `k`.
pub open spec fn chunk_ends_at(
    pts: Seq<i64>,
    split_ok: Seq<bool>,
    target_ms: u64,
    start: int,
    k: int,
) -> bool {
    &&& k > start
    &&& split_ok[k]
    &&& clean_cut(pts, k)
    &&& clamp_i64(earliest_from(pts, k) - earliest_from(pts, start)) >= target_ms as i64
}

/// The first samples of the chunks among the first `count` samples.
pub open spec fn chunk_starts(
    pts: Seq<i64>,
    split_ok: Seq<bool>,
    target_ms: u64,
    count: nat,
) -> Seq<usize>
    decreases count,
{
    if count == 0 {
        seq![0usize]
    } else {
        let k = count - 1;
        let earlier = chunk_starts(pts, split_ok, target_ms, k as nat);
        if chunk_ends_at(pts, split_ok, target_ms, earlier.last() as int, k) {
            earlier.push(k as usize)
        } else {
            earlier
        }
    }
}

/// The ranges from each start to the next, the last one up to `end`.
pub open spec fn ranges_between(starts: Seq<usize>, end: usize) -> Seq<Range<usize>> {
    Seq::new(
        starts.len(),
        |i: int|
            Range {
                start: starts[i],
                end: if i + 1 < starts.len() {
                    starts[i + 1]
                } else {
                    end
                },
            },
    )
}

/// The chunks of a clip.
pub open spec fn chunks_of(pts: Seq<i64>, split_ok: Seq<bool>, target_ms: u64) -> Seq<Range<usize>> {
    if pts.len() == 0 {
        Seq::empty()
    } else {
        ranges_between(
            chunk_starts(pts, split_ok, target_ms, pts.len()),
            pts.len() as usize,
        )
    }
}

proof fn lemma_earliest(pts: Seq<i64>, k: int)
    requires
        0 <= k <= pts.len(),
    ensures
        forall|j: int| k <= j < pts.len() ==> earliest_from(pts, k) <= #[trigger] pts[j],
        k < pts.len() ==> exists|j: int|
            k <= j < pts.len() && #[trigger] pts[j] == earliest_from(pts, k),
    decreases pts.len() - k,
{
    if k < pts.len() {
        lemma_earliest(pts, k + 1);
        if pts[k] < earliest_from(pts, k + 1) {
            assert(pts[k] == earliest_from(pts, k));
        } else if k + 1 < pts.len() {
            let j = choose|j: int|
                k + 1 <= j < pts.len() && #[trigger] pts[j] == earliest_from(pts, k + 1);
            assert(pts[j] == earliest_from(pts, k));
        } else {
            assert(pts[k] == i64::MAX);
            assert(pts[k] == earliest_from(pts, k));
        }
    }
}

/// Splits decode-order samples at the valid boundaries: sample `k` may start a chunk
/// where `split_ok[k]` says that it can be decoded on its own, where every earlier
/// sample presents strictly before every later one, and where the chunk before it covers
/// at least `target_ms` of media.
pub fn plan_chunks(pts: &[i64], split_ok: &[bool], target_ms: u64) -> (chunks: Vec<Range<usize>>)
    requires
        pts@.len() > 1 ==> split_ok@.len() >= pts@.len(),
    ensures
        chunks@ == chunks_of(pts@, split_ok@, target_ms),
{
    let n: usize = pts.len();
    let mut chunks: Vec<Range<usize>> = Vec::new();
    if n == 0 {
        assert(chunks@ =~= Seq::<Range<usize>>::empty());
        return chunks;
    }
    let mut suffix_min: Vec<i64> = Vec::new();
    // Filled from the end, so that the entry for sample `k` stands at `n - k`.
    suffix_min.push(i64::MAX);
    let mut filled: usize = 0;
    while filled < n
        invariant
            filled <= n == pts@.len(),
            suffix_min@.len() == filled + 1,
            forall|m: int| 0 <= m <= filled ==> #[trigger] suffix_min@[m] == earliest_from(pts@, n - m),
        decreases n - filled,
    {
        let earliest: i64 = suffix_min[filled].min(pts[n - 1 - filled]);
        suffix_min.push(earliest);
        filled += 1;
    }
    let mut start: usize = 0;
    let mut prefix_max: i64 = i64::MIN;
    let mut k: usize = 0;
    let ghost mut starts: Seq<usize> = seq![0usize];
    while k < n
        invariant
            k <= n == pts@.len(),
            n > 1 ==> split_ok@.len() >= n,
            suffix_min@.len() == n + 1,
            forall|m: int| 0 <= m <= n ==> #[trigger] suffix_min@[m] == earliest_from(pts@, n - m),
            starts == chunk_starts(pts@, split_ok@, target_ms, k as nat),
            starts.len() > 0,
            start == starts.last(),
            start <= k,
            start < n,
            forall|i: int| 0 <= i < k ==> #[trigger] pts@[i] <= prefix_max,
            k == 0 ==> prefix_max == i64::MIN,
            k > 0 ==> exists|i: int| 0 <= i < k && #[trigger] pts@[i] == prefix_max,
            chunks@.len() == starts.len() - 1,
            forall|i: int|
                0 <= i < chunks@.len() ==> #[trigger] chunks@[i] == (Range {
                    start: starts[i],
                    end: starts[i + 1],
                }),
        decreases n - k,
    {
        assert(suffix_min@[n - k] == earliest_from(pts@, k as int));
        assert(suffix_min@[n - start] == earliest_from(pts@, start as int));
        proof {
            lemma_earliest(pts@, k as int);
            if k > 0 {
                assert(prefix_max < earliest_from(pts@, k as int) <==> clean_cut(pts@, k as int)) by {
                    let i = choose|i: int| 0 <= i < k && #[trigger] pts@[i] == prefix_max;
                    let j = choose|j: int|
                        k <= j < pts@.len() && #[trigger] pts@[j] == earliest_from(pts@, k as int);
                    assert(clean_cut(pts@, k as int) ==> pts@[i] < pts@[j]);
                }
            }
        }
        if k > start && split_ok[k] && prefix_max < suffix_min[n - k] && saturating_difference(
            suffix_min[n - k],
            suffix_min[n - start],
        ) >= target_ms as i64 {
            chunks.push(start..k);
            proof {
                starts = starts.push(k);
            }
            start = k;
        }
        if pts[k] > prefix_max {
            prefix_max = pts[k];
            assert(pts@[k as int] == prefix_max);
        } else if k == 0 {
            assert(pts@[0] == prefix_max);
        }
        k += 1;
    }
    chunks.push(start..n);
    assert(chunks@ =~= ranges_between(starts, n));
    chunks
}

proof fn lemma_chunk_starts(pts: Seq<i64>, split_ok: Seq<bool>, target_ms: u64, count: nat)
    requires
        count <= pts.len() <= usize::MAX,
    ensures
        ({
            let starts = chunk_starts(pts, split_ok, target_ms, count);
            &&& starts.len() > 0
            &&& starts[0] == 0
            &&& starts.last() == 0 || starts.last() < count
            &&& forall|i: int|
                0 < i < starts.len() ==> {
                    &&& #[trigger] starts[i] < count
                    &&& chunk_ends_at(
                        pts,
                        split_ok,
                        target_ms,
                        starts[i - 1] as int,
                        starts[i] as int,
                    )
                }
        }),
    decreases count,
{
    if count > 0 {
        lemma_chunk_starts(pts, split_ok, target_ms, (count - 1) as nat);
    }
}

/// The chunks of a clip are nonempty, follow each other without a gap or an overlap, and
/// hold every sample.
pub proof fn law_chunks_partition_samples(pts: Seq<i64>, split_ok: Seq<bool>, target_ms: u64)
    requires
        0 < pts.len() <= usize::MAX,
    ensures
        ({
            let chunks = chunks_of(pts, split_ok, target_ms);
            &&& chunks.len() > 0
            &&& chunks[0].start == 0
            &&& chunks.last().end == pts.len()
            &&& forall|i: int|
                0 <= i < chunks.len() ==> (#[trigger] chunks[i]).start < chunks[i].end
                    <= pts.len()
            &&& forall|i: int|
                0 < i < chunks.len() ==> (#[trigger] chunks[i]).start == chunks[i - 1].end
        }),
{
    lemma_chunk_starts(pts, split_ok, target_ms, pts.len());
    let starts = chunk_starts(pts, split_ok, target_ms, pts.len());
    let chunks = chunks_of(pts, split_ok, target_ms);
    assert forall|i: int| 0 <= i < chunks.len() implies (#[trigger] chunks[i]).start
        < chunks[i].end <= pts.len() by {
        if i + 1 < starts.len() {
            assert(starts[i + 1] < pts.len());
        } else if i > 0 {
            assert(starts[i] < pts.len());
        }
    }
}

/// Every chunk after the first starts at a sample that can be decoded on its own, presents
/// strictly after everything before it, and follows at least `target_ms` of media in the
/// chunk before it.
pub proof fn law_chunks_start_cleanly(
    pts: Seq<i64>,
    split_ok: Seq<bool>,
    target_ms: u64,
    chunk: int,
)
    requires
        0 < pts.len() <= usize::MAX,
        0 < chunk < chunks_of(pts, split_ok, target_ms).len(),
    ensures
        ({
            let start = chunks_of(pts, split_ok, target_ms)[chunk].start as int;
            let before = chunks_of(pts, split_ok, target_ms)[chunk - 1].start as int;
            &&& split_ok[start]
            &&& clean_cut(pts, start)
            &&& clamp_i64(earliest_from(pts, start) - earliest_from(pts, before))
                >= target_ms as i64
        }),
{
    lemma_chunk_starts(pts, split_ok, target_ms, pts.len());
}

/// The type of an H.264 NAL unit.
pub open spec fn avc_type(data: Seq<u8>, frame: Frame) -> u8 {
    data[frame.start as int] & 31
}

/// A type that carries coded picture data other than an IDR slice.
pub open spec fn is_other_slice(unit_type: u8) -> bool {
    1 <= unit_type <= 4 || 19 <= unit_type <= 21
}

/// An access unit is well formed, holds an IDR slice, and no other coded picture data.
pub open spec fn only_idr_slices(data: Seq<u8>, length_size: nat) -> bool {
    let frames = frames_from(data, 0, length_size, HeaderRule::Avc);
    &&& 1 <= length_size <= 4
    &&& fault_from(data, 0, length_size, HeaderRule::Avc) is None
    &&& exists|i: int| 0 <= i < frames.len() && avc_type(data, #[trigger] frames[i]) == 5
    &&& forall|i: int|
        0 <= i < frames.len() ==> !is_other_slice(avc_type(data, #[trigger] frames[i]))
}

/// A sync flag alone is insufficient: every NAL header must be valid, and all coded picture
/// data must be IDR slices. Malformed candidates fall back to normal decoding, where the
/// strict conversion reports what is wrong with them.
pub fn first_vcl_is_idr(data: &[u8], length_size: usize) -> (idr: bool)
    ensures
        idr == only_idr_slices(data@, length_size as nat),
{
    if length_size < 1 || length_size > 4 {
        return false;
    }
    let framing = split_units(data, length_size, HeaderRule::Avc);
    if framing.fault.is_some() {
        return false;
    }
    let mut found: bool = false;
    let mut i: usize = 0;
    while i < framing.frames.len()
        invariant
            i <= framing.frames@.len(),
            framing.frames@ == frames_from(data@, 0, length_size as nat, HeaderRule::Avc),
            frames_inside(data@, framing.frames@, HeaderRule::Avc),
            forall|k: int|
                0 <= k < i ==> !is_other_slice(avc_type(data@, #[trigger] framing.frames@[k])),
            found <==> exists|k: int|
                0 <= k < i && avc_type(data@, #[trigger] framing.frames@[k]) == 5,
        decreases framing.frames.len() - i,
    {
        let frame = framing.frames[i];
        let unit_type: u8 = data[frame.start] & 31;
        assert(unit_type == avc_type(data@, framing.frames@[i as int]));
        if unit_type == 5 {
            found = true;
        } else if (1 <= unit_type && unit_type <= 4) || (19 <= unit_type && unit_type <= 21) {
            return false;
        }
        i += 1;
    }
    found
}

/// A chunk can start at a sample.
pub open spec fn starts_chunk(is_sync: bool, data: Seq<u8>, length_size: nat) -> bool {
    is_sync && only_idr_slices(data, length_size)
}

/// A sample that the container does not mark as a start never starts a chunk, and one that it
/// marks only does where its slices are all IDR slices.
pub proof fn law_mark_alone_starts_no_chunk(data: Seq<u8>, length_size: nat)
    ensures
        !starts_chunk(false, data, length_size),
        starts_chunk(true, data, length_size) <==> only_idr_slices(data, length_size),
{
}

/// Whether a chunk can start at a sample: the container says so, and so do its NAL units.
pub fn can_start_chunk(is_sync: bool, data: &[u8], length_size: usize) -> (ok: bool)
    ensures
        ok == starts_chunk(is_sync, data@, length_size as nat),
        ok == (is_sync && only_idr_slices(data@, length_size as nat)),
{
    is_sync && first_vcl_is_idr(data, length_size)
}

/// The most that planning may take for its tables.
pub const PLAN_BUDGET_BYTES: usize = 32 * 1024 * 1024;

/// What planning takes for one sample: all its vectors at once, with their spare capacity
/// and the containers of its chunk.
pub const PLAN_BYTES_PER_SAMPLE: usize = 192;

/// The tables for `samples` samples fit the allowance.
pub fn plan_fits_budget(samples: usize) -> (fits: bool)
    ensures
        fits <==> samples * PLAN_BYTES_PER_SAMPLE <= PLAN_BUDGET_BYTES,
{
    match samples.checked_mul(PLAN_BYTES_PER_SAMPLE) {
        Some(bytes) => bytes <= PLAN_BUDGET_BYTES,
        None => false,
    }
}

/// The parameter set whose two-byte length stands at `pos`, where the record holds all of it.
pub open spec fn set_at(raw: Seq<u8>, pos: int) -> Option<Seq<u8>> {
    if pos + 2 <= raw.len() {
        let n = raw[pos] * 256 + raw[pos + 1];
        if pos + 2 + n <= raw.len() {
            Some(raw.subrange(pos + 2, pos + 2 + n))
        } else {
            None
        }
    } else {
        None
    }
}

/// `count` parameter sets from `pos` on, and where they end.
pub open spec fn sets_from(raw: Seq<u8>, pos: int, count: nat) -> Option<(Seq<Seq<u8>>, int)>
    decreases count,
{
    if count == 0 {
        Some((Seq::empty(), pos))
    } else {
        match set_at(raw, pos) {
            None => None,
            Some(unit) => match sets_from(raw, pos + 2 + unit.len(), (count - 1) as nat) {
                None => None,
                Some((rest, end)) => Some((seq![unit] + rest, end)),
            },
        }
    }
}

/// The sequence and picture parameter sets of an avcC record.
pub open spec fn avcc_sets(raw: Seq<u8>) -> Option<(Seq<Seq<u8>>, Seq<Seq<u8>>)> {
    if raw.len() <= 5 {
        None
    } else {
        match sets_from(raw, 6, (raw[5] & 31) as nat) {
            None => None,
            Some((sps, end)) => if end >= raw.len() {
                None
            } else {
                match sets_from(raw, end + 1, raw[end] as nat) {
                    None => None,
                    Some((pps, _)) => Some((sps, pps)),
                }
            },
        }
    }
}

/// The avcC record ends before what it announces.
#[derive(Clone, Copy, Debug, PartialEq, Eq, Structural)]
pub struct TruncatedAvcc;

/// Appends `count` parameter sets to an Annex-B stream and gives the place after them.
fn append_sets(out: &mut Vec<u8>, raw: &[u8], from: usize, count: u8, units: Ghost<Seq<Seq<u8>>>) -> (end:
    Option<usize>)
    requires
        old(out)@ == annexb(units@),
        from <= raw@.len(),
    ensures
        match end {
            None => sets_from(raw@, from as int, count as nat) is None,
            Some(end) => {
                &&& sets_from(raw@, from as int, count as nat) matches Some((sets, place))
                &&& end == place
                &&& end <= raw@.len()
                &&& final(out)@ == annexb(units@ + sets)
            },
        },
{
    let total: usize = raw.len();
    let mut pos: usize = from;
    let mut left: u8 = count;
    let ghost mut done: Seq<Seq<u8>> = Seq::empty();
    assert(units@ + done =~= units@);
    while left > 0
        invariant
            from <= pos <= total == raw@.len(),
            out@ == annexb(units@ + done),
            match sets_from(raw@, pos as int, left as nat) {
                None => sets_from(raw@, from as int, count as nat) is None,
                Some((rest, end)) => sets_from(raw@, from as int, count as nat) == Some(
                    (done + rest, end),
                ),
            },
        decreases left,
    {
        if total - pos < 2 {
            return None;
        }
        let n: usize = raw[pos] as usize * 256 + raw[pos + 1] as usize;
        if n > total - pos - 2 {
            return None;
        }
        push_unit(out, raw, pos + 2, n);
        proof {
            let unit = raw@.subrange(pos + 2, pos + 2 + n);
            assert(set_at(raw@, pos as int) == Some(unit));
            lemma_annexb_push(units@ + done, unit);
            assert((units@ + done).push(unit) =~= units@ + done.push(unit));
            if let Some((rest, end)) = sets_from(raw@, pos + 2 + n, (left - 1) as nat) {
                assert(done + (seq![unit] + rest) =~= done.push(unit) + rest);
            }
            done = done.push(unit);
        }
        pos = pos + 2 + n;
        left -= 1;
    }
    assert(done + Seq::<Seq<u8>>::empty() =~= done);
    Some(pos)
}

/// The parameter sets of an avcC record as an Annex-B stream.
pub fn annexb_parameter_sets(avcc_raw: &[u8]) -> (out: Result<Vec<u8>, TruncatedAvcc>)
    ensures
        match out {
            Ok(out) => avcc_sets(avcc_raw@) matches Some((sps, pps)) && out@ == annexb(sps + pps),
            Err(_) => avcc_sets(avcc_raw@) is None,
        },
{
    let mut out: Vec<u8> = Vec::new();
    if avcc_raw.len() <= 5 {
        return Err(TruncatedAvcc);
    }
    let none: Ghost<Seq<Seq<u8>>> = Ghost(Seq::empty());
    match append_sets(&mut out, avcc_raw, 6, avcc_raw[5] & 31, none) {
        None => Err(TruncatedAvcc),
        Some(pos) => {
            if pos >= avcc_raw.len() {
                return Err(TruncatedAvcc);
            }
            let sps: Ghost<Seq<Seq<u8>>> = Ghost(
                sets_from(avcc_raw@, 6, (avcc_raw@[5] & 31) as nat)->Some_0.0,
            );
            assert(none@ + sps@ =~= sps@);
            match append_sets(&mut out, avcc_raw, pos + 1, avcc_raw[pos], sps) {
                None => Err(TruncatedAvcc),
                Some(_) => Ok(out),
            }
        },
    }
}

/// Parameter sets as an avcC record stores them, each behind its two-byte length.
pub open spec fn sized_sets(sets: Seq<Seq<u8>>) -> Seq<u8>
    decreases sets.len(),
{
    if sets.len() == 0 {
        Seq::empty()
    } else {
        let n = sets[0].len();
        seq![(n / 256) as u8, (n % 256) as u8] + sets[0] + sized_sets(sets.drop_first())
    }
}

/// Every parameter set is short enough for its two-byte length.
pub open spec fn sets_storable(sets: Seq<Seq<u8>>) -> bool {
    forall|i: int| 0 <= i < sets.len() ==> (#[trigger] sets[i]).len() < 65536
}

proof fn lemma_sets_from(before: Seq<u8>, sets: Seq<Seq<u8>>, after: Seq<u8>)
    requires
        sets_storable(sets),
    ensures
        sets_from(before + sized_sets(sets) + after, before.len() as int, sets.len()) == Some(
            (sets, (before.len() + sized_sets(sets).len()) as int),
        ),
    decreases sets.len(),
{
    let raw = before + sized_sets(sets) + after;
    if sets.len() == 0 {
        assert(sets =~= Seq::empty());
    } else {
        let unit = sets[0];
        let n = unit.len();
        let prefix = seq![(n / 256) as u8, (n % 256) as u8];
        let next = before + prefix + unit;
        assert(raw =~= next + sized_sets(sets.drop_first()) + after);
        lemma_sets_from(next, sets.drop_first(), after);
        let pos = before.len() as int;
        assert(raw[pos] == (n / 256) as u8);
        assert(raw[pos + 1] == (n % 256) as u8);
        assert(raw.subrange(pos + 2, pos + 2 + n) =~= unit);
        assert(set_at(raw, pos) == Some(unit));
        assert(seq![unit] + sets.drop_first() =~= sets);
    }
}

/// An avcC record gives back the parameter sets that it was written with, in order, whatever
/// stands in its first bytes and after its last set.
pub proof fn law_avcc_record_keeps_sets(
    head: Seq<u8>,
    count: u8,
    sps: Seq<Seq<u8>>,
    pps: Seq<Seq<u8>>,
    tail: Seq<u8>,
)
    requires
        head.len() == 5,
        (count & 31) as nat == sps.len(),
        pps.len() < 256,
        sets_storable(sps),
        sets_storable(pps),
    ensures
        avcc_sets(
            head + seq![count] + sized_sets(sps) + seq![pps.len() as u8] + sized_sets(pps) + tail,
        ) == Some((sps, pps)),
{
    let raw = head + seq![count] + sized_sets(sps) + seq![pps.len() as u8] + sized_sets(pps) + tail;
    let first = head + seq![count];
    let rest = seq![pps.len() as u8] + sized_sets(pps) + tail;
    assert(raw =~= first + sized_sets(sps) + rest);
    lemma_sets_from(first, sps, rest);
    let second = head + seq![count] + sized_sets(sps) + seq![pps.len() as u8];
    assert(raw =~= second + sized_sets(pps) + tail);
    lemma_sets_from(second, pps, tail);
    assert(raw[5] == count);
    assert(raw[(6 + sized_sets(sps).len()) as int] == pps.len() as u8);
}

/// An access unit of IDR slices is never left undecoded.
pub proof fn law_idr_is_never_disposable(data: Seq<u8>, length_size: nat)
    requires
        only_idr_slices(data, length_size),
    ensures
        !disposable(data, length_size),
{
    let frames = frames_from(data, 0, length_size, HeaderRule::Avc);
    let i = choose|i: int| 0 <= i < frames.len() && avc_type(data, #[trigger] frames[i]) == 5;
    assert(!is_unreferenced_slice(data, frames[i]) && !is_side_unit(data, frames[i]));
}

/// A selection from `from` up to `to` names the picture at `pts`.
pub open spec fn names(selections: Seq<Selection>, from: int, to: int, pts: i64) -> bool {
    exists|s: int| from <= s < to && (#[trigger] selections[s]).pts == pts
}

/// The selections present in increasing order.
pub open spec fn selections_ascend(selections: Seq<Selection>) -> bool {
    forall|i: int, j: int| 0 <= i < j < selections.len() ==> selections[i].pts <= selections[j].pts
}

/// Whether a selection from `from` up to `to` names the picture at `pts`.
pub fn is_selected(selections: &Vec<Selection>, from: usize, to: usize, pts: i64) -> (found: bool)
    requires
        from <= to <= selections@.len(),
        selections_ascend(selections@),
    ensures
        found == names(selections@, from as int, to as int, pts),
{
    let mut low: usize = from;
    let mut high: usize = to;
    while low < high
        invariant
            from <= low <= high <= to <= selections@.len(),
            selections_ascend(selections@),
            forall|s: int| from <= s < low ==> (#[trigger] selections@[s]).pts < pts,
            forall|s: int| high <= s < to ==> (#[trigger] selections@[s]).pts > pts,
        decreases high - low,
    {
        let middle: usize = low + (high - low) / 2;
        let at: i64 = selections[middle].pts;
        if at == pts {
            assert(selections@[middle as int].pts == pts);
            return true;
        } else if at < pts {
            assert forall|s: int| from <= s < middle + 1 implies (#[trigger] selections@[s]).pts
                < pts by {
                if s < middle {
                    assert(selections@[s].pts <= selections@[middle as int].pts);
                }
            }
            low = middle + 1;
        } else {
            assert forall|s: int| middle <= s < to implies (#[trigger] selections@[s]).pts
                > pts by {
                if s > middle {
                    assert(selections@[middle as int].pts <= selections@[s].pts);
                }
            }
            high = middle;
        }
    }
    assert forall|s: int| from <= s < to implies (#[trigger] selections@[s]).pts != pts by {
        if s < low {
            assert(selections@[s].pts < pts);
        } else {
            assert(selections@[s].pts > pts);
        }
    }
    false
}

/// An access unit can start a chunk exactly where it is a clean run of units, one of them is an
/// IDR slice, of type five, and none is another slice: of types one to four or nineteen to
/// twenty-one.
pub proof fn law_chunk_starts_hold_idr_slices(units: Seq<Seq<u8>>, size: nat)
    requires
        crate::video::valid_units(units, size),
    ensures
        only_idr_slices(length_prefixed(units, size), size) <==> {
            &&& exists|i: int| 0 <= i < units.len() && (#[trigger] units[i])[0] % 32 == 5
            &&& forall|i: int|
                #![trigger units[i]]
                0 <= i < units.len() ==> {
                    let kind = units[i][0] % 32;
                    kind != 1 && kind != 2 && kind != 3 && kind != 4 && kind != 19 && kind != 20
                        && kind != 21
                }
        },
{
    let data = length_prefixed(units, size);
    let frames = frames_from(data, 0, size, HeaderRule::Avc);
    crate::video::lemma_first_bytes(units, size);
    assert forall|i: int| 0 <= i < units.len() implies avc_type(data, #[trigger] frames[i])
        == units[i][0] % 32 by {}
    if only_idr_slices(data, size) {
        let s = choose|i: int| 0 <= i < frames.len() && avc_type(data, #[trigger] frames[i]) == 5;
        assert(units[s][0] % 32 == 5);
        assert forall|i: int| #![trigger units[i]] 0 <= i < units.len() implies {
            let kind = units[i][0] % 32;
            kind != 1 && kind != 2 && kind != 3 && kind != 4 && kind != 19 && kind != 20 && kind
                != 21
        } by {
            assert(!is_other_slice(avc_type(data, frames[i])));
        }
    } else if exists|i: int| 0 <= i < units.len() && (#[trigger] units[i])[0] % 32 == 5 {
        let s = choose|i: int| 0 <= i < units.len() && (#[trigger] units[i])[0] % 32 == 5;
        assert(avc_type(data, frames[s]) == 5);
        let k = choose|i: int|
            0 <= i < frames.len() && is_other_slice(avc_type(data, #[trigger] frames[i]));
        assert(units[k].len() > 0);
    }
}

/// Whatever can start a chunk is a clean run of valid units.
pub proof fn law_only_clean_units_start_chunks(data: Seq<u8>, size: nat)
    requires
        data.len() <= usize::MAX,
        only_idr_slices(data, size),
    ensures
        exists|units: Seq<Seq<u8>>| #[trigger]
            crate::video::valid_units(units, size) && data == length_prefixed(units, size),
{
    let units = units_of(data, frames_from(data, 0, size, HeaderRule::Avc));
    law_framed_data_is_stored_units(data, size, HeaderRule::Avc);
    assert forall|i: int| #![trigger units[i]] 0 <= i < units.len() implies {
        &&& 1 <= units[i].len() < prefix_limit(size)
        &&& units[i][0] < 128
        &&& units[i][0] % 32 != 0
    } by {
        law_header_rules(units[i]);
    }
    assert(crate::video::valid_units(units, size));
}

/// Planning may take thirty-two mebibytes, and reckons with 192 bytes for a sample.
pub proof fn law_planning_allowance()
    ensures
        PLAN_BUDGET_BYTES == 33_554_432,
        PLAN_BYTES_PER_SAMPLE == 192,
{
}

proof fn lemma_sets_read(raw: Seq<u8>, pos: int, count: nat)
    requires
        0 <= pos <= raw.len(),
        sets_from(raw, pos, count) is Some,
    ensures
        ({
            let (sets, end) = sets_from(raw, pos, count)->Some_0;
            &&& pos <= end <= raw.len()
            &&& sets.len() == count
            &&& sets_storable(sets)
            &&& raw.subrange(pos, end) == sized_sets(sets)
        }),
    decreases count,
{
    if count == 0 {
        assert(raw.subrange(pos, pos) =~= sized_sets(Seq::<Seq<u8>>::empty()));
    } else {
        let unit = set_at(raw, pos)->Some_0;
        let n = unit.len() as int;
        let next = pos + 2 + n;
        lemma_sets_read(raw, next, (count - 1) as nat);
        let (rest, end) = sets_from(raw, next, (count - 1) as nat)->Some_0;
        let sets = seq![unit] + rest;
        assert(sets.drop_first() =~= rest);
        assert(sets[0] == unit);
        assert((n / 256) as u8 == raw[pos] && (n % 256) as u8 == raw[pos + 1]);
        assert(raw.subrange(pos, end) =~= seq![raw[pos], raw[pos + 1]] + unit + raw.subrange(
            next,
            end,
        ));
        assert forall|i: int| 0 <= i < sets.len() implies (#[trigger] sets[i]).len() < 65536 by {
            if i > 0 {
                assert(sets[i] == rest[i - 1]);
            }
        }
    }
}

/// The parameter sets of an avcC record are only found where all that it announces stand in
/// it: as many sequence parameter sets as the five low bits of its byte five say, right after
/// that byte, then a count, and as many picture parameter sets.
pub proof fn law_accepted_avcc_holds_its_sets(raw: Seq<u8>)
    requires
        avcc_sets(raw) is Some,
    ensures
        ({
            let (sps, pps) = avcc_sets(raw)->Some_0;
            let middle = 6 + sized_sets(sps).len() as int;
            &&& sps.len() == raw[5] % 32
            &&& middle < raw.len()
            &&& raw.subrange(6, middle) == sized_sets(sps)
            &&& pps.len() == raw[middle]
            &&& middle + 1 + sized_sets(pps).len() <= raw.len()
            &&& raw.subrange(middle + 1, middle + 1 + sized_sets(pps).len()) == sized_sets(pps)
            &&& sets_storable(sps) && sets_storable(pps)
        }),
{
    let b = raw[5];
    assert(b & 31 == b % 32) by (bit_vector);
    lemma_sets_read(raw, 6, (raw[5] & 31) as nat);
    let (sps, end) = sets_from(raw, 6, (raw[5] & 31) as nat)->Some_0;
    assert(raw.subrange(6, end).len() == end - 6);
    lemma_sets_read(raw, end + 1, raw[end] as nat);
    let last = sets_from(raw, end + 1, raw[end] as nat)->Some_0.1;
    assert(raw.subrange(end + 1, last).len() == last - end - 1);
}

proof fn lemma_cuts_are_early(
    pts: Seq<i64>,
    split_ok: Seq<bool>,
    target_ms: u64,
    count: nat,
    c: int,
    k: int,
)
    requires
        count <= pts.len() <= usize::MAX,
        0 <= c < chunk_starts(pts, split_ok, target_ms, count).len(),
        chunk_starts(pts, split_ok, target_ms, count)[c] < k < count,
        c + 1 < chunk_starts(pts, split_ok, target_ms, count).len() ==> k < chunk_starts(
            pts,
            split_ok,
            target_ms,
            count,
        )[c + 1],
    ensures
        !chunk_ends_at(
            pts,
            split_ok,
            target_ms,
            chunk_starts(pts, split_ok, target_ms, count)[c] as int,
            k,
        ),
    decreases count,
{
    let starts = chunk_starts(pts, split_ok, target_ms, count);
    let earlier = chunk_starts(pts, split_ok, target_ms, (count - 1) as nat);
    lemma_chunk_starts(pts, split_ok, target_ms, count);
    lemma_chunk_starts(pts, split_ok, target_ms, (count - 1) as nat);
    if c < earlier.len() {
        assert(starts[c] == earlier[c]);
        if c + 1 < earlier.len() {
            assert(starts[c + 1] == earlier[c + 1]);
        }
    } else {
        assert(starts[c] == count - 1);
    }
    if k < count - 1 {
        lemma_cuts_are_early(pts, split_ok, target_ms, (count - 1) as nat, c, k);
    } else if c + 1 < earlier.len() {
        assert(earlier[c + 1] < count - 1);
    }
}

/// A chunk after the first starts at a sample that can be decoded on its own and that presents,
/// with all that follow it, strictly after all that come before it, and every sample from there
/// on presents at least `target_ms` after some sample of the chunk before or a later one. No
/// sample inside a chunk meets all of this.
pub proof fn law_chunks_are_cut_where_they_may(
    pts: Seq<i64>,
    split_ok: Seq<bool>,
    target_ms: u64,
    c: int,
    k: int,
)
    requires
        0 < pts.len() <= usize::MAX,
        target_ms <= i64::MAX,
        0 <= c < chunks_of(pts, split_ok, target_ms).len(),
        chunks_of(pts, split_ok, target_ms)[c].start < k < pts.len(),
        k <= chunks_of(pts, split_ok, target_ms)[c].end,
    ensures
        ({
            let chunk = chunks_of(pts, split_ok, target_ms)[c];
            let start = chunk.start as int;
            let clean = forall|i: int, j: int|
                0 <= i < k && k <= j < pts.len() ==> pts[i] < pts[j];
            let far = forall|j: int|
                k <= j < pts.len() ==> exists|i: int|
                    start <= i < pts.len() && #[trigger] pts[j] - #[trigger] pts[i] >= target_ms;
            k == chunk.end <==> split_ok[k] && clean && far
        }),
{
    let starts = chunk_starts(pts, split_ok, target_ms, pts.len());
    let chunk = chunks_of(pts, split_ok, target_ms)[c];
    let start = chunk.start as int;
    lemma_chunk_starts(pts, split_ok, target_ms, pts.len());
    lemma_earliest(pts, k);
    lemma_earliest(pts, start);
    let gap = earliest_from(pts, k) - earliest_from(pts, start);
    assert(clamp_i64(gap) >= target_ms as i64 <==> gap >= target_ms);
    let a = choose|i: int|
        start <= i < pts.len() && #[trigger] pts[i] == earliest_from(pts, start);
    let b = choose|j: int| k <= j < pts.len() && #[trigger] pts[j] == earliest_from(pts, k);
    if gap >= target_ms {
        assert forall|j: int| k <= j < pts.len() implies exists|i: int|
            start <= i < pts.len() && #[trigger] pts[j] - #[trigger] pts[i] >= target_ms by {
            assert(pts[j] - pts[a] >= target_ms);
        }
    }
    if forall|j: int|
        k <= j < pts.len() ==> exists|i: int|
            start <= i < pts.len() && #[trigger] pts[j] - #[trigger] pts[i] >= target_ms {
        let i = choose|i: int|
            start <= i < pts.len() && #[trigger] pts[b] - #[trigger] pts[i] >= target_ms;
        assert(pts[i] >= earliest_from(pts, start));
    }
    if k == chunk.end {
        assert(c + 1 < starts.len());
        assert(starts[c + 1] == k);
        assert(chunk_ends_at(pts, split_ok, target_ms, starts[c] as int, starts[c + 1] as int));
    } else {
        lemma_cuts_are_early(pts, split_ok, target_ms, pts.len(), c, k);
    }
}

} // verus!
