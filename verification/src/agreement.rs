//! One decoder and several hand on the same: what a whole run serves, however the clip was
//! shared out.
use std::ops::Range;
use vstd::multiset::Multiset;
use vstd::prelude::*;
use crate::chunk_plan::{
    chunk_plan_of, chunk_times, law_chunks_serve_own_pictures, law_chunks_together_serve_the_clip,
    lemma_kept_contains, lemma_selection_count, lemma_served_by, served_by, served_in_turn,
    ChunkPlanView,
};
use crate::chunk_session::{
    chunk_run, handed_over, law_chunk_ends_well, law_chunk_serves_its_selections,
    law_contiguous_selections_are_handed_over, law_handed_over_epochs_are_called_in_turn,
    law_range_ends_well, law_range_serves_its_selections, picture_fits, range_finished,
    range_opened, range_run, ChunkFrame, ChunkView, HevcPicture, RangeView,
};
use crate::hevc_plan::{
    chunk_units, every_unit, expected_times, goes_on, hevc_plan_of, is_leading_rasl,
    law_selected_picture_is_decoded, law_shared_clip_serves_selections, layout_of,
    lemma_plan_complete, plan_complete, times_of, AccessUnit, HevcLayoutView, HevcPlanView,
};
use crate::order::{lemma_sorted, sorted};
use crate::playback::{
    in_presentation_order, lemma_part_goes_in_turn, lemma_part_spares_selected, lemma_part_units,
    lemma_stretch_by_times, part_of, pending, spares_selected, unit_times, DecodeEvent,
};
use crate::presentation::readable;
use crate::stream_session::{
    finished, law_stream_ends_well, law_stream_serves_its_selections,
    law_stream_that_ends_well_went_in_order, opened, skip_guide, stream_run, stream_selections,
    unit_skipped, Stream,
};
use crate::video::{in_span, kept_times, VideoConfig};
use crate::video_parallel::{
    called_in_turn, chunks_of, clean_cut, law_chunks_partition_samples, law_chunks_start_cleanly,
    law_every_epoch_served_once, lemma_selections_ascend, names, ParallelConfig, Selection,
};

verus! {

/// The session of chunk `c` before its first access unit.
pub open spec fn chunk_opened(plan: ChunkPlanView, stream: Stream, c: int) -> ChunkView {
    crate::chunk_session::opened(
        ChunkFrame {
            width: stream.width,
            height: stream.height,
            samples: (plan.chunks[c].end - plan.chunks[c].start) as usize,
            end: stream.end,
        },
        plan.presented[c],
        plan.selections.subrange(plan.selected[c].start as int, plan.selected[c].end as int),
    )
}

/// The events of chunk `c` bring its session to a good end.
pub open spec fn chunk_ends_well(
    plan: ChunkPlanView,
    stream: Stream,
    runs: Seq<Seq<DecodeEvent>>,
    c: int,
) -> bool {
    &&& chunk_run(chunk_opened(plan, stream, c), runs[c]) is Ok
    &&& crate::chunk_session::finished(
        chunk_run(chunk_opened(plan, stream, c), runs[c])->Ok_0.0,
    ) is Ok
}

/// What the first `count` chunks served, handed over one chunk after the other.
pub open spec fn chunks_served(
    plan: ChunkPlanView,
    stream: Stream,
    runs: Seq<Seq<DecodeEvent>>,
    count: nat,
) -> Seq<Selection>
    decreases count,
{
    if count == 0 {
        Seq::empty()
    } else {
        chunks_served(plan, stream, runs, (count - 1) as nat) + chunk_run(
            chunk_opened(plan, stream, count - 1),
            runs[count - 1],
        )->Ok_0.1
    }
}

/// How many pictures the first `count` chunks resized, by their own counts.
pub open spec fn chunks_resized(
    plan: ChunkPlanView,
    stream: Stream,
    runs: Seq<Seq<DecodeEvent>>,
    count: nat,
) -> int
    decreases count,
{
    if count == 0 {
        0
    } else {
        chunks_resized(plan, stream, runs, (count - 1) as nat) + crate::chunk_session::finished(
            chunk_run(chunk_opened(plan, stream, count - 1), runs[count - 1])->Ok_0.0,
        )->Ok_0.0
    }
}

proof fn lemma_chunks_served(
    plan: ChunkPlanView,
    stream: Stream,
    runs: Seq<Seq<DecodeEvent>>,
    count: nat,
)
    requires
        count <= runs.len(),
        forall|c: int| 0 <= c < count ==> #[trigger] chunk_ends_well(plan, stream, runs, c),
    ensures
        chunks_served(plan, stream, runs, count) == served_in_turn(
            plan.selections,
            plan.selected,
            count,
        ),
        chunks_resized(plan, stream, runs, count) == chunks_served(plan, stream, runs, count).len(),
    decreases count,
{
    if count > 0 {
        lemma_chunks_served(plan, stream, runs, (count - 1) as nat);
        let c = count - 1;
        assert(chunk_ends_well(plan, stream, runs, c));
        let v = chunk_opened(plan, stream, c);
        law_chunk_serves_its_selections(
            ChunkFrame { width: v.width, height: v.height, samples: v.samples, end: v.end },
            v.expected,
            v.wanted,
            runs[c],
        );
    }
}

/// A clip that several decoders share is served as by one decoder: where both ways end well,
/// the chunks together hand on the very selections that the one decoder serves, in the same
/// order, call every epoch once with the same picture, and count as many resized pictures.
pub proof fn law_several_decoders_serve_as_one<E>(
    pts: Seq<i64>,
    idr: Seq<bool>,
    duration_ms: u64,
    config: VideoConfig,
    par: ParallelConfig,
    stream: Stream,
    events: Seq<DecodeEvent>,
    runs: Seq<Seq<DecodeEvent>>,
)
    requires
        pts.len() <= usize::MAX,
        chunk_plan_of(pts, idr, stream.end, duration_ms, config, par) is Ok,
        stream.window_ms == config.window_ms,
        stream.total_epochs == chunk_plan_of(
            pts,
            idr,
            stream.end,
            duration_ms,
            config,
            par,
        )->Ok_0.total_epochs,
        opened(stream, readable::<E>(pts)) is Ok,
        stream_run(opened(stream, readable::<E>(pts))->Ok_0, events) is Ok,
        finished(stream_run(opened(stream, readable::<E>(pts))->Ok_0, events)->Ok_0.0) is Ok,
        spares_selected(events, stream_selections(stream, pts)),
        runs.len() == chunk_plan_of(
            pts,
            idr,
            stream.end,
            duration_ms,
            config,
            par,
        )->Ok_0.chunks.len(),
        forall|c: int|
            0 <= c < runs.len() ==> #[trigger] chunk_ends_well(
                chunk_plan_of(pts, idr, stream.end, duration_ms, config, par)->Ok_0,
                stream,
                runs,
                c,
            ),
    ensures
        ({
            let plan = chunk_plan_of(pts, idr, stream.end, duration_ms, config, par)->Ok_0;
            let (after, out) = stream_run(opened(stream, readable::<E>(pts))->Ok_0, events)->Ok_0;
            let shared = chunks_served(plan, stream, runs, runs.len());
            &&& shared == out
            &&& handed_over(shared) == Some(stream.total_epochs)
            &&& called_in_turn(shared, stream.total_epochs)
            &&& chunks_resized(plan, stream, runs, runs.len()) == finished(after)->Ok_0.0
        }),
{
    let plan = chunk_plan_of(pts, idr, stream.end, duration_ms, config, par)->Ok_0;
    law_stream_serves_its_selections::<E>(stream, pts, events);
    law_chunks_together_serve_the_clip(pts, idr, stream.end, duration_ms, config, par);
    lemma_chunks_served(plan, stream, runs, runs.len());
    law_contiguous_selections_are_handed_over(plan.selections);
}

/// A chunk of an accepted plan ends well where its decoder takes in the chunk's access units
/// and puts out one picture of the right size for each, in presentation order, and none is
/// left undecoded at a time that the chunk serves.
pub proof fn law_planned_chunk_ends_well(
    pts: Seq<i64>,
    idr: Seq<bool>,
    duration_ms: u64,
    config: VideoConfig,
    par: ParallelConfig,
    stream: Stream,
    runs: Seq<Seq<DecodeEvent>>,
    c: int,
)
    requires
        pts.len() <= usize::MAX,
        chunk_plan_of(pts, idr, stream.end, duration_ms, config, par) is Ok,
        ({
            let plan = chunk_plan_of(pts, idr, stream.end, duration_ms, config, par)->Ok_0;
            let chunk = plan.chunks[c];
            &&& 0 <= c < plan.chunks.len()
            &&& unit_times(runs[c], 0) == pts.subrange(chunk.start as int, chunk.end as int)
            &&& in_presentation_order(runs[c], stream.width, stream.height, stream.end)
            &&& spares_selected(runs[c], chunk_opened(plan, stream, c).wanted)
        }),
    ensures
        chunk_ends_well(
            chunk_plan_of(pts, idr, stream.end, duration_ms, config, par)->Ok_0,
            stream,
            runs,
            c,
        ),
{
    let plan = chunk_plan_of(pts, idr, stream.end, duration_ms, config, par)->Ok_0;
    let presented = sorted(kept_times(pts, stream.end));
    let chunk = plan.chunks[c];
    let part = pts.subrange(chunk.start as int, chunk.end as int);
    let v = chunk_opened(plan, stream, c);
    lemma_sorted(kept_times(pts, stream.end));
    pts.lemma_filter_len(|p: i64| in_span(p, stream.end));
    law_chunks_partition_samples(pts, idr, par.chunk_target_ms);
    law_chunks_serve_own_pictures(
        pts,
        idr,
        par.chunk_target_ms,
        stream.end,
        config.window_ms,
        plan.total_epochs,
    );
    lemma_selections_ascend(presented, config.window_ms, plan.total_epochs, presented.len());
    lemma_selection_count(presented, config.window_ms, plan.total_epochs, presented.len());
    lemma_served_by(pts, plan.chunks, stream.end, plan.selections, c as nat);
    lemma_served_by(pts, plan.chunks, stream.end, plan.selections, (c + 1) as nat);
    let a = plan.selected[c].start as int;
    assert forall|s: int| 0 <= s < v.wanted.len() implies v.expected.contains(
        (#[trigger] v.wanted[s]).pts,
    ) by {
        assert(v.wanted[s] == plan.selections[a + s]);
        assert(chunk_times(pts, chunk, stream.end).contains(plan.selections[a + s].pts));
    }
    law_chunk_ends_well(
        ChunkFrame { width: v.width, height: v.height, samples: v.samples, end: v.end },
        part,
        v.wanted,
        runs[c],
    );
}

/// However a clip is decoded, with decoders that put their pictures out in presentation order
/// it ends well: where one decoder takes the whole of it, and where several share it out by an
/// accepted plan. Both ways hand on the same selections, in the same order, and count as many
/// resized pictures.
pub proof fn law_sharing_a_clip_changes_nothing<E>(
    pts: Seq<i64>,
    idr: Seq<bool>,
    duration_ms: u64,
    config: VideoConfig,
    par: ParallelConfig,
    stream: Stream,
    events: Seq<DecodeEvent>,
    runs: Seq<Seq<DecodeEvent>>,
)
    requires
        pts.len() <= usize::MAX,
        chunk_plan_of(pts, idr, stream.end, duration_ms, config, par) is Ok,
        stream.samples == pts.len(),
        stream.window_ms == config.window_ms,
        ({
            let plan = chunk_plan_of(pts, idr, stream.end, duration_ms, config, par)->Ok_0;
            &&& stream.total_epochs == plan.total_epochs
            &&& unit_times(events, 0) == pts
            &&& in_presentation_order(events, stream.width, stream.height, stream.end)
            &&& spares_selected(events, plan.selections)
            &&& runs.len() == plan.chunks.len()
            &&& forall|c: int|
                0 <= c < runs.len() ==> {
                    &&& unit_times(#[trigger] runs[c], 0) == pts.subrange(
                        plan.chunks[c].start as int,
                        plan.chunks[c].end as int,
                    )
                    &&& in_presentation_order(runs[c], stream.width, stream.height, stream.end)
                    &&& spares_selected(runs[c], chunk_opened(plan, stream, c).wanted)
                }
        }),
    ensures
        ({
            let plan = chunk_plan_of(pts, idr, stream.end, duration_ms, config, par)->Ok_0;
            let one = stream_run(opened(stream, readable::<E>(pts))->Ok_0, events);
            let shared = chunks_served(plan, stream, runs, runs.len());
            &&& opened(stream, readable::<E>(pts)) is Ok
            &&& one is Ok
            &&& finished(one->Ok_0.0) is Ok
            &&& forall|c: int|
                0 <= c < runs.len() ==> #[trigger] chunk_ends_well(plan, stream, runs, c)
            &&& shared == one->Ok_0.1
            &&& handed_over(shared) == Some(stream.total_epochs)
            &&& called_in_turn(shared, stream.total_epochs)
            &&& chunks_resized(plan, stream, runs, runs.len()) == finished(one->Ok_0.0)->Ok_0.0
        }),
{
    let plan = chunk_plan_of(pts, idr, stream.end, duration_ms, config, par)->Ok_0;
    lemma_sorted(kept_times(pts, stream.end));
    law_stream_ends_well::<E>(stream, pts, events);
    assert forall|c: int| 0 <= c < runs.len() implies #[trigger] chunk_ends_well(
        plan,
        stream,
        runs,
        c,
    ) by {
        assert(unit_times(runs[c], 0) == pts.subrange(
            plan.chunks[c].start as int,
            plan.chunks[c].end as int,
        ));
        law_planned_chunk_ends_well(pts, idr, duration_ms, config, par, stream, runs, c);
    }
    law_several_decoders_serve_as_one::<E>(
        pts,
        idr,
        duration_ms,
        config,
        par,
        stream,
        events,
        runs,
    );
}

/// No access unit outside a chunk has the time of one inside it.
proof fn lemma_chunk_times_apart(pts: Seq<i64>, idr: Seq<bool>, target_ms: u64, c: int)
    requires
        0 < pts.len() <= usize::MAX,
        0 <= c < chunks_of(pts, idr, target_ms).len(),
    ensures
        ({
            let chunk = chunks_of(pts, idr, target_ms)[c];
            &&& chunk.start <= chunk.end <= pts.len()
            &&& forall|i: int, j: int|
                0 <= i < pts.len() && !(chunk.start <= i < chunk.end) && chunk.start <= j
                    < chunk.end ==> pts[i] != pts[j]
        }),
{
    let chunks = chunks_of(pts, idr, target_ms);
    let chunk = chunks[c];
    law_chunks_partition_samples(pts, idr, target_ms);
    assert(chunks[c].start < chunks[c].end <= pts.len());
    if c > 0 {
        law_chunks_start_cleanly(pts, idr, target_ms, c);
    }
    if c + 1 < chunks.len() {
        law_chunks_start_cleanly(pts, idr, target_ms, c + 1);
        assert(chunks[c + 1].start == chunks[c].end);
    }
    assert forall|i: int, j: int|
        0 <= i < pts.len() && !(chunk.start <= i < chunk.end) && chunk.start <= j
            < chunk.end implies pts[i] != pts[j] by {
        if i < chunk.start {
            assert(clean_cut(pts, chunk.start as int));
        } else {
            assert(c + 1 < chunks.len());
            assert(clean_cut(pts, chunk.end as int));
        }
    }
}

/// The chunk that serves selection `s`.
proof fn lemma_serving_chunk(
    pts: Seq<i64>,
    chunks: Seq<Range<usize>>,
    end: u64,
    selections: Seq<Selection>,
    s: int,
    count: nat,
) -> (c: int)
    requires
        0 <= s < served_by(pts, chunks, end, selections, count),
    ensures
        0 <= c < count,
        served_by(pts, chunks, end, selections, c as nat) <= s < served_by(
            pts,
            chunks,
            end,
            selections,
            (c + 1) as nat,
        ),
    decreases count,
{
    if s < served_by(pts, chunks, end, selections, (count - 1) as nat) {
        lemma_serving_chunk(pts, chunks, end, selections, s, (count - 1) as nat)
    } else {
        count - 1
    }
}

/// The access units of a chunk that are left undecoded are those that one decoder of the whole
/// clip leaves undecoded.
pub proof fn law_chunk_skips_as_one_decoder(
    pts: Seq<i64>,
    idr: Seq<bool>,
    duration_ms: u64,
    config: VideoConfig,
    par: ParallelConfig,
    stream: Stream,
    c: int,
    i: int,
    data: Seq<u8>,
    length_size: nat,
)
    requires
        pts.len() <= usize::MAX,
        chunk_plan_of(pts, idr, stream.end, duration_ms, config, par) is Ok,
        ({
            let plan = chunk_plan_of(pts, idr, stream.end, duration_ms, config, par)->Ok_0;
            &&& 0 <= c < plan.chunks.len()
            &&& plan.chunks[c].start <= i < plan.chunks[c].end
        }),
    ensures
        crate::chunk_session::unit_skipped(
            chunk_opened(
                chunk_plan_of(pts, idr, stream.end, duration_ms, config, par)->Ok_0,
                stream,
                c,
            ),
            config.skip_nonref,
            pts[i],
            data,
            length_size,
        ) == unit_skipped(
            skip_guide(pts, stream.end, duration_ms, config),
            pts[i],
            data,
            length_size,
        ),
{
    let plan = chunk_plan_of(pts, idr, stream.end, duration_ms, config, par)->Ok_0;
    let presented = sorted(kept_times(pts, stream.end));
    lemma_sorted(kept_times(pts, stream.end));
    pts.lemma_filter_len(|p: i64| in_span(p, stream.end));
    lemma_chunk_times_apart(pts, idr, par.chunk_target_ms, c);
    let time = pts[i];
    let v = chunk_opened(plan, stream, c);
    let a = plan.selected[c].start as int;
    lemma_selection_count(presented, config.window_ms, plan.total_epochs, presented.len());
    lemma_served_by(pts, plan.chunks, stream.end, plan.selections, c as nat);
    lemma_served_by(pts, plan.chunks, stream.end, plan.selections, (c + 1) as nat);
    if names(plan.selections, 0, plan.selections.len() as int, time) {
        let s = choose|s: int|
            0 <= s < plan.selections.len() && (#[trigger] plan.selections[s]).pts == time;
        law_chunks_serve_own_pictures(
            pts,
            idr,
            par.chunk_target_ms,
            stream.end,
            config.window_ms,
            plan.total_epochs,
        );
        let d = lemma_serving_chunk(
            pts,
            plan.chunks,
            stream.end,
            plan.selections,
            s,
            plan.chunks.len(),
        );
        let part = pts.subrange(plan.chunks[d].start as int, plan.chunks[d].end as int);
        assert(chunk_times(pts, plan.chunks[d], stream.end).contains(plan.selections[s].pts));
        lemma_sorted(kept_times(part, stream.end));
        lemma_kept_contains(part, stream.end, time);
        lemma_chunk_times_apart(pts, idr, par.chunk_target_ms, d);
        let j = choose|j: int| 0 <= j < part.len() && part[j] == time;
        assert(pts[plan.chunks[d].start + j] == pts[i]);
        assert(plan.chunks[d].start <= i < plan.chunks[d].end);
        lemma_one_chunk(pts, idr, par.chunk_target_ms, c, d, i);
        assert(v.wanted[s - a].pts == time);
    }
    if names(v.wanted, 0, v.wanted.len() as int, time) {
        let s = choose|s: int| 0 <= s < v.wanted.len() && (#[trigger] v.wanted[s]).pts == time;
        assert(plan.selections[a + s].pts == time);
    }
}

/// An access unit is in one chunk only.
proof fn lemma_one_chunk(
    pts: Seq<i64>,
    idr: Seq<bool>,
    target_ms: u64,
    c: int,
    d: int,
    i: int,
)
    requires
        0 < pts.len() <= usize::MAX,
        0 <= c < chunks_of(pts, idr, target_ms).len(),
        0 <= d < chunks_of(pts, idr, target_ms).len(),
        chunks_of(pts, idr, target_ms)[c].start <= i < chunks_of(pts, idr, target_ms)[c].end,
        chunks_of(pts, idr, target_ms)[d].start <= i < chunks_of(pts, idr, target_ms)[d].end,
    ensures
        c == d,
{
    let chunks = chunks_of(pts, idr, target_ms);
    law_chunks_partition_samples(pts, idr, target_ms);
    if c < d {
        lemma_chunks_ascend(chunks, c, d);
    } else if d < c {
        lemma_chunks_ascend(chunks, d, c);
    }
}

proof fn lemma_chunks_ascend(chunks: Seq<Range<usize>>, c: int, d: int)
    requires
        0 <= c < d < chunks.len(),
        forall|i: int|
            0 <= i < chunks.len() ==> (#[trigger] chunks[i]).start < chunks[i].end,
        forall|i: int|
            0 < i < chunks.len() ==> (#[trigger] chunks[i]).start == chunks[i - 1].end,
    ensures
        chunks[c].end <= chunks[d].start,
    decreases d - c,
{
    assert(chunks[d].start == chunks[d - 1].end);
    if c < d - 1 {
        lemma_chunks_ascend(chunks, c, d - 1);
        assert(chunks[d - 1].start < chunks[d - 1].end);
    }
}

/// Sharing a clip out by an accepted plan succeeds where one decoder of the whole clip does:
/// where the one decoder's run ends well, and the run of each chunk is the part of it that is
/// about the chunk's access units, every chunk ends well. Together the chunks hand on the same
/// selections, in the same order, call every epoch once with the same picture, and count as
/// many resized pictures.
pub proof fn law_parts_of_a_good_run_end_well<E>(
    pts: Seq<i64>,
    idr: Seq<bool>,
    duration_ms: u64,
    config: VideoConfig,
    par: ParallelConfig,
    stream: Stream,
    events: Seq<DecodeEvent>,
    runs: Seq<Seq<DecodeEvent>>,
)
    requires
        pts.len() <= usize::MAX,
        chunk_plan_of(pts, idr, stream.end, duration_ms, config, par) is Ok,
        stream.samples == pts.len(),
        stream.window_ms == config.window_ms,
        unit_times(events, 0) == pts,
        opened(stream, readable::<E>(pts)) is Ok,
        stream_run(opened(stream, readable::<E>(pts))->Ok_0, events) is Ok,
        finished(stream_run(opened(stream, readable::<E>(pts))->Ok_0, events)->Ok_0.0) is Ok,
        spares_selected(events, stream_selections(stream, pts)),
        ({
            let plan = chunk_plan_of(pts, idr, stream.end, duration_ms, config, par)->Ok_0;
            &&& stream.total_epochs == plan.total_epochs
            &&& runs.len() == plan.chunks.len()
            &&& forall|c: int|
                0 <= c < runs.len() ==> #[trigger] runs[c] == part_of(
                    events,
                    pts.subrange(plan.chunks[c].start as int, plan.chunks[c].end as int),
                )
        }),
    ensures
        ({
            let plan = chunk_plan_of(pts, idr, stream.end, duration_ms, config, par)->Ok_0;
            let (after, out) = stream_run(opened(stream, readable::<E>(pts))->Ok_0, events)->Ok_0;
            let shared = chunks_served(plan, stream, runs, runs.len());
            &&& forall|c: int|
                0 <= c < runs.len() ==> #[trigger] chunk_ends_well(plan, stream, runs, c)
            &&& shared == out
            &&& handed_over(shared) == Some(stream.total_epochs)
            &&& called_in_turn(shared, stream.total_epochs)
            &&& chunks_resized(plan, stream, runs, runs.len()) == finished(after)->Ok_0.0
        }),
{
    let plan = chunk_plan_of(pts, idr, stream.end, duration_ms, config, par)->Ok_0;
    law_stream_that_ends_well_went_in_order::<E>(stream, pts, events);
    lemma_sorted(kept_times(pts, stream.end));
    pts.lemma_filter_len(|p: i64| in_span(p, stream.end));
    assert forall|c: int| 0 <= c < runs.len() implies #[trigger] chunk_ends_well(
        plan,
        stream,
        runs,
        c,
    ) by {
        assert(runs[c] == part_of(
            events,
            pts.subrange(plan.chunks[c].start as int, plan.chunks[c].end as int),
        ));
        lemma_part_ends_well(pts, idr, duration_ms, config, par, stream, events, runs, c);
    }
    law_several_decoders_serve_as_one::<E>(
        pts,
        idr,
        duration_ms,
        config,
        par,
        stream,
        events,
        runs,
    );
}

proof fn lemma_part_ends_well(
    pts: Seq<i64>,
    idr: Seq<bool>,
    duration_ms: u64,
    config: VideoConfig,
    par: ParallelConfig,
    stream: Stream,
    events: Seq<DecodeEvent>,
    runs: Seq<Seq<DecodeEvent>>,
    c: int,
)
    requires
        0 < pts.len() <= usize::MAX,
        chunk_plan_of(pts, idr, stream.end, duration_ms, config, par) is Ok,
        unit_times(events, 0) == pts,
        in_presentation_order(events, stream.width, stream.height, stream.end),
        ({
            let plan = chunk_plan_of(pts, idr, stream.end, duration_ms, config, par)->Ok_0;
            &&& spares_selected(events, plan.selections)
            &&& 0 <= c < plan.chunks.len()
            &&& runs[c] == part_of(
                events,
                pts.subrange(plan.chunks[c].start as int, plan.chunks[c].end as int),
            )
        }),
    ensures
        chunk_ends_well(
            chunk_plan_of(pts, idr, stream.end, duration_ms, config, par)->Ok_0,
            stream,
            runs,
            c,
        ),
{
    broadcast use vstd::multiset::group_multiset_axioms;

    let plan = chunk_plan_of(pts, idr, stream.end, duration_ms, config, par)->Ok_0;
    let chunk = plan.chunks[c];
    let part = pts.subrange(chunk.start as int, chunk.end as int);
    let presented = sorted(kept_times(pts, stream.end));
    let wanted = chunk_opened(plan, stream, c).wanted;
    let a = plan.selected[c].start as int;
    lemma_part_goes_in_turn(events, part, stream.width, stream.height, stream.end);
    vstd::multiset::lemma_multiset_empty_len(pending(events));
    assert(pending(runs[c]) =~= Multiset::empty());
    lemma_part_units(events, part);
    lemma_chunk_times_apart(pts, idr, par.chunk_target_ms, c);
    lemma_stretch_by_times(pts, chunk.start as int, chunk.end as int);
    lemma_part_spares_selected(events, part, plan.selections);
    lemma_sorted(kept_times(pts, stream.end));
    pts.lemma_filter_len(|p: i64| in_span(p, stream.end));
    lemma_selection_count(presented, config.window_ms, plan.total_epochs, presented.len());
    lemma_served_by(pts, plan.chunks, stream.end, plan.selections, c as nat);
    lemma_served_by(pts, plan.chunks, stream.end, plan.selections, (c + 1) as nat);
    let run = runs[c];
    assert forall|i: int| 0 <= i < run.len() implies (
    #[trigger] run[i] matches DecodeEvent::Skip(pts) ==> !names(
        wanted,
        0,
        wanted.len() as int,
        pts,
    )) by {
        if let DecodeEvent::Skip(time) = run[i] {
            if names(wanted, 0, wanted.len() as int, time) {
                let s = choose|s: int| 0 <= s < wanted.len() && (#[trigger] wanted[s]).pts == time;
                assert(plan.selections[a + s].pts == time);
            }
        }
    }
    law_planned_chunk_ends_well(pts, idr, duration_ms, config, par, stream, runs, c);
}

/// The session of one H.265 decoder that takes a whole clip.
pub open spec fn single_opened(
    plan: HevcPlanView,
    end: u64,
    width: usize,
    height: usize,
) -> RangeView {
    range_opened(
        width,
        height,
        plan.pts.len() as usize,
        expected_times(plan, every_unit(plan.pts.len()), end),
        plan.selections,
    )
}

/// The session of chunk `c` of a shared H.265 clip.
pub open spec fn share_opened(
    plan: HevcPlanView,
    layout: HevcLayoutView,
    width: usize,
    height: usize,
    c: int,
) -> RangeView {
    range_opened(
        width,
        height,
        chunk_units(layout.chunks[c]).len() as usize,
        layout.expected[c],
        plan.selections.subrange(layout.selected[c].start as int, layout.selected[c].end as int),
    )
}

/// The pictures of a decoder bring a session to a good end.
pub open spec fn range_ends_well(v: RangeView, pictures: Seq<HevcPicture>) -> bool {
    &&& range_run(v, pictures) is Ok
    &&& range_finished(range_run(v, pictures)->Ok_0.0) is Ok
}

/// A decoder puts out one picture of the right size and format for each expected time.
pub open spec fn puts_out_expected(v: RangeView, pictures: Seq<HevcPicture>) -> bool {
    &&& pictures.len() == v.expected.len()
    &&& forall|i: int| 0 <= i < pictures.len() ==> picture_fits(v, #[trigger] pictures[i])
}

/// What the first `count` chunks of a shared H.265 clip served, one chunk after the other.
pub open spec fn shares_served(
    plan: HevcPlanView,
    layout: HevcLayoutView,
    width: usize,
    height: usize,
    runs: Seq<Seq<HevcPicture>>,
    count: nat,
) -> Seq<Selection>
    decreases count,
{
    if count == 0 {
        Seq::empty()
    } else {
        shares_served(plan, layout, width, height, runs, (count - 1) as nat) + range_run(
            share_opened(plan, layout, width, height, count - 1),
            runs[count - 1],
        )->Ok_0.1
    }
}

/// How many pictures the first `count` chunks of a shared H.265 clip resized.
pub open spec fn shares_resized(
    plan: HevcPlanView,
    layout: HevcLayoutView,
    width: usize,
    height: usize,
    runs: Seq<Seq<HevcPicture>>,
    count: nat,
) -> int
    decreases count,
{
    if count == 0 {
        0
    } else {
        shares_resized(plan, layout, width, height, runs, (count - 1) as nat) + range_finished(
            range_run(
                share_opened(plan, layout, width, height, count - 1),
                runs[count - 1],
            )->Ok_0.0,
        )->Ok_0.0
    }
}

proof fn lemma_shares_served(
    plan: HevcPlanView,
    layout: HevcLayoutView,
    width: usize,
    height: usize,
    runs: Seq<Seq<HevcPicture>>,
    count: nat,
)
    requires
        count <= runs.len() == layout.selected.len(),
        layout.selected.len() > 0,
        layout.selected[0].start == 0,
        forall|c: int|
            0 < c < layout.selected.len() ==> #[trigger] goes_on(layout.selected, c),
        forall|c: int|
            0 <= c < layout.selected.len() ==> (#[trigger] layout.selected[c]).start
                <= layout.selected[c].end <= plan.selections.len(),
        forall|c: int|
            0 <= c < count ==> range_ends_well(
                share_opened(plan, layout, width, height, c),
                #[trigger] runs[c],
            ),
    ensures
        shares_served(plan, layout, width, height, runs, count) == plan.selections.take(
            if count == 0 {
                0
            } else {
                layout.selected[count - 1].end as int
            },
        ),
        shares_resized(plan, layout, width, height, runs, count) == shares_served(
            plan,
            layout,
            width,
            height,
            runs,
            count,
        ).len(),
    decreases count,
{
    if count == 0 {
        assert(plan.selections.take(0) =~= Seq::<Selection>::empty());
    } else {
        lemma_shares_served(plan, layout, width, height, runs, (count - 1) as nat);
        let c = count - 1;
        let v = share_opened(plan, layout, width, height, c);
        assert(range_ends_well(v, runs[c]));
        law_range_serves_its_selections(
            v.width,
            v.height,
            v.samples,
            v.expected,
            v.wanted,
            runs[c],
        );
        let a = layout.selected[c].start as int;
        let b = layout.selected[c].end as int;
        if c > 0 {
            assert(goes_on(layout.selected, c));
        }
        assert(plan.selections.take(a) + plan.selections.subrange(a, b) =~= plan.selections.take(
            b,
        ));
    }
}

proof fn lemma_shared_clip(
    plan: HevcPlanView,
    end: u64,
    resolution: usize,
    par: ParallelConfig,
    width: usize,
    height: usize,
    runs: Seq<Seq<HevcPicture>>,
)
    requires
        plan_complete(plan),
        plan.pts.len() <= usize::MAX,
        ({
            let layout = layout_of(plan, end, resolution, par);
            &&& layout.single is None
            &&& runs.len() == layout.chunks.len()
            &&& forall|c: int|
                0 <= c < runs.len() ==> range_ends_well(
                    share_opened(plan, layout, width, height, c),
                    #[trigger] runs[c],
                )
        }),
    ensures
        ({
            let layout = layout_of(plan, end, resolution, par);
            let out = shares_served(plan, layout, width, height, runs, runs.len());
            &&& out == plan.selections
            &&& shares_resized(plan, layout, width, height, runs, runs.len()) == out.len()
        }),
{
    let layout = layout_of(plan, end, resolution, par);
    law_shared_clip_serves_selections(plan, end, resolution, par);
    lemma_shares_served(plan, layout, width, height, runs, runs.len());
    assert(plan.selections.take(plan.selections.len() as int) =~= plan.selections);
}

/// The selections of an H.265 plan call every epoch once, in order.
proof fn lemma_plan_calls(
    units: Seq<AccessUnit>,
    length_size: nat,
    end: u64,
    duration_ms: u64,
    config: VideoConfig,
)
    requires
        hevc_plan_of(units, length_size, end, duration_ms, config) is Ok,
    ensures
        ({
            let plan = hevc_plan_of(units, length_size, end, duration_ms, config)->Ok_0;
            &&& handed_over(plan.selections) == Some(plan.total_epochs)
            &&& called_in_turn(plan.selections, plan.total_epochs)
            &&& forall|s: int, t: int|
                0 <= s < t < plan.selections.len() ==> plan.selections[s].pts
                    < plan.selections[t].pts
            &&& forall|s: int|
                0 <= s < plan.selections.len() ==> sorted(
                    kept_times(times_of(units), end),
                ).contains((#[trigger] plan.selections[s]).pts)
        }),
{
    let plan = hevc_plan_of(units, length_size, end, duration_ms, config)->Ok_0;
    let presented = sorted(kept_times(times_of(units), end));
    law_every_epoch_served_once(presented, config.window_ms, plan.total_epochs);
    law_contiguous_selections_are_handed_over(plan.selections);
    law_handed_over_epochs_are_called_in_turn(plan.selections, plan.total_epochs);
    lemma_selections_ascend(presented, config.window_ms, plan.total_epochs, presented.len());
}

/// An H.265 clip that one decoder takes and that ends well has every epoch called once, in
/// order, with the picture that the plan selects for it.
pub proof fn law_single_hevc_decoder_serves_the_clip(
    units: Seq<AccessUnit>,
    length_size: nat,
    end: u64,
    duration_ms: u64,
    config: VideoConfig,
    width: usize,
    height: usize,
    pictures: Seq<HevcPicture>,
)
    requires
        hevc_plan_of(units, length_size, end, duration_ms, config) is Ok,
        range_ends_well(
            single_opened(
                hevc_plan_of(units, length_size, end, duration_ms, config)->Ok_0,
                end,
                width,
                height,
            ),
            pictures,
        ),
    ensures
        ({
            let plan = hevc_plan_of(units, length_size, end, duration_ms, config)->Ok_0;
            let (after, out) = range_run(
                single_opened(plan, end, width, height),
                pictures,
            )->Ok_0;
            &&& out == plan.selections
            &&& handed_over(out) == Some(plan.total_epochs)
            &&& called_in_turn(out, plan.total_epochs)
            &&& range_finished(after)->Ok_0.0 == out.len()
        }),
{
    let plan = hevc_plan_of(units, length_size, end, duration_ms, config)->Ok_0;
    let v = single_opened(plan, end, width, height);
    law_range_serves_its_selections(v.width, v.height, v.samples, v.expected, v.wanted, pictures);
    lemma_plan_calls(units, length_size, end, duration_ms, config);
}

/// An H.265 clip that one decoder takes ends well where the decoder puts out one picture of
/// the right size and format for each expected time, and no picture is selected that follows
/// the opening picture and refers to pictures from before the clip.
pub proof fn law_single_hevc_decoder_ends_well(
    units: Seq<AccessUnit>,
    length_size: nat,
    end: u64,
    duration_ms: u64,
    config: VideoConfig,
    width: usize,
    height: usize,
    pictures: Seq<HevcPicture>,
)
    requires
        units.len() <= usize::MAX,
        hevc_plan_of(units, length_size, end, duration_ms, config) is Ok,
        ({
            let plan = hevc_plan_of(units, length_size, end, duration_ms, config)->Ok_0;
            &&& puts_out_expected(single_opened(plan, end, width, height), pictures)
            &&& forall|i: int|
                0 <= i < units.len() && is_leading_rasl(plan.irap, plan.rasl, i) ==> !names(
                    plan.selections,
                    0,
                    plan.selections.len() as int,
                    (#[trigger] units[i]).pts,
                )
        }),
    ensures
        range_ends_well(
            single_opened(
                hevc_plan_of(units, length_size, end, duration_ms, config)->Ok_0,
                end,
                width,
                height,
            ),
            pictures,
        ),
{
    let plan = hevc_plan_of(units, length_size, end, duration_ms, config)->Ok_0;
    let v = single_opened(plan, end, width, height);
    let pts = times_of(units);
    let keep = |i: usize| !plan.skippable[i as int] && in_span(plan.pts[i as int], end);
    let time_of = |i: usize| plan.pts[i as int];
    let every = every_unit(pts.len());
    let kept = every.filter(keep);
    lemma_plan_calls(units, length_size, end, duration_ms, config);
    lemma_sorted(kept_times(pts, end));
    lemma_sorted(kept.map_values(time_of));
    assert forall|s: int| 0 <= s < v.wanted.len() implies v.expected.contains(
        (#[trigger] v.wanted[s]).pts,
    ) by {
        let time = plan.selections[s].pts;
        assert(sorted(kept_times(pts, end)).contains(time));
        lemma_kept_contains(pts, end, time);
        let i = choose|i: int| 0 <= i < pts.len() && pts[i] == time;
        assert(units[i].pts == time);
        assert(names(plan.selections, 0, plan.selections.len() as int, time));
        law_selected_picture_is_decoded(
            units,
            length_size,
            plan.selections,
            config.skip_nonref,
            i,
        );
        assert(!plan.skippable[i]);
        assert(every[i] == i);
        every.lemma_filter_contains(keep, i);
        let k = choose|k: int| 0 <= k < kept.len() && kept[k] == every[i];
        assert(kept.map_values(time_of)[k] == time);
        assert(kept.map_values(time_of).contains(time));
    }
    law_range_ends_well(v.width, v.height, v.samples, v.expected, v.wanted, pictures);
}

/// An H.265 clip that is shared out and whose chunks end well has every epoch called once, in
/// order, with the picture that the plan selects for it, just as one decoder would call them.
pub proof fn law_shared_hevc_decoders_serve_the_clip(
    units: Seq<AccessUnit>,
    length_size: nat,
    end: u64,
    duration_ms: u64,
    config: VideoConfig,
    par: ParallelConfig,
    width: usize,
    height: usize,
    runs: Seq<Seq<HevcPicture>>,
)
    requires
        units.len() <= usize::MAX,
        hevc_plan_of(units, length_size, end, duration_ms, config) is Ok,
        ({
            let plan = hevc_plan_of(units, length_size, end, duration_ms, config)->Ok_0;
            let layout = layout_of(plan, end, config.resolution, par);
            &&& layout.single is None
            &&& runs.len() == layout.chunks.len()
            &&& forall|c: int|
                0 <= c < runs.len() ==> range_ends_well(
                    share_opened(plan, layout, width, height, c),
                    #[trigger] runs[c],
                )
        }),
    ensures
        ({
            let plan = hevc_plan_of(units, length_size, end, duration_ms, config)->Ok_0;
            let layout = layout_of(plan, end, config.resolution, par);
            let out = shares_served(plan, layout, width, height, runs, runs.len());
            &&& out == plan.selections
            &&& handed_over(out) == Some(plan.total_epochs)
            &&& called_in_turn(out, plan.total_epochs)
            &&& shares_resized(plan, layout, width, height, runs, runs.len()) == out.len()
        }),
{
    let plan = hevc_plan_of(units, length_size, end, duration_ms, config)->Ok_0;
    lemma_plan_complete(units, length_size, end, duration_ms, config);
    lemma_shared_clip(plan, end, config.resolution, par, width, height, runs);
    lemma_plan_calls(units, length_size, end, duration_ms, config);
}

/// An H.265 clip that is shared out ends well where every decoder puts out one picture of the
/// right size and format for each time that its chunk expects.
pub proof fn law_shared_hevc_decoders_end_well(
    units: Seq<AccessUnit>,
    length_size: nat,
    end: u64,
    duration_ms: u64,
    config: VideoConfig,
    par: ParallelConfig,
    width: usize,
    height: usize,
    runs: Seq<Seq<HevcPicture>>,
    c: int,
)
    requires
        units.len() <= usize::MAX,
        hevc_plan_of(units, length_size, end, duration_ms, config) is Ok,
        ({
            let plan = hevc_plan_of(units, length_size, end, duration_ms, config)->Ok_0;
            let layout = layout_of(plan, end, config.resolution, par);
            &&& layout.single is None
            &&& runs.len() == layout.chunks.len()
            &&& 0 <= c < runs.len()
            &&& puts_out_expected(share_opened(plan, layout, width, height, c), runs[c])
        }),
    ensures
        ({
            let plan = hevc_plan_of(units, length_size, end, duration_ms, config)->Ok_0;
            let layout = layout_of(plan, end, config.resolution, par);
            range_ends_well(share_opened(plan, layout, width, height, c), runs[c])
        }),
{
    let plan = hevc_plan_of(units, length_size, end, duration_ms, config)->Ok_0;
    let layout = layout_of(plan, end, config.resolution, par);
    let v = share_opened(plan, layout, width, height, c);
    lemma_plan_complete(units, length_size, end, duration_ms, config);
    law_shared_clip_serves_selections(plan, end, config.resolution, par);
    lemma_plan_calls(units, length_size, end, duration_ms, config);
    let a = layout.selected[c].start as int;
    assert forall|s: int| 0 <= s < v.wanted.len() implies v.expected.contains(
        (#[trigger] v.wanted[s]).pts,
    ) by {
        assert(v.wanted[s] == plan.selections[a + s]);
        assert(layout.expected[c].contains(plan.selections[a + s].pts));
    }
    lemma_sorted(
        chunk_units(layout.chunks[c]).filter(
            |i: usize| !plan.skippable[i as int] && in_span(plan.pts[i as int], end),
        ).map_values(|i: usize| plan.pts[i as int]),
    );
    law_range_ends_well(v.width, v.height, v.samples, v.expected, v.wanted, runs[c]);
}

} // verus!
