//! The plan by which an H.264 clip is shared out to several decoders.
use std::collections::VecDeque;
use std::ops::Range;
use vstd::prelude::*;
use crate::avc_config::SetupError;
use crate::order::{
    all_distinct, lemma_sorted, lemma_sorted_unique, sort_times, sorted,
    strictly_increasing,
};
use crate::presentation::{
    fresh, law_presents_in_order, presentation, readable, within_lookahead,
    PresentationTimes,
};
use crate::video::{
    count_epochs, epoch_count, in_span, keep_times, kept_times, neighbours_ok, VideoConfig,
};
use crate::video_parallel::{
    assign_epochs, chunks_of, plan_chunks, selections_of, steps_ok, ParallelConfig, Selection,
};

verus! {

/// Why a clip is decoded by one decoder although several were asked for.
#[derive(Clone, Copy, Debug, PartialEq, Eq, Structural)]
pub enum Fallback {
    FewWorkers,
    DecoderThreads,
    NoTrack,
    TimelineRejected,
    NoSampleEntry,
    NoAvcc,
    AvccUnreadable,
    NoParameterSets,
    ColorRejected,
    PlanTooLarge,
    SampleUnreadable,
    ReorderedTooFar,
    NothingPresented,
    DuplicateTimes,
    EpochsUncovered,
    FewChunks,
    AssignmentMismatch,
    BudgetTooSmall,
}

/// What a fallback is reported as.
pub open spec fn fallback_text(fallback: Fallback) -> Seq<char> {
    match fallback {
        Fallback::FewWorkers => "fewer than 2 workers requested"@,
        Fallback::DecoderThreads => "decoder threads are single-decoder only"@,
        Fallback::NoTrack => "no H.264 track"@,
        Fallback::TimelineRejected => "timeline rejected"@,
        Fallback::NoSampleEntry => "no video sample entry"@,
        Fallback::NoAvcc => "no avcC"@,
        Fallback::AvccUnreadable => "avcC parse failed"@,
        Fallback::NoParameterSets => "avcC missing SPS/PPS"@,
        Fallback::ColorRejected => "color validation failed"@,
        Fallback::PlanTooLarge => "planning metadata exceeds 32 MiB allowance"@,
        Fallback::SampleUnreadable => "sample table read failed"@,
        Fallback::ReorderedTooFar => "presentation order outside lookahead"@,
        Fallback::NothingPresented => "no presented pictures"@,
        Fallback::DuplicateTimes => "duplicate presentation timestamps"@,
        Fallback::EpochsUncovered => "selection does not cover every epoch"@,
        Fallback::FewChunks => "fewer than 2 IDR chunks"@,
        Fallback::AssignmentMismatch => "selection/chunk assignment mismatch"@,
        Fallback::BudgetTooSmall => "byte budget allows fewer than 2 in-flight chunks"@,
    }
}

impl Fallback {
    /// What the fallback is reported as.
    pub fn reason(self) -> (text: &'static str)
        ensures
            text@ == fallback_text(self),
    {
        match self {
            Fallback::FewWorkers => "fewer than 2 workers requested",
            Fallback::DecoderThreads => "decoder threads are single-decoder only",
            Fallback::NoTrack => "no H.264 track",
            Fallback::TimelineRejected => "timeline rejected",
            Fallback::NoSampleEntry => "no video sample entry",
            Fallback::NoAvcc => "no avcC",
            Fallback::AvccUnreadable => "avcC parse failed",
            Fallback::NoParameterSets => "avcC missing SPS/PPS",
            Fallback::ColorRejected => "color validation failed",
            Fallback::PlanTooLarge => "planning metadata exceeds 32 MiB allowance",
            Fallback::SampleUnreadable => "sample table read failed",
            Fallback::ReorderedTooFar => "presentation order outside lookahead",
            Fallback::NothingPresented => "no presented pictures",
            Fallback::DuplicateTimes => "duplicate presentation timestamps",
            Fallback::EpochsUncovered => "selection does not cover every epoch",
            Fallback::FewChunks => "fewer than 2 IDR chunks",
            Fallback::AssignmentMismatch => "selection/chunk assignment mismatch",
            Fallback::BudgetTooSmall => "byte budget allows fewer than 2 in-flight chunks",
        }
    }
}

/// What the request alone says against sharing a clip out.
pub open spec fn request_fallback(config: VideoConfig, par: ParallelConfig) -> Option<Fallback> {
    if par.workers < 2 {
        Some(Fallback::FewWorkers)
    } else if config.decoder_threads != 0 {
        Some(Fallback::DecoderThreads)
    } else {
        None
    }
}

/// What the request alone says against sharing a clip out.
pub fn check_request(config: &VideoConfig, par: &ParallelConfig) -> (fallback: Option<Fallback>)
    ensures
        fallback == request_fallback(*config, *par),
{
    if par.workers < 2 {
        Some(Fallback::FewWorkers)
    } else if config.decoder_threads != 0 {
        Some(Fallback::DecoderThreads)
    } else {
        None
    }
}

/// The fallback for a track that several decoders cannot be set up for.
pub open spec fn setup_fallback(error: SetupError) -> Fallback {
    match error {
        SetupError::MissingEntry => Fallback::NoSampleEntry,
        SetupError::NotVideo => Fallback::NoSampleEntry,
        SetupError::MissingConfig => Fallback::NoAvcc,
        SetupError::Unreadable => Fallback::AvccUnreadable,
        SetupError::MissingSets => Fallback::NoParameterSets,
        SetupError::Hvcc(_) => Fallback::NoAvcc,
    }
}

/// The fallback for a track that several decoders cannot be set up for.
pub fn fall_back_on(error: SetupError) -> (fallback: Fallback)
    ensures
        fallback == setup_fallback(error),
{
    match error {
        SetupError::MissingEntry => Fallback::NoSampleEntry,
        SetupError::NotVideo => Fallback::NoSampleEntry,
        SetupError::MissingConfig => Fallback::NoAvcc,
        SetupError::Unreadable => Fallback::AvccUnreadable,
        SetupError::MissingSets => Fallback::NoParameterSets,
        SetupError::Hvcc(_) => Fallback::NoAvcc,
    }
}

/// The bytes of one tensor: three planes of four-byte values.
pub open spec fn tensor_bytes(resolution: usize) -> int {
    3 * resolution * resolution * 4
}

/// The bytes of the tensors of `count` pictures, where a machine word can hold the number.
pub fn bytes_for(count: usize, resolution: usize) -> (bytes: Option<usize>)
    ensures
        match bytes {
            Some(bytes) => bytes == count * tensor_bytes(resolution),
            None => count * tensor_bytes(resolution) > usize::MAX,
        },
{
    if count == 0 || resolution == 0 {
        assert(count * tensor_bytes(resolution) == 0) by (nonlinear_arith)
            requires
                count == 0 || resolution == 0,
                tensor_bytes(resolution) == 3 * resolution * resolution * 4,
        ;
        return Some(0);
    }
    proof {
        let n = count as int;
        let side = resolution as int;
        let tensor = tensor_bytes(resolution);
        assert(tensor == side * 12 * side && side * 12 <= tensor && 0 < tensor)
            by (nonlinear_arith)
            requires
                tensor == 3 * side * side * 4,
                side >= 1,
        ;
        assert(tensor <= n * tensor) by (nonlinear_arith)
            requires
                n >= 1,
                tensor > 0,
        ;
        assert(n * tensor == tensor * n) by (nonlinear_arith);
    }
    match resolution.checked_mul(12) {
        Some(row) => match row.checked_mul(resolution) {
            Some(tensor) => tensor.checked_mul(count),
            None => None,
        },
        None => None,
    }
}

/// How many chunks may be under way at once: one more than there are workers, fewer where
/// the buffer would not hold them, and always one.
pub open spec fn admission_window(workers: usize, buffer_bytes: usize, chunk_bytes: int) -> int {
    let most = workers + 1;
    let fitting = if chunk_bytes == 0 {
        most
    } else {
        buffer_bytes as int / chunk_bytes
    };
    let least = if most <= fitting {
        most
    } else {
        fitting
    };
    if least >= 1 {
        least
    } else {
        1
    }
}

/// How many chunks may be under way at once.
pub fn window_for(workers: usize, buffer_bytes: usize, chunk_bytes: usize) -> (window: usize)
    requires
        workers < usize::MAX,
    ensures
        window == admission_window(workers, buffer_bytes, chunk_bytes as int),
        window >= 1,
{
    let most: usize = workers + 1;
    let fitting: usize = if chunk_bytes == 0 {
        most
    } else {
        buffer_bytes / chunk_bytes
    };
    most.min(fitting).max(1)
}

/// Chunks that may be under way together fit the buffer, wherever more than one may be.
pub proof fn law_window_fits_buffer(workers: usize, buffer_bytes: usize, chunk_bytes: int)
    requires
        chunk_bytes >= 0,
    ensures
        1 <= admission_window(workers, buffer_bytes, chunk_bytes) <= workers + 1,
        admission_window(workers, buffer_bytes, chunk_bytes) > 1 ==> admission_window(
            workers,
            buffer_bytes,
            chunk_bytes,
        ) * chunk_bytes <= buffer_bytes,
{
    let window = admission_window(workers, buffer_bytes, chunk_bytes);
    if chunk_bytes > 0 && window > 1 {
        let fitting = buffer_bytes as int / chunk_bytes;
        assert(window <= fitting);
        assert(window * chunk_bytes <= buffer_bytes) by (nonlinear_arith)
            requires
                chunk_bytes > 0,
                fitting == buffer_bytes as int / chunk_bytes,
                window <= fitting,
        ;
    }
}

/// The most indices that one of the ranges holds.
pub open spec fn longest(ranges: Seq<Range<usize>>) -> int
    decreases ranges.len(),
{
    if ranges.len() == 0 {
        0
    } else {
        let earlier = longest(ranges.drop_last());
        let last = ranges.last().end - ranges.last().start;
        if last > earlier {
            last
        } else {
            earlier
        }
    }
}

/// The most indices that one of the ranges holds.
pub fn longest_range(ranges: &Vec<Range<usize>>) -> (most: usize)
    requires
        forall|i: int|
            0 <= i < ranges@.len() ==> (#[trigger] ranges@[i]).start <= ranges@[i].end,
    ensures
        most == longest(ranges@),
{
    let mut most: usize = 0;
    let mut i: usize = 0;
    while i < ranges.len()
        invariant
            i <= ranges@.len(),
            forall|j: int|
                0 <= j < ranges@.len() ==> (#[trigger] ranges@[j]).start <= ranges@[j].end,
            most == longest(ranges@.take(i as int)),
        decreases ranges@.len() - i,
    {
        let len: usize = ranges[i].end - ranges[i].start;
        assert(ranges@.take(i + 1).drop_last() =~= ranges@.take(i as int));
        if len > most {
            most = len;
        }
        i += 1;
    }
    assert(ranges@.take(i as int) =~= ranges@);
    most
}

/// All times in presentation order, where the lookahead can put them in order.
pub fn present_all(times: &Vec<i64>) -> (presented: Option<Vec<i64>>)
    ensures
        match presented {
            Some(presented) => within_lookahead(times@) && presented@ == sorted(times@),
            None => !within_lookahead(times@),
        },
{
    let mut source: VecDeque<Result<i64, ()>> = VecDeque::new();
    let mut i: usize = 0;
    while i < times.len()
        invariant
            i <= times@.len(),
            source@ == readable::<()>(times@.take(i as int)),
        decreases times@.len() - i,
    {
        source.push_back(Ok(times[i]));
        i += 1;
        assert(source@ =~= readable::<()>(times@.take(i as int)));
    }
    assert(times@.take(i as int) =~= times@);
    let ghost whole = presentation(fresh::<()>(times@));
    proof {
        law_presents_in_order::<()>(times@);
        if let Ok(out) = whole {
            lemma_sorted_unique(times@, out);
        }
    }
    let mut lookahead = PresentationTimes::new(source);
    let mut out: Vec<i64> = Vec::new();
    let ghost mut rounds: nat = lookahead@.waiting.len() + lookahead@.held.len();
    loop
        invariant
            whole == match presentation(lookahead@) {
                Ok(rest) => Ok::<Seq<i64>, crate::presentation::LookaheadError<()>>(out@ + rest),
                Err(error) => Err(error),
            },
            rounds == lookahead@.waiting.len() + lookahead@.held.len(),
            whole == presentation(fresh::<()>(times@)),
            whole is Ok <==> within_lookahead(times@),
            whole matches Ok(all) ==> all == sorted(times@),
        decreases rounds,
    {
        let ghost before = lookahead@;
        match lookahead.next_pts() {
            Ok(Some(pts)) => {
                proof {
                    crate::presentation::lemma_advanced_shrinks(before);
                    rounds = lookahead@.waiting.len() + lookahead@.held.len();
                    if let Ok(rest) = presentation(lookahead@) {
                        assert(out@ + (seq![pts] + rest) =~= out@.push(pts) + rest);
                    }
                }
                out.push(pts);
            },
            Ok(None) => {
                assert(out@ + Seq::<i64>::empty() =~= out@);
                return Some(out);
            },
            Err(_) => {
                return None;
            },
        }
    }
}

/// The first selection from `from` on that presents after `last`.
pub open spec fn run_end(selections: Seq<Selection>, from: int, last: i64) -> int
    decreases selections.len() - from,
{
    if 0 <= from < selections.len() && selections[from].pts <= last {
        run_end(selections, from + 1, last)
    } else {
        from
    }
}

/// The presentation times of a chunk that lie before `end`, in presentation order.
pub open spec fn chunk_times(pts: Seq<i64>, chunk: Range<usize>, end: u64) -> Seq<i64> {
    sorted(kept_times(pts.subrange(chunk.start as int, chunk.end as int), end))
}

/// How many selections the first `count` chunks serve.
pub open spec fn served_by(
    pts: Seq<i64>,
    chunks: Seq<Range<usize>>,
    end: u64,
    selections: Seq<Selection>,
    count: nat,
) -> int
    decreases count,
{
    if count == 0 {
        0
    } else {
        let before = served_by(pts, chunks, end, selections, (count - 1) as nat);
        let times = chunk_times(pts, chunks[count - 1], end);
        if times.len() == 0 {
            before
        } else {
            run_end(selections, before, times.last())
        }
    }
}

/// The selections that each chunk serves.
pub open spec fn chunk_selections(
    pts: Seq<i64>,
    chunks: Seq<Range<usize>>,
    end: u64,
    selections: Seq<Selection>,
) -> Seq<Range<usize>> {
    Seq::new(
        chunks.len(),
        |c: int|
            Range {
                start: served_by(pts, chunks, end, selections, c as nat) as usize,
                end: served_by(pts, chunks, end, selections, (c + 1) as nat) as usize,
            },
    )
}

/// What a plan holds.
pub struct ChunkPlanView {
    pub chunks: Seq<Range<usize>>,
    pub presented: Seq<Seq<i64>>,
    pub selections: Seq<Selection>,
    pub selected: Seq<Range<usize>>,
    pub total_epochs: usize,
    pub chunk_bytes: int,
    pub window: int,
    pub workers: int,
}

/// How a clip is shared out: the access units of each chunk, the presentation times that a
/// chunk has to produce, and the selections that it serves.
pub struct ChunkPlan {
    pub chunks: Vec<Range<usize>>,
    pub presented: Vec<Vec<i64>>,
    pub selections: Vec<Selection>,
    pub selected: Vec<Range<usize>>,
    pub total_epochs: usize,
    pub chunk_bytes: usize,
    pub window: usize,
    pub workers: usize,
}

impl View for ChunkPlan {
    type V = ChunkPlanView;

    open spec fn view(&self) -> ChunkPlanView {
        ChunkPlanView {
            chunks: self.chunks@,
            presented: self.presented@.map_values(|times: Vec<i64>| times@),
            selections: self.selections@,
            selected: self.selected@,
            total_epochs: self.total_epochs,
            chunk_bytes: self.chunk_bytes as int,
            window: self.window as int,
            workers: self.workers as int,
        }
    }
}

/// The smallest of three numbers.
pub open spec fn least_of(a: int, b: int, c: int) -> int {
    if a <= b && a <= c {
        a
    } else if b <= c {
        b
    } else {
        c
    }
}

/// The plan for a clip, or what sends it to a single decoder. Only pictures before `end`
/// are presented.
pub open spec fn chunk_plan_of(
    pts: Seq<i64>,
    idr: Seq<bool>,
    end: u64,
    duration_ms: u64,
    config: VideoConfig,
    par: ParallelConfig,
) -> Result<ChunkPlanView, Fallback> {
    let kept = kept_times(pts, end);
    let presented = sorted(kept);
    let total = epoch_count(duration_ms, config.audio_duration_ms, config.window_ms);
    let selections = selections_of(presented, config.window_ms, total, presented.len());
    let chunks = chunks_of(pts, idr, par.chunk_target_ms);
    let selected = chunk_selections(pts, chunks, end, selections);
    let chunk_bytes = longest(selected) * tensor_bytes(config.resolution);
    let window = admission_window(par.workers, par.buffer_bytes, chunk_bytes);
    let workers = least_of(par.workers as int, window, chunks.len() as int);
    if !within_lookahead(kept) {
        Err(Fallback::ReorderedTooFar)
    } else if presented.len() == 0 {
        Err(Fallback::NothingPresented)
    } else if !strictly_increasing(presented) {
        Err(Fallback::DuplicateTimes)
    } else if selections.len() == 0 || selections.last().epochs.1 != total {
        Err(Fallback::EpochsUncovered)
    } else if chunks.len() < 2 {
        Err(Fallback::FewChunks)
    } else if served_by(pts, chunks, end, selections, chunks.len()) != selections.len() {
        Err(Fallback::AssignmentMismatch)
    } else if workers < 2 {
        Err(Fallback::BudgetTooSmall)
    } else {
        Ok(
            ChunkPlanView {
                chunks,
                presented: chunks.map_values(|chunk: Range<usize>| chunk_times(pts, chunk, end)),
                selections,
                selected,
                total_epochs: total,
                chunk_bytes,
                window,
                workers,
            },
        )
    }
}

/// Times in order, none before the start of the movie, keep the midpoint rule inside the
/// machine integers.
pub proof fn lemma_kept_steps(pts: Seq<i64>, end: u64, window_ms: u64)
    requires
        window_ms > 0,
    ensures
        steps_ok(sorted(kept_times(pts, end)), window_ms),
        forall|i: int|
            0 <= i < sorted(kept_times(pts, end)).len() ==> in_span(
                #[trigger] sorted(kept_times(pts, end))[i],
                end,
            ) && pts.contains(sorted(kept_times(pts, end))[i]),
{
    let kept = kept_times(pts, end);
    let times = sorted(kept);
    lemma_sorted(kept);
    assert forall|i: int| 0 <= i < times.len() implies in_span(#[trigger] times[i], end)
        && pts.contains(times[i]) by {
        assert(times.contains(times[i]));
        assert(kept.contains(times[i]));
        lemma_kept_contains(pts, end, times[i]);
    }
    assert forall|i: int| 0 <= i < times.len() - 1 implies neighbours_ok(
        #[trigger] times[i],
        times[i + 1],
        window_ms,
    ) by {
        assert(in_span(times[i], end) && in_span(times[i + 1], end));
        assert(times[i] <= times[i + 1]);
    }
}

/// What is kept was there and lies before `end`, and nothing else is dropped.
pub proof fn lemma_kept_contains(pts: Seq<i64>, end: u64, time: i64)
    ensures
        kept_times(pts, end).contains(time) <==> pts.contains(time) && in_span(time, end),
{
    let keep = |p: i64| in_span(p, end);
    let kept = pts.filter(keep);
    if kept.contains(time) {
        pts.lemma_filter_contains_rev(keep, time);
        let i = choose|i: int| 0 <= i < kept.len() && kept[i] == time;
        pts.lemma_filter_pred(keep, i);
    }
    if pts.contains(time) && in_span(time, end) {
        let i = choose|i: int| 0 <= i < pts.len() && pts[i] == time;
        pts.lemma_filter_contains(keep, i);
    }
}

proof fn lemma_run_end(selections: Seq<Selection>, from: int, last: i64)
    requires
        0 <= from <= selections.len(),
    ensures
        from <= run_end(selections, from, last) <= selections.len(),
        forall|s: int|
            from <= s < run_end(selections, from, last) ==> (#[trigger] selections[s]).pts <= last,
        run_end(selections, from, last) < selections.len() ==> selections[run_end(
            selections,
            from,
            last,
        )].pts > last,
    decreases selections.len() - from,
{
    if from < selections.len() && selections[from].pts <= last {
        lemma_run_end(selections, from + 1, last);
    }
}

/// The chunks serve no more selections than there are, and each goes on where the one before
/// it stopped.
pub proof fn lemma_served_by(
    pts: Seq<i64>,
    chunks: Seq<Range<usize>>,
    end: u64,
    selections: Seq<Selection>,
    count: nat,
)
    ensures
        0 <= served_by(pts, chunks, end, selections, count) <= selections.len(),
        count > 0 ==> served_by(pts, chunks, end, selections, (count - 1) as nat) <= served_by(
            pts,
            chunks,
            end,
            selections,
            count,
        ),
    decreases count,
{
    if count > 0 {
        lemma_served_by(pts, chunks, end, selections, (count - 1) as nat);
        let before = served_by(pts, chunks, end, selections, (count - 1) as nat);
        let times = chunk_times(pts, chunks[count - 1], end);
        if times.len() > 0 {
            lemma_run_end(selections, before, times.last());
        }
    }
}

pub proof fn lemma_longest(ranges: Seq<Range<usize>>, bound: int)
    requires
        bound >= 0,
        forall|i: int|
            0 <= i < ranges.len() ==> (#[trigger] ranges[i]).end - ranges[i].start <= bound,
    ensures
        0 <= longest(ranges) <= bound,
    decreases ranges.len(),
{
    if ranges.len() > 0 {
        assert forall|i: int| 0 <= i < ranges.drop_last().len() implies (
        #[trigger] ranges.drop_last()[i]).end - ranges.drop_last()[i].start <= bound by {
            assert(ranges[i].end - ranges[i].start <= bound);
        }
        lemma_longest(ranges.drop_last(), bound);
        assert(ranges[ranges.len() - 1].end - ranges[ranges.len() - 1].start <= bound);
    }
}

pub proof fn lemma_selection_count(presented: Seq<i64>, window_ms: u64, total: usize, count: nat)
    ensures
        selections_of(presented, window_ms, total, count).len() <= count,
    decreases count,
{
    if count > 0 {
        lemma_selection_count(presented, window_ms, total, (count - 1) as nat);
    }
}

/// Gives each chunk the presentation times it has to produce and the selections it serves.
fn share_out(
    pts: &Vec<i64>,
    chunks: &Vec<Range<usize>>,
    end: u64,
    selections: &Vec<Selection>,
) -> (shares: (Vec<Vec<i64>>, Vec<Range<usize>>, usize))
    requires
        forall|c: int|
            0 <= c < chunks@.len() ==> (#[trigger] chunks@[c]).start <= chunks@[c].end
                <= pts@.len(),
    ensures
        shares.0@.map_values(|times: Vec<i64>| times@) == chunks@.map_values(
            |chunk: Range<usize>| chunk_times(pts@, chunk, end),
        ),
        shares.1@ == chunk_selections(pts@, chunks@, end, selections@),
        shares.2 == served_by(pts@, chunks@, end, selections@, chunks@.len()),
{
    let mut presented: Vec<Vec<i64>> = Vec::new();
    let mut selected: Vec<Range<usize>> = Vec::new();
    let mut cursor: usize = 0;
    let mut c: usize = 0;
    while c < chunks.len()
        invariant
            c <= chunks@.len(),
            forall|d: int|
                0 <= d < chunks@.len() ==> (#[trigger] chunks@[d]).start <= chunks@[d].end
                    <= pts@.len(),
            cursor == served_by(pts@, chunks@, end, selections@, c as nat),
            cursor <= selections@.len(),
            presented@.len() == c,
            forall|d: int|
                0 <= d < c ==> (#[trigger] presented@[d])@ == chunk_times(pts@, chunks@[d], end),
            selected@ == chunk_selections(pts@, chunks@, end, selections@).take(c as int),
        decreases chunks@.len() - c,
    {
        let from: usize = chunks[c].start;
        let to: usize = chunks[c].end;
        let times = sort_times(&keep_times(pts, from, to, end));
        let begin: usize = cursor;
        if times.len() > 0 {
            let last: i64 = times[times.len() - 1];
            while cursor < selections.len() && selections[cursor].pts <= last
                invariant
                    cursor <= selections@.len(),
                    run_end(selections@, begin as int, last) == run_end(
                        selections@,
                        cursor as int,
                        last,
                    ),
                decreases selections@.len() - cursor,
            {
                cursor += 1;
            }
        }
        proof {
            lemma_served_by(pts@, chunks@, end, selections@, (c + 1) as nat);
        }
        selected.push(begin..cursor);
        presented.push(times);
        c += 1;
        assert(selected@ =~= chunk_selections(pts@, chunks@, end, selections@).take(c as int));
    }
    assert(selected@ =~= chunk_selections(pts@, chunks@, end, selections@));
    assert(presented@.map_values(|times: Vec<i64>| times@) =~= chunks@.map_values(
        |chunk: Range<usize>| chunk_times(pts@, chunk, end),
    ));
    (presented, selected, cursor)
}

/// Plans how a clip is shared out to several decoders.
pub fn plan_parallel(
    pts: &Vec<i64>,
    idr: &Vec<bool>,
    end: u64,
    duration_ms: u64,
    config: &VideoConfig,
    par: &ParallelConfig,
) -> (plan: Result<ChunkPlan, Fallback>)
    requires
        idr@.len() == pts@.len(),
        config.window_ms > 0,
        par.workers < usize::MAX,
    ensures
        match plan {
            Ok(plan) => chunk_plan_of(pts@, idr@, end, duration_ms, *config, *par) == Ok::<
                ChunkPlanView,
                Fallback,
            >(plan@),
            Err(fallback) => chunk_plan_of(pts@, idr@, end, duration_ms, *config, *par) == Err::<
                ChunkPlanView,
                Fallback,
            >(fallback),
        },
{
    let count: usize = pts.len();
    let kept = keep_times(pts, 0, count, end);
    assert(pts@.subrange(0, count as int) =~= pts@);
    let presented = match present_all(&kept) {
        Some(presented) => presented,
        None => {
            return Err(Fallback::ReorderedTooFar);
        },
    };
    proof {
        lemma_sorted(kept@);
    }
    if presented.len() == 0 {
        return Err(Fallback::NothingPresented);
    }
    if !all_distinct(&presented) {
        return Err(Fallback::DuplicateTimes);
    }
    let total: usize = count_epochs(duration_ms, config.audio_duration_ms, config.window_ms);
    proof {
        lemma_kept_steps(pts@, end, config.window_ms);
        lemma_selection_count(presented@, config.window_ms, total, presented@.len());
    }
    let selections = assign_epochs(presented.as_slice(), config.window_ms, total);
    if selections.len() == 0 || selections[selections.len() - 1].epochs.1 != total {
        return Err(Fallback::EpochsUncovered);
    }
    let chunks = plan_chunks(pts.as_slice(), idr.as_slice(), par.chunk_target_ms);
    if chunks.len() < 2 {
        return Err(Fallback::FewChunks);
    }
    proof {
        crate::video_parallel::law_chunks_partition_samples(pts@, idr@, par.chunk_target_ms);
    }
    let (times, selected, cursor) = share_out(pts, &chunks, end, &selections);
    if cursor != selections.len() {
        return Err(Fallback::AssignmentMismatch);
    }
    proof {
        assert forall|c: int| 0 <= c < selected@.len() implies (#[trigger] selected@[c]).start
            <= selected@[c].end && selected@[c].end - selected@[c].start <= pts@.len() by {
            lemma_served_by(pts@, chunks@, end, selections@, c as nat);
            lemma_served_by(pts@, chunks@, end, selections@, (c + 1) as nat);
        }
        lemma_longest(selected@, pts@.len() as int);
    }
    let most: usize = longest_range(&selected);
    let chunk_bytes: usize = match bytes_for(most, config.resolution) {
        Some(bytes) => bytes,
        None => {
            proof {
                let bytes = most * tensor_bytes(config.resolution);
                assert(par.buffer_bytes as int / bytes == 0) by (nonlinear_arith)
                    requires
                        0 <= par.buffer_bytes < bytes,
                ;
            }
            return Err(Fallback::BudgetTooSmall);
        },
    };
    let window: usize = window_for(par.workers, par.buffer_bytes, chunk_bytes);
    let workers: usize = par.workers.min(window).min(chunks.len());
    if workers < 2 {
        return Err(Fallback::BudgetTooSmall);
    }
    Ok(
        ChunkPlan {
            chunks,
            presented: times,
            selections,
            selected,
            total_epochs: total,
            chunk_bytes,
            window,
            workers,
        },
    )
}

proof fn lemma_chunk_times(pts: Seq<i64>, chunk: Range<usize>, end: u64, time: i64)
    requires
        chunk.start <= chunk.end <= pts.len(),
    ensures
        chunk_times(pts, chunk, end).contains(time) <==> (in_span(time, end) && exists|i: int|
            chunk.start <= i < chunk.end && #[trigger] pts[i] == time),
        chunk_times(pts, chunk, end).contains(time) ==> time <= chunk_times(pts, chunk, end).last(),
        chunk_times(pts, chunk, end).len() > 0 ==> chunk_times(pts, chunk, end).contains(
            chunk_times(pts, chunk, end).last(),
        ),
{
    let part = pts.subrange(chunk.start as int, chunk.end as int);
    let times = chunk_times(pts, chunk, end);
    lemma_sorted(kept_times(part, end));
    lemma_kept_contains(part, end, time);
    if part.contains(time) {
        let k = choose|k: int| 0 <= k < part.len() && part[k] == time;
        assert(pts[chunk.start + k] == time);
    }
    if exists|i: int| chunk.start <= i < chunk.end && #[trigger] pts[i] == time {
        let i = choose|i: int| chunk.start <= i < chunk.end && #[trigger] pts[i] == time;
        assert(part[i - chunk.start] == time);
    }
    if times.contains(time) {
        let k = choose|k: int| 0 <= k < times.len() && times[k] == time;
        if k < times.len() - 1 {
            assert(times[k] <= times[times.len() - 1]);
        }
    }
    if times.len() > 0 {
        assert(times[times.len() - 1] == times.last());
    }
}

/// The chunks follow each other and hold every sample, and each later chunk presents after
/// all that came before it.
spec fn cut_cleanly(pts: Seq<i64>, chunks: Seq<Range<usize>>) -> bool {
    &&& pts.len() <= usize::MAX
    &&& chunks.len() > 0
    &&& chunks[0].start == 0
    &&& chunks.last().end == pts.len()
    &&& forall|i: int|
        0 <= i < chunks.len() ==> (#[trigger] chunks[i]).start < chunks[i].end <= pts.len()
    &&& forall|i: int|
        0 < i < chunks.len() ==> (#[trigger] chunks[i]).start == chunks[i - 1].end
            && crate::video_parallel::clean_cut(pts, chunks[i].start as int)
}

proof fn lemma_holding_chunk(pts: Seq<i64>, chunks: Seq<Range<usize>>, i: int, count: int) -> (c:
    int)
    requires
        cut_cleanly(pts, chunks),
        0 < count <= chunks.len(),
        0 <= i < chunks[count - 1].end,
    ensures
        0 <= c < count,
        chunks[c].start <= i < chunks[c].end,
    decreases count,
{
    if chunks[count - 1].start <= i {
        count - 1
    } else {
        assert(chunks[count - 1].start < chunks[count - 1].end);
        assert(chunks[count - 1].start == chunks[count - 2].end);
        lemma_holding_chunk(pts, chunks, i, count - 1)
    }
}

proof fn lemma_chunks_in_order(pts: Seq<i64>, chunks: Seq<Range<usize>>, a: int, b: int)
    requires
        cut_cleanly(pts, chunks),
        0 <= a < b < chunks.len(),
    ensures
        chunks[a].end <= chunks[b].start,
    decreases b - a,
{
    assert(chunks[b].start == chunks[b - 1].end);
    if a < b - 1 {
        lemma_chunks_in_order(pts, chunks, a, b - 1);
        assert(chunks[b - 1].start < chunks[b - 1].end);
    }
}

proof fn lemma_served_grows(
    pts: Seq<i64>,
    chunks: Seq<Range<usize>>,
    end: u64,
    selections: Seq<Selection>,
    a: nat,
    b: nat,
)
    requires
        a <= b,
    ensures
        served_by(pts, chunks, end, selections, a) <= served_by(pts, chunks, end, selections, b),
    decreases b,
{
    if a < b {
        lemma_served_by(pts, chunks, end, selections, b);
        lemma_served_grows(pts, chunks, end, selections, a, (b - 1) as nat);
    }
}

/// A selection at or after the end of chunk `c`'s run presents after all of chunk `c`.
proof fn lemma_after_run(
    pts: Seq<i64>,
    chunks: Seq<Range<usize>>,
    end: u64,
    selections: Seq<Selection>,
    c: int,
    s: int,
)
    requires
        forall|i: int, j: int|
            0 <= i < j < selections.len() ==> selections[i].pts < selections[j].pts,
        0 <= c < chunks.len(),
        served_by(pts, chunks, end, selections, (c + 1) as nat) <= s < selections.len(),
        chunk_times(pts, chunks[c], end).len() > 0,
    ensures
        selections[s].pts > chunk_times(pts, chunks[c], end).last(),
{
    let before = served_by(pts, chunks, end, selections, c as nat);
    let last = chunk_times(pts, chunks[c], end).last();
    lemma_served_by(pts, chunks, end, selections, c as nat);
    lemma_run_end(selections, before, last);
    let stop = run_end(selections, before, last);
    if stop < s {
        assert(selections[stop].pts < selections[s].pts);
    }
}

proof fn lemma_chunks_cut_cleanly(pts: Seq<i64>, idr: Seq<bool>, target_ms: u64)
    requires
        0 < pts.len() <= usize::MAX,
    ensures
        cut_cleanly(pts, chunks_of(pts, idr, target_ms)),
{
    let chunks = chunks_of(pts, idr, target_ms);
    crate::video_parallel::law_chunks_partition_samples(pts, idr, target_ms);
    assert forall|i: int| 0 < i < chunks.len() implies (#[trigger] chunks[i]).start
        == chunks[i - 1].end && crate::video_parallel::clean_cut(pts, chunks[i].start as int) by {
        crate::video_parallel::law_chunks_start_cleanly(pts, idr, target_ms, i);
    }
}

/// Sharing a clip out does not change which picture serves an epoch: the chunks serve all
/// selections, each once and in order, and every selection is served by a chunk that holds
/// its picture.
pub proof fn law_chunks_serve_own_pictures(
    pts: Seq<i64>,
    idr: Seq<bool>,
    target_ms: u64,
    end: u64,
    window_ms: u64,
    total: usize,
)
    requires
        0 < pts.len() <= usize::MAX,
        strictly_increasing(sorted(kept_times(pts, end))),
    ensures
        ({
            let presented = sorted(kept_times(pts, end));
            let selections = selections_of(presented, window_ms, total, presented.len());
            let chunks = chunks_of(pts, idr, target_ms);
            &&& served_by(pts, chunks, end, selections, 0) == 0
            &&& served_by(pts, chunks, end, selections, chunks.len()) == selections.len()
            &&& forall|c: int, s: int|
                0 <= c < chunks.len() && served_by(pts, chunks, end, selections, c as nat) <= s
                    < served_by(pts, chunks, end, selections, (c + 1) as nat)
                    ==> #[trigger] chunk_times(pts, chunks[c], end).contains(
                    (#[trigger] selections[s]).pts,
                )
        }),
{
    let presented = sorted(kept_times(pts, end));
    let selections = selections_of(presented, window_ms, total, presented.len());
    let chunks = chunks_of(pts, idr, target_ms);
    lemma_chunks_cut_cleanly(pts, idr, target_ms);
    crate::video_parallel::lemma_selections_ascend(presented, window_ms, total, presented.len());
    lemma_sorted(kept_times(pts, end));
    let all = served_by(pts, chunks, end, selections, chunks.len());
    lemma_served_by(pts, chunks, end, selections, chunks.len());
    if all < selections.len() {
        let c = lemma_selected_chunk(pts, chunks, end, presented, selections, all);
        lemma_served_grows(pts, chunks, end, selections, (c + 1) as nat, chunks.len());
        lemma_chunk_times(pts, chunks[c], end, selections[all].pts);
        lemma_after_run(pts, chunks, end, selections, c, all);
    }
    assert forall|c: int, s: int|
        0 <= c < chunks.len() && served_by(pts, chunks, end, selections, c as nat) <= s < served_by(
            pts,
            chunks,
            end,
            selections,
            (c + 1) as nat,
        ) implies #[trigger] chunk_times(pts, chunks[c], end).contains(
        (#[trigger] selections[s]).pts,
    ) by {
        lemma_served_by(pts, chunks, end, selections, c as nat);
        lemma_served_by(pts, chunks, end, selections, (c + 1) as nat);
        let time = selections[s].pts;
        let d = lemma_selected_chunk(pts, chunks, end, presented, selections, s);
        let own = chunk_times(pts, chunks[c], end);
        lemma_run_end(selections, served_by(pts, chunks, end, selections, c as nat), own.last());
        assert(time <= own.last());
        lemma_chunk_times(pts, chunks[d], end, time);
        lemma_chunk_times(pts, chunks[c], end, own.last());
        if d < c {
            lemma_served_grows(pts, chunks, end, selections, (d + 1) as nat, c as nat);
            lemma_after_run(pts, chunks, end, selections, d, s);
        } else if d > c {
            lemma_chunks_in_order(pts, chunks, c, d);
            let i = choose|i: int|
                chunks[c].start <= i < chunks[c].end && #[trigger] pts[i] == own.last();
            let j = choose|j: int|
                chunks[d].start <= j < chunks[d].end && #[trigger] pts[j] == time;
            assert(crate::video_parallel::clean_cut(pts, chunks[d].start as int));
            assert(pts[i] < pts[j]);
        }
    }
}

/// The chunk that holds the picture of selection `s`.
proof fn lemma_selected_chunk(
    pts: Seq<i64>,
    chunks: Seq<Range<usize>>,
    end: u64,
    presented: Seq<i64>,
    selections: Seq<Selection>,
    s: int,
) -> (c: int)
    requires
        cut_cleanly(pts, chunks),
        presented == sorted(kept_times(pts, end)),
        0 <= s < selections.len(),
        presented.contains(selections[s].pts),
    ensures
        0 <= c < chunks.len(),
        chunk_times(pts, chunks[c], end).contains(selections[s].pts),
{
    let time = selections[s].pts;
    lemma_sorted(kept_times(pts, end));
    lemma_kept_contains(pts, end, time);
    let i = choose|i: int| 0 <= i < pts.len() && pts[i] == time;
    let c = lemma_holding_chunk(pts, chunks, i, chunks.len() as int);
    lemma_chunk_times(pts, chunks[c], end, time);
    c
}

/// What the first `count` chunks serve, one chunk after the other.
pub open spec fn served_in_turn(
    selections: Seq<Selection>,
    selected: Seq<Range<usize>>,
    count: nat,
) -> Seq<Selection>
    decreases count,
{
    if count == 0 {
        Seq::empty()
    } else {
        let range = selected[count - 1];
        served_in_turn(selections, selected, (count - 1) as nat) + selections.subrange(
            range.start as int,
            range.end as int,
        )
    }
}

proof fn lemma_served_in_turn(
    pts: Seq<i64>,
    chunks: Seq<Range<usize>>,
    end: u64,
    selections: Seq<Selection>,
    count: nat,
)
    requires
        count <= chunks.len(),
        selections.len() <= usize::MAX,
    ensures
        served_in_turn(selections, chunk_selections(pts, chunks, end, selections), count)
            == selections.take(served_by(pts, chunks, end, selections, count)),
    decreases count,
{
    lemma_served_by(pts, chunks, end, selections, count);
    if count == 0 {
        assert(selections.take(0) =~= Seq::<Selection>::empty());
    } else {
        lemma_served_by(pts, chunks, end, selections, (count - 1) as nat);
        lemma_served_in_turn(pts, chunks, end, selections, (count - 1) as nat);
        let a = served_by(pts, chunks, end, selections, (count - 1) as nat);
        let b = served_by(pts, chunks, end, selections, count);
        assert(selections.take(a) + selections.subrange(a, b) =~= selections.take(b));
    }
}

/// The chunks of an accepted plan, handed over one after the other, serve exactly the
/// selections of the whole clip, which are those that one decoder would serve.
pub proof fn law_chunks_together_serve_the_clip(
    pts: Seq<i64>,
    idr: Seq<bool>,
    end: u64,
    duration_ms: u64,
    config: VideoConfig,
    par: ParallelConfig,
)
    requires
        pts.len() <= usize::MAX,
        chunk_plan_of(pts, idr, end, duration_ms, config, par) is Ok,
    ensures
        ({
            let plan = chunk_plan_of(pts, idr, end, duration_ms, config, par)->Ok_0;
            let presented = sorted(kept_times(pts, end));
            &&& served_in_turn(plan.selections, plan.selected, plan.chunks.len())
                == plan.selections
            &&& plan.selections == selections_of(
                presented,
                config.window_ms,
                plan.total_epochs,
                presented.len(),
            )
            &&& crate::video_parallel::contiguous(plan.selections)
            &&& crate::video_parallel::epochs_served(plan.selections) == plan.total_epochs
            &&& plan.window * plan.chunk_bytes <= par.buffer_bytes
        }),
{
    let plan = chunk_plan_of(pts, idr, end, duration_ms, config, par)->Ok_0;
    let presented = sorted(kept_times(pts, end));
    let total = plan.total_epochs;
    let selections = plan.selections;
    lemma_sorted(kept_times(pts, end));
    pts.lemma_filter_len(|p: i64| in_span(p, end));
    lemma_selection_count(presented, config.window_ms, total, presented.len());
    lemma_served_in_turn(pts, plan.chunks, end, selections, plan.chunks.len());
    assert(selections.take(selections.len() as int) =~= selections);
    crate::video_parallel::law_every_epoch_served_once(presented, config.window_ms, total);
    assert forall|c: int| 0 <= c < plan.selected.len() implies (#[trigger] plan.selected[c]).end
        - plan.selected[c].start <= selections.len() by {
        lemma_served_by(pts, plan.chunks, end, selections, c as nat);
        lemma_served_by(pts, plan.chunks, end, selections, (c + 1) as nat);
    }
    lemma_longest(plan.selected, selections.len() as int);
    assert(plan.chunk_bytes >= 0) by (nonlinear_arith)
        requires
            plan.chunk_bytes == longest(plan.selected) * (3 * config.resolution * config.resolution
                * 4),
            longest(plan.selected) >= 0,
    ;
    law_window_fits_buffer(par.workers, par.buffer_bytes, plan.chunk_bytes);
}

/// A tensor is three planes of four-byte values.
pub proof fn law_tensor_size(resolution: usize)
    ensures
        tensor_bytes(resolution) == 12 * (resolution * resolution),
{
    let r = resolution as int;
    assert(3 * r * r * 4 == 12 * (r * r)) by (nonlinear_arith);
}

/// As many chunks are under way as there may be: one more than there are workers, unless one
/// chunk more would not fit the buffer; and one in any case.
pub proof fn law_window_is_as_wide_as_fits(workers: usize, buffer_bytes: usize, chunk_bytes: int)
    requires
        chunk_bytes >= 0,
    ensures
        ({
            let window = admission_window(workers, buffer_bytes, chunk_bytes);
            &&& 1 <= window && window <= workers + 1
            &&& window < workers + 1 ==> (window + 1) * chunk_bytes > buffer_bytes
            &&& chunk_bytes == 0 ==> window == workers + 1
            &&& window > 1 ==> window * chunk_bytes <= buffer_bytes
        }),
{
    let window = admission_window(workers, buffer_bytes, chunk_bytes);
    law_window_fits_buffer(workers, buffer_bytes, chunk_bytes);
    if chunk_bytes > 0 {
        let q = buffer_bytes as int / chunk_bytes;
        vstd::arithmetic::div_mod::lemma_fundamental_div_mod(buffer_bytes as int, chunk_bytes);
        assert(chunk_bytes * q == q * chunk_bytes && (q + 1) * chunk_bytes == q * chunk_bytes
            + chunk_bytes) by (nonlinear_arith);
        if window < workers + 1 {
            assert(q <= window);
            assert((q + 1) * chunk_bytes <= (window + 1) * chunk_bytes) by (nonlinear_arith)
                requires
                    q <= window,
                    chunk_bytes > 0,
            ;
        }
    }
}

/// The longest range is as long as some range, and no range is longer.
pub proof fn law_longest_is_longest(ranges: Seq<Range<usize>>, i: int)
    requires
        0 <= i < ranges.len(),
        forall|k: int| 0 <= k < ranges.len() ==> (#[trigger] ranges[k]).start <= ranges[k].end,
    ensures
        ranges[i].end - ranges[i].start <= longest(ranges),
        exists|k: int|
            0 <= k < ranges.len() && longest(ranges) == (#[trigger] ranges[k]).end
                - ranges[k].start,
    decreases ranges.len(),
{
    let earlier = ranges.drop_last();
    let last = ranges.len() - 1;
    assert(ranges[last].start <= ranges[last].end);
    if ranges.len() > 1 {
        assert forall|k: int| 0 <= k < earlier.len() implies (#[trigger] earlier[k]).start
            <= earlier[k].end by {
            assert(earlier[k] == ranges[k]);
        }
        law_longest_is_longest(
            earlier,
            if i < last {
                i
            } else {
                0
            },
        );
        let k = choose|k: int|
            0 <= k < earlier.len() && longest(earlier) == (#[trigger] earlier[k]).end
                - earlier[k].start;
        assert(ranges[k] == earlier[k]);
        if i < last {
            assert(earlier[i] == ranges[i]);
        }
    } else {
        assert(longest(earlier) == 0);
    }
    assert(longest(ranges) == ranges[last].end - ranges[last].start || longest(ranges) == longest(
        earlier,
    ));
}

/// A request is not shared out exactly where it asks for fewer than two workers, or for threads
/// inside the decoder.
pub proof fn law_request_for_one_decoder(config: VideoConfig, par: ParallelConfig)
    ensures
        request_fallback(config, par) is None <==> par.workers >= 2 && config.decoder_threads == 0,
        par.workers < 2 ==> request_fallback(config, par) == Some(Fallback::FewWorkers),
        par.workers >= 2 && config.decoder_threads > 0 ==> request_fallback(config, par) == Some(
            Fallback::DecoderThreads,
        ),
{
}

/// What each fallback is reported as.
pub proof fn law_fallback_texts()
    ensures
        fallback_text(Fallback::FewWorkers) == "fewer than 2 workers requested"@,
        fallback_text(Fallback::DecoderThreads) == "decoder threads are single-decoder only"@,
        fallback_text(Fallback::NoTrack) == "no H.264 track"@,
        fallback_text(Fallback::TimelineRejected) == "timeline rejected"@,
        fallback_text(Fallback::NoSampleEntry) == "no video sample entry"@,
        fallback_text(Fallback::NoAvcc) == "no avcC"@,
        fallback_text(Fallback::AvccUnreadable) == "avcC parse failed"@,
        fallback_text(Fallback::NoParameterSets) == "avcC missing SPS/PPS"@,
        fallback_text(Fallback::ColorRejected) == "color validation failed"@,
        fallback_text(Fallback::PlanTooLarge) == "planning metadata exceeds 32 MiB allowance"@,
        fallback_text(Fallback::SampleUnreadable) == "sample table read failed"@,
        fallback_text(Fallback::ReorderedTooFar) == "presentation order outside lookahead"@,
        fallback_text(Fallback::NothingPresented) == "no presented pictures"@,
        fallback_text(Fallback::DuplicateTimes) == "duplicate presentation timestamps"@,
        fallback_text(Fallback::EpochsUncovered) == "selection does not cover every epoch"@,
        fallback_text(Fallback::FewChunks) == "fewer than 2 IDR chunks"@,
        fallback_text(Fallback::AssignmentMismatch) == "selection/chunk assignment mismatch"@,
        fallback_text(Fallback::BudgetTooSmall)
            == "byte budget allows fewer than 2 in-flight chunks"@,
        setup_fallback(SetupError::MissingEntry) == Fallback::NoSampleEntry,
        setup_fallback(SetupError::NotVideo) == Fallback::NoSampleEntry,
        setup_fallback(SetupError::MissingConfig) == Fallback::NoAvcc,
        setup_fallback(SetupError::Unreadable) == Fallback::AvccUnreadable,
        setup_fallback(SetupError::MissingSets) == Fallback::NoParameterSets,
{
}

/// A clip is shared out exactly where the lookahead can put its pictures in order, some picture
/// is presented, no two at the same time, there is an epoch, there are two chunks or more, and
/// two of them, or two workers, fit: two workers were asked for, and twice the tensors of the
/// chunk with the most selected pictures fit the buffer. The first of these that fails is
/// reported.
pub proof fn law_clip_is_shared_where_it_can_be(
    pts: Seq<i64>,
    idr: Seq<bool>,
    end: u64,
    duration_ms: u64,
    config: VideoConfig,
    par: ParallelConfig,
)
    requires
        0 < pts.len() <= usize::MAX,
    ensures
        ({
            let res = chunk_plan_of(pts, idr, end, duration_ms, config, par);
            let kept = kept_times(pts, end);
            let presented = sorted(kept);
            let total = epoch_count(duration_ms, config.audio_duration_ms, config.window_ms);
            let chunks = chunks_of(pts, idr, par.chunk_target_ms);
            let selections = selections_of(presented, config.window_ms, total, presented.len());
            let most = longest(chunk_selections(pts, chunks, end, selections));
            let ordered = within_lookahead(kept);
            let distinct = forall|i: int, j: int|
                0 <= i < j < presented.len() ==> presented[i] < presented[j];
            let fits = par.workers >= 2 && 2 * (most * tensor_bytes(config.resolution))
                <= par.buffer_bytes;
            &&& res is Ok <==> ordered && kept.len() > 0 && distinct && total > 0 && chunks.len()
                >= 2 && fits
            &&& !ordered ==> res == Err::<ChunkPlanView, Fallback>(Fallback::ReorderedTooFar)
            &&& ordered && kept.len() == 0 ==> res == Err::<ChunkPlanView, Fallback>(
                Fallback::NothingPresented,
            )
            &&& ordered && kept.len() > 0 && !distinct ==> res == Err::<ChunkPlanView, Fallback>(
                Fallback::DuplicateTimes,
            )
            &&& ordered && kept.len() > 0 && distinct && total == 0 ==> res == Err::<
                ChunkPlanView,
                Fallback,
            >(Fallback::EpochsUncovered)
            &&& ordered && kept.len() > 0 && distinct && total > 0 && chunks.len() < 2 ==> res
                == Err::<ChunkPlanView, Fallback>(Fallback::FewChunks)
            &&& ordered && kept.len() > 0 && distinct && total > 0 && chunks.len() >= 2 && !fits
                ==> res == Err::<ChunkPlanView, Fallback>(Fallback::BudgetTooSmall)
            &&& res matches Ok(plan) ==> {
                &&& plan.chunks == chunks && plan.selections == selections
                &&& plan.total_epochs == total
                &&& plan.chunk_bytes == most * tensor_bytes(config.resolution)
                &&& 2 <= plan.workers && plan.workers <= par.workers && plan.workers <= plan.window
                    && plan.workers <= chunks.len()
                &&& plan.workers == par.workers || plan.workers == plan.window || plan.workers
                    == chunks.len()
                &&& plan.window == admission_window(
                    par.workers,
                    par.buffer_bytes,
                    plan.chunk_bytes,
                )
                &&& plan.selected == chunk_selections(pts, chunks, end, selections)
                &&& plan.presented.len() == chunks.len()
                &&& forall|c: int|
                    0 <= c < chunks.len() ==> #[trigger] plan.presented[c] == sorted(
                        kept_times(
                            pts.subrange(chunks[c].start as int, chunks[c].end as int),
                            end,
                        ),
                    )
            }
        }),
{
    let kept = kept_times(pts, end);
    let presented = sorted(kept);
    let total = epoch_count(duration_ms, config.audio_duration_ms, config.window_ms);
    let chunks = chunks_of(pts, idr, par.chunk_target_ms);
    let selections = selections_of(presented, config.window_ms, total, presented.len());
    let selected = chunk_selections(pts, chunks, end, selections);
    lemma_sorted(kept);
    pts.lemma_filter_len(|p: i64| in_span(p, end));
    lemma_selection_count(presented, config.window_ms, total, presented.len());
    if presented.len() > 0 {
        crate::video_parallel::law_every_epoch_served_once(presented, config.window_ms, total);
    }
    if strictly_increasing(presented) {
        law_chunks_serve_own_pictures(
            pts,
            idr,
            par.chunk_target_ms,
            end,
            config.window_ms,
            total,
        );
    }
    assert forall|c: int| 0 <= c < selected.len() implies (#[trigger] selected[c]).end
        - selected[c].start <= selections.len() by {
        lemma_served_by(pts, chunks, end, selections, c as nat);
        lemma_served_by(pts, chunks, end, selections, (c + 1) as nat);
    }
    lemma_longest(selected, selections.len() as int);
    let most = longest(selected);
    let bytes = most * tensor_bytes(config.resolution);
    let side = config.resolution as int;
    assert(bytes >= 0) by (nonlinear_arith)
        requires
            bytes == most * (3 * side * side * 4),
            most >= 0,
    ;
    law_window_is_as_wide_as_fits(par.workers, par.buffer_bytes, bytes);
    let window = admission_window(par.workers, par.buffer_bytes, bytes);
    if window >= 2 {
        assert(2 * bytes <= window * bytes) by (nonlinear_arith)
            requires
                window >= 2,
                bytes >= 0,
        ;
    } else {
        assert(window == 1);
        assert((window + 1) * bytes == 2 * bytes) by (nonlinear_arith)
            requires
                window == 1,
        ;
    }
}

} // verus!
