//! The plan by which an H.265 clip is decoded, by one decoder or by several.
use std::ops::Range;
use vstd::prelude::*;
use crate::chunk_plan::{
    admission_window, bytes_for, least_of, lemma_kept_steps, lemma_longest,
    lemma_selection_count, longest, longest_range, tensor_bytes, window_for,
};
use crate::order::{
    all_distinct, find_time, increasing, lemma_sorted, sort_times, sorted, strictly_increasing,
};
use crate::video::{
    count_epochs, epoch_count, in_span, is_in_span, keep_times, kept_times, VideoConfig,
};
use crate::video_hevc::{
    answers, classify, droppable_at, headers_of, hevc_chunks, hevc_disposable,
    is_vcl, lemma_hevc_chunk_inside, nal_headers, partitions_pictures,
    plan_hevc_chunks, rasl_run_end, unit_class, HevcChunk, UnitHeader,
};
use crate::video_parallel::{
    assign_epochs, is_selected, lemma_selections_ascend, names, plan_fits_budget, selections_ascend,
    selections_of, ParallelConfig, Selection, PLAN_BUDGET_BYTES, PLAN_BYTES_PER_SAMPLE,
};

verus! {

/// Why an H.265 clip cannot be planned.
#[derive(Clone, Copy, Debug, PartialEq, Eq, Structural)]
pub enum HevcPlanError {
    /// H.265 planning metadata exceeds its 32 MiB allowance.
    TooManySamples,
    /// H.265 track produced no display frames.
    NothingPresented,
    /// Duplicate H.265 presentation timestamps are unsupported.
    DuplicateTimes,
    /// H.265 selection does not cover every epoch.
    EpochsUncovered,
}

/// Why an H.265 clip cannot be decoded as was asked for.
#[derive(Clone, Copy, Debug, PartialEq, Eq, Structural)]
pub enum HevcRequestError {
    /// Epoch window must be positive.
    EmptyWindow,
    /// Decoder threads apply to the H.264 decoder only.
    DecoderThreads,
}

/// Checks what was asked for before anything of the clip is read.
pub fn check_hevc_request(config: &VideoConfig) -> (res: Result<(), HevcRequestError>)
    ensures
        res == request_checked(*config),
        res == if config.window_ms == 0 {
            Err::<(), HevcRequestError>(HevcRequestError::EmptyWindow)
        } else if config.decoder_threads != 0 {
            Err(HevcRequestError::DecoderThreads)
        } else {
            Ok(())
        },
{
    if config.window_ms == 0 {
        Err(HevcRequestError::EmptyWindow)
    } else if config.decoder_threads != 0 {
        Err(HevcRequestError::DecoderThreads)
    } else {
        Ok(())
    }
}

/// An access unit: its presentation time and its bytes.
pub struct AccessUnit {
    pub pts: i64,
    pub data: Seq<u8>,
}

/// The highest temporal id among the slices, and at least `floor`.
pub open spec fn highest_slice_id(headers: Seq<UnitHeader>, floor: u8) -> u8
    decreases headers.len(),
{
    if headers.len() == 0 {
        floor
    } else {
        let earlier = highest_slice_id(headers.drop_last(), floor);
        if is_vcl(headers.last().unit_type) && headers.last().temporal_id > earlier {
            headers.last().temporal_id
        } else {
            earlier
        }
    }
}

/// The highest temporal id among the slices of a clip.
pub open spec fn highest_id(units: Seq<AccessUnit>, length_size: nat) -> u8
    decreases units.len(),
{
    if units.len() == 0 {
        0
    } else {
        highest_slice_id(
            headers_of(units.last().data, length_size),
            highest_id(units.drop_last(), length_size),
        )
    }
}

/// The presentation times of a clip in decode order.
pub open spec fn times_of(units: Seq<AccessUnit>) -> Seq<i64> {
    units.map_values(|unit: AccessUnit| unit.pts)
}

/// The access units of a clip at which decoding can start.
pub open spec fn irap_of(units: Seq<AccessUnit>, length_size: nat) -> Seq<bool> {
    units.map_values(|unit: AccessUnit| unit_class(unit.data, length_size).0)
}

/// The access units of a clip that are RASL pictures.
pub open spec fn rasl_of(units: Seq<AccessUnit>, length_size: nat) -> Seq<bool> {
    units.map_values(|unit: AccessUnit| unit_class(unit.data, length_size).1)
}

/// What planning needs of the access units of a clip, gathered from their times and NAL
/// headers only.
pub struct Survey {
    length_size: usize,
    pts: Vec<i64>,
    irap: Vec<bool>,
    rasl: Vec<bool>,
    droppable: Vec<Option<u8>>,
    max_temporal_id: u8,
    units: Ghost<Seq<AccessUnit>>,
}

impl Survey {
    /// The access units that were noted.
    pub closed spec fn units(&self) -> Seq<AccessUnit> {
        self.units@
    }

    /// How many bytes a NAL length takes.
    pub closed spec fn size(&self) -> nat {
        self.length_size as nat
    }

    /// What is held agrees with the access units that were noted.
    pub closed spec fn valid(&self) -> bool {
        &&& self.pts@ == times_of(self.units())
        &&& self.irap@ == irap_of(self.units(), self.size())
        &&& self.rasl@ == rasl_of(self.units(), self.size())
        &&& self.max_temporal_id == highest_id(self.units(), self.size())
        &&& self.droppable@.len() == self.units().len()
        &&& forall|i: int, max: u8|
            0 <= i < self.units().len() ==> (#[trigger] hevc_disposable(
                self.units()[i].data,
                self.size(),
                max,
            ) <==> self.droppable@[i] == Some(max))
    }

    /// Starts a survey of `samples` access units, if its tables fit the allowance.
    pub fn new(samples: usize, length_size: usize) -> (survey: Result<Survey, HevcPlanError>)
        ensures
            match survey {
                Ok(survey) => {
                    &&& samples * PLAN_BYTES_PER_SAMPLE <= PLAN_BUDGET_BYTES
                    &&& survey.valid()
                    &&& survey.units() == Seq::<AccessUnit>::empty()
                    &&& survey.size() == length_size
                },
                Err(e) => {
                    &&& samples * PLAN_BYTES_PER_SAMPLE > PLAN_BUDGET_BYTES
                    &&& e == HevcPlanError::TooManySamples
                },
            },
    {
        if !plan_fits_budget(samples) {
            return Err(HevcPlanError::TooManySamples);
        }
        let survey = Survey {
            length_size,
            pts: Vec::new(),
            irap: Vec::new(),
            rasl: Vec::new(),
            droppable: Vec::new(),
            max_temporal_id: 0,
            units: Ghost(Seq::empty()),
        };
        assert(survey.pts@ =~= times_of(survey.units()));
        assert(survey.irap@ =~= irap_of(survey.units(), survey.size()));
        assert(survey.rasl@ =~= rasl_of(survey.units(), survey.size()));
        Ok(survey)
    }

    /// Notes the next access unit in decode order.
    pub fn note(&mut self, pts: i64, data: &[u8])
        requires
            old(self).valid(),
        ensures
            final(self).valid(),
            final(self).units() == old(self).units().push(AccessUnit { pts, data: data@ }),
            final(self).size() == old(self).size(),
    {
        let ghost before = *self;
        let ghost unit = AccessUnit { pts, data: data@ };
        let (irap, rasl) = classify(data, self.length_size);
        let droppable = droppable_at(data, self.length_size);
        let headers = nal_headers(data, self.length_size);
        let mut highest: u8 = self.max_temporal_id;
        let mut i: usize = 0;
        while i < headers.len()
            invariant
                i <= headers@.len(),
                highest == highest_slice_id(headers@.take(i as int), before.max_temporal_id),
            decreases headers@.len() - i,
        {
            let header = headers[i];
            assert(headers@.take(i + 1).drop_last() =~= headers@.take(i as int));
            if header.unit_type < 32 && header.temporal_id > highest {
                highest = header.temporal_id;
            }
            i += 1;
        }
        assert(headers@.take(i as int) =~= headers@);
        self.pts.push(pts);
        self.irap.push(irap);
        self.rasl.push(rasl);
        self.droppable.push(droppable);
        self.max_temporal_id = highest;
        proof {
            self.units = Ghost(self.units@.push(unit));
            assert(self.units@.drop_last() =~= before.units@);
            assert(self.pts@ =~= times_of(self.units()));
            assert(self.irap@ =~= irap_of(self.units(), self.size()));
            assert(self.rasl@ =~= rasl_of(self.units(), self.size()));
            assert forall|i: int, max: u8| 0 <= i < self.units().len() implies (
            #[trigger] hevc_disposable(self.units()[i].data, self.size(), max)
                <==> self.droppable@[i] == Some(max)) by {
                if i < before.units@.len() {
                    assert(hevc_disposable(before.units()[i].data, before.size(), max)
                        <==> before.droppable@[i] == Some(max));
                }
            }
        }
    }
}

/// Access unit `i` follows the opening IRAP picture as one of its RASL pictures. Those refer
/// to pictures from before the clip, so no decoder can produce them.
pub open spec fn is_leading_rasl(irap: Seq<bool>, rasl: Seq<bool>, i: int) -> bool {
    irap[0] && 1 <= i < rasl_run_end(rasl, 1, rasl.len() as int)
}

/// Access unit `i` is not decoded: it cannot be, or nothing refers to it and no epoch
/// selects it.
pub open spec fn is_skipped(
    units: Seq<AccessUnit>,
    length_size: nat,
    selections: Seq<Selection>,
    skip_nonref: bool,
    i: int,
) -> bool {
    ||| is_leading_rasl(irap_of(units, length_size), rasl_of(units, length_size), i)
    ||| skip_nonref && hevc_disposable(units[i].data, length_size, highest_id(units, length_size))
        && !names(selections, 0, selections.len() as int, units[i].pts)
}

/// What a plan holds.
pub struct HevcPlanView {
    pub pts: Seq<i64>,
    pub irap: Seq<bool>,
    pub rasl: Seq<bool>,
    pub skippable: Seq<bool>,
    pub selections: Seq<Selection>,
    pub total_epochs: usize,
    pub duration_ms: u64,
}

/// The facts about each access unit, and which picture serves which epochs.
pub struct HevcPlan {
    pub pts: Vec<i64>,
    /// Access units that can start a chunk: every slice is an IRAP slice, so the decoder
    /// resets its reference state there.
    pub irap: Vec<bool>,
    /// Access units whose slices are all RASL: they follow a CRA in decode order but present
    /// before it, and reference pictures from before that CRA.
    pub rasl: Vec<bool>,
    /// Access units that are not decoded.
    pub skippable: Vec<bool>,
    pub selections: Vec<Selection>,
    pub total_epochs: usize,
    pub duration_ms: u64,
}

impl View for HevcPlan {
    type V = HevcPlanView;

    open spec fn view(&self) -> HevcPlanView {
        HevcPlanView {
            pts: self.pts@,
            irap: self.irap@,
            rasl: self.rasl@,
            skippable: self.skippable@,
            selections: self.selections@,
            total_epochs: self.total_epochs,
            duration_ms: self.duration_ms,
        }
    }
}

/// The plan for a clip, or why there is none. Only pictures before `end` are presented.
pub open spec fn hevc_plan_of(
    units: Seq<AccessUnit>,
    length_size: nat,
    end: u64,
    duration_ms: u64,
    config: VideoConfig,
) -> Result<HevcPlanView, HevcPlanError> {
    let pts = times_of(units);
    let presented = sorted(kept_times(pts, end));
    let total = epoch_count(duration_ms, config.audio_duration_ms, config.window_ms);
    let selections = selections_of(presented, config.window_ms, total, presented.len());
    if presented.len() == 0 {
        Err(HevcPlanError::NothingPresented)
    } else if !strictly_increasing(presented) {
        Err(HevcPlanError::DuplicateTimes)
    } else if selections.len() == 0 || selections.last().epochs.1 != total {
        Err(HevcPlanError::EpochsUncovered)
    } else {
        Ok(
            HevcPlanView {
                pts,
                irap: irap_of(units, length_size),
                rasl: rasl_of(units, length_size),
                skippable: Seq::new(
                    units.len(),
                    |i: int| is_skipped(units, length_size, selections, config.skip_nonref, i),
                ),
                selections,
                total_epochs: total,
                duration_ms,
            },
        )
    }
}

/// A plan lists every access unit in each of its columns.
pub open spec fn plan_complete(plan: HevcPlanView) -> bool {
    &&& plan.irap.len() == plan.pts.len()
    &&& plan.rasl.len() == plan.pts.len()
    &&& plan.skippable.len() == plan.pts.len()
    &&& plan.selections.len() <= plan.pts.len()
}

/// A plan is complete.
pub proof fn lemma_plan_complete(
    units: Seq<AccessUnit>,
    length_size: nat,
    end: u64,
    duration_ms: u64,
    config: VideoConfig,
)
    ensures
        hevc_plan_of(units, length_size, end, duration_ms, config) matches Ok(plan)
            ==> plan_complete(plan),
{
    let pts = times_of(units);
    let presented = sorted(kept_times(pts, end));
    lemma_sorted(kept_times(pts, end));
    pts.lemma_filter_len(|p: i64| in_span(p, end));
    lemma_selection_count(
        presented,
        config.window_ms,
        epoch_count(duration_ms, config.audio_duration_ms, config.window_ms),
        presented.len(),
    );
}

impl Survey {
    /// Marks the access units that are not decoded.
    fn skippable(&self, selections: &Vec<Selection>, skip_nonref: bool) -> (skippable: Vec<bool>)
        requires
            self.valid(),
            self.units().len() > 0,
            selections_ascend(selections@),
        ensures
            skippable@ == Seq::new(
                self.units().len(),
                |i: int|
                    is_skipped(self.units(), self.size(), selections@, skip_nonref, i),
            ),
    {
        let n: usize = self.pts.len();
        let mut leading: usize = 1;
        if self.irap[0] {
            while leading < n && self.rasl[leading]
                invariant
                    1 <= leading <= n,
                    n == self.rasl@.len(),
                    rasl_run_end(self.rasl@, 1, n as int) == rasl_run_end(
                        self.rasl@,
                        leading as int,
                        n as int,
                    ),
                decreases n - leading,
            {
                leading += 1;
            }
        }
        let ghost all = Seq::new(
            self.units().len(),
            |i: int| is_skipped(self.units(), self.size(), selections@, skip_nonref, i),
        );
        let mut skippable: Vec<bool> = Vec::new();
        let mut i: usize = 0;
        while i < n
            invariant
                i <= n == self.units().len(),
                self.valid(),
                leading >= 1,
                self.irap@[0] ==> leading == rasl_run_end(self.rasl@, 1, n as int),
                !self.irap@[0] ==> leading == 1,
                selections_ascend(selections@),
                all == Seq::new(
                    self.units().len(),
                    |i: int| is_skipped(self.units(), self.size(), selections@, skip_nonref, i),
                ),
                skippable@ == all.take(i as int),
            decreases n - i,
        {
            let pts: i64 = self.pts[i];
            assert(hevc_disposable(self.units()[i as int].data, self.size(), self.max_temporal_id)
                <==> self.droppable@[i as int] == Some(self.max_temporal_id));
            let skip = if 1 <= i && i < leading {
                true
            } else if skip_nonref {
                match self.droppable[i] {
                    Some(id) => id == self.max_temporal_id && !is_selected(
                        selections,
                        0,
                        selections.len(),
                        pts,
                    ),
                    None => false,
                }
            } else {
                false
            };
            assert(skip == all[i as int]);
            skippable.push(skip);
            i += 1;
            assert(skippable@ =~= all.take(i as int));
        }
        assert(skippable@ =~= all);
        skippable
    }

    /// Plans the clip whose access units were noted.
    pub fn build_plan(self, end: u64, duration_ms: u64, config: &VideoConfig) -> (plan: Result<
        HevcPlan,
        HevcPlanError,
    >)
        requires
            self.valid(),
            config.window_ms > 0,
        ensures
            match plan {
                Ok(plan) => hevc_plan_of(self.units(), self.size(), end, duration_ms, *config)
                    == Ok::<HevcPlanView, HevcPlanError>(plan@) && plan_complete(plan@),
                Err(e) => hevc_plan_of(self.units(), self.size(), end, duration_ms, *config)
                    == Err::<HevcPlanView, HevcPlanError>(e),
            },
    {
        let count: usize = self.pts.len();
        let kept = keep_times(&self.pts, 0, count, end);
        assert(self.pts@.subrange(0, count as int) =~= self.pts@);
        proof {
            lemma_sorted(kept@);
        }
        if kept.len() == 0 {
            return Err(HevcPlanError::NothingPresented);
        }
        let presented = sort_times(&kept);
        if !all_distinct(&presented) {
            return Err(HevcPlanError::DuplicateTimes);
        }
        let total: usize = count_epochs(duration_ms, config.audio_duration_ms, config.window_ms);
        proof {
            lemma_kept_steps(self.pts@, end, config.window_ms);
            lemma_selections_ascend(presented@, config.window_ms, total, presented@.len());
        }
        let selections = assign_epochs(presented.as_slice(), config.window_ms, total);
        if selections.len() == 0 || selections[selections.len() - 1].epochs.1 != total {
            return Err(HevcPlanError::EpochsUncovered);
        }
        let skippable = self.skippable(&selections, config.skip_nonref);
        proof {
            lemma_plan_complete(self.units(), self.size(), end, duration_ms, *config);
        }
        Ok(
            HevcPlan {
                pts: self.pts,
                irap: self.irap,
                rasl: self.rasl,
                skippable,
                selections,
                total_epochs: total,
                duration_ms,
            },
        )
    }
}

/// The access units that a chunk decodes, in decode order.
pub open spec fn chunk_units(chunk: HevcChunk) -> Seq<usize> {
    seq![chunk.head] + Seq::new(
        (chunk.tail.end - chunk.tail.start) as nat,
        |k: int| (chunk.tail.start + k) as usize,
    )
}

/// All access units of a clip, in decode order.
pub open spec fn every_unit(count: nat) -> Seq<usize> {
    Seq::new(count, |i: int| i as usize)
}

/// The times that decoding `indices` has to produce: those of the pictures that are decoded
/// and lie before `end`, in presentation order.
pub open spec fn expected_times(plan: HevcPlanView, indices: Seq<usize>, end: u64) -> Seq<i64> {
    sorted(
        indices.filter(
            |i: usize| !plan.skippable[i as int] && in_span(plan.pts[i as int], end),
        ).map_values(|i: usize| plan.pts[i as int]),
    )
}

/// The first selection from `from` on that does not present before `limit`.
pub open spec fn served_until(selections: Seq<Selection>, from: int, limit: i64) -> int
    decreases selections.len() - from,
{
    if 0 <= from < selections.len() && selections[from].pts < limit {
        served_until(selections, from + 1, limit)
    } else {
        from
    }
}

/// How many selections the first `count` chunks serve.
pub open spec fn hevc_served(selections: Seq<Selection>, chunks: Seq<HevcChunk>, count: nat) -> int
    decreases count,
{
    if count == 0 {
        0
    } else {
        served_until(
            selections,
            hevc_served(selections, chunks, (count - 1) as nat),
            chunks[count - 1].present.1,
        )
    }
}

/// The selections that each chunk serves.
pub open spec fn hevc_selected(selections: Seq<Selection>, chunks: Seq<HevcChunk>) -> Seq<
    Range<usize>,
> {
    Seq::new(
        chunks.len(),
        |c: int|
            Range {
                start: hevc_served(selections, chunks, c as nat) as usize,
                end: hevc_served(selections, chunks, (c + 1) as nat) as usize,
            },
    )
}

/// The chunks of a clip, or none where they would not partition its pictures.
pub open spec fn layout_chunks(plan: HevcPlanView, target_ms: u64, end: u64) -> Seq<HevcChunk> {
    let chunks = hevc_chunks(plan.pts, plan.irap, plan.rasl, target_ms);
    if plan.pts.len() > 0 && partitions_pictures(chunks, plan.pts, |p: i64| in_span(p, end)) {
        chunks
    } else {
        Seq::empty()
    }
}

/// Every selection is served by a chunk that produces its picture.
pub open spec fn assignment_ok(plan: HevcPlanView, chunks: Seq<HevcChunk>, end: u64) -> bool {
    &&& chunks.len() > 0
    &&& hevc_served(plan.selections, chunks, chunks.len()) == plan.selections.len()
    &&& forall|c: int|
        0 <= c < chunks.len() ==> #[trigger] produces_selected(plan, chunks, end, c)
}

/// Chunk `c` produces the picture of every selection that it serves.
pub open spec fn produces_selected(
    plan: HevcPlanView,
    chunks: Seq<HevcChunk>,
    end: u64,
    c: int,
) -> bool {
    forall|s: int|
        hevc_served(plan.selections, chunks, c as nat) <= s < hevc_served(
            plan.selections,
            chunks,
            (c + 1) as nat,
        ) ==> expected_times(plan, chunk_units(chunks[c]), end).contains(
            (#[trigger] plan.selections[s]).pts,
        )
}

/// Why one decoder decodes the whole of an H.265 clip.
#[derive(Clone, Copy, Debug, PartialEq, Eq, Structural)]
pub enum SingleReason {
    FewWorkers,
    FewChunks,
    NotPartitioned,
    BudgetTooSmall,
}

/// What a reason is reported as.
pub open spec fn single_text(reason: SingleReason) -> Seq<char> {
    match reason {
        SingleReason::FewWorkers => "fewer than 2 workers requested"@,
        SingleReason::FewChunks => "fewer than 2 IDR chunks"@,
        SingleReason::NotPartitioned => "chunk plan does not partition the pictures"@,
        SingleReason::BudgetTooSmall => "byte budget allows fewer than 2 in-flight chunks"@,
    }
}

impl SingleReason {
    /// What the reason is reported as.
    pub fn reason(self) -> (text: &'static str)
        ensures
            text@ == single_text(self),
    {
        match self {
            SingleReason::FewWorkers => "fewer than 2 workers requested",
            SingleReason::FewChunks => "fewer than 2 IDR chunks",
            SingleReason::NotPartitioned => "chunk plan does not partition the pictures",
            SingleReason::BudgetTooSmall => "byte budget allows fewer than 2 in-flight chunks",
        }
    }
}

/// What a layout holds.
pub struct HevcLayoutView {
    pub chunks: Seq<HevcChunk>,
    pub expected: Seq<Seq<i64>>,
    pub selected: Seq<Range<usize>>,
    pub chunk_bytes: int,
    pub window: int,
    pub workers: int,
    pub single: Option<SingleReason>,
}

/// How an H.265 clip is shared out: the chunks, the times that each has to produce and the
/// selections that it serves, or why a single decoder takes all of it.
pub struct HevcLayout {
    pub chunks: Vec<HevcChunk>,
    pub expected: Vec<Vec<i64>>,
    pub selected: Vec<Range<usize>>,
    pub chunk_bytes: usize,
    pub window: usize,
    pub workers: usize,
    pub single: Option<SingleReason>,
}

impl View for HevcLayout {
    type V = HevcLayoutView;

    open spec fn view(&self) -> HevcLayoutView {
        HevcLayoutView {
            chunks: self.chunks@,
            expected: self.expected@.map_values(|times: Vec<i64>| times@),
            selected: self.selected@,
            chunk_bytes: self.chunk_bytes as int,
            window: self.window as int,
            workers: self.workers as int,
            single: self.single,
        }
    }
}

/// A number of bytes, or the most that a machine word can hold where that is less.
pub open spec fn word_or_most(bytes: int) -> int {
    if bytes <= usize::MAX {
        bytes
    } else {
        usize::MAX as int
    }
}

/// How a planned clip is shared out.
pub open spec fn layout_of(
    plan: HevcPlanView,
    end: u64,
    resolution: usize,
    par: ParallelConfig,
) -> HevcLayoutView {
    let chunks = layout_chunks(plan, par.chunk_target_ms, end);
    let selected = hevc_selected(plan.selections, chunks);
    let chunk_bytes = word_or_most(longest(selected) * tensor_bytes(resolution));
    let window = admission_window(par.workers, par.buffer_bytes, chunk_bytes);
    let workers = least_of(
        par.workers as int,
        window,
        if chunks.len() == 0 {
            1
        } else {
            chunks.len() as int
        },
    );
    HevcLayoutView {
        chunks,
        expected: chunks.map_values(
            |chunk: HevcChunk| expected_times(plan, chunk_units(chunk), end),
        ),
        selected,
        chunk_bytes,
        window,
        workers,
        single: if par.workers < 2 {
            Some(SingleReason::FewWorkers)
        } else if chunks.len() < 2 {
            Some(SingleReason::FewChunks)
        } else if !assignment_ok(plan, chunks, end) {
            Some(SingleReason::NotPartitioned)
        } else if workers < 2 {
            Some(SingleReason::BudgetTooSmall)
        } else {
            None
        },
    }
}

/// The access units that a chunk decodes, in decode order.
pub fn list_units(chunk: &HevcChunk) -> (indices: Vec<usize>)
    requires
        chunk.tail.start <= chunk.tail.end,
    ensures
        indices@ == chunk_units(*chunk),
{
    let from: usize = chunk.tail.start;
    let to: usize = chunk.tail.end;
    let mut indices: Vec<usize> = Vec::new();
    indices.push(chunk.head);
    let mut i: usize = from;
    while i < to
        invariant
            from <= i <= to,
            from == chunk.tail.start,
            to == chunk.tail.end,
            indices@ == chunk_units(*chunk).take(1 + i - from),
        decreases to - i,
    {
        indices.push(i);
        i += 1;
        assert(indices@ =~= chunk_units(*chunk).take(1 + i - from));
    }
    assert(indices@ =~= chunk_units(*chunk));
    indices
}

/// All access units of a clip, in decode order.
pub fn list_all(count: usize) -> (indices: Vec<usize>)
    ensures
        indices@ == every_unit(count as nat),
{
    let mut indices: Vec<usize> = Vec::new();
    let mut i: usize = 0;
    while i < count
        invariant
            i <= count,
            indices@ == every_unit(i as nat),
        decreases count - i,
    {
        indices.push(i);
        i += 1;
        assert(indices@ =~= every_unit(i as nat));
    }
    indices
}

/// The times that decoding `indices` has to produce, in presentation order.
pub fn chunk_expected(plan: &HevcPlan, indices: &Vec<usize>, end: u64) -> (expected: Vec<i64>)
    requires
        plan.skippable@.len() == plan.pts@.len(),
        forall|k: int| 0 <= k < indices@.len() ==> #[trigger] indices@[k] < plan.pts@.len(),
    ensures
        expected@ == expected_times(plan@, indices@, end),
{
    let ghost keep = |i: usize| !plan@.skippable[i as int] && in_span(plan@.pts[i as int], end);
    let ghost time = |i: usize| plan@.pts[i as int];
    let mut times: Vec<i64> = Vec::new();
    let mut k: usize = 0;
    proof {
        reveal(Seq::filter);
        assert(indices@.take(0).filter(keep).map_values(time) =~= Seq::<i64>::empty());
    }
    while k < indices.len()
        invariant
            k <= indices@.len(),
            plan.skippable@.len() == plan.pts@.len(),
            forall|k: int| 0 <= k < indices@.len() ==> #[trigger] indices@[k] < plan.pts@.len(),
            keep == (|i: usize|
                !plan@.skippable[i as int] && in_span(plan@.pts[i as int], end)),
            time == (|i: usize| plan@.pts[i as int]),
            times@ == indices@.take(k as int).filter(keep).map_values(time),
        decreases indices@.len() - k,
    {
        let i: usize = indices[k];
        let ghost earlier = indices@.take(k as int).filter(keep);
        proof {
            reveal(Seq::filter);
            let now = indices@.take(k + 1);
            assert(now.drop_last() =~= indices@.take(k as int));
            assert(now.last() == i);
        }
        if !plan.skippable[i] && is_in_span(plan.pts[i], end) {
            times.push(plan.pts[i]);
            assert(times@ =~= earlier.push(i).map_values(time));
        }
        k += 1;
    }
    assert(indices@.take(k as int) =~= indices@);
    assert(times@ =~= indices@.filter(
        |i: usize| !plan@.skippable[i as int] && in_span(plan@.pts[i as int], end),
    ).map_values(|i: usize| plan@.pts[i as int]));
    sort_times(&times)
}

proof fn lemma_served_until(selections: Seq<Selection>, from: int, limit: i64)
    requires
        0 <= from <= selections.len(),
    ensures
        from <= served_until(selections, from, limit) <= selections.len(),
        forall|s: int|
            from <= s < served_until(selections, from, limit) ==> (#[trigger] selections[s]).pts
                < limit,
    decreases selections.len() - from,
{
    if from < selections.len() && selections[from].pts < limit {
        lemma_served_until(selections, from + 1, limit);
    }
}

proof fn lemma_hevc_served(selections: Seq<Selection>, chunks: Seq<HevcChunk>, count: nat)
    ensures
        0 <= hevc_served(selections, chunks, count) <= selections.len(),
        count > 0 ==> hevc_served(selections, chunks, (count - 1) as nat) <= hevc_served(
            selections,
            chunks,
            count,
        ),
    decreases count,
{
    if count > 0 {
        lemma_hevc_served(selections, chunks, (count - 1) as nat);
        lemma_served_until(
            selections,
            hevc_served(selections, chunks, (count - 1) as nat),
            chunks[count - 1].present.1,
        );
    }
}

/// What each chunk has to produce, which selections it serves, how many are served in all,
/// and whether every chunk produces what it serves.
struct Shares {
    expected: Vec<Vec<i64>>,
    selected: Vec<Range<usize>>,
    served: usize,
    produced: bool,
}

fn share_out(plan: &HevcPlan, chunks: &Vec<HevcChunk>, end: u64) -> (shares: Shares)
    requires
        plan_complete(plan@),
        forall|c: int|
            0 <= c < chunks@.len() ==> (#[trigger] chunks@[c]).head < plan.pts@.len()
                && chunks@[c].tail.start <= chunks@[c].tail.end <= plan.pts@.len(),
    ensures
        shares.expected@.map_values(|times: Vec<i64>| times@) == chunks@.map_values(
            |chunk: HevcChunk| expected_times(plan@, chunk_units(chunk), end),
        ),
        shares.selected@ == hevc_selected(plan.selections@, chunks@),
        shares.served == hevc_served(plan.selections@, chunks@, chunks@.len()),
        shares.produced <==> forall|c: int|
            0 <= c < chunks@.len() ==> #[trigger] produces_selected(plan@, chunks@, end, c),
{
    let mut expected: Vec<Vec<i64>> = Vec::new();
    let mut selected: Vec<Range<usize>> = Vec::new();
    let mut cursor: usize = 0;
    let mut produced: bool = true;
    let mut c: usize = 0;
    while c < chunks.len()
        invariant
            c <= chunks@.len(),
            plan_complete(plan@),
            forall|d: int|
                0 <= d < chunks@.len() ==> (#[trigger] chunks@[d]).head < plan.pts@.len()
                    && chunks@[d].tail.start <= chunks@[d].tail.end <= plan.pts@.len(),
            cursor == hevc_served(plan.selections@, chunks@, c as nat),
            cursor <= plan.selections@.len(),
            expected@.len() == c,
            forall|d: int|
                0 <= d < c ==> (#[trigger] expected@[d])@ == expected_times(
                    plan@,
                    chunk_units(chunks@[d]),
                    end,
                ),
            selected@ == hevc_selected(plan.selections@, chunks@).take(c as int),
            produced <==> forall|d: int|
                0 <= d < c ==> #[trigger] produces_selected(plan@, chunks@, end, d),
        decreases chunks@.len() - c,
    {
        let indices = list_units(&chunks[c]);
        assert forall|k: int| 0 <= k < indices@.len() implies #[trigger] indices@[k]
            < plan.pts@.len() by {
            assert(chunks@[c as int].tail.end <= plan.pts@.len());
        }
        let times = chunk_expected(plan, &indices, end);
        let limit: i64 = chunks[c].present.1;
        let begin: usize = cursor;
        let mut all: bool = true;
        proof {
            lemma_sorted(
                indices@.filter(
                    |i: usize| !plan@.skippable[i as int] && in_span(plan@.pts[i as int], end),
                ).map_values(|i: usize| plan@.pts[i as int]),
            );
        }
        while cursor < plan.selections.len() && plan.selections[cursor].pts < limit
            invariant
                begin <= cursor <= plan.selections@.len(),
                increasing(times@),
                served_until(plan.selections@, begin as int, limit) == served_until(
                    plan.selections@,
                    cursor as int,
                    limit,
                ),
                all <==> forall|s: int|
                    begin <= s < cursor ==> times@.contains(
                        (#[trigger] plan.selections@[s]).pts,
                    ),
            decreases plan.selections@.len() - cursor,
        {
            let pts: i64 = plan.selections[cursor].pts;
            assert(pts == plan.selections@[cursor as int].pts);
            if !find_time(&times, pts) {
                all = false;
            }
            cursor += 1;
        }
        proof {
            lemma_hevc_served(plan.selections@, chunks@, (c + 1) as nat);
            assert(all <==> produces_selected(plan@, chunks@, end, c as int));
        }
        produced = produced && all;
        selected.push(begin..cursor);
        expected.push(times);
        c += 1;
        assert(selected@ =~= hevc_selected(plan.selections@, chunks@).take(c as int));
    }
    assert(selected@ =~= hevc_selected(plan.selections@, chunks@));
    assert(expected@.map_values(|times: Vec<i64>| times@) =~= chunks@.map_values(
        |chunk: HevcChunk| expected_times(plan@, chunk_units(chunk), end),
    ));
    Shares { expected, selected, served: cursor, produced }
}

/// The chunks of a clip, or none where they would not partition its pictures.
fn lay_chunks(plan: &HevcPlan, target_ms: u64, end: u64) -> (chunks: Vec<HevcChunk>)
    requires
        plan_complete(plan@),
    ensures
        chunks@ == layout_chunks(plan@, target_ms, end),
{
    let test = |p: i64| -> (inside: bool)
        ensures
            inside == in_span(p, end),
        { is_in_span(p, end) };
    let ghost keep = |p: i64| in_span(p, end);
    assert(answers(test, keep));
    match plan_hevc_chunks(
        plan.pts.as_slice(),
        plan.irap.as_slice(),
        plan.rasl.as_slice(),
        target_ms,
        test,
    ) {
        Some(chunks) => chunks,
        None => {
            let none: Vec<HevcChunk> = Vec::new();
            assert(none@ =~= Seq::<HevcChunk>::empty());
            none
        },
    }
}

/// Shares a planned clip out.
pub fn lay_out(plan: &HevcPlan, end: u64, resolution: usize, par: &ParallelConfig) -> (layout:
    HevcLayout)
    requires
        plan_complete(plan@),
        par.workers < usize::MAX,
    ensures
        layout@ == layout_of(plan@, end, resolution, *par),
{
    let chunks = lay_chunks(plan, par.chunk_target_ms, end);
    proof {
        if chunks@.len() > 0 {
            assert(plan.pts@.len() <= usize::MAX) by {
                assert(plan.pts.len() >= 0);
            }
            assert forall|c: int| 0 <= c < chunks@.len() implies (#[trigger] chunks@[c]).head
                < plan.pts@.len() && chunks@[c].tail.start <= chunks@[c].tail.end
                <= plan.pts@.len() by {
                lemma_hevc_chunk_inside(
                    plan.pts@,
                    plan.irap@,
                    plan.rasl@,
                    par.chunk_target_ms,
                    c,
                );
            }
        }
    }
    let shares = share_out(plan, &chunks, end);
    let assigned: bool = chunks.len() > 0 && shares.served == plan.selections.len()
        && shares.produced;
    assert(assigned == assignment_ok(plan@, chunks@, end));
    proof {
        assert forall|c: int| 0 <= c < shares.selected@.len() implies (
        #[trigger] shares.selected@[c]).start <= shares.selected@[c].end
            && shares.selected@[c].end - shares.selected@[c].start <= plan.pts@.len() by {
            lemma_hevc_served(plan.selections@, chunks@, c as nat);
            lemma_hevc_served(plan.selections@, chunks@, (c + 1) as nat);
        }
        lemma_longest(shares.selected@, plan.pts@.len() as int);
    }
    let most: usize = longest_range(&shares.selected);
    let chunk_bytes: usize = match bytes_for(most, resolution) {
        Some(bytes) => bytes,
        None => usize::MAX,
    };
    let window: usize = window_for(par.workers, par.buffer_bytes, chunk_bytes);
    let workers: usize = par.workers.min(window).min(chunks.len().max(1));
    let single: Option<SingleReason> = if par.workers < 2 {
        Some(SingleReason::FewWorkers)
    } else if chunks.len() < 2 {
        Some(SingleReason::FewChunks)
    } else if !assigned {
        Some(SingleReason::NotPartitioned)
    } else if workers < 2 {
        Some(SingleReason::BudgetTooSmall)
    } else {
        None
    };
    HevcLayout {
        chunks,
        expected: shares.expected,
        selected: shares.selected,
        chunk_bytes,
        window,
        workers,
        single,
    }
}

/// Range `c` goes on where the range before it stops.
pub open spec fn goes_on(ranges: Seq<Range<usize>>, c: int) -> bool {
    ranges[c].start == ranges[c - 1].end
}

/// A clip that is shared out has every selection served once, in order, by a chunk that
/// produces its picture, and the chunks under way together fit the buffer.
pub proof fn law_shared_clip_serves_selections(
    plan: HevcPlanView,
    end: u64,
    resolution: usize,
    par: ParallelConfig,
)
    requires
        plan_complete(plan),
        plan.pts.len() <= usize::MAX,
        layout_of(plan, end, resolution, par).single is None,
    ensures
        ({
            let layout = layout_of(plan, end, resolution, par);
            &&& layout.selected.len() == layout.chunks.len() >= 2
            &&& layout.selected[0].start == 0
            &&& layout.selected.last().end == plan.selections.len()
            &&& forall|c: int|
                0 < c < layout.selected.len() ==> #[trigger] goes_on(layout.selected, c)
            &&& forall|c: int|
                0 <= c < layout.selected.len() ==> (#[trigger] layout.selected[c]).start
                    <= layout.selected[c].end <= plan.selections.len()
            &&& forall|c: int, s: int|
                0 <= c < layout.selected.len() && layout.selected[c].start <= s
                    < layout.selected[c].end ==> #[trigger] layout.expected[c].contains(
                    (#[trigger] plan.selections[s]).pts,
                )
            &&& layout.chunk_bytes == longest(layout.selected) * tensor_bytes(resolution)
            &&& layout.window * layout.chunk_bytes <= par.buffer_bytes
        }),
{
    let layout = layout_of(plan, end, resolution, par);
    let chunks = layout.chunks;
    assert forall|c: int| 0 <= c <= chunks.len() implies 0 <= #[trigger] hevc_served(
        plan.selections,
        chunks,
        c as nat,
    ) <= plan.selections.len() by {
        lemma_hevc_served(plan.selections, chunks, c as nat);
    }
    assert forall|c: int, s: int|
        0 <= c < layout.selected.len() && layout.selected[c].start <= s
            < layout.selected[c].end implies #[trigger] layout.expected[c].contains(
        (#[trigger] plan.selections[s]).pts,
    ) by {
        assert(produces_selected(plan, chunks, end, c));
        assert(0 <= hevc_served(plan.selections, chunks, c as nat) <= plan.selections.len());
        assert(0 <= hevc_served(plan.selections, chunks, (c + 1) as nat)
            <= plan.selections.len());
    }
    assert(0 <= hevc_served(plan.selections, chunks, chunks.len()) <= plan.selections.len());
    assert forall|c: int| 0 <= c < layout.selected.len() implies (
    #[trigger] layout.selected[c]).start <= layout.selected[c].end <= plan.selections.len() by {
        lemma_hevc_served(plan.selections, chunks, (c + 1) as nat);
    }
    lemma_longest(layout.selected, plan.selections.len() as int);
    assert(layout.chunk_bytes >= 0) by (nonlinear_arith)
        requires
            layout.chunk_bytes == word_or_most(
                longest(layout.selected) * (3 * resolution * resolution * 4),
            ),
            longest(layout.selected) >= 0,
    ;
    crate::chunk_plan::law_window_fits_buffer(par.workers, par.buffer_bytes, layout.chunk_bytes);
    assert(2 * layout.chunk_bytes <= layout.window * layout.chunk_bytes) by (nonlinear_arith)
        requires
            2 <= layout.window,
            0 <= layout.chunk_bytes,
    ;
}

/// A picture that an epoch selects is decoded, unless no decoder could produce it.
pub proof fn law_selected_picture_is_decoded(
    units: Seq<AccessUnit>,
    length_size: nat,
    selections: Seq<Selection>,
    skip_nonref: bool,
    i: int,
)
    requires
        0 <= i < units.len(),
        names(selections, 0, selections.len() as int, units[i].pts),
        !is_leading_rasl(irap_of(units, length_size), rasl_of(units, length_size), i),
    ensures
        !is_skipped(units, length_size, selections, skip_nonref, i),
{
}

proof fn lemma_highest_slice(headers: Seq<UnitHeader>, floor: u8)
    ensures
        highest_slice_id(headers, floor) >= floor,
        forall|i: int|
            0 <= i < headers.len() && (#[trigger] headers[i]).unit_type < 32
                ==> headers[i].temporal_id <= highest_slice_id(headers, floor),
        highest_slice_id(headers, floor) == floor || exists|i: int|
            0 <= i < headers.len() && (#[trigger] headers[i]).unit_type < 32
                && headers[i].temporal_id == highest_slice_id(headers, floor),
    decreases headers.len(),
{
    if headers.len() > 0 {
        let earlier = headers.drop_last();
        lemma_highest_slice(earlier, floor);
        let last = headers.len() - 1;
        assert forall|i: int| 0 <= i < headers.len() && (#[trigger] headers[i]).unit_type
            < 32 implies headers[i].temporal_id <= highest_slice_id(headers, floor) by {
            if i < last {
                assert(earlier[i] == headers[i]);
            }
        }
        if highest_slice_id(headers, floor) == highest_slice_id(earlier, floor) && floor
            != highest_slice_id(earlier, floor) {
            let i = choose|i: int|
                0 <= i < earlier.len() && (#[trigger] earlier[i]).unit_type < 32
                    && earlier[i].temporal_id == highest_slice_id(earlier, floor);
            assert(headers[i] == earlier[i]);
        } else if highest_slice_id(headers, floor) != floor {
            assert(headers[last].unit_type < 32);
        }
    }
}

/// Slice `i` of access unit `u` has this temporal id.
pub open spec fn slice_at(
    units: Seq<AccessUnit>,
    length_size: nat,
    u: int,
    i: int,
    temporal_id: u8,
) -> bool {
    let headers = headers_of(units[u].data, length_size);
    &&& 0 <= u < units.len()
    &&& 0 <= i < headers.len()
    &&& headers[i].unit_type < 32
    &&& headers[i].temporal_id == temporal_id
}

/// The highest temporal id of a clip is that of some slice, or zero, and no slice has a higher
/// one.
pub proof fn law_highest_temporal_id(units: Seq<AccessUnit>, length_size: nat)
    ensures
        forall|u: int, i: int, id: u8| #[trigger]
            slice_at(units, length_size, u, i, id) ==> id <= highest_id(units, length_size),
        highest_id(units, length_size) == 0 || exists|u: int, i: int| #[trigger]
            slice_at(units, length_size, u, i, highest_id(units, length_size)),
    decreases units.len(),
{
    if units.len() > 0 {
        let earlier = units.drop_last();
        let floor = highest_id(earlier, length_size);
        let last = units.len() - 1;
        let headers = headers_of(units[last].data, length_size);
        law_highest_temporal_id(earlier, length_size);
        lemma_highest_slice(headers, floor);
        assert forall|u: int, i: int, id: u8| #[trigger]
            slice_at(units, length_size, u, i, id) implies id <= highest_id(
            units,
            length_size,
        ) by {
            if u < last {
                assert(earlier[u] == units[u]);
                assert(slice_at(earlier, length_size, u, i, id));
            } else {
                assert(headers[i].unit_type < 32);
            }
        }
        let highest = highest_id(units, length_size);
        if highest != 0 {
            if highest == floor {
                let (u, i) = choose|u: int, i: int| #[trigger]
                    slice_at(earlier, length_size, u, i, floor);
                assert(earlier[u] == units[u]);
                assert(slice_at(units, length_size, u, i, highest));
            } else {
                let i = choose|i: int|
                    0 <= i < headers.len() && (#[trigger] headers[i]).unit_type < 32
                        && headers[i].temporal_id == highest;
                assert(slice_at(units, length_size, last, i, highest));
            }
        }
    }
}

proof fn lemma_leading_run(rasl: Seq<bool>, from: int, n: int, i: int)
    requires
        from <= i < n,
    ensures
        i < rasl_run_end(rasl, from, n) <==> forall|j: int| from <= j <= i ==> #[trigger] rasl[j],
    decreases n - from,
{
    if rasl[from] {
        if from < i {
            lemma_leading_run(rasl, from + 1, n, i);
            assert((forall|j: int| from <= j <= i ==> #[trigger] rasl[j]) <==> (forall|j: int|
                from + 1 <= j <= i ==> #[trigger] rasl[j]));
        } else {
            crate::video_hevc::lemma_rasl_run(rasl, from + 1, n);
        }
    } else {
        assert(!rasl[from]);
    }
}

/// An access unit is left out exactly where the clip opens with an IRAP picture and the unit and
/// all before it, but the first, are RASL pictures; or where leaving out is asked for, the unit
/// can be dropped at the highest temporal id of the clip, and no selection names its time.
pub proof fn law_what_is_left_out(
    units: Seq<AccessUnit>,
    length_size: nat,
    selections: Seq<Selection>,
    skip_nonref: bool,
    i: int,
)
    requires
        0 <= i < units.len(),
    ensures
        is_skipped(units, length_size, selections, skip_nonref, i) <==> {
            ||| unit_class(units[0].data, length_size).0 && i >= 1 && forall|j: int|
                1 <= j <= i ==> unit_class((#[trigger] units[j]).data, length_size).1
            ||| skip_nonref && hevc_disposable(
                units[i].data,
                length_size,
                highest_id(units, length_size),
            ) && forall|s: int|
                0 <= s < selections.len() ==> (#[trigger] selections[s]).pts != units[i].pts
        },
{
    let irap = irap_of(units, length_size);
    let rasl = rasl_of(units, length_size);
    assert(irap[0] == unit_class(units[0].data, length_size).0);
    if i >= 1 {
        lemma_leading_run(rasl, 1, rasl.len() as int, i);
        assert((forall|j: int| 1 <= j <= i ==> #[trigger] rasl[j]) <==> (forall|j: int|
            1 <= j <= i ==> unit_class((#[trigger] units[j]).data, length_size).1)) by {
            if forall|j: int| 1 <= j <= i ==> #[trigger] rasl[j] {
                assert forall|j: int| 1 <= j <= i implies unit_class(
                    (#[trigger] units[j]).data,
                    length_size,
                ).1 by {
                    assert(rasl[j]);
                }
            }
            if forall|j: int|
                1 <= j <= i ==> unit_class((#[trigger] units[j]).data, length_size).1 {
                assert forall|j: int| 1 <= j <= i implies #[trigger] rasl[j] by {
                    assert(unit_class(units[j].data, length_size).1);
                }
            }
        }
    }
}

/// An H.265 clip can be planned exactly where some picture is presented, no two at the same
/// time, and there is an epoch; the first of these that fails is named. The plan selects
/// pictures by the presented times, and marks every access unit for itself.
pub proof fn law_hevc_clip_can_be_planned(
    units: Seq<AccessUnit>,
    length_size: nat,
    end: u64,
    duration_ms: u64,
    config: VideoConfig,
    i: int,
)
    ensures
        ({
            let res = hevc_plan_of(units, length_size, end, duration_ms, config);
            let kept = kept_times(times_of(units), end);
            let presented = sorted(kept);
            let total = epoch_count(duration_ms, config.audio_duration_ms, config.window_ms);
            let distinct = forall|i: int, j: int|
                0 <= i < j < presented.len() ==> presented[i] < presented[j];
            &&& res is Ok <==> kept.len() > 0 && distinct && total > 0
            &&& kept.len() == 0 ==> res == Err::<HevcPlanView, HevcPlanError>(
                HevcPlanError::NothingPresented,
            )
            &&& kept.len() > 0 && !distinct ==> res == Err::<HevcPlanView, HevcPlanError>(
                HevcPlanError::DuplicateTimes,
            )
            &&& kept.len() > 0 && distinct && total == 0 ==> res == Err::<
                HevcPlanView,
                HevcPlanError,
            >(HevcPlanError::EpochsUncovered)
            &&& res matches Ok(plan) ==> {
                &&& plan.selections == selections_of(
                    presented,
                    config.window_ms,
                    total,
                    presented.len(),
                )
                &&& plan.total_epochs == total && plan.duration_ms == duration_ms
                &&& plan.pts.len() == units.len() && plan.irap.len() == units.len()
                    && plan.rasl.len() == units.len() && plan.skippable.len() == units.len()
                &&& 0 <= i < units.len() ==> {
                    &&& plan.pts[i] == units[i].pts
                    &&& plan.irap[i] == unit_class(units[i].data, length_size).0
                    &&& plan.rasl[i] == unit_class(units[i].data, length_size).1
                    &&& plan.skippable[i] == is_skipped(
                        units,
                        length_size,
                        plan.selections,
                        config.skip_nonref,
                        i,
                    )
                }
            }
        }),
{
    let kept = kept_times(times_of(units), end);
    let presented = sorted(kept);
    let total = epoch_count(duration_ms, config.audio_duration_ms, config.window_ms);
    lemma_sorted(kept);
    if presented.len() > 0 {
        crate::video_parallel::law_every_epoch_served_once(presented, config.window_ms, total);
    }
}

/// Decoding some access units has to produce the times of those that are not left out and are
/// presented, in order, each as often as it occurs.
pub proof fn law_expected_times_are_decoded(
    plan: HevcPlanView,
    indices: Seq<usize>,
    more: usize,
    end: u64,
)
    ensures
        increasing(expected_times(plan, indices, end)),
        expected_times(plan, Seq::empty(), end).len() == 0,
        expected_times(plan, indices.push(more), end).to_multiset() == if !plan.skippable[more as int]
            && 0 <= plan.pts[more as int] && plan.pts[more as int] < end {
            expected_times(plan, indices, end).to_multiset().insert(plan.pts[more as int])
        } else {
            expected_times(plan, indices, end).to_multiset()
        },
{
    let keep = |i: usize| !plan.skippable[i as int] && in_span(plan.pts[i as int], end);
    let time_of = |i: usize| plan.pts[i as int];
    let before = indices.filter(keep).map_values(time_of);
    let after = indices.push(more).filter(keep).map_values(time_of);
    lemma_sorted(before);
    lemma_sorted(after);
    lemma_sorted(Seq::<usize>::empty().filter(keep).map_values(time_of));
    reveal(Seq::filter);
    assert(Seq::<usize>::empty().filter(keep).len() == 0);
    assert(indices.push(more).drop_last() =~= indices);
    if keep(more) {
        assert(after =~= before.push(plan.pts[more as int]));
        vstd::seq_lib::to_multiset_build(before, plan.pts[more as int]);
    } else {
        assert(after =~= before);
    }
}

/// A chunk decodes its head and then its tail, in decode order.
pub proof fn law_chunk_units_in_order(chunk: HevcChunk, k: int)
    requires
        chunk.tail.start <= chunk.tail.end,
    ensures
        chunk_units(chunk).len() == 1 + chunk.tail.end - chunk.tail.start,
        chunk_units(chunk)[0] == chunk.head,
        1 <= k && k < chunk_units(chunk).len() ==> chunk_units(chunk)[k] == chunk.tail.start + k
            - 1,
        every_unit(k as nat).len() == k as nat,
        forall|n: nat, i: int| 0 <= i < n <= usize::MAX ==> #[trigger] every_unit(n)[i] == i,
{
}

/// A chunk serves the selections that are left and present before its interval ends: of those
/// before the next chunk's first every one does, and that one does not.
pub proof fn law_selections_go_to_their_chunk(
    selections: Seq<Selection>,
    chunks: Seq<HevcChunk>,
    c: int,
    s: int,
)
    requires
        0 <= c < chunks.len(),
        selections.len() <= usize::MAX,
    ensures
        ({
            let selected = hevc_selected(selections, chunks);
            let range = selected[c];
            &&& selected.len() == chunks.len()
            &&& c == 0 ==> range.start == 0
            &&& c > 0 ==> range.start == selected[c - 1].end
            &&& range.start <= range.end && range.end <= selections.len()
            &&& range.start <= s && s < range.end ==> selections[s].pts < chunks[c].present.1
            &&& range.end < selections.len() ==> selections[range.end as int].pts
                >= chunks[c].present.1
        }),
{
    lemma_hevc_served(selections, chunks, c as nat);
    lemma_hevc_served(selections, chunks, (c + 1) as nat);
    let from = hevc_served(selections, chunks, c as nat);
    let limit = chunks[c].present.1;
    lemma_served_until(selections, from, limit);
    lemma_served_stops(selections, from, limit);
}

proof fn lemma_served_stops(selections: Seq<Selection>, from: int, limit: i64)
    requires
        0 <= from <= selections.len(),
    ensures
        served_until(selections, from, limit) < selections.len() ==> selections[served_until(
            selections,
            from,
            limit,
        )].pts >= limit,
    decreases selections.len() - from,
{
    if from < selections.len() && selections[from].pts < limit {
        lemma_served_stops(selections, from + 1, limit);
    }
}

/// An H.265 clip is shared out exactly where two workers were asked for, there are two chunks or
/// more, every selection is served by a chunk that produces its picture, and the tensors of two
/// chunks with the most selected pictures fit the buffer. The first of these that fails is the
/// reason for a single decoder.
pub proof fn law_hevc_clip_is_shared_where_it_can_be(
    plan: HevcPlanView,
    end: u64,
    resolution: usize,
    par: ParallelConfig,
)
    requires
        plan.selections.len() <= usize::MAX,
    ensures
        ({
            let layout = layout_of(plan, end, resolution, par);
            let chunks = layout.chunks;
            let most = longest(layout.selected);
            let assigned = assignment_ok(plan, chunks, end);
            let fits = 2 * (most * tensor_bytes(resolution)) <= par.buffer_bytes;
            &&& layout.single is None <==> par.workers >= 2 && chunks.len() >= 2 && assigned && fits
            &&& par.workers < 2 ==> layout.single == Some(SingleReason::FewWorkers)
            &&& par.workers >= 2 && chunks.len() < 2 ==> layout.single == Some(
                SingleReason::FewChunks,
            )
            &&& par.workers >= 2 && chunks.len() >= 2 && !assigned ==> layout.single == Some(
                SingleReason::NotPartitioned,
            )
            &&& par.workers >= 2 && chunks.len() >= 2 && assigned && !fits ==> layout.single == Some(
                SingleReason::BudgetTooSmall,
            )
            &&& layout.selected == hevc_selected(plan.selections, chunks)
            &&& layout.expected.len() == chunks.len()
            &&& forall|c: int|
                0 <= c < chunks.len() ==> #[trigger] layout.expected[c] == expected_times(
                    plan,
                    chunk_units(chunks[c]),
                    end,
                )
            &&& layout.workers <= par.workers && layout.workers <= layout.window
            &&& chunks.len() > 0 ==> layout.workers <= chunks.len()
            &&& layout.workers == par.workers || layout.workers == layout.window || layout.workers
                == chunks.len() || layout.workers == 1
        }),
{
    let layout = layout_of(plan, end, resolution, par);
    let chunks = layout.chunks;
    let selected = layout.selected;
    assert forall|c: int| 0 <= c < selected.len() implies (#[trigger] selected[c]).end
        - selected[c].start <= plan.selections.len() by {
        lemma_hevc_served(plan.selections, chunks, c as nat);
        lemma_hevc_served(plan.selections, chunks, (c + 1) as nat);
    }
    lemma_longest(selected, plan.selections.len() as int);
    let most = longest(selected);
    let exact = most * tensor_bytes(resolution);
    let bytes = word_or_most(exact);
    let side = resolution as int;
    assert(exact >= 0) by (nonlinear_arith)
        requires
            exact == most * (3 * side * side * 4),
            most >= 0,
    ;
    crate::chunk_plan::law_window_is_as_wide_as_fits(par.workers, par.buffer_bytes, bytes);
    let window = layout.window;
    if window >= 2 {
        assert(2 * bytes <= window * bytes) by (nonlinear_arith)
            requires
                window >= 2,
                bytes >= 0,
        ;
    } else {
        assert((window + 1) * bytes == 2 * bytes) by (nonlinear_arith)
            requires
                window == 1,
        ;
    }
}

/// Every selection is served by a chunk that produces its picture where the chunks serve all of
/// them, and each that a chunk serves is among the times that the chunk's access units give.
pub proof fn law_assignment(plan: HevcPlanView, chunks: Seq<HevcChunk>, end: u64)
    requires
        plan.selections.len() <= usize::MAX,
        chunks.len() > 0,
    ensures
        assignment_ok(plan, chunks, end) <==> {
            &&& hevc_selected(plan.selections, chunks).last().end == plan.selections.len()
            &&& forall|c: int, s: int|
                #![trigger chunks[c], plan.selections[s]]
                0 <= c < chunks.len() && hevc_selected(plan.selections, chunks)[c].start <= s
                    && s < hevc_selected(plan.selections, chunks)[c].end ==> expected_times(
                    plan,
                    chunk_units(chunks[c]),
                    end,
                ).contains(plan.selections[s].pts)
        },
{
    let selected = hevc_selected(plan.selections, chunks);
    lemma_hevc_served(plan.selections, chunks, chunks.len());
    assert forall|c: int| 0 <= c <= chunks.len() implies 0 <= #[trigger] hevc_served(
        plan.selections,
        chunks,
        c as nat,
    ) <= plan.selections.len() by {
        lemma_hevc_served(plan.selections, chunks, c as nat);
    }
    assert(0 <= hevc_served(plan.selections, chunks, chunks.len()) <= plan.selections.len());
    assert forall|c: int| 0 <= c < chunks.len() implies #[trigger] produces_selected(
        plan,
        chunks,
        end,
        c,
    ) == (forall|s: int|
        #![trigger plan.selections[s]]
        selected[c].start <= s && s < selected[c].end ==> expected_times(
            plan,
            chunk_units(chunks[c]),
            end,
        ).contains(plan.selections[s].pts)) by {
        assert(0 <= hevc_served(plan.selections, chunks, c as nat) <= plan.selections.len());
        assert(0 <= hevc_served(plan.selections, chunks, (c + 1) as nat) <= plan.selections.len());
    }
    if assignment_ok(plan, chunks, end) {
        assert forall|c: int, s: int|
            #![trigger chunks[c], plan.selections[s]]
            0 <= c < chunks.len() && selected[c].start <= s && s
                < selected[c].end implies expected_times(
            plan,
            chunk_units(chunks[c]),
            end,
        ).contains(plan.selections[s].pts) by {
            assert(produces_selected(plan, chunks, end, c));
        }
    }
}

/// What each reason for a single decoder is reported as.
pub proof fn law_single_reasons()
    ensures
        single_text(SingleReason::FewWorkers) == "fewer than 2 workers requested"@,
        single_text(SingleReason::FewChunks) == "fewer than 2 IDR chunks"@,
        single_text(SingleReason::NotPartitioned) == "chunk plan does not partition the pictures"@,
        single_text(SingleReason::BudgetTooSmall)
            == "byte budget allows fewer than 2 in-flight chunks"@,
{
}

/// A clip is laid out in the chunks that it is cut into, where these partition its presented
/// pictures, and in none otherwise.
pub proof fn law_layout_takes_the_chunks(plan: HevcPlanView, target_ms: u64, end: u64)
    ensures
        ({
            let chunks = hevc_chunks(plan.pts, plan.irap, plan.rasl, target_ms);
            let good = plan.pts.len() > 0 && partitions_pictures(
                chunks,
                plan.pts,
                |p: i64| 0 <= p && p < end,
            );
            &&& good ==> layout_chunks(plan, target_ms, end) == chunks
            &&& !good ==> layout_chunks(plan, target_ms, end).len() == 0
        }),
{
    let raw = |p: i64| 0 <= p && p < end;
    let keep = |p: i64| in_span(p, end);
    assert(keep =~= raw);
}

/// What a request for an H.265 clip is judged to be.
pub open spec fn request_checked(config: VideoConfig) -> Result<(), HevcRequestError> {
    if config.window_ms == 0 {
        Err(HevcRequestError::EmptyWindow)
    } else if config.decoder_threads != 0 {
        Err(HevcRequestError::DecoderThreads)
    } else {
        Ok(())
    }
}

/// An H.265 clip is decoded exactly where epochs have a length and no threads inside the decoder
/// were asked for.
pub proof fn law_hevc_request(config: VideoConfig)
    ensures
        request_checked(config) is Ok <==> config.window_ms > 0 && config.decoder_threads == 0,
        config.window_ms == 0 ==> request_checked(config) == Err::<(), HevcRequestError>(
            HevcRequestError::EmptyWindow,
        ),
        config.window_ms > 0 && config.decoder_threads > 0 ==> request_checked(config) == Err::<
            (),
            HevcRequestError,
        >(HevcRequestError::DecoderThreads),
{
}

} // verus!
