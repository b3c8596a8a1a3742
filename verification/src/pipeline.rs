//! The options of a run, and what it has to come to.
use vstd::prelude::*;

verus! {

/// What was asked for. The epoch length is a fraction of a second: what can be said of it
/// without fractions is said here.
#[derive(Clone, Copy, Debug, PartialEq, Eq)]
pub struct Options {
    pub decoder_threads: usize,
    /// This build has decoders with threads of their own.
    pub threads_built: bool,
    pub queue_mib: usize,
    pub queue_depth: usize,
    pub video_workers: Option<usize>,
    pub chunk_target_ms: u64,
    pub video_buffer_mib: usize,
    /// The epoch length is between 0.05 and 10 seconds.
    pub window_in_range: bool,
    /// The epoch length is a whole number of hops.
    pub window_on_grid: bool,
    /// Whole hops in an epoch.
    pub window_hops: usize,
    pub resolution: usize,
    pub batch_epochs: usize,
}

/// Why options are refused.
#[derive(Clone, Copy, Debug, PartialEq, Eq, Structural)]
pub enum OptionError {
    /// --decoder-threads must be 0, 1, 2, or 4.
    DecoderThreads,
    /// Decoder threading is experimental.
    ThreadsNotBuilt,
    /// --queue-mib must be 0..64.
    QueueMib,
    /// --video-workers must be 0..64.
    VideoWorkers,
    /// --chunk-target-ms must be 250..60000.
    ChunkTarget,
    /// --video-buffer-mib must be 1..1024.
    VideoBuffer,
    /// --video-workers and --decoder-threads cannot be combined.
    WorkersWithThreads,
    /// --queue-depth must be 1..4.
    QueueDepth,
    /// --window-sec must be between 0.05 and 10 seconds.
    WindowRange,
    /// --window-sec must be a multiple of 0.01 seconds (10 ms hop).
    WindowGrid,
    /// --resolution must be between 32 and 1024.
    Resolution,
    /// --batch-epochs must be between 1 and 1024.
    BatchEpochs,
    /// Requested batch exceeds 256 MiB; reduce --batch-epochs or --resolution.
    BatchTooLarge,
}

/// The bytes of a picture and of the sound of one epoch.
pub open spec fn row_bytes(resolution: usize, hops: usize) -> int {
    (3 * resolution * resolution + hops * 64) * 4
}

/// What is wrong with the options, if anything is. The first objection counts.
pub open spec fn option_fault(o: Options) -> Option<OptionError> {
    if o.decoder_threads != 0 && o.decoder_threads != 1 && o.decoder_threads != 2
        && o.decoder_threads != 4 {
        Some(OptionError::DecoderThreads)
    } else if o.decoder_threads != 0 && !o.threads_built {
        Some(OptionError::ThreadsNotBuilt)
    } else if o.queue_mib > 64 {
        Some(OptionError::QueueMib)
    } else if o.video_workers matches Some(n) && n > 64 {
        Some(OptionError::VideoWorkers)
    } else if !(250 <= o.chunk_target_ms <= 60_000) {
        Some(OptionError::ChunkTarget)
    } else if !(1 <= o.video_buffer_mib <= 1024) {
        Some(OptionError::VideoBuffer)
    } else if o.decoder_threads != 0 && (o.video_workers matches Some(n) && n != 1) {
        Some(OptionError::WorkersWithThreads)
    } else if !(1 <= o.queue_depth <= 4) {
        Some(OptionError::QueueDepth)
    } else if !o.window_in_range {
        Some(OptionError::WindowRange)
    } else if !o.window_on_grid {
        Some(OptionError::WindowGrid)
    } else if !(32 <= o.resolution <= 1024) {
        Some(OptionError::Resolution)
    } else if !(1 <= o.batch_epochs <= 1024) {
        Some(OptionError::BatchEpochs)
    } else if row_bytes(o.resolution, o.window_hops) * o.batch_epochs > 256 * 1024 * 1024 {
        Some(OptionError::BatchTooLarge)
    } else {
        None
    }
}

/// Judges the options.
pub fn check_options(o: &Options) -> (res: Result<(), OptionError>)
    ensures
        res == match option_fault(*o) {
            None => Ok::<(), OptionError>(()),
            Some(fault) => Err(fault),
        },
{
    let threads: usize = o.decoder_threads;
    if threads != 0 && threads != 1 && threads != 2 && threads != 4 {
        return Err(OptionError::DecoderThreads);
    }
    if threads != 0 && !o.threads_built {
        return Err(OptionError::ThreadsNotBuilt);
    }
    if o.queue_mib > 64 {
        return Err(OptionError::QueueMib);
    }
    if let Some(n) = o.video_workers {
        if n > 64 {
            return Err(OptionError::VideoWorkers);
        }
    }
    if o.chunk_target_ms < 250 || o.chunk_target_ms > 60_000 {
        return Err(OptionError::ChunkTarget);
    }
    if o.video_buffer_mib < 1 || o.video_buffer_mib > 1024 {
        return Err(OptionError::VideoBuffer);
    }
    if threads != 0 {
        if let Some(n) = o.video_workers {
            if n != 1 {
                return Err(OptionError::WorkersWithThreads);
            }
        }
    }
    if o.queue_depth < 1 || o.queue_depth > 4 {
        return Err(OptionError::QueueDepth);
    }
    if !o.window_in_range {
        return Err(OptionError::WindowRange);
    }
    if !o.window_on_grid {
        return Err(OptionError::WindowGrid);
    }
    if o.resolution < 32 || o.resolution > 1024 {
        return Err(OptionError::Resolution);
    }
    if o.batch_epochs < 1 || o.batch_epochs > 1024 {
        return Err(OptionError::BatchEpochs);
    }
    let side: u128 = o.resolution as u128;
    let hops: u128 = o.window_hops as u128;
    let count: u128 = o.batch_epochs as u128;
    assert(3 * side * side <= 3 * 1024 * 1024) by (nonlinear_arith)
        requires
            0 <= side <= 1024,
    ;
    let row: u128 = (3 * side * side + hops * 64) * 4;
    assert(0 <= row * count <= row * 1024) by (nonlinear_arith)
        requires
            0 <= count <= 1024,
            0 <= row,
    ;
    if row * count > 256 * 1024 * 1024 {
        return Err(OptionError::BatchTooLarge);
    }
    Ok(())
}

/// A batch of accepted options, and all the tensors in it, fit their ceilings: that is what
/// the library's own limits on sizes rest on.
pub proof fn law_accepted_options_bound_sizes(o: Options)
    requires
        option_fault(o) is None,
    ensures
        row_bytes(o.resolution, o.window_hops) * o.batch_epochs <= 256 * 1024 * 1024,
        row_bytes(o.resolution, o.window_hops) <= 256 * 1024 * 1024,
        3 * o.resolution * o.resolution * 4 <= 12 * 1024 * 1024,
        o.window_hops * 64 * 4 <= 256 * 1024 * 1024,
{
    let side = o.resolution as int;
    let hops = o.window_hops as int;
    let row = row_bytes(o.resolution, o.window_hops);
    let count = o.batch_epochs as int;
    assert(0 <= 3 * side * side <= 3 * 1024 * 1024) by (nonlinear_arith)
        requires
            0 <= side <= 1024,
    ;
    assert(row <= row * count) by (nonlinear_arith)
        requires
            count >= 1,
            row >= 0,
    ;
}

/// The most decoders that are used unless told otherwise.
pub const AUTO_WORKERS: usize = 16;

/// How many decoders are used: as many as were asked for, or as the machine runs at once, up
/// to a limit. Decoders with threads of their own are used alone unless told otherwise.
pub open spec fn worker_count(requested: Option<usize>, decoder_threads: usize, available: usize) -> usize {
    let auto = if available < 1 {
        1
    } else if available > AUTO_WORKERS {
        AUTO_WORKERS
    } else {
        available
    };
    match requested {
        Some(0) => auto,
        Some(n) => n,
        None => if decoder_threads > 0 {
            1
        } else {
            auto
        },
    }
}

/// How many decoders are used.
pub fn video_workers(requested: Option<usize>, decoder_threads: usize, available: usize) -> (count:
    usize)
    ensures
        count == worker_count(requested, decoder_threads, available),
{
    let auto: usize = available.max(1).min(AUTO_WORKERS);
    match requested {
        Some(n) => if n == 0 {
            auto
        } else {
            n
        },
        None => if decoder_threads > 0 {
            1
        } else {
            auto
        },
    }
}

/// How the pictures of a movie are decoded.
#[derive(Clone, Copy, Debug, PartialEq, Eq, Structural)]
pub enum Decoding {
    /// H.265, by one decoder or several.
    Hevc,
    /// H.264, by one decoder.
    AvcSingle,
    /// H.264, by several decoders where the clip allows it.
    AvcParallel,
}

/// How the pictures of a movie are decoded by so many decoders.
pub open spec fn decoding_by(hevc: bool, workers: usize) -> Decoding {
    if hevc {
        Decoding::Hevc
    } else if workers <= 1 {
        Decoding::AvcSingle
    } else {
        Decoding::AvcParallel
    }
}

/// H.265 has its own decoding; H.264 is shared out exactly where two decoders or more are used.
pub proof fn law_decoding_follows_codec(workers: usize)
    ensures
        decoding_by(true, workers) == Decoding::Hevc,
        workers >= 2 ==> decoding_by(false, workers) == Decoding::AvcParallel,
        workers < 2 ==> decoding_by(false, workers) == Decoding::AvcSingle,
{
}

/// How the pictures of a movie are decoded by so many decoders.
pub fn choose_decoding(hevc: bool, workers: usize) -> (decoding: Decoding)
    ensures
        decoding == decoding_by(hevc, workers),
        decoding == if hevc {
            Decoding::Hevc
        } else if workers <= 1 {
            Decoding::AvcSingle
        } else {
            Decoding::AvcParallel
        },
{
    if hevc {
        Decoding::Hevc
    } else if workers <= 1 {
        Decoding::AvcSingle
    } else {
        Decoding::AvcParallel
    }
}

/// Where an epoch starts.
pub fn epoch_start_ms(epoch: usize, window_ms: u64) -> (start: i64)
    requires
        epoch * window_ms <= i64::MAX,
    ensures
        start == start_of(epoch as int, window_ms as int),
        start == epoch * window_ms,
{
    (epoch as u64 * window_ms) as i64
}

/// Why a run is refused, or came to the wrong end.
#[derive(Clone, Copy, Debug, PartialEq, Eq, Structural)]
pub enum RunError {
    /// No supported audio or video track.
    NothingToRead,
    /// Incorrect synchronized epoch count.
    WrongCount,
    /// No epochs produced.
    NoEpochs,
}

/// Checks that there is a track to read.
pub fn check_inputs(has_video: bool, has_audio: bool) -> (res: Result<(), RunError>)
    ensures
        res == inputs_checked(has_video, has_audio),
        res == if has_video || has_audio {
            Ok::<(), RunError>(())
        } else {
            Err(RunError::NothingToRead)
        },
{
    if has_video || has_audio {
        Ok(())
    } else {
        Err(RunError::NothingToRead)
    }
}

/// Checks that a run produced every epoch.
pub fn check_count(produced: usize, total: usize) -> (res: Result<(), RunError>)
    ensures
        res == count_checked(produced, total),
        res == if produced == total {
            Ok::<(), RunError>(())
        } else {
            Err(RunError::WrongCount)
        },
{
    if produced == total {
        Ok(())
    } else {
        Err(RunError::WrongCount)
    }
}

/// Checks that a run produced anything.
pub fn check_produced(produced: usize) -> (res: Result<(), RunError>)
    ensures
        res == produced_checked(produced),
        res == if produced > 0 {
            Ok::<(), RunError>(())
        } else {
            Err(RunError::NoEpochs)
        },
{
    if produced > 0 {
        Ok(())
    } else {
        Err(RunError::NoEpochs)
    }
}

/// Options are accepted exactly where every one of them is in its range, decoders with threads
/// are built in and used alone, and a batch of rows of three planes and sixty-four values for
/// each hop, of four bytes each, takes no more than 256 mebibytes.
pub proof fn law_accepted_options(o: Options)
    ensures
        option_fault(o) is None <==> {
            &&& o.decoder_threads == 0 || (o.threads_built && (o.decoder_threads == 1
                || o.decoder_threads == 2 || o.decoder_threads == 4) && (o.video_workers is None
                || o.video_workers == Some(1usize)))
            &&& o.queue_mib <= 64
            &&& o.video_workers matches Some(n) ==> n <= 64
            &&& 250 <= o.chunk_target_ms && o.chunk_target_ms <= 60_000
            &&& 1 <= o.video_buffer_mib && o.video_buffer_mib <= 1024
            &&& 1 <= o.queue_depth && o.queue_depth <= 4
            &&& o.window_in_range && o.window_on_grid
            &&& 32 <= o.resolution && o.resolution <= 1024
            &&& 1 <= o.batch_epochs && o.batch_epochs <= 1024
            &&& (12 * o.resolution * o.resolution + 256 * o.window_hops) * o.batch_epochs
                <= 268_435_456
        },
{
    let side = o.resolution as int;
    let hops = o.window_hops as int;
    assert((3 * side * side + hops * 64) * 4 == 12 * side * side + 256 * hops)
        by (nonlinear_arith);
}

/// An option is only ever refused for what is wrong with itself.
pub proof fn law_refused_option_is_out_of_range(o: Options)
    ensures
        option_fault(o) matches Some(fault) ==> match fault {
            OptionError::DecoderThreads => o.decoder_threads == 3 || o.decoder_threads > 4,
            OptionError::ThreadsNotBuilt => o.decoder_threads > 0 && !o.threads_built,
            OptionError::QueueMib => o.queue_mib > 64,
            OptionError::VideoWorkers => o.video_workers is Some && o.video_workers->Some_0 > 64,
            OptionError::ChunkTarget => o.chunk_target_ms < 250 || o.chunk_target_ms > 60_000,
            OptionError::VideoBuffer => o.video_buffer_mib == 0 || o.video_buffer_mib > 1024,
            OptionError::WorkersWithThreads => o.decoder_threads > 0 && o.video_workers is Some
                && o.video_workers->Some_0 != 1,
            OptionError::QueueDepth => o.queue_depth == 0 || o.queue_depth > 4,
            OptionError::WindowRange => !o.window_in_range,
            OptionError::WindowGrid => !o.window_on_grid,
            OptionError::Resolution => o.resolution < 32 || o.resolution > 1024,
            OptionError::BatchEpochs => o.batch_epochs == 0 || o.batch_epochs > 1024,
            OptionError::BatchTooLarge => (12 * o.resolution * o.resolution + 256 * o.window_hops)
                * o.batch_epochs > 268_435_456,
        },
{
    let side = o.resolution as int;
    let hops = o.window_hops as int;
    assert((3 * side * side + hops * 64) * 4 == 12 * side * side + 256 * hops)
        by (nonlinear_arith);
}

/// A number of decoders that was asked for is used; zero, or nothing where decoders have no
/// threads of their own, stands for as many as the machine runs at once, at least one and at
/// most sixteen.
pub proof fn law_worker_count(requested: usize, decoder_threads: usize, available: usize)
    ensures
        requested > 0 ==> worker_count(Some(requested), decoder_threads, available) == requested,
        decoder_threads > 0 ==> worker_count(None, decoder_threads, available) == 1,
        worker_count(None, 0, available) == worker_count(Some(0), decoder_threads, available),
        1 <= available && available <= 16 ==> worker_count(None, 0, available) == available,
        available > 16 ==> worker_count(None, 0, available) == 16,
        available == 0 ==> worker_count(None, 0, available) == 1,
{
}

/// What a run with or without tracks is judged to be.
pub open spec fn inputs_checked(has_video: bool, has_audio: bool) -> Result<(), RunError> {
    if has_video || has_audio {
        Ok(())
    } else {
        Err(RunError::NothingToRead)
    }
}

/// What a run is judged to be by its epochs.
pub open spec fn count_checked(produced: usize, total: usize) -> Result<(), RunError> {
    if produced == total {
        Ok(())
    } else {
        Err(RunError::WrongCount)
    }
}

/// What a run is judged to be by whether it produced anything.
pub open spec fn produced_checked(produced: usize) -> Result<(), RunError> {
    if produced > 0 {
        Ok(())
    } else {
        Err(RunError::NoEpochs)
    }
}

/// A run needs one track, sound or pictures, has to produce exactly its epochs, and at least
/// one.
pub proof fn law_run_is_complete(has_video: bool, has_audio: bool, produced: usize, total: usize)
    ensures
        inputs_checked(true, has_audio) is Ok,
        inputs_checked(has_video, true) is Ok,
        inputs_checked(false, false) == Err::<(), RunError>(RunError::NothingToRead),
        count_checked(produced, total) is Ok <==> produced == total,
        produced != total ==> count_checked(produced, total) == Err::<(), RunError>(
            RunError::WrongCount,
        ),
        produced_checked(produced) is Ok <==> produced >= 1,
        produced_checked(0) == Err::<(), RunError>(RunError::NoEpochs),
{
}

/// Where an epoch starts.
pub open spec fn start_of(epoch: int, window_ms: int) -> int {
    epoch * window_ms
}

/// The first epoch starts at zero, and each one a window after the one before it.
pub proof fn law_epochs_are_a_window_apart(epoch: int, window_ms: int)
    ensures
        start_of(0, window_ms) == 0,
        start_of(epoch + 1, window_ms) == start_of(epoch, window_ms) + window_ms,
{
    assert((epoch + 1) * window_ms == epoch * window_ms + window_ms) by (nonlinear_arith);
}

} // verus!
