//! The rules of the pipeline of workers and collector: what is queued, in which order it is
//! taken, and which failure is reported. Threads and channels are the caller's.
use vstd::prelude::*;
use crate::text::{out_of_turn, out_of_turn_text};

verus! {

/// The pipeline was told to stop.
#[derive(Clone, Copy, Debug, PartialEq, Eq, Structural)]
pub struct Cancelled;

impl Cancelled {
    /// What a cancellation is reported as.
    pub fn text(self) -> (text: &'static str)
        ensures
            text@ == "pipeline cancelled"@,
    {
        "pipeline cancelled"
    }
}

/// Why work stops.
#[derive(Debug)]
pub enum Failure<X> {
    /// Somebody asked for it.
    Cancelled,
    /// Something went wrong.
    Fault(X),
}

/// The audio of one epoch.
pub struct AudioEpoch<T> {
    pub index: usize,
    pub values: Vec<T>,
    pub valid: usize,
}

/// The picture of one epoch.
pub struct VideoEpoch<T> {
    pub index: usize,
    pub pts: i64,
    pub values: Vec<T>,
}

/// What a worker sends: its epochs one by one, then how many there were.
pub enum Message<T> {
    Data(T),
    End(usize),
}

/// How many rows fit a budget.
pub open spec fn fitting_rows(budget: int, row: int) -> int {
    if row == 0 {
        0
    } else {
        budget / row
    }
}

/// The slots of each track's queue.
pub open spec fn slots_for(depth: int, budget: int, row: int) -> int {
    if depth <= fitting_rows(budget, row) {
        depth
    } else {
        fitting_rows(budget, row)
    }
}

/// A queue has as many slots as were asked for, as long as the budget holds that many rows,
/// and otherwise as many as it holds: one more would not fit. Without any payload there are
/// none.
pub proof fn law_queue_fills_the_budget(depth: int, budget: int, row: int)
    requires
        depth >= 0,
        budget >= 0,
        row >= 0,
    ensures
        0 <= slots_for(depth, budget, row) && slots_for(depth, budget, row) <= depth,
        slots_for(depth, budget, row) * row <= budget,
        row > 0 && slots_for(depth, budget, row) < depth ==> (slots_for(depth, budget, row) + 1)
            * row > budget,
        row == 0 ==> slots_for(depth, budget, row) == 0,
{
    if row > 0 {
        let q = budget / row;
        vstd::arithmetic::div_mod::lemma_fundamental_div_mod(budget, row);
        assert(row * q == q * row && (q + 1) * row == q * row + row) by (nonlinear_arith);
        assert(q >= 0) by (nonlinear_arith)
            requires
                q == budget / row,
                budget >= 0,
                row > 0,
        ;
        if depth <= q {
            assert(depth * row <= q * row) by (nonlinear_arith)
                requires
                    depth <= q,
                    row > 0,
            ;
        }
    }
}

/// The slots of each track's queue and the payload bytes that both queues hold when they are
/// full, not counting the buffers that workers and collector work on.
pub fn queue_capacity(depth: usize, budget: usize, audio_bytes: usize, video_bytes: usize) -> (res: (
    usize,
    usize,
))
    requires
        audio_bytes + video_bytes <= usize::MAX,
    ensures
        res.0 == if depth <= fitting_rows(budget as int, audio_bytes + video_bytes) {
            depth as int
        } else {
            fitting_rows(budget as int, audio_bytes + video_bytes)
        },
        res.0 == slots_for(depth as int, budget as int, audio_bytes + video_bytes),
        res.1 == res.0 * (audio_bytes + video_bytes),
        res.0 <= depth,
        res.1 <= budget,
{
    let row: usize = audio_bytes + video_bytes;
    let fitting: usize = if row == 0 {
        0
    } else {
        budget / row
    };
    let slots: usize = depth.min(fitting);
    assert(slots * row <= budget) by (nonlinear_arith)
        requires
            slots <= fitting,
            row == 0 ==> fitting == 0,
            row > 0 ==> fitting == budget as int / row as int,
            row >= 0,
            budget >= 0,
    ;
    (slots, slots * row)
}

/// An epoch came out of order.
#[derive(Clone, Copy, Debug, PartialEq, Eq, Structural)]
pub struct IndexMismatch {
    pub expected: usize,
    pub actual: usize,
}

impl IndexMismatch {
    /// What the mismatch is reported as.
    pub fn text(self) -> (text: String)
        ensures
            text@ == out_of_turn(self.expected, self.actual),
    {
        out_of_turn_text(self.expected, self.actual)
    }
}

/// What an epoch that comes when another is due is judged to be.
pub open spec fn index_checked(actual: usize, expected: usize) -> Result<(), IndexMismatch> {
    if actual == expected {
        Ok(())
    } else {
        Err(IndexMismatch { expected, actual })
    }
}

/// Checks that an epoch is the one whose turn it is.
pub fn check_index(actual: usize, expected: usize) -> (res: Result<(), IndexMismatch>)
    ensures
        res == index_checked(actual, expected),
        res == if actual == expected {
            Ok::<(), IndexMismatch>(())
        } else {
            Err(IndexMismatch { expected, actual })
        },
{
    if actual == expected {
        Ok(())
    } else {
        Err(IndexMismatch { expected, actual })
    }
}

/// Why the collector refuses what a worker sent.
#[derive(Clone, Copy, Debug, PartialEq, Eq, Structural)]
pub enum CollectError {
    /// An epoch came out of order.
    OutOfOrder(IndexMismatch),
    /// The worker ended before this epoch.
    EndedBefore(usize),
    /// The worker did not end after the last epoch, or counted another number of them.
    CountMismatch,
}

/// What the collector makes of a message that carries an epoch's sound.
pub open spec fn audio_taken<T>(message: Message<AudioEpoch<T>>, expected: usize) -> Result<
    AudioEpoch<T>,
    CollectError,
> {
    match message {
        Message::Data(epoch) => if epoch.index == expected {
            Ok(epoch)
        } else {
            Err(CollectError::OutOfOrder(IndexMismatch { expected, actual: epoch.index }))
        },
        Message::End(_) => Err(CollectError::EndedBefore(expected)),
    }
}

/// What the collector makes of a message that carries an epoch's picture.
pub open spec fn video_taken<T>(message: Message<VideoEpoch<T>>, expected: usize) -> Result<
    VideoEpoch<T>,
    CollectError,
> {
    match message {
        Message::Data(epoch) => if epoch.index == expected {
            Ok(epoch)
        } else {
            Err(CollectError::OutOfOrder(IndexMismatch { expected, actual: epoch.index }))
        },
        Message::End(_) => Err(CollectError::EndedBefore(expected)),
    }
}

/// What the collector makes of the message that a worker ends with.
pub open spec fn end_checked<T>(message: Message<T>, total: usize) -> Result<(), CollectError> {
    match message {
        Message::End(count) => if count == total {
            Ok(())
        } else {
            Err(CollectError::CountMismatch)
        },
        Message::Data(_) => Err(CollectError::CountMismatch),
    }
}

/// An epoch is taken, as it was sent, exactly where it is the one whose turn it is; and a worker
/// has ended well exactly where it says so and counted every epoch.
pub proof fn law_epochs_are_taken_in_turn<T>(
    sound: AudioEpoch<T>,
    picture: VideoEpoch<T>,
    expected: usize,
    count: usize,
)
    ensures
        index_checked(count, expected) is Ok <==> count == expected,
        audio_taken(Message::Data(sound), expected) is Ok <==> sound.index == expected,
        sound.index == expected ==> audio_taken(Message::Data(sound), expected)->Ok_0 == sound,
        audio_taken(Message::<AudioEpoch<T>>::End(count), expected) is Err,
        video_taken(Message::Data(picture), expected) is Ok <==> picture.index == expected,
        picture.index == expected ==> video_taken(Message::Data(picture), expected)->Ok_0
            == picture,
        video_taken(Message::<VideoEpoch<T>>::End(count), expected) is Err,
        end_checked(Message::<T>::End(count), expected) is Ok <==> count == expected,
        end_checked(Message::Data(sound), expected) is Err,
{
}

/// Takes the audio of epoch `expected` out of a message.
pub fn take_audio<T>(message: Message<AudioEpoch<T>>, expected: usize) -> (res: Result<
    AudioEpoch<T>,
    CollectError,
>)
    ensures
        res == audio_taken(message, expected),
        res == match message {
            Message::Data(epoch) => if epoch.index == expected {
                Ok::<AudioEpoch<T>, CollectError>(epoch)
            } else {
                Err(
                    CollectError::OutOfOrder(IndexMismatch { expected, actual: epoch.index }),
                )
            },
            Message::End(_) => Err(CollectError::EndedBefore(expected)),
        },
{
    match message {
        Message::Data(epoch) => match check_index(epoch.index, expected) {
            Ok(()) => Ok(epoch),
            Err(mismatch) => Err(CollectError::OutOfOrder(mismatch)),
        },
        Message::End(_) => Err(CollectError::EndedBefore(expected)),
    }
}

/// Takes the picture of epoch `expected` out of a message.
pub fn take_video<T>(message: Message<VideoEpoch<T>>, expected: usize) -> (res: Result<
    VideoEpoch<T>,
    CollectError,
>)
    ensures
        res == video_taken(message, expected),
        res == match message {
            Message::Data(epoch) => if epoch.index == expected {
                Ok::<VideoEpoch<T>, CollectError>(epoch)
            } else {
                Err(
                    CollectError::OutOfOrder(IndexMismatch { expected, actual: epoch.index }),
                )
            },
            Message::End(_) => Err(CollectError::EndedBefore(expected)),
        },
{
    match message {
        Message::Data(epoch) => match check_index(epoch.index, expected) {
            Ok(()) => Ok(epoch),
            Err(mismatch) => Err(CollectError::OutOfOrder(mismatch)),
        },
        Message::End(_) => Err(CollectError::EndedBefore(expected)),
    }
}

/// Checks that a worker ended after `total` epochs.
pub fn check_end<T>(message: &Message<T>, total: usize) -> (res: Result<(), CollectError>)
    ensures
        res == end_checked(*message, total),
        res == match *message {
            Message::End(count) => if count == total {
                Ok::<(), CollectError>(())
            } else {
                Err(CollectError::CountMismatch)
            },
            Message::Data(_) => Err(CollectError::CountMismatch),
        },
{
    match message {
        Message::End(count) => if *count == total {
            Ok(())
        } else {
            Err(CollectError::CountMismatch)
        },
        Message::Data(_) => Err(CollectError::CountMismatch),
    }
}

/// The result is a fault, not a success and not a cancellation.
pub open spec fn is_fault<T, X>(res: Result<T, Failure<X>>) -> bool {
    res matches Err(Failure::Fault(_))
}

/// What the pipeline reports.
pub open spec fn outcome_of<X>(
    collected: Result<usize, Failure<X>>,
    audio: Result<(), Failure<X>>,
    video: Result<(), Failure<X>>,
) -> Result<usize, Failure<X>> {
    if is_fault(collected) {
        collected
    } else if is_fault(audio) {
        Err(audio->Err_0)
    } else if is_fault(video) {
        Err(video->Err_0)
    } else {
        collected
    }
}

/// A fault of the collector is reported as it is. A worker's fault is reported where the
/// collector has none, the audio worker's before the video worker's, even where the collector
/// succeeded or was told to stop. Without any fault the collector's own end is reported.
pub proof fn law_no_fault_is_hidden<X>(collected: Result<usize, Failure<X>>, a: X, v: X, c: X)
    ensures
        outcome_of(Err(Failure::Fault(c)), Err(Failure::Fault(a)), Err(Failure::Fault(v))) == Err::<
            usize,
            Failure<X>,
        >(Failure::Fault(c)),
        !(collected matches Err(Failure::Fault(_))) ==> {
            &&& outcome_of(collected, Err(Failure::Fault(a)), Err(Failure::Fault(v))) == Err::<
                usize,
                Failure<X>,
            >(Failure::Fault(a))
            &&& outcome_of(collected, Err(Failure::Fault(a)), Ok(())) == Err::<usize, Failure<X>>(
                Failure::Fault(a),
            )
            &&& outcome_of(collected, Ok(()), Err(Failure::Fault(v))) == Err::<usize, Failure<X>>(
                Failure::Fault(v),
            )
            &&& outcome_of(collected, Err(Failure::Cancelled), Err(Failure::Fault(v))) == Err::<
                usize,
                Failure<X>,
            >(Failure::Fault(v))
            &&& outcome_of(collected, Ok(()), Ok(())) == collected
            &&& outcome_of(collected, Err(Failure::Cancelled), Err(Failure::Cancelled))
                == collected
        },
{
}

/// What the pipeline reports when all have come to an end: the collector's fault, else the
/// audio worker's, else the video worker's, else what the collector came to. A cancellation
/// never hides the fault that brought it about.
pub fn pipeline_outcome<X>(
    collected: Result<usize, Failure<X>>,
    audio: Result<(), Failure<X>>,
    video: Result<(), Failure<X>>,
) -> (res: Result<usize, Failure<X>>)
    ensures
        res == outcome_of(collected, audio, video),
        is_fault(collected) ==> res == collected,
        !is_fault(collected) && is_fault(audio) ==> res == Err::<usize, Failure<X>>(
            audio->Err_0,
        ),
        !is_fault(collected) && !is_fault(audio) && is_fault(video) ==> res == Err::<
            usize,
            Failure<X>,
        >(video->Err_0),
        !is_fault(collected) && !is_fault(audio) && !is_fault(video) ==> res == collected,
{
    match collected {
        Err(Failure::Fault(fault)) => Err(Failure::Fault(fault)),
        _ => match audio {
            Err(Failure::Fault(fault)) => Err(Failure::Fault(fault)),
            _ => match video {
                Err(Failure::Fault(fault)) => Err(Failure::Fault(fault)),
                _ => collected,
            },
        },
    }
}

} // verus!
