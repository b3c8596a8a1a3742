//! Queues, messages, failures and the schedule of pieces of work.
use tenzor_pipe::chunk_session::{EpochCursor, EpochMismatch, EpochsMissing};
use tenzor_pipe::concurrency::{
    check_end, check_index, pipeline_outcome, queue_capacity, take_audio, take_video, AudioEpoch,
    Cancelled, CollectError, Failure, IndexMismatch, Message, VideoEpoch,
};
use tenzor_pipe::ordered::{Claim, Handover, Schedule};
use tenzor_pipe::video_parallel::Selection;

#[test]
fn byte_budget_scales_with_resolution_and_rendezvous() {
    for resolution in [160, 224, 336, 1024] {
        for budget in [0, 1 << 20, 4 << 20] {
            let row = 3 * resolution * resolution * 4 + 50 * 64 * 4;
            let (slots, bytes) =
                queue_capacity(2, budget, 50 * 64 * 4, 3 * resolution * resolution * 4);
            assert!(slots <= 2 && bytes <= budget);
            assert_eq!(bytes, slots * row);
        }
    }
}

#[test]
fn default_queues_use_the_documented_payload() {
    // 224 pixels, half-second epochs, four MiB, two slots.
    assert_eq!(queue_capacity(2, 4 << 20, 50 * 64 * 4, 3 * 224 * 224 * 4), (2, 1_229_824));
    assert_eq!(queue_capacity(2, 4 << 20, 0, 0), (0, 0));
    assert_eq!(queue_capacity(4, 100, 10, 15), (4, 100));
    assert_eq!(queue_capacity(4, 99, 10, 15), (3, 75));
}

#[test]
fn epochs_are_taken_in_turn() {
    assert_eq!(check_index(3, 3), Ok(()));
    assert_eq!(check_index(4, 3), Err(IndexMismatch { expected: 3, actual: 4 }));
    assert_eq!(
        check_index(120, 3).unwrap_err().text(),
        "epoch order mismatch: expected 3, got 120"
    );
    let audio = |index| Message::Data(AudioEpoch { index, values: vec![1.5f32], valid: 7 });
    assert_eq!(take_audio(audio(2), 2).map(|e| (e.values, e.valid)), Ok((vec![1.5], 7)));
    assert_eq!(
        take_audio(audio(2), 1).err(),
        Some(CollectError::OutOfOrder(IndexMismatch { expected: 1, actual: 2 }))
    );
    assert_eq!(
        take_audio::<f32>(Message::End(9), 1).err(),
        Some(CollectError::EndedBefore(1))
    );
    let video = |index| Message::Data(VideoEpoch { index, pts: 33, values: vec![2.5f32] });
    assert_eq!(take_video(video(0), 0).map(|e| (e.pts, e.values)), Ok((33, vec![2.5])));
    assert_eq!(
        take_video(video(5), 0).err(),
        Some(CollectError::OutOfOrder(IndexMismatch { expected: 0, actual: 5 }))
    );
    assert_eq!(
        take_video::<f32>(Message::End(9), 4).err(),
        Some(CollectError::EndedBefore(4))
    );
    assert_eq!(check_end(&Message::<u8>::End(9), 9), Ok(()));
    assert_eq!(check_end(&Message::<u8>::End(8), 9), Err(CollectError::CountMismatch));
    assert_eq!(check_end(&Message::Data(1u8), 9), Err(CollectError::CountMismatch));
}

#[test]
fn a_fault_is_never_hidden_by_a_cancellation() {
    let outcome = |collected, audio, video| match pipeline_outcome(collected, audio, video) {
        Ok(count) => format!("ok {count}"),
        Err(Failure::Cancelled) => Cancelled.text().to_string(),
        Err(Failure::Fault(fault)) => format!("{fault}"),
    };
    let fault = |text: &'static str| Failure::Fault(text);
    assert_eq!(outcome(Ok(5), Ok(()), Ok(())), "ok 5");
    assert_eq!(outcome(Err(fault("writer")), Err(fault("audio")), Err(fault("video"))), "writer");
    assert_eq!(outcome(Err(Failure::Cancelled), Err(fault("audio")), Err(fault("video"))), "audio");
    assert_eq!(outcome(Err(Failure::Cancelled), Err(Failure::Cancelled), Err(fault("video"))), "video");
    assert_eq!(outcome(Ok(5), Ok(()), Err(fault("video"))), "video");
    assert_eq!(outcome(Err(Failure::Cancelled), Ok(()), Err(Failure::Cancelled)), "pipeline cancelled");
}

#[test]
fn schedule_hands_results_over_in_order_and_keeps_to_its_window() {
    let mut schedule: Schedule<usize, &str> = Schedule::new(50, 5);
    let mut under_way = Vec::new();
    let mut seen = Vec::new();
    while schedule.emitted() < 50 {
        // Workers claim all they may, and finish the latest piece first.
        while let Claim::Work(piece) = schedule.claim(false) {
            under_way.push(piece);
            assert!(piece < schedule.emitted() + 5);
        }
        if let Some(piece) = under_way.pop() {
            schedule.complete(piece, piece * 10);
        }
        while schedule.emitted() < 50 {
            match schedule.take_next(false) {
                Handover::Value(value) => {
                    seen.push(value);
                    schedule.emitted_next();
                }
                Handover::Wait => break,
                Handover::GiveUp(_) => unreachable!(),
            }
        }
    }
    assert_eq!(seen, (0..50).map(|c| c * 10).collect::<Vec<_>>());
    assert_eq!(schedule.claim(false), Claim::Stop);
    assert!(schedule.finish().is_ok());
}

#[test]
fn a_piece_that_is_handed_over_counts_until_it_is_gone() {
    let mut schedule: Schedule<u8, &str> = Schedule::new(3, 0);
    assert_eq!(schedule.claim(false), Claim::Work(0));
    assert_eq!(schedule.claim(false), Claim::Wait);
    assert!(matches!(schedule.take_next(false), Handover::Wait));
    schedule.complete(0, 7);
    assert!(matches!(schedule.take_next(false), Handover::Value(7)));
    assert_eq!(schedule.claim(false), Claim::Wait);
    schedule.emitted_next();
    assert_eq!(schedule.claim(false), Claim::Work(1));
}

#[test]
fn the_first_fault_stays_and_stops_the_schedule() {
    let mut schedule: Schedule<u8, &str> = Schedule::new(3, 2);
    assert_eq!(schedule.claim(true), Claim::Stop);
    schedule.fail(Failure::Cancelled);
    schedule.fail(Failure::Fault("first"));
    schedule.fail(Failure::Fault("second"));
    schedule.fail(Failure::Cancelled);
    assert_eq!(schedule.claim(false), Claim::Stop);
    assert!(matches!(
        schedule.take_next(false),
        Handover::GiveUp(Failure::Fault("first"))
    ));
    assert!(matches!(schedule.take_next(true), Handover::GiveUp(Failure::Cancelled)));
    schedule.fail(Failure::Fault("first"));
    assert!(matches!(schedule.finish(), Err(Failure::Fault("first"))));
}

#[test]
fn epochs_are_handed_over_one_after_the_other() {
    let mut cursor = EpochCursor::new();
    let at = |from, to| Selection { pts: 0, epochs: (from, to) };
    assert_eq!(cursor.hand_over(at(0, 3)), Ok(()));
    assert_eq!(cursor.hand_over(at(4, 5)), Err(EpochMismatch { expected: 3, got: 4 }));
    assert_eq!(cursor.hand_over(at(3, 4)), Ok(()));
    assert_eq!(cursor.next, 4);
    assert_eq!(cursor.finish(5), Err(EpochsMissing { handed_over: 4, total: 5 }));
    assert_eq!(cursor.finish(4), Ok(()));
    assert_eq!(
        EpochMismatch { expected: 3, got: 4 }.text(),
        "epoch order mismatch: expected 3, got 4"
    );
}
