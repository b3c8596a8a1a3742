//! Plans for several decoders, and the decoding of clips and chunks.
use std::collections::VecDeque;
use tenzor_pipe::chunk_plan::{check_request, plan_parallel, window_for, Fallback};
use tenzor_pipe::chunk_session::{
    ChunkError, ChunkFault, ChunkFrame, ChunkSession, EpochCursor, HevcPicture, RangeError,
    RangeSession,
};
use tenzor_pipe::hevc_plan::{
    check_hevc_request, chunk_expected, lay_out, list_all, list_units, HevcPlan, HevcPlanError,
    HevcRequestError, SingleReason, Survey,
};
use tenzor_pipe::avc_config::{AvccSets, UnitError};
use tenzor_pipe::nal::NalError;
use tenzor_pipe::order::{all_distinct, find_time, sort_times};
use tenzor_pipe::stream_session::{
    guide_skips, may_skip, Service, SessionError, Stream, StreamFault, StreamSession,
};
use tenzor_pipe::video::{check_window, EmptyWindow, LookaheadError, VideoConfig};
use tenzor_pipe::video_hevc::{plan_hevc_chunks, HevcChunk};
use tenzor_pipe::video_parallel::{
    assign_epochs, is_selected, plan_chunks, ParallelConfig, Selection, PLAN_BUDGET_BYTES,
};

fn config(window_ms: u64) -> VideoConfig {
    VideoConfig {
        resolution: 2,
        window_ms,
        audio_duration_ms: 0,
        decoder_threads: 0,
        skip_nonref: true,
        diagnostics: false,
    }
}

fn parallel(workers: usize) -> ParallelConfig {
    ParallelConfig { workers, chunk_target_ms: 0, buffer_bytes: 1 << 20 }
}

#[test]
fn chunks_cut_only_at_idr_with_clean_presentation_boundary() {
    // Decode order I P B B | I P B B, 4 pictures per GOP, 100ms spacing.
    let pts = [0, 300, 100, 200, 400, 700, 500, 600];
    let idr = [true, false, false, false, true, false, false, false];
    assert_eq!(plan_chunks(&pts, &idr, 0), vec![0..4, 4..8]);
    // Target larger than the clip keeps one chunk.
    assert_eq!(plan_chunks(&pts, &idr, 10_000), vec![0..8]);
    // An "IDR" whose predecessor presents later (open GOP-like) is not a cut.
    let pts_open = [0, 500, 100, 200, 400, 700, 450, 600];
    assert_eq!(plan_chunks(&pts_open, &idr, 0), vec![0..8]);
    // Sync-but-not-IDR never splits.
    let none = [true, false, false, false, false, false, false, false];
    assert_eq!(plan_chunks(&pts, &none, 0), vec![0..8]);
}

#[test]
fn chunks_reach_their_target_and_cover_the_clip() {
    let pts: Vec<i64> = (0..10).map(|i| i * 100).collect();
    let idr = [true; 10];
    assert_eq!(plan_chunks(&pts, &idr, 300), vec![0..3, 3..6, 6..9, 9..10]);
    assert_eq!(plan_chunks(&pts, &idr, 301), vec![0..4, 4..8, 8..10]);
    assert!(plan_chunks(&[], &[], 0).is_empty());
    assert_eq!(plan_chunks(&[7], &[], 0), vec![0..1]);
    // Times at the ends of the range do not overflow.
    assert_eq!(plan_chunks(&[i64::MIN, i64::MAX], &[true, true], 1), vec![0..1, 1..2]);
}

#[test]
fn hevc_chunks_decode_through_the_next_rasl_run() {
    // CRA P | CRA RASL RASL P: the RASL pictures present before their CRA.
    let pts = [0, 100, 400, 200, 300, 500];
    let irap = [true, false, true, false, false, false];
    let rasl = [false, false, false, true, true, false];
    assert_eq!(
        plan_hevc_chunks(&pts, &irap, &rasl, 0, |p| p >= 0),
        Some(vec![
            HevcChunk { head: 0, tail: 1..5, present: (0, 400) },
            HevcChunk { head: 2, tail: 5..6, present: (400, i64::MAX) },
        ])
    );
    // A target beyond the clip leaves one chunk.
    assert_eq!(
        plan_hevc_chunks(&pts, &irap, &rasl, 1000, |_| true),
        Some(vec![HevcChunk { head: 0, tail: 1..6, present: (0, i64::MAX) }])
    );
    assert_eq!(plan_hevc_chunks(&[], &[], &[], 0, |_| true), None);
    assert_eq!(
        plan_hevc_chunks(&[5], &[], &[], 0, |_| true),
        Some(vec![HevcChunk { head: 0, tail: 1..1, present: (5, i64::MAX) }])
    );
}

#[test]
fn hevc_chunks_that_do_not_partition_the_pictures_are_refused() {
    // The picture at 150 follows the second IRAP but presents before it.
    let pts = [0, 100, 200, 150];
    let irap = [true, false, true, false];
    let rasl = [false; 4];
    assert_eq!(plan_hevc_chunks(&pts, &irap, &rasl, 0, |_| true), None);
    // Nobody asks for it.
    assert!(plan_hevc_chunks(&pts, &irap, &rasl, 0, |p| p != 150).is_some());
    // A picture before the first one has no owner.
    assert_eq!(plan_hevc_chunks(&[10, 5], &[true, false], &rasl[..2], 0, |_| true), None);
    // Intervals must ascend.
    assert_eq!(plan_hevc_chunks(&[10, 10], &[true, true], &rasl[..2], 0, |_| true), None);
}

#[test]
fn times_are_sorted_found_and_told_apart() {
    let times = vec![5, -3, 9, 5, 0];
    let sorted = sort_times(&times);
    assert_eq!(sorted, vec![-3, 0, 5, 5, 9]);
    assert!(!all_distinct(&sorted));
    assert!(all_distinct(&vec![-3, 0, 5, 9]));
    assert!(find_time(&sorted, 9) && find_time(&sorted, -3) && !find_time(&sorted, 4));
    assert!(!find_time(&vec![], 4));
}

#[test]
fn fewer_chunks_are_under_way_where_the_buffer_is_small() {
    assert_eq!(window_for(4, 1000, 100), 5);
    assert_eq!(window_for(4, 399, 100), 3);
    assert_eq!(window_for(4, 99, 100), 1);
    assert_eq!(window_for(4, 0, 0), 5);
}

#[test]
fn every_reason_for_one_decoder_is_given() {
    let cfg = config(500);
    assert_eq!(check_request(&cfg, &parallel(1)), Some(Fallback::FewWorkers));
    let mut threads = cfg;
    threads.decoder_threads = 2;
    assert_eq!(check_request(&threads, &parallel(2)), Some(Fallback::DecoderThreads));
    assert_eq!(check_request(&cfg, &parallel(2)), None);
    let reason = |pts: Vec<i64>, idr: Vec<bool>, end: u64, ms: u64, par: ParallelConfig| {
        plan_parallel(&pts, &idr, end, ms, &cfg, &par).err()
    };
    let far: Vec<i64> = (1..35).chain([0]).collect();
    assert_eq!(
        reason(far, vec![true; 35], 1000, 1000, parallel(2)),
        Some(Fallback::ReorderedTooFar)
    );
    assert_eq!(
        reason(vec![-5, 2000], vec![true; 2], 1000, 1000, parallel(2)),
        Some(Fallback::NothingPresented)
    );
    assert_eq!(
        reason(vec![0, 0], vec![true; 2], 1000, 1000, parallel(2)),
        Some(Fallback::DuplicateTimes)
    );
    assert_eq!(
        reason(vec![0, 500], vec![true; 2], 1000, 0, parallel(2)),
        Some(Fallback::EpochsUncovered)
    );
    assert_eq!(
        reason(vec![0, 500], vec![true, false], 1000, 1000, parallel(2)),
        Some(Fallback::FewChunks)
    );
    let small = ParallelConfig { workers: 2, chunk_target_ms: 0, buffer_bytes: 95 };
    assert_eq!(
        reason(vec![0, 500], vec![true; 2], 1000, 1000, small),
        Some(Fallback::BudgetTooSmall)
    );
    let mut huge = cfg;
    huge.resolution = usize::MAX;
    let all = ParallelConfig { buffer_bytes: usize::MAX, ..parallel(2) };
    assert_eq!(
        plan_parallel(&vec![0, 500], &vec![true; 2], 1000, 1000, &huge, &all).err(),
        Some(Fallback::BudgetTooSmall)
    );
    assert_eq!(Fallback::BudgetTooSmall.reason(), "byte budget allows fewer than 2 in-flight chunks");
    assert_eq!(Fallback::PlanTooLarge.reason(), "planning metadata exceeds 32 MiB allowance");
}

#[test]
fn chunks_serve_the_same_pictures_as_the_whole_clip() {
    // Two GOPs with reordering, one picture after the end of the movie.
    let pts: Vec<i64> = vec![0, 300, 100, 200, 400, 700, 500, 600, 2000];
    let idr: Vec<bool> = (0..9).map(|i| i % 4 == 0 && i < 8).collect();
    let plan = plan_parallel(&pts, &idr, 800, 800, &config(100), &parallel(4))
        .unwrap_or_else(|e| panic!("{e:?}"));
    assert_eq!(plan.chunks, vec![0..4, 4..9]);
    assert_eq!(plan.presented, vec![vec![0, 100, 200, 300], vec![400, 500, 600, 700]]);
    assert_eq!(plan.total_epochs, 8);
    let sorted: Vec<i64> = (0..8).map(|i| i * 100).collect();
    assert_eq!(plan.selections, assign_epochs(&sorted, 100, 8));
    assert_eq!(plan.selected, vec![0..4, 4..8]);
    assert_eq!(plan.chunk_bytes, 4 * 3 * 2 * 2 * 4);
    assert_eq!((plan.window, plan.workers), (5, 2));
    for (c, range) in plan.selected.iter().enumerate() {
        for selection in &plan.selections[range.clone()] {
            assert!(plan.presented[c].contains(&selection.pts));
        }
    }
    assert!(is_selected(&plan.selections, 0, 8, 700));
    assert!(!is_selected(&plan.selections, 0, 4, 700));
}

fn stream(samples: usize, end: u64, window_ms: u64, total_epochs: usize) -> Stream {
    Stream { width: 4, height: 2, samples, end, window_ms, total_epochs }
}

fn source(times: &[i64]) -> VecDeque<Result<i64, &'static str>> {
    times.iter().map(|t| Ok(*t)).collect()
}

#[test]
fn one_decoder_serves_what_the_plan_selects() {
    // I P B B in decode order; one decoder that puts pictures out in order.
    let pts = [0, 300, 100, 200];
    let mut session = StreamSession::new(stream(4, 400, 100, 5), source(&pts)).unwrap();
    let mut served = Vec::new();
    for time in pts {
        session.submit(time).unwrap();
    }
    for _ in 0..4 {
        let service = session.picture(4, 2).unwrap().unwrap();
        if service.from < service.to {
            served.push(Selection { pts: service.pts, epochs: (service.from, service.to) });
        }
        session.advance().unwrap();
    }
    assert_eq!(served, assign_epochs(&[0, 100, 200, 300], 100, 5));
    assert_eq!(session.finish().unwrap(), (4, 0));
}

#[test]
fn skipped_pictures_are_passed_without_a_trace() {
    let cfg = config(300);
    let pts = vec![0, 300, 100, 200, 600];
    let guide = guide_skips(&pts, 700, 700, &cfg);
    // Only 0, 300 and 600 are selected.
    let droppable = [1, 0x01];
    let skips: Vec<bool> = pts.iter().map(|p| may_skip(&guide, *p, &droppable, 1)).collect();
    assert_eq!(skips, vec![false, false, true, true, false]);
    assert!(!may_skip(&guide, 100, &[1, 0x41], 1));
    assert!(!may_skip(&None, 100, &droppable, 1));
    let mut session = StreamSession::new(stream(5, 700, 300, 3), source(&pts)).unwrap();
    let mut served = Vec::new();
    for (time, skip) in pts.iter().zip(skips) {
        if skip {
            session.skip(*time);
        } else {
            session.submit(*time).unwrap();
        }
    }
    for _ in 0..3 {
        served.push(session.picture(4, 2).unwrap().unwrap());
        session.advance().unwrap();
    }
    assert_eq!(
        served,
        vec![
            Service { pts: 0, from: 0, to: 1 },
            Service { pts: 300, from: 1, to: 2 },
            Service { pts: 600, from: 2, to: 3 },
        ]
    );
    assert_eq!(session.finish().unwrap(), (3, 2));
    let mut off = cfg;
    off.skip_nonref = false;
    assert!(guide_skips(&pts, 700, 700, &off).is_none());
    let far: Vec<i64> = (1..35).chain([0]).collect();
    assert!(guide_skips(&far, 700, 700, &cfg).is_none());
}

#[test]
fn one_decoder_and_several_hand_on_the_same() {
    let cfg = config(200);
    let pts = vec![0, 300, 100, 200, 400, 700, 500, 600];
    let idr = vec![true, false, false, false, true, false, false, false];
    // A picture at 100 or 500 serves no epoch, and nothing refers to it.
    let droppable = [false, false, true, false, false, false, true, false];
    let guide = guide_skips(&pts, 800, 800, &cfg);
    let skips = |i: usize| droppable[i] && may_skip(&guide, pts[i], &[1, 0x01], 1);
    let mut session = StreamSession::new(stream(8, 800, 200, 4), source(&pts)).unwrap();
    let mut one = Vec::new();
    let mut show = |session: &mut StreamSession<&'static str>| {
        let service = session.picture(4, 2).unwrap().unwrap();
        if service.from < service.to {
            one.push(Selection { pts: service.pts, epochs: (service.from, service.to) });
        }
        session.advance().unwrap();
    };
    let mut submitted = 0;
    for i in 0..8 {
        if skips(i) {
            session.skip(pts[i]);
        } else {
            session.submit(pts[i]).unwrap();
            submitted += 1;
        }
        if i == 3 {
            show(&mut session);
            submitted -= 1;
        }
    }
    for _ in 0..submitted {
        show(&mut session);
    }
    let (resized, skipped) = session.finish().unwrap();
    assert_eq!(skipped, 2);

    let plan = plan_parallel(&pts, &idr, 800, 800, &cfg, &parallel(2)).unwrap();
    let mut cursor = EpochCursor::new();
    let mut several = Vec::new();
    let mut resized_by_chunks = 0;
    for (c, chunk) in plan.chunks.iter().enumerate() {
        let frame = ChunkFrame { width: 4, height: 2, samples: chunk.len(), end: 800 };
        let wanted = plan.selected[c].clone();
        let mut session =
            ChunkSession::new(frame, &plan.presented[c], &plan.selections, wanted.start, wanted.end);
        let mut submitted = 0;
        for i in chunk.clone() {
            if droppable[i] && session.may_skip(pts[i], &[1, 0x01], 1) {
                session.skip(pts[i]);
            } else {
                session.submit(pts[i]).unwrap();
                submitted += 1;
            }
        }
        for _ in 0..submitted {
            if let Some(selection) = session.picture(4, 2).unwrap() {
                cursor.hand_over(selection).unwrap();
                several.push(selection);
            }
        }
        resized_by_chunks += session.finish().unwrap().0;
    }
    assert_eq!(cursor.finish(plan.total_epochs), Ok(()));
    assert_eq!(several, one);
    assert_eq!((resized_by_chunks, one.len()), (resized, resized));
    let epochs: Vec<usize> = one.iter().flat_map(|s| s.epochs.0..s.epochs.1).collect();
    assert_eq!(epochs, vec![0, 1, 2, 3]);
}

#[test]
fn requests_that_cannot_be_met_are_refused() {
    assert_eq!(check_window(&config(1)), Ok(()));
    assert_eq!(check_window(&config(0)), Err(EmptyWindow));
    assert_eq!(check_hevc_request(&config(1)), Ok(()));
    let mut threads = config(1);
    threads.decoder_threads = 1;
    assert_eq!(check_hevc_request(&threads), Err(HevcRequestError::DecoderThreads));
    threads.window_ms = 0;
    assert_eq!(check_hevc_request(&threads), Err(HevcRequestError::EmptyWindow));
}

#[test]
fn a_malformed_access_unit_starts_no_chunk() {
    let mut broken = unit(19, 0);
    broken.extend([5, 0x02]);
    let units = [(0, unit(19, 0)), (100, broken), (200, unit(20, 0))];
    let plan = planned(&units, 300, &config(100)).unwrap();
    assert_eq!(plan.irap, vec![true, false, true]);
}

#[test]
fn every_fault_of_a_stream_is_named() {
    let opened = |times: &[i64], samples| {
        StreamSession::new(stream(samples, 1000, 500, 2), source(times))
    };
    assert!(matches!(opened(&[-1, 5000], 2), Err(SessionError::NothingPresented)));
    assert!(matches!(
        StreamSession::new(stream(1, 1000, 500, 2), VecDeque::from(vec![Err("table")])),
        Err(SessionError::Lookahead(LookaheadError::Source("table")))
    ));
    let mut session = opened(&[0, 500], 2).unwrap();
    assert!(matches!(session.picture(4, 2), Err(SessionError::ExtraPicture)));
    session.submit(0).unwrap();
    assert!(matches!(session.picture(5, 2), Err(SessionError::ResolutionChanged)));
    let mut session = opened(&[0, 500], 2).unwrap();
    session.submit(500).unwrap();
    assert!(matches!(session.picture(4, 2), Err(SessionError::TimeMismatch)));
    let mut session = opened(&[0, 500, 900], 3).unwrap();
    session.submit(0).unwrap();
    session.submit(5000).unwrap();
    assert_eq!(session.picture(4, 2).unwrap(), Some(Service { pts: 0, from: 0, to: 1 }));
    session.advance().unwrap();
    assert_eq!(session.picture(4, 2).unwrap(), None);
    assert!(matches!(
        session.finish(),
        Err(SessionError::CountMismatch { produced: 2, expected: 3 })
    ));
    let session = opened(&[0, 500], 0).unwrap();
    assert!(matches!(session.finish(), Err(SessionError::Incomplete)));
    let times: Vec<i64> = (0..40).collect();
    let mut session = opened(&times, 40).unwrap();
    for time in 0..34 {
        session.submit(time).unwrap();
    }
    assert!(matches!(session.submit(34), Err(SessionError::QueueFull)));
    // A picture that comes after a later one was presented.
    let late: Vec<i64> = (10..46).chain([0]).collect();
    let mut session = opened(&late, 40).unwrap();
    assert!(session.advance().is_ok());
    assert!(matches!(
        session.advance(),
        Err(SessionError::Lookahead(LookaheadError::Reordered))
    ));
}

#[test]
fn a_chunk_serves_its_own_selections() {
    let frame = ChunkFrame { width: 4, height: 2, samples: 4, end: 400 };
    let expected = vec![0, 100, 200, 300];
    let selections = vec![
        Selection { pts: -9, epochs: (0, 1) },
        Selection { pts: 0, epochs: (1, 2) },
        Selection { pts: 300, epochs: (2, 9) },
    ];
    let mut session = ChunkSession::new(frame, &expected, &selections, 1, 3);
    assert!(session.may_skip(100, &[1, 0x01], 1));
    assert!(!session.may_skip(300, &[1, 0x01], 1));
    assert!(!session.may_skip(100, &[1, 0x21], 1));
    session.submit(0).unwrap();
    session.submit(300).unwrap();
    session.skip(100);
    session.skip(200);
    assert_eq!(session.picture(4, 2), Ok(Some(selections[1])));
    assert_eq!(session.picture(4, 2), Ok(Some(selections[2])));
    assert_eq!(session.finish(), Ok((2, 2)));
}

#[test]
fn every_fault_of_a_chunk_is_named() {
    let frame = ChunkFrame { width: 4, height: 2, samples: 40, end: 400 };
    let expected = vec![0, 100];
    let selections = vec![Selection { pts: 0, epochs: (0, 1) }];
    let open = || ChunkSession::new(frame, &expected, &selections, 0, 1);
    let mut session = open();
    assert_eq!(session.picture(4, 2), Err(ChunkError::ExtraPicture));
    session.submit(0).unwrap();
    assert_eq!(session.picture(4, 3), Err(ChunkError::ResolutionChanged));
    let mut session = open();
    session.submit(100).unwrap();
    assert_eq!(session.picture(4, 2), Err(ChunkError::TimeMismatch));
    let mut session = open();
    session.submit(9000).unwrap();
    assert_eq!(session.picture(4, 2), Ok(None));
    assert_eq!(
        session.finish(),
        Err(ChunkError::CountMismatch { produced: 1, expected: 40 })
    );
    let mut session = open();
    for time in 0..34 {
        session.submit(time).unwrap();
    }
    assert_eq!(session.submit(34), Err(ChunkError::QueueFull));
    let frame = ChunkFrame { samples: 1, ..frame };
    let mut session = ChunkSession::new(frame, &expected, &selections, 0, 1);
    session.submit(0).unwrap();
    assert_eq!(session.picture(4, 2), Ok(Some(selections[0])));
    assert_eq!(session.finish(), Err(ChunkError::Incomplete));
}

#[test]
fn a_range_takes_pictures_in_presentation_order() {
    let expected = vec![0, 100, 200];
    let selections = vec![Selection { pts: 100, epochs: (0, 4) }];
    let picture = HevcPicture { width: 4, height: 2, bit_depth: 8, chroma_format: 1 };
    let open = || RangeSession::new(4, 2, 2, &expected, &selections, 0, 1);
    let mut session = open();
    assert_eq!(session.take_unit(false, &[2, 0x02, 0x01], 1), Ok(Some(vec![0, 0, 0, 1, 0x02, 0x01])));
    assert_eq!(session.take_unit(true, &[], 1), Ok(None));
    assert_eq!(session.picture(picture), Ok(None));
    assert_eq!(session.picture(picture), Ok(Some(selections[0])));
    assert_eq!(session.picture(picture), Ok(None));
    assert_eq!(session.picture(picture), Err(RangeError::ExtraPicture));
    assert_eq!(session.finish(), Ok((1, 1)));
    let mut session = open();
    assert_eq!(session.take_unit(false, &[], 1), Err(NalError::EmptySample));
    assert_eq!(
        session.picture(HevcPicture { width: 5, ..picture }),
        Err(RangeError::ResolutionChanged)
    );
    assert_eq!(
        session.picture(HevcPicture { bit_depth: 10, ..picture }),
        Err(RangeError::UnsupportedFormat)
    );
    assert_eq!(
        session.picture(HevcPicture { chroma_format: 2, ..picture }),
        Err(RangeError::UnsupportedFormat)
    );
    assert_eq!(
        session.finish(),
        Err(RangeError::Incomplete { pictures: 0, expected: 3, selections: 0, wanted: 1 })
    );
}

#[test]
fn access_units_are_skipped_refused_or_handed_on() {
    let sets = AvccSets { length_size: 1, sps: vec![vec![1]], pps: vec![vec![2]] };
    let droppable = [1, 0x01];
    let pts = vec![0, 100, 500];
    let guide = guide_skips(&pts, 1000, 1000, &config(500));
    let mut session = StreamSession::new(stream(5, 1000, 500, 2), source(&pts)).unwrap();
    let start = vec![0, 0, 0, 1, 0x01];
    assert!(matches!(session.take_unit(&guide, &sets, 0, &droppable), Ok(Some(s)) if s == start));
    assert!(matches!(session.take_unit(&guide, &sets, 100, &droppable), Ok(None)));
    assert!(matches!(
        session.take_unit(&guide, &sets, 100, &[]),
        Err(StreamFault::Unit(UnitError::Malformed(NalError::EmptySample)))
    ));
    assert!(matches!(
        session.take_unit(&None, &sets, 500, &[2, 0x67, 9]),
        Err(StreamFault::Unit(UnitError::SetsChanged))
    ));
    let frame = ChunkFrame { width: 4, height: 2, samples: 40, end: 400 };
    let expected = vec![0, 100];
    let selections = vec![Selection { pts: 0, epochs: (0, 1) }];
    let mut chunk = ChunkSession::new(frame, &expected, &selections, 0, 1);
    assert_eq!(chunk.take_unit(true, &sets, 0, &droppable), Ok(Some(start.clone())));
    assert_eq!(chunk.take_unit(true, &sets, 100, &droppable), Ok(None));
    assert_eq!(chunk.take_unit(false, &sets, 100, &droppable), Ok(Some(start)));
    assert_eq!(
        chunk.take_unit(true, &sets, 100, &[9]),
        Err(ChunkFault::Unit(UnitError::Malformed(NalError::BadPayload)))
    );
    assert_eq!(
        chunk.take_unit(true, &sets, 100, &[2, 0x68, 9]),
        Err(ChunkFault::Unit(UnitError::SetsChanged))
    );
    for _ in 4..34 {
        assert!(chunk.take_unit(false, &sets, 100, &droppable).is_ok());
    }
    assert_eq!(
        chunk.take_unit(false, &sets, 100, &droppable),
        Err(ChunkFault::Chunk(ChunkError::QueueFull))
    );
}

/// A two-byte H.265 unit of the given type and temporal id, behind its length.
fn unit(unit_type: u8, temporal: u8) -> Vec<u8> {
    vec![2, unit_type << 1, temporal + 1]
}

fn survey(units: &[(i64, Vec<u8>)]) -> Survey {
    let mut survey = Survey::new(units.len(), 1).unwrap_or_else(|e| panic!("{e:?}"));
    for (pts, data) in units {
        survey.note(*pts, data);
    }
    survey
}

fn planned(units: &[(i64, Vec<u8>)], end: u64, cfg: &VideoConfig) -> Result<HevcPlan, HevcPlanError> {
    survey(units).build_plan(end, end, cfg)
}

#[test]
fn hevc_plan_leaves_out_what_cannot_or_need_not_be_decoded() {
    // Opens on a CRA with a RASL picture; the droppable pictures are at the top sub-layer.
    let units = vec![
        (200, unit(21, 0)),
        (100, unit(9, 0)),
        (300, unit(1, 0)),
        (250, unit(0, 1)),
        (400, unit(0, 1)),
        (500, unit(0, 0)),
    ];
    let plan = planned(&units, 600, &config(200)).unwrap_or_else(|e| panic!("{e:?}"));
    assert_eq!(plan.pts, vec![200, 100, 300, 250, 400, 500]);
    assert_eq!(plan.irap, vec![true, false, false, false, false, false]);
    assert_eq!(plan.rasl, vec![false, true, false, false, false, false]);
    // 400 is selected, 250 is not; the last one is of a lower sub-layer.
    assert_eq!(
        plan.selections.iter().map(|s| s.pts).collect::<Vec<_>>(),
        vec![100, 200, 400]
    );
    assert_eq!(plan.skippable, vec![false, true, false, true, false, false]);
    assert_eq!((plan.total_epochs, plan.duration_ms), (3, 600));
    let mut keep_all = config(200);
    keep_all.skip_nonref = false;
    let plan = planned(&units, 600, &keep_all).unwrap_or_else(|e| panic!("{e:?}"));
    assert_eq!(plan.skippable, vec![false, true, false, false, false, false]);
    assert_eq!(
        chunk_expected(&plan, &list_all(6), 600),
        vec![200, 250, 300, 400, 500]
    );
}

#[test]
fn every_fault_of_an_hevc_plan_is_named() {
    assert_eq!(
        Survey::new(PLAN_BUDGET_BYTES, 1).err(),
        Some(HevcPlanError::TooManySamples)
    );
    let cfg = config(200);
    assert_eq!(planned(&[], 600, &cfg).err(), Some(HevcPlanError::NothingPresented));
    assert_eq!(
        planned(&[(-1, unit(1, 0))], 600, &cfg).err(),
        Some(HevcPlanError::NothingPresented)
    );
    assert_eq!(
        planned(&[(5, unit(1, 0)), (5, unit(1, 0))], 600, &cfg).err(),
        Some(HevcPlanError::DuplicateTimes)
    );
    assert_eq!(
        survey(&[(5, unit(1, 0))]).build_plan(600, 0, &cfg).err(),
        Some(HevcPlanError::EpochsUncovered)
    );
}

#[test]
fn hevc_clip_is_shared_out_where_the_chunks_allow_it() {
    let units: Vec<(i64, Vec<u8>)> = (0..6)
        .map(|i| (i * 100, if i % 3 == 0 { unit(19, 0) } else { unit(1, 0) }))
        .collect();
    let plan = planned(&units, 600, &config(100)).unwrap_or_else(|e| panic!("{e:?}"));
    let layout = lay_out(&plan, 600, 2, &parallel(4));
    assert_eq!(layout.single, None);
    assert_eq!(layout.chunks.len(), 2);
    assert_eq!(list_units(&layout.chunks[0]), vec![0, 1, 2, 3]);
    assert_eq!(list_units(&layout.chunks[1]), vec![3, 4, 5]);
    // The first chunk decodes the next IRAP picture too, but does not serve with it.
    assert_eq!(layout.expected, vec![vec![0, 100, 200, 300], vec![300, 400, 500]]);
    assert_eq!(layout.selected, vec![0..3, 3..6]);
    assert_eq!((layout.chunk_bytes, layout.window, layout.workers), (144, 5, 2));
    // Tensors beyond what a machine word can count leave no room for a second chunk.
    let huge = lay_out(&plan, 600, usize::MAX, &parallel(4));
    assert_eq!((huge.chunk_bytes, huge.window), (usize::MAX, 1));
    assert_eq!(huge.single, Some(SingleReason::BudgetTooSmall));
    let single = |par: &ParallelConfig| lay_out(&plan, 600, 2, par).single;
    assert_eq!(single(&parallel(1)), Some(SingleReason::FewWorkers));
    let long = ParallelConfig { chunk_target_ms: 5000, ..parallel(4) };
    assert_eq!(single(&long), Some(SingleReason::FewChunks));
    let small = ParallelConfig { buffer_bytes: 287, ..parallel(4) };
    assert_eq!(single(&small), Some(SingleReason::BudgetTooSmall));
    assert_eq!(SingleReason::FewChunks.reason(), "fewer than 2 IDR chunks");
}

#[test]
fn hevc_clip_whose_selected_picture_is_not_decoded_stays_with_one_decoder() {
    // The opening CRA's RASL picture is selected for the first epoch but cannot be decoded.
    let units = vec![
        (100, unit(21, 0)),
        (0, unit(9, 0)),
        (200, unit(1, 0)),
        (300, unit(19, 0)),
        (400, unit(1, 0)),
    ];
    let plan = planned(&units, 500, &config(100)).unwrap_or_else(|e| panic!("{e:?}"));
    let layout = lay_out(&plan, 500, 2, &parallel(4));
    assert_eq!(layout.single, Some(SingleReason::FewChunks));
    assert!(layout.chunks.is_empty());
}
