//! Resizing, sound buffers, rows, metadata, timers and options.
use tenzor_pipe::audio::{
    check_wav, count_valid, duration_ms, keep_from, place_output, whole_frames, AudioError,
    AudioPlan, FrameBuffer, Priming, Reading, SourceWindow, WavError, WavHeader, HOP_LENGTH,
    INPUT_DRAIN_SAMPLES, N_FFT, SINC_PHASES, SINC_RADIUS, SINC_TAPS,
};
use tenzor_pipe::metrics::{Metrics, Stage, STAGES};
use tenzor_pipe::pipeline::{
    check_count, check_inputs, check_options, check_produced, choose_decoding, epoch_start_ms,
    video_workers, Decoding, OptionError, Options, RunError,
};
use tenzor_pipe::resize::{resize_planes, split_planes, Size, Yuv};
use tenzor_pipe::storage::{
    check_batch, schema_columns, schema_metadata, BatchAccumulator, ColumnKind, ShapeError,
    TenzorMetadata,
};
use tenzor_pipe::text::{comma_text, decimal_text};

#[test]
fn corners_show_corners() {
    let source = Size { width: 4, height: 4 };
    let y: Vec<u8> = (0..16).collect();
    let u: Vec<u8> = (100..104).collect();
    let v: Vec<u8> = (200..204).collect();
    let out = resize_planes(&y, &u, &v, source, Size { width: 2, height: 2 }).unwrap();
    assert_eq!(
        out,
        vec![
            Yuv { y: 0, u: 100, v: 200 },
            Yuv { y: 3, u: 101, v: 201 },
            Yuv { y: 12, u: 102, v: 202 },
            Yuv { y: 15, u: 103, v: 203 },
        ]
    );
    // The same size shows the same picture.
    let same = resize_planes(&y, &u, &v, source, source).unwrap();
    assert_eq!(same.iter().map(|p| p.y).collect::<Vec<_>>(), y);
    // One destination pixel shows the first.
    let one = resize_planes(&y, &u, &v, source, Size { width: 1, height: 1 }).unwrap();
    assert_eq!(one, vec![Yuv { y: 0, u: 100, v: 200 }]);
}

#[test]
fn padded_short_and_empty_planes_are_read_safely() {
    // Rows of four bytes for a picture two wide.
    let y = [1, 2, 0, 0, 3, 4, 0, 0];
    let source = Size { width: 2, height: 2 };
    let out = resize_planes(&y, &[7], &[8], source, source).unwrap();
    assert_eq!(out.iter().map(|p| p.y).collect::<Vec<_>>(), vec![1, 2, 3, 4]);
    // Missing samples are black and neutral.
    let out = resize_planes(&[1], &[], &[], source, source).unwrap();
    assert_eq!(out[0], Yuv { y: 1, u: 128, v: 128 });
    assert_eq!(out[3], Yuv { y: 16, u: 128, v: 128 });
    for empty in [Size { width: 0, height: 2 }, Size { width: 2, height: 0 }] {
        assert!(resize_planes(&y, &[], &[], empty, source).is_none());
        assert!(resize_planes(&y, &[], &[], source, empty).is_none());
    }
    assert_eq!(split_planes(6, source), Some((4, 1)));
    assert_eq!(split_planes(5, source), None);
    assert_eq!(split_planes(15 + 2 * 6, Size { width: 5, height: 3 }), Some((15, 6)));
}

#[test]
fn every_wav_header_is_accepted_or_refused_by_name() {
    let good = WavHeader { channels: 2, bits_per_sample: 16, samples: 20, duration: 10 };
    assert_eq!(check_wav(good), Ok(10));
    assert_eq!(check_wav(WavHeader { channels: 0, ..good }), Err(WavError::Channels));
    assert_eq!(check_wav(WavHeader { channels: 33, ..good }), Err(WavError::Channels));
    assert_eq!(check_wav(WavHeader { samples: 21, ..good }), Err(WavError::IncompleteFrame));
    assert_eq!(check_wav(WavHeader { bits_per_sample: 0, ..good }), Err(WavError::Depth));
    assert_eq!(check_wav(WavHeader { bits_per_sample: 33, ..good }), Err(WavError::Depth));
    assert_eq!(
        check_wav(WavHeader { samples: 0, duration: 0, ..good }),
        Err(WavError::Empty)
    );
    assert_eq!(whole_frames(12, 6), Some(2));
    assert_eq!(whole_frames(13, 6), None);
}

#[test]
fn output_samples_are_placed_on_the_source() {
    let plan = AudioPlan::new(48_000, 48_000, 100).unwrap();
    assert_eq!(plan.total, 16_100);
    assert_eq!(place_output(&plan, 99), None);
    assert_eq!(place_output(&plan, 100), Some(Reading { center: 0, phase: 0 }));
    assert_eq!(place_output(&plan, 101), Some(Reading { center: 3, phase: 0 }));
    assert_eq!(place_output(&plan, 16_099), Some(Reading { center: 47_997, phase: 0 }));
    assert_eq!(place_output(&plan, 16_100), None);
    // Every place agrees with the fraction it stands for.
    let plan = AudioPlan::new(44_100, 44_100, 0).unwrap();
    for pos in 0..16_000 {
        let at = place_output(&plan, pos).unwrap();
        let source = pos as f64 * 44_100. / 16_000.;
        assert_eq!(at.center, source.floor() as u64);
        let phase = ((source.fract() * 1024.).round() as usize).min(SINC_PHASES - 1);
        assert_eq!(at.phase, phase, "output sample {pos}");
    }
    assert_eq!(AudioPlan::new(7_999, 10, 0), Err(AudioError::SampleRate));
    assert_eq!(AudioPlan::new(192_001, 10, 0), Err(AudioError::SampleRate));
    assert_eq!(AudioPlan::new(48_000, 2, 0), Err(AudioError::Empty));
    assert_eq!(duration_ms(16_000), 1000);
    assert_eq!(duration_ms(16_001), 1001);
    assert_eq!(duration_ms(0), 0);
}

#[test]
fn source_window_shows_the_whole_signal_and_stays_bounded() {
    let rate = 48_000u32;
    let signal: Vec<i32> = (0..4 * rate as i32).collect();
    let plan = AudioPlan::new(rate, signal.len(), 0).unwrap();
    let mut window: SourceWindow<i32> = SourceWindow::new(signal.len());
    let mut fed = 0;
    for pos in 0..plan.total {
        let at = place_output(&plan, pos).unwrap();
        while window.wants(at.center) {
            let end = (fed + 317).min(signal.len());
            window.feed(&signal[fed..end]);
            fed = end;
        }
        for tap in [0, 1, SINC_RADIUS, SINC_TAPS - 1] {
            let place = at.center as i64 + tap as i64 - SINC_RADIUS as i64;
            let expected = usize::try_from(place).ok().and_then(|p| signal.get(p).copied());
            assert_eq!(window.tap(at.center, tap), expected);
        }
        assert_eq!(window.center_sample(at.center), Some(at.center as i32));
        window.release(keep_from(at.center));
        assert!(window.held() < INPUT_DRAIN_SAMPLES + SINC_TAPS + 317);
    }
    assert_eq!(window.end(), Ok(()));
    let mut short: SourceWindow<i32> = SourceWindow::new(10);
    short.feed(&[1, 2, 3]);
    assert!(short.wants(0));
    assert_eq!(short.end(), Err(AudioError::EndedEarly { read: 3, declared: 10 }));
    assert!(!short.wants(0));
    // Nothing is read beyond the declared end.
    let mut long: SourceWindow<i32> = SourceWindow::new(2);
    long.feed(&[1, 2, 3]);
    assert_eq!(long.tap(2, SINC_RADIUS), None);
    assert_eq!(long.tap(1, SINC_RADIUS), Some(2));
}

#[test]
fn priming_is_dropped_wherever_chunks_are_cut() {
    let signal: Vec<u16> = (0..50).collect();
    for priming in [0usize, 1, 7, 10, 49, 50, 60] {
        for size in [1usize, 3, 10, 50] {
            let mut trim = Priming { left: priming };
            let mut out = Vec::new();
            for chunk in signal.chunks(size) {
                out.extend(trim.trim(chunk).unwrap_or_default());
            }
            assert_eq!(out, signal[priming.min(50)..].to_vec());
            assert_eq!(trim.left, priming.saturating_sub(50));
        }
    }
}

#[test]
fn valid_hops_are_those_that_start_inside() {
    assert_eq!(count_valid(0, 50, 80), 1);
    assert_eq!(count_valid(0, 50, 160), 1);
    assert_eq!(count_valid(0, 50, 161), 2);
    assert_eq!(count_valid(1, 50, 160), 0);
    assert_eq!(count_valid(0, 50, 0), 0);
    assert_eq!(count_valid(0, 50, 16_000), 50);
    assert_eq!(count_valid(50, 50, 16_000), 50);
    assert_eq!(count_valid(90, 50, 16_000), 10);
    assert_eq!(count_valid(0, 20, 3000) + count_valid(20, 30, 3000), count_valid(0, 50, 3000));
}

#[test]
fn windows_start_a_hop_apart() {
    let mut frames: FrameBuffer<usize> = FrameBuffer::new();
    let mut next = 0;
    for k in 0..5 {
        assert_eq!(frames.missing(), if k == 0 { N_FFT } else { HOP_LENGTH });
        while frames.missing() > 0 {
            frames.push(next);
            next += 1;
        }
        let window = frames.window();
        assert_eq!(window, (k * HOP_LENGTH..k * HOP_LENGTH + N_FFT).collect::<Vec<_>>());
    }
}

#[test]
fn rows_are_handed_over_as_they_came() {
    let mut batch: BatchAccumulator<f32> = BatchAccumulator::new(2, Some(3), 2);
    assert!(batch.is_empty() && !batch.is_full());
    assert_eq!(batch.push(0, Some(&[1., 2., 3.]), &[4., 5.], 9, 33), Ok(()));
    assert_eq!(batch.push(500, None, &[4.], 9, 33), Err(ShapeError::AudioRow));
    assert_eq!(batch.timestamps.len(), 1);
    assert_eq!(batch.push(500, Some(&[6., 7., 8.]), &[9., 10.], 8, 533), Ok(()));
    assert!(batch.is_full());
    let (timestamps, video, audio, valid, pts) = batch.drain();
    assert_eq!(timestamps, vec![0, 500]);
    assert_eq!(video, Some(vec![1., 2., 3., 6., 7., 8.]));
    assert_eq!(audio, vec![4., 5., 9., 10.]);
    assert_eq!((valid, pts), (vec![9, 8], vec![33, 533]));
    assert!(batch.is_empty());
    assert_eq!(batch.push(0, None, &[4., 5.], 9, 33), Err(ShapeError::MissingVideo));
    assert_eq!(batch.push(0, Some(&[1.]), &[4., 5.], 9, 33), Err(ShapeError::VideoRow));
    let mut sound: BatchAccumulator<f32> = BatchAccumulator::new(2, None, 1);
    assert_eq!(sound.push(0, Some(&[1.]), &[4.], 9, -1), Ok(()));
    assert_eq!(sound.drain().1, None);
    let mut epochs: BatchAccumulator<f32> = BatchAccumulator::new(2, Some(1), 1);
    assert_eq!(epochs.record(0, 500, Some((33, &[1.])), &[2.], 7), Ok(None));
    assert_eq!(epochs.record(1, 500, None, &[2.], 7), Err(ShapeError::MissingVideo));
    let mut epochs: BatchAccumulator<f32> = BatchAccumulator::new(2, None, 1);
    assert_eq!(epochs.record(0, 500, None, &[2.], 7), Ok(None));
    assert_eq!(
        epochs.record(1, 500, None, &[3.], 0),
        Ok(Some((vec![0, 500], None, vec![2., 3.], vec![7, 0], vec![-1, -1])))
    );
    assert_eq!(check_batch(2, 4, 2, 6, Some(3)), Ok(true));
    assert_eq!(check_batch(0, 4, 2, 6, Some(3)), Ok(false));
    assert_eq!(check_batch(2, 5, 2, 6, Some(3)), Err(ShapeError::AudioBatch));
    assert_eq!(check_batch(2, 4, 2, 0, Some(3)), Err(ShapeError::VideoBatch));
    assert_eq!(check_batch(2, 4, 2, 9, None), Ok(true));
}

#[test]
fn a_dataset_describes_itself() {
    let meta = TenzorMetadata {
        has_audio: true,
        video_matrix: "BT.709 limited".to_string(),
        window_ms: 500,
        video_shape: Some((3, 224, 224)),
        audio_shape: (50, 64),
    };
    let entries = schema_metadata(&meta);
    let value = |key: &str| entries.iter().find(|e| e.key == key).map(|e| e.value.as_str());
    assert_eq!(entries.len(), 19);
    assert_eq!(value("tenzor_version"), Some("0.3.0"));
    assert_eq!(value("window_ms"), Some("500"));
    assert_eq!(value("audio_shape"), Some("50,64"));
    assert_eq!(value("video_shape"), Some("3,224,224"));
    assert_eq!(value("has_audio"), Some("true"));
    assert_eq!(value("video_matrix"), Some("BT.709 limited"));
    assert_eq!(value("audio_log_floor"), Some("log10(power + 1e-10)"));
    assert!(schema_columns(&meta).iter().all(|c| !c.nullable));
    let columns: Vec<(&str, ColumnKind)> =
        schema_columns(&meta).iter().map(|c| (c.name, c.kind)).collect();
    assert_eq!(
        columns,
        vec![
            ("timestamp_ms", ColumnKind::Int64),
            ("audio_valid_frames", ColumnKind::Int64),
            ("video_timestamp_ms", ColumnKind::Int64),
            ("video_tensor", ColumnKind::Floats(3 * 224 * 224)),
            ("audio_mel_tensor", ColumnKind::Floats(3200)),
        ]
    );
    let mut sound = meta.clone();
    sound.video_shape = None;
    sound.has_audio = false;
    assert_eq!(schema_metadata(&sound).len(), 18);
    assert_eq!(schema_columns(&sound).len(), 3);
    assert_eq!(decimal_text(0), "0");
    assert_eq!(decimal_text(u64::MAX), "18446744073709551615");
    assert_eq!(comma_text(&vec![]), "");
    assert_eq!(comma_text(&vec![7, 10, 1234567890]), "7,10,1234567890");
}

#[test]
fn timers_count_only_where_they_are_on() {
    let mut off = Metrics::new(false);
    let started = off.start();
    assert!(started.is_none() && !off.enabled());
    off.end(Stage::VideoDecode, started);
    assert_eq!(off.nanos(Stage::VideoDecode), 0);
    let mut on = Metrics::new(true);
    let started = on.start();
    assert!(started.is_some());
    let before = std::time::Instant::now();
    while before.elapsed().as_micros() < 200 {}
    on.end(Stage::AudioMel, started);
    assert!(on.nanos(Stage::AudioMel) >= 200_000);
    assert_eq!(on.nanos(Stage::Setup), 0);
    on.end_excluding(Stage::Setup, started, u64::MAX);
    assert_eq!(on.nanos(Stage::Setup), 0);
    on.record(Stage::Setup, 10, 3);
    on.record(Stage::Setup, 5, 9);
    assert_eq!(on.nanos(Stage::Setup), 7);
    on.record(Stage::Setup, u64::MAX, 0);
    assert_eq!(on.nanos(Stage::Setup), 6);
    for place in 0..STAGES {
        assert_eq!(Stage::at(place).unwrap().place(), place);
    }
    assert_eq!(Stage::at(STAGES), None);
    assert_eq!(Stage::SendWait.name(), "worker_send_wait");
    assert_eq!(Stage::at(14).unwrap().name(), "audio_source_wait");
}

#[test]
fn every_option_is_accepted_or_refused_by_name() {
    let good = Options {
        decoder_threads: 0,
        threads_built: false,
        queue_mib: 4,
        queue_depth: 2,
        video_workers: None,
        chunk_target_ms: 2000,
        video_buffer_mib: 64,
        window_in_range: true,
        window_on_grid: true,
        window_hops: 50,
        resolution: 224,
        batch_epochs: 32,
    };
    assert_eq!(check_options(&good), Ok(()));
    let built = Options { threads_built: true, ..good };
    assert_eq!(check_options(&Options { decoder_threads: 4, ..built }), Ok(()));
    assert_eq!(
        check_options(&Options { decoder_threads: 4, video_workers: Some(1), ..built }),
        Ok(())
    );
    let refused = [
        (Options { decoder_threads: 3, ..built }, OptionError::DecoderThreads),
        (Options { decoder_threads: 2, ..good }, OptionError::ThreadsNotBuilt),
        (Options { queue_mib: 65, ..good }, OptionError::QueueMib),
        (Options { video_workers: Some(65), ..good }, OptionError::VideoWorkers),
        (Options { chunk_target_ms: 249, ..good }, OptionError::ChunkTarget),
        (Options { chunk_target_ms: 60_001, ..good }, OptionError::ChunkTarget),
        (Options { video_buffer_mib: 0, ..good }, OptionError::VideoBuffer),
        (Options { video_buffer_mib: 1025, ..good }, OptionError::VideoBuffer),
        (
            Options { decoder_threads: 2, video_workers: Some(0), ..built },
            OptionError::WorkersWithThreads,
        ),
        (Options { queue_depth: 0, ..good }, OptionError::QueueDepth),
        (Options { queue_depth: 5, ..good }, OptionError::QueueDepth),
        (Options { window_in_range: false, ..good }, OptionError::WindowRange),
        (Options { window_on_grid: false, ..good }, OptionError::WindowGrid),
        (Options { resolution: 31, ..good }, OptionError::Resolution),
        (Options { resolution: 1025, ..good }, OptionError::Resolution),
        (Options { batch_epochs: 0, ..good }, OptionError::BatchEpochs),
        (Options { batch_epochs: 1025, ..good }, OptionError::BatchEpochs),
        (Options { batch_epochs: 1024, ..good }, OptionError::BatchTooLarge),
    ];
    for (options, error) in refused {
        assert_eq!(check_options(&options), Err(error));
    }
    // The ceiling is exact: 1024 pixels and 50 hops make rows of 12595712 bytes.
    let large = Options { resolution: 1024, ..good };
    assert_eq!(check_options(&Options { batch_epochs: 21, ..large }), Ok(()));
    assert_eq!(
        check_options(&Options { batch_epochs: 22, ..large }),
        Err(OptionError::BatchTooLarge)
    );
}

#[test]
fn workers_are_chosen_from_the_request_and_the_machine() {
    assert_eq!(video_workers(None, 0, 8), 8);
    assert_eq!(video_workers(None, 0, 64), 16);
    assert_eq!(video_workers(None, 0, 0), 1);
    assert_eq!(video_workers(None, 2, 8), 1);
    assert_eq!(video_workers(Some(0), 0, 8), 8);
    assert_eq!(video_workers(Some(3), 0, 8), 3);
    assert_eq!(choose_decoding(true, 1), Decoding::Hevc);
    assert_eq!(choose_decoding(true, 8), Decoding::Hevc);
    assert_eq!(choose_decoding(false, 1), Decoding::AvcSingle);
    assert_eq!(choose_decoding(false, 2), Decoding::AvcParallel);
    assert_eq!(epoch_start_ms(7, 500), 3500);
    assert_eq!(check_inputs(false, true), Ok(()));
    assert_eq!(check_inputs(false, false), Err(RunError::NothingToRead));
    assert_eq!(check_count(3, 3), Ok(()));
    assert_eq!(check_count(2, 3), Err(RunError::WrongCount));
    assert_eq!(check_produced(0), Err(RunError::NoEpochs));
    assert_eq!(check_produced(1), Ok(()));
}
