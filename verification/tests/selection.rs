//! Which picture serves which epoch, and the lookahead that puts pictures in order.
use std::collections::VecDeque;
use tenzor_pipe::video::{epoch_end, PresentationTimes, MAX_REORDER};
use tenzor_pipe::video_parallel::{assign_epochs, Selection};

fn source(times: impl Iterator<Item = i64>) -> VecDeque<Result<i64, String>> {
    times.map(Ok).collect()
}

#[test]
fn selection_matches_legacy_midpoints_gaps_ties_and_tail() {
    for pts in [
        vec![0],
        vec![0, 1000, 2000],
        vec![0, 0, 33, 500, 501],
        vec![80, 117, 401, 1200, 1337],
    ] {
        for window in [50, 330, 500, 1000] {
            let total = 80;
            let mut legacy = Vec::new();
            for pair in pts.windows(2) {
                let midpoint = pair[0] + (pair[1] - pair[0]) / 2;
                while legacy.len() < total && (legacy.len() as u64 * window) as i64 <= midpoint {
                    legacy.push(pair[0]);
                }
            }
            legacy.resize(total, *pts.last().unwrap());
            let mut selected = Vec::new();
            for (i, &p) in pts.iter().enumerate() {
                let end = epoch_end(p, pts.get(i + 1).copied(), window, total);
                selected.resize(end, p);
            }
            assert_eq!(selected, legacy);
        }
    }
}

#[test]
fn presentation_lookahead_orders_b_frames_with_bounded_memory() {
    let input = (0..300).flat_map(|g| [g * 4, g * 4 + 3, g * 4 + 1, g * 4 + 2]);
    let mut pts = PresentationTimes::new(source(input));
    for expected in 0..1200 {
        assert_eq!(pts.next_pts().unwrap(), Some(expected));
        assert!(pts.pending() < MAX_REORDER);
    }
    assert_eq!(pts.next_pts().unwrap(), None);
}

#[test]
fn presentation_lookahead_rejects_excessive_reordering_and_parse_errors() {
    let mut pts = PresentationTimes::new(source((1..=70).chain([0])));
    let mut failed = false;
    for _ in 0..72 {
        if pts.next_pts().is_err() {
            failed = true;
            break;
        }
    }
    assert!(failed);
    let mut pts = PresentationTimes::new(VecDeque::from(vec![Ok(0), Err("bad sample")]));
    assert!(pts.next_pts().is_err());
}

#[test]
fn thirty_fps_selects_exactly_two_pictures_per_second() {
    let timestamps: Vec<i64> = (0..9900)
        .map(|i| (i as f64 * 1000. / 30.).round() as i64)
        .collect();
    let mut epoch = 0;
    let mut resized = 0;
    for (i, &pts) in timestamps.iter().enumerate() {
        let end = epoch_end(pts, timestamps.get(i + 1).copied(), 500, 660);
        if epoch < end {
            resized += 1;
            epoch = end;
        }
    }
    assert_eq!((epoch, resized), (660, 660));
}

#[test]
fn chunked_selection_matches_streaming_selection() {
    for window in [50, 330, 500, 1000] {
        let presented: Vec<i64> = (0..900)
            .map(|i| (i as f64 * 1000. / 30.).round() as i64)
            .collect();
        let total = 30_000usize.div_ceil(window as usize);
        let mut streaming = Vec::new();
        let mut epoch = 0;
        for (i, &p) in presented.iter().enumerate() {
            let end = epoch_end(p, presented.get(i + 1).copied(), window, total);
            while epoch < end {
                streaming.push(p);
                epoch += 1;
            }
        }
        let mut chunked = Vec::new();
        for s in assign_epochs(&presented, window, total) {
            chunked.extend(std::iter::repeat_n(s.pts, s.epochs.1 - s.epochs.0));
        }
        assert_eq!(chunked, streaming);
    }
}

#[test]
fn epoch_end_gives_ties_to_the_earlier_picture() {
    // Halfway between 0 and 1000 is 500: the epoch that starts there is the earlier one's.
    assert_eq!(epoch_end(0, Some(1000), 500, 10), 2);
    assert_eq!(epoch_end(0, Some(998), 500, 10), 1);
    assert_eq!(epoch_end(0, Some(1001), 500, 10), 2);
    assert_eq!(epoch_end(0, Some(100_000), 500, 10), 10);
    assert_eq!(epoch_end(700, None, 500, 10), 10);
    // Towards an earlier picture the midpoint rounds to the later one.
    assert_eq!(epoch_end(1001, Some(0), 500, 10), 2);
}

#[test]
fn assigned_epochs_follow_each_other_and_take_the_nearest_picture() {
    let selections = assign_epochs(&[0, 400, 900, 1600], 500, 5);
    assert_eq!(
        selections,
        vec![
            Selection { pts: 0, epochs: (0, 1) },
            Selection { pts: 400, epochs: (1, 2) },
            Selection { pts: 900, epochs: (2, 3) },
            Selection { pts: 1600, epochs: (3, 5) },
        ]
    );
    assert!(assign_epochs(&[], 500, 5).is_empty());
    assert!(assign_epochs(&[0, 10], 500, 0).is_empty());
}

#[test]
fn lookahead_holds_exactly_what_a_picture_may_be_overtaken_by() {
    // Overtaken by 33 pictures: in order. By 34: refused.
    let mut within = PresentationTimes::new(source((1..34).chain([0])));
    for expected in 0..34 {
        assert_eq!(within.next_pts().unwrap(), Some(expected));
    }
    assert_eq!(within.next_pts().unwrap(), None);
    let mut beyond = PresentationTimes::new(source((1..35).chain([0])));
    assert_eq!(beyond.next_pts().unwrap(), Some(1));
    assert!(beyond.next_pts().is_err());
}

#[test]
fn lookahead_keeps_equal_times() {
    let mut pts = PresentationTimes::new(source([5, 5, 1, 1].into_iter()));
    let mut out = Vec::new();
    while let Some(time) = pts.next_pts().unwrap() {
        out.push(time);
    }
    assert_eq!(out, vec![1, 1, 5, 5]);
}
