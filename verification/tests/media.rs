//! Movies, timelines, colours and audio tracks, read from real bytes.
use mp4io::{EditEntry, InputSample, TrackParams, Writer, WriterConfig};
use tenzor_pipe::audio::{
    check_aac, check_aac_config, check_continuous, AacError, AacExtensions, AacFacts, AacFormat,
};
use tenzor_pipe::avc_config::{check_sps, prepare_avc, SetupError, SpsFacts};
use tenzor_pipe::chunk_plan::{fall_back_on, Fallback};
use tenzor_pipe::color::{
    agree_on_color, resolve_color, ColorError, SignalledColor, UnitColor,
};
use tenzor_pipe::media::{
    find_video, movie_of, only_track, place_sample, read_movie, Codec, CodecConfig, ColourInfo,
    Edit, EntryShape, Movie, MovieError, Placement, PlayTime, SampleError, SampleInfo, SeveralTracks, Timeline,
    TimelineError, Track, TrackKind, UNIT_RATE_BITS,
};
use tenzor_pipe::video::{video_color, Color};
use tenzor_pipe::video_hevc::{
    self, check_hevc_sps, hevc_track, prepare_hevc, HevcSpsFacts, HvccError, VuiColor,
};

/// Bits, highest first.
struct Bits(Vec<bool>);

impl Bits {
    fn put(&mut self, value: u64, count: u32) {
        for i in (0..count).rev() {
            self.0.push(value >> i & 1 == 1);
        }
    }
    fn ue(&mut self, value: u64) {
        let bits = 64 - (value + 1).leading_zeros();
        self.put(0, bits - 1);
        self.put(value + 1, bits);
    }
    fn bytes(mut self) -> Vec<u8> {
        self.0.push(true);
        while self.0.len() % 8 != 0 {
            self.0.push(false);
        }
        self.0
            .chunks(8)
            .map(|c| c.iter().fold(0, |v, b| v << 1 | u8::from(*b)))
            .collect()
    }
}

/// An H.264 sequence parameter set for pictures of whole macroblocks, with its header byte.
fn avc_sps(width: u64, height: u64, colour: Option<(u64, u64, u64)>) -> Vec<u8> {
    let mut b = Bits(Vec::new());
    b.put(66, 8);
    b.put(0, 8);
    b.put(10, 8);
    b.ue(0); // id
    b.ue(0); // frame number bits
    b.ue(2); // order count type
    b.ue(1); // reference frames
    b.put(0, 1);
    b.ue(width / 16 - 1);
    b.ue(height / 16 - 1);
    b.put(1, 1); // frames only
    b.put(1, 1);
    b.put(0, 1); // no cropping
    match colour {
        None => b.put(0, 1),
        Some((matrix, transfer, full)) => {
            b.put(1, 1);
            b.put(0, 1); // aspect ratio
            b.put(0, 1); // overscan
            b.put(1, 1); // signal type
            b.put(5, 3);
            b.put(full, 1);
            b.put(1, 1);
            b.put(1, 8);
            b.put(transfer, 8);
            b.put(matrix, 8);
            b.put(0, 1); // chroma location
            b.put(0, 1); // timing
            b.put(0, 1); // NAL HRD
            b.put(0, 1); // VCL HRD
            b.put(0, 1);
            b.put(0, 1);
        }
    }
    let mut unit = vec![0x67];
    unit.extend(b.bytes());
    unit
}

fn avcc(sps: &[Vec<u8>]) -> Vec<u8> {
    let mut raw = vec![1, 66, 0, 10, 0xff, 0xe0 | sps.len() as u8];
    for set in sps {
        raw.extend((set.len() as u16).to_be_bytes());
        raw.extend(set);
    }
    raw.extend([1, 0, 2, 0x68, 0xce]);
    raw
}

/// An H.265 sequence parameter set, escaped, with its two header bytes.
fn hevc_sps(profile: u64, flags: u64, width: u64, height: u64) -> Vec<u8> {
    let mut b = Bits(Vec::new());
    b.put(0, 4);
    b.put(0, 3);
    b.put(1, 1);
    b.put(0, 3); // space and tier
    b.put(profile, 5);
    b.put(flags, 32);
    b.put(0b1001, 4); // progressive, frames only
    b.put(0, 44);
    b.put(93, 8);
    b.ue(0); // id
    b.ue(1); // 4:2:0
    b.ue(width);
    b.ue(height);
    b.put(0, 1); // no window
    b.ue(0);
    b.ue(0); // eight bits
    b.ue(4);
    b.put(1, 1);
    b.ue(0);
    b.ue(0);
    b.ue(0);
    b.ue(0);
    b.ue(1);
    b.ue(0);
    b.ue(2);
    b.ue(0);
    b.ue(0);
    b.put(0, 4); // lists, amp, sao, pcm
    b.ue(0);
    b.put(0, 5); // long term, mvp, smoothing, vui, extension
    let mut unit = vec![0x42, 0x01];
    let mut zeros = 0;
    for byte in b.bytes() {
        if zeros >= 2 && byte <= 3 {
            unit.push(3);
            zeros = 0;
        }
        unit.push(byte);
        zeros = if byte == 0 { zeros + 1 } else { 0 };
    }
    unit
}

fn hvcc(units: &[Vec<u8>]) -> Vec<u8> {
    let mut raw = vec![0u8; 22];
    raw[0] = 1;
    raw[21] = 0xf3;
    raw.push(units.len() as u8);
    for unit in units {
        raw.push(0x21);
        raw.extend([0, 1]);
        raw.extend((unit.len() as u16).to_be_bytes());
        raw.extend(unit);
    }
    raw
}

fn track(kind: TrackKind, codec: Codec, shape: EntryShape, config: CodecConfig) -> Track {
    Track {
        kind,
        timescale: 1000,
        duration: 500,
        edits: vec![],
        codecs: vec![codec],
        shape: Some(shape),
        config,
        samples: vec![],
    }
}

fn picture(codec: Codec, size: (u16, u16), colour: Option<ColourInfo>, config: CodecConfig) -> Movie {
    let shape = EntryShape::Video { width: size.0, height: size.1, colour };
    Movie { timescale: 600, tracks: vec![track(TrackKind::Video, codec, shape, config)] }
}

#[test]
fn a_written_movie_is_read_back() {
    let raw = avcc(&[avc_sps(32, 16, None)]);
    let mut writer = Writer::new(WriterConfig::default());
    let video = writer.add_track(
        TrackParams::video(mp4io::Codec::H264, 32, 16)
            .timescale(1000)
            .avc_config(raw.clone())
            .edit_list(vec![EditEntry { segment_duration: 80, media_time: 40, media_rate: 1.0 }]),
    );
    let sound = writer.add_track(
        TrackParams::audio(mp4io::Codec::Aac, 2, 44_100).aac_config(2, 44_100, 2, vec![0x12, 0x10]),
    );
    for (i, bytes) in [[0u8, 0, 0, 1, 0x65], [0, 0, 0, 1, 0x41]].iter().enumerate() {
        writer
            .write_sample(
                video,
                InputSample {
                    data: bytes,
                    duration: 40,
                    composition_offset: 40 * (i as i32),
                    is_sync: i == 0,
                },
            )
            .unwrap();
    }
    writer
        .write_sample(
            sound,
            InputSample { data: &[9, 9], duration: 1024, composition_offset: 0, is_sync: true },
        )
        .unwrap();
    let data = writer.finalize().unwrap();
    let Ok(movie) = read_movie(&data) else { panic!("a valid movie was refused") };
    assert_eq!(movie.timescale, 1000);
    assert_eq!(movie.tracks.len(), 2);
    let v = &movie.tracks[0];
    assert_eq!((v.kind, v.timescale, v.duration), (TrackKind::Video, 1000, 80));
    assert_eq!(v.codecs, vec![Codec::H264]);
    assert_eq!(v.edits, vec![Edit { segment_duration: 80, media_time: 40, rate_bits: UNIT_RATE_BITS }]);
    assert_eq!(v.shape, Some(EntryShape::Video { width: 32, height: 16, colour: None }));
    assert!(matches!(&v.config, CodecConfig::Avc(found) if *found == raw));
    let times: Vec<(u64, i32, bool, u32)> =
        v.samples.iter().map(|s| (s.dts, s.cts_offset, s.is_sync, s.duration)).collect();
    assert_eq!(times, vec![(0, 0, true, 40), (40, 40, false, 40)]);
    let second = place_sample(&v.samples, 1, data.len()).unwrap();
    assert_eq!(&data[second.start..second.end], &[0, 0, 0, 1, 0x41]);
    assert_eq!((second.cts, second.is_sync), (80, false));
    assert_eq!(
        Timeline::for_track(v, movie.timescale),
        Ok(Timeline { skip: 40, delay: 0, play: PlayTime::Segment(80) })
    );
    assert_eq!(only_track(&movie, TrackKind::Audio), Ok(Some(1)));
    assert_eq!(find_video(&movie, Codec::H264), Some(0));
    assert_eq!(hevc_track(&movie), None);
    assert_eq!(video_color(&movie), Ok(Color { bt709: false, full: false }));
    assert_eq!(
        check_aac(&movie.tracks[1]),
        Ok(AacFormat { sample_rate: 44_100, channels: 2 })
    );
    assert!(read_movie(&data[..data.len() / 2]).is_err());
    assert!(read_movie(b"not a movie at all").is_err());
}

#[test]
fn each_answer_of_the_parser_is_handed_on() {
    let mut writer = Writer::new(WriterConfig::default());
    writer.add_track(
        TrackParams::video(mp4io::Codec::H264, 32, 16)
            .timescale(600)
            .avc_config(avcc(&[avc_sps(32, 16, None)])),
    );
    let data = writer.finalize().unwrap();
    let Ok(movie) = movie_of(mp4io::Mp4::parse(&data)) else { panic!("an answer was dropped") };
    assert_eq!(movie.tracks.len(), 1);
    assert_eq!(movie.tracks[0].timescale, 600);
    assert!(matches!(
        movie_of(mp4io::Mp4::parse(&[])),
        Err(MovieError::Malformed(mp4io::Error::Missing("moov")))
    ));
}

/// A movie with one track of `count` one-byte samples.
fn many_samples(count: usize) -> Vec<u8> {
    let mut writer = Writer::new(WriterConfig::default());
    let sound = writer.add_track(
        TrackParams::audio(mp4io::Codec::Aac, 2, 44_100).aac_config(2, 44_100, 2, vec![0x12, 0x10]),
    );
    for _ in 0..count {
        writer
            .write_sample(
                sound,
                InputSample { data: &[9], duration: 1024, composition_offset: 0, is_sync: true },
            )
            .unwrap();
    }
    writer.finalize().unwrap()
}

#[test]
fn a_sample_index_over_its_ceiling_is_refused() {
    let Ok(movie) = read_movie(&many_samples(400_000)) else { panic!("a valid movie was refused") };
    assert_eq!(movie.tracks[0].samples.len(), 400_000);
    assert!(read_movie(&many_samples(600_000)).is_err());
}

/// Puts `extra` at the end of the first box that `path` leads to; each step of the path is a
/// box type and the bytes that stand before the first box inside it.
fn insert_box(data: &[u8], path: &[(&[u8; 4], usize)], extra: &[u8]) -> Vec<u8> {
    let Some(((kind, header), rest)) = path.split_first() else {
        let mut out = data.to_vec();
        out.extend_from_slice(extra);
        return out;
    };
    let mut out = Vec::new();
    let mut pos = 0;
    let mut done = false;
    while pos + 8 <= data.len() {
        let mut size = u32::from_be_bytes(data[pos..pos + 4].try_into().unwrap()) as usize;
        if size == 1 {
            size = u64::from_be_bytes(data[pos + 8..pos + 16].try_into().unwrap()) as usize;
        }
        let unit = &data[pos..pos + size];
        if !done && &unit[4..8] == *kind {
            done = true;
            let inner = insert_box(&unit[8 + header..], rest, extra);
            out.extend(((8 + header + inner.len()) as u32).to_be_bytes());
            out.extend(&unit[4..8 + header]);
            out.extend(inner);
        } else {
            out.extend(unit);
        }
        pos += size;
    }
    assert!(done);
    out
}

#[test]
fn container_colours_are_read() {
    let mut writer = Writer::new(WriterConfig::default());
    writer.add_track(
        TrackParams::video(mp4io::Codec::H264, 32, 16)
            .avc_config(avcc(&[avc_sps(32, 16, Some((2, 2, 0)))])),
    );
    let plain = writer.finalize().unwrap();
    let path: [(&[u8; 4], usize); 7] = [
        (b"moov", 0),
        (b"trak", 0),
        (b"mdia", 0),
        (b"minf", 0),
        (b"stbl", 0),
        (b"stsd", 8),
        (b"avc1", 78),
    ];
    let read = |colr: &[u8]| {
        let data = insert_box(&plain, &path, colr);
        let Ok(movie) = read_movie(&data) else { panic!("a valid movie was refused") };
        (movie.tracks[0].shape, video_color(&movie))
    };
    let nclx = [0, 0, 0, 19, b'c', b'o', b'l', b'r', b'n', b'c', b'l', b'x', 0, 1, 0, 13, 0, 1, 0x80];
    let colour = Some(ColourInfo::Nclx { matrix: 1, transfer: 13, full_range: true });
    assert_eq!(
        read(&nclx),
        (
            Some(EntryShape::Video { width: 32, height: 16, colour }),
            Ok(Color { bt709: true, full: true })
        )
    );
    let icc = [0, 0, 0, 13, b'c', b'o', b'l', b'r', b'p', b'r', b'o', b'f', 7];
    assert_eq!(read(&icc).1, Err(ColorError::UnsupportedColours));
}

#[test]
fn decoders_are_set_up_from_the_sample_entry() {
    let sps = avc_sps(32, 16, None);
    let movie = picture(Codec::H264, (32, 16), None, CodecConfig::Avc(avcc(&[sps.clone()])));
    let setup = prepare_avc(&movie.tracks[0]).unwrap_or_else(|e| panic!("{e:?}"));
    assert_eq!((setup.width, setup.height, setup.sets.length_size), (32, 16, 4));
    let mut stream = vec![0, 0, 0, 1];
    stream.extend(&sps);
    stream.extend([0, 0, 0, 1, 0x68, 0xce]);
    assert_eq!(setup.stream, stream);
    let refused = |config, shape| {
        let mut t = track(TrackKind::Video, Codec::H264, EntryShape::Other, config);
        t.shape = shape;
        (prepare_avc(&t).err(), prepare_hevc(&t).err())
    };
    let video = Some(EntryShape::Video { width: 32, height: 16, colour: None });
    let both = |e| (Some(e), Some(e));
    assert_eq!(refused(CodecConfig::Other, None), both(SetupError::MissingEntry));
    assert_eq!(refused(CodecConfig::Other, Some(EntryShape::Audio)), both(SetupError::NotVideo));
    assert_eq!(refused(CodecConfig::Other, video), both(SetupError::MissingConfig));
    assert_eq!(refused(CodecConfig::Avc(vec![]), video).0, Some(SetupError::Unreadable));
    assert_eq!(refused(CodecConfig::Avc(avcc(&[])), video).0, Some(SetupError::MissingSets));
    assert_eq!(
        refused(CodecConfig::Hevc(vec![]), video).1,
        Some(SetupError::Hvcc(HvccError::TruncatedRecord))
    );
    let movie = picture(Codec::H265, (32, 16), None, CodecConfig::Hevc(hvcc(&[vec![0x40, 0x01, 9]])));
    let setup = prepare_hevc(&movie.tracks[0]).unwrap_or_else(|e| panic!("{e:?}"));
    assert_eq!((setup.width, setup.height, setup.length_size), (32, 16, 4));
    assert_eq!(setup.stream, vec![0, 0, 0, 1, 0x40, 0x01, 9]);
    for (error, fallback) in [
        (SetupError::MissingEntry, Fallback::NoSampleEntry),
        (SetupError::NotVideo, Fallback::NoSampleEntry),
        (SetupError::MissingConfig, Fallback::NoAvcc),
        (SetupError::Unreadable, Fallback::AvccUnreadable),
        (SetupError::MissingSets, Fallback::NoParameterSets),
    ] {
        assert_eq!(fall_back_on(error), fallback);
    }
}

#[test]
fn tracks_are_selected_by_kind_and_codec() {
    let entry = EntryShape::Video { width: 8, height: 8, colour: None };
    let make = |kind, codec| track(kind, codec, entry, CodecConfig::Other);
    let movie = |tracks| Movie { timescale: 1, tracks };
    let two = movie(vec![
        make(TrackKind::Audio, Codec::H264),
        make(TrackKind::Video, Codec::H265),
        make(TrackKind::Video, Codec::H264),
    ]);
    assert_eq!(find_video(&two, Codec::H264), Some(2));
    assert_eq!(hevc_track(&two), Some(1));
    assert_eq!(find_video(&two, Codec::Aac), None);
    assert_eq!(only_track(&two, TrackKind::Video), Err(SeveralTracks));
    assert_eq!(only_track(&two, TrackKind::Audio), Ok(Some(0)));
    assert_eq!(only_track(&two, TrackKind::Other), Ok(None));
    let mut bare = make(TrackKind::Video, Codec::H264);
    bare.codecs.clear();
    assert_eq!(find_video(&movie(vec![bare]), Codec::H264), None);
}

#[test]
fn every_edit_list_is_accepted_or_refused_by_name() {
    let edit = |segment_duration, media_time| Edit {
        segment_duration,
        media_time,
        rate_bits: UNIT_RATE_BITS,
    };
    let line = |edits: Vec<Edit>| {
        let mut t = track(TrackKind::Video, Codec::H264, EntryShape::Other, CodecConfig::Other);
        t.edits = edits;
        Timeline::for_track(&t, 600)
    };
    let ok = |skip, delay, play| Ok(Timeline { skip, delay, play });
    assert_eq!(UNIT_RATE_BITS, 1f64.to_bits());
    assert_eq!(line(vec![]), ok(0, 0, PlayTime::ToEnd));
    assert_eq!(line(vec![edit(0, 7)]), ok(7, 0, PlayTime::ToEnd));
    assert_eq!(line(vec![edit(9, 7)]), ok(7, 0, PlayTime::Segment(9)));
    assert_eq!(line(vec![edit(5, -1), edit(9, 7)]), ok(7, 5, PlayTime::Segment(9)));
    assert_eq!(line(vec![edit(5, -1)]), Err(TimelineError::EmptyEdit));
    assert_eq!(line(vec![edit(9, 7), edit(5, -1)]), Err(TimelineError::EmptyEdit));
    assert_eq!(line(vec![edit(5, -1), edit(5, -1)]), Err(TimelineError::EmptyEdit));
    assert_eq!(line(vec![edit(9, -2)]), Err(TimelineError::InvalidMediaTime));
    assert_eq!(line(vec![edit(9, 7), edit(9, 7)]), Err(TimelineError::SeveralActiveEdits));
    assert_eq!(line(vec![edit(9, 7); 3]), Err(TimelineError::ComplexEdits));
    let slow = Edit { rate_bits: 0.5f64.to_bits(), ..edit(9, 7) };
    assert_eq!(line(vec![slow]), Err(TimelineError::NonUnitRate));
    let mut t = track(TrackKind::Video, Codec::H264, EntryShape::Other, CodecConfig::Other);
    assert_eq!(Timeline::for_track(&t, 0), Err(TimelineError::InvalidTimescale));
    t.codecs.push(Codec::H264);
    assert_eq!(Timeline::for_track(&t, 600), Err(TimelineError::SeveralDescriptions));
    t.timescale = 0;
    assert_eq!(Timeline::for_track(&t, 600), Err(TimelineError::InvalidTimescale));
}

#[test]
fn samples_are_placed_inside_the_file() {
    let info = |offset, size, dts, cts_offset| SampleInfo {
        offset,
        size,
        dts,
        duration: 1,
        cts_offset,
        is_sync: true,
    };
    let one = |s: SampleInfo| place_sample(&vec![s], 0, 100);
    assert_eq!(
        one(info(10, 90, 7, -9)),
        Ok(Placement { start: 10, end: 100, cts: -2, is_sync: true })
    );
    assert_eq!(one(info(10, 91, 7, 0)), Err(SampleError::Truncated));
    assert_eq!(one(info(u64::MAX, 1, 7, 0)), Err(SampleError::RangeOverflow));
    assert_eq!(one(info(0, 0, u64::MAX, 5)).map(|p| p.cts), Ok(i64::MAX));
    assert_eq!(one(info(0, 0, u64::MAX, -5)).map(|p| p.cts), Ok(i64::MAX - 5));
    assert_eq!(place_sample(&vec![], 0, 100), Err(SampleError::Missing));
}

#[test]
fn container_colours_prevail_but_must_not_contradict() {
    let signalled = |matrix, transfer, full| SignalledColor { matrix, transfer, full };
    let nclx = |matrix, transfer, full_range| Some(ColourInfo::Nclx { matrix, transfer, full_range });
    let color = |bt709, full| Ok(Color { bt709, full });
    assert_eq!(resolve_color(signalled(1, 1, true), None), color(true, true));
    assert_eq!(resolve_color(signalled(6, 6, false), None), color(false, false));
    assert_eq!(resolve_color(signalled(2, 2, true), nclx(1, 1, false)), color(true, false));
    assert_eq!(resolve_color(signalled(1, 9, true), nclx(2, 13, true)), color(true, true));
    assert_eq!(
        resolve_color(signalled(1, 1, true), nclx(6, 1, true)),
        Err(ColorError::ConflictingMatrix)
    );
    assert_eq!(
        resolve_color(signalled(1, 1, true), Some(ColourInfo::Other)),
        Err(ColorError::UnsupportedColours)
    );
    assert_eq!(
        resolve_color(signalled(9, 1, true), None),
        Err(ColorError::UnsupportedMatrix(9))
    );
    assert_eq!(
        resolve_color(signalled(1, 16, true), None),
        Err(ColorError::UnsupportedTransfer(16))
    );
    let is = |bt709| UnitColor::Is(Color { bt709, full: false });
    assert_eq!(agree_on_color(&vec![is(true), UnitColor::Silent, is(true)]), color(true, false));
    assert_eq!(agree_on_color(&vec![is(true), is(false)]), Err(ColorError::ChangingColors));
    assert_eq!(
        agree_on_color(&vec![UnitColor::Refused(ColorError::TooLarge), is(false)]),
        Err(ColorError::TooLarge)
    );
    assert_eq!(agree_on_color(&vec![UnitColor::Silent]), Err(ColorError::MissingSps));
    assert_eq!(Color { bt709: true, full: false }.description(), "BT.709 limited");
    assert_eq!(Color { bt709: false, full: true }.description(), "BT.601 full");
}

#[test]
fn every_h264_parameter_set_is_accepted_or_refused_by_name() {
    let good = SpsFacts {
        extra_luma_bits: 0,
        extra_chroma_bits: 0,
        chroma_format: 1,
        progressive: true,
        width: 32,
        height: 16,
        matrix: 1,
        transfer: 1,
        full_range: true,
    };
    let check = |facts| check_sps(Some(facts), 32, 16, None);
    assert_eq!(check(good), Ok(Color { bt709: true, full: true }));
    assert_eq!(check_sps(None, 32, 16, None), Err(ColorError::SpsUnreadable));
    for bad in [
        SpsFacts { extra_luma_bits: 2, ..good },
        SpsFacts { extra_chroma_bits: 2, ..good },
        SpsFacts { chroma_format: 2, ..good },
        SpsFacts { progressive: false, ..good },
    ] {
        assert_eq!(check(bad), Err(ColorError::UnsupportedFormat));
    }
    for bad in [
        SpsFacts { width: 0, ..good },
        SpsFacts { width: 4097, ..good },
        SpsFacts { height: 2161, ..good },
    ] {
        assert_eq!(check(bad), Err(ColorError::TooLarge));
    }
    assert_eq!(check(SpsFacts { width: 33, ..good }), Err(ColorError::DimensionsDisagree));
}

#[test]
fn h264_colours_are_read_from_the_avcc_record() {
    let movie = |sps: &[Vec<u8>], size, colour| {
        picture(Codec::H264, size, colour, CodecConfig::Avc(avcc(sps)))
    };
    let bt709 = avc_sps(32, 16, Some((1, 1, 1)));
    assert_eq!(
        video_color(&movie(&[bt709.clone()], (32, 16), None)),
        Ok(Color { bt709: true, full: true })
    );
    assert_eq!(
        video_color(&movie(&[avc_sps(32, 16, None), bt709.clone()], (32, 16), None)),
        Err(ColorError::ChangingColors)
    );
    assert_eq!(
        video_color(&movie(&[bt709], (64, 16), None)),
        Err(ColorError::DimensionsDisagree)
    );
    assert_eq!(video_color(&movie(&[], (32, 16), None)), Err(ColorError::MissingSps));
    assert_eq!(
        video_color(&movie(&[vec![0x67]], (32, 16), None)),
        Err(ColorError::SpsUnreadable)
    );
    assert_eq!(
        video_color(&picture(Codec::H264, (32, 16), None, CodecConfig::Avc(vec![]))),
        Err(ColorError::AvccUnreadable)
    );
    assert_eq!(
        video_color(&picture(Codec::H264, (32, 16), None, CodecConfig::Other)),
        Err(ColorError::MissingConfig)
    );
    assert_eq!(
        video_color(&picture(Codec::H265, (32, 16), None, CodecConfig::Other)),
        Err(ColorError::NoTrack)
    );
    let mut odd = picture(Codec::H264, (32, 16), None, CodecConfig::Other);
    odd.tracks[0].shape = Some(EntryShape::Audio);
    assert_eq!(video_color(&odd), Err(ColorError::MissingEntry));
}

#[test]
fn every_h265_parameter_set_is_accepted_or_refused_by_name() {
    let good = HevcSpsFacts {
        range_extension: false,
        multilayer_extension: false,
        three_d_extension: false,
        screen_content_extension: false,
        luma_bits: 8,
        chroma_bits: 8,
        profile: 1,
        compatibility: 0,
        interlaced: false,
        chroma_format: 1,
        width: 32,
        height: 16,
        vui: Some(VuiColor { matrix: 1, transfer: 0, full_range: true }),
    };
    let check = |facts| check_hevc_sps(Some(facts), 32, 16, None);
    assert_eq!(check(good), Ok(Color { bt709: true, full: true }));
    assert_eq!(check(HevcSpsFacts { vui: None, ..good }), Ok(Color { bt709: false, full: false }));
    assert_eq!(check_hevc_sps(None, 32, 16, None), Err(ColorError::SpsUnreadable));
    for bad in [
        HevcSpsFacts { range_extension: true, ..good },
        HevcSpsFacts { multilayer_extension: true, ..good },
        HevcSpsFacts { three_d_extension: true, ..good },
        HevcSpsFacts { screen_content_extension: true, ..good },
    ] {
        assert_eq!(check(bad), Err(ColorError::Extensions));
    }
    assert_eq!(
        check(HevcSpsFacts { luma_bits: 10, ..good }),
        Err(ColorError::BitDepth { luma: 10, chroma: 8 })
    );
    assert_eq!(check(HevcSpsFacts { profile: 3, ..good }), Err(ColorError::Profile(3)));
    // Main, signalled through the compatibility flags alone.
    assert!(check(HevcSpsFacts { profile: 0, compatibility: 1 << 30, ..good }).is_ok());
    assert_eq!(
        check(HevcSpsFacts { profile: 0, compatibility: !(1 << 30), ..good }),
        Err(ColorError::Profile(0))
    );
    // Main 10, Main Still Picture and the range extensions, though compatible with Main.
    for profile in [2, 3, 4] {
        assert_eq!(
            check(HevcSpsFacts { profile, compatibility: 0x7000_0000, ..good }),
            Err(ColorError::Profile(profile))
        );
    }
    assert_eq!(check(HevcSpsFacts { interlaced: true, ..good }), Err(ColorError::Interlaced));
    assert_eq!(
        check(HevcSpsFacts { chroma_format: 2, ..good }),
        Err(ColorError::ChromaFormat(2))
    );
    assert_eq!(check(HevcSpsFacts { height: 4000, ..good }), Err(ColorError::TooLarge));
    assert_eq!(check(HevcSpsFacts { height: 17, ..good }), Err(ColorError::DimensionsDisagree));
}

#[test]
fn h265_colours_are_read_from_the_hvcc_record() {
    let movie = |units: &[Vec<u8>]| {
        picture(Codec::H265, (32, 16), None, CodecConfig::Hevc(hvcc(units)))
    };
    let vps = vec![0x40, 0x01, 0x0c];
    let plain = Ok(Color { bt709: false, full: false });
    assert_eq!(
        video_hevc::video_color(&movie(&[vps.clone(), hevc_sps(1, 0x6000_0000, 32, 16)])),
        plain
    );
    assert_eq!(video_hevc::video_color(&movie(&[hevc_sps(0, 1 << 30, 32, 16)])), plain);
    assert_eq!(
        video_hevc::video_color(&movie(&[hevc_sps(4, 1 << 30, 32, 16)])),
        Err(ColorError::Profile(4))
    );
    assert_eq!(
        video_hevc::video_color(&movie(&[hevc_sps(1, 0, 64, 16)])),
        Err(ColorError::DimensionsDisagree)
    );
    assert_eq!(video_hevc::video_color(&movie(&[vps])), Err(ColorError::MissingSps));
    assert_eq!(
        video_hevc::video_color(&movie(&[vec![0x42, 0x01, 0xff]])),
        Err(ColorError::SpsUnreadable)
    );
    assert_eq!(
        video_hevc::video_color(&movie(&[vec![0xc2, 0x01, 0xff]])),
        Err(ColorError::HeaderUnreadable)
    );
    assert_eq!(
        video_hevc::video_color(&movie(&[])),
        Err(ColorError::Hvcc(HvccError::TruncatedRecord))
    );
    assert_eq!(
        video_hevc::video_color(&picture(Codec::H265, (32, 16), None, CodecConfig::Other)),
        Err(ColorError::MissingConfig)
    );
    assert_eq!(
        video_hevc::video_color(&picture(Codec::H264, (32, 16), None, CodecConfig::Other)),
        Err(ColorError::NoTrack)
    );
    let mut odd = picture(Codec::H265, (32, 16), None, CodecConfig::Other);
    odd.tracks[0].shape = None;
    assert_eq!(video_hevc::video_color(&odd), Err(ColorError::MissingEntry));
}

#[test]
fn every_aac_track_is_accepted_or_refused_by_name() {
    let aac = |raw: &[u8]| {
        track(TrackKind::Audio, Codec::Aac, EntryShape::Audio, CodecConfig::Aac(raw.to_vec()))
    };
    assert_eq!(
        check_aac(&aac(&[0x12, 0x10])),
        Ok(AacFormat { sample_rate: 44_100, channels: 2 })
    );
    assert_eq!(
        check_aac(&aac(&[0x11, 0x88])),
        Ok(AacFormat { sample_rate: 48_000, channels: 1 })
    );
    // HE-AAC v2, signalled explicitly.
    assert_eq!(
        check_aac(&aac(&[0xEB, 0x8A, 0x08, 0x00])),
        Err(AacError::NotLowComplexity)
    );
    assert_eq!(check_aac(&aac(&[])), Err(AacError::ConfigUnreadable));
    let mut other = aac(&[0x12, 0x10]);
    other.codecs = vec![Codec::Other];
    assert_eq!(check_aac(&other), Err(AacError::Codec));
    let mut other = aac(&[0x12, 0x10]);
    other.shape = Some(EntryShape::Other);
    assert_eq!(check_aac(&other), Err(AacError::MissingEntry));
    let mut other = aac(&[0x12, 0x10]);
    other.config = CodecConfig::Other;
    assert_eq!(check_aac(&other), Err(AacError::MissingConfig));
    let sample = |dts, cts_offset| SampleInfo {
        offset: 0,
        size: 1,
        dts,
        duration: 1024,
        cts_offset,
        is_sync: true,
    };
    let mut gap = aac(&[0x12, 0x10]);
    gap.samples = vec![sample(0, 0), sample(1025, 0)];
    assert_eq!(check_aac(&gap), Err(AacError::Discontinuous));
    assert!(check_continuous(&vec![sample(0, 0), sample(1024, 0), sample(2048, 0)]));
    assert!(!check_continuous(&vec![sample(0, 0), sample(1024, 1)]));
    assert!(!check_continuous(&vec![sample(1, 0)]));
    let facts = AacFacts { object_type: 2, sample_rate: 48_000, channels: 6 };
    let none = Some(None);
    assert_eq!(
        check_aac_config(Some(facts), none),
        Ok(AacFormat { sample_rate: 48_000, channels: 6 })
    );
    assert_eq!(
        check_aac_config(Some(AacFacts { channels: 7, ..facts }), none),
        Err(AacError::Channels)
    );
    assert_eq!(
        check_aac_config(Some(AacFacts { object_type: 5, ..facts }), none),
        Err(AacError::NotLowComplexity)
    );
    let extended = |sbr, ps| check_aac_config(Some(facts), Some(Some(AacExtensions { sbr, ps })));
    assert_eq!(extended(true, false), Err(AacError::NotLowComplexity));
    assert_eq!(extended(false, true), Err(AacError::NotLowComplexity));
    assert!(extended(false, false).is_ok());
    assert_eq!(check_aac_config(Some(facts), None), Err(AacError::ConfigUnreadable));
}
