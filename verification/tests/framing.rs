//! Length-prefixed access units, parameter sets and what may be left undecoded.
use tenzor_pipe::avc_config::{
    all_announced, parameter_sets, prepare_unit, sets_unchanged, AvccError, AvccSets, StreamUnit,
    UnitError, UnitKind,
};
use tenzor_pipe::nal::NalError;
use tenzor_pipe::video::{avcc_to_annexb, is_disposable};
use tenzor_pipe::video_hevc::{
    classify, disposable_at, droppable_at, hvcc_parameter_sets, hvcc_to_annexb, nal_headers,
    HvccError, UnitHeader,
};
use tenzor_pipe::video_parallel::{
    annexb_parameter_sets, can_start_chunk, first_vcl_is_idr, plan_fits_budget, TruncatedAvcc, PLAN_BUDGET_BYTES,
    PLAN_BYTES_PER_SAMPLE,
};

#[test]
fn converts_one_two_and_four_byte_lengths() {
    for size in [1usize, 2, 4] {
        let mut bytes = vec![0; size];
        bytes[size - 1] = 2;
        bytes.extend([0x65, 0x88]);
        assert_eq!(
            avcc_to_annexb(&bytes, size).unwrap(),
            vec![0, 0, 0, 1, 0x65, 0x88]
        );
    }
}

#[test]
fn rejects_truncated_zero_and_invalid_nals() {
    for bytes in [
        vec![],
        vec![0, 0],
        vec![0, 0, 0, 0],
        vec![0, 0, 0, 8, 0x65],
        vec![0, 0, 0, 1, 0x80],
    ] {
        assert!(avcc_to_annexb(&bytes, 4).is_err());
    }
}

#[test]
fn every_framing_fault_is_named() {
    assert_eq!(avcc_to_annexb(&[], 4), Err(NalError::EmptySample));
    assert_eq!(avcc_to_annexb(&[0, 0], 4), Err(NalError::TruncatedLength));
    assert_eq!(avcc_to_annexb(&[0, 0, 0, 0], 4), Err(NalError::BadPayload));
    assert_eq!(avcc_to_annexb(&[0, 0, 0, 8, 0x65], 4), Err(NalError::BadPayload));
    assert_eq!(avcc_to_annexb(&[0, 0, 0, 1, 0x80], 4), Err(NalError::BadHeader));
    assert_eq!(avcc_to_annexb(&[0, 0, 0, 1, 0x60], 4), Err(NalError::BadHeader));
    assert_eq!(hvcc_to_annexb(&[1, 0x02], 1), Err(NalError::TruncatedHeader));
    assert_eq!(
        hvcc_to_annexb(&[1, 0x02, 3, 0x02, 0x01, 0xAF], 1),
        Err(NalError::TruncatedHeader)
    );
    assert_eq!(hvcc_to_annexb(&[2, 0x02, 0x00], 1), Err(NalError::BadHeader));
}

#[test]
fn stored_units_come_back_behind_start_codes() {
    // Units of lengths 1, 3 and 2, each behind a two-byte length.
    let data = [0, 1, 0x65, 0, 3, 0x41, 1, 2, 0, 2, 0x06, 9];
    assert_eq!(
        avcc_to_annexb(&data, 2).unwrap(),
        vec![0, 0, 0, 1, 0x65, 0, 0, 0, 1, 0x41, 1, 2, 0, 0, 0, 1, 0x06, 9]
    );
}

#[test]
fn first_vcl_idr_detection() {
    // SEI(6) then IDR(5)
    let idr = [0, 0, 0, 2, 0x06, 0x00, 0, 0, 0, 2, 0x65, 0x88];
    assert!(first_vcl_is_idr(&idr, 4));
    // SEI then non-IDR slice(1)
    let p = [0, 0, 0, 2, 0x06, 0x00, 0, 0, 0, 2, 0x41, 0x88];
    assert!(!first_vcl_is_idr(&p, 4));
    assert!(!first_vcl_is_idr(&[0, 0, 0, 9, 0x65], 4));
    assert!(!first_vcl_is_idr(&[1, 0x65, 1, 0x41], 1));
    assert!(!first_vcl_is_idr(&[1, 0xe5], 1));
    assert!(!first_vcl_is_idr(&[1, 0x65, 0], 1));
}

#[test]
fn idr_detection_wants_a_valid_length_size_and_an_idr_slice() {
    assert!(!first_vcl_is_idr(&[1, 0x65], 0));
    assert!(!first_vcl_is_idr(&[0, 0, 0, 0, 1, 0x65], 5));
    assert!(!first_vcl_is_idr(&[], 4));
    assert!(can_start_chunk(true, &[1, 0x65], 1));
    assert!(!can_start_chunk(false, &[1, 0x65], 1));
    assert!(!can_start_chunk(true, &[1, 0x41], 1));
    assert!(!first_vcl_is_idr(&[1, 0x06], 1));
    assert!(first_vcl_is_idr(&[0, 0, 1, 0x65], 3));
    // Auxiliary slices count as other coded data.
    assert!(!first_vcl_is_idr(&[1, 0x65, 1, 0x33], 1));
}

#[test]
fn only_unreferenced_slices_and_side_units_may_be_dropped() {
    // A slice with nal_ref_idc 0, alone and with SEI, delimiter and filler.
    assert!(is_disposable(&[1, 0x01], 1));
    assert!(is_disposable(&[1, 0x09, 1, 0x06, 1, 0x01, 1, 0x0c], 1));
    // Referenced slice, IDR slice, parameter sets, data partition, end of sequence.
    for header in [0x21, 0x41, 0x65, 0x67, 0x68, 0x02, 0x0a] {
        assert!(!is_disposable(&[1, 0x01, 1, header], 1), "{header}");
    }
    // No slice, malformed, bad length size.
    assert!(!is_disposable(&[1, 0x06], 1));
    assert!(!is_disposable(&[1, 0x01, 9], 1));
    assert!(!is_disposable(&[1, 0x01], 0));
    assert!(!is_disposable(&[], 4));
    // What may start a chunk is never dropped.
    let idr = [1, 0x65];
    assert!(first_vcl_is_idr(&idr, 1) && !is_disposable(&idr, 1));
}

#[test]
fn planning_cap_rejects_excess_and_overflow_before_allocation() {
    assert!(plan_fits_budget(PLAN_BUDGET_BYTES / PLAN_BYTES_PER_SAMPLE));
    assert!(!plan_fits_budget(
        PLAN_BUDGET_BYTES / PLAN_BYTES_PER_SAMPLE + 1
    ));
    assert!(!plan_fits_budget(usize::MAX));
}

fn avcc(count: u8, sps: &[&[u8]], pps: &[&[u8]]) -> Vec<u8> {
    let mut raw = vec![1, 66, 0, 10, 0xff, count];
    for set in sps {
        raw.extend((set.len() as u16).to_be_bytes());
        raw.extend_from_slice(set);
    }
    raw.push(pps.len() as u8);
    for set in pps {
        raw.extend((set.len() as u16).to_be_bytes());
        raw.extend_from_slice(set);
    }
    raw
}

#[test]
fn avcc_record_gives_its_sets_back_as_annexb() {
    let raw = avcc(0xe1, &[&[0x67, 1, 2]], &[&[0x68, 3], &[0x68]]);
    assert_eq!(
        annexb_parameter_sets(&raw).unwrap(),
        vec![0, 0, 0, 1, 0x67, 1, 2, 0, 0, 0, 1, 0x68, 3, 0, 0, 0, 1, 0x68]
    );
    for cut in 0..raw.len() {
        assert_eq!(annexb_parameter_sets(&raw[..cut]), Err(TruncatedAvcc));
    }
}

#[test]
fn avcc_record_is_read_without_escapes() {
    let raw = avcc(0xe1, &[&[0x67, 0, 0, 3, 1]], &[&[0x68, 9]]);
    let sets = parameter_sets(&raw).unwrap_or_else(|e| panic!("{e:?}"));
    assert_eq!(sets.length_size, 4);
    assert_eq!(sets.sps, vec![vec![0, 0, 1]]);
    assert_eq!(sets.pps, vec![vec![9]]);
    // A set with its forbidden bit set, or without a byte, is no set.
    let raw = avcc(0xe1, &[&[0xe7, 1]], &[&[0x68, 9]]);
    assert!(matches!(parameter_sets(&raw), Err(AvccError::MissingSets)));
    let raw = avcc(0xe1, &[&[0x67, 1]], &[&[]]);
    assert!(matches!(parameter_sets(&raw), Err(AvccError::MissingSets)));
    // Another version, a length size of three, a truncated record.
    let mut raw = avcc(0xe1, &[&[0x67, 1]], &[&[0x68, 9]]);
    raw[0] = 2;
    assert!(matches!(parameter_sets(&raw), Err(AvccError::Unreadable)));
    raw[0] = 1;
    raw[4] = 0xfe;
    assert!(matches!(parameter_sets(&raw), Err(AvccError::Unreadable)));
    raw[4] = 0xff;
    raw.pop();
    assert!(matches!(parameter_sets(&raw), Err(AvccError::Unreadable)));
}

#[test]
fn midstream_parameter_sets_must_be_the_announced_ones() {
    let sets = AvccSets { length_size: 1, sps: vec![vec![0, 0, 1]], pps: vec![vec![9]] };
    // The same payload, escaped in the stream.
    let same = [5, 0x67, 0, 0, 3, 1, 2, 0x68, 9, 1, 0x65];
    assert!(sets_unchanged(&same, &sets));
    assert_eq!(
        prepare_unit(&same, &sets).unwrap(),
        vec![0, 0, 0, 1, 0x67, 0, 0, 3, 1, 0, 0, 0, 1, 0x68, 9, 0, 0, 0, 1, 0x65]
    );
    let other = [2, 0x68, 8, 1, 0x65];
    assert!(!sets_unchanged(&other, &sets));
    assert_eq!(prepare_unit(&other, &sets), Err(UnitError::SetsChanged));
    assert_eq!(
        prepare_unit(&[9, 0x65], &sets),
        Err(UnitError::Malformed(NalError::BadPayload))
    );
    let unit = |kind, byte| StreamUnit { kind, rbsp: vec![byte] };
    assert!(all_announced(&vec![unit(UnitKind::Pps, 9), unit(UnitKind::Other, 7)], &sets));
    assert!(!all_announced(&vec![unit(UnitKind::Sps, 9)], &sets));
}

#[test]
fn hvcc_parameter_sets_reads_every_array() {
    // version 1, 21 fixed bytes, length size 4, two arrays of one NAL each.
    let mut raw = vec![0u8; 22];
    raw[0] = 1;
    raw[21] = 0xF3; // reserved bits set, lengthSizeMinusOne = 3
    raw.push(2); // numOfArrays
    for payload in [[0x40u8, 0x01], [0x42, 0x01]] {
        raw.push(0x20);
        raw.extend_from_slice(&1u16.to_be_bytes());
        raw.extend_from_slice(&(payload.len() as u16).to_be_bytes());
        raw.extend_from_slice(&payload);
    }
    let (sets, length_size) = hvcc_parameter_sets(&raw).unwrap();
    assert_eq!(length_size, 4);
    assert_eq!(sets, vec![0, 0, 0, 1, 0x40, 0x01, 0, 0, 0, 1, 0x42, 0x01]);
}

#[test]
fn hvcc_parameter_sets_rejects_malformed_records() {
    assert!(hvcc_parameter_sets(&[]).is_err());
    let mut raw = vec![0u8; 24];
    raw[0] = 2; // wrong configuration version
    assert!(hvcc_parameter_sets(&raw).is_err());
    let mut raw = vec![0u8; 24];
    raw[0] = 1;
    raw[21] = 0xF3;
    raw[22] = 1; // one array, but no array data follows
    assert!(hvcc_parameter_sets(&raw).is_err());
}

#[test]
fn every_hvcc_fault_is_named() {
    let record = |length_byte: u8, arrays: u8, rest: &[u8]| {
        let mut raw = vec![0u8; 22];
        raw[0] = 1;
        raw[21] = length_byte;
        raw.push(arrays);
        raw.extend_from_slice(rest);
        raw
    };
    assert_eq!(hvcc_parameter_sets(&[1; 23]), Err(HvccError::TruncatedRecord));
    let mut raw = record(3, 0, &[0]);
    raw[0] = 7;
    assert_eq!(hvcc_parameter_sets(&raw), Err(HvccError::UnsupportedVersion(7)));
    assert_eq!(
        hvcc_parameter_sets(&record(2, 0, &[0])),
        Err(HvccError::UnsupportedLengthSize(3))
    );
    assert_eq!(
        hvcc_parameter_sets(&record(3, 1, &[0, 0])),
        Err(HvccError::TruncatedArrayHeader)
    );
    assert_eq!(
        hvcc_parameter_sets(&record(3, 1, &[0, 0, 1, 0])),
        Err(HvccError::TruncatedLength)
    );
    assert_eq!(
        hvcc_parameter_sets(&record(3, 1, &[0, 0, 1, 0, 0])),
        Err(HvccError::TruncatedPayload)
    );
    assert_eq!(
        hvcc_parameter_sets(&record(3, 1, &[0, 0, 1, 0, 2, 9])),
        Err(HvccError::TruncatedPayload)
    );
    assert_eq!(
        hvcc_parameter_sets(&record(3, 1, &[0, 0, 0])),
        Err(HvccError::NoParameterSets)
    );
    for (byte, size) in [(0u8, 1usize), (1, 2), (3, 4)] {
        let (sets, length_size) =
            hvcc_parameter_sets(&record(byte, 1, &[0, 0, 1, 0, 1, 9])).unwrap();
        assert_eq!((sets, length_size), (vec![0, 0, 0, 1, 9], size));
    }
}

#[test]
fn annexb_conversion_rejects_invalid_nal_headers() {
    // Valid: type 1 (TRAIL_R), layer 0, temporal id 1.
    let good = [0, 0, 0, 3, 0x02, 0x01, 0xAF];
    assert_eq!(
        hvcc_to_annexb(&good, 4).unwrap(),
        vec![0, 0, 0, 1, 0x02, 0x01, 0xAF]
    );
    for bad in [
        vec![],                             // empty sample
        vec![0, 0, 0, 3, 0x82, 0x01, 0xAF], // forbidden_zero_bit set
        vec![0, 0, 0, 3, 0x03, 0x01, 0xAF], // nuh_layer_id != 0
        vec![0, 0, 0, 3, 0x02, 0x00, 0xAF], // temporal_id_plus1 == 0
        vec![0, 0, 0, 9, 0x02, 0x01],       // length past the end
        vec![0, 0, 0, 0],                   // zero-length NAL
    ] {
        assert!(hvcc_to_annexb(&bad, 4).is_err(), "{bad:?}");
    }
}

/// A two-byte H.265 unit of the given type, layer and temporal id, behind its length.
fn unit(unit_type: u8, layer: u8, temporal: u8) -> Vec<u8> {
    vec![2, (unit_type << 1) | (layer >> 5), (layer << 3) | (temporal + 1)]
}

#[test]
fn headers_are_read_up_to_the_first_malformed_unit() {
    let mut data = unit(33, 0, 0);
    data.extend(unit(1, 5, 2));
    data.extend([2, 0x82, 0x01]);
    data.extend(unit(1, 0, 0));
    assert_eq!(
        nal_headers(&data, 1),
        vec![
            UnitHeader { unit_type: 33, layer_id: 0, temporal_id: 0 },
            UnitHeader { unit_type: 1, layer_id: 5, temporal_id: 2 },
        ]
    );
    assert!(nal_headers(&data, 0).is_empty());
    assert!(nal_headers(&data, 5).is_empty());
    // A unit of one byte has no room for its header, whatever follows it.
    assert!(nal_headers(&[1, 0x02, 3, 0x02, 0x01, 0xAF], 1).is_empty());
}

#[test]
fn access_units_are_classified_by_their_slices() {
    let joined = |units: &[Vec<u8>]| units.concat();
    assert_eq!(classify(&unit(21, 0, 0), 1), (true, false));
    assert_eq!(classify(&unit(8, 0, 0), 1), (false, true));
    assert_eq!(classify(&unit(9, 0, 0), 1), (false, true));
    assert_eq!(classify(&unit(1, 0, 0), 1), (false, false));
    assert_eq!(classify(&joined(&[unit(39, 0, 0), unit(19, 0, 0)]), 1), (true, false));
    assert_eq!(classify(&joined(&[unit(19, 0, 0), unit(1, 0, 0)]), 1), (false, false));
    assert_eq!(classify(&joined(&[unit(19, 0, 0), unit(19, 1, 0)]), 1), (false, false));
    assert_eq!(classify(&unit(39, 0, 0), 1), (false, false));
    assert_eq!(classify(&[], 1), (false, false));
    // A malformed access unit never becomes a chunk boundary.
    assert_eq!(classify(&[2, 0x26, 0x01, 5, 0x02], 1), (false, false));
    assert_eq!(classify(&[2, 0x10, 0x01, 1, 0x10], 1), (false, false));
}

#[test]
fn only_top_layer_non_reference_pictures_may_be_dropped() {
    let joined = |units: &[Vec<u8>]| units.concat();
    assert!(disposable_at(&unit(0, 0, 2), 1, 2));
    assert!(!disposable_at(&unit(0, 0, 1), 1, 2));
    assert!(!disposable_at(&unit(1, 0, 2), 1, 2));
    assert!(!disposable_at(&unit(16, 0, 2), 1, 2));
    assert!(disposable_at(&joined(&[unit(35, 0, 0), unit(8, 0, 2), unit(40, 0, 0)]), 1, 2));
    assert!(!disposable_at(&joined(&[unit(33, 0, 0), unit(0, 0, 2)]), 1, 2));
    assert!(!disposable_at(&joined(&[unit(0, 3, 2)]), 1, 2));
    assert!(!disposable_at(&unit(39, 0, 2), 1, 2));
    assert!(!disposable_at(&[2, 0x00], 1, 2));
    assert!(!disposable_at(&unit(0, 0, 2), 7, 2));
    assert_eq!(droppable_at(&unit(0, 0, 2), 1), Some(2));
    assert_eq!(droppable_at(&unit(1, 0, 2), 1), None);
    // What may start a chunk is never dropped.
    assert!(classify(&unit(20, 0, 0), 1).0 && droppable_at(&unit(20, 0, 0), 1).is_none());
}
