use media_parser::boxes::{find_child, iter_boxes, make_box};
use media_parser::helpers::entries::{
    extract_avc_from_trak, find_first_video_trak, find_video_trak_by_id, parse_avcc_sps_pps,
    select_video_trak, TrackSelector,
};
use media_parser::helpers::frames::{
    analyze_frame_dependencies, find_min_start_for_frame, find_required_frames_for_target,
    parse_h264_nal_dependencies, DependencyTracker, H264FrameType,
};
use media_parser::helpers::moov::{
    next_probe, probe_range, scan_buffer, MoovBoxInfo, Probe, SearchStep,
};
use media_parser::helpers::runs::{slice_ctts_pairs, slice_stts_pairs};
use media_parser::helpers::tables::{
    extract_sync_samples, language_from_mdhd, moov_payload, stsd_entry_types, track_id_from_tkhd,
    TrackTables,
};
use media_parser::helpers::timing::{
    build_timestamps, enumerate_samples, get_samples_in_chunk, select_samples_by_time,
    SelectionError,
};
use media_parser::helpers::{Mp4Box, Mp4Nav};
use media_parser::mp4_writer::movie::{build_moov_video, VideoMoovParams};

#[test]
fn stsd_entry_types_parses_entries() {
    // version+flags (4) + entry_count (4)
    // entry1: size(8) type tx3g
    // entry2: size(8) type wvtt
    let mut stsd = vec![0u8; 8];
    stsd[4..8].copy_from_slice(&u32::to_be_bytes(2));
    stsd.extend_from_slice(&u32::to_be_bytes(8));
    stsd.extend_from_slice(b"tx3g");
    stsd.extend_from_slice(&u32::to_be_bytes(8));
    stsd.extend_from_slice(b"wvtt");
    let types = stsd_entry_types(&stsd);
    assert_eq!(types.len(), 2);
    assert_eq!(&types[0], b"tx3g");
    assert_eq!(&types[1], b"wvtt");
}

#[test]
fn co64_64bit_offsets_are_extracted() {
    // co64 payload: version+flags, count=2, then two u64 offsets: 100, 200
    let mut co64 = vec![0u8; 8];
    co64[4..8].copy_from_slice(&u32::to_be_bytes(2));
    co64.extend_from_slice(&u64::to_be_bytes(100));
    co64.extend_from_slice(&u64::to_be_bytes(200));
    let offs = co64.extract_u64_array64();
    assert_eq!(offs, vec![100u64, 200u64]);
}

#[test]
fn enumerate_samples_builds_offsets_and_times() {
    let tables = TrackTables {
        timescale: 1000,
        sizes: vec![10, 20],
        offsets: vec![100, 200],
        timing: vec![(2, 500)], // two samples of 500 each
        stsc: vec![(1, 1)],     // 1 sample per chunk
        ctts: None,
    };
    let seconds = |ticks: f64| ticks / f64::from(tables.timescale);
    let s = enumerate_samples(&tables);
    assert_eq!(s.len(), 2);
    assert_eq!(s[0].index, 0);
    assert_eq!(s[0].offset, 100);
    assert_eq!(s[0].size, 10);
    assert!((seconds(s[0].start as f64) - 0.0).abs() < 1e-9);
    assert!((seconds(s[0].duration as f64) - 0.5).abs() < 1e-9);
    assert_eq!(s[1].index, 1);
    assert_eq!(s[1].offset, 200);
    assert_eq!(s[1].size, 20);
    assert!((seconds(s[1].start as f64) - 0.5).abs() < 1e-9);
    assert!((seconds(s[1].duration as f64) - 0.5).abs() < 1e-9);
}

#[test]
fn tkhd_and_mdhd_helpers_work() {
    // tkhd v0 with track id at offset 12
    let mut tkhd = vec![0u8; 16];
    tkhd[0] = 0; // version
    tkhd[12..16].copy_from_slice(&u32::to_be_bytes(42));
    assert_eq!(track_id_from_tkhd(&tkhd), Some(42));

    // mdhd with 'eng' language
    let mut mdhd = vec![0u8; 22];
    mdhd[20..22].copy_from_slice(&u16::to_be_bytes(0x15C7));
    assert_eq!(language_from_mdhd(&mdhd), Some("eng".to_string()));
}

fn box_with(typ: &[u8; 4], payload: &[u8]) -> Vec<u8> {
    let mut out = Vec::with_capacity(8 + payload.len());
    out.extend_from_slice(&u32::to_be_bytes((8 + payload.len()) as u32));
    out.extend_from_slice(typ);
    out.extend_from_slice(payload);
    out
}

#[test]
fn extract_sync_samples_reads_entries() {
    // Build a minimal stss payload: version+flags (4) + count (4) + entries
    let mut stss_payload = vec![0u8; 8];
    stss_payload[4..8].copy_from_slice(&u32::to_be_bytes(3));
    stss_payload.extend_from_slice(&u32::to_be_bytes(1));
    stss_payload.extend_from_slice(&u32::to_be_bytes(5));
    stss_payload.extend_from_slice(&u32::to_be_bytes(9));

    // Wrap into a box chain: stss under mdia->minf->stbl
    let stss_box = box_with(&Mp4Box::Stss.bytes(), &stss_payload);
    let stbl = box_with(&Mp4Box::Stbl.bytes(), &stss_box);
    let minf = box_with(&Mp4Box::Minf.bytes(), &stbl);
    let mdia = box_with(&Mp4Box::Mdia.bytes(), &minf);
    let trak = box_with(&Mp4Box::Trak.bytes(), &mdia);
    // Our navigation helpers expect a box payload slice (not including the
    // 8-byte size+type header). Pass only the trak payload here.
    let entries = extract_sync_samples(&trak[8..]);
    assert_eq!(entries, vec![1, 5, 9]);
}

/// Seconds in ticks of a thousandth, as a caller converts them.
fn ticks(seconds: f64) -> u64 {
    (seconds * 1000.0).floor() as u64
}

#[test]
fn sample_selection_aligns_to_keyframe_and_truncates_end() {
    // timescale 1000, 10 samples of 1s
    let timing = vec![(10, 1000)];
    // keyframes at samples 1 and 6 (1-based) => indices 0 and 5
    let stss = vec![1u32, 6u32];

    // request [2.5, 3.2) => nominal around sample 2/3
    let sel = select_samples_by_time(&timing, Some(&stss), ticks(2.5), ticks(3.2)).unwrap();
    // Should align to previous keyframe at index 0
    assert_eq!(sel.start_index, 0);
    // end should include samples with start < 3.2 => indices 0..=3
    assert_eq!(sel.end_index, 3);
    assert!((sel.adjusted_start as f64 / 1000.0 - 0.0).abs() < 1e-9);
    assert!((sel.adjusted_end as f64 / 1000.0 - 4.0).abs() < 1e-9);
}

#[test]
fn sample_selection_without_stss_starts_at_time_bucket() {
    let timing = vec![(5, 1000)]; // 5 samples of 1s
    // No stss provided
    let sel = select_samples_by_time(&timing, None, ticks(1.1), ticks(2.4)).unwrap();
    // Starts in sample 1 (index 1)
    assert_eq!(sel.start_index, 1);
    // Includes samples starting before 2.4 => indices 1..=2
    assert_eq!(sel.end_index, 2);
    assert!((sel.adjusted_start as f64 / 1000.0 - 1.0).abs() < 1e-9);
    assert!((sel.adjusted_end as f64 / 1000.0 - 3.0).abs() < 1e-9);
}

#[test]
fn sample_selection_rejects_invalid_ranges() {
    let timing = vec![(2, 1000)];
    assert!(select_samples_by_time(&timing, None, ticks(1.0), ticks(1.0)).is_err());
    assert!(select_samples_by_time(&timing, None, ticks(2.0), ticks(1.0)).is_err());
}

#[test]
fn a_range_ends_behind_its_start() {
    let timing = [(10, 1)];
    for (start, end) in [(5, 3), (5, 5), (1, 1)] {
        assert_eq!(
            select_samples_by_time(&timing, Some(&[1]), start, end),
            Err(SelectionError::InvalidRange)
        );
        assert_eq!(
            select_samples_by_time(&[], None, start, end),
            Err(SelectionError::InvalidRange)
        );
    }
    assert_eq!(
        select_samples_by_time(&timing, Some(&[1]), 5, 0),
        Err(SelectionError::EmptySelection)
    );
    assert!(select_samples_by_time(&timing, Some(&[1]), 5, 6).is_ok());
}

#[test]
fn sample_selection_needs_samples_and_an_end() {
    assert_eq!(select_samples_by_time(&[], None, 0, 1), Err(SelectionError::NoSamples));
    assert_eq!(select_samples_by_time(&[(0, 5)], None, 0, 1), Err(SelectionError::NoSamples));
    assert_eq!(
        select_samples_by_time(&[(2, 5)], None, 0, 0),
        Err(SelectionError::EmptySelection)
    );
    assert_eq!(SelectionError::InvalidRange.message(), "invalid time range");
}

#[test]
fn slice_stts_pairs_basic_slices_and_merges() {
    let pairs = vec![(3, 1000), (2, 500), (1, 500)]; // total 6 samples
    // take middle 4 samples: indexes [1..5)
    let out = slice_stts_pairs(&pairs, 1, 5);
    // Expected: from first run, take 2 with delta 1000; then full second run (2 x 500);
    // third run excluded.
    assert_eq!(out, vec![(2, 1000), (2, 500)]);
}

#[test]
fn slices_merge_runs_of_one_value() {
    assert_eq!(slice_stts_pairs(&[(3, 1000), (2, 500), (1, 500)], 0, 6), vec![(3, 1000), (3, 500)]);
    assert_eq!(slice_ctts_pairs(&[(2, -5), (2, 7)], 1, 3), vec![(1, -5), (1, 7)]);
    assert!(slice_stts_pairs(&[(3, 1000)], 2, 2).is_empty());
}

#[test]
fn timestamps_add_up() {
    assert_eq!(build_timestamps(&[(2, 10), (1, 5)]), vec![(0, 10), (10, 10), (20, 5)]);
    assert_eq!(get_samples_in_chunk(2, &[(1, 3), (3, 7)]), 3);
    assert_eq!(get_samples_in_chunk(9, &[(1, 3), (3, 7)]), 7);
    assert_eq!(get_samples_in_chunk(1, &[]), 1);
}

#[test]
fn boxes_are_found_by_type() {
    let mut data = make_box(b"free", &[1]);
    data.extend(make_box(b"moov", &[2, 3]));
    assert_eq!(find_child(&data, b"moov"), Some(&[2u8, 3][..]));
    assert_eq!(find_child(&data, b"mdat"), None);
    let mut it = iter_boxes(&data);
    assert_eq!(it.next(), Some((*b"free", &[1u8][..])));
    assert_eq!(it.next(), Some((*b"moov", &[2u8, 3][..])));
    assert_eq!(it.next(), None);
    assert_eq!(moov_payload(&data), &[2, 3]);
    assert_eq!(data.as_slice().nav(&[Mp4Box::Moov.bytes()]), Some(&[2u8, 3][..]));
}

fn video_moov() -> Vec<u8> {
    let stts = vec![(3u32, 1000u32)];
    let sizes = vec![10u32, 20, 30];
    let avcc = vec![1, 66, 0, 30, 0xff, 0xe1, 0, 2, 0x67, 0x42, 1, 0, 1, 0x68];
    build_moov_video(&VideoMoovParams {
        movie_timescale: None,
        track_timescale: 1000,
        stts_pairs: &stts,
        ctts_pairs: None,
        sample_sizes: &sizes,
        sync_samples_1based: None,
        track_id: 4,
        width: 320,
        height: 240,
        language: Some("eng"),
        mdat_base_offset: 0,
        avcc_payload: &avcc,
        edit_list: None,
    })
}

#[test]
fn video_tracks_are_selected() {
    let moov = video_moov();
    let payload = moov_payload(&moov);
    let trak = find_first_video_trak(payload).expect("a video track");
    assert_eq!(find_video_trak_by_id(payload, 4), Some(trak));
    assert_eq!(find_video_trak_by_id(payload, 5), None);
    assert_eq!(select_video_trak(payload, &TrackSelector::FirstVideo), Some(trak));
    assert_eq!(select_video_trak(payload, &TrackSelector::ById(5)), None);
    assert_eq!(
        select_video_trak(payload, &TrackSelector::ByCodec("avc1".to_string())),
        Some(trak)
    );
    assert_eq!(select_video_trak(payload, &TrackSelector::ByLanguage("spa".to_string())), None);
    let avc = extract_avc_from_trak(trak).expect("an H.264 entry");
    assert_eq!((avc.width, avc.height), (320, 240));
    assert_eq!(avc.sps, vec![0x67, 0x42]);
    assert_eq!(avc.pps, vec![0x68]);
    assert!(parse_avcc_sps_pps(&[1, 2]).is_none());
}

#[test]
fn the_moov_is_searched_at_both_ends() {
    let mut file = make_box(b"ftyp", &[0; 8]);
    let offset = file.len() as u64;
    file.extend(make_box(b"moov", &[0; 4]));
    let size = file.len() as u64;
    let expected = MoovBoxInfo { position: offset, size: 12 };
    assert_eq!(scan_buffer(&file, 0, size), Some(expected));
    assert_eq!(probe_range(size, Probe::Head), (0, file.len()));
    assert_eq!(next_probe(size, Probe::Head, &file), SearchStep::Found(expected));
    assert!(!matches!(next_probe(size, Probe::Head, &file[..8]), SearchStep::Found(_)));
}

#[test]
fn frames_depend_on_what_comes_behind_a_key_frame() {
    let deps = analyze_frame_dependencies(5, &[1, 4]);
    assert!(deps[0].is_sync && deps[3].is_sync);
    assert_eq!(find_min_start_for_frame(2, &deps), 0);
    assert_eq!(find_min_start_for_frame(4, &deps), 3);
    assert_eq!(find_required_frames_for_target(4, &deps), vec![3, 4]);
    assert!(H264FrameType::from_nal_type(5).is_keyframe());
    assert!(!H264FrameType::from_nal_type(1).is_keyframe());
}

#[test]
fn a_key_frame_is_told_by_its_units() {
    let (kind, _) = parse_h264_nal_dependencies(&[0, 0, 0, 2, 0x65, 0x88]);
    assert_eq!(kind, H264FrameType::IFrame);
    let mut tracker = DependencyTracker::new(&[1]);
    let first = tracker.next(&[0, 0, 0, 2, 0x65, 0x88]);
    assert!(first.is_sync);
    assert!(first.depends_on.is_empty());
    let second = tracker.next(&[0, 0, 0, 2, 0x41, 0x88]);
    assert_eq!(second.frame_index, 1);
    assert!(!second.is_sync);
}

#[test]
fn the_payload_of_a_movie_is_found_or_taken_as_it_is() {
    // No movie box: what was given is the payload itself.
    let free = [0, 0, 0, 8, b'f', b'r', b'e', b'e'];
    assert_eq!(moov_payload(&free), &free);
    assert_eq!(moov_payload(&[1, 2, 3]), &[1, 2, 3]);
    assert_eq!(moov_payload(&[]), &[] as &[u8]);
    // A movie box that claims more than there is, has what follows its header.
    let cut = [0, 0, 0, 99, b'm', b'o', b'o', b'v', 7, 8];
    assert_eq!(moov_payload(&cut), &[7, 8]);
    // One that stands behind another box has its own payload alone.
    let behind = [&free[..], &[0, 0, 0, 9, b'm', b'o', b'o', b'v', 7], &free[..]].concat();
    assert_eq!(moov_payload(&behind), &[7]);
}
