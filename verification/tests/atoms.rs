use media_parser::format::mp4::atoms::avc::parse_avc_config;
use media_parser::format::mp4::atoms::budget::{RetainedBudget, TableParseError};
use media_parser::format::mp4::atoms::locate::{place_samples, SampleLocator};
use media_parser::format::mp4::atoms::media::{
    audio_params, decode_language, parse_mdhd, parse_stsd, parse_stsd_entries_bounded, parse_tkhd,
    visual_dimensions,
};
use media_parser::format::mp4::atoms::read::{iter_boxes, read_box};
use media_parser::format::mp4::atoms::sample_timing::{
    parse_ctts, stts_duration_ticks, stts_sample_count, PresentationTimeline,
};
use media_parser::format::mp4::atoms::samples::{
    nearest_sync_sample, next_sync_sample, parse_sample_sizes, parse_stsc, parse_stss,
    range_uses_description_index, sample_description_index, sample_size, SampleSizes, StscEntry,
};
use media_parser::format::mp4::atoms::validate::validate_sample_tables;

fn make_box(fourcc: &[u8; 4], payload: &[u8]) -> Vec<u8> {
    let size = 8 + payload.len();
    let mut data = Vec::with_capacity(size);
    data.extend_from_slice(&(size as u32).to_be_bytes());
    data.extend_from_slice(fourcc);
    data.extend_from_slice(payload);
    data
}

#[test]
fn media_test_decode_language() {
    assert_eq!(decode_language(0x15c7), Some(*b"eng"));
    assert_eq!(decode_language(0x55c4), None);
}

#[test]
fn test_parse_tkhd_v0() {
    let mut tkhd = vec![0u8; 84];
    tkhd[0] = 0; // version 0
    tkhd[3] = 1; // track_enabled flag
    tkhd[12..16].copy_from_slice(&3u32.to_be_bytes()); // track_ID
    tkhd[20..24].copy_from_slice(&1000u32.to_be_bytes()); // duration (32-bit)
    tkhd[76..80].copy_from_slice(&(640u32 << 16).to_be_bytes()); // width 16.16
    tkhd[80..84].copy_from_slice(&(480u32 << 16).to_be_bytes()); // height 16.16

    let parsed = parse_tkhd(&tkhd).unwrap();
    assert_eq!(parsed.id, 3);
    assert!(parsed.track_enabled);
    assert_eq!(parsed.duration, 1000);
    assert_eq!(parsed.width, 640);
    assert_eq!(parsed.height, 480);
}

#[test]
fn test_parse_tkhd_v1_reads_64bit_duration() {
    let mut tkhd = vec![0u8; 96];
    tkhd[0] = 1; // version 1
    tkhd[20..24].copy_from_slice(&7u32.to_be_bytes()); // track_ID
    let duration = 5_000_000_000u64; // > u32::MAX, distinguishes offset 28 vs 32
    tkhd[28..36].copy_from_slice(&duration.to_be_bytes());
    tkhd[88..92].copy_from_slice(&(1920u32 << 16).to_be_bytes()); // width 16.16
    tkhd[92..96].copy_from_slice(&(1080u32 << 16).to_be_bytes()); // height 16.16

    let parsed = parse_tkhd(&tkhd).unwrap();
    assert_eq!(parsed.id, 7);
    assert!(!parsed.track_enabled);
    assert_eq!(parsed.duration, 5_000_000_000);
    assert_eq!(parsed.width, 1920);
    assert_eq!(parsed.height, 1080);
}

#[test]
fn test_parse_mdhd_v0() {
    let mut mdhd = vec![0u8; 24];
    mdhd[0] = 0;
    mdhd[12..16].copy_from_slice(&90_000u32.to_be_bytes());
    mdhd[16..20].copy_from_slice(&1000u32.to_be_bytes());
    mdhd[20..22].copy_from_slice(&0x15c7u16.to_be_bytes());

    let parsed = parse_mdhd(&mdhd).unwrap();
    assert_eq!(parsed.timescale, 90_000);
    assert_eq!(parsed.duration, 1000);
    assert_eq!(parsed.language, Some(*b"eng"));
}

#[test]
fn test_parse_mdhd_v1_reads_64bit_duration() {
    let mut mdhd = vec![0u8; 36];
    mdhd[0] = 1;
    mdhd[20..24].copy_from_slice(&48_000u32.to_be_bytes());
    let duration = 5_000_000_000u64;
    mdhd[24..32].copy_from_slice(&duration.to_be_bytes());
    mdhd[32..34].copy_from_slice(&0x15c7u16.to_be_bytes());

    let parsed = parse_mdhd(&mdhd).unwrap();
    assert_eq!(parsed.timescale, 48_000);
    assert_eq!(parsed.duration, 5_000_000_000);
    assert_eq!(parsed.language, Some(*b"eng"));
}

#[test]
fn media_test_parse_stsd_video_entry() {
    let mut visual_payload = vec![0u8; 78];
    visual_payload[24..26].copy_from_slice(&320u16.to_be_bytes());
    visual_payload[26..28].copy_from_slice(&180u16.to_be_bytes());

    let mut stsd = vec![0u8; 8];
    stsd[4..8].copy_from_slice(&1u32.to_be_bytes());
    stsd.extend(make_box(b"avc1", &visual_payload));

    let parsed = parse_stsd(&stsd, visual_dimensions).unwrap();
    assert_eq!(parsed.codec, "avc1");
    assert_eq!(parsed.entry, (Some(320), Some(180)));
    assert_eq!(parsed.entry_count, 1);
}

#[test]
fn test_parse_stsd_audio_v0_entry() {
    let mut audio_payload = vec![0u8; 28];
    audio_payload[8..10].copy_from_slice(&0u16.to_be_bytes());
    audio_payload[16..18].copy_from_slice(&2u16.to_be_bytes());
    audio_payload[24..28].copy_from_slice(&(44_100u32 << 16).to_be_bytes());

    let mut stsd = vec![0u8; 8];
    stsd[4..8].copy_from_slice(&1u32.to_be_bytes());
    stsd.extend(make_box(b"mp4a", &audio_payload));

    let parsed = parse_stsd(&stsd, audio_params).unwrap();
    assert_eq!(parsed.codec, "mp4a");
    assert_eq!(parsed.entry, (Some(2), Some(44_100)));
}

#[test]
fn test_parse_stsd_audio_v2_entry() {
    let mut audio_payload = vec![0u8; 44];
    // QuickTime v2 stores the rate as an IEEE-754 f64 and channels as u32.
    audio_payload[8..10].copy_from_slice(&2u16.to_be_bytes());
    audio_payload[32..40].copy_from_slice(&192_000f64.to_bits().to_be_bytes());
    audio_payload[40..44].copy_from_slice(&6u32.to_be_bytes());

    let mut stsd = vec![0u8; 8];
    stsd[4..8].copy_from_slice(&1u32.to_be_bytes());
    stsd.extend(make_box(b"lpcm", &audio_payload));

    let parsed = parse_stsd(&stsd, audio_params).unwrap();
    assert_eq!(parsed.codec, "lpcm");
    assert_eq!(parsed.entry, (Some(6), Some(192_000)));
}

#[test]
fn test_audio_params_rejects_unknown_version() {
    let mut audio_payload = vec![0u8; 28];
    audio_payload[8..10].copy_from_slice(&3u16.to_be_bytes());
    audio_payload[16..18].copy_from_slice(&2u16.to_be_bytes());
    audio_payload[24..28].copy_from_slice(&(48_000u32 << 16).to_be_bytes());

    assert_eq!(audio_params(&audio_payload), (None, None));
}

#[test]
fn bounded_stsd_validates_framing_before_charging_declared_entries() {
    let mut stsd = vec![0u8; 8];
    stsd[4..8].copy_from_slice(&u32::MAX.to_be_bytes());
    let mut budget = RetainedBudget::new(8);

    assert_eq!(
        parse_stsd_entries_bounded(&stsd, &mut budget).unwrap_err(),
        TableParseError::Invalid("malformed stsd entry count")
    );
    assert_eq!(budget.used_bytes(), 0);
}

#[test]
fn bounded_stsd_rejects_trailing_framing_bytes() {
    let mut stsd = vec![0u8; 8];
    stsd[4..8].copy_from_slice(&1u32.to_be_bytes());
    stsd.extend(make_box(b"tx3g", &[0; 8]));
    stsd.push(0);
    let mut budget = RetainedBudget::new(1024);

    assert!(matches!(
        parse_stsd_entries_bounded(&stsd, &mut budget),
        Err(TableParseError::Invalid(_))
    ));
}

#[test]
fn bounded_stsd_charges_what_it_keeps() {
    let mut stsd = vec![0u8; 8];
    stsd[4..8].copy_from_slice(&1u32.to_be_bytes());
    stsd.extend(make_box(b"tx3g", &[0; 8]));
    let mut budget = RetainedBudget::new(1024);
    let entries = parse_stsd_entries_bounded(&stsd, &mut budget).unwrap();
    assert_eq!(entries.len(), 1);
    assert_eq!(entries[0].codec, "tx3g");
    assert!(budget.used_bytes() >= 4);
    let mut small = RetainedBudget::new(1);
    assert_eq!(
        parse_stsd_entries_bounded(&stsd, &mut small).unwrap_err(),
        TableParseError::BudgetExceeded
    );
}

fn append_box(target: &mut Vec<u8>, fourcc: &[u8; 4], payload: &[u8]) {
    let size = u32::try_from(payload.len() + 8).expect("test box fits u32");
    target.extend_from_slice(&size.to_be_bytes());
    target.extend_from_slice(fourcc);
    target.extend_from_slice(payload);
}

#[test]
fn parses_nclx_matrix_and_range_with_avc_config() {
    let mut sample_entry = vec![0; 78];
    sample_entry[24..26].copy_from_slice(&1920u16.to_be_bytes());
    sample_entry[26..28].copy_from_slice(&1080u16.to_be_bytes());
    append_box(&mut sample_entry, b"avcC", &[1, 66, 0, 30, 0xff, 0xe0, 0]);
    let mut colr = Vec::from(&b"nclx"[..]);
    colr.extend_from_slice(&1u16.to_be_bytes());
    colr.extend_from_slice(&1u16.to_be_bytes());
    colr.extend_from_slice(&1u16.to_be_bytes());
    colr.push(0x80);
    append_box(&mut sample_entry, b"colr", &colr);

    let config = parse_avc_config(&sample_entry).expect("valid avc3 description parses");

    assert_eq!(config.color.matrix_coefficients, Some(1));
    assert_eq!(config.color.full_range, Some(true));
    assert_eq!(config.display_width, 1920);
    assert_eq!(config.display_height, 1080);
    assert_eq!(config.max_input_size, None);
}

#[test]
fn parses_nclc_matrix_without_inventing_a_range() {
    let mut sample_entry = vec![0; 78];
    append_box(&mut sample_entry, b"avcC", &[1, 66, 0, 30, 0xff, 0xe0, 0]);
    let mut colr = Vec::from(&b"nclc"[..]);
    colr.extend_from_slice(&6u16.to_be_bytes());
    colr.extend_from_slice(&6u16.to_be_bytes());
    colr.extend_from_slice(&6u16.to_be_bytes());
    append_box(&mut sample_entry, b"colr", &colr);

    let config = parse_avc_config(&sample_entry).expect("valid nclc description parses");

    assert_eq!(config.color.matrix_coefficients, Some(6));
    assert_eq!(config.color.full_range, None);
}

#[test]
fn keeps_the_avc_config_when_the_colr_box_is_truncated() {
    let mut sample_entry = vec![0; 78];
    append_box(&mut sample_entry, b"avcC", &[1, 66, 0, 30, 0xff, 0xe0, 0]);
    // An `nclx` body without its trailing flags byte, and a `colr` too short
    // to even name its parameter type.
    let mut short_nclx = Vec::from(&b"nclx"[..]);
    short_nclx.extend_from_slice(&1u16.to_be_bytes());
    short_nclx.extend_from_slice(&1u16.to_be_bytes());
    short_nclx.extend_from_slice(&1u16.to_be_bytes());
    append_box(&mut sample_entry, b"colr", &short_nclx);
    append_box(&mut sample_entry, b"colr", b"ncl");

    let config = parse_avc_config(&sample_entry).expect("a bad colr cannot void the avcC");

    assert_eq!(config.length_size, 4);
    assert_eq!(config.color.matrix_coefficients, Some(1));
    assert_eq!(config.color.full_range, None);
}

#[test]
fn finds_nclx_after_an_unsupported_colr_box() {
    let mut sample_entry = vec![0; 78];
    append_box(&mut sample_entry, b"avcC", &[1, 66, 0, 30, 0xff, 0xe0, 0]);
    append_box(&mut sample_entry, b"colr", b"profignored");
    let mut nclx = Vec::from(&b"nclx"[..]);
    nclx.extend_from_slice(&1u16.to_be_bytes());
    nclx.extend_from_slice(&1u16.to_be_bytes());
    nclx.extend_from_slice(&1u16.to_be_bytes());
    nclx.push(0);
    append_box(&mut sample_entry, b"colr", &nclx);

    let config = parse_avc_config(&sample_entry).expect("valid later nclx is found");

    assert_eq!(config.color.matrix_coefficients, Some(1));
    assert_eq!(config.color.full_range, Some(false));
}

fn two_run_tables() -> (SampleSizes, Vec<StscEntry>, Vec<u64>) {
    // chunks 1-2 use description 1 (2 samples each), chunks 3-4 use
    // description 2 (1 sample each); sample sizes vary per sample.
    let sizes = SampleSizes::variable(vec![10, 20, 30, 40, 50, 60]).unwrap();
    let stsc = vec![
        StscEntry { first_chunk: 1, samples_per_chunk: 2, sample_description_index: 1 },
        StscEntry { first_chunk: 3, samples_per_chunk: 1, sample_description_index: 2 },
    ];
    let chunk_offsets = vec![100, 200, 300, 400];
    (sizes, stsc, chunk_offsets)
}

#[test]
fn range_description_index_covers_whole_range_in_one_walk() {
    let (_sizes, stsc, chunk_offsets) = two_run_tables();

    assert!(range_uses_description_index(1, 4, 1, &stsc, &chunk_offsets));
    assert!(range_uses_description_index(5, 6, 2, &stsc, &chunk_offsets));
    assert!(!range_uses_description_index(1, 6, 1, &stsc, &chunk_offsets));
    assert!(!range_uses_description_index(4, 5, 1, &stsc, &chunk_offsets));
    assert!(!range_uses_description_index(6, 7, 2, &stsc, &chunk_offsets));
    assert!(!range_uses_description_index(0, 4, 1, &stsc, &chunk_offsets));
}

#[test]
fn sample_locator_matches_expected_offsets_in_order() {
    let (sizes, stsc, chunk_offsets) = two_run_tables();
    let mut locator = SampleLocator::new(&sizes, &stsc, &chunk_offsets).unwrap();

    for (sample_index, expected_offset) in [100, 110, 200, 230, 300, 400].into_iter().enumerate() {
        assert_eq!(
            locator.file_offset(u32::try_from(sample_index + 1).unwrap()),
            Some(expected_offset),
            "sample {sample_index}"
        );
    }
}

#[test]
fn sample_locator_rejects_out_of_order_queries() {
    let (sizes, stsc, chunk_offsets) = two_run_tables();
    let mut locator = SampleLocator::new(&sizes, &stsc, &chunk_offsets).unwrap();

    assert_eq!(locator.file_offset(3), Some(200));
    assert_eq!(locator.file_offset(2), None);
}

#[test]
fn samples_are_placed_with_their_sizes() {
    let (sizes, stsc, chunk_offsets) = two_run_tables();

    assert_eq!(
        place_samples(&[1, 3, 6], &sizes, &stsc, &chunk_offsets),
        Ok(vec![(100, 10), (200, 30), (400, 60)])
    );
    assert_eq!(
        place_samples(&[4, 2], &sizes, &stsc, &chunk_offsets),
        Ok(vec![(230, 40), (110, 20)])
    );
    assert_eq!(place_samples(&[1, 7, 8], &sizes, &stsc, &chunk_offsets), Err(7));
    assert_eq!(place_samples(&[0], &sizes, &stsc, &chunk_offsets), Err(0));
}

#[test]
fn sample_locator_does_not_scan_every_size_before_a_sparse_query() {
    let sample_count = 10_000;
    let sizes = SampleSizes::variable(vec![1; sample_count as usize]).unwrap();
    let stsc = [StscEntry {
        first_chunk: 1,
        samples_per_chunk: sample_count,
        sample_description_index: 1,
    }];
    let chunk_offsets = [100];
    let mut locator = SampleLocator::new(&sizes, &stsc, &chunk_offsets).unwrap();

    assert_eq!(locator.file_offset(sample_count), Some(10_099));
    assert!(
        locator.size_entries_examined() <= 512,
        "sparse lookup examined {} preceding sizes",
        locator.size_entries_examined()
    );
}

#[test]
fn sample_locator_bounds_both_sparse_prefix_tails() {
    let sizes = SampleSizes::variable(vec![1; 768]).unwrap();
    let stsc = [
        StscEntry { first_chunk: 1, samples_per_chunk: 255, sample_description_index: 1 },
        StscEntry { first_chunk: 2, samples_per_chunk: 513, sample_description_index: 1 },
    ];
    let chunk_offsets = [100, 1_000];
    let mut locator = SampleLocator::new(&sizes, &stsc, &chunk_offsets).unwrap();

    assert_eq!(locator.file_offset(768), Some(1_512));
    assert_eq!(locator.size_entries_examined(), 510);
}

#[test]
fn preserves_stsc_sample_description_index() {
    let mut stsc = vec![0; 8];
    stsc[4..8].copy_from_slice(&1u32.to_be_bytes());
    stsc.extend_from_slice(&1u32.to_be_bytes());
    stsc.extend_from_slice(&2u32.to_be_bytes());
    stsc.extend_from_slice(&3u32.to_be_bytes());

    let entries = parse_stsc(&stsc).unwrap();

    assert_eq!(entries[0].sample_description_index, 3);
}

#[test]
fn locates_samples_without_iterating_every_prior_chunk() {
    let sizes = SampleSizes::fixed(1_000_000_000, 4).unwrap();
    let stsc = [StscEntry {
        first_chunk: 1,
        samples_per_chunk: 1_000_000_000,
        sample_description_index: 1,
    }];
    let chunk_offsets = vec![0];

    assert_eq!(sample_description_index(1_000, &sizes, &stsc, &chunk_offsets), Some(1));
    assert_eq!(sample_description_index(1_000_000_000, &sizes, &stsc, &chunk_offsets), Some(1));
}

#[test]
fn rejects_stsc_entries_outside_the_chunk_table() {
    let mut stts = vec![0; 8];
    stts[4..8].copy_from_slice(&1u32.to_be_bytes());
    stts.extend_from_slice(&1u32.to_be_bytes());
    stts.extend_from_slice(&1u32.to_be_bytes());
    let sizes = SampleSizes::fixed(1, 1).unwrap();
    let stsc = [
        StscEntry { first_chunk: 1, samples_per_chunk: 1, sample_description_index: 1 },
        StscEntry { first_chunk: u32::MAX, samples_per_chunk: 1, sample_description_index: 1 },
    ];

    assert!(validate_sample_tables(&stts, None, &sizes, &stsc, &[0], None, 1).is_none());
    assert!(validate_sample_tables(&stts, None, &sizes, &stsc[..1], &[0], None, 1).is_some());
}

fn table(entries: &[u32], width: usize) -> Vec<u8> {
    let mut data = vec![0; 4];
    data.extend_from_slice(&((entries.len() / width) as u32).to_be_bytes());
    for entry in entries {
        data.extend_from_slice(&entry.to_be_bytes());
    }
    data
}

#[test]
fn a_large_box_has_a_64_bit_size() {
    let mut data = 1u32.to_be_bytes().to_vec();
    data.extend_from_slice(b"free");
    data.extend_from_slice(&18u64.to_be_bytes());
    data.extend_from_slice(&[7, 8]);
    let found = read_box(&data, 0).expect("a box");
    assert_eq!(&found.fourcc, b"free");
    assert_eq!(found.payload, &[7, 8]);
    let mut boxes = iter_boxes(&data);
    assert!(boxes.next().is_some());
    assert!(boxes.next().is_none());
}

#[test]
fn sync_samples_are_found_on_both_sides() {
    let sync = parse_stss(&table(&[1, 5, 9], 1)).expect("a table");
    assert_eq!(sync, vec![1, 5, 9]);
    assert_eq!(nearest_sync_sample(7, Some(&sync)), 5);
    assert_eq!(next_sync_sample(7, Some(&sync), 12), Some(9));
    assert_eq!(next_sync_sample(9, Some(&sync), 12), None);
    assert_eq!(nearest_sync_sample(7, None), 7);
    assert_eq!(next_sync_sample(7, None, 12), Some(8));
}

#[test]
fn sample_sizes_are_fixed_or_listed() {
    let mut fixed = vec![0; 4];
    fixed.extend_from_slice(&4u32.to_be_bytes());
    fixed.extend_from_slice(&3u32.to_be_bytes());
    let sizes = parse_sample_sizes(&fixed).expect("fixed sizes");
    assert_eq!(sample_size(3, &sizes), Some(4));
    assert_eq!(sample_size(4, &sizes), None);
    assert!(SampleSizes::fixed(3, 0).is_none());
}

#[test]
fn timing_tables_tell_counts_and_ticks() {
    let stts = table(&[2, 100, 1, 50], 2);
    assert_eq!(stts_sample_count(&stts), Some(3));
    assert_eq!(stts_duration_ticks(&stts), Some(250));
    let ctts = table(&[2, 7], 2);
    let offsets = parse_ctts(&ctts).expect("offsets");
    assert_eq!(offsets[0].sample_count, 2);
    assert_eq!(offsets[0].sample_offset, 7);
}

#[test]
fn the_last_sample_shown_by_a_time_is_selected() {
    let stts = table(&[4, 100], 2);
    let timeline = PresentationTimeline::new(&stts, None, 0, 4).expect("a timeline");
    let picked = timeline.select(250).expect("a sample");
    assert_eq!(picked.sample_index, 3);
    assert_eq!(picked.presentation_tick, 200);
    assert_eq!(timeline.tick(4), Some(300));
    assert_eq!(timeline.tick(5), None);
    assert!(PresentationTimeline::new(&stts, None, 0, 5).is_none());
}

#[test]
fn a_run_without_samples_lends_no_description() {
    // The chunk of the second run holds no sample.
    let stsc = [
        StscEntry { first_chunk: 1, samples_per_chunk: 2, sample_description_index: 1 },
        StscEntry { first_chunk: 2, samples_per_chunk: 0, sample_description_index: 9 },
        StscEntry { first_chunk: 3, samples_per_chunk: 2, sample_description_index: 1 },
    ];
    let sizes = SampleSizes::variable(vec![10, 20, 30, 40]).unwrap();
    let chunk_offsets = [100, 200, 300];

    for sample in 1..=4 {
        assert_eq!(sample_description_index(sample, &sizes, &stsc, &chunk_offsets), Some(1));
        assert!(range_uses_description_index(sample, sample, 1, &stsc, &chunk_offsets));
    }
    assert!(range_uses_description_index(1, 4, 1, &stsc, &chunk_offsets));
    assert!(!range_uses_description_index(1, 4, 9, &stsc, &chunk_offsets));
    assert!(!range_uses_description_index(1, 5, 1, &stsc, &chunk_offsets));
}

#[test]
fn samples_of_a_chunk_touch_whatever_was_asked_before() {
    let sizes = SampleSizes::variable(vec![10, 20, 30, 40, 50]).unwrap();
    let stsc = [StscEntry { first_chunk: 1, samples_per_chunk: 5, sample_description_index: 1 }];
    let chunk_offsets = [1_000];
    let offsets = [1_000, 1_010, 1_030, 1_060, 1_100];

    // Every choice of samples, asked for in order.
    for chosen in 0u32..32 {
        let mut locator = SampleLocator::new(&sizes, &stsc, &chunk_offsets).unwrap();
        for sample in (1u32..=5).filter(|n| chosen & (1 << (n - 1)) != 0) {
            assert_eq!(locator.file_offset(sample), Some(offsets[sample as usize - 1]));
        }
    }
    for i in 0..4 {
        let size = u64::from(sample_size(i as u32 + 1, &sizes).unwrap());
        assert_eq!(offsets[i] + size, offsets[i + 1]);
    }
}
