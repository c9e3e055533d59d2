use std::collections::HashMap;
use media_parser::decoders::h264::{
    AvcColorMetadata, AvcConfig, DecodeError, DecodedImage, FrameToken,
    MAX_AVC_PARAMETER_SET_BYTES,
};
use media_parser::errors::MediaParserError;
use media_parser::format::mp4::atoms::sample_timing::{CompositionOffset, PresentationTimeline};
use media_parser::format::mp4::atoms::samples::{SampleSizes, StscEntry};
use media_parser::format::mp4::thumbnails::assemble::{
    assemble_frames, build_decode_jobs, collect_decoded_images, map_decode_error,
    picture_uses, OutputBudget,
};
use media_parser::format::mp4::thumbnails::groups::{
    group_targets, keyframe_plans, samples_for_gops, truncate_and_validate_gops,
};
use media_parser::format::mp4::thumbnails::index::{avc_config_for_range, VideoTrack};
use media_parser::format::mp4::thumbnails::plan::plan_gop_job;
use media_parser::format::mp4::thumbnails::request::ThumbnailIndex;
use media_parser::format::mp4::thumbnails::tables::{
    parse_avc_descriptions, parse_elst_media_time, VideoSampleTables,
};
use media_parser::format::mp4::thumbnails::{
    ExactTarget, Gop, ThumbnailOptions, MAX_SAMPLES_PER_THUMBNAIL_BATCH, MAX_THUMBNAIL_OUTPUTS,
};
use media_parser::mp4_writer::movie::{build_moov_video, VideoMoovParams};
use media_parser::time::Duration;

fn append_test_box(target: &mut Vec<u8>, fourcc: &[u8; 4], payload: &[u8]) {
    let size = u32::try_from(payload.len() + 8).expect("test box fits u32");
    target.extend_from_slice(&size.to_be_bytes());
    target.extend_from_slice(fourcc);
    target.extend_from_slice(payload);
}

#[test]
fn maps_each_decode_error_without_collapsing_the_taxonomy() {
    let cases = [
        (DecodeError::Bitstream("x".into()), "Invalid MP4 format: x"),
        (DecodeError::UnsupportedFormat("x".into()), "Unsupported codec: x"),
        (DecodeError::Backend("x".into()), "Decoder error: x"),
        (DecodeError::BackendContract("x".into()), "Decoder error: x"),
        (DecodeError::Convert("x".into()), "Decoder error: x"),
        (DecodeError::OutputLimit("x".into()), "Output limit exceeded: x"),
        (DecodeError::ResourceLimit("x".into()), "Resource limit reached: x"),
    ];

    for (decode, expected) in cases {
        assert_eq!(map_decode_error(decode).message(), expected);
    }
}

#[test]
fn maps_oversized_avc_parameter_sets_to_a_resource_limit() {
    let large_set_len: usize = u16::MAX as usize;
    let limit = MAX_AVC_PARAMETER_SET_BYTES;
    let mut avcc = vec![1, 66, 0, 30, 0xff, 0xe0 | 16];
    let large_sps = vec![0x67; large_set_len];
    for _ in 0..16 {
        avcc.extend_from_slice(&u16::MAX.to_be_bytes());
        avcc.extend_from_slice(&large_sps);
    }
    avcc.push(1);
    let pps_len = limit - large_set_len * 16 + 1;
    avcc.extend_from_slice(&u16::try_from(pps_len).unwrap().to_be_bytes());
    avcc.extend(vec![0x68; pps_len]);

    let mut sample_entry = vec![0; 78];
    sample_entry[24..26].copy_from_slice(&2u16.to_be_bytes());
    sample_entry[26..28].copy_from_slice(&2u16.to_be_bytes());
    append_test_box(&mut sample_entry, b"avcC", &avcc);
    let mut stsd = vec![0; 4];
    stsd.extend_from_slice(&1u32.to_be_bytes());
    append_test_box(&mut stsd, b"avc1", &sample_entry);

    let error = parse_avc_descriptions(&stsd).expect_err("oversized avcC must be a resource limit");

    assert!(matches!(error, MediaParserError::ResourceLimit(_)));
}

fn test_track() -> VideoTrack {
    VideoTrack { id: 1, timescale: 1_000, duration: 10_000, presentation_offset: 0 }
}

fn test_image(byte: u8) -> DecodedImage {
    DecodedImage { width: 2, height: 2, data: vec![byte; 4] }
}

fn test_target(gop_start: u32, output_index: usize, presentation_tick: u64) -> ExactTarget {
    ExactTarget {
        gop: Gop { start_sample: gop_start, end_sample: gop_start },
        sample_index: gop_start,
        presentation_tick,
        token: FrameToken::new(output_index as u64),
    }
}

fn test_timeline(sample_count: u32) -> PresentationTimeline {
    let mut stts = vec![0; 8];
    stts[4..8].copy_from_slice(&1u32.to_be_bytes());
    stts.extend_from_slice(&sample_count.to_be_bytes());
    stts.extend_from_slice(&1u32.to_be_bytes());
    PresentationTimeline::new(&stts, None, 0, sample_count).unwrap()
}

#[test]
fn rejects_oversized_gop_before_materializing_its_timeline_range() {
    let timeline = test_timeline(1);
    let oversized_end = u32::try_from(MAX_SAMPLES_PER_THUMBNAIL_BATCH).unwrap() + 1;
    let mut targets = vec![ExactTarget {
        gop: Gop { start_sample: 1, end_sample: oversized_end },
        sample_index: oversized_end,
        presentation_tick: 0,
        token: FrameToken::new(0),
    }];
    let gop = targets[0].gop;

    let error = plan_gop_job(&timeline, gop, &[0], &mut targets)
        .expect_err("an oversized GOP must be rejected before reading the timeline range");

    assert_eq!(error.message(), "Invalid MP4 format: too many thumbnail samples");
}

#[test]
fn rejects_combined_gop_ranges_before_planning_jobs() {
    let first_end = u32::try_from(MAX_SAMPLES_PER_THUMBNAIL_BATCH / 2).unwrap();
    let second_start = first_end + 1;
    let second_end = u32::try_from(MAX_SAMPLES_PER_THUMBNAIL_BATCH).unwrap() + 1;
    let targets = vec![
        ExactTarget {
            gop: Gop { start_sample: 1, end_sample: first_end },
            sample_index: first_end,
            presentation_tick: 0,
            token: FrameToken::new(0),
        },
        ExactTarget {
            gop: Gop { start_sample: second_start, end_sample: second_end },
            sample_index: second_end,
            presentation_tick: 0,
            token: FrameToken::new(0),
        },
    ];
    let targets_by_gop = vec![(targets[0].gop, vec![0]), (targets[1].gop, vec![1])];

    let error = truncate_and_validate_gops(targets_by_gop, &targets)
        .expect_err("the combined sample budget must be checked before planning jobs");

    assert_eq!(error.message(), "Invalid MP4 format: too many thumbnail samples");
}

#[test]
fn accepts_the_exact_gop_sample_budget() {
    let end_sample = u32::try_from(MAX_SAMPLES_PER_THUMBNAIL_BATCH).unwrap();
    let targets = vec![ExactTarget {
        gop: Gop { start_sample: 1, end_sample },
        sample_index: end_sample,
        presentation_tick: 0,
        token: FrameToken::new(0),
    }];
    let targets_by_gop = vec![(targets[0].gop, vec![0])];

    truncate_and_validate_gops(targets_by_gop, &targets).unwrap();
}

#[test]
fn maps_repeated_targets_to_presentation_positions_when_reordered() {
    // Decode order I P B B presents as I B B P, so every sample but the
    // first sits at a presentation position that differs from its decode one.
    let mut stts = vec![0; 8];
    stts[4..8].copy_from_slice(&1u32.to_be_bytes());
    stts.extend_from_slice(&4u32.to_be_bytes());
    stts.extend_from_slice(&1u32.to_be_bytes());
    let composition_offsets = [
        CompositionOffset { sample_count: 1, sample_offset: 0 },
        CompositionOffset { sample_count: 1, sample_offset: 2 },
        CompositionOffset { sample_count: 2, sample_offset: -1 },
    ];
    let timeline = PresentationTimeline::new(&stts, Some(&composition_offsets), 0, 4).unwrap();
    let gop = Gop { start_sample: 1, end_sample: 4 };
    let target = |sample_index, presentation_tick| ExactTarget {
        gop,
        sample_index,
        presentation_tick,
        token: FrameToken::new(0),
    };
    let mut targets = vec![target(4, 2), target(2, 3), target(4, 2)];

    let plan = plan_gop_job(&timeline, gop, &[0, 1, 2], &mut targets).unwrap();

    // Presentation order is samples 1, 3, 4, 2.
    assert_eq!(targets[0].token, FrameToken::new(2));
    assert_eq!(targets[1].token, FrameToken::new(3));
    assert_eq!(targets[2].token, FrameToken::new(2));
    assert_eq!(plan.gop, gop);
    assert_eq!(
        plan.tokens,
        vec![FrameToken::new(0), FrameToken::new(3), FrameToken::new(1), FrameToken::new(2)]
    );
    assert_eq!(plan.wanted, vec![(FrameToken::new(2), 2), (FrameToken::new(3), 1)]);
}

#[test]
fn rejects_a_target_that_precedes_its_gop() {
    let timeline = test_timeline(4);
    let gop = Gop { start_sample: 2, end_sample: 4 };
    let target = |sample_index| ExactTarget {
        gop,
        sample_index,
        presentation_tick: 0,
        token: FrameToken::new(0),
    };
    let mut targets = vec![target(1), target(4)];

    let error = plan_gop_job(&timeline, gop, &[0, 1], &mut targets)
        .expect_err("a target before its GOP start has no presentation position");

    assert_eq!(error.message(), "Invalid MP4 format: selected sample is outside its GOP");
}

#[test]
fn assembles_one_frame_per_target_in_request_order() {
    let targets = vec![test_target(5, 0, 200), test_target(0, 1, 100)];
    let images = vec![
        ((targets[0].gop, FrameToken::new(0)), test_image(0xaa)),
        ((targets[1].gop, FrameToken::new(1)), test_image(0xbb)),
    ];

    let frames = assemble_frames(&test_track(), targets, images).unwrap();

    assert_eq!(frames.len(), 2);
    assert_eq!(frames[0].data, vec![0xaa; 4]);
    assert_eq!(frames[0].timestamp, Duration::from_millis(200));
    assert_eq!(frames[1].data, vec![0xbb; 4]);
    assert_eq!(frames[1].timestamp, Duration::from_millis(100));
}

#[test]
fn shares_one_image_across_targets_that_resolve_to_the_same_frame() {
    // Distinct timestamps can land on the same decoded frame: every target
    // still gets its own payload, and only the last use moves the image.
    let targets = vec![test_target(0, 0, 100), test_target(0, 0, 140), test_target(0, 0, 180)];
    let images = vec![((targets[0].gop, FrameToken::new(0)), test_image(0xcc))];

    let frames = assemble_frames(&test_track(), targets, images).unwrap();

    assert_eq!(frames.len(), 3);
    assert!(frames.iter().all(|frame| frame.data == vec![0xcc; 4]));
    assert_eq!(
        frames.iter().map(|frame| frame.timestamp).collect::<Vec<_>>(),
        vec![
            Duration::from_millis(100),
            Duration::from_millis(140),
            Duration::from_millis(180),
        ]
    );
}

#[test]
fn errors_when_a_target_has_no_decoded_image() {
    let targets = vec![test_target(7, 0, 100)];

    let error = assemble_frames(&test_track(), targets, Vec::new())
        .expect_err("a target without a decoded image must not be silently dropped");

    assert!(matches!(error, MediaParserError::InvalidFormat(_)));
}

fn avc_config(sps: Vec<Vec<u8>>, pps: Vec<Vec<u8>>) -> AvcConfig {
    AvcConfig {
        length_size: 4,
        sps,
        pps,
        color: AvcColorMetadata::default(),
        display_width: 2,
        display_height: 2,
        max_input_size: None,
        resolved_full_range: None,
    }
}

fn one_sample_tables(description: u32, configs: Vec<Option<std::sync::Arc<AvcConfig>>>) -> VideoSampleTables {
    VideoSampleTables {
        stts: vec![0; 16],
        composition_offsets: None,
        sizes: SampleSizes::fixed(1, 1).unwrap(),
        stsc: vec![StscEntry {
            first_chunk: 1,
            samples_per_chunk: 1,
            sample_description_index: description,
        }],
        chunk_offsets: vec![0],
        sync_samples: None,
        avc_configs: configs,
    }
}

#[test]
fn uses_the_stsc_selected_sample_description() {
    let tables = one_sample_tables(
        2,
        vec![Some(avc_config(vec![vec![1]], vec![vec![2]]).into()), None],
    );

    let error = avc_config_for_range(&tables, 1, 1)
        .expect_err("description 2 is not AVC and must not reuse description 1");

    assert!(matches!(error, MediaParserError::UnsupportedCodec(_)));
}

#[test]
fn cloning_the_selected_avc_config_does_not_clone_parameter_set_bytes() {
    let tables = one_sample_tables(
        1,
        vec![Some(avc_config(vec![vec![1, 2, 3]], vec![vec![4, 5, 6]]).into())],
    );
    let stored_sps = tables.avc_configs[0].as_ref().unwrap().sps[0].as_ptr();
    let stored_pps = tables.avc_configs[0].as_ref().unwrap().pps[0].as_ptr();

    let selected = avc_config_for_range(&tables, 1, 1).unwrap().clone();

    assert_eq!(selected.sps[0].as_ptr(), stored_sps);
    assert_eq!(selected.pps[0].as_ptr(), stored_pps);
}

#[test]
fn accepts_empty_edit_and_rejects_multi_segment_edit_lists() {
    let mut empty_edit = vec![0, 0, 0, 0];
    empty_edit.extend_from_slice(&1u32.to_be_bytes());
    empty_edit.extend_from_slice(&1_000u32.to_be_bytes());
    empty_edit.extend_from_slice(&(-1i32).to_be_bytes());
    empty_edit.extend_from_slice(&0x0001_0000u32.to_be_bytes());

    let mut multiple_edits = vec![0, 0, 0, 0];
    multiple_edits.extend_from_slice(&2u32.to_be_bytes());
    for media_time in [0i32, 1_000] {
        multiple_edits.extend_from_slice(&1_000u32.to_be_bytes());
        multiple_edits.extend_from_slice(&media_time.to_be_bytes());
        multiple_edits.extend_from_slice(&0x0001_0000u32.to_be_bytes());
    }

    assert_eq!(parse_elst_media_time(&empty_edit), Some(0));
    assert_eq!(parse_elst_media_time(&multiple_edits), None);
}

/// A movie of six one-second samples at a thousand ticks a second, with key
/// frames first and fourth.
fn video_movie() -> Vec<u8> {
    let stts = vec![(6u32, 1000u32)];
    let sizes = vec![10u32, 11, 12, 13, 14, 15];
    let sync = vec![1u32, 4];
    let avcc = vec![1, 66, 0, 30, 0xff, 0xe1, 0, 2, 0x67, 0x42, 1, 0, 2, 0x68, 0xce];
    build_moov_video(&VideoMoovParams {
        movie_timescale: None,
        track_timescale: 1000,
        stts_pairs: &stts,
        ctts_pairs: None,
        sample_sizes: &sizes,
        sync_samples_1based: Some(&sync),
        track_id: 1,
        width: 320,
        height: 240,
        language: Some("eng"),
        mdat_base_offset: 5000,
        avcc_payload: &avcc,
        edit_list: None,
    })
}

#[test]
fn a_written_movie_can_be_indexed_and_planned() {
    let index = ThumbnailIndex::from_moov(&video_movie(), 0).expect("an index");
    assert_eq!(index.track_id(), 1);
    let times = [Duration::from_millis(4500), Duration::from_millis(1000)];
    let (targets, plans) = index.plan_frames(&times).expect("a plan");
    assert_eq!(targets[0].sample_index, 5);
    assert_eq!(targets[0].gop.start_sample, 4);
    assert_eq!(targets[1].sample_index, 2);
    assert_eq!(plans.len(), 2);
    let (keys, _) = index.plan_keyframes(&times).expect("a key frame plan");
    assert_eq!(keys[0].sample_index, 4);
    assert_eq!(keys[1].sample_index, 1);
}

#[test]
fn every_target_is_decoded_and_starts_at_its_keyframe() {
    let index = ThumbnailIndex::from_moov(&video_movie(), 1).expect("an index");
    let times: Vec<Duration> = [0, 2500, 3000, 5999].map(Duration::from_millis).to_vec();
    let (targets, plans) = index.plan_frames(&times).expect("a plan");
    let (keys, key_plans) = index.plan_keyframes(&times).expect("a key frame plan");
    for (target, key) in targets.iter().zip(&keys) {
        assert!(plans.iter().any(|plan| plan.gop == target.gop
            && plan.wanted.iter().any(|(token, _)| *token == target.token)));
        assert!(key_plans.iter().any(|plan| plan.gop == key.gop
            && plan.wanted.iter().any(|(token, _)| *token == key.token)));
        assert_eq!(key.sample_index, target.gop.start_sample);
        assert!(key.sample_index <= target.sample_index);
    }
    let picked: Vec<u32> = targets.iter().map(|target| target.sample_index).collect();
    assert_eq!(picked, vec![1, 3, 4, 6]);
}

#[test]
fn planned_jobs_take_their_samples() {
    let index = ThumbnailIndex::from_moov(&video_movie(), 1).expect("an index");
    let (_, plans) = index.plan_frames(&[Duration::from_millis(4500)]).expect("a plan");
    let gops: Vec<Gop> = plans.iter().map(|plan| plan.gop).collect();
    assert_eq!(samples_for_gops(&gops).unwrap(), vec![4, 5]);
    let samples = HashMap::from([(4u32, vec![4u8]), (5, vec![5])]);
    let jobs = build_decode_jobs(plans.clone(), index.tables(), samples).expect("jobs");
    assert_eq!(jobs.len(), 1);
    assert_eq!(jobs[0].samples, vec![vec![4], vec![5]]);
    assert_eq!(jobs[0].avc_config.sps, vec![vec![0x67, 0x42]]);
    let error = build_decode_jobs(plans, index.tables(), HashMap::new()).unwrap_err();
    assert_eq!(error.message(), "Invalid MP4 format: missing thumbnail sample 4");
}

#[test]
fn a_track_that_is_not_there_has_no_index() {
    assert!(ThumbnailIndex::from_moov(&video_movie(), 9).is_err());
}

#[test]
fn too_many_times_are_refused() {
    let index = ThumbnailIndex::from_moov(&video_movie(), 1).expect("an index");
    let times = vec![Duration::from_millis(0); MAX_THUMBNAIL_OUTPUTS + 1];
    assert!(index.validate_timestamps(&times).is_err());
    assert!(index.validate_timestamps(&times[1..]).is_ok());
}

#[test]
fn targets_of_one_group_share_a_plan() {
    let targets = vec![test_target(3, 0, 0), test_target(1, 0, 0), test_target(3, 0, 9)];
    let groups = group_targets(&targets);
    assert_eq!(groups.len(), 2);
    assert_eq!(groups[0].0.start_sample, 1);
    assert_eq!(groups[1].1, vec![0, 2]);
    let plans = keyframe_plans(&targets);
    assert_eq!(plans[1].wanted, vec![(FrameToken::new(0), 2)]);
}

#[test]
fn a_later_image_of_a_frame_replaces_an_earlier_one() {
    let gop = Gop { start_sample: 0, end_sample: 0 };
    let images = collect_decoded_images(vec![
        (gop, vec![(FrameToken::new(0), test_image(1)), (FrameToken::new(0), test_image(2))]),
    ]);
    let frames = assemble_frames(&test_track(), vec![test_target(0, 0, 1)], images).unwrap();
    assert_eq!(frames[0].data, vec![2; 4]);
}

#[test]
fn thumbnail_options_are_unbounded_by_default() {
    let options = ThumbnailOptions::default();
    assert_eq!(options.quality.get(), 60);
    assert_eq!(options.size.bounds(), (320, 320));
    assert_eq!(options.max_output_bytes, None);
}

#[test]
fn only_pictures_with_a_use_are_kept() {
    let wanted = [(FrameToken(3), 2), (FrameToken(5), 1)];
    assert_eq!(picture_uses(&wanted, FrameToken(3)), Some(2));
    assert_eq!(picture_uses(&wanted, FrameToken(5)), Some(1));
    assert_eq!(picture_uses(&wanted, FrameToken(4)), None);
    assert_eq!(picture_uses(&[], FrameToken(3)), None);
}

#[test]
fn images_are_counted_once_for_each_use() {
    let mut budget = OutputBudget::new(Some(100));
    assert!(budget.charge(30, 2).is_ok());
    let error = budget.charge(41, 1).unwrap_err();
    assert_eq!(
        map_decode_error(error).message(),
        "Output limit exceeded: thumbnail output is too large"
    );
    // What did not fit was not counted.
    assert!(budget.charge(40, 1).is_ok());
    assert!(budget.charge(7, 0).is_ok());
    assert!(budget.charge(1, 1).is_err());

    let mut open = OutputBudget::new(None);
    assert!(open.charge(usize::MAX, 2).is_ok());
    assert!(open.charge(usize::MAX, usize::MAX).is_ok());
    assert!(OutputBudget::new(Some(usize::MAX)).charge(usize::MAX, 1).is_ok());
    assert!(OutputBudget::new(Some(usize::MAX)).charge(usize::MAX, 2).is_err());
}
