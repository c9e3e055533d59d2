use media_parser::format::mp4::atoms::media::decode_language;
use media_parser::format::mp4::tracks::{
    classify_handler, language_string, parse_sample_durations, parse_sample_sizes, parse_stsd,
    parse_tkhd, tracks_from_moov, TrackKind, TrackType,
};
use media_parser::mp4_writer::movie::{build_moov_video, VideoMoovParams};

const VISUAL_WIDTH_OFFSET: usize = 24;
const VISUAL_HEIGHT_OFFSET: usize = 26;
const AUDIO_CHANNELS_OFFSET: usize = 16;
const AUDIO_SAMPLE_RATE_OFFSET: usize = 24;

fn make_box(fourcc: &[u8; 4], payload: &[u8]) -> Vec<u8> {
    let size = 8 + payload.len();
    let mut data = Vec::with_capacity(size);
    data.extend_from_slice(&(size as u32).to_be_bytes());
    data.extend_from_slice(fourcc);
    data.extend_from_slice(payload);
    data
}

#[test]
fn tracks_test_decode_language() {
    assert_eq!(decode_language(0x15c7).map(language_string), Some("eng".into()));
    assert_eq!(decode_language(0x55c4), None);
}

#[test]
fn tracks_test_parse_stsd_video_entry() {
    let mut visual_payload = vec![0u8; 78];
    visual_payload[VISUAL_WIDTH_OFFSET..VISUAL_WIDTH_OFFSET + 2]
        .copy_from_slice(&320u16.to_be_bytes());
    visual_payload[VISUAL_HEIGHT_OFFSET..VISUAL_HEIGHT_OFFSET + 2]
        .copy_from_slice(&180u16.to_be_bytes());

    let mut stsd = vec![0u8; 8];
    stsd[4..8].copy_from_slice(&1u32.to_be_bytes());
    stsd.extend(make_box(b"avc1", &visual_payload));

    let parsed = parse_stsd(&stsd).unwrap();
    assert_eq!(parsed.codec, "avc1");
    assert_eq!(parsed.width, Some(320));
    assert_eq!(parsed.height, Some(180));
    assert_eq!(parsed.entry_count, 1);
}

#[test]
fn test_parse_stsd_audio_entry() {
    let mut audio_payload = vec![0u8; 28];
    audio_payload[AUDIO_CHANNELS_OFFSET..AUDIO_CHANNELS_OFFSET + 2]
        .copy_from_slice(&2u16.to_be_bytes());
    audio_payload[AUDIO_SAMPLE_RATE_OFFSET..AUDIO_SAMPLE_RATE_OFFSET + 4]
        .copy_from_slice(&(44_100u32 << 16).to_be_bytes());

    let mut stsd = vec![0u8; 8];
    stsd[4..8].copy_from_slice(&1u32.to_be_bytes());
    stsd.extend(make_box(b"mp4a", &audio_payload));

    let parsed = parse_stsd(&stsd).unwrap();
    assert_eq!(parsed.codec, "mp4a");
    assert_eq!(parsed.channels, Some(2));
    assert_eq!(parsed.sample_rate, Some(44_100));
}

#[test]
fn test_parse_sample_durations_expands_vfr_table() {
    let mut stts = vec![0u8; 8];
    stts[4..8].copy_from_slice(&2u32.to_be_bytes());
    stts.extend_from_slice(&2u32.to_be_bytes());
    stts.extend_from_slice(&100u32.to_be_bytes());
    stts.extend_from_slice(&1u32.to_be_bytes());
    stts.extend_from_slice(&120u32.to_be_bytes());

    assert_eq!(parse_sample_durations(&stts), Some(vec![100, 100, 120]));
}

#[test]
fn only_listed_sample_sizes_are_expanded() {
    let mut fixed = vec![0u8; 12];
    fixed[4..8].copy_from_slice(&9u32.to_be_bytes());
    fixed[8..12].copy_from_slice(&2u32.to_be_bytes());
    assert_eq!(parse_sample_sizes(&fixed), None);
    let mut listed = vec![0u8; 12];
    listed[8..12].copy_from_slice(&2u32.to_be_bytes());
    listed.extend_from_slice(&5u32.to_be_bytes());
    listed.extend_from_slice(&6u32.to_be_bytes());
    assert_eq!(parse_sample_sizes(&listed), Some(vec![5, 6]));
    assert_eq!(parse_sample_sizes(&listed[..16]), None);
}

#[test]
fn handlers_tell_the_kind_of_a_track() {
    assert_eq!(classify_handler(*b"vide"), TrackKind::Video);
    assert_eq!(classify_handler(*b"soun"), TrackKind::Audio);
    assert_eq!(classify_handler(*b"sbtl"), TrackKind::Subtitle);
    assert_eq!(classify_handler(*b"abcd"), TrackKind::Unknown);
}

#[test]
fn a_short_track_header_is_an_error() {
    assert!(parse_tkhd(&[0; 4]).is_err());
}

#[test]
fn the_tracks_of_a_written_movie_are_read_back() {
    let stts = vec![(3u32, 100u32)];
    let sizes = vec![10u32, 20, 30];
    let avcc = vec![1, 66, 0, 30, 0xff, 0xe0, 0];
    let moov = build_moov_video(&VideoMoovParams {
        movie_timescale: None,
        track_timescale: 1000,
        stts_pairs: &stts,
        ctts_pairs: None,
        sample_sizes: &sizes,
        sync_samples_1based: None,
        track_id: 7,
        width: 320,
        height: 240,
        language: Some("spa"),
        mdat_base_offset: 0,
        avcc_payload: &avcc,
        edit_list: None,
    });
    let tracks = tracks_from_moov(&moov).expect("tracks");
    assert_eq!(tracks.len(), 1);
    match &tracks[0] {
        TrackType::Video(video) => {
            assert_eq!(video.base.id, 7);
            assert_eq!(video.base.codec, "avc1");
            assert_eq!(video.base.language, Some("spa".to_string()));
            assert_eq!((video.width, video.height), (320, 240));
            assert_eq!(video.frame_rate, Some("10/1".to_string()));
        }
        other => panic!("not video: {:?}", other),
    }
}
