use media_parser::av_clip::{find_trak_by_id, plan_av_clip_from_moov, PlanError};
use media_parser::boxes::make_box;
use media_parser::clip::{clip_sync_samples, clip_timescale, plan_clip_core, slice_composition};
use media_parser::errors::MediaParserError;
use media_parser::format::texts::{
    decode_latin1, decode_utf16_be, decode_utf16_with_bom, decode_utf8, trim_null_and_whitespace,
};
use media_parser::helpers::tables::moov_payload;
use media_parser::metadata::{MediaMetadata, TickDuration};
use media_parser::mp4_writer::movie::{
    build_moov_av, build_moov_video, AudioMoovParams, VideoMoovParams,
};
use media_parser::mp4_writer::segment::build_segment_headers;
use media_parser::subtitles::{
    build_subtitles, parse, samples_to_read, select_subtitle_track, SubCodec, SubtitleQuery,
};
use media_parser::time::{duration_to_ticks, ticks_to_duration, Duration};
use media_parser::tracks::{tracks_from_moov, TrackType};

const AVCC: [u8; 14] = [1, 66, 0, 30, 0xff, 0xe1, 0, 2, 0x67, 0x42, 1, 0, 1, 0x68];

fn video_params<'a>(
    stts: &'a [(u32, u32)],
    sizes: &'a [u32],
    sync: &'a [u32],
) -> VideoMoovParams<'a> {
    VideoMoovParams {
        movie_timescale: Some(1000),
        track_timescale: 1000,
        stts_pairs: stts,
        ctts_pairs: None,
        sample_sizes: sizes,
        sync_samples_1based: Some(sync),
        track_id: 1,
        width: 320,
        height: 240,
        language: Some("eng"),
        mdat_base_offset: 5000,
        avcc_payload: &AVCC,
        edit_list: None,
    }
}

#[test]
fn a_clip_starts_at_a_key_frame() {
    let stts = [(6u32, 1000u32)];
    let sizes = [10u32, 11, 12, 13, 14, 15];
    let sync = [1u32, 4];
    let moov = build_moov_video(&video_params(&stts, &sizes, &sync));
    assert_eq!(clip_timescale(&moov).unwrap(), 1000);
    let clip = plan_clip_core(&moov, 4200, 5500).unwrap();
    assert_eq!(clip.sizes, vec![13, 14, 15]);
    assert_eq!(clip.stts_pairs, vec![(3, 1000)]);
    assert_eq!(clip.sync_rel_1based, vec![1]);
    assert_eq!(clip.refs[0].src_offset, 5000 + 10 + 11 + 12);
    assert_eq!(clip.language, "eng");
    let headers = build_segment_headers(&clip.moov_params(), 42);
    assert_eq!(&headers.moov[4..8], b"moov");
    assert_eq!(
        headers.mdat_base,
        (headers.ftyp.len() + headers.moov.len() + headers.mdat_header.len()) as u64
    );
}

#[test]
fn a_clip_of_nothing_is_an_error() {
    let stts = [(2u32, 1000u32)];
    let moov = build_moov_video(&video_params(&stts, &[1, 2], &[1]));
    let error = plan_clip_core(&moov, 0, 0).unwrap_err();
    assert_eq!(error.message(), "Invalid MP4 format: empty selection");
    assert!(plan_clip_core(&[], 0, 1).is_err());
}

#[test]
fn sync_numbers_count_from_the_start_of_a_clip() {
    assert_eq!(clip_sync_samples(&[1, 4, 9], 3, 9), vec![1, 6]);
    assert_eq!(slice_composition(&Some(vec![(2, 5), (2, 7)]), 1, 3), Some(vec![(1, 5), (1, 7)]));
    assert_eq!(slice_composition(&None, 0, 1), None);
}

fn av_moov() -> Vec<u8> {
    let v_stts = [(2u32, 500u32)];
    let a_stts = [(3u32, 1024u32)];
    let audio = AudioMoovParams {
        track_timescale: 48_000,
        stts_pairs: &a_stts,
        ctts_pairs: None,
        sample_sizes: &[1, 2, 3],
        track_id: 2,
        channels: 2,
        sample_rate: 48_000,
        language: Some("spa"),
        mdat_base_offset: 130,
        esds_payload: &[9, 8, 7, 6],
        edit_list: None,
    };
    build_moov_av(&video_params(&v_stts, &[10, 20], &[1]), &audio)
}

#[test]
fn video_and_audio_are_cut_together() {
    let moov = av_moov();
    let clip = plan_av_clip_from_moov(&moov, 1, 0, 2, 2, 1, 3).unwrap();
    assert_eq!(clip.v_sizes, vec![10, 20]);
    assert_eq!(clip.a_sizes, vec![2, 3]);
    assert_eq!(clip.a_stts, vec![(2, 1024)]);
    assert_eq!((clip.channels, clip.sample_rate), (2, 48_000));
    assert_eq!((clip.width, clip.height), (320, 240));
    assert_eq!(clip.a_language, "spa");
    assert!(matches!(plan_av_clip_from_moov(&moov, 9, 0, 1, 2, 1, 2), Err(_)));
    let missing: Result<_, PlanError> = plan_av_clip_from_moov(&[], 1, 0, 1, 2, 1, 2);
    assert!(missing.is_err());
    assert!(find_trak_by_id(moov_payload(&moov), 2).is_some());
    assert!(find_trak_by_id(moov_payload(&moov), 3).is_none());
}

#[test]
fn the_tracks_of_a_movie_are_listed() {
    let tracks = tracks_from_moov(&av_moov());
    assert_eq!(tracks.len(), 2);
    assert_eq!(tracks[0].id, 1);
    assert_eq!(tracks[0].kind, TrackType::Video);
    assert_eq!((tracks[0].frame_width, tracks[0].frame_height), (Some(320), Some(240)));
    assert_eq!(tracks[1].kind, TrackType::Audio);
    assert_eq!(tracks[1].codec, "mp4a");
}

fn item(fourcc: &[u8; 4], value: &[u8]) -> Vec<u8> {
    let mut data = vec![0, 0, 0, 1, 0, 0, 0, 0];
    data.extend_from_slice(value);
    make_box(fourcc, &make_box(b"data", &data))
}

#[test]
fn the_metadata_of_a_movie_is_read() {
    let mut mvhd = vec![0u8; 20];
    mvhd[12..16].copy_from_slice(&600u32.to_be_bytes());
    mvhd[16..20].copy_from_slice(&1200u32.to_be_bytes());
    let mut ilst = item(b"\xa9nam", b"A title");
    ilst.extend(item(b"\xa9ART", b"An artist\0"));
    let mut meta = vec![0u8; 4];
    meta.extend(make_box(b"ilst", &ilst));
    let mut moov = make_box(b"mvhd", &mvhd);
    moov.extend(make_box(b"udta", &make_box(b"meta", &meta)));
    let read = MediaMetadata::from_bytes(&make_box(b"moov", &moov));
    assert_eq!(read.duration, Some(TickDuration { ticks: 1200, timescale: 600 }));
    assert_eq!(read.get("title"), Some("A title".to_string()));
    assert_eq!(read.get("@ART"), Some("An artist".to_string()));
    assert_eq!(read.get("nothing"), None);
    assert_eq!(read.get_all().len(), 2);
    assert!(MediaMetadata::from_bytes(&[]).duration.is_none());
}

fn words(list: &[u32]) -> Vec<u8> {
    let mut data = Vec::new();
    for word in list {
        data.extend_from_slice(&word.to_be_bytes());
    }
    data
}

fn subtitle_moov() -> Vec<u8> {
    let mut tkhd = vec![0u8; 84];
    tkhd[12..16].copy_from_slice(&2u32.to_be_bytes());
    let mut mdhd = vec![0u8; 24];
    mdhd[12..16].copy_from_slice(&1000u32.to_be_bytes());
    mdhd[20..22].copy_from_slice(&0x15c7u16.to_be_bytes());
    let mut hdlr = vec![0u8; 12];
    hdlr[8..12].copy_from_slice(b"sbtl");
    let mut stsd = words(&[0, 1]);
    stsd.extend(make_box(b"tx3g", &[0; 8]));
    let mut stbl = make_box(b"stsd", &stsd);
    stbl.extend(make_box(b"stts", &words(&[0, 1, 2, 2000])));
    stbl.extend(make_box(b"stsz", &words(&[0, 0, 2, 4, 0])));
    stbl.extend(make_box(b"stsc", &words(&[0, 1, 1, 2, 1])));
    stbl.extend(make_box(b"stco", &words(&[0, 1, 100])));
    let mut mdia = make_box(b"mdhd", &mdhd);
    mdia.extend(make_box(b"hdlr", &hdlr));
    mdia.extend(make_box(b"minf", &make_box(b"stbl", &stbl)));
    let mut trak = make_box(b"tkhd", &tkhd);
    trak.extend(make_box(b"mdia", &mdia));
    make_box(b"moov", &make_box(b"trak", &trak))
}

#[test]
fn subtitles_of_a_movie_are_read() {
    let moov = subtitle_moov();
    let track = select_subtitle_track(&moov, &SubtitleQuery::First).expect("a track");
    assert_eq!(track.id, 2);
    assert_eq!(track.codec, SubCodec::Tx3g);
    let reads = samples_to_read(&track);
    assert_eq!(reads.len(), 1); // the empty sample is passed over
    assert_eq!(reads[0].offset, 100);
    let cues = build_subtitles(track.id, track.codec, &reads, &[vec![0, 2, b'H', b'i']]);
    assert_eq!(cues.len(), 1);
    assert_eq!(cues[0].id, 1);
    assert_eq!(cues[0].text, "Hi");
    assert_eq!((cues[0].start_time, cues[0].end_time), (0, 2000));
    assert!(select_subtitle_track(&moov, &SubtitleQuery::TrackId(9)).is_none());
    let english = SubtitleQuery::Language("eng".to_string());
    assert!(select_subtitle_track(&moov, &english).is_some());
    assert_eq!(parse(&[], SubCodec::Tx3g), None);
}

#[test]
fn ticks_and_times_convert() {
    let time = ticks_to_duration(1500, 1000);
    assert_eq!(time, Duration::from_millis(1500));
    assert_eq!(duration_to_ticks(time, 1000), 1500);
    assert_eq!(duration_to_ticks(Duration::from_nanos(1), 1000), 0);
    assert_eq!(time.to_text(), "1.5s");
    assert_eq!(Duration::from_millis(20).to_text(), "20ms");
    assert!(Duration::new(1, 1_000_000_000).is_none());
}

#[test]
fn texts_are_decoded() {
    assert_eq!(decode_latin1(&[0x63, 0xe9]), "c\u{e9}");
    assert_eq!(decode_utf8("c\u{e9}".as_bytes()), Some("c\u{e9}".to_string()));
    assert_eq!(decode_utf8(&[0xff]), None);
    assert_eq!(decode_utf16_be(&[0xd8, 0x3d, 0xde, 0x00]), Some("\u{1f600}".to_string()));
    assert_eq!(decode_utf16_be(&[0xd8, 0x3d]), None);
    assert_eq!(decode_utf16_with_bom(&[0xff, 0xfe, 0x41, 0]), Some("A".to_string()));
    assert_eq!(trim_null_and_whitespace(" a\0"), Some("a".to_string()));
    assert_eq!(trim_null_and_whitespace(" \0"), None);
}

#[test]
fn errors_are_told_in_words() {
    let cases = [
        (MediaParserError::Io("x".into()), "IO error: x"),
        (MediaParserError::InvalidFormat("x".into()), "Invalid MP4 format: x"),
        (MediaParserError::TrackNotFound(7), "Track not found: 7"),
        (MediaParserError::UnsupportedCodec("x".into()), "Unsupported codec: x"),
        (MediaParserError::HttpStatus(404), "HTTP status 404"),
        (MediaParserError::Other("x".into()), "x"),
    ];
    for (error, words) in cases {
        assert_eq!(error.message(), words);
    }
}

#[test]
fn the_duration_of_a_movie_may_have_eight_bytes() {
    let mut mvhd = vec![0u8; 32];
    mvhd[0] = 1;
    mvhd[20..24].copy_from_slice(&600u32.to_be_bytes());
    mvhd[24..32].copy_from_slice(&5_000_000_000u64.to_be_bytes());
    let read = MediaMetadata::from_bytes(&make_box(b"moov", &make_box(b"mvhd", &mvhd)));
    assert_eq!(read.duration, Some(TickDuration { ticks: 5_000_000_000, timescale: 600 }));
    let cut = make_box(b"moov", &make_box(b"mvhd", &mvhd[..31]));
    assert_eq!(MediaMetadata::from_bytes(&cut).duration, None);
}
