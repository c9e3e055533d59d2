use std::time::{Duration as StdDuration, Instant};
use media_parser::commands::{
    prepare_thumbnail_timestamps, session_track_ids, thumbnail_durations, thumbnail_options,
    thumbnail_session_key, thumbnail_session_ttl, unsupported_thumbnail_error, TrackInfo,
    MAX_THUMBNAIL_OUTPUT_BYTES,
};
use media_parser::decoders::h264::{JpegQuality, ThumbnailSize};
use media_parser::format::mp4::thumbnails::MAX_THUMBNAIL_OUTPUTS;
use media_parser::format::mp4::tracks::{
    AudioTrackMeta, BaseTrackMeta, SubtitleTrackMeta, TrackType, UnknownTrackMeta, VideoTrackMeta,
};
use media_parser::source::LocalSourceVersion;
use media_parser::time::Duration;

#[test]
fn thumbnails_report_an_explicit_unsupported_platform_error() {
    assert_eq!(
        unsupported_thumbnail_error().message(),
        "thumbnail extraction is not supported on this platform"
    );
}

fn base_track(id: u32, codec: &str) -> BaseTrackMeta {
    BaseTrackMeta {
        id,
        codec: codec.to_string(),
        language: None,
        timescale: 1_000,
        duration: 2_000,
        properties: Vec::new(),
    }
}

#[test]
fn omitted_thumbnail_quality_keeps_the_default() {
    let options = thumbnail_options(None, None, None).expect("omitted options are valid");

    assert_eq!(options.quality, JpegQuality::default());
    assert_eq!(options.size, ThumbnailSize::default());
    assert_eq!(options.max_output_bytes, Some(MAX_THUMBNAIL_OUTPUT_BYTES));
}

#[test]
fn thumbnail_dimensions_are_validated_and_default_independently() {
    assert_eq!(
        thumbnail_options(None, Some(640), Some(360)).expect("valid dimensions").size,
        ThumbnailSize::new(640, 360).expect("valid size")
    );
    assert_eq!(
        thumbnail_options(None, Some(640), None)
            .expect("one dimension leaves the other unconstrained")
            .size,
        ThumbnailSize::new(640, u16::MAX.into()).expect("valid one-axis bounds")
    );
    assert!(thumbnail_options(None, Some(0), None).is_err());
    assert!(thumbnail_options(None, None, Some(65_536)).is_err());
}

#[test]
fn thumbnail_quality_is_rejected_outside_the_encoder_range() {
    assert_eq!(
        thumbnail_options(Some(80), None, None).expect("80 is in range").quality.get(),
        80
    );

    for quality in [0u8, 101, 255] {
        let error = thumbnail_options(Some(quality), None, None)
            .expect_err("quality outside 1-100 must not reach the encoder")
            .message();

        assert!(
            error.contains("between 1 and 100"),
            "unexpected error for quality {quality}: {error}"
        );
    }
}

#[test]
fn thumbnail_durations_use_milliseconds() {
    assert_eq!(
        thumbnail_durations(&[0, 250, 1_000]),
        vec![
            Duration::from_nanos(0),
            Duration::from_millis(250),
            Duration::new(1, 0).expect("one second"),
        ]
    );
}

#[test]
fn prepares_unique_thumbnail_timestamps_and_request_order() {
    let (timestamps, order) = prepare_thumbnail_timestamps(&[0, 250, 0])
        .expect("three thumbnail outputs are within the limit");

    assert_eq!(timestamps, vec![Duration::from_nanos(0), Duration::from_millis(250)]);
    assert_eq!(order, vec![0, 1, 0]);
}

#[test]
fn thumbnail_request_count_is_checked_before_deduplication() {
    let timestamps = vec![0; MAX_THUMBNAIL_OUTPUTS + 1];

    let error = prepare_thumbnail_timestamps(&timestamps)
        .expect_err("repeated timestamps still represent distinct outputs")
        .message();

    assert!(error.contains("too many thumbnail timestamps"));
}

#[test]
fn thumbnail_request_accepts_the_output_count_boundary() {
    let timestamps = vec![0; MAX_THUMBNAIL_OUTPUTS];
    let (_, order) = prepare_thumbnail_timestamps(&timestamps)
        .expect("the documented output boundary should be accepted");

    assert_eq!(order.len(), MAX_THUMBNAIL_OUTPUTS);
}

fn header(name: &str, value: &str) -> (String, String) {
    (name.to_string(), value.to_string())
}

#[test]
fn thumbnail_session_key_normalizes_http_header_names_and_order() {
    let first_headers =
        Some(vec![header("X-Test", "one"), header("Authorization", "Bearer token")]);
    let second_headers =
        Some(vec![header("authorization", "Bearer token"), header("x-test", "one")]);

    let first =
        thumbnail_session_key("https://example.com/video.mp4", &first_headers, 7, true, None);
    let second =
        thumbnail_session_key("https://example.com/video.mp4", &second_headers, 7, true, None);

    assert!(first == second);
}

#[test]
fn thumbnail_session_key_ignores_headers_for_local_sources() {
    let headers = Some(vec![header("Authorization", "ignored")]);
    assert!(
        thumbnail_session_key("/tmp/a.mp4", &None, 1, false, None)
            == thumbnail_session_key("/tmp/a.mp4", &headers, 1, false, None)
    );
}

#[test]
fn thumbnail_session_key_changes_when_a_local_file_changes() {
    let first = Some(LocalSourceVersion { length: 1, modified_nanos: Some(5) });
    let second = Some(LocalSourceVersion { length: 2, modified_nanos: Some(5) });
    assert!(
        thumbnail_session_key("/tmp/a.mp4", &None, 1, false, first)
            != thumbnail_session_key("/tmp/a.mp4", &None, 1, false, second)
    );
    assert!(
        thumbnail_session_key("https://a/b", &None, 1, true, first)
            == thumbnail_session_key("https://a/b", &None, 1, true, second)
    );
}

#[test]
fn remote_and_local_thumbnail_sessions_both_receive_an_expiration_deadline() {
    let now = Instant::now();
    let ttl = |remote| StdDuration::from_nanos(thumbnail_session_ttl(remote).as_nanos() as u64);

    assert_eq!(now.checked_add(ttl(true)), now.checked_add(StdDuration::from_secs(5 * 60)));
    assert_eq!(now.checked_add(ttl(false)), now.checked_add(StdDuration::from_secs(60)));
}

#[test]
fn a_session_is_found_by_the_track_asked_for_and_the_one_found() {
    assert_eq!(session_track_ids(0, 3), vec![0, 3]);
    assert_eq!(session_track_ids(3, 3), vec![3]);
}

fn told(info: &TrackInfo) -> serde_json::Value {
    let mut object = serde_json::Map::new();
    object.insert("kind".to_string(), serde_json::Value::from(info.kind.clone()));
    object.insert("id".to_string(), serde_json::Value::from(info.id));
    object.insert("codec".to_string(), serde_json::Value::from(info.codec.clone()));
    if let Some(language) = &info.language {
        object.insert("language".to_string(), serde_json::Value::from(language.clone()));
    }
    object.insert("timescale".to_string(), serde_json::Value::from(info.timescale));
    object.insert("duration".to_string(), serde_json::Value::from(info.duration));
    let mut properties = serde_json::Map::new();
    for (name, value) in &info.properties {
        properties.insert(name.clone(), serde_json::Value::from(value.clone()));
    }
    object.insert("properties".to_string(), serde_json::Value::Object(properties));
    if let Some(width) = info.width {
        object.insert("width".to_string(), serde_json::Value::from(width));
    }
    if let Some(height) = info.height {
        object.insert("height".to_string(), serde_json::Value::from(height));
    }
    if let Some(channels) = info.channels {
        object.insert("channels".to_string(), serde_json::Value::from(channels));
    }
    if let Some(rate) = info.sample_rate {
        object.insert("sampleRate".to_string(), serde_json::Value::from(rate));
    }
    serde_json::Value::Object(object)
}

fn parsed(text: &str) -> serde_json::Value {
    serde_json::from_str(text).expect("expected value is JSON")
}

#[test]
fn serializes_track_type_contract() {
    let tracks = [
        TrackType::Video(VideoTrackMeta {
            base: base_track(1, "avc1"),
            width: 1_920,
            height: 1_080,
            frame_rate: None,
            sample_durations: None,
        }),
        TrackType::Audio(AudioTrackMeta {
            base: base_track(2, "mp4a"),
            channels: 2,
            sample_rate: 48_000,
            sample_sizes: None,
        }),
        TrackType::Subtitle(SubtitleTrackMeta { base: base_track(3, "tx3g") }),
        TrackType::Unknown(UnknownTrackMeta { base: base_track(4, "meta") }),
    ];

    let serialized =
        tracks.into_iter().map(|track| told(&TrackInfo::from_track(track))).collect::<Vec<_>>();

    assert_eq!(
        serialized,
        vec![
            parsed(
                r#"{"kind":"video","id":1,"codec":"avc1","timescale":1000,"duration":2000,
                    "properties":{},"width":1920,"height":1080}"#
            ),
            parsed(
                r#"{"kind":"audio","id":2,"codec":"mp4a","timescale":1000,"duration":2000,
                    "properties":{},"channels":2,"sampleRate":48000}"#
            ),
            parsed(
                r#"{"kind":"subtitle","id":3,"codec":"tx3g","timescale":1000,"duration":2000,
                    "properties":{}}"#
            ),
            parsed(
                r#"{"kind":"unknown","id":4,"codec":"meta","timescale":1000,"duration":2000,
                    "properties":{}}"#
            ),
        ]
    );
}
