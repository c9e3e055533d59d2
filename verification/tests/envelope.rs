use media_parser::envelope::{
    cover_entry, encode_binary_envelope, thumbnail_entries, CoverEnvelopeEntry,
    ThumbnailEnvelopeEntry, ENVELOPE_VERSION,
};
use media_parser::errors::MediaParserError;
use media_parser::time::Duration;
use media_parser::types::{CoverArt, Frame, PixelFormat};
use serde_json::Value;

fn test_frames() -> Vec<Frame> {
    vec![
        Frame {
            track_id: 3,
            width: 320,
            height: 180,
            timestamp: Duration::from_millis(250),
            format: PixelFormat::Jpeg,
            data: vec![1, 2, 3],
            strides: None,
        },
        Frame {
            track_id: 3,
            width: 640,
            height: 360,
            timestamp: Duration::from_millis(1000),
            format: PixelFormat::Jpeg,
            data: vec![4, 5],
            strides: None,
        },
    ]
}

fn header_bytes(entries: Vec<Value>) -> Vec<u8> {
    let mut header = serde_json::Map::new();
    header.insert("version".to_string(), Value::from(ENVELOPE_VERSION));
    header.insert("entries".to_string(), Value::Array(entries));
    serde_json::to_vec(&Value::Object(header)).expect("header should encode")
}

fn cover_value(entry: CoverEnvelopeEntry) -> Value {
    let mut object = serde_json::Map::new();
    object.insert("format".to_string(), Value::from(entry.format));
    object.insert("mimeType".to_string(), Value::from(entry.mime_type));
    object.insert("offset".to_string(), Value::from(entry.offset));
    object.insert("length".to_string(), Value::from(entry.length));
    Value::Object(object)
}

fn thumbnail_value(entry: ThumbnailEnvelopeEntry) -> Value {
    let mut object = serde_json::Map::new();
    object.insert("trackId".to_string(), Value::from(entry.track_id));
    object.insert("width".to_string(), Value::from(entry.width));
    object.insert("height".to_string(), Value::from(entry.height));
    object.insert(
        "timestampSec".to_string(),
        Value::from(entry.timestamp.as_nanos() as f64 / 1e9),
    );
    object.insert("format".to_string(), Value::from(entry.format));
    object.insert("mimeType".to_string(), Value::from(entry.mime_type));
    object.insert("offset".to_string(), Value::from(entry.offset));
    object.insert("length".to_string(), Value::from(entry.length));
    Value::Object(object)
}

fn cover_envelope(cover: Option<CoverArt>) -> Result<Vec<u8>, MediaParserError> {
    let entries = cover_entry(&cover)?.into_iter().map(cover_value).collect();
    let payloads: Vec<Vec<u8>> = cover.into_iter().map(|c| c.data).collect();
    encode_binary_envelope(&header_bytes(entries), &payloads, usize::MAX)
}

fn encode_thumbnail_envelope(
    frames: &[Frame],
    order: &[usize],
    max_output_bytes: usize,
) -> Result<Vec<u8>, MediaParserError> {
    let entries = thumbnail_entries(frames, order, max_output_bytes)?
        .into_iter()
        .map(thumbnail_value)
        .collect();
    let payloads: Vec<Vec<u8>> = frames.iter().map(|f| f.data.clone()).collect();
    encode_binary_envelope(&header_bytes(entries), &payloads, max_output_bytes)
}

fn envelope_parts(envelope: &[u8]) -> (Value, &[u8]) {
    let header_len = u32::from_le_bytes(envelope[..4].try_into().unwrap()) as usize;
    let header_end = 4 + header_len;
    let header = serde_json::from_slice(&envelope[4..header_end]).expect("header should be JSON");
    (header, &envelope[header_end..])
}

fn parsed(text: &str) -> Value {
    serde_json::from_str(text).expect("expected value is JSON")
}

#[test]
fn encodes_cover_as_a_single_entry_binary_envelope() {
    let envelope = cover_envelope(Some(CoverArt {
        format: PixelFormat::Jpeg,
        mime_type: "image/jpeg".to_string(),
        data: vec![1, 2, 3],
    }))
    .expect("cover should encode");
    let (header, payload) = envelope_parts(&envelope);

    assert_eq!(
        header,
        parsed(
            r#"{"version":1,"entries":[{"format":"jpeg","mimeType":"image/jpeg","offset":0,
                "length":3}]}"#
        )
    );
    assert_eq!(payload, &[1, 2, 3]);
}

#[test]
fn encodes_a_png_cover_with_its_own_format() {
    let envelope = cover_envelope(Some(CoverArt {
        format: PixelFormat::Png,
        // The envelope must derive this from `format`, not trust a second
        // independently mutable field.
        mime_type: "image/jpeg".to_string(),
        data: vec![4, 5],
    }))
    .expect("cover should encode");
    let (header, payload) = envelope_parts(&envelope);

    assert_eq!(
        header,
        parsed(
            r#"{"version":1,"entries":[{"format":"png","mimeType":"image/png","offset":0,
                "length":2}]}"#
        )
    );
    assert_eq!(payload, &[4, 5]);
}

#[test]
fn cover_envelope_rejects_an_unsupported_pixel_format() {
    let error = cover_envelope(Some(CoverArt {
        format: PixelFormat::Rgb24,
        mime_type: "application/octet-stream".to_string(),
        data: vec![1, 2, 3],
    }))
    .expect_err("a raw pixel buffer must not reach the published cover envelope");

    assert_eq!(error.message(), "cover must be JPEG or PNG, got rgb24");
}

#[test]
fn encodes_missing_cover_as_an_empty_envelope() {
    let envelope = cover_envelope(None).expect("empty cover should encode");
    let (header, payload) = envelope_parts(&envelope);

    assert_eq!(header, parsed(r#"{"version":1,"entries":[]}"#));
    assert!(payload.is_empty());
}

#[test]
fn encodes_thumbnail_metadata_and_image_bytes_in_one_binary_envelope() {
    let envelope = encode_thumbnail_envelope(&test_frames(), &[0, 1], usize::MAX)
        .expect("envelope should encode");
    let (header, payload) = envelope_parts(&envelope);

    assert_eq!(
        header,
        parsed(
            r#"{"version":1,"entries":[
                {"trackId":3,"width":320,"height":180,"timestampSec":0.25,"format":"jpeg",
                 "mimeType":"image/jpeg","offset":0,"length":3},
                {"trackId":3,"width":640,"height":360,"timestampSec":1.0,"format":"jpeg",
                 "mimeType":"image/jpeg","offset":3,"length":2}]}"#
        )
    );
    assert_eq!(payload, &[1, 2, 3, 4, 5]);
}

#[test]
fn duplicate_thumbnail_timestamps_share_the_same_payload_bytes() {
    let envelope = encode_thumbnail_envelope(&test_frames(), &[0, 1, 0], usize::MAX)
        .expect("envelope should encode");
    let (header, payload) = envelope_parts(&envelope);

    let entries = header["entries"].as_array().expect("header should carry an entries array");
    assert_eq!(entries.len(), 3);
    assert_eq!(entries[0]["offset"], entries[2]["offset"]);
    assert_eq!(entries[0]["length"], entries[2]["length"]);
    assert_eq!(entries[1]["offset"], Value::from(3));
    assert_eq!(payload, &[1, 2, 3, 4, 5]);
}

#[test]
fn thumbnail_envelope_rejects_an_unreferenced_non_jpeg_frame() {
    let mut frames = test_frames();
    frames[1].format = PixelFormat::Png;

    let error = encode_thumbnail_envelope(&frames, &[0], usize::MAX)
        .expect_err("every thumbnail payload must satisfy the published envelope");

    assert_eq!(error.message(), "thumbnail must be JPEG, got png");
}

#[test]
fn thumbnail_envelope_rejects_payloads_beyond_the_output_cap() {
    let result = encode_thumbnail_envelope(&test_frames(), &[0, 1], 4);

    assert!(result.is_err());
    assert_eq!(result.unwrap_err().message(), "thumbnail payload is too large");
}

#[test]
fn thumbnail_envelope_counts_header_bytes_toward_the_output_cap() {
    let payload_len = test_frames().iter().map(|frame| frame.data.len()).sum();

    let result = encode_thumbnail_envelope(&test_frames(), &[0, 1], payload_len);

    assert!(result.is_err());
    assert_eq!(result.unwrap_err().message(), "envelope is too large");
}

#[test]
fn thumbnail_envelope_accepts_its_exact_total_size() {
    let uncapped = encode_thumbnail_envelope(&test_frames(), &[0, 1], usize::MAX)
        .expect("test envelope should encode");

    let capped = encode_thumbnail_envelope(&test_frames(), &[0, 1], uncapped.len())
        .expect("the exact complete-envelope limit should be accepted");

    assert_eq!(capped, uncapped);
}

#[test]
fn a_thumbnail_must_be_one_of_the_frames() {
    let error = thumbnail_entries(&test_frames(), &[0, 2], usize::MAX).unwrap_err();
    assert_eq!(error.message(), "thumbnail frame index out of range");
}

#[test]
fn an_envelope_starts_with_the_length_of_its_header() {
    let header = vec![7u8; 300];
    let envelope = encode_binary_envelope(&header, &[vec![1], vec![2, 3]], 400).unwrap();
    assert_eq!(&envelope[..4], &[44, 1, 0, 0]);
    assert_eq!(&envelope[4..304], &header[..]);
    assert_eq!(&envelope[304..], &[1, 2, 3]);
}

#[test]
fn an_envelope_fits_exactly_from_its_total_size_on() {
    let total = encode_thumbnail_envelope(&test_frames(), &[0, 1, 0], usize::MAX)
        .expect("test envelope should encode")
        .len();

    for limit in 0..total {
        assert!(encode_thumbnail_envelope(&test_frames(), &[0, 1, 0], limit).is_err());
    }
    assert!(encode_thumbnail_envelope(&test_frames(), &[0, 1, 0], total).is_ok());
}
