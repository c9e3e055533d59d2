use media_parser::envelope::JS_MAX_SAFE_INTEGER;
use media_parser::format::mp4::subtitles::TrackFilter;
use media_parser::subtitle_command::prepare_subtitle_request;
use media_parser::time::Duration;

#[test]
fn subtitle_track_id_takes_precedence_over_language() {
    let request = prepare_subtitle_request(Some(2), Some("eng".to_string()), None, None)
        .expect("filter is valid");

    assert!(matches!(request.filter, Some(TrackFilter::TrackId(2))));
    assert!(!request.first_track_only);
}

#[test]
fn subtitle_track_id_zero_prepares_the_first_track_core_request() {
    let request = prepare_subtitle_request(Some(0), Some("spa".to_string()), None, None)
        .expect("track zero is valid");

    assert!(request.filter.is_none());
    assert!(request.first_track_only);
}

#[test]
fn subtitle_accepts_the_maximum_u32_track_id_without_a_sentinel() {
    let request = prepare_subtitle_request(Some(u32::MAX), None, None, None)
        .expect("the full Rust track-id domain is valid");

    assert!(matches!(request.filter, Some(TrackFilter::TrackId(u32::MAX))));
    assert!(!request.first_track_only);
}

#[test]
fn subtitle_range_requires_paired_strictly_increasing_endpoints() {
    for (start, end) in [
        (Some(0), None),
        (None, Some(1)),
        (Some(1), Some(1)),
        (Some(2), Some(1)),
    ] {
        assert!(
            prepare_subtitle_request(None, None, start, end).is_err(),
            "range {start:?}..{end:?} should fail"
        );
    }

    let request = prepare_subtitle_request(None, None, Some(0), Some(1))
        .expect("a paired increasing range is valid");
    assert_eq!(request.range, Some((Duration::from_nanos(0), Duration::from_millis(1))));
}

#[test]
fn subtitle_range_accepts_javascript_safe_integer_boundary() {
    let request = prepare_subtitle_request(
        None,
        None,
        Some(JS_MAX_SAFE_INTEGER - 1),
        Some(JS_MAX_SAFE_INTEGER),
    )
    .expect("the JavaScript safe integer boundary is valid");

    assert_eq!(
        request.range,
        Some((
            Duration::from_millis(JS_MAX_SAFE_INTEGER - 1),
            Duration::from_millis(JS_MAX_SAFE_INTEGER),
        ))
    );
}

#[test]
fn subtitle_range_rejects_values_above_javascript_safe_integer_boundary() {
    let error = prepare_subtitle_request(
        None,
        None,
        Some(JS_MAX_SAFE_INTEGER),
        Some(JS_MAX_SAFE_INTEGER + 1),
    )
    .expect_err("unsafe millisecond values must fail")
    .message();

    assert!(error.contains("safe integer"));
}

#[test]
fn subtitle_invalid_and_empty_ranges_fail_before_reader_or_session_work() {
    for (start, end) in [(Some(1), None), (Some(1), Some(1)), (Some(2), Some(1))] {
        let error = prepare_subtitle_request(None, None, start, end)
            .expect_err("invalid range must fail")
            .message();

        assert!(error.contains("subtitle range"), "unexpected error: {error}");
    }
}

#[test]
fn a_language_is_asked_for_without_a_track() {
    let request = prepare_subtitle_request(None, Some("eng".to_string()), None, None).unwrap();
    assert!(matches!(request.filter, Some(TrackFilter::Language(ref l)) if l == "eng"));
    assert!(request.range.is_none());
}
