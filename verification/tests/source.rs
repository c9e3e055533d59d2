use media_parser::errors::MediaParserError;
use media_parser::source::{
    check_origin_scheme, contains_header, is_http_source, session_expiration, source_key,
    DefaultHeaders, ExpirationPolicy, LocalSourceVersion, MergedHeaders, Target, UrlOrigin,
    SESSION_REAPER_SECS,
};
use media_parser::time::Duration;
use std::collections::HashSet;

type Headers = Vec<(String, String)>;

fn headers_from(list: &[(&str, &str)]) -> Headers {
    list.iter().map(|(name, value)| (name.to_string(), value.to_string())).collect()
}

fn in_order(headers: Option<Headers>) -> Option<Headers> {
    headers.map(|mut list| {
        list.sort();
        list
    })
}

fn duplicate(headers: &Option<Headers>) -> Option<Headers> {
    headers.clone()
}

#[test]
fn per_call_host_is_rejected_ignoring_case_when_defaults_apply() {
    for origins in [None, Some(vec!["https://api.example".to_string()])] {
        let defaults =
            DefaultHeaders::new(headers_from(&[("authorization", "Bearer test")]), origins)
                .unwrap();
        for name in ["Host", "host", "HOST", "hOsT"] {
            for override_default in [false, true] {
                let mut headers = headers_from(&[(name, "other-tenant.example")]);
                if override_default {
                    headers.push(("Authorization".to_string(), "Bearer per-call".to_string()));
                }
                let result = defaults.merge("https://api.example/file", Some(headers));
                assert!(
                    matches!(result, Err(MediaParserError::Other(ref message)) if message.contains("Host")),
                    "per-call {name} must fail when defaults apply: {result:?}"
                );
            }
        }
    }
}

#[test]
fn per_call_host_is_preserved_when_no_defaults_apply() {
    let configured = headers_from(&[("authorization", "Bearer test")]);
    for (headers, origins) in [
        (Vec::new(), None),
        (Vec::new(), Some(vec!["https://api.example".to_string()])),
        (configured.clone(), Some(vec![])),
        (configured, Some(vec!["https://other.example".to_string()])),
    ] {
        let defaults = DefaultHeaders::new(headers, origins).unwrap();
        let per_call = Some(headers_from(&[("Host", "other-tenant.example")]));
        let merged =
            defaults.merge("https://api.example/file", duplicate(&per_call)).unwrap();
        assert_eq!(merged.headers, per_call);
        assert!(!merged.force_same_origin);
    }
}

#[test]
fn rust_default_host_is_allowed() {
    let headers = headers_from(&[
        ("Host", "trusted-tenant.example"),
        ("authorization", "Bearer test"),
    ]);
    for origins in [None, Some(vec!["https://api.example".to_string()])] {
        let restricted = origins.is_some();
        let defaults = DefaultHeaders::new(headers.clone(), origins).unwrap();
        let merged = defaults.merge("https://api.example/file", None).unwrap();
        assert_eq!(in_order(merged.headers), in_order(Some(headers.clone())));
        assert_eq!(merged.force_same_origin, restricted);
    }
}

#[test]
fn per_call_headers_override_defaults_ignoring_case() {
    for (default_name, request_name) in
        [("x-app-version", "X-App-Version"), ("X-App-Version", "x-app-version")]
    {
        let defaults = DefaultHeaders::new(
            headers_from(&[(default_name, "1.0"), ("x-other", "keep")]),
            None,
        )
        .unwrap();
        let headers = Some(headers_from(&[(request_name, "2.0")]));
        assert_eq!(
            in_order(
                defaults.merge("https://example.com/video.mp4", headers).unwrap().headers
            ),
            in_order(Some(headers_from(&[(request_name, "2.0"), ("x-other", "keep")]))),
        );
    }
}

#[test]
fn default_headers_only_reach_normalized_allowed_origins() {
    let headers = headers_from(&[("authorization", "Bearer test")]);
    let defaults = DefaultHeaders::new(
        headers.clone(),
        Some(vec!["https://API.EXAMPLE:443/path".to_string()]),
    )
    .unwrap();
    let merged = defaults.merge("https://api.example/video.mp4", None).unwrap();
    assert_eq!(merged.headers, Some(headers));
    assert!(merged.force_same_origin);
    for source in [
        "http://api.example/video.mp4",
        "https://api.example:444/video.mp4",
        "https://sub.api.example/video.mp4",
        "https://api.example.evil/video.mp4",
    ] {
        let per_call = Some(headers_from(&[("x-call", "keep")]));
        let merged = defaults.merge(source, duplicate(&per_call)).unwrap();
        assert_eq!(merged.headers, per_call);
        assert!(!merged.force_same_origin);
    }
}

fn is_default(merged: &MergedHeaders) -> bool {
    merged.headers.is_none() && !merged.force_same_origin
}

#[test]
fn absent_origins_are_global_and_empty_origins_allow_none() {
    let headers = headers_from(&[("user-agent", "app/1.0")]);
    let global = DefaultHeaders::new(headers.clone(), None).unwrap();
    let empty = DefaultHeaders::new(headers.clone(), Some(vec![])).unwrap();
    let merged = global.merge("https://any.example/video.mp4", None).unwrap();
    assert_eq!(merged.headers, Some(headers.clone()));
    assert!(!merged.force_same_origin);
    assert!(is_default(&empty.merge("https://any.example/video.mp4", None).unwrap()));
    for source in ["/tmp/video.mp4", "C:\\video.mp4", "file:///tmp/video.mp4", "https://"] {
        let mut headers = headers.clone();
        headers.push(("Host".to_string(), "other-tenant.example".to_string()));
        assert!(is_default(&global.merge(source, Some(headers.clone())).unwrap()));
        assert!(is_default(&empty.merge(source, Some(headers.clone())).unwrap()));
    }
}

#[test]
fn invalid_default_header_origins_are_rejected() {
    for origin in ["not a URL", "file:///tmp/video.mp4", "ftp://api.example", "https://"] {
        assert!(DefaultHeaders::new(Vec::new(), Some(vec![origin.to_string()])).is_err());
    }
}

#[test]
fn restricted_default_override_with_the_same_value_has_a_distinct_source_key() {
    let source = "https://example.com/video.mp4";
    let defaults = DefaultHeaders::new(
        headers_from(&[("user-agent", "app/1.0")]),
        Some(vec![source.to_string()]),
    )
    .unwrap();
    let inherited = defaults.merge(source, None).unwrap();
    let overridden = defaults.merge(source, duplicate(&inherited.headers)).unwrap();

    assert_eq!(inherited.headers, overridden.headers);
    assert!(inherited.force_same_origin);
    assert!(!overridden.force_same_origin);
    let inherited_key = source_key(source, &inherited, None);
    let overridden_key = source_key(source, &overridden, None);
    assert_ne!(inherited_key, overridden_key);
    assert_eq!(HashSet::from([inherited_key, overridden_key]).len(), 2);
}

#[test]
fn only_effectively_inserted_restricted_defaults_force_same_origin() {
    let source = "https://example.com/video.mp4";
    let defaults = DefaultHeaders::new(
        headers_from(&[("User-Agent", "app/1.0"), ("X-App-Version", "1.0")]),
        Some(vec![source.to_string()]),
    )
    .unwrap();
    let partial_override =
        defaults.merge(source, Some(headers_from(&[("user-agent", "app/1.0")]))).unwrap();
    assert!(partial_override.force_same_origin);
    let full_override = defaults
        .merge(
            source,
            Some(headers_from(&[("user-agent", "app/1.0"), ("x-app-version", "1.0")])),
        )
        .unwrap();
    assert!(!full_override.force_same_origin);
    assert!(!defaults.merge("https://other.example/file", None).unwrap().force_same_origin);

    let empty_defaults = DefaultHeaders::new(Vec::new(), Some(vec![source.to_string()])).unwrap();
    assert!(!empty_defaults.merge(source, None).unwrap().force_same_origin);
}

#[test]
fn remote_source_key_normalizes_header_names_and_order() {
    let first = source_key(
        "https://example.com/video.mp4",
        &MergedHeaders {
            headers: Some(headers_from(&[
                ("X-Test", "one"),
                ("Authorization", "Bearer token"),
            ])),
            force_same_origin: false,
        },
        None,
    );
    let second = source_key(
        "https://example.com/video.mp4",
        &MergedHeaders {
            headers: Some(headers_from(&[
                ("authorization", "Bearer token"),
                ("x-test", "one"),
            ])),
            force_same_origin: false,
        },
        None,
    );

    assert!(first == second);
}

#[test]
fn local_source_key_ignores_headers_and_changes_with_file_version() {
    let version = |length| Some(LocalSourceVersion { length, modified_nanos: Some(1) });
    let first = source_key("/tmp/a.mp4", &MergedHeaders::default(), version(1));
    let with_headers = source_key(
        "/tmp/a.mp4",
        &MergedHeaders {
            headers: Some(headers_from(&[("Authorization", "ignored")])),
            force_same_origin: true,
        },
        version(1),
    );
    assert!(first == with_headers);
    let changed = source_key("/tmp/a.mp4", &MergedHeaders::default(), version(2));
    assert!(first != changed);
}

#[test]
fn missing_local_metadata_keeps_a_stable_key_without_a_version() {
    let first = source_key("/file/that/does/not/exist.mp4", &MergedHeaders::default(), None);
    let second = source_key("/file/that/does/not/exist.mp4", &MergedHeaders::default(), None);

    assert!(first == second);
    assert!(first.local_version.is_none());
}

#[test]
fn local_sessions_slide_for_one_minute_and_remote_sessions_end_after_five() {
    let local = source_key("/file/that/does/not/exist.mp4", &MergedHeaders::default(), None);
    let remote = source_key("https://example.com/video.mp4", &MergedHeaders::default(), None);

    assert!(
        matches!(session_expiration(&local), ExpirationPolicy::Sliding(d) if d == Duration::from_millis(60_000))
    );
    assert!(
        matches!(session_expiration(&remote), ExpirationPolicy::Absolute(d) if d == Duration::from_millis(5 * 60_000))
    );
}

#[test]
fn shared_session_reaper_interval_is_one_second() {
    assert_eq!(SESSION_REAPER_SECS, 1);
}

#[test]
fn source_mode_recognizes_only_http_and_https_urls() {
    assert!(is_http_source("http://example.com/video.mp4"));
    assert!(is_http_source("https://example.com/video.mp4"));
    assert!(!is_http_source("file:///tmp/video.mp4"));
    assert!(!is_http_source("/tmp/video.mp4"));
}

#[test]
fn an_origin_that_is_no_url_is_told_with_its_reason() {
    let error = DefaultHeaders::new(Vec::new(), Some(vec!["not a URL".to_string()])).unwrap_err();
    assert_eq!(
        error.message(),
        "Invalid default headers origin: relative URL without a base"
    );
    let error =
        DefaultHeaders::new(Vec::new(), Some(vec!["ftp://api.example".to_string()])).unwrap_err();
    assert_eq!(error.message(), "Default headers origins must use HTTP(S)");
    assert!(check_origin_scheme(&Ok("https".to_string())).is_ok());
    assert!(check_origin_scheme(&Err("x".to_string())).is_err());
}

#[test]
fn defaults_go_out_to_a_target_that_they_are_for() {
    let defaults =
        DefaultHeaders::new(headers_from(&[("a", "1"), ("A", "2"), ("b", "3")]), None).unwrap();
    let origin = UrlOrigin { scheme: "https".to_string(), host: "h".to_string(), port: 443 };
    let merged = defaults.merge_for(&Target::Remote(Some(origin)), None).unwrap();
    assert_eq!(merged.headers, Some(headers_from(&[("a", "1"), ("b", "3")])));
    assert!(is_default(&defaults.merge_for(&Target::Local, None).unwrap()));
    assert!(contains_header(&headers_from(&[("X-A", "1")]), "x-a"));
}
