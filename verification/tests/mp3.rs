use media_parser::format::mp3::metadata::{
    decode_apic_frame, decode_comment_frame, decode_id3_text, decode_syncsafe, deunsynchronize,
    frame_bytes_to_read, frames_of_tag, frames_to_meta, id3_end, parse_id3_header, pick_cover,
    Id3Frame, Id3Header, ID3_FRAME_HEADER_SIZE,
};
use media_parser::format::mp3::{mp3_tracks, FrameInfo, FrameSearch, Mp3Parser};
use media_parser::format::mp4::subtitles::TrackFilter;
use media_parser::format::mp4::tracks::TrackType;
use media_parser::time::Duration;
use media_parser::types::PixelFormat;

#[test]
fn test_decode_id3_text_utf8() {
    let data = [3, b'H', b'e', b'l', b'l', b'o']; // encoding=3 (UTF-8)
    assert_eq!(decode_id3_text(&data), Some("Hello".to_string()));
}

#[test]
fn test_decode_id3_text_latin1() {
    let data = [0, b'H', b'e', b'l', b'l', b'o']; // encoding=0 (Latin-1)
    assert_eq!(decode_id3_text(&data), Some("Hello".to_string()));
}

#[test]
fn test_decode_id3_text_utf16_le() {
    // encoding=1, BOM=FF FE (LE), "Hi"
    let data = [1, 0xFF, 0xFE, 0x48, 0x00, 0x69, 0x00];
    assert_eq!(decode_id3_text(&data), Some("Hi".to_string()));
}

#[test]
fn test_decode_id3_text_utf16_be() {
    // encoding=1, BOM=FE FF (BE), "Hi"
    let data = [1, 0xFE, 0xFF, 0x00, 0x48, 0x00, 0x69];
    assert_eq!(decode_id3_text(&data), Some("Hi".to_string()));
}

#[test]
fn test_decode_id3_text_empty() {
    assert_eq!(decode_id3_text(&[]), None);
    assert_eq!(decode_id3_text(&[0]), None); // Only encoding byte, no text
}

#[test]
fn test_decode_syncsafe_ignores_high_bits() {
    assert_eq!(decode_syncsafe([0xff, 0x81, 0x82, 0x83]), 0x0fe0_4103);
}

#[test]
fn test_deunsynchronize_removes_inserted_zeroes_and_preserves_final_byte() {
    let decoded = deunsynchronize(&[0xff, 0, 0xff, 0, 0x12, 0xff]).expect("decode");
    assert_eq!(decoded, [0xff, 0xff, 0x12, 0xff]);
}

fn id3_header(version: u8, tag_size: usize) -> Vec<u8> {
    let size = tag_size as u32;
    vec![
        b'I',
        b'D',
        b'3',
        version,
        0,
        0,
        ((size >> 21) & 0x7f) as u8,
        ((size >> 14) & 0x7f) as u8,
        ((size >> 7) & 0x7f) as u8,
        (size & 0x7f) as u8,
    ]
}

/// Builds a v2.3 TIT2 text frame holding `text` (UTF-8 encoding byte).
fn tit2_frame(text: &str) -> Vec<u8> {
    let mut frame = b"TIT2".to_vec();
    frame.extend_from_slice(&(text.len() as u32 + 1).to_be_bytes());
    frame.extend_from_slice(&[0, 0]);
    frame.push(3);
    frame.extend_from_slice(text.as_bytes());
    frame
}

#[test]
fn read_metadata_stops_walk_on_frame_overrunning_tag() {
    let tag_size = tit2_frame("Hi").len() + ID3_FRAME_HEADER_SIZE;
    let header = parse_id3_header(&id3_header(3, tag_size)).expect("a header");
    assert_eq!(id3_end(&header), 10 + tag_size as u64);
    let mut tag = tit2_frame("Hi");
    // A frame header whose declared size overruns the end of the tag.
    tag.extend_from_slice(b"TALB");
    tag.extend_from_slice(&500u32.to_be_bytes());
    tag.extend_from_slice(&[0, 0]);

    let frames = frames_of_tag(&header, &tag).expect("frames");
    let values = frames_to_meta(&frames);

    assert!(values.iter().any(|meta| meta.key == "TIT2" && meta.value == "Hi"));
    assert!(values.iter().all(|meta| meta.key != "TALB"));
}

#[test]
fn read_id3_frames_skips_id3v22_without_reading_tag_data() {
    let header = Id3Header { version: (2, 0), flags: 0, tag_size: 9 };

    assert!(matches!(frame_bytes_to_read(&header), Ok(None)));
    assert!(frames_of_tag(&header, &[]).expect("no frames").is_empty());
}

#[test]
fn data_without_a_tag_has_no_header() {
    assert_eq!(parse_id3_header(b"RIFF------"), None);
    assert_eq!(parse_id3_header(b"ID3"), None);
}

#[test]
fn an_oversized_tag_is_refused() {
    let header = Id3Header { version: (3, 0), flags: 0, tag_size: 64 * 1024 * 1024 + 1 };
    assert!(frame_bytes_to_read(&header).is_err());
}

#[test]
fn a_comment_is_read_behind_its_description() {
    let mut data = vec![3];
    data.extend_from_slice(b"eng");
    data.extend_from_slice(b"note\0text");
    assert_eq!(decode_comment_frame(&data), Some("text".to_string()));
}

fn apic(kind: u8, mime: &str, image: &[u8]) -> Vec<u8> {
    let mut data = vec![0];
    data.extend_from_slice(mime.as_bytes());
    data.push(0);
    data.push(kind);
    data.extend_from_slice(b"x\0");
    data.extend_from_slice(image);
    data
}

#[test]
fn a_picture_is_read_with_its_kind_and_format() {
    let image = [0xff, 0xd8, 0xff, 1];
    let (kind, cover) = decode_apic_frame(&apic(3, "image/jpeg", &image)).expect("a picture");
    assert_eq!(kind, 3);
    assert_eq!(cover.format, PixelFormat::Jpeg);
    assert_eq!(cover.data, image);
}

#[test]
fn the_front_cover_goes_before_other_pictures() {
    let other = apic(0, "image/jpeg", &[0xff, 0xd8, 0xff, 1]);
    let front = apic(3, "image/jpeg", &[0xff, 0xd8, 0xff, 2]);
    let frames = vec![
        Id3Frame { id: *b"APIC", data: other },
        Id3Frame { id: *b"APIC", data: front },
    ];
    let cover = pick_cover(&frames).expect("a cover");
    assert_eq!(cover.data, [0xff, 0xd8, 0xff, 2]);
    assert!(pick_cover(&[]).is_none());
}

fn found(channel_mode: u8) -> FrameSearch {
    FrameSearch::Found {
        header: FrameInfo {
            bitrate_kbps: 128,
            version: "Mpeg1".to_string(),
            layer: "Layer3".to_string(),
            channel_mode,
            sample_rate_hz: 44_100,
        },
        offset: 417,
    }
}

#[test]
fn an_mp3_stream_has_one_audio_track() {
    let tracks = mp3_tracks(&found(0), 52, "Cbr").expect("tracks");
    assert_eq!(tracks.len(), 1);
    match &tracks[0] {
        TrackType::Audio(audio) => {
            assert_eq!(audio.base.id, 1);
            assert_eq!(audio.base.codec, "mp3");
            assert_eq!(audio.base.timescale, 1000);
            assert_eq!(audio.base.duration, 52);
            assert_eq!(audio.channels, 2);
            assert_eq!(audio.sample_rate, 44_100);
            assert_eq!(
                audio.base.properties[0],
                ("offset".to_string(), "417".to_string())
            );
            assert_eq!(
                audio.base.properties[5],
                ("duration_method".to_string(), "Cbr".to_string())
            );
        }
        other => panic!("not audio: {:?}", other),
    }
}

#[test]
fn the_single_channel_mode_is_mono() {
    match &mp3_tracks(&found(3), 0, "Cbr").expect("tracks")[0] {
        TrackType::Audio(audio) => assert_eq!(audio.channels, 1),
        other => panic!("not audio: {:?}", other),
    }
}

#[test]
fn a_bad_mp3_frame_is_reported_with_its_offset() {
    assert!(mp3_tracks(&FrameSearch::NotFound, 0, "Cbr").expect("none").is_empty());
    let error = mp3_tracks(&FrameSearch::InvalidHeader { offset: 9 }, 0, "Cbr").unwrap_err();
    assert_eq!(error.message(), "Invalid MP4 format: invalid MP3 frame header at offset 9");
}

#[test]
fn mp3_streams_hold_no_frames_and_no_subtitles() {
    let text = Mp3Parser.parse_frame(1, Duration::from_millis(5)).unwrap_err().message();
    assert!(text.ends_with("MP3 does not contain video frames or MP4 thumbnails"));
    assert!(Mp3Parser.parse_frames(1, &[]).expect("no times").is_empty());
    let times = [Duration::from_millis(0), Duration::from_millis(1)];
    assert_eq!(Mp3Parser.parse_frames(1, &times).unwrap_err().message(), text);
    assert!(Mp3Parser.parse_subtitles(None).is_empty());
    assert!(Mp3Parser.parse_subtitles(Some(TrackFilter::TrackId(1))).is_empty());
}
