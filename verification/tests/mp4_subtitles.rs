use media_parser::format::mp4::subtitles::{
    add_cue, decode_plain_text_sample, decode_subtitle_sample, decode_tx3g_sample,
    decode_wvtt_sample, matches_filter, place_subtitle_sample, plan_subtitle_trak, subtitle_slots,
    subtitle_track, subtitle_traks, TrackFilter,
};
use media_parser::time::Duration;

#[test]
fn test_decode_tx3g_sample() {
    let mut sample = Vec::new();
    sample.extend_from_slice(&5u16.to_be_bytes());
    sample.extend_from_slice(b"Hello");
    sample.extend_from_slice(b"style-data");

    assert_eq!(decode_tx3g_sample(&sample), Some("Hello".to_string()));
}

#[test]
fn test_decode_tx3g_utf16_bom_sample() {
    let text = [0xFE, 0xFF, 0x65, 0xE5, 0x67, 0x2C, 0x8A, 0x9E]; // 日本語
    let mut sample = Vec::new();
    sample.extend_from_slice(&(text.len() as u16).to_be_bytes());
    sample.extend_from_slice(&text);

    assert_eq!(decode_tx3g_sample(&sample), Some("日本語".to_string()));
}

#[test]
fn test_decode_tx3g_utf16_be_sample() {
    let text = [0x65, 0xE5, 0x67, 0x2C, 0x8A, 0x9E]; // 日本語
    let mut sample = Vec::new();
    sample.extend_from_slice(&(text.len() as u16).to_be_bytes());
    sample.extend_from_slice(&text);

    assert_eq!(decode_tx3g_sample(&sample), Some("日本語".to_string()));
}

#[test]
fn test_decode_wvtt_payl_sample() {
    let mut payl = Vec::new();
    payl.extend_from_slice(&14u32.to_be_bytes());
    payl.extend_from_slice(b"payl");
    payl.extend_from_slice(b"Hi VTT");

    assert_eq!(decode_wvtt_sample(&payl), Some("Hi VTT".to_string()));
}

#[test]
fn test_matches_language_filter_case_insensitive() {
    assert!(matches_filter(
        3,
        Some("eng"),
        Some(&TrackFilter::Language("ENG".to_string()))
    ));
    assert!(!matches_filter(3, Some("eng"), Some(&TrackFilter::TrackId(4))));
    assert!(matches_filter(3, None, None));
}

fn atom(fourcc: &[u8; 4], payload: &[u8]) -> Vec<u8> {
    let mut data = ((payload.len() + 8) as u32).to_be_bytes().to_vec();
    data.extend_from_slice(fourcc);
    data.extend_from_slice(payload);
    data
}

fn words(list: &[u32]) -> Vec<u8> {
    let mut data = Vec::new();
    for word in list {
        data.extend_from_slice(&word.to_be_bytes());
    }
    data
}

/// A movie with one timed-text track of two samples in one chunk, two seconds
/// each, at a thousand ticks a second.
fn movie() -> Vec<u8> {
    let mut tkhd = vec![0u8; 84];
    tkhd[12..16].copy_from_slice(&2u32.to_be_bytes());
    let mut mdhd = vec![0u8; 24];
    mdhd[12..16].copy_from_slice(&1000u32.to_be_bytes());
    mdhd[16..20].copy_from_slice(&4000u32.to_be_bytes());
    mdhd[20..22].copy_from_slice(&0x15c7u16.to_be_bytes());
    let mut hdlr = vec![0u8; 12];
    hdlr[8..12].copy_from_slice(b"sbtl");
    let mut stsd = words(&[0, 1]);
    stsd.extend(atom(b"tx3g", &[0; 8]));
    let mut stbl = atom(b"stsd", &stsd);
    stbl.extend(atom(b"stts", &words(&[0, 1, 2, 2000])));
    stbl.extend(atom(b"stsz", &words(&[0, 0, 2, 4, 5])));
    stbl.extend(atom(b"stsc", &words(&[0, 1, 1, 2, 1])));
    stbl.extend(atom(b"stco", &words(&[0, 1, 100])));
    let mut mdia = atom(b"mdhd", &mdhd);
    mdia.extend(atom(b"hdlr", &hdlr));
    mdia.extend(atom(b"minf", &atom(b"stbl", &stbl)));
    let mut trak = atom(b"tkhd", &tkhd);
    trak.extend(atom(b"mdia", &mdia));
    atom(b"moov", &atom(b"trak", &trak))
}

#[test]
fn a_subtitle_track_is_planned_read_and_told() {
    let moov = movie();
    let traks = subtitle_traks(&moov);
    assert_eq!(traks.len(), 1);
    let plan = plan_subtitle_trak(&traks[0], None, None).expect("a plan").expect("wanted");
    assert_eq!(plan.slots.len(), 2);
    assert_eq!(place_subtitle_sample(&plan.tables, 1).unwrap(), (100, 4));
    assert_eq!(place_subtitle_sample(&plan.tables, 2).unwrap(), (104, 5));
    assert!(place_subtitle_sample(&plan.tables, 3).is_err());
    let mut cues = Vec::new();
    add_cue(&mut cues, "tx3g", &plan.slots[0], &[0, 2, b'H', b'i']);
    add_cue(&mut cues, "tx3g", &plan.slots[1], &[0, 9, b'x']);
    assert_eq!(cues.len(), 1);
    assert_eq!(cues[0].cue_id, 1);
    assert_eq!(cues[0].text, "Hi");
    assert_eq!(cues[0].start_time, Duration::from_millis(0));
    assert_eq!(cues[0].end_time, Duration::from_millis(2000));
    let track = subtitle_track(&traks[0], plan.tables, cues);
    assert_eq!(track.base.id, 2);
    assert_eq!(track.base.codec, "tx3g");
    assert_eq!(track.base.language, Some("eng".to_string()));
    assert_eq!(
        track.base.properties,
        vec![
            ("handler_type".to_string(), "sbtl".to_string()),
            ("sample_count".to_string(), "2".to_string()),
            ("cue_count".to_string(), "1".to_string()),
        ]
    );
}

#[test]
fn cues_outside_a_range_are_not_read() {
    let moov = movie();
    let traks = subtitle_traks(&moov);
    let range = Some((Duration::from_millis(2000), Duration::from_millis(3000)));
    let plan = plan_subtitle_trak(&traks[0], None, range).expect("a plan").expect("wanted");
    assert_eq!(plan.slots.len(), 1);
    assert_eq!(plan.slots[0].sample_index, 2);
    let other = plan_subtitle_trak(&traks[0], Some(&TrackFilter::TrackId(9)), None);
    assert!(matches!(other, Ok(None)));
}

#[test]
fn a_damaged_timing_table_is_a_subtitle_error() {
    let error = subtitle_slots(&[0; 3], 1, 1000, None).unwrap_err();
    assert_eq!(
        error.message(),
        "Subtitle error: subtitle stts table is too large or invalid"
    );
}

#[test]
fn other_codecs_hold_plain_text() {
    assert_eq!(decode_subtitle_sample("stpp", b" line \0"), Some("line".to_string()));
    assert_eq!(decode_plain_text_sample(b"\0"), None);
}
