use media_parser::boxes::iter_boxes;
use media_parser::helpers::tables::{
    extract_track_tables, language_from_mdhd, moov_payload, stsd_entry_types,
};
use media_parser::helpers::{Mp4Box, Mp4Nav};
use media_parser::mp4_writer::movie::{
    build_moov_av, build_moov_av_with_offsets, build_moov_video, compute_offsets, AudioMoovParams,
    VideoMoovParams,
};
use media_parser::mp4_writer::segment::{
    build_mdat_header, build_segment_headers, coalesce_sample_reads, desired_chunk_size,
    payload_size, SampleRef, DEFAULT_CHUNK, MAX_CHUNK, MIN_CHUNK,
};
use media_parser::mp4_writer::{build_ftyp_isom, language_to_mdhd_bits, HierBoxWriter};

fn dummy_avcc() -> Vec<u8> {
    // Minimal avcC: version=1, profile/compat/level bytes and no NAL arrays.
    vec![1, 100, 0, 30, 0]
}

#[test]
fn builds_ftyp() {
    let ftyp = build_ftyp_isom();
    assert!(ftyp.len() >= 24);
    assert_eq!(&ftyp[4..8], b"ftyp");
}

fn first_trak(payload: &[u8]) -> &[u8] {
    let mut trak_payload = None;
    let mut it = iter_boxes(payload);
    while let Some((typ, pl)) = it.next() {
        if typ == Mp4Box::Trak.bytes() {
            trak_payload = Some(pl);
            break;
        }
    }
    trak_payload.expect("trak present")
}

#[test]
fn builds_video_moov_and_parses_back() {
    // 3 samples, 1s each at 1000 Hz
    let stts = vec![(3u32, 1000u32)];
    let sizes = vec![10u32, 20u32, 30u32];
    let sync = vec![1u32];
    let avcc = dummy_avcc();

    let moov = build_moov_video(&VideoMoovParams {
        movie_timescale: None,
        track_timescale: 1000,
        stts_pairs: &stts,
        ctts_pairs: None,
        sample_sizes: &sizes,
        sync_samples_1based: Some(&sync),
        track_id: 1,
        width: 320,
        height: 240,
        language: Some("eng"),
        mdat_base_offset: 0,
        avcc_payload: &avcc,
        edit_list: None,
    });

    // Validate moov structure presence
    assert_eq!(&moov[4..8], b"moov");
    let payload = moov_payload(&moov);

    // Find trak
    let trak = first_trak(payload);

    // Validate mdhd language and timescale
    let mdhd =
        trak.nav(&[Mp4Box::Mdia.bytes(), Mp4Box::Mdhd.bytes()]).expect("mdhd present");
    assert_eq!(language_from_mdhd(mdhd).as_deref(), Some("eng"));
    // timescale at offset 12
    let ts = u32::from_be_bytes([mdhd[12], mdhd[13], mdhd[14], mdhd[15]]);
    assert_eq!(ts, 1000);

    // Validate stsd codec type
    let stsd = trak
        .nav(&[
            Mp4Box::Mdia.bytes(),
            Mp4Box::Minf.bytes(),
            Mp4Box::Stbl.bytes(),
            Mp4Box::Stsd.bytes(),
        ])
        .expect("stsd present");
    let types = stsd_entry_types(stsd);
    assert_eq!(&types[0], b"avc1");
    // Ensure width/height are readable at expected offsets (per tracks.rs)
    let entry = &stsd[16..];
    assert!(entry.len() >= 36);
    let w = u16::from_be_bytes([entry[24], entry[25]]) as u32;
    let h = u16::from_be_bytes([entry[26], entry[27]]) as u32;
    assert_eq!((w, h), (320, 240));

    // Validate timing/size tables
    let tables = extract_track_tables(trak).expect("tables");
    assert_eq!(tables.timescale, 1000);
    assert_eq!(tables.sizes, sizes);
    assert_eq!(tables.timing, stts);
    // stsc should map 1 sample per chunk
    assert_eq!(tables.stsc, vec![(1, 1)]);
}

#[test]
fn streams_mdat_and_offsets_match() {
    let mut src_bytes = vec![0u8; 1000];
    let s1 = b"AAAA"; // 4 bytes
    let s2 = b"BBBBBB"; // 6 bytes
    let s3 = b"CCC"; // 3 bytes
    src_bytes[100..104].copy_from_slice(s1);
    src_bytes[500..506].copy_from_slice(s2);
    src_bytes[700..703].copy_from_slice(s3);

    // samples
    let samples = vec![
        SampleRef { src_offset: 100, size: 4 },
        SampleRef { src_offset: 500, size: 6 },
        SampleRef { src_offset: 700, size: 3 },
    ];

    // timing: 3 samples of 1s at 1000 Hz
    let stts = vec![(3u32, 1000u32)];
    let sizes = vec![4u32, 6u32, 3u32];
    let sync = vec![1u32];
    let avcc = dummy_avcc();
    let meta = VideoMoovParams {
        movie_timescale: None,
        track_timescale: 1000,
        stts_pairs: &stts,
        ctts_pairs: None,
        sample_sizes: &sizes,
        sync_samples_1based: Some(&sync),
        track_id: 1,
        width: 2,
        height: 2,
        language: Some("und"),
        mdat_base_offset: 0,
        avcc_payload: &avcc,
        edit_list: None,
    };

    let headers = build_segment_headers(&meta, payload_size(&samples));
    let mut out = headers.ftyp.clone();
    out.extend_from_slice(&headers.moov);
    out.extend_from_slice(&headers.mdat_header);
    for group in coalesce_sample_reads(&samples, 0) {
        for (off, len) in group.parts {
            let at = group.start as usize + off;
            out.extend_from_slice(&src_bytes[at..at + len]);
        }
    }

    // Parse first two boxes to get mdat base
    let ftyp_len = u32::from_be_bytes([out[0], out[1], out[2], out[3]]) as usize;
    assert_eq!(&out[4..8], b"ftyp");
    let moov_off = ftyp_len;
    let moov_len = u32::from_be_bytes([
        out[moov_off],
        out[moov_off + 1],
        out[moov_off + 2],
        out[moov_off + 3],
    ]) as usize;
    assert_eq!(&out[moov_off + 4..moov_off + 8], b"moov");
    let mdat_header_off = moov_off + moov_len;
    assert_eq!(&out[mdat_header_off + 4..mdat_header_off + 8], b"mdat");
    let mdat_base = (mdat_header_off + 8) as u64;

    // Validate that mdat payload equals concatenated sample bytes
    let payload = &out[mdat_header_off + 8..];
    let expected = [s1.as_slice(), s2.as_slice(), s3.as_slice()].concat();
    assert_eq!(payload, &expected);

    // Validate stco offsets equal computed offsets
    let moov_bytes = &out[moov_off..moov_off + moov_len];
    let trak = first_trak(moov_payload(moov_bytes));
    let tables = extract_track_tables(trak).expect("tables");
    // Compute expected offsets
    let exp_offs = compute_offsets(mdat_base, &sizes);
    assert_eq!(tables.offsets, exp_offs);
}

#[test]
fn coalesces_contiguous_and_splits_gaps() {
    let samples = vec![
        SampleRef { src_offset: 0, size: 4 },
        SampleRef { src_offset: 4, size: 2 }, // contiguous
        SampleRef { src_offset: 20, size: 3 }, // gap
        SampleRef { src_offset: 23, size: 1 }, // contiguous with previous
    ];
    let groups = coalesce_sample_reads(&samples, 0);
    assert_eq!(groups.len(), 2);
    assert_eq!(groups[0].start, 0);
    assert_eq!(groups[0].len, 6);
    assert_eq!(groups[0].parts, vec![(0, 4), (4, 2)]);
    assert_eq!(groups[1].start, 20);
    assert_eq!(groups[1].len, 4);
    assert_eq!(groups[1].parts, vec![(0, 3), (3, 1)]);
}

#[test]
fn boxes_are_closed_with_their_size() {
    let mut writer = HierBoxWriter::new();
    let outer = writer.start_box(b"moov");
    let inner = writer.start_box(b"free");
    writer.bytes(&[1, 2]);
    writer.end_box(inner);
    writer.end_box(outer);
    assert_eq!(
        writer.into_vec(),
        [
            0, 0, 0, 18, b'm', b'o', b'o', b'v', 0, 0, 0, 10, b'f', b'r', b'e', b'e', 1, 2
        ]
    );
}

#[test]
fn languages_are_packed_in_five_bits_a_letter() {
    assert_eq!(language_to_mdhd_bits("eng"), 0x15c7);
    assert_eq!(language_to_mdhd_bits("und"), 0x55c4);
}

#[test]
fn large_payloads_have_a_64_bit_size() {
    assert_eq!(build_mdat_header(4), [0, 0, 0, 12, b'm', b'd', b'a', b't']);
    let large = build_mdat_header(0x1_0000_0000);
    assert_eq!(large.len(), 16);
    assert_eq!(&large[..8], &[0, 0, 0, 1, b'm', b'd', b'a', b't']);
    assert_eq!(&large[8..], &0x1_0000_0010u64.to_be_bytes());
}

#[test]
fn chunk_sizes_are_kept_in_bounds() {
    assert_eq!(desired_chunk_size(None, None), DEFAULT_CHUNK);
    assert_eq!(desired_chunk_size(Some(1), None), MIN_CHUNK);
    assert_eq!(desired_chunk_size(None, Some(usize::MAX)), MAX_CHUNK);
    assert_eq!(desired_chunk_size(Some(512), None), 512 * 1024);
}

#[test]
fn video_and_audio_share_a_movie() {
    let v_stts = vec![(2u32, 500u32)];
    let a_stts = vec![(3u32, 1024u32)];
    let v_sizes = vec![10u32, 20];
    let a_sizes = vec![1u32, 2, 3];
    let avcc = dummy_avcc();
    let esds = vec![0u8; 4];
    let video = VideoMoovParams {
        movie_timescale: Some(1000),
        track_timescale: 1000,
        stts_pairs: &v_stts,
        ctts_pairs: None,
        sample_sizes: &v_sizes,
        sync_samples_1based: None,
        track_id: 1,
        width: 2,
        height: 2,
        language: None,
        mdat_base_offset: 100,
        avcc_payload: &avcc,
        edit_list: None,
    };
    let audio = AudioMoovParams {
        track_timescale: 48_000,
        stts_pairs: &a_stts,
        ctts_pairs: None,
        sample_sizes: &a_sizes,
        track_id: 2,
        channels: 2,
        sample_rate: 48_000,
        language: None,
        mdat_base_offset: 130,
        esds_payload: &esds,
        edit_list: None,
    };
    let moov = build_moov_av(&video, &audio);
    let payload = moov_payload(&moov);
    let mut traks = Vec::new();
    let mut it = iter_boxes(payload);
    while let Some((typ, pl)) = it.next() {
        if typ == Mp4Box::Trak.bytes() {
            traks.push(pl);
        }
    }
    assert_eq!(traks.len(), 2);
    assert_eq!(extract_track_tables(traks[0]).expect("video").offsets, vec![100, 110]);
    assert_eq!(extract_track_tables(traks[1]).expect("audio").offsets, vec![130, 131, 133]);
    let placed = build_moov_av_with_offsets(&video, &audio, &[7, 8], &[9, 10, 11], None, None);
    let trak = first_trak(moov_payload(&placed));
    assert_eq!(extract_track_tables(trak).expect("video").offsets, vec![7, 8]);
}

#[test]
fn a_large_segment_counts_from_its_wider_header() {
    let stts = vec![(2u32, 1000u32)];
    let sizes = vec![u32::MAX, 8];
    let samples = vec![
        SampleRef { src_offset: 0, size: u32::MAX },
        SampleRef { src_offset: 5_000_000_000, size: 8 },
    ];
    let avcc = dummy_avcc();
    let meta = VideoMoovParams {
        movie_timescale: None,
        track_timescale: 1000,
        stts_pairs: &stts,
        ctts_pairs: None,
        sample_sizes: &sizes,
        sync_samples_1based: None,
        track_id: 1,
        width: 2,
        height: 2,
        language: None,
        mdat_base_offset: 0,
        avcc_payload: &avcc,
        edit_list: None,
    };
    let headers = build_segment_headers(&meta, payload_size(&samples));
    assert_eq!(headers.mdat_header.len(), 16);
    let before = headers.ftyp.len() + headers.moov.len() + headers.mdat_header.len();
    assert_eq!(headers.mdat_base, before as u64);
    let tables = extract_track_tables(first_trak(moov_payload(&headers.moov))).expect("tables");
    assert_eq!(tables.offsets, compute_offsets(headers.mdat_base, &sizes));
    assert_eq!(tables.offsets[1], headers.mdat_base + u64::from(u32::MAX));

    let short = build_segment_headers(&meta, 100);
    assert_eq!(short.mdat_header.len(), 8);
    assert_eq!(short.mdat_base, (short.ftyp.len() + short.moov.len() + 8) as u64);
}
