use media_parser::helpers::tables::TrackTables;
use media_parser::mp4_writer::movie::{build_moov_video, VideoMoovParams};
use media_parser::thumbnails::{
    build_samples, data_url, extract_track_data, find_nearest_keyframe, find_video_track,
    frame_of, jpeg_result, plan_reads, sample_to_annexb, RawFrame, RgbDecoder, Sample, TrackData,
};
use media_parser::time::Duration;
use media_parser::types::PixelFormat;

fn red(width: u32, height: u32) -> RawFrame {
    let mut data = Vec::new();
    for _ in 0..width * height {
        data.extend_from_slice(&[255, 0, 0]);
    }
    RawFrame { width, height, format: PixelFormat::Rgb24, data }
}

#[test]
fn raw_frame_base64_encoding() {
    let frame =
        RawFrame { width: 1, height: 1, format: PixelFormat::Rgb24, data: vec![255, 0, 0] };
    let encoded = frame.to_base64().expect("a small frame is encoded");
    assert!(encoded.starts_with("data:image/jpeg;base64,"));
    // The marker that JPEG images start with.
    assert!(encoded.starts_with("data:image/jpeg;base64,/9j/"));
}

#[test]
fn base64_groups_are_padded() {
    let prefix = "data:image/jpeg;base64,";
    assert_eq!(data_url(&[]).unwrap(), prefix);
    assert_eq!(data_url(b"f").unwrap(), format!("{}Zg==", prefix));
    assert_eq!(data_url(b"fo").unwrap(), format!("{}Zm8=", prefix));
    assert_eq!(data_url(b"foob").unwrap(), format!("{}Zm9vYg==", prefix));
    assert_eq!(data_url(&[0xfb, 0xff, 0xbf]).unwrap(), format!("{}+/+/", prefix));
}

#[test]
fn frames_that_cannot_be_encoded_have_no_data_url() {
    let mut short = red(2, 2);
    short.data.pop();
    assert!(short.to_base64().is_none());
    let mut other = red(1, 1);
    other.format = PixelFormat::Rgba;
    assert!(other.to_base64().is_none());
    assert!(red(65_536, 1).to_base64().is_none());
}

fn jpeg_size(jpeg: &[u8]) -> (u16, u16) {
    let at = jpeg.windows(2).position(|w| w == [0xff, 0xc0]).expect("a frame header");
    let height = u16::from_be_bytes([jpeg[at + 5], jpeg[at + 6]]);
    let width = u16::from_be_bytes([jpeg[at + 7], jpeg[at + 8]]);
    (width, height)
}

#[test]
fn a_wide_frame_is_scaled_down() {
    let jpeg = red(32, 16).to_jpeg_scaled_bytes(8, 80, 4).expect("encoded");
    assert_eq!(jpeg_size(&jpeg), (8, 4));
    let kept = red(32, 16).to_jpeg_scaled_bytes(64, 80, 4).expect("encoded");
    assert_eq!(jpeg_size(&kept), (32, 16));
    let unbounded = red(32, 16).to_jpeg_scaled_bytes(0, 80, 4).expect("encoded");
    assert_eq!(unbounded, kept);
    let flat = red(32, 16).to_jpeg_scaled_bytes(8, 80, 0).expect("encoded");
    assert_eq!(jpeg_size(&flat), (8, 1));
}

#[test]
fn the_quality_reaches_the_encoder() {
    let mut frame = red(16, 16);
    for (i, byte) in frame.data.iter_mut().enumerate() {
        *byte = (i * 37 % 251) as u8;
    }
    let coarse = frame.to_jpeg_scaled_bytes(0, 10, 1).expect("encoded");
    let fine = frame.to_jpeg_scaled_bytes(0, 95, 1).expect("encoded");
    assert!(coarse.len() < fine.len());
}

#[test]
fn frames_that_cannot_be_scaled_are_errors() {
    let mut other = red(2, 2);
    other.format = PixelFormat::Yuv420p;
    assert_eq!(
        other.to_jpeg_scaled_bytes(1, 80, 1).unwrap_err().message(),
        "IO error: unsupported pixel format for JPEG encoding"
    );
    let mut short = red(2, 2);
    short.data.pop();
    assert_eq!(
        short.to_jpeg_scaled_bytes(1, 80, 1).unwrap_err().message(),
        "IO error: invalid RGB24 buffer dimensions"
    );
    let wide = red(65_536, 1).to_jpeg_scaled_bytes(0, 80, 1).unwrap_err().message();
    assert!(wide.starts_with("IO error: jpeg encode: "));
    assert_eq!(
        jpeg_result(Err("x".to_string())).unwrap_err().message(),
        "IO error: jpeg encode: x"
    );
}

#[test]
fn decoded_colors_make_a_frame() {
    let frame = frame_of(1, 2, vec![1, 2, 3, 4, 5, 6]).expect("a frame");
    assert_eq!((frame.width, frame.height), (1, 2));
    assert_eq!(frame.format, PixelFormat::Rgb24);
    assert!(frame_of(usize::MAX, 1, Vec::new()).is_none());
}

fn key(timestamp: u64) -> Sample {
    Sample { timestamp, offset: timestamp + 7, size: 1, is_keyframe: true }
}

#[test]
fn the_nearest_key_frame_is_shown() {
    let samples = [key(0), key(1000), key(2000)];
    let at = |ms| find_nearest_keyframe(&samples, 1000, Duration::from_millis(ms));
    assert_eq!(at(0), Some(0));
    assert_eq!(at(400), Some(0));
    assert_eq!(at(500), Some(0)); // of two equally near the earlier one
    assert_eq!(at(501), Some(1));
    assert_eq!(at(9000), Some(2));
    assert_eq!(find_nearest_keyframe(&[], 1000, Duration::from_millis(1)), None);
}

#[test]
fn handles_no_timestamps() {
    let samples = [key(0)];
    assert!(plan_reads(&samples, 1000, &[1], &[1], &[]).is_empty());
    assert!(plan_reads(&samples, 1000, &[], &[1], &[Duration::from_millis(1)]).is_empty());
    assert!(plan_reads(&[], 1000, &[1], &[1], &[Duration::from_millis(1)]).is_empty());
}

#[test]
fn only_key_frames_are_read() {
    let mut samples = vec![key(0), key(1000), key(2000)];
    samples[1].is_keyframe = false;
    let times = [Duration::from_millis(1100), Duration::from_millis(100)];
    let reads = plan_reads(&samples, 1000, &[1], &[1], &times);
    assert_eq!(reads, vec![key(2000), key(0)]);
}

#[test]
fn units_are_put_behind_start_codes() {
    let sample = [0, 0, 0, 2, 9, 8, 0, 0, 0, 1, 7, 0, 0, 0, 9, 1];
    assert_eq!(sample_to_annexb(&sample), [0, 0, 0, 1, 9, 8, 0, 0, 0, 1, 7]);
    assert!(sample_to_annexb(&[0, 0, 0]).is_empty());
}

fn moov(sync: Option<&[u32]>) -> Vec<u8> {
    let stts = vec![(3u32, 1000u32)];
    let sizes = vec![10u32, 20, 30];
    let avcc = vec![1, 66, 0, 30, 0xff, 0xe1, 0, 2, 0x67, 0x42, 1, 0, 1, 0x68];
    build_moov_video(&VideoMoovParams {
        movie_timescale: None,
        track_timescale: 1000,
        stts_pairs: &stts,
        ctts_pairs: None,
        sample_sizes: &sizes,
        sync_samples_1based: sync,
        track_id: 4,
        width: 320,
        height: 240,
        language: Some("eng"),
        mdat_base_offset: 100,
        avcc_payload: &avcc,
        edit_list: None,
    })
}

#[test]
fn the_samples_of_a_track_are_listed() {
    let bytes = moov(Some(&[1, 3]));
    let track = find_video_track(&bytes, 4).expect("a track");
    assert!(find_video_track(&bytes, 5).is_none());
    let data = extract_track_data(track).expect("track data");
    assert_eq!(data.sps, vec![0x67, 0x42]);
    let samples = build_samples(&data);
    assert_eq!(samples.len(), 3);
    assert_eq!(
        samples[1],
        Sample { timestamp: 1000, offset: 110, size: 20, is_keyframe: false }
    );
    assert!(samples[0].is_keyframe && samples[2].is_keyframe);
}

#[test]
fn without_a_sync_table_all_samples_are_key_frames() {
    let bytes = moov(None);
    let data = extract_track_data(find_video_track(&bytes, 4).expect("a track")).expect("data");
    assert_eq!(data.keyframes, vec![1, 2, 3]);
    let empty = TrackData {
        tables: TrackTables {
            timescale: 1,
            sizes: Vec::new(),
            offsets: Vec::new(),
            timing: Vec::new(),
            stsc: Vec::new(),
            ctts: None,
        },
        sps: Vec::new(),
        pps: Vec::new(),
        keyframes: Vec::new(),
    };
    assert!(build_samples(&empty).is_empty());
}

#[test]
fn a_decoder_makes_no_picture_of_noise() {
    let mut decoder = RgbDecoder::open(&[0x67, 0x42], &[0x68]).expect("a decoder opens");
    assert!(decoder.decode(&[0, 0, 0, 2, 0x65, 0x88]).is_none());
}

/// Bits of a parameter set or a slice.
#[derive(Default)]
struct Bits(Vec<bool>);

impl Bits {
    fn bits(mut self, value: u64, count: u32) -> Self {
        for i in (0..count).rev() {
            self.0.push(value >> i & 1 == 1);
        }
        self
    }

    fn ue(self, value: u64) -> Self {
        let digits = 64 - (value + 1).leading_zeros();
        self.bits(0, digits - 1).bits(value + 1, digits)
    }

    fn bytes(self, fill: &[u8]) -> Vec<u8> {
        let mut bits = self.0;
        while bits.len() % 8 != 0 {
            bits.push(false);
        }
        let mut out: Vec<u8> = bits
            .chunks(8)
            .map(|byte| byte.iter().fold(0, |n, &bit| n << 1 | u8::from(bit)))
            .collect();
        out.extend_from_slice(fill);
        out
    }

    fn unit(self, header: u8) -> Vec<u8> {
        let mut out = vec![header];
        out.extend(self.bits(1, 1).bytes(&[]));
        out
    }
}

/// A set for pictures of 16 by 16, with or without cropping.
fn small_sps(crop: Option<[u64; 4]>) -> Vec<u8> {
    let set = Bits::default().bits(66, 8).bits(0, 8).bits(10, 8);
    let set = set.ue(0).ue(0).ue(2).ue(1).bits(0, 1).ue(0).ue(0).bits(0b11, 2);
    match crop {
        Some(offsets) => offsets.into_iter().fold(set.bits(1, 1), Bits::ue).bits(0, 1).unit(0x67),
        None => set.bits(0, 2).unit(0x67),
    }
}

fn small_pps() -> Vec<u8> {
    let set = Bits::default().ue(0).ue(0).bits(0, 2).ue(0).ue(0).ue(0).bits(0, 3);
    set.ue(0).ue(0).ue(0).bits(0b100, 3).unit(0x68)
}

/// A key frame whose one block holds its samples as they are.
fn plain_picture(luma: u8) -> Vec<u8> {
    let slice = Bits::default().ue(0).ue(7).ue(0).bits(0, 4).ue(0).bits(0, 2).ue(0).ue(1).ue(25);
    let mut samples = vec![luma; 256];
    samples.extend_from_slice(&[128; 128]);
    samples.push(0x80);
    let mut unit = vec![0x65];
    unit.extend(slice.bytes(&samples));
    unit
}

fn sample_of(unit: &[u8]) -> Vec<u8> {
    let mut out = (unit.len() as u32).to_be_bytes().to_vec();
    out.extend_from_slice(unit);
    out
}

#[test]
fn a_key_frame_becomes_packed_colors() {
    let mut decoder = RgbDecoder::open(&small_sps(None), &small_pps()).expect("a decoder opens");
    let frame = decoder.decode(&sample_of(&plain_picture(126))).expect("a picture");
    assert_eq!((frame.width, frame.height), (16, 16));
    assert_eq!(frame.data.len(), 16 * 16 * 3);
    // Without color all three are alike.
    assert!(frame.data.iter().all(|&value| value == frame.data[0]));
    assert!((118..=136).contains(&frame.data[0]));
}

#[test]
fn a_set_that_crops_everything_is_not_handed_over() {
    let bad = small_sps(Some([0xffff_fffe, 0, 0, 0]));
    let mut decoder = RgbDecoder::open(&bad, &small_pps()).expect("a decoder opens");
    assert!(decoder.decode(&sample_of(&plain_picture(126))).is_none());
}

#[test]
fn sides_are_scaled_up_to_a_length() {
    let frame = |width, height| RawFrame {
        width,
        height,
        format: PixelFormat::Rgb24,
        data: Vec::new(),
    };
    assert!(frame(4_194_304, 4_194_304).fits_scaling(320, 4_194_304));
    assert!(!frame(4_194_305, 1).fits_scaling(320, 1));
    assert!(!frame(640, 4_194_305).fits_scaling(320, 1));
    assert!(!frame(640, 1).fits_scaling(320, 4_194_305));
    // What is not scaled may have any size.
    assert!(frame(u32::MAX, u32::MAX).fits_scaling(0, u32::MAX));
    assert!(frame(u32::MAX, u32::MAX).fits_scaling(u32::MAX, u32::MAX));
}
