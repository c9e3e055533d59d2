use media_parser::decoders::h264::backend::{
    after_parameter_sets, pair_picture, pair_pictures, take_smallest_token, OpenH264Decoder,
    PendingTokens, PlanarFrame,
};
use media_parser::decoders::h264::bitstream::{
    annex_b_sample_len, config_with_max_input_size, parameter_sets_annex_b, prepare_job_config,
    sample_to_annex_b, MAX_ANNEX_B_SAMPLE_BYTES,
};
use media_parser::decoders::h264::sps::{check_sets, crop_fits};
use media_parser::decoders::h264::{
    AvcColorMetadata, AvcConfig, DecodeError, FrameToken, JpegQuality, ThumbnailSize,
    DEFAULT_JPEG_QUALITY,
};

fn config(length_size: usize, sps: Vec<Vec<u8>>, pps: Vec<Vec<u8>>) -> AvcConfig {
    AvcConfig {
        length_size,
        sps,
        pps,
        color: AvcColorMetadata::default(),
        display_width: 2,
        display_height: 2,
        max_input_size: None,
        resolved_full_range: None,
    }
}

#[test]
fn rejects_quality_outside_the_encoder_range() {
    assert_eq!(JpegQuality::new(0), None);
    assert_eq!(JpegQuality::new(101), None);
    assert_eq!(JpegQuality::new(1).map(JpegQuality::get), Some(1));
    assert_eq!(JpegQuality::new(100).map(JpegQuality::get), Some(100));
}

#[test]
fn defaults_to_thumbnail_grade_quality() {
    assert_eq!(Some(JpegQuality::default()), JpegQuality::new(DEFAULT_JPEG_QUALITY));
    assert_eq!(JpegQuality::default().get(), 60);
}

#[test]
fn prepares_the_resolved_range_only_on_the_job_clone() {
    let config = config(1, Vec::new(), Vec::new());
    let samples = vec![vec![1, 0x41]];

    let prepared = prepare_job_config(&config, &samples, true).expect("valid job input");

    assert_eq!(prepared.max_input_size, Some(5));
    assert_eq!(prepared.resolved_full_range, Some(true));
    assert_eq!(config.max_input_size, None);
    assert_eq!(config.resolved_full_range, None);
}

#[test]
fn emitted_frames_consume_the_smallest_pending_token() {
    let mut pending = PendingTokens::new();
    for value in [0, 3, 1, 2] {
        assert!(pending.insert(FrameToken::new(value)));
    }

    assert_eq!(take_smallest_token(&mut pending), Some(FrameToken::new(0)));
    assert_eq!(take_smallest_token(&mut pending), Some(FrameToken::new(1)));
    assert_eq!(take_smallest_token(&mut pending), Some(FrameToken::new(2)));
    assert_eq!(take_smallest_token(&mut pending), Some(FrameToken::new(3)));
    assert_eq!(take_smallest_token(&mut pending), None);
}

#[test]
fn a_pending_token_is_kept_once() {
    let mut pending = PendingTokens::new();
    assert!(pending.insert(FrameToken::new(7)));
    assert!(!pending.insert(FrameToken::new(7)));
    assert_eq!(take_smallest_token(&mut pending), Some(FrameToken::new(7)));
    assert_eq!(take_smallest_token(&mut pending), None);
}

#[test]
fn rewrites_length_prefixed_samples_and_reuses_the_output() {
    let first = [0, 0, 0, 2, 0x65, 0x88, 0, 0, 0, 1, 0x41];
    let second = [0, 0, 0, 1, 0x06];
    let mut output = Vec::new();

    sample_to_annex_b(&first, 4, &mut output).expect("valid AVC sample");
    let capacity = output.capacity();
    assert_eq!(output, [0, 0, 0, 1, 0x65, 0x88, 0, 0, 0, 1, 0x41]);

    sample_to_annex_b(&second, 4, &mut output).expect("second AVC sample");
    assert_eq!(output, [0, 0, 0, 1, 0x06]);
    assert_eq!(output.capacity(), capacity);
}

#[test]
fn computes_the_post_conversion_annex_b_length() {
    let sample = [2, 0x65, 0x88, 1, 0x41];

    assert_eq!(annex_b_sample_len(&sample, 1), Ok(11));
}

#[test]
fn prepares_the_largest_post_conversion_input_size() {
    let config = config(1, Vec::new(), Vec::new());
    let samples = vec![vec![1, 0x41], vec![2, 0x65, 0x88, 1, 0x41]];

    let prepared = config_with_max_input_size(&config, &samples).expect("valid samples");

    assert_eq!(prepared.max_input_size, Some(11));
    assert_eq!(config.max_input_size, None);
}

#[test]
fn rejects_empty_nals_as_bitstream_errors() {
    let mut output = Vec::new();

    assert!(matches!(
        sample_to_annex_b(&[0, 0, 0, 0], 4, &mut output),
        Err(DecodeError::Bitstream(_))
    ));
}

#[test]
fn rejects_truncated_and_oversized_samples() {
    let mut output = Vec::new();
    assert!(matches!(
        sample_to_annex_b(&[0, 0, 0, 9, 1], 4, &mut output),
        Err(DecodeError::Bitstream(_))
    ));
    let mut large = vec![1u8; MAX_ANNEX_B_SAMPLE_BYTES + 4];
    let unit = (MAX_ANNEX_B_SAMPLE_BYTES as u32).to_be_bytes();
    large[0..4].copy_from_slice(&unit);
    assert!(matches!(
        sample_to_annex_b(&large, 4, &mut output),
        Err(DecodeError::Bitstream(ref message)) if message.contains("exceeds the decode size limit")
    ));
}

#[test]
fn serializes_parameter_sets_and_allows_empty_avc3_configuration() {
    let with_sets = config(4, vec![vec![0x67, 0x42]], vec![vec![0x68, 0xce]]);
    assert_eq!(
        parameter_sets_annex_b(&with_sets).expect("valid parameter sets"),
        [0, 0, 0, 1, 0x67, 0x42, 0, 0, 0, 1, 0x68, 0xce]
    );

    let avc3 = config(4, Vec::new(), Vec::new());
    assert_eq!(parameter_sets_annex_b(&avc3), Ok(Vec::new()));
}

#[test]
fn thumbnail_bounds_are_positive_and_fit_in_a_jpeg() {
    assert_eq!(ThumbnailSize::new(0, 1), None);
    assert_eq!(ThumbnailSize::new(1, 65_536), None);
    assert_eq!(ThumbnailSize::new(640, 360).map(ThumbnailSize::bounds), Some((640, 360)));
    assert_eq!(ThumbnailSize::default().bounds(), (320, 320));
}

#[test]
fn a_damaged_sample_fails_before_it_reaches_the_decoder() {
    let mut decoder = OpenH264Decoder::open(&config(4, Vec::new(), Vec::new()))
        .expect("a decoder without parameter sets opens");
    let failed = decoder.decode(&[0, 0, 0, 9, 1], FrameToken::new(0));
    assert!(matches!(failed, Err(DecodeError::Bitstream(_))));
}

#[test]
fn the_decoder_reports_units_that_are_no_pictures() {
    let mut decoder = OpenH264Decoder::open(&config(4, Vec::new(), Vec::new()))
        .expect("a decoder without parameter sets opens");
    let outcome = decoder.decode(&[0, 0, 0, 2, 0x65, 0x88], FrameToken::new(0));
    assert!(!matches!(outcome, Ok(Some(_))));
    let drained = decoder.drain();
    assert!(!matches!(drained, Ok(ref frames) if !frames.is_empty()));
}

/// Bits of a parameter set or a slice.
#[derive(Default)]
struct Bits(Vec<bool>);

impl Bits {
    fn bits(mut self, value: u64, count: u32) -> Self {
        for i in (0..count).rev() {
            self.0.push(value >> i & 1 == 1);
        }
        self
    }

    fn ue(self, value: u64) -> Self {
        let digits = 64 - (value + 1).leading_zeros();
        self.bits(0, digits - 1).bits(value + 1, digits)
    }

    fn bytes(self, fill: &[u8]) -> Vec<u8> {
        let mut bits = self.0;
        while bits.len() % 8 != 0 {
            bits.push(false);
        }
        let mut out: Vec<u8> = bits
            .chunks(8)
            .map(|byte| byte.iter().fold(0, |n, &bit| n << 1 | u8::from(bit)))
            .collect();
        out.extend_from_slice(fill);
        out
    }

    fn unit(self, header: u8) -> Vec<u8> {
        let mut out = vec![header];
        out.extend(self.bits(1, 1).bytes(&[]));
        out
    }
}

/// A set for pictures of 16 by 16, with or without cropping.
fn small_sps(crop: Option<[u64; 4]>) -> Vec<u8> {
    let set = Bits::default().bits(66, 8).bits(0, 8).bits(10, 8);
    let set = set.ue(0).ue(0).ue(2).ue(1).bits(0, 1).ue(0).ue(0).bits(0b11, 2);
    match crop {
        Some(offsets) => offsets.into_iter().fold(set.bits(1, 1), Bits::ue).bits(0, 1).unit(0x67),
        None => set.bits(0, 2).unit(0x67),
    }
}

fn small_pps() -> Vec<u8> {
    let set = Bits::default().ue(0).ue(0).bits(0, 2).ue(0).ue(0).ue(0).bits(0, 3);
    set.ue(0).ue(0).ue(0).bits(0b100, 3).unit(0x68)
}

/// A key frame whose one block holds its samples as they are.
fn plain_picture(luma: u8) -> Vec<u8> {
    let slice = Bits::default().ue(0).ue(7).ue(0).bits(0, 4).ue(0).bits(0, 2).ue(0).ue(1).ue(25);
    let mut samples = vec![luma; 256];
    samples.extend_from_slice(&[128; 128]);
    samples.push(0x80);
    let mut unit = vec![0x65];
    unit.extend(slice.bytes(&samples));
    unit
}

fn sample_of(unit: &[u8]) -> Vec<u8> {
    let mut out = (unit.len() as u32).to_be_bytes().to_vec();
    out.extend_from_slice(unit);
    out
}

#[test]
fn a_sample_becomes_a_picture_under_its_token() {
    let config = config(4, vec![small_sps(None)], vec![small_pps()]);
    let mut decoder = OpenH264Decoder::open(&config).expect("a decoder opens");
    let sample = sample_of(&plain_picture(77));
    let mut pictures = Vec::new();
    pictures.extend(decoder.decode(&sample, FrameToken::new(5)).expect("a good sample"));
    pictures.extend(decoder.drain().expect("what is left"));
    assert_eq!(pictures.len(), 1);
    let (token, picture) = &pictures[0];
    assert_eq!(token.0, 5);
    assert_eq!((picture.width, picture.height), (16, 16));
    for row in 0..16 {
        let start = row * picture.y_stride;
        assert_eq!(&picture.y[start..start + 16], &[77; 16]);
    }
    assert_eq!(picture.u[0], 128);
    assert_eq!(picture.v[0], 128);
    assert!(decoder.drain().expect("nothing").is_empty());
}

#[test]
fn a_token_is_submitted_once() {
    let config = config(4, vec![small_sps(None)], vec![small_pps()]);
    let mut decoder = OpenH264Decoder::open(&config).expect("a decoder opens");
    let damaged = [0, 0, 0, 9, 1];
    assert!(matches!(
        decoder.decode(&damaged, FrameToken::new(3)),
        Err(DecodeError::Bitstream(_))
    ));
    match decoder.decode(&damaged, FrameToken::new(3)) {
        Err(DecodeError::BackendContract(text)) => {
            assert_eq!(text, "duplicate token submitted to OpenH264")
        }
        other => panic!("{:?}", other.is_ok()),
    }
}

fn frame(width: usize) -> PlanarFrame {
    PlanarFrame {
        y: vec![0; width],
        u: Vec::new(),
        v: Vec::new(),
        y_stride: width,
        u_stride: 0,
        v_stride: 0,
        width,
        height: 1,
    }
}

fn waiting(tokens: &[u64]) -> PendingTokens {
    let mut pending = PendingTokens::new();
    for &token in tokens {
        pending.insert(FrameToken::new(token));
    }
    pending
}

#[test]
fn pictures_go_under_the_smallest_tokens() {
    let mut pending = waiting(&[4, 2, 9]);
    let list = pair_pictures(&mut pending, vec![frame(1), frame(2)]).expect("enough tokens");
    let seen: Vec<(u64, usize)> = list.iter().map(|(t, f)| (t.0, f.width)).collect();
    assert_eq!(seen, vec![(2, 1), (4, 2)]);
    assert!(matches!(pair_picture(&mut pending, Ok(None)), Ok(None)));
    match pair_picture(&mut pending, Ok(Some(frame(3)))) {
        Ok(Some((token, picture))) => assert_eq!((token.0, picture.width), (9, 3)),
        _ => panic!("no picture"),
    }
    assert!(pair_pictures(&mut pending, Vec::new()).expect("no pictures").is_empty());
    match pair_picture(&mut pending, Err("text".to_string())) {
        Err(DecodeError::Backend(text)) => assert_eq!(text, "text"),
        _ => panic!("no error"),
    }
}

#[test]
fn more_pictures_than_tokens_are_an_error() {
    let text = "OpenH264 emitted a frame without a pending token";
    let mut pending = waiting(&[1]);
    match pair_pictures(&mut pending, vec![frame(1), frame(2)]) {
        Err(DecodeError::BackendContract(found)) => assert_eq!(found, text),
        _ => panic!("no error"),
    }
    assert!(take_smallest_token(&mut pending).is_none());
    match pair_picture(&mut pending, Ok(Some(frame(1)))) {
        Err(DecodeError::BackendContract(found)) => assert_eq!(found, text),
        _ => panic!("no error"),
    }
}

#[test]
fn parameter_sets_give_no_picture() {
    assert!(after_parameter_sets(Ok(None)).is_ok());
    match after_parameter_sets(Ok(Some(frame(1)))) {
        Err(DecodeError::BackendContract(text)) => {
            assert_eq!(text, "OpenH264 emitted a frame for AVC parameter sets")
        }
        _ => panic!("no error"),
    }
    match after_parameter_sets(Err("text".to_string())) {
        Err(DecodeError::Backend(text)) => assert_eq!(text, "text"),
        _ => panic!("no error"),
    }
    let made = OpenH264Decoder::open_with(Err("text".to_string()), &config(4, vec![], vec![]));
    assert!(matches!(made, Err(DecodeError::Backend(text)) if text == "text"));
}

#[test]
fn cropping_leaves_something_of_the_picture() {
    // Offsets count pairs of columns and rows.
    for (crop, fits) in [
        (None, true),
        (Some([0, 0, 0, 0]), true),
        (Some([3, 4, 0, 7]), true),
        (Some([4, 4, 0, 0]), false),
        (Some([0, 0, 8, 0]), false),
        (Some([0xffff_fffe, 0, 0, 0]), false),
        (Some([0, 0, 0x4000_0000, 0x4000_0000]), false),
    ] {
        assert_eq!(crop_fits(&small_sps(crop)[1..]), fits, "{:?}", crop);
    }
    // A set that ends too early asks for nothing.
    assert!(crop_fits(&[]));
    assert!(crop_fits(&small_sps(Some([8, 8, 8, 8]))[1..6]));
}

#[test]
fn sets_of_the_high_profile_have_more_fields() {
    let set = |crop: u64| {
        let set = Bits::default().bits(100, 8).bits(0, 8).bits(10, 8).ue(0).ue(1).ue(0).ue(0);
        // One scaling list of 16 entries, one that ends at once, and six that
        // are not there.
        let set = (1..16).fold(set.bits(0b011, 3).ue(1), |set, _| set.ue(0));
        let set = set.bits(1, 1).ue(16).bits(0, 6);
        // Pictures in an order of the second kind, with a cycle of two.
        let set = set.ue(0).ue(1).bits(0, 1).ue(0).ue(0).ue(2).ue(3).ue(4);
        let set = set.ue(1).bits(0, 1).ue(1).ue(0).bits(0, 1).bits(0b111, 3);
        set.ue(crop).ue(0).ue(0).ue(0).bits(0, 1).unit(0x67)
    };
    assert!(crop_fits(&set(15)[1..]));
    assert!(!crop_fits(&set(16)[1..]));
}

#[test]
fn sets_are_found_behind_start_codes() {
    let units = |set: &[u8]| [&[0, 0, 0, 1, 0x68, 1, 0, 0, 1][..], set].concat();
    assert!(check_sets(&units(&small_sps(Some([1, 1, 1, 1])))));
    assert!(!check_sets(&units(&small_sps(Some([9, 1, 1, 1])))));
    // Another kind of unit is not looked at.
    let mut other = small_sps(Some([9, 1, 1, 1]));
    other[0] = 0x65;
    assert!(check_sets(&units(&other)));
    // A byte that keeps start codes out must stand before a small one.
    assert!(check_sets(&[0, 0, 1, 0x67, 66, 0, 0, 3, 1]));
    assert!(!check_sets(&[0, 0, 1, 0x67, 66, 0, 0, 3, 4]));
    assert!(check_sets(&[0, 0, 1]));
    assert!(check_sets(&[]));
}

#[test]
fn sets_that_crop_everything_reach_no_decoder() {
    let bad = small_sps(Some([0xffff_fffe, 0, 0, 0]));
    let text = "AVC parameter set leaves nothing of the picture";
    let opened = OpenH264Decoder::open(&config(4, vec![bad.clone()], vec![small_pps()]));
    assert!(matches!(opened, Err(DecodeError::Bitstream(found)) if found == text));
    let mut decoder = OpenH264Decoder::open(&config(4, vec![small_sps(None)], vec![small_pps()]))
        .expect("a decoder opens");
    let outcome = decoder.decode(&sample_of(&bad), FrameToken::new(0));
    assert!(matches!(outcome, Err(DecodeError::Bitstream(found)) if found == text));
}
