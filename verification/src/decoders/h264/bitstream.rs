//! Length-prefixed AVC samples rewritten with start codes.

use vstd::prelude::*;
use super::{AvcConfig, DecodeError};
use crate::bytes::push_bytes;
use crate::decoders::h264;

verus! {

/// The bytes that a rewritten sample may take.
pub const MAX_ANNEX_B_SAMPLE_BYTES: usize = 67108864;

/// What is wrong with a length-prefixed sample.
#[derive(Debug, Clone, Copy, PartialEq, Eq, Structural)]
pub enum NalError {
    /// Lengths have no bytes, or more than four.
    LengthSize,
    /// A length is cut off.
    TruncatedLength,
    /// A unit is cut off.
    TruncatedUnit,
    /// A unit is empty.
    EmptyUnit,
    /// The rewritten sample is too large.
    TooLarge,
}

/// A sample error in words.
pub open spec fn nal_error_words(e: NalError) -> Seq<char> {
    match e {
        NalError::LengthSize => "invalid H.264 NAL length size"@,
        NalError::TruncatedLength => "truncated H.264 NAL length"@,
        NalError::TruncatedUnit => "truncated H.264 NAL unit"@,
        NalError::EmptyUnit => "empty H.264 NAL unit"@,
        NalError::TooLarge => "H.264 sample exceeds the decode size limit"@,
    }
}

fn nal_error(e: NalError) -> (r: DecodeError)
    ensures
        r@ == h264::DecodeErrorView::Bitstream(nal_error_words(e)),
{
    let words: &str = match e {
        NalError::LengthSize => "invalid H.264 NAL length size",
        NalError::TruncatedLength => "truncated H.264 NAL length",
        NalError::TruncatedUnit => "truncated H.264 NAL unit",
        NalError::EmptyUnit => "empty H.264 NAL unit",
        NalError::TooLarge => "H.264 sample exceeds the decode size limit",
    };
    DecodeError::Bitstream(words.to_owned())
}

/// The big-endian integer that bytes make.
pub open spec fn big_endian(data: Seq<u8>) -> nat
    decreases data.len(),
{
    if data.len() == 0 {
        0
    } else {
        big_endian(data.drop_last()) * 256 + data.last() as nat
    }
}

/// The start code in front of each unit.
pub open spec fn start_code() -> Seq<u8> {
    seq![0u8, 0, 0, 1]
}

/// What `out` becomes when the units of a sample, each behind a length of `n`
/// bytes, are added to it behind start codes, up to the first unit that is no
/// good.
pub open spec fn converted(sample: Seq<u8>, n: int, out: Seq<u8>) -> (Seq<u8>, Option<NalError>)
    decreases sample.len(),
{
    if n < 1 || n > 4 {
        (out, Some(NalError::LengthSize))
    } else if sample.len() == 0 {
        (out, None)
    } else if sample.len() < n {
        (out, Some(NalError::TruncatedLength))
    } else {
        let len = big_endian(sample.take(n)) as int;
        if n + len > sample.len() {
            (out, Some(NalError::TruncatedUnit))
        } else if len == 0 {
            (out, Some(NalError::EmptyUnit))
        } else if out.len() + 4 + len > MAX_ANNEX_B_SAMPLE_BYTES {
            (out, Some(NalError::TooLarge))
        } else {
            converted(
                sample.skip(n + len),
                n,
                out + start_code() + sample.subrange(n, n + len),
            )
        }
    }
}

/// The size of a rewritten sample, or what is wrong with it.
pub open spec fn annex_b_size(sample: Seq<u8>, n: int) -> Result<int, NalError> {
    let (out, error) = converted(sample, n, Seq::empty());
    match error {
        None => Ok(out.len() as int),
        Some(e) => Err(e),
    }
}

/// The units of a sample stand behind start codes in the same order, and take
/// as many bytes in all as the sample does where lengths have four bytes.
pub proof fn law_four_byte_lengths_keep_the_size(sample: Seq<u8>, out: Seq<u8>)
    requires
        converted(sample, 4, out).1 is None,
    ensures
        converted(sample, 4, out).0.len() == out.len() + sample.len(),
    decreases sample.len(),
{
    if sample.len() > 0 {
        let len = big_endian(sample.take(4)) as int;
        law_four_byte_lengths_keep_the_size(
            sample.skip(4 + len),
            out + start_code() + sample.subrange(4, 4 + len),
        );
    }
}

proof fn lemma_big_endian_bound(data: Seq<u8>)
    requires
        data.len() <= 4,
    ensures
        big_endian(data) <= 0xffff_ffff,
        data.len() == 1 ==> big_endian(data) <= 0xff,
        data.len() == 2 ==> big_endian(data) <= 0xffff,
        data.len() == 3 ==> big_endian(data) <= 0xff_ffff,
        data.len() == 0 ==> big_endian(data) == 0,
    decreases data.len(),
{
    if data.len() > 0 {
        lemma_big_endian_bound(data.drop_last());
    }
}

fn read_length(sample: &[u8], at: usize, n: usize) -> (r: u32)
    requires
        1 <= n <= 4,
        at + n <= sample@.len(),
    ensures
        r == big_endian(sample@.skip(at as int).take(n as int)),
{
    let ghost field = sample@.skip(at as int).take(n as int);
    let mut v: u32 = 0;
    let mut i: usize = 0;
    let len: usize = sample.len();
    while i < n
        invariant
            1 <= n <= 4,
            i <= n,
            at + n <= len,
            len == sample@.len(),
            field == sample@.skip(at as int).take(n as int),
            v == big_endian(field.take(i as int)),
        decreases n - i,
    {
        proof {
            assert(field.take(i + 1).drop_last() =~= field.take(i as int));
            assert(field.take(i + 1).last() == sample@[at + i]);
            lemma_big_endian_bound(field.take(i as int));
            lemma_big_endian_bound(field.take(i + 1));
        }
        v = v * 256 + sample[at + i] as u32;
        i = i + 1;
    }
    assert(field.take(i as int) =~= field);
    v
}

/// Adds the units of a sample to `output`, see `converted`.
fn append_sample(sample: &[u8], length_size: usize, output: &mut Vec<u8>) -> (r: Option<NalError>)
    ensures
        converted(sample@, length_size as int, old(output)@) == (final(output)@, r),
{
    if length_size < 1 || length_size > 4 {
        return Some(NalError::LengthSize);
    }
    let len: usize = sample.len();
    let mut at: usize = 0;
    assert(sample@.skip(0) =~= sample@);
    while at < len
        invariant
            at <= len,
            len == sample@.len(),
            1 <= length_size <= 4,
            converted(sample@, length_size as int, old(output)@) == converted(
                sample@.skip(at as int),
                length_size as int,
                output@,
            ),
        decreases len - at,
    {
        let ghost rest = sample@.skip(at as int);
        if len - at < length_size {
            return Some(NalError::TruncatedLength);
        }
        let unit: u32 = read_length(sample, at, length_size);
        let room: usize = len - at - length_size;
        if unit as u64 > room as u64 {
            return Some(NalError::TruncatedUnit);
        }
        let size: usize = unit as usize;
        if size == 0 {
            return Some(NalError::EmptyUnit);
        }
        let start: usize = at + length_size;
        match append_annex_b_nal(output, &sample[start..start + size]) {
            Some(e) => {
                return Some(e);
            },
            None => {},
        }
        proof {
            assert(sample@.subrange(start as int, start + size) =~= rest.subrange(
                length_size as int,
                length_size + size,
            ));
            assert(rest.skip(length_size + size) =~= sample@.skip(start + size));
        }
        at = start + size;
    }
    None
}

/// What `out` becomes when a unit is added to it behind a start code.
pub open spec fn with_unit(out: Seq<u8>, nal: Seq<u8>) -> (Seq<u8>, Option<NalError>) {
    if nal.len() == 0 {
        (out, Some(NalError::EmptyUnit))
    } else if out.len() + 4 + nal.len() > MAX_ANNEX_B_SAMPLE_BYTES {
        (out, Some(NalError::TooLarge))
    } else {
        (out + start_code() + nal, None)
    }
}

fn append_annex_b_nal(output: &mut Vec<u8>, nal: &[u8]) -> (r: Option<NalError>)
    ensures
        with_unit(old(output)@, nal@) == (final(output)@, r),
{
    if nal.len() == 0 {
        return Some(NalError::EmptyUnit);
    }
    let used: usize = output.len();
    if used > MAX_ANNEX_B_SAMPLE_BYTES || MAX_ANNEX_B_SAMPLE_BYTES - used < 4
        || MAX_ANNEX_B_SAMPLE_BYTES - used - 4 < nal.len() {
        return Some(NalError::TooLarge);
    }
    let code: [u8; 4] = [0, 0, 0, 1];
    assert(code@ =~= start_code());
    push_bytes(output, &code);
    push_bytes(output, nal);
    None
}

/// Rewrites a length-prefixed AVC sample into `output` with start codes.
/// `output` is cleared first, so callers can reuse one buffer across a whole
/// GOP. On an error it holds the units in front of the one that is no good.
pub fn sample_to_annex_b(sample: &[u8], length_size: usize, output: &mut Vec<u8>) -> (r: Result<
    (),
    DecodeError,
>)
    ensures
        ({
            let (out, error) = converted(sample@, length_size as int, Seq::empty());
            &&& final(output)@ == out
            &&& match r {
                Ok(()) => error is None,
                Err(e) => error is Some && e@ == h264::DecodeErrorView::Bitstream(
                    nal_error_words(error->0),
                ),
            }
        }),
{
    output.clear();
    assert(output@ =~= Seq::empty());
    match append_sample(sample, length_size, output) {
        None => Ok(()),
        Some(e) => Err(nal_error(e)),
    }
}

/// The size that a length-prefixed sample has behind start codes.
pub fn annex_b_sample_len(sample: &[u8], length_size: usize) -> (r: Result<usize, DecodeError>)
    ensures
        match r {
            Ok(size) => annex_b_size(sample@, length_size as int) == Ok::<int, NalError>(
                size as int,
            ),
            Err(e) => annex_b_size(sample@, length_size as int) matches Err(kind) && e@
                == h264::DecodeErrorView::Bitstream(nal_error_words(kind)),
        },
{
    let mut out: Vec<u8> = Vec::new();
    match append_sample(sample, length_size, &mut out) {
        None => Ok(out.len()),
        Some(e) => Err(nal_error(e)),
    }
}

/// The size of the largest of several samples behind start codes; the first
/// sample that is no good decides.
pub open spec fn largest_size(samples: Seq<Seq<u8>>, n: int) -> Result<int, NalError>
    decreases samples.len(),
{
    if samples.len() == 0 {
        Ok(0)
    } else {
        match largest_size(samples.drop_last(), n) {
            Err(e) => Err(e),
            Ok(before) => match annex_b_size(samples.last(), n) {
                Err(e) => Err(e),
                Ok(size) => if size > before {
                    Ok(size)
                } else {
                    Ok(before)
                },
            },
        }
    }
}

/// The largest size is that of one of the samples, and none is larger.
pub proof fn law_largest_size_bounds_every_sample(samples: Seq<Seq<u8>>, n: int, i: int)
    requires
        largest_size(samples, n) is Ok,
        0 <= i < samples.len(),
    ensures
        annex_b_size(samples[i], n) is Ok,
        annex_b_size(samples[i], n)->Ok_0 <= largest_size(samples, n)->Ok_0,
    decreases samples.len(),
{
    if i < samples.len() - 1 {
        law_largest_size_bounds_every_sample(samples.drop_last(), n, i);
        assert(samples.drop_last()[i] == samples[i]);
    }
}

/// A configuration with the largest of the samples of a job noted.
pub open spec fn with_max_input(
    config: h264::AvcConfigView,
    size: int,
) -> h264::AvcConfigView {
    h264::AvcConfigView { max_input_size: Some(size as usize), ..config }
}

/// A copy of a configuration that notes the largest of the samples of a job
/// behind start codes.
pub fn config_with_max_input_size(config: &AvcConfig, samples: &[Vec<u8>]) -> (r: Result<
    AvcConfig,
    DecodeError,
>)
    ensures
        match r {
            Ok(prepared) => {
                &&& samples@.len() > 0
                &&& largest_size(h264::sets_view(samples@), config.length_size as int) is Ok
                &&& prepared@ == with_max_input(
                    config@,
                    largest_size(
                        h264::sets_view(samples@),
                        config.length_size as int,
                    )->Ok_0,
                )
            },
            Err(e) => if samples@.len() == 0 {
                e@ == h264::DecodeErrorView::Bitstream("no H.264 samples to decode"@)
            } else {
                largest_size(h264::sets_view(samples@), config.length_size as int) matches Err(
                    kind,
                ) && e@ == h264::DecodeErrorView::Bitstream(nal_error_words(kind))
            },
        },
{
    if samples.len() == 0 {
        return Err(DecodeError::Bitstream("no H.264 samples to decode".to_owned()));
    }
    let ghost all = h264::sets_view(samples@);
    let ghost n = config.length_size as int;
    let mut largest: usize = 0;
    let mut i: usize = 0;
    while i < samples.len()
        invariant
            i <= samples@.len(),
            all == h264::sets_view(samples@),
            n == config.length_size as int,
            largest_size(all.take(i as int), n) == Ok::<int, NalError>(largest as int),
        decreases samples@.len() - i,
    {
        proof {
            assert(all.take(i + 1).drop_last() =~= all.take(i as int));
            assert(all.take(i + 1).last() == samples@[i as int]@);
        }
        match annex_b_sample_len(samples[i].as_slice(), config.length_size) {
            Ok(size) => {
                if size > largest {
                    largest = size;
                }
            },
            Err(e) => {
                proof {
                    lemma_largest_error(all, n, i as int);
                }
                return Err(e);
            },
        }
        i = i + 1;
    }
    assert(all.take(i as int) =~= all);
    let mut prepared: AvcConfig = config.duplicate();
    prepared.max_input_size = Some(largest);
    Ok(prepared)
}

proof fn lemma_largest_error(samples: Seq<Seq<u8>>, n: int, i: int)
    requires
        0 <= i < samples.len(),
        largest_size(samples.take(i + 1), n) is Err,
    ensures
        largest_size(samples, n) == largest_size(samples.take(i + 1), n),
    decreases samples.len(),
{
    if i + 1 == samples.len() {
        assert(samples.take(i + 1) =~= samples);
    } else {
        assert(samples.drop_last().take(i + 1) =~= samples.take(i + 1));
        lemma_largest_error(samples.drop_last(), n, i);
    }
}

/// A configuration made ready for a decode job.
pub fn prepare_job_config(
    config: &AvcConfig,
    samples: &[Vec<u8>],
    resolved_full_range: bool,
) -> (r: Result<AvcConfig, DecodeError>)
    ensures
        match r {
            Ok(prepared) => {
                &&& samples@.len() > 0
                &&& largest_size(h264::sets_view(samples@), config.length_size as int) is Ok
                &&& prepared@ == (h264::AvcConfigView {
                    resolved_full_range: Some(resolved_full_range),
                    ..with_max_input(
                        config@,
                        largest_size(
                            h264::sets_view(samples@),
                            config.length_size as int,
                        )->Ok_0,
                    )
                })
            },
            Err(e) => if samples@.len() == 0 {
                e@ == h264::DecodeErrorView::Bitstream("no H.264 samples to decode"@)
            } else {
                largest_size(h264::sets_view(samples@), config.length_size as int) matches Err(
                    kind,
                ) && e@ == h264::DecodeErrorView::Bitstream(nal_error_words(kind))
            },
        },
{
    match config_with_max_input_size(config, samples) {
        Ok(config) => {
            let mut prepared: AvcConfig = config;
            prepared.resolved_full_range = Some(resolved_full_range);
            Ok(prepared)
        },
        Err(e) => Err(e),
    }
}

/// What `out` becomes when several units are added to it behind start codes,
/// up to the first one that is no good.
pub open spec fn with_units(out: Seq<u8>, nals: Seq<Seq<u8>>) -> (Seq<u8>, Option<NalError>)
    decreases nals.len(),
{
    if nals.len() == 0 {
        (out, None)
    } else {
        match with_unit(out, nals[0]) {
            (next, None) => with_units(next, nals.skip(1)),
            (next, Some(e)) => (next, Some(e)),
        }
    }
}

fn append_sets(output: &mut Vec<u8>, sets: &Vec<Vec<u8>>) -> (r: Option<NalError>)
    ensures
        with_units(old(output)@, h264::sets_view(sets@)) == (final(output)@, r),
{
    let ghost all = h264::sets_view(sets@);
    let mut i: usize = 0;
    assert(all.skip(0) =~= all);
    while i < sets.len()
        invariant
            i <= sets@.len(),
            all == h264::sets_view(sets@),
            with_units(old(output)@, all) == with_units(output@, all.skip(i as int)),
        decreases sets@.len() - i,
    {
        assert(all.skip(i as int).skip(1) =~= all.skip(i + 1));
        assert(all.skip(i as int)[0] == sets@[i as int]@);
        match append_annex_b_nal(output, sets[i].as_slice()) {
            Some(e) => {
                return Some(e);
            },
            None => {},
        }
        i = i + 1;
    }
    None
}

/// The parameter sets of a configuration behind start codes, sequence sets first.
pub open spec fn headers(config: h264::AvcConfigView) -> (Seq<u8>, Option<NalError>) {
    match with_units(Seq::empty(), config.sps) {
        (out, None) => with_units(out, config.pps),
        (out, Some(e)) => (out, Some(e)),
    }
}

/// The parameter sets of a configuration behind start codes, see `headers`.
pub fn parameter_sets_annex_b(config: &AvcConfig) -> (r: Result<Vec<u8>, DecodeError>)
    ensures
        match r {
            Ok(data) => headers(config@) == (data@, None::<NalError>),
            Err(e) => headers(config@).1 matches Some(kind) && e@
                == h264::DecodeErrorView::Bitstream(nal_error_words(kind)),
        },
{
    let mut data: Vec<u8> = Vec::new();
    assert(data@ =~= Seq::empty());
    match append_sets(&mut data, &config.sps) {
        Some(e) => {
            return Err(nal_error(e));
        },
        None => {},
    }
    match append_sets(&mut data, &config.pps) {
        Some(e) => {
            return Err(nal_error(e));
        },
        None => {},
    }
    Ok(data)
}

/// A rewritten sample stays within the limit.
pub proof fn lemma_converted_fits(sample: Seq<u8>, n: int, out: Seq<u8>)
    requires
        out.len() <= MAX_ANNEX_B_SAMPLE_BYTES,
    ensures
        converted(sample, n, out).0.len() <= MAX_ANNEX_B_SAMPLE_BYTES,
    decreases sample.len(),
{
    if 1 <= n <= 4 && sample.len() >= n {
        let len = big_endian(sample.take(n)) as int;
        if n + len <= sample.len() && len > 0 && out.len() + 4 + len <= MAX_ANNEX_B_SAMPLE_BYTES {
            lemma_converted_fits(
                sample.skip(n + len),
                n,
                out + start_code() + sample.subrange(n, n + len),
            );
        }
    }
}

/// Units behind start codes stay within the limit.
proof fn lemma_units_fit(out: Seq<u8>, nals: Seq<Seq<u8>>)
    requires
        out.len() <= MAX_ANNEX_B_SAMPLE_BYTES,
    ensures
        with_units(out, nals).0.len() <= MAX_ANNEX_B_SAMPLE_BYTES,
    decreases nals.len(),
{
    if nals.len() > 0 {
        if with_unit(out, nals[0]).1 is None {
            lemma_units_fit(with_unit(out, nals[0]).0, nals.skip(1));
        }
    }
}

/// Parameter sets behind start codes stay within the limit.
pub proof fn lemma_headers_fit(config: h264::AvcConfigView)
    ensures
        headers(config).0.len() <= MAX_ANNEX_B_SAMPLE_BYTES,
{
    lemma_units_fit(Seq::empty(), config.sps);
    let (out, error) = with_units(Seq::empty(), config.sps);
    if error is None {
        lemma_units_fit(out, config.pps);
    }
}

} // verus!
