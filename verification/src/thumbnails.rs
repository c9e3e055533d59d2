//! Still pictures of video tracks: which samples to read for given times, and
//! how decoded frames are encoded.

use std::collections::HashSet;
use vstd::prelude::*;
use base64::Engine;
use openh264::decoder::Decoder;
use openh264::formats::YUVSource;
use crate::boxes;
use crate::boxes::{find_child, low32};
use crate::bytes;
use crate::bytes::{copy_range, read_u32_be};
use crate::decoders::h264::backend::new_decoder;
use crate::decoders::h264::bitstream;
use crate::decoders::h264::sps;
use crate::decoders::h264::sps::check_sets;
use crate::errors;
use crate::errors::MediaParserError;
use crate::helpers::entries;
use crate::helpers::entries::{extract_avc_from_trak, find_video_trak_by_id};
use crate::helpers::tables;
use crate::helpers::tables::{extract_sync_samples, extract_track_tables, TrackTables};
use crate::helpers::timing;
use crate::helpers::timing::{enumerate_samples, SampleInfo};
use crate::helpers::Mp4Box;
use crate::text::joined;
use crate::time::Duration;
use crate::types::PixelFormat;

verus! {

/// The quality of the JPEG image in a data URL.
pub const DATA_URL_QUALITY: u8 = 85;

// --------------------
// Samples
// --------------------

/// A sample of a video track. The time is in ticks of the track.
#[derive(Debug, Clone, Copy, PartialEq, Eq, Structural)]
pub struct Sample {
    pub timestamp: u64,
    pub offset: u64,
    pub size: usize,
    pub is_keyframe: bool,
}

/// The tables of a video track, its first parameter sets, and the numbers of
/// its key frames (1-based).
#[derive(Debug)]
pub struct TrackData {
    pub tables: TrackTables,
    pub sps: Vec<u8>,
    pub pps: Vec<u8>,
    pub keyframes: Vec<u32>,
}

/// The numbers of the key frames: those of the sync table, or all where there
/// is none.
pub open spec fn key_numbers(sync: Seq<u32>, samples: nat) -> Seq<u32> {
    if sync.len() == 0 {
        Seq::new(boxes::wrap32(samples) as nat, |i: int| (i + 1) as u32)
    } else {
        sync
    }
}

/// The video track with a number in a buffer that holds a `moov` box.
pub fn find_video_track(moov: &[u8], track_id: u32) -> (r: Option<&[u8]>)
    ensures
        boxes::slice_view(r) == match boxes::find_box(moov@, Mp4Box::Moov.fourcc()) {
            Some(payload) => entries::first_trak(
                boxes::box_list(payload),
                |trak: Seq<u8>| entries::trak_id(trak) == track_id && entries::is_video(trak),
            ),
            None => None,
        },
{
    match find_child(moov, &Mp4Box::Moov.bytes()) {
        Some(payload) => find_video_trak_by_id(payload, track_id),
        None => None,
    }
}

/// Whether track data is what a track holds.
pub open spec fn is_data_of(data: TrackData, trak: Seq<u8>) -> bool {
    &&& tables::trak_tables(trak) == Some(data.tables@)
    &&& match entries::trak_avc(trak) {
        Some(avc) => data.sps@ == avc.sps && data.pps@ == avc.pps,
        None => data.sps@.len() == 0 && data.pps@.len() == 0,
    }
    &&& data.keyframes@ == key_numbers(
        tables::trak_sync_samples(trak),
        data.tables.sizes@.len(),
    )
}

/// The data of a track, where it has the tables.
pub fn extract_track_data(track: &[u8]) -> (r: Option<TrackData>)
    ensures
        r is Some == tables::trak_tables(track@) is Some,
        r matches Some(data) ==> is_data_of(data, track@),
{
    let tables: TrackTables = match extract_track_tables(track) {
        Some(tables) => tables,
        None => return None,
    };
    let (sps, pps): (Vec<u8>, Vec<u8>) = match extract_avc_from_trak(track) {
        Some(avc) => (avc.sps, avc.pps),
        None => (Vec::new(), Vec::new()),
    };
    let sync: Vec<u32> = extract_sync_samples(track);
    let keyframes: Vec<u32> = if sync.len() == 0 {
        all_numbers(low32(tables.sizes.len()))
    } else {
        sync
    };
    Some(TrackData { tables, sps, pps, keyframes })
}

/// The numbers from one through `n`.
fn all_numbers(n: u32) -> (r: Vec<u32>)
    ensures
        r@ == Seq::new(n as nat, |i: int| (i + 1) as u32),
{
    let mut out: Vec<u32> = Vec::new();
    let mut i: u32 = 0;
    while i < n
        invariant
            i <= n,
            out@ == Seq::new(i as nat, |k: int| (k + 1) as u32),
        decreases n - i,
    {
        out.push(i + 1);
        i = i + 1;
        assert(out@ =~= Seq::new(i as nat, |k: int| (k + 1) as u32));
    }
    out
}

/// A sample that was placed, and whether it is a key frame.
pub open spec fn sample_of(info: SampleInfo, keyframes: Seq<u32>) -> Sample {
    Sample {
        timestamp: info.start,
        offset: info.offset,
        size: info.size,
        is_keyframe: keyframes.contains(boxes::wrap32((info.index + 1) as nat)),
    }
}

/// The samples of a track.
pub open spec fn samples_of(t: tables::TablesView, keyframes: Seq<u32>) -> Seq<Sample> {
    let placed = timing::samples_through(t, t.offsets.len());
    Seq::new(placed.len(), |i: int| sample_of(placed[i], keyframes))
}

/// The samples of a track.
pub fn build_samples(data: &TrackData) -> (r: Vec<Sample>)
    ensures
        r@ == samples_of(data.tables@, data.keyframes@),
{
    broadcast use vstd::std_specs::hash::group_hash_axioms;

    let placed: Vec<SampleInfo> = enumerate_samples(&data.tables);
    let mut keys: HashSet<u32> = HashSet::new();
    let mut k: usize = 0;
    while k < data.keyframes.len()
        invariant
            k <= data.keyframes@.len(),
            forall|n: u32| #[trigger]
                keys@.contains(n) == data.keyframes@.take(k as int).contains(n),
        decreases data.keyframes@.len() - k,
    {
        broadcast use vstd::std_specs::hash::group_hash_axioms;

        let number: u32 = data.keyframes[k];
        keys.insert(number);
        proof {
            let before = data.keyframes@.take(k as int);
            let after = data.keyframes@.take(k + 1);
            assert(after =~= before.push(number));
            assert forall|n: u32| #[trigger] keys@.contains(n) == after.contains(n) by {
                if before.contains(n) {
                    let i = choose|i: int| 0 <= i < before.len() && before[i] == n;
                    assert(after[i] == n);
                }
                if n == number {
                    assert(after[k as int] == n);
                }
                if after.contains(n) && n != number {
                    let i = choose|i: int| 0 <= i < after.len() && after[i] == n;
                    assert(before[i] == n);
                }
            }
        }
        k = k + 1;
    }
    assert(data.keyframes@.take(k as int) =~= data.keyframes@);
    let count: usize = placed.len();
    let mut out: Vec<Sample> = Vec::new();
    let mut i: usize = 0;
    while i < count
        invariant
            i <= count,
            count == placed@.len(),
            placed@ == timing::samples_through(data.tables@, data.tables.offsets@.len()),
            forall|n: u32| #[trigger] keys@.contains(n) == data.keyframes@.contains(n),
            out@ == samples_of(data.tables@, data.keyframes@).take(i as int),
        decreases count - i,
    {
        broadcast use vstd::std_specs::hash::group_hash_axioms;

        let info: SampleInfo = placed[i];
        proof {
            timing::lemma_placed_index(data.tables@, data.tables.offsets@.len(), i as int);
        }
        let number: u32 = low32(info.index + 1);
        let sample: Sample = Sample {
            timestamp: info.start,
            offset: info.offset,
            size: info.size,
            is_keyframe: keys.contains(&number),
        };
        out.push(sample);
        proof {
            let all = samples_of(data.tables@, data.keyframes@);
            assert(all[i as int] == sample);
            assert(all.take(i + 1) =~= all.take(i as int).push(sample));
        }
        i = i + 1;
    }
    assert(out@ =~= samples_of(data.tables@, data.keyframes@));
    out
}

// --------------------
// Nearest key frame
// --------------------

/// Whether a sample is shown before a time.
pub open spec fn shown_before(ticks: u64, timescale: u32, nanos: nat) -> bool {
    ticks * 1_000_000_000 < nanos * timescale
}

/// How far a sample is from a time, in parts of a second that depend on the
/// timescale only.
pub open spec fn distance(ticks: u64, timescale: u32, nanos: nat) -> int {
    let d = nanos * timescale - ticks * 1_000_000_000;
    if d < 0 {
        -d
    } else {
        d
    }
}

/// Where a search by halves for the first sample not before a time ends.
pub open spec fn search(samples: Seq<Sample>, timescale: u32, nanos: nat, lo: int, hi: int) -> int
    decreases hi - lo,
{
    if lo >= hi {
        lo
    } else {
        let mid = (lo + hi) / 2;
        if shown_before(samples[mid].timestamp, timescale, nanos) {
            search(samples, timescale, nanos, mid + 1, hi)
        } else {
            search(samples, timescale, nanos, lo, mid)
        }
    }
}

/// The sample to show for a time: the one found by the search or the one
/// before it, whichever is nearer, and of two equally near the earlier one.
pub open spec fn nearest(samples: Seq<Sample>, timescale: u32, nanos: nat) -> Option<int> {
    let at = search(samples, timescale, nanos, 0, samples.len() as int);
    if samples.len() == 0 {
        None
    } else if at >= samples.len() {
        Some(samples.len() - 1)
    } else if at == 0 {
        Some(0)
    } else if distance(samples[at - 1].timestamp, timescale, nanos) <= distance(
        samples[at].timestamp,
        timescale,
        nanos,
    ) {
        Some(at - 1)
    } else {
        Some(at)
    }
}

proof fn lemma_search_bounds(samples: Seq<Sample>, timescale: u32, nanos: nat, lo: int, hi: int)
    requires
        0 <= lo <= hi <= samples.len(),
    ensures
        lo <= search(samples, timescale, nanos, lo, hi) <= hi,
    decreases hi - lo,
{
    if lo < hi {
        let mid = (lo + hi) / 2;
        if shown_before(samples[mid].timestamp, timescale, nanos) {
            lemma_search_bounds(samples, timescale, nanos, mid + 1, hi);
        } else {
            lemma_search_bounds(samples, timescale, nanos, lo, mid);
        }
    }
}

/// Whether samples are in the order of their times.
pub open spec fn in_order(samples: Seq<Sample>) -> bool {
    forall|i: int, j: int|
        0 <= i <= j < samples.len() ==> (#[trigger] samples[i]).timestamp <= (
        #[trigger] samples[j]).timestamp
}

proof fn lemma_search_splits(samples: Seq<Sample>, timescale: u32, nanos: nat, lo: int, hi: int)
    requires
        0 <= lo <= hi <= samples.len(),
        in_order(samples),
        forall|k: int|
            0 <= k < lo ==> shown_before(#[trigger] samples[k].timestamp, timescale, nanos),
        forall|k: int|
            hi <= k < samples.len() ==> !shown_before(
                #[trigger] samples[k].timestamp,
                timescale,
                nanos,
            ),
    ensures
        forall|k: int|
            0 <= k < search(samples, timescale, nanos, lo, hi) ==> shown_before(
                #[trigger] samples[k].timestamp,
                timescale,
                nanos,
            ),
        forall|k: int|
            search(samples, timescale, nanos, lo, hi) <= k < samples.len() ==> !shown_before(
                #[trigger] samples[k].timestamp,
                timescale,
                nanos,
            ),
    decreases hi - lo,
{
    if lo < hi {
        let mid = (lo + hi) / 2;
        if shown_before(samples[mid].timestamp, timescale, nanos) {
            assert forall|k: int| 0 <= k < mid + 1 implies shown_before(
                #[trigger] samples[k].timestamp,
                timescale,
                nanos,
            ) by {
                assert(samples[k].timestamp <= samples[mid].timestamp);
            }
            lemma_search_splits(samples, timescale, nanos, mid + 1, hi);
        } else {
            assert forall|k: int| mid <= k < samples.len() implies !shown_before(
                #[trigger] samples[k].timestamp,
                timescale,
                nanos,
            ) by {
                assert(samples[mid].timestamp <= samples[k].timestamp);
            }
            lemma_search_splits(samples, timescale, nanos, lo, mid);
        }
    }
}

/// Among samples in order none is nearer to a time than the one shown for it.
pub proof fn law_nearest_is_nearest(samples: Seq<Sample>, timescale: u32, nanos: nat, k: int)
    requires
        in_order(samples),
        0 <= k < samples.len(),
    ensures
        nearest(samples, timescale, nanos) matches Some(i) && 0 <= i < samples.len() && distance(
            samples[i].timestamp,
            timescale,
            nanos,
        ) <= distance(samples[k].timestamp, timescale, nanos),
{
    let n = samples.len() as int;
    let at = search(samples, timescale, nanos, 0, n);
    lemma_search_bounds(samples, timescale, nanos, 0, n);
    lemma_search_splits(samples, timescale, nanos, 0, n);
    if k < at {
        assert(shown_before(samples[k].timestamp, timescale, nanos));
        assert(samples[k].timestamp <= samples[at - 1].timestamp);
        assert(shown_before(samples[at - 1].timestamp, timescale, nanos));
    } else {
        assert(!shown_before(samples[k].timestamp, timescale, nanos));
        assert(samples[at].timestamp <= samples[k].timestamp);
        assert(!shown_before(samples[at].timestamp, timescale, nanos));
    }
}

/// The index of the key frame to show for a time, see `nearest`.
pub fn find_nearest_keyframe(samples: &[Sample], timescale: u32, time: Duration) -> (r: Option<
    usize,
>)
    ensures
        match r {
            Some(i) => nearest(samples@, timescale, time.nanos()) == Some(i as int) && i
                < samples@.len(),
            None => nearest(samples@, timescale, time.nanos()) is None,
        },
{
    let count: usize = samples.len();
    if count == 0 {
        return None;
    }
    let target: u128 = scaled_nanos(time, timescale);
    let ghost nanos = time.nanos();
    let mut low: usize = 0;
    let mut high: usize = count;
    proof {
        lemma_search_bounds(samples@, timescale, nanos, 0, count as int);
    }
    while low < high
        invariant
            low <= high <= count,
            count == samples@.len(),
            target == nanos * timescale,
            search(samples@, timescale, nanos, 0, count as int) == search(
                samples@,
                timescale,
                nanos,
                low as int,
                high as int,
            ),
        decreases high - low,
    {
        let mid: usize = low + (high - low) / 2;
        assert(mid == (low + high) / 2);
        if (samples[mid].timestamp as u128) * 1_000_000_000 < target {
            low = mid + 1;
        } else {
            high = mid;
        }
    }
    if low >= count {
        return Some(count - 1);
    }
    if low == 0 {
        return Some(0);
    }
    let before: u128 = gap(samples[low - 1].timestamp, target);
    let after: u128 = gap(samples[low].timestamp, target);
    if before <= after {
        Some(low - 1)
    } else {
        Some(low)
    }
}

/// A time in nanoseconds, times a timescale.
fn scaled_nanos(time: Duration, timescale: u32) -> (r: u128)
    ensures
        r == time.nanos() * timescale,
{
    let nanos: u128 = time.as_nanos();
    proof {
        assert(nanos * timescale <= u128::MAX) by (nonlinear_arith)
            requires
                0 <= nanos < 0x1_0000_0000_0000_0000 * 1_000_000_000,
                0 <= timescale <= 0xffff_ffff,
        ;
    }
    nanos * timescale as u128
}

fn gap(ticks: u64, target: u128) -> (r: u128)
    ensures
        r == if target as int - ticks * 1_000_000_000 < 0 {
            ticks * 1_000_000_000 - target as int
        } else {
            target as int - ticks * 1_000_000_000
        },
{
    let scaled: u128 = (ticks as u128) * 1_000_000_000;
    if scaled > target {
        scaled - target
    } else {
        target - scaled
    }
}

/// The key frames among samples.
pub open spec fn key_samples(samples: Seq<Sample>) -> Seq<Sample> {
    samples.filter(|s: Sample| s.is_keyframe)
}

/// The samples to read, one for each time: the nearest key frames. Nothing is
/// read without parameter sets, without key frames or without times.
pub open spec fn planned_reads(
    samples: Seq<Sample>,
    timescale: u32,
    has_sets: bool,
    times: Seq<Duration>,
) -> Seq<Sample> {
    let keys = key_samples(samples);
    if !has_sets || keys.len() == 0 {
        Seq::empty()
    } else {
        Seq::new(
            times.len(),
            |i: int| keys[nearest(keys, timescale, times[i].nanos())->Some_0],
        )
    }
}

/// The samples to read for times, see `planned_reads`.
pub fn plan_reads(
    samples: &[Sample],
    timescale: u32,
    sps: &[u8],
    pps: &[u8],
    timestamps: &[Duration],
) -> (r: Vec<Sample>)
    ensures
        r@ == planned_reads(
            samples@,
            timescale,
            sps@.len() > 0 && pps@.len() > 0,
            timestamps@,
        ),
{
    let mut out: Vec<Sample> = Vec::new();
    if sps.len() == 0 || pps.len() == 0 {
        return out;
    }
    let mut keys: Vec<Sample> = Vec::new();
    let mut i: usize = 0;
    let ghost is_key = |s: Sample| s.is_keyframe;
    assert(samples@.take(0).filter(is_key) =~= Seq::empty()) by {
        reveal(Seq::filter);
    }
    while i < samples.len()
        invariant
            i <= samples@.len(),
            is_key == (|s: Sample| s.is_keyframe),
            keys@ == samples@.take(i as int).filter(is_key),
        decreases samples@.len() - i,
    {
        proof {
            reveal(Seq::filter);
            assert(samples@.take(i + 1).drop_last() =~= samples@.take(i as int));
        }
        if samples[i].is_keyframe {
            keys.push(samples[i]);
        }
        i = i + 1;
    }
    assert(samples@.take(i as int) =~= samples@);
    if keys.len() == 0 {
        return out;
    }
    let mut k: usize = 0;
    while k < timestamps.len()
        invariant
            k <= timestamps@.len(),
            keys@ == key_samples(samples@),
            keys@.len() > 0,
            out@ == planned_reads(samples@, timescale, true, timestamps@).take(k as int),
        decreases timestamps@.len() - k,
    {
        let ghost all = planned_reads(samples@, timescale, true, timestamps@);
        match find_nearest_keyframe(keys.as_slice(), timescale, timestamps[k]) {
            Some(index) => {
                out.push(keys[index]);
                proof {
                    assert(all.take(k + 1) =~= all.take(k as int).push(all[k as int]));
                }
            },
            None => {
                assert(false);
            },
        }
        k = k + 1;
    }
    assert(out@ =~= planned_reads(samples@, timescale, true, timestamps@));
    out
}

// --------------------
// Decoding
// --------------------

/// The units of a sample from `pos` on, each behind a start code in place of
/// its length of four bytes. A unit that does not end inside the sample ends
/// the list.
pub open spec fn annexb(sample: Seq<u8>, pos: int) -> Seq<u8>
    decreases sample.len() - pos,
{
    if pos < 0 || pos + 4 > sample.len() || pos + 4 + bytes::be32(sample, pos) > sample.len() {
        Seq::empty()
    } else {
        let end = pos + 4 + bytes::be32(sample, pos);
        bitstream::start_code() + sample.subrange(pos + 4, end) + annexb(sample, end)
    }
}

/// The units of a sample behind start codes, see `annexb`.
pub fn sample_to_annexb(sample: &[u8]) -> (r: Vec<u8>)
    ensures
        r@ == annexb(sample@, 0),
{
    let mut out: Vec<u8> = Vec::new();
    let len: usize = sample.len();
    let mut pos: usize = 0;
    assert(out@ + annexb(sample@, 0) =~= annexb(sample@, 0));
    while len - pos >= 4
        invariant_except_break
            out@ + annexb(sample@, pos as int) == annexb(sample@, 0),
        invariant
            pos <= len,
            len == sample@.len(),
        ensures
            out@ == annexb(sample@, 0),
        decreases len - pos,
    {
        let unit: usize = match read_u32_be(sample, pos) {
            Some(n) => n as usize,
            None => {
                assert(false);
                0
            },
        };
        if unit > len - pos - 4 {
            assert(annexb(sample@, pos as int) =~= Seq::empty());
            break;
        }
        let ghost before = out@;
        push_start_code(&mut out);
        let body: Vec<u8> = copy_range(sample, pos + 4, pos + 4 + unit);
        out.extend_from_slice(body.as_slice());
        proof {
            assert(out@ =~= before + bitstream::start_code() + sample@.subrange(
                pos + 4,
                pos + 4 + unit,
            ));
            assert(out@ + annexb(sample@, pos + 4 + unit) =~= before + annexb(
                sample@,
                pos as int,
            ));
        }
        pos = pos + 4 + unit;
    }
    out
}

fn push_start_code(out: &mut Vec<u8>)
    ensures
        final(out)@ == old(out)@ + bitstream::start_code(),
{
    out.push(0);
    out.push(0);
    out.push(0);
    out.push(1);
    assert(out@ =~= old(out)@ + bitstream::start_code());
}

/// `Decoder::decode` with `DecodedYUV::write_rgb8`: hands units to the decoder
/// and gives the width, the height and the packed colors of the picture that
/// comes out, if any. There are three bytes for each pixel. What a picture
/// shows depends on all the units handed over before and is left unsaid. A
/// sequence parameter set whose cropping leaves nothing of the picture is not to
/// be handed over: the decoder does not turn away every such set, and its
/// pictures are then larger than their planes.
#[verifier::external_body]
fn decode_rgb(decoder: &mut Decoder, packet: &[u8]) -> (r: Option<(usize, usize, Vec<u8>)>)
    requires
        packet@.len() <= i32::MAX,
        sps::sets_fit(packet@),
    ensures
        r matches Some((w, h, data)) ==> data@.len() == w * h * 3,
{
    match decoder.decode(packet) {
        Ok(Some(yuv)) => {
            let (w, h) = yuv.dimensions();
            let mut data = vec![0u8; yuv.rgb8_len()];
            yuv.write_rgb8(&mut data);
            Some((w, h, data))
        },
        Ok(None) => None,
        Err(_) => None,
    }
}

/// What comes out of the decoder: nothing, or the width, the height and the
/// packed colors of a picture.
pub open spec fn picture_view(picture: Option<(usize, usize, Vec<u8>)>) -> Option<
    (usize, usize, Seq<u8>),
> {
    match picture {
        Some((w, h, data)) => Some((w, h, data@)),
        None => None,
    }
}

/// What was handed to a decoder, and what came out.
pub struct Exchange {
    pub packet: Seq<u8>,
    pub picture: Option<(usize, usize, Seq<u8>)>,
}

/// Whether a decoder can take units at once: their length fits in a signed
/// integer of 32 bits, and the sequence parameter sets among them leave
/// something of the picture.
pub open spec fn can_take(packet: Seq<u8>) -> bool {
    packet.len() <= i32::MAX && sps::sets_fit(packet)
}

/// The exchanges of a decoder after units were to be handed over: one more with
/// these units, or no more where it cannot take them.
pub open spec fn handed_over(before: Seq<Exchange>, after: Seq<Exchange>, packet: Seq<u8>) -> bool {
    if can_take(packet) {
        after.len() == before.len() + 1 && after.drop_last() == before && after.last().packet
            == packet
    } else {
        after == before
    }
}

/// A decoder of key frames, with a record of its exchanges.
pub struct RgbDecoder {
    decoder: Decoder,
    exchanges: Ghost<Seq<Exchange>>,
}

/// A parameter set behind a start code.
fn with_start_code(set: &[u8]) -> (r: Vec<u8>)
    ensures
        r@ == bitstream::start_code() + set@,
{
    let mut out: Vec<u8> = Vec::new();
    push_start_code(&mut out);
    out.extend_from_slice(set);
    assert(out@ =~= bitstream::start_code() + set@);
    out
}

/// The parameter sets among those given that a decoder can take, each behind a
/// start code.
pub open spec fn set_packets(sets: Seq<Seq<u8>>) -> Seq<Seq<u8>>
    decreases sets.len(),
{
    if sets.len() == 0 {
        Seq::empty()
    } else {
        let before = set_packets(sets.drop_last());
        let packet = bitstream::start_code() + sets.last();
        if can_take(packet) {
            before.push(packet)
        } else {
            before
        }
    }
}

/// The units of exchanges.
pub open spec fn packets_of(exchanges: Seq<Exchange>) -> Seq<Seq<u8>> {
    Seq::new(exchanges.len(), |i: int| exchanges[i].packet)
}

impl RgbDecoder {
    /// What was handed to the decoder so far, in order, and what came out each
    /// time.
    pub closed spec fn exchanges(self) -> Seq<Exchange> {
        self.exchanges@
    }

    /// A decoder that was handed two parameter sets. Whether one can be made is
    /// up to the machine, and what it makes of the sets is not looked at.
    pub fn open(sps: &[u8], pps: &[u8]) -> (r: Result<Self, MediaParserError>)
        ensures
            match r {
                Ok(d) => packets_of(d.exchanges()) == set_packets(seq![sps@, pps@]),
                Err(e) => e@ == errors::ErrorView::Io("decoder"@),
            },
    {
        let decoder: Decoder = match new_decoder() {
            Ok(decoder) => decoder,
            Err(_) => return Err(MediaParserError::Io("decoder".to_owned())),
        };
        let mut out: RgbDecoder = RgbDecoder { decoder, exchanges: Ghost(Seq::empty()) };
        assert(packets_of(out.exchanges()) =~= set_packets(Seq::empty()));
        let ghost none = out.exchanges();
        let _ = out.submit(with_start_code(sps).as_slice());
        proof {
            lemma_packets_grow(none, out.exchanges(), bitstream::start_code() + sps@);
            assert(seq![sps@].drop_last() =~= Seq::empty());
            assert(seq![sps@].last() == sps@);
        }
        let ghost one = out.exchanges();
        let _ = out.submit(with_start_code(pps).as_slice());
        proof {
            lemma_packets_grow(one, out.exchanges(), bitstream::start_code() + pps@);
            assert(seq![sps@, pps@].drop_last() =~= seq![sps@]);
            assert(packets_of(one) == set_packets(seq![sps@]));
            assert(seq![sps@, pps@].last() == pps@);
        }
        Ok(out)
    }

    /// Hands units to the decoder. Those that it cannot take are not handed
    /// over.
    fn submit(&mut self, packet: &[u8]) -> (r: Option<(usize, usize, Vec<u8>)>)
        ensures
            handed_over(old(self).exchanges(), final(self).exchanges(), packet@),
            if can_take(packet@) {
                picture_view(r) == final(self).exchanges().last().picture
            } else {
                r is None
            },
            r matches Some((w, h, data)) ==> data@.len() == w * h * 3,
    {
        if packet.len() > 0x7fff_ffff || !check_sets(packet) {
            return None;
        }
        let picture: Option<(usize, usize, Vec<u8>)> = decode_rgb(&mut self.decoder, packet);
        self.exchanges = Ghost(
            self.exchanges@.push(Exchange { packet: packet@, picture: picture_view(picture) }),
        );
        assert(self.exchanges().drop_last() =~= old(self).exchanges());
        picture
    }

    /// Decodes a sample: hands its units behind start codes to the decoder, and
    /// gives the picture that comes out as a frame. The decoder decides whether
    /// one comes out; it has three bytes for each of its pixels. Nothing comes
    /// out where the decoder cannot take the units.
    pub fn decode(&mut self, sample: &[u8]) -> (r: Option<RawFrame>)
        ensures
            handed_over(old(self).exchanges(), final(self).exchanges(), annexb(sample@, 0)),
            if can_take(annexb(sample@, 0)) {
                is_frame_of(r, final(self).exchanges().last().picture)
            } else {
                r is None
            },
            r matches Some(f) ==> f.data@.len() == f.width * f.height * 3,
    {
        let units: Vec<u8> = sample_to_annexb(sample);
        match self.submit(units.as_slice()) {
            Some((w, h, data)) => frame_of(w, h, data),
            None => None,
        }
    }
}

proof fn lemma_packets_grow(before: Seq<Exchange>, after: Seq<Exchange>, packet: Seq<u8>)
    requires
        handed_over(before, after, packet),
    ensures
        packets_of(after) == (if can_take(packet) {
            packets_of(before).push(packet)
        } else {
            packets_of(before)
        }),
{
    if can_take(packet) {
        assert forall|i: int| 0 <= i < before.len() implies #[trigger] after[i] == before[i] by {
            assert(after.drop_last()[i] == after[i]);
        }
        assert(packets_of(after) =~= packets_of(before).push(packet));
    }
}

/// Whether a result is the frame of what came out of a decoder: nothing for
/// nothing, and for a picture whose sides do not fit in 32 bits.
pub open spec fn is_frame_of(r: Option<RawFrame>, picture: Option<(usize, usize, Seq<u8>)>) -> bool {
    match picture {
        Some((w, h, data)) => if w > u32::MAX || h > u32::MAX {
            r is None
        } else {
            r matches Some(f) && f.width == w && f.height == h && f.format == PixelFormat::Rgb24
                && f.data@ == data
        },
        None => r is None,
    }
}

/// A frame of decoded colors, whose sides must fit in 32 bits.
pub fn frame_of(width: usize, height: usize, data: Vec<u8>) -> (r: Option<RawFrame>)
    ensures
        is_frame_of(r, Some((width, height, data@))),
{
    if width > u32::MAX as usize || height > u32::MAX as usize {
        return None;
    }
    Some(
        RawFrame { width: width as u32, height: height as u32, format: PixelFormat::Rgb24, data },
    )
}

// --------------------
// Encoding
// --------------------

/// An uncompressed video frame.
#[derive(Debug, Clone)]
pub struct RawFrame {
    pub width: u32,
    pub height: u32,
    pub format: PixelFormat,
    pub data: Vec<u8>,
}

/// The JPEG image that the `image` crate makes of packed colors, or the text
/// of the error.
pub uninterp spec fn jpeg_bytes(rgb: Seq<u8>, width: u32, height: u32, quality: u8) -> Result<
    Seq<u8>,
    Seq<char>,
>;

/// The packed colors that the `image` crate makes of others of another size,
/// with the triangle filter.
pub uninterp spec fn resized_rgb(
    rgb: Seq<u8>,
    width: u32,
    height: u32,
    new_width: u32,
    new_height: u32,
) -> Seq<u8>;

/// What encoding gives.
pub open spec fn jpeg_view(r: Result<Vec<u8>, String>) -> Result<Seq<u8>, Seq<char>> {
    match r {
        Ok(bytes) => Ok(bytes@),
        Err(e) => Err(e@),
    }
}

/// `RgbImage::write_to` in the JPEG format: the bytes of the image, or the text
/// of the error. It succeeds just where both sides fit in 16 bits.
#[verifier::external_body]
fn encode_jpeg(rgb: &[u8], width: u32, height: u32, quality: u8) -> (r: Result<Vec<u8>, String>)
    requires
        width * height * 3 <= rgb@.len(),
    ensures
        jpeg_view(r) == jpeg_bytes(rgb@, width, height, quality),
        r is Ok == (width <= 65535 && height <= 65535),
{
    let mut cursor = std::io::Cursor::new(Vec::new());
    match image::RgbImage::from_raw(width, height, rgb.to_vec()) {
        Some(picture) => match picture.write_to(
            &mut cursor,
            image::ImageOutputFormat::Jpeg(quality),
        ) {
            Ok(()) => Ok(cursor.into_inner()),
            Err(e) => Err(e.to_string()),
        },
        None => Err(String::new()),
    }
}

/// The longest side of a picture that is scaled. The positions of pixels along
/// such a side, and those halfway between, are numbers that the filter counts
/// without loss.
pub const MAX_SCALED_SIDE: u32 = 4_194_304;

/// `DynamicImage::resize_exact` with the triangle filter: the colors of the
/// picture in the new size, three bytes for each pixel. The filter places
/// pixels by numbers of 24 bits, so that no side may be longer than those can
/// tell apart.
#[verifier::external_body]
fn resize_rgb(rgb: &[u8], width: u32, height: u32, new_width: u32, new_height: u32) -> (r: Vec<u8>)
    requires
        0 < width <= MAX_SCALED_SIDE,
        height <= MAX_SCALED_SIDE,
        0 < new_width <= width,
        0 < new_height <= MAX_SCALED_SIDE,
        width * height * 3 <= rgb@.len(),
        16 * width * new_height <= isize::MAX,
    ensures
        r@ == resized_rgb(rgb@, width, height, new_width, new_height),
        r@.len() == new_width * new_height * 3,
{
    match image::RgbImage::from_raw(width, height, rgb.to_vec()) {
        Some(picture) => image::DynamicImage::ImageRgb8(picture).resize_exact(
            new_width,
            new_height,
            image::imageops::FilterType::Triangle,
        ).into_rgb8().into_raw(),
        None => Vec::new(),
    }
}

/// The character for six bits.
pub open spec fn base64_char(v: int) -> char {
    if v < 26 {
        (0x41 + v) as char
    } else if v < 52 {
        (0x61 + v - 26) as char
    } else if v < 62 {
        (0x30 + v - 52) as char
    } else if v == 62 {
        '+'
    } else {
        '/'
    }
}

/// Bytes in Base64: four characters for three bytes, the last group padded.
pub open spec fn base64_text(data: Seq<u8>) -> Seq<char>
    decreases data.len(),
{
    if data.len() == 0 {
        Seq::empty()
    } else if data.len() == 1 {
        seq![base64_char(data[0] as int / 4), base64_char(data[0] as int % 4 * 16), '=', '=']
    } else if data.len() == 2 {
        seq![
            base64_char(data[0] as int / 4),
            base64_char(data[0] as int % 4 * 16 + data[1] as int / 16),
            base64_char(data[1] as int % 16 * 4),
            '=',
        ]
    } else {
        seq![
            base64_char(data[0] as int / 4),
            base64_char(data[0] as int % 4 * 16 + data[1] as int / 16),
            base64_char(data[1] as int % 16 * 4 + data[2] as int / 64),
            base64_char(data[2] as int % 64),
        ] + base64_text(data.skip(3))
    }
}

/// `Engine::encode` of the standard engine: bytes in Base64 with padding. The
/// text must fit in an allocation.
#[verifier::external_body]
fn encode_base64(data: &[u8]) -> (r: String)
    requires
        (data@.len() + 2) / 3 * 4 <= isize::MAX,
    ensures
        r@ == base64_text(data@),
{
    base64::engine::general_purpose::STANDARD.encode(data)
}

/// A JPEG image as a data URL, where that fits in an allocation.
pub fn data_url(jpeg: &[u8]) -> (r: Option<String>)
    ensures
        if (jpeg@.len() + 2) / 3 * 4 > isize::MAX {
            r is None
        } else {
            r matches Some(url) && url@ == "data:image/jpeg;base64,"@ + base64_text(jpeg@)
        },
{
    let whole: usize = jpeg.len() / 3;
    let groups: usize = if jpeg.len() % 3 == 0 {
        whole
    } else {
        whole + 1
    };
    if groups > (isize::MAX as usize) / 4 {
        return None;
    }
    Some(joined("data:image/jpeg;base64,", encode_base64(jpeg).as_str()))
}

/// What encoding gives, as an error of this library.
pub fn jpeg_result(encoded: Result<Vec<u8>, String>) -> (r: Result<Vec<u8>, MediaParserError>)
    ensures
        match jpeg_view(encoded) {
            Ok(bytes) => r matches Ok(v) && v@ == bytes,
            Err(reason) => r matches Err(e) && e@ == errors::ErrorView::Io(
                "jpeg encode: "@ + reason,
            ),
        },
{
    match encoded {
        Ok(bytes) => Ok(bytes),
        Err(reason) => Err(MediaParserError::Io(joined("jpeg encode: ", reason.as_str()))),
    }
}

/// The value of a digit of base 64.
pub open spec fn base64_value(c: char) -> int {
    let v = c as u32 as int;
    if 0x41 <= v <= 0x5a {
        v - 0x41
    } else if 0x61 <= v <= 0x7a {
        v - 0x61 + 26
    } else if 0x30 <= v <= 0x39 {
        v - 0x30 + 52
    } else if c == '+' {
        62
    } else {
        63
    }
}

/// The bytes that a text in base 64 stands for: three for each four digits,
/// fewer for the last four where they end in padding.
pub open spec fn base64_bytes(s: Seq<char>) -> Seq<u8>
    decreases s.len(),
{
    if s.len() < 4 {
        Seq::empty()
    } else {
        let bits = base64_value(s[0]) * 0x4_0000 + base64_value(s[1]) * 0x1000 + (if s[2] == '=' {
            0
        } else {
            base64_value(s[2]) * 0x40
        }) + (if s[3] == '=' {
            0
        } else {
            base64_value(s[3])
        });
        let three = seq![
            (bits / 0x1_0000) as u8,
            (bits / 0x100 % 0x100) as u8,
            (bits % 0x100) as u8,
        ];
        if s[2] == '=' {
            three.take(1)
        } else if s[3] == '=' {
            three.take(2)
        } else {
            three + base64_bytes(s.skip(4))
        }
    }
}

proof fn lemma_base64_digit(v: int)
    requires
        0 <= v < 64,
    ensures
        base64_value(base64_char(v)) == v,
        base64_char(v) != '=',
{
}

proof fn lemma_base64_bits(a: int, b: int, c: int)
    requires
        0 <= a < 256,
        0 <= b < 256,
        0 <= c < 256,
    ensures
        (a / 4) * 0x4_0000 + (a % 4 * 16 + b / 16) * 0x1000 + (b % 16 * 4 + c / 64) * 0x40 + c % 64
            == a * 0x1_0000 + b * 0x100 + c,
        (a * 0x1_0000 + b * 0x100 + c) / 0x1_0000 == a,
        (a * 0x1_0000 + b * 0x100 + c) / 0x100 % 0x100 == b,
        (a * 0x1_0000 + b * 0x100 + c) % 0x100 == c,
{
    assert((a * 0x1_0000 + b * 0x100 + c) / 0x100 == a * 0x100 + b);
}

/// The bytes of four digits without padding.
proof fn lemma_base64_group(s: Seq<char>, a: u8, b: u8, c: u8)
    requires
        s.len() >= 4,
        s[0] == base64_char(a as int / 4),
        s[1] == base64_char(a as int % 4 * 16 + b as int / 16),
        s[2] == base64_char(b as int % 16 * 4 + c as int / 64),
        s[3] == base64_char(c as int % 64),
    ensures
        base64_bytes(s) == seq![a, b, c] + base64_bytes(s.skip(4)),
{
    lemma_base64_digit(a as int / 4);
    lemma_base64_digit(a as int % 4 * 16 + b as int / 16);
    lemma_base64_digit(b as int % 16 * 4 + c as int / 64);
    lemma_base64_digit(c as int % 64);
    lemma_base64_bits(a as int, b as int, c as int);
    let bits = a * 0x1_0000 + b * 0x100 + c;
    let three = seq![
        (bits / 0x1_0000) as u8,
        (bits / 0x100 % 0x100) as u8,
        (bits % 0x100) as u8,
    ];
    assert(three =~= seq![a, b, c]);
}

/// The bytes of four digits with padding.
proof fn lemma_base64_end(s: Seq<char>, a: u8, b: u8, two: bool)
    requires
        s.len() == 4,
        s[0] == base64_char(a as int / 4),
        s[3] == '=',
        two ==> s[1] == base64_char(a as int % 4 * 16 + b as int / 16) && s[2] == base64_char(
            b as int % 16 * 4,
        ),
        !two ==> s[1] == base64_char(a as int % 4 * 16) && s[2] == '=',
    ensures
        base64_bytes(s) == (if two {
            seq![a, b]
        } else {
            seq![a]
        }),
{
    let second: u8 = if two {
        b
    } else {
        0
    };
    lemma_base64_digit(a as int / 4);
    lemma_base64_digit(a as int % 4 * 16 + second as int / 16);
    lemma_base64_digit(second as int % 16 * 4);
    lemma_base64_bits(a as int, second as int, 0);
    let bits = a * 0x1_0000 + second * 0x100;
    let three = seq![
        (bits / 0x1_0000) as u8,
        (bits / 0x100 % 0x100) as u8,
        (bits % 0x100) as u8,
    ];
    assert(three.take(1) =~= seq![a]);
    assert(three.take(2) =~= seq![a, second]);
}

/// A text in base 64 stands for the bytes that it was made from.
pub proof fn law_base64_reads_back(data: Seq<u8>)
    ensures
        base64_bytes(base64_text(data)) == data,
    decreases data.len(),
{
    let s = base64_text(data);
    if data.len() == 1 {
        lemma_base64_end(s, data[0], 0, false);
        assert(seq![data[0]] =~= data);
    } else if data.len() == 2 {
        lemma_base64_end(s, data[0], data[1], true);
        assert(seq![data[0], data[1]] =~= data);
    } else if data.len() > 2 {
        let rest = data.skip(3);
        law_base64_reads_back(rest);
        lemma_base64_group(s, data[0], data[1], data[2]);
        assert(s.skip(4) =~= base64_text(rest));
        assert(seq![data[0], data[1], data[2]] + rest =~= data);
    } else {
        assert(data =~= Seq::empty());
    }
}

/// The height that a frame is scaled to.
pub open spec fn at_least_one(scaled_height: u32) -> u32 {
    if scaled_height > 1 {
        scaled_height
    } else {
        1
    }
}

fn row_count(scaled_height: u32) -> (r: u32)
    ensures
        r == at_least_one(scaled_height),
{
    if scaled_height > 1 {
        scaled_height
    } else {
        1
    }
}

impl RawFrame {
    /// Whether the frame has all the bytes of its pixels.
    pub open spec fn is_whole(self) -> bool {
        self.width * self.height * 3 <= self.data@.len()
    }

    fn whole(&self) -> (r: bool)
        ensures
            r == self.is_whole(),
    {
        proof {
            assert(self.width * self.height <= 0xffff_ffff * 0xffff_ffff) by (nonlinear_arith)
                requires
                    self.width <= 0xffff_ffff,
                    self.height <= 0xffff_ffff,
            ;
        }
        let pixels: u128 = self.width as u128 * self.height as u128;
        pixels * 3 <= self.data.len() as u128
    }

    /// The frame as a data URL of a JPEG image. There is none for a format
    /// other than packed colors, for a frame that lacks bytes, and for one too
    /// large to be encoded.
    pub fn to_base64(&self) -> (r: Option<String>)
        ensures
            if self.format != PixelFormat::Rgb24 || !self.is_whole() {
                r is None
            } else {
                match jpeg_bytes(self.data@, self.width, self.height, DATA_URL_QUALITY) {
                    Ok(jpeg) => if (jpeg.len() + 2) / 3 * 4 > isize::MAX {
                        r is None
                    } else {
                        r matches Some(url) && url@ == "data:image/jpeg;base64,"@ + base64_text(
                            jpeg,
                        )
                    },
                    Err(_) => r is None,
                }
            },
    {
        if self.format != PixelFormat::Rgb24 || !self.whole() {
            return None;
        }
        match encode_jpeg(self.data.as_slice(), self.width, self.height, DATA_URL_QUALITY) {
            Ok(jpeg) => data_url(jpeg.as_slice()),
            Err(_) => None,
        }
    }

    /// Whether the frame is encoded as it is, or can be scaled to `max_width`
    /// and `scaled_height`: no side is too long to be scaled, and the rows of
    /// the new height at the old width fit in an allocation.
    pub open spec fn can_scale(self, max_width: u32, scaled_height: u32) -> bool {
        max_width > 0 && self.width > max_width ==> {
            &&& self.width <= MAX_SCALED_SIDE
            &&& self.height <= MAX_SCALED_SIDE
            &&& scaled_height <= MAX_SCALED_SIDE
            &&& 16 * self.width * at_least_one(scaled_height) <= isize::MAX
        }
    }

    /// Whether the frame can be scaled, see `RawFrame::can_scale`.
    pub fn fits_scaling(&self, max_width: u32, scaled_height: u32) -> (r: bool)
        ensures
            r == self.can_scale(max_width, scaled_height),
    {
        if max_width == 0 || self.width <= max_width {
            return true;
        }
        if self.width > MAX_SCALED_SIDE || self.height > MAX_SCALED_SIDE || scaled_height
            > MAX_SCALED_SIDE {
            return false;
        }
        let height: u32 = row_count(scaled_height);
        proof {
            assert(16 * self.width * height <= 16 * 4_194_304 * 4_194_304) by (nonlinear_arith)
                requires
                    self.width <= 4_194_304,
                    height <= 4_194_304,
            ;
        }
        16 * self.width as u64 * height as u64 <= isize::MAX as u64
    }

    /// The frame as a JPEG image, scaled down to `max_width` and
    /// `scaled_height` where it is wider than a positive `max_width`. The
    /// caller gives the height that keeps the shape of the picture; it is at
    /// least one.
    pub fn to_jpeg_scaled_bytes(&self, max_width: u32, quality: u8, scaled_height: u32) -> (r:
        Result<Vec<u8>, MediaParserError>)
        requires
            self.can_scale(max_width, scaled_height),
        ensures
            if self.format != PixelFormat::Rgb24 {
                r matches Err(e) && e@ == errors::ErrorView::Io(
                    "unsupported pixel format for JPEG encoding"@,
                )
            } else if !self.is_whole() {
                r matches Err(e) && e@ == errors::ErrorView::Io("invalid RGB24 buffer dimensions"@)
            } else {
                match self.scaled_jpeg(max_width, quality, scaled_height) {
                    Ok(bytes) => r matches Ok(v) && v@ == bytes,
                    Err(reason) => r matches Err(e) && e@ == errors::ErrorView::Io(
                        "jpeg encode: "@ + reason,
                    ),
                }
            },
    {
        if self.format != PixelFormat::Rgb24 {
            return Err(
                MediaParserError::Io("unsupported pixel format for JPEG encoding".to_owned()),
            );
        }
        if !self.whole() {
            return Err(MediaParserError::Io("invalid RGB24 buffer dimensions".to_owned()));
        }
        if max_width > 0 && self.width > max_width {
            let height: u32 = row_count(scaled_height);
            let rgb: Vec<u8> = resize_rgb(
                self.data.as_slice(),
                self.width,
                self.height,
                max_width,
                height,
            );
            return jpeg_result(encode_jpeg(rgb.as_slice(), max_width, height, quality));
        }
        jpeg_result(encode_jpeg(self.data.as_slice(), self.width, self.height, quality))
    }

    /// The JPEG image of the frame, scaled down where it is too wide.
    pub open spec fn scaled_jpeg(self, max_width: u32, quality: u8, scaled_height: u32) -> Result<
        Seq<u8>,
        Seq<char>,
    > {
        if max_width > 0 && self.width > max_width {
            let height = at_least_one(scaled_height);
            jpeg_bytes(
                resized_rgb(self.data@, self.width, self.height, max_width, height),
                max_width,
                height,
                quality,
            )
        } else {
            jpeg_bytes(self.data@, self.width, self.height, quality)
        }
    }
}

} // verus!
