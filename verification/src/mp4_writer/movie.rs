//! The `moov` of a video track, and of a video and an audio track.

use vstd::prelude::*;
use super::{
    build_mdia, build_mdia_soun, build_mvhd, build_stbl, build_stbl_custom, build_stsd_mp4a,
    build_trak, build_trak_audio, EditListEntry,
};
use crate::boxes;
use crate::boxes::make_box;
use crate::bytes::push_bytes;
use crate::helpers::timing;
use crate::helpers::Mp4Box;
use crate::mp4_writer;
use crate::tags::Tag;

verus! {

/// What a video track is built from.
pub struct VideoMoovParams<'a> {
    pub movie_timescale: Option<u32>,
    pub track_timescale: u32,
    pub stts_pairs: &'a [(u32, u32)],
    pub ctts_pairs: Option<&'a [(u32, i32)]>,
    pub sample_sizes: &'a [u32],
    pub sync_samples_1based: Option<&'a [u32]>,
    pub track_id: u32,
    pub width: u16,
    pub height: u16,
    pub language: Option<&'a str>,
    pub mdat_base_offset: u64,
    pub avcc_payload: &'a [u8],
    pub edit_list: Option<&'a [EditListEntry]>,
}

/// What an audio track is built from.
pub struct AudioMoovParams<'a> {
    pub track_timescale: u32,
    pub stts_pairs: &'a [(u32, u32)],
    pub ctts_pairs: Option<&'a [(u32, i32)]>,
    pub sample_sizes: &'a [u32],
    pub track_id: u32,
    pub language: Option<&'a str>,
    pub mdat_base_offset: u64,
    pub esds_payload: &'a [u8],
    pub channels: u16,
    pub sample_rate: u32,
    pub edit_list: Option<&'a [EditListEntry]>,
}

/// What the description of a video track holds.
pub struct VideoView {
    pub movie_timescale: u32,
    pub track_timescale: u32,
    pub stts: Seq<(u32, u32)>,
    pub ctts: Option<Seq<(u32, i32)>>,
    pub sizes: Seq<u32>,
    pub sync: Option<Seq<u32>>,
    pub track_id: u32,
    pub width: u16,
    pub height: u16,
    pub language: Seq<char>,
    pub avcc: Seq<u8>,
    pub edits: Option<Seq<EditListEntry>>,
}

/// What the description of an audio track holds.
pub struct AudioView {
    pub track_timescale: u32,
    pub stts: Seq<(u32, u32)>,
    pub ctts: Option<Seq<(u32, i32)>>,
    pub sizes: Seq<u32>,
    pub track_id: u32,
    pub language: Seq<char>,
    pub esds: Seq<u8>,
    pub channels: u16,
    pub sample_rate: u32,
    pub edits: Option<Seq<EditListEntry>>,
}

/// The language of a track, `und` where none is given.
pub open spec fn language_of(language: Option<&str>) -> Seq<char> {
    match language {
        Some(l) => l@,
        None => "und"@,
    }
}

impl<'a> View for VideoMoovParams<'a> {
    type V = VideoView;

    open spec fn view(&self) -> VideoView {
        VideoView {
            movie_timescale: match self.movie_timescale {
                Some(t) => t,
                None => self.track_timescale,
            },
            track_timescale: self.track_timescale,
            stts: self.stts_pairs@,
            ctts: mp4_writer::opt_slice(self.ctts_pairs),
            sizes: self.sample_sizes@,
            sync: mp4_writer::opt_slice(self.sync_samples_1based),
            track_id: self.track_id,
            width: self.width,
            height: self.height,
            language: language_of(self.language),
            avcc: self.avcc_payload@,
            edits: mp4_writer::opt_slice(self.edit_list),
        }
    }
}

impl<'a> View for AudioMoovParams<'a> {
    type V = AudioView;

    open spec fn view(&self) -> AudioView {
        AudioView {
            track_timescale: self.track_timescale,
            stts: self.stts_pairs@,
            ctts: mp4_writer::opt_slice(self.ctts_pairs),
            sizes: self.sample_sizes@,
            track_id: self.track_id,
            language: language_of(self.language),
            esds: self.esds_payload@,
            channels: self.channels,
            sample_rate: self.sample_rate,
            edits: mp4_writer::opt_slice(self.edit_list),
        }
    }
}

/// Where each sample is stored when all follow one another from `base` on.
/// Offsets are kept to 64 bits.
pub open spec fn sample_offsets(base: u64, sizes: Seq<u32>) -> Seq<u64> {
    Seq::new(
        sizes.len(),
        |i: int| timing::wrap64(base + timing::size_sum(sizes, 0, i)),
    )
}

/// Computes where each sample is stored when all follow one another.
pub fn compute_offsets(mdat_base_offset: u64, sizes: &[u32]) -> (r: Vec<u64>)
    ensures
        r@ == sample_offsets(mdat_base_offset, sizes@),
{
    let mut offs: Vec<u64> = Vec::new();
    let mut cur: u64 = mdat_base_offset;
    let mut i: usize = 0;
    while i < sizes.len()
        invariant
            i <= sizes@.len(),
            cur == timing::wrap64(mdat_base_offset + timing::size_sum(sizes@, 0, i as int)),
            offs@ == sample_offsets(mdat_base_offset, sizes@).take(i as int),
        decreases sizes@.len() - i,
    {
        offs.push(cur);
        cur = cur.wrapping_add(sizes[i] as u64);
        i = i + 1;
        assert(offs@ =~= sample_offsets(mdat_base_offset, sizes@).take(i as int));
    }
    assert(offs@ =~= sample_offsets(mdat_base_offset, sizes@));
    offs
}

/// The duration of a track in its own ticks, kept to 64 bits.
pub open spec fn track_duration(stts: Seq<(u32, u32)>) -> u64 {
    timing::wrap64(timing::run_ticks(stts) as int)
}

fn total_duration(pairs: &[(u32, u32)]) -> (r: u64)
    ensures
        r == track_duration(pairs@),
{
    let mut sum: u64 = 0;
    let mut i: usize = 0;
    while i < pairs.len()
        invariant
            i <= pairs@.len(),
            sum == timing::wrap64(timing::run_ticks(pairs@.take(i as int)) as int),
        decreases pairs@.len() - i,
    {
        let (count, delta): (u32, u32) = pairs[i];
        proof {
            assert(pairs@.take(i + 1).drop_last() =~= pairs@.take(i as int));
            assert(count as int * delta as int <= 0xffff_ffff * 0xffff_ffff) by (nonlinear_arith)
                requires
                    0 <= count <= 0xffff_ffff,
                    0 <= delta <= 0xffff_ffff,
            ;
        }
        let span: u64 = (count as u64) * (delta as u64);
        sum = sum.wrapping_add(span);
        i = i + 1;
    }
    assert(pairs@.take(i as int) =~= pairs@);
    sum
}

/// A duration in ticks of the movie, rounded down and kept to 64 bits.
pub open spec fn scaled_duration(duration: u64, track_timescale: u32, movie_timescale: u32) -> u64 {
    if movie_timescale == track_timescale {
        duration
    } else {
        timing::wrap64(duration * movie_timescale / (track_timescale as int))
    }
}

fn scale_duration(track_duration: u64, track_timescale: u32, movie_timescale: u32) -> (r: u64)
    requires
        track_timescale != 0 || movie_timescale == track_timescale,
    ensures
        r == scaled_duration(track_duration, track_timescale, movie_timescale),
{
    if movie_timescale == track_timescale {
        track_duration
    } else {
        proof {
            assert(track_duration as int * movie_timescale as int <= 0xffff_ffff_ffff_ffff
                * 0xffff_ffff) by (nonlinear_arith)
                requires
                    0 <= track_duration <= 0xffff_ffff_ffff_ffff,
                    0 <= movie_timescale <= 0xffff_ffff,
            ;
            assert(0 <= track_duration as int * movie_timescale as int) by (nonlinear_arith)
                requires
                    0 <= track_duration,
                    0 <= movie_timescale,
            ;
        }
        let product: u128 = (track_duration as u128) * (movie_timescale as u128);
        let scaled: u128 = product / (track_timescale as u128);
        (scaled % 0x1_0000_0000_0000_0000) as u64
    }
}

/// The larger of two durations.
pub open spec fn longer(a: u64, b: u64) -> u64 {
    if a > b {
        a
    } else {
        b
    }
}

/// The ID behind a track ID, held at the largest one.
pub open spec fn next_id(id: u32) -> u32 {
    if id == u32::MAX {
        id
    } else {
        (id + 1) as u32
    }
}

/// The contents of a video `trak`.
pub open spec fn video_trak(
    v: VideoView,
    duration: u64,
    sync: Option<Seq<u32>>,
    offsets: Seq<u64>,
) -> Seq<u8> {
    mp4_writer::trak_payload(
        mp4_writer::tkhd_words(v.track_id, duration, 0, v.width, v.height),
        v.edits,
        mp4_writer::mdia_payload(
            mp4_writer::mdhd_payload(v.track_timescale, track_duration(v.stts), v.language),
            mp4_writer::hdlr_payload(Tag::Vide, mp4_writer::video_handler_name()),
            mp4_writer::vmhd_box(),
            boxes::box_bytes(
                Mp4Box::Stbl.fourcc(),
                mp4_writer::stbl_payload(
                    mp4_writer::stsd_box(mp4_writer::avc1_entry(v.width, v.height, v.avcc)),
                    v.sizes,
                    v.stts,
                    v.ctts,
                    sync,
                    offsets,
                ),
            ),
        ),
    )
}

/// The contents of an audio `trak`.
pub open spec fn audio_trak(a: AudioView, duration: u64, offsets: Seq<u64>) -> Seq<u8> {
    mp4_writer::trak_payload(
        mp4_writer::tkhd_words(a.track_id, duration, 0x100, 0, 0),
        a.edits,
        mp4_writer::mdia_payload(
            mp4_writer::mdhd_payload(a.track_timescale, track_duration(a.stts), a.language),
            mp4_writer::hdlr_payload(Tag::Soun, mp4_writer::sound_handler_name()),
            mp4_writer::smhd_box(),
            boxes::box_bytes(
                Mp4Box::Stbl.fourcc(),
                mp4_writer::stbl_payload(
                    mp4_writer::stsd_box(
                        mp4_writer::mp4a_entry(a.channels, a.sample_rate, a.esds),
                    ),
                    a.sizes,
                    a.stts,
                    a.ctts,
                    None,
                    offsets,
                ),
            ),
        ),
    )
}

/// The duration of a video track in ticks of the movie.
pub open spec fn video_duration(v: VideoView) -> u64 {
    scaled_duration(track_duration(v.stts), v.track_timescale, v.movie_timescale)
}

/// The duration of the longer of a video and an audio track in ticks of the movie.
pub open spec fn av_duration(v: VideoView, a: AudioView) -> u64 {
    longer(
        video_duration(v),
        scaled_duration(track_duration(a.stts), a.track_timescale, v.movie_timescale),
    )
}

/// The header of a movie.
pub open spec fn mvhd_box(timescale: u32, duration: u64, last_track_id: u32) -> Seq<u8> {
    boxes::box_bytes(
        Mp4Box::Mvhd.fourcc(),
        mp4_writer::words(mp4_writer::mvhd_words(timescale, duration, next_id(last_track_id))),
    )
}

/// The `moov` of one video track whose samples follow one another from `base` on.
pub open spec fn moov_video(v: VideoView, base: u64) -> Seq<u8> {
    boxes::box_bytes(
        Mp4Box::Moov.fourcc(),
        mvhd_box(v.movie_timescale, video_duration(v), v.track_id) + boxes::box_bytes(
            Mp4Box::Trak.fourcc(),
            video_trak(v, video_duration(v), v.sync, sample_offsets(base, v.sizes)),
        ),
    )
}

/// The `moov` of a video and an audio track with the given offsets of single samples.
pub open spec fn moov_av(
    v: VideoView,
    a: AudioView,
    duration: u64,
    sync: Option<Seq<u32>>,
    v_offsets: Seq<u64>,
    a_offsets: Seq<u64>,
) -> Seq<u8> {
    boxes::box_bytes(
        Mp4Box::Moov.fourcc(),
        mvhd_box(
            v.movie_timescale,
            duration,
            if v.track_id > a.track_id {
                v.track_id
            } else {
                a.track_id
            },
        ) + boxes::box_bytes(
            Mp4Box::Trak.fourcc(),
            video_trak(v, duration, sync, v_offsets),
        ) + boxes::box_bytes(Mp4Box::Trak.fourcc(), audio_trak(a, duration, a_offsets)),
    )
}

fn video_language<'a>(video: &VideoMoovParams<'a>) -> (r: &'a str)
    ensures
        r@ == video@.language,
{
    match video.language {
        Some(l) => l,
        None => "und",
    }
}

fn audio_language<'a>(audio: &AudioMoovParams<'a>) -> (r: &'a str)
    ensures
        r@ == audio@.language,
{
    match audio.language {
        Some(l) => l,
        None => "und",
    }
}

fn movie_timescale_of(video: &VideoMoovParams) -> (r: u32)
    ensures
        r == video@.movie_timescale,
{
    match video.movie_timescale {
        Some(t) => t,
        None => video.track_timescale,
    }
}

/// The sample table of the video track of a movie.
fn video_stbl(video: &VideoMoovParams, sync: Option<&[u32]>, offsets: &[u64]) -> (r: Vec<u8>)
    ensures
        r@ == boxes::box_bytes(
            Mp4Box::Stbl.fourcc(),
            mp4_writer::stbl_payload(
                mp4_writer::stsd_box(
                    mp4_writer::avc1_entry(video.width, video.height, video.avcc_payload@),
                ),
                video.sample_sizes@,
                video.stts_pairs@,
                mp4_writer::opt_slice(video.ctts_pairs),
                mp4_writer::opt_slice(sync),
                offsets@,
            ),
        ),
{
    build_stbl(
        video.sample_sizes,
        video.stts_pairs,
        video.ctts_pairs,
        sync,
        offsets,
        video.width,
        video.height,
        video.avcc_payload,
    )
}

/// The sample table of the audio track of a movie.
fn audio_stbl(audio: &AudioMoovParams, offsets: &[u64]) -> (r: Vec<u8>)
    ensures
        r@ == boxes::box_bytes(
            Mp4Box::Stbl.fourcc(),
            mp4_writer::stbl_payload(
                mp4_writer::stsd_box(
                    mp4_writer::mp4a_entry(
                        audio.channels,
                        audio.sample_rate,
                        audio.esds_payload@,
                    ),
                ),
                audio.sample_sizes@,
                audio.stts_pairs@,
                mp4_writer::opt_slice(audio.ctts_pairs),
                None,
                offsets@,
            ),
        ),
{
    let stsd: Vec<u8> = build_stsd_mp4a(audio.channels, audio.sample_rate, audio.esds_payload);
    build_stbl_custom(
        stsd.as_slice(),
        audio.sample_sizes,
        audio.stts_pairs,
        audio.ctts_pairs,
        None,
        offsets,
    )
}

/// The video track of a movie around its sample table.
fn video_track(video: &VideoMoovParams, duration: u64, stbl: &[u8]) -> (r: Vec<u8>)
    ensures
        r@ == boxes::box_bytes(
            Mp4Box::Trak.fourcc(),
            mp4_writer::trak_payload(
                mp4_writer::tkhd_words(video.track_id, duration, 0, video.width, video.height),
                video@.edits,
                mp4_writer::mdia_payload(
                    mp4_writer::mdhd_payload(
                        video.track_timescale,
                        track_duration(video.stts_pairs@),
                        video@.language,
                    ),
                    mp4_writer::hdlr_payload(Tag::Vide, mp4_writer::video_handler_name()),
                    mp4_writer::vmhd_box(),
                    stbl@,
                ),
            ),
        ),
{
    let mdia: Vec<u8> = build_mdia(
        video.track_timescale,
        total_duration(video.stts_pairs),
        video_language(video),
        stbl,
    );
    build_trak(
        video.track_id,
        duration,
        mdia.as_slice(),
        video.width,
        video.height,
        video.edit_list,
    )
}

/// The audio track of a movie around its sample table.
fn audio_track(audio: &AudioMoovParams, duration: u64, stbl: &[u8]) -> (r: Vec<u8>)
    ensures
        r@ == boxes::box_bytes(
            Mp4Box::Trak.fourcc(),
            mp4_writer::trak_payload(
                mp4_writer::tkhd_words(audio.track_id, duration, 0x100, 0, 0),
                audio@.edits,
                mp4_writer::mdia_payload(
                    mp4_writer::mdhd_payload(
                        audio.track_timescale,
                        track_duration(audio.stts_pairs@),
                        audio@.language,
                    ),
                    mp4_writer::hdlr_payload(Tag::Soun, mp4_writer::sound_handler_name()),
                    mp4_writer::smhd_box(),
                    stbl@,
                ),
            ),
        ),
{
    let mdia: Vec<u8> = build_mdia_soun(
        audio.track_timescale,
        total_duration(audio.stts_pairs),
        audio_language(audio),
        stbl,
    );
    build_trak_audio(audio.track_id, duration, mdia.as_slice(), audio.edit_list)
}

fn following_id(id: u32) -> (r: u32)
    ensures
        r == next_id(id),
{
    id.saturating_add(1)
}

/// A `moov` around its header and its tracks.
fn build_moov(mvhd: &[u8], first: &[u8], second: &[u8]) -> (r: Vec<u8>)
    ensures
        r@ == boxes::box_bytes(Mp4Box::Moov.fourcc(), mvhd@ + first@ + second@),
{
    let mut content: Vec<u8> = Vec::new();
    push_bytes(&mut content, mvhd);
    push_bytes(&mut content, first);
    push_bytes(&mut content, second);
    assert(content@ =~= mvhd@ + first@ + second@);
    make_box(&Mp4Box::Moov.bytes(), content.as_slice())
}

/// Build a minimal `moov` box for a single H.264 video track.
pub fn build_moov_video(params: &VideoMoovParams) -> (r: Vec<u8>)
    requires
        params.track_timescale != 0 || params@.movie_timescale == 0,
    ensures
        r@ == moov_video(params@, params.mdat_base_offset),
{
    let movie_ts: u32 = movie_timescale_of(params);
    let duration: u64 = scale_duration(
        total_duration(params.stts_pairs),
        params.track_timescale,
        movie_ts,
    );
    let offsets: Vec<u64> = compute_offsets(params.mdat_base_offset, params.sample_sizes);
    let stbl: Vec<u8> = video_stbl(params, params.sync_samples_1based, offsets.as_slice());
    let trak: Vec<u8> = video_track(params, duration, stbl.as_slice());
    let mvhd: Vec<u8> = build_mvhd(movie_ts, duration, following_id(params.track_id));
    let nothing: Vec<u8> = Vec::new();
    let moov: Vec<u8> = build_moov(mvhd.as_slice(), trak.as_slice(), nothing.as_slice());
    assert(mvhd@ + trak@ + nothing@ =~= mvhd@ + trak@);
    moov
}

/// The duration of the longer of a video and an audio track in ticks of the movie.
fn movie_duration_of(video: &VideoMoovParams, audio: &AudioMoovParams) -> (r: u64)
    requires
        video.track_timescale != 0 || video@.movie_timescale == 0,
        audio.track_timescale != 0 || video@.movie_timescale == 0,
    ensures
        r == av_duration(video@, audio@),
{
    let movie_ts: u32 = movie_timescale_of(video);
    let v: u64 = scale_duration(total_duration(video.stts_pairs), video.track_timescale, movie_ts);
    let a: u64 = scale_duration(total_duration(audio.stts_pairs), audio.track_timescale, movie_ts);
    if v > a {
        v
    } else {
        a
    }
}

/// The movie around both tracks.
fn movie_of(
    video: &VideoMoovParams,
    audio: &AudioMoovParams,
    duration: u64,
    v_trak: &[u8],
    a_trak: &[u8],
) -> (r: Vec<u8>)
    ensures
        r@ == boxes::box_bytes(
            Mp4Box::Moov.fourcc(),
            mvhd_box(
                video@.movie_timescale,
                duration,
                if video.track_id > audio.track_id {
                    video.track_id
                } else {
                    audio.track_id
                },
            ) + v_trak@ + a_trak@,
        ),
{
    let last: u32 = if video.track_id > audio.track_id {
        video.track_id
    } else {
        audio.track_id
    };
    let mvhd: Vec<u8> = build_mvhd(movie_timescale_of(video), duration, following_id(last));
    build_moov(mvhd.as_slice(), v_trak, a_trak)
}

/// Build a minimal `moov` for a video + audio segment. Offsets for each track
/// are derived from the `mdat_base_offset` of each.
pub fn build_moov_av(video: &VideoMoovParams, audio: &AudioMoovParams) -> (r: Vec<u8>)
    requires
        video.track_timescale != 0 || video@.movie_timescale == 0,
        audio.track_timescale != 0 || video@.movie_timescale == 0,
    ensures
        r@ == moov_av(
            video@,
            audio@,
            av_duration(video@, audio@),
            video@.sync,
            sample_offsets(video.mdat_base_offset, video@.sizes),
            sample_offsets(audio.mdat_base_offset, audio@.sizes),
        ),
{
    let duration: u64 = movie_duration_of(video, audio);
    let v_offsets: Vec<u64> = compute_offsets(video.mdat_base_offset, video.sample_sizes);
    let a_offsets: Vec<u64> = compute_offsets(audio.mdat_base_offset, audio.sample_sizes);
    let v_stbl: Vec<u8> = video_stbl(video, video.sync_samples_1based, v_offsets.as_slice());
    let v_trak: Vec<u8> = video_track(video, duration, v_stbl.as_slice());
    let a_stbl: Vec<u8> = audio_stbl(audio, a_offsets.as_slice());
    let a_trak: Vec<u8> = audio_track(audio, duration, a_stbl.as_slice());
    movie_of(video, audio, duration, v_trak.as_slice(), a_trak.as_slice())
}

/// `rayon::join` calls both closures, possibly in parallel, and hands back
/// what each of them returned.
pub assume_specification<A, B, RA, RB>[ rayon::join::<A, B, RA, RB> ](oper_a: A, oper_b: B) -> (r: (
    RA,
    RB,
)) where A: FnOnce() -> RA + Send, B: FnOnce() -> RB + Send, RA: Send, RB: Send
    requires
        oper_a.requires(()),
        oper_b.requires(()),
    ensures
        oper_a.ensures((), r.0),
        oper_b.ensures((), r.1),
;

/// Build a `moov` for a video + audio segment using explicit per-sample
/// absolute chunk offsets for each track. This is useful when the `mdat`
/// payload is interleaved and offsets cannot be derived from a simple
/// contiguous layout. One sample per chunk is assumed.
pub fn build_moov_av_with_offsets(
    video: &VideoMoovParams,
    audio: &AudioMoovParams,
    video_offsets: &[u64],
    audio_offsets: &[u64],
    video_sync_samples_1based: Option<&[u32]>,
    movie_duration_override: Option<u64>,
) -> (r: Vec<u8>)
    requires
        video.track_timescale != 0 || video@.movie_timescale == 0,
        audio.track_timescale != 0 || video@.movie_timescale == 0,
    ensures
        r@ == moov_av(
            video@,
            audio@,
            match movie_duration_override {
                Some(d) => d,
                None => av_duration(video@, audio@),
            },
            mp4_writer::opt_slice(video_sync_samples_1based),
            video_offsets@,
            audio_offsets@,
        ),
{
    let measured: u64 = movie_duration_of(video, audio);
    let duration: u64 = match movie_duration_override {
        Some(d) => d,
        None => measured,
    };
    let make_video = || -> (t: Vec<u8>)
        ensures
            t@ == boxes::box_bytes(
                Mp4Box::Stbl.fourcc(),
                mp4_writer::stbl_payload(
                    mp4_writer::stsd_box(
                        mp4_writer::avc1_entry(video.width, video.height, video.avcc_payload@),
                    ),
                    video.sample_sizes@,
                    video.stts_pairs@,
                    mp4_writer::opt_slice(video.ctts_pairs),
                    mp4_writer::opt_slice(video_sync_samples_1based),
                    video_offsets@,
                ),
            ),
        { video_stbl(video, video_sync_samples_1based, video_offsets) };
    let make_audio = || -> (t: Vec<u8>)
        ensures
            t@ == boxes::box_bytes(
                Mp4Box::Stbl.fourcc(),
                mp4_writer::stbl_payload(
                    mp4_writer::stsd_box(
                        mp4_writer::mp4a_entry(
                            audio.channels,
                            audio.sample_rate,
                            audio.esds_payload@,
                        ),
                    ),
                    audio.sample_sizes@,
                    audio.stts_pairs@,
                    mp4_writer::opt_slice(audio.ctts_pairs),
                    None,
                    audio_offsets@,
                ),
            ),
        { audio_stbl(audio, audio_offsets) };
    let (v_stbl, a_stbl): (Vec<u8>, Vec<u8>) = rayon::join(make_video, make_audio);
    let v_trak: Vec<u8> = video_track(video, duration, v_stbl.as_slice());
    let a_trak: Vec<u8> = audio_track(audio, duration, a_stbl.as_slice());
    movie_of(video, audio, duration, v_trak.as_slice(), a_trak.as_slice())
}

} // verus!
