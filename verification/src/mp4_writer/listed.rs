//! What is listed of written movies.

use vstd::prelude::*;
use crate::boxes;
use crate::bytes;
use crate::format::mp4::atoms::media;
use crate::format::mp4::atoms::read;
use crate::format::mp4::laws as boxed;
use crate::format::mp4::thumbnails::request;
use crate::format::mp4::tracks;
use crate::helpers::tables;
use crate::helpers::timing;
use crate::helpers::Mp4Box;
use crate::metadata;
use crate::mp4_writer;
use crate::mp4_writer::laws;
use crate::mp4_writer::movie;
use crate::tags::Tag;
use crate::text;

verus! {

/// Both walks find the same box in data that is nothing but boxes.
#[verifier::spinoff_prover]
proof fn lemma_same_box(data: Seq<u8>, fourcc: Seq<u8>)
    requires
        laws::is_laid_out(data),
    ensures
        read::child(data, fourcc) == boxes::find_box(data, fourcc),
{
    let list = choose|list: Seq<(Seq<u8>, Seq<u8>)>| #[trigger]
        laws::laid_out(list) == data && laws::fits_headers(list);
    boxed::law_laid_out_boxes_are_walked(list);
    laws::law_laid_out_boxes_are_found(list, fourcc);
}

/// The header of a written track is read back.
#[verifier::spinoff_prover]
proof fn lemma_written_head(track_id: u32, duration: u64, width: u16, height: u16)
    ensures
        tracks::tkhd_info(
            mp4_writer::words(mp4_writer::tkhd_words(track_id, duration, 0, width, height)),
        ) == Ok::<tracks::TkhdInfo, crate::errors::ErrorView>(
            (tracks::TkhdInfo {
                id: track_id,
                duration: boxes::wrap32(duration as nat) as u64,
                width: width as u32,
                height: height as u32,
            }),
        ),
{
    let ws = mp4_writer::tkhd_words(track_id, duration, 0, width, height);
    let data = mp4_writer::words(ws);
    mp4_writer::lemma_words(ws);
    assert(ws.len() == 21);
    assert(bytes::be32(data, 4 * 0int) == ws[0]);
    assert(bytes::be32(data, 4 * 3int) == ws[3]);
    assert(bytes::be32(data, 4 * 5int) == ws[5]);
    assert(bytes::be32(data, 4 * 19int) == ws[19]);
    assert(bytes::be32(data, 4 * 20int) == ws[20]);
    assert(data[0] == 0);
}

/// The timescale and the duration of a written media header are read back.
#[verifier::spinoff_prover]
proof fn lemma_written_media(timescale: u32, duration: u64, language: Seq<char>)
    ensures
        tracks::mdhd_info(mp4_writer::mdhd_payload(timescale, duration, language)) matches Ok(m)
            && m.timescale == timescale && m.duration == boxes::wrap32(duration as nat),
{
    let mdhd = mp4_writer::mdhd_payload(timescale, duration, language);
    let ws = seq![0, 0, 0, timescale, boxes::wrap32(duration as nat)];
    mp4_writer::lemma_words(ws);
    let head = mp4_writer::words(ws);
    assert(bytes::be32(head, 4 * 0int) == ws[0]);
    assert(bytes::be32(head, 4 * 3int) == ws[3]);
    assert(bytes::be32(head, 4 * 4int) == ws[4]);
    assert(mdhd.subrange(0, 20) =~= head);
    assert(head[0] == 0);
    assert(mdhd[0] == head[0]);
    assert(bytes::be32(mdhd, 12) == bytes::be32(head, 12));
    assert(bytes::be32(mdhd, 16) == bytes::be32(head, 16));
}

/// The sample entry of a written video track is told.
#[verifier::spinoff_prover]
proof fn lemma_written_entry(stbl: Seq<u8>, width: u16, height: u16, avcc: Seq<u8>)
    requires
        laws::is_laid_out(stbl),
        boxes::find_box(stbl, Mp4Box::Stsd.fourcc()) == Some(
            mp4_writer::words(seq![0, 1]) + mp4_writer::avc1_entry(width, height, avcc),
        ),
        (mp4_writer::words(seq![0, 1]) + mp4_writer::avc1_entry(width, height, avcc)).len()
            <= u32::MAX,
    ensures
        tracks::stsd_of(Some(stbl)) matches Some(s) && s.codec == text::lossy_utf8(
            Tag::Avc1.code(),
        ) && s.width == Some(width as u32) && s.height == Some(height as u32),
{
    let entry = mp4_writer::visual_entry_base(width, height) + boxes::box_bytes(
        Tag::AvcC.code(),
        avcc,
    );
    let head = mp4_writer::words(seq![0, 1]);
    let stsd = head + mp4_writer::avc1_entry(width, height, avcc);
    let none = Seq::<u8>::empty();
    mp4_writer::lemma_words(seq![0, 1]);
    lemma_same_box(stbl, Mp4Box::Stsd.fourcc());
    assert(stsd.skip(8) =~= boxes::box_bytes(Tag::Avc1.code(), entry) + none);
    assert(Tag::Avc1.code().len() == 4);
    read::law_written_box_is_read(Tag::Avc1.code(), entry, none);
    lemma_entry_size(width, height, boxes::box_bytes(Tag::AvcC.code(), avcc));
}

#[verifier::spinoff_prover]
proof fn lemma_entry_size(width: u16, height: u16, rest: Seq<u8>)
    ensures
        ({
            let entry = mp4_writer::visual_entry_base(width, height) + rest;
            &&& entry.len() >= 28
            &&& bytes::be16(entry, 24) == width
            &&& bytes::be16(entry, 26) == height
        }),
{
    let entry = mp4_writer::visual_entry_base(width, height) + rest;
    mp4_writer::lemma_words(seq![0x48_0000, 0x48_0000, 0]);
    assert(entry.subrange(24, 26) =~= bytes::be16_bytes(width));
    bytes::lemma_be16_roundtrip(entry, 24, width);
    assert(entry.subrange(26, 28) =~= bytes::be16_bytes(height));
    bytes::lemma_be16_roundtrip(entry, 26, height);
}

#[verifier::spinoff_prover]
proof fn lemma_written_handler(name: Seq<u8>)
    ensures
        media::handler_type(mp4_writer::hdlr_payload(Tag::Vide, name)) == Some(
            boxed::four('v', 'i', 'd', 'e'),
        ),
{
    let hdlr = mp4_writer::hdlr_payload(Tag::Vide, name);
    mp4_writer::lemma_words(seq![0, 0]);
    assert(hdlr.subrange(8, 12) =~= boxed::four('v', 'i', 'd', 'e'));
}

/// What is read of a track, from the boxes that are found in it.
#[verifier::spinoff_prover]
proof fn lemma_read_track(
    trak: Seq<u8>,
    mdia: Seq<u8>,
    minf: Seq<u8>,
    stbl: Seq<u8>,
    tkhd: Seq<u8>,
    mdhd: Seq<u8>,
    hdlr: Seq<u8>,
    header: tracks::TkhdInfo,
    m: media::MediaHeaderView,
)
    requires
        laws::is_laid_out(trak),
        laws::is_laid_out(mdia),
        laws::is_laid_out(minf),
        boxes::find_box(trak, Mp4Box::Tkhd.fourcc()) == Some(tkhd),
        boxes::find_box(trak, Mp4Box::Mdia.fourcc()) == Some(mdia),
        boxes::find_box(mdia, Mp4Box::Mdhd.fourcc()) == Some(mdhd),
        boxes::find_box(mdia, Mp4Box::Hdlr.fourcc()) == Some(hdlr),
        boxes::find_box(mdia, Mp4Box::Minf.fourcc()) == Some(minf),
        boxes::find_box(minf, Mp4Box::Stbl.fourcc()) == Some(stbl),
        tracks::tkhd_info(tkhd) == Ok::<tracks::TkhdInfo, crate::errors::ErrorView>(header),
        tracks::mdhd_info(mdhd) == Ok::<media::MediaHeaderView, crate::errors::ErrorView>(m),
        media::handler_type(hdlr) == Some(boxed::four('v', 'i', 'd', 'e')),
    ensures
        tracks::track_of(trak) == Ok::<tracks::TrackView, crate::errors::ErrorView>(
            tracks::track_from(header, m, mdia),
        ),
        tracks::handler_or_blank(mdia) == boxed::four('v', 'i', 'd', 'e'),
        read::child_in(read::child(mdia, Mp4Box::Minf.fourcc()), Mp4Box::Stbl.fourcc()) == Some(
            stbl,
        ),
{
    lemma_same_box(trak, Mp4Box::Tkhd.fourcc());
    lemma_same_box(trak, Mp4Box::Mdia.fourcc());
    lemma_same_box(mdia, Mp4Box::Mdhd.fourcc());
    lemma_same_box(mdia, Mp4Box::Hdlr.fourcc());
    lemma_same_box(mdia, Mp4Box::Minf.fourcc());
    lemma_same_box(minf, Mp4Box::Stbl.fourcc());
}

/// What a video track tells of its sample entry.
#[verifier::spinoff_prover]
proof fn lemma_entry_told(
    header: tracks::TkhdInfo,
    m: media::MediaHeaderView,
    mdia: Seq<u8>,
    stbl: Seq<u8>,
    width: u16,
    height: u16,
    codec: Seq<char>,
)
    requires
        tracks::handler_or_blank(mdia) == boxed::four('v', 'i', 'd', 'e'),
        read::child_in(read::child(mdia, Mp4Box::Minf.fourcc()), Mp4Box::Stbl.fourcc()) == Some(
            stbl,
        ),
        tracks::stsd_of(Some(stbl)) matches Some(s) && s.codec == codec && s.width == Some(
            width as u32,
        ) && s.height == Some(height as u32),
    ensures
        tracks::track_from(header, m, mdia) matches tracks::TrackView::Video {
            base,
            width: w,
            height: h,
            ..
        } && base.codec == codec && w == width && h == height && base.id == header.id
            && base.timescale == m.timescale && base.duration == m.duration,
{
    assert(Tag::Vide.code() =~= boxed::four('v', 'i', 'd', 'e'));
    boxed::lemma_track_from(header, m, mdia);
}

/// What is listed of a track that holds the parts of a video track.
#[verifier::opaque]
pub open spec fn lists_video(
    t: Result<tracks::TrackView, crate::errors::ErrorView>,
    v: movie::VideoView,
) -> bool {
    t matches Ok(tracks::TrackView::Video { base, width, height, .. }) && base.id == v.track_id
        && base.timescale == v.track_timescale && base.duration == timing::run_ticks(v.stts)
        && base.codec == text::lossy_utf8(boxed::four('a', 'v', 'c', '1')) && width == v.width
        && height == v.height
}

/// Whether the header of a track says which track it is.
#[verifier::opaque]
spec fn says_number(tkhd: Seq<u8>, v: movie::VideoView) -> bool {
    tracks::tkhd_info(tkhd) matches Ok(header) && header.id == v.track_id
}

/// Whether the header of a medium says how long it lasts.
#[verifier::opaque]
spec fn says_length(mdhd: Seq<u8>, v: movie::VideoView) -> bool {
    tracks::mdhd_info(mdhd) matches Ok(m) && m.timescale == v.track_timescale && m.duration
        == timing::run_ticks(v.stts)
}

/// Whether the handler of a medium is that of a video.
#[verifier::opaque]
spec fn says_kind(hdlr: Seq<u8>) -> bool {
    media::handler_type(hdlr) == Some(boxed::four('v', 'i', 'd', 'e'))
}

/// Whether a sample table describes the samples of a video.
#[verifier::opaque]
spec fn says_entry(stbl: Seq<u8>, v: movie::VideoView) -> bool {
    tracks::stsd_of(Some(stbl)) matches Some(s) && s.codec == text::lossy_utf8(
        boxed::four('a', 'v', 'c', '1'),
    ) && s.width == Some(v.width as u32) && s.height == Some(v.height as u32)
}

/// What is listed follows from what the boxes of a track are read as.
#[verifier::spinoff_prover]
proof fn lemma_listed_from(
    trak: Seq<u8>,
    stbl: Seq<u8>,
    tkhd: Seq<u8>,
    mdhd: Seq<u8>,
    hdlr: Seq<u8>,
    v: movie::VideoView,
)
    requires
        laws::is_nested(trak, stbl),
        boxes::find_box(trak, Mp4Box::Tkhd.fourcc()) == Some(tkhd),
        tables::mdia_box(trak, Mp4Box::Mdhd) == Some(mdhd),
        tables::mdia_box(trak, Mp4Box::Hdlr) == Some(hdlr),
        says_number(tkhd, v),
        says_length(mdhd, v),
        says_kind(hdlr),
        says_entry(stbl, v),
    ensures
        lists_video(tracks::track_of(trak), v),
{
    reveal(says_number);
    reveal(says_length);
    reveal(says_kind);
    reveal(says_entry);
    reveal(lists_video);
    let mdia = boxes::find_box(trak, Mp4Box::Mdia.fourcc())->0;
    let minf = boxes::find_box(mdia, Mp4Box::Minf.fourcc())->0;
    let header = tracks::tkhd_info(tkhd)->Ok_0;
    let m = tracks::mdhd_info(mdhd)->Ok_0;
    lemma_read_track(trak, mdia, minf, stbl, tkhd, mdhd, hdlr, header, m);
    lemma_entry_told(
        header,
        m,
        mdia,
        stbl,
        v.width,
        v.height,
        text::lossy_utf8(boxed::four('a', 'v', 'c', '1')),
    );
}

#[verifier::spinoff_prover]
proof fn lemma_said_number(tkhd: Seq<u8>, duration: u64, v: movie::VideoView)
    requires
        tkhd == mp4_writer::words(
            mp4_writer::tkhd_words(v.track_id, duration, 0, v.width, v.height),
        ),
    ensures
        says_number(tkhd, v),
{
    reveal(says_number);
    lemma_written_head(v.track_id, duration, v.width, v.height);
}

/// A number of 32 bits is kept by both wraps.
#[verifier::spinoff_prover]
proof fn lemma_kept(n: nat)
    requires
        n <= u32::MAX,
    ensures
        timing::wrap64(n as int) == n,
        boxes::wrap32(n) == n,
{
}

#[verifier::spinoff_prover]
proof fn lemma_said_length(mdhd: Seq<u8>, ticks: u64, v: movie::VideoView)
    requires
        mdhd == mp4_writer::mdhd_payload(v.track_timescale, ticks, v.language),
        ticks == timing::run_ticks(v.stts),
        ticks <= u32::MAX,
    ensures
        says_length(mdhd, v),
{
    reveal(says_length);
    lemma_kept(ticks as nat);
    lemma_written_media(v.track_timescale, ticks, v.language);
}

#[verifier::spinoff_prover]
proof fn lemma_said_kind(hdlr: Seq<u8>)
    requires
        hdlr == mp4_writer::hdlr_payload(Tag::Vide, mp4_writer::video_handler_name()),
    ensures
        says_kind(hdlr),
{
    reveal(says_kind);
    lemma_written_handler(mp4_writer::video_handler_name());
}

#[verifier::spinoff_prover]
proof fn lemma_said_entry(stbl: Seq<u8>, v: movie::VideoView)
    requires
        laws::holds_entry(
            stbl,
            mp4_writer::words(seq![0, 1]) + mp4_writer::avc1_entry(v.width, v.height, v.avcc),
        ),
    ensures
        says_entry(stbl, v),
{
    reveal(says_entry);
    lemma_written_entry(stbl, v.width, v.height, v.avcc);
    assert(Tag::Avc1.code() =~= boxed::four('a', 'v', 'c', '1'));
}

#[verifier::spinoff_prover]
proof fn lemma_listed(trak: Seq<u8>, v: movie::VideoView, duration: u64)
    requires
        laws::holds_video(trak, v, duration),
        timing::run_ticks(v.stts) <= u32::MAX,
    ensures
        lists_video(tracks::track_of(trak), v),
{
    let stsd = mp4_writer::words(seq![0, 1]) + mp4_writer::avc1_entry(v.width, v.height, v.avcc);
    let stbl = choose|stbl: Seq<u8>| #[trigger]
        laws::is_nested(trak, stbl) && laws::holds_entry(stbl, stsd);
    let tkhd = boxes::find_box(trak, Mp4Box::Tkhd.fourcc())->0;
    let mdhd = tables::mdia_box(trak, Mp4Box::Mdhd)->0;
    let hdlr = tables::mdia_box(trak, Mp4Box::Hdlr)->0;
    lemma_said_number(tkhd, duration, v);
    lemma_kept(timing::run_ticks(v.stts));
    lemma_said_length(mdhd, movie::track_duration(v.stts), v);
    lemma_said_kind(hdlr);
    lemma_said_entry(stbl, v);
    lemma_listed_from(trak, stbl, tkhd, mdhd, hdlr, v);
}

/// The track of a written movie is listed as a video track with its number, its
/// timescale, its codec and its size. It lasts as long as its samples do. (A
/// duration is written with 32 bits: one that does not fit them is left out.)
#[verifier::spinoff_prover]
pub proof fn law_written_video_is_listed(
    v: movie::VideoView,
    duration: u64,
    sync: Option<Seq<u32>>,
    offsets: Seq<u64>,
)
    requires
        movie::video_trak(v, duration, sync, offsets).len() <= u32::MAX,
        timing::run_ticks(v.stts) <= u32::MAX,
    ensures
        lists_video(tracks::track_of(movie::video_trak(v, duration, sync, offsets)), v),
{
    laws::lemma_video_parts(v, duration, sync, offsets);
    lemma_listed(movie::video_trak(v, duration, sync, offsets), v, duration);
}

#[verifier::spinoff_prover]
proof fn lemma_movie_walked(head: Seq<u8>, trak: Seq<u8>, moov: Seq<u8>)
    requires
        moov == boxes::box_bytes(
            Mp4Box::Moov.fourcc(),
            boxes::box_bytes(Mp4Box::Mvhd.fourcc(), head) + boxes::box_bytes(
                Mp4Box::Trak.fourcc(),
                trak,
            ),
        ),
        moov.len() <= u32::MAX,
    ensures
        read::boxes_in(request::moov_body(moov)) == seq![
            (Mp4Box::Mvhd.fourcc(), head),
            (Mp4Box::Trak.fourcc(), trak),
        ],
        trak.len() <= u32::MAX,
        boxes::find_in(
            boxes::find_box(moov, Mp4Box::Moov.fourcc()),
            Mp4Box::Mvhd.fourcc(),
        ) == Some(head),
{
    let none = Seq::<u8>::empty();
    let last = boxes::box_bytes(Mp4Box::Trak.fourcc(), trak);
    let content = boxes::box_bytes(Mp4Box::Mvhd.fourcc(), head) + last;
    assert(moov.subrange(4, 8) =~= Mp4Box::Moov.fourcc());
    assert(moov.skip(8) =~= content);
    assert(last + none =~= last);
    read::law_written_box_is_read(Mp4Box::Mvhd.fourcc(), head, last);
    read::law_written_box_is_read(Mp4Box::Trak.fourcc(), trak, none);
    assert(read::boxes_in(none) =~= Seq::empty());
    assert(read::boxes_in(content) =~= seq![
        (Mp4Box::Mvhd.fourcc(), head),
        (Mp4Box::Trak.fourcc(), trak),
    ]);
    assert(moov + none =~= moov);
    boxes::lemma_find_box_hit(Mp4Box::Moov.fourcc(), content, none);
    boxes::lemma_find_box_hit(Mp4Box::Mvhd.fourcc(), head, last);
}

/// Whether a movie lists one track, which is the given one.
#[verifier::opaque]
pub open spec fn lists_one(moov: Seq<u8>, v: movie::VideoView) -> bool {
    let list = read::boxes_in(request::moov_body(moov));
    tracks::tracks_of(list, list.len() as int) matches Ok(found) && found.len() == 1
        && lists_video(Ok(found[0]), v)
}

/// Whether a movie lasts so many ticks. (32 bits of them are written.)
#[verifier::opaque]
pub open spec fn lasts(moov: Seq<u8>, duration: u64, timescale: u32) -> bool {
    metadata::movie_duration(moov) == Some(
        metadata::TickDuration { ticks: boxes::wrap32(duration as nat) as u64, timescale },
    )
}

#[verifier::spinoff_prover]
proof fn lemma_lists_one(moov: Seq<u8>, head: Seq<u8>, trak: Seq<u8>, v: movie::VideoView)
    requires
        moov == boxes::box_bytes(
            Mp4Box::Moov.fourcc(),
            boxes::box_bytes(Mp4Box::Mvhd.fourcc(), head) + boxes::box_bytes(
                Mp4Box::Trak.fourcc(),
                trak,
            ),
        ),
        moov.len() <= u32::MAX,
        lists_video(tracks::track_of(trak), v),
    ensures
        lists_one(moov, v),
{
    reveal(lists_one);
    assert(tracks::track_of(trak) is Ok) by {
        reveal(lists_video);
    }
    lemma_movie_walked(head, trak, moov);
    lemma_one_track(head, trak);
}

#[verifier::spinoff_prover]
proof fn lemma_lasts(moov: Seq<u8>, head: Seq<u8>, trak: Seq<u8>, duration: u64, timescale: u32)
    requires
        moov == boxes::box_bytes(
            Mp4Box::Moov.fourcc(),
            boxes::box_bytes(Mp4Box::Mvhd.fourcc(), head) + boxes::box_bytes(
                Mp4Box::Trak.fourcc(),
                trak,
            ),
        ),
        moov.len() <= u32::MAX,
        metadata::mvhd_duration(head) == Some(
            metadata::TickDuration { ticks: boxes::wrap32(duration as nat) as u64, timescale },
        ),
    ensures
        lasts(moov, duration, timescale),
{
    reveal(lasts);
    lemma_movie_walked(head, trak, moov);
}

#[verifier::spinoff_prover]
proof fn lemma_track_fits(moov: Seq<u8>, head: Seq<u8>, trak: Seq<u8>)
    requires
        moov == boxes::box_bytes(
            Mp4Box::Moov.fourcc(),
            head + boxes::box_bytes(Mp4Box::Trak.fourcc(), trak),
        ),
        moov.len() <= u32::MAX,
    ensures
        trak.len() <= u32::MAX,
{
}

/// A written movie lists its one track.
#[verifier::spinoff_prover]
pub proof fn law_written_movie_is_listed(v: movie::VideoView, base: u64)
    requires
        movie::moov_video(v, base).len() <= u32::MAX,
        timing::run_ticks(v.stts) <= u32::MAX,
    ensures
        lists_one(movie::moov_video(v, base), v),
        lasts(movie::moov_video(v, base), movie::video_duration(v), v.movie_timescale),
{
    let duration = movie::video_duration(v);
    let offsets = movie::sample_offsets(base, v.sizes);
    let trak = movie::video_trak(v, duration, v.sync, offsets);
    lemma_track_fits(
        movie::moov_video(v, base),
        movie::mvhd_box(v.movie_timescale, duration, v.track_id),
        trak,
    );
    law_written_video_is_listed(v, duration, v.sync, offsets);
    let next = movie::next_id(v.track_id);
    let head = mp4_writer::words(mp4_writer::mvhd_words(v.movie_timescale, duration, next));
    lemma_lists_one(movie::moov_video(v, base), head, trak, v);
    lemma_movie_head(v.movie_timescale, duration, next);
    lemma_lasts(movie::moov_video(v, base), head, trak, duration, v.movie_timescale);
}

/// A written movie lasts as long as its track does: so many ticks where both count
/// in the same timescale, and otherwise so many of its own, rounded down.
#[verifier::spinoff_prover]
pub proof fn law_movie_lasts_as_its_track(v: movie::VideoView)
    requires
        timing::run_ticks(v.stts) <= u32::MAX,
    ensures
        v.movie_timescale == v.track_timescale ==> movie::video_duration(v) == timing::run_ticks(
            v.stts,
        ),
        v.track_timescale > 0 ==> movie::video_duration(v) * v.track_timescale <= timing::run_ticks(
            v.stts,
        ) * v.movie_timescale < (movie::video_duration(v) + 1) * v.track_timescale,
{
    lemma_kept(timing::run_ticks(v.stts));
    lemma_rescaled(timing::run_ticks(v.stts), v.track_timescale, v.movie_timescale);
}

/// A duration in another timescale is rounded down.
#[verifier::spinoff_prover]
proof fn lemma_rescaled(n: nat, from: u32, to: u32)
    requires
        n <= u32::MAX,
    ensures
        from == to ==> movie::scaled_duration(n as u64, from, to) == n,
        from > 0 ==> movie::scaled_duration(n as u64, from, to) * from <= n * to < (
        movie::scaled_duration(n as u64, from, to) + 1) * from,
{
    if from > 0 {
        let a = n as int;
        let b = to as int;
        let c = from as int;
        let p = a * b;
        assert(0 <= p <= 0xffff_ffff * 0xffff_ffff) by (nonlinear_arith)
            requires
                0 <= a <= 0xffff_ffff,
                0 <= b <= 0xffff_ffff,
                p == a * b,
        ;
        vstd::arithmetic::div_mod::lemma_fundamental_div_mod(p, c);
        vstd::arithmetic::div_mod::lemma_mod_bound(p, c);
        let q = p / c;
        assert(c * q == q * c) by (nonlinear_arith);
        assert((q + 1) * c == q * c + c) by (nonlinear_arith);
        assert(0 <= q <= p) by (nonlinear_arith)
            requires
                c > 0,
                p >= 0,
                q == p / c,
        ;
        if from == to {
            assert((a + 1) * c == a * c + c) by (nonlinear_arith);
        }
    }
}

/// The one track behind the header of a movie is listed.
#[verifier::spinoff_prover]
proof fn lemma_one_track(head: Seq<u8>, trak: Seq<u8>)
    requires
        tracks::track_of(trak) is Ok,
    ensures
        tracks::tracks_of(
            seq![(Mp4Box::Mvhd.fourcc(), head), (Mp4Box::Trak.fourcc(), trak)],
            2,
        ) == Ok::<Seq<tracks::TrackView>, crate::errors::ErrorView>(
            seq![tracks::track_of(trak)->Ok_0],
        ),
{
    let list = seq![(Mp4Box::Mvhd.fourcc(), head), (Mp4Box::Trak.fourcc(), trak)];
    assert(Mp4Box::Mvhd.fourcc()[0] != Mp4Box::Trak.fourcc()[0]);
    assert(list[0].0 == Mp4Box::Mvhd.fourcc());
    assert(list[1] == (Mp4Box::Trak.fourcc(), trak));
    assert(tracks::tracks_of(list, 0) == Ok::<Seq<tracks::TrackView>, crate::errors::ErrorView>(
        Seq::empty(),
    ));
    assert(tracks::tracks_of(list, 1) == Ok::<Seq<tracks::TrackView>, crate::errors::ErrorView>(
        Seq::empty(),
    ));
    assert(Seq::<tracks::TrackView>::empty().push(tracks::track_of(trak)->Ok_0) =~= seq![
        tracks::track_of(trak)->Ok_0,
    ]);
}

/// The duration of a written movie header is read back.
#[verifier::spinoff_prover]
proof fn lemma_movie_head(timescale: u32, duration: u64, next: u32)
    ensures
        metadata::mvhd_duration(
            mp4_writer::words(mp4_writer::mvhd_words(timescale, duration, next)),
        ) == Some(
            metadata::TickDuration { ticks: boxes::wrap32(duration as nat) as u64, timescale },
        ),
{
    let ws = mp4_writer::mvhd_words(timescale, duration, next);
    let head = mp4_writer::words(ws);
    mp4_writer::lemma_words(ws);
    assert(bytes::be32(head, 4 * 0int) == ws[0]);
    assert(bytes::be32(head, 4 * 3int) == ws[3]);
    assert(bytes::be32(head, 4 * 4int) == ws[4]);
    assert(head[0] == 0);
}

/// A movie of two tracks lasts as long as the longer one, in ticks of its own,
/// rounded down.
#[verifier::spinoff_prover]
pub proof fn law_movie_lasts_as_its_longer_track(v: movie::VideoView, a: movie::AudioView)
    requires
        timing::run_ticks(v.stts) <= u32::MAX,
        timing::run_ticks(a.stts) <= u32::MAX,
        v.track_timescale > 0,
        a.track_timescale > 0,
    ensures
        timing::run_ticks(v.stts) * v.movie_timescale < (movie::av_duration(v, a) + 1)
            * v.track_timescale,
        timing::run_ticks(a.stts) * v.movie_timescale < (movie::av_duration(v, a) + 1)
            * a.track_timescale,
        movie::av_duration(v, a) * v.track_timescale <= timing::run_ticks(v.stts)
            * v.movie_timescale || movie::av_duration(v, a) * a.track_timescale
            <= timing::run_ticks(a.stts) * v.movie_timescale,
{
    let n = timing::run_ticks(v.stts);
    let m = timing::run_ticks(a.stts);
    lemma_kept(n);
    lemma_kept(m);
    lemma_longest(n, v.track_timescale, m, a.track_timescale, v.movie_timescale);
}

#[verifier::spinoff_prover]
proof fn lemma_longest(n: nat, first: u32, m: nat, second: u32, to: u32)
    requires
        n <= u32::MAX,
        m <= u32::MAX,
        first > 0,
        second > 0,
    ensures
        ({
            let d = movie::longer(
                movie::scaled_duration(n as u64, first, to),
                movie::scaled_duration(m as u64, second, to),
            );
            &&& n * to < (d + 1) * first
            &&& m * to < (d + 1) * second
            &&& d * first <= n * to || d * second <= m * to
        }),
{
    let x = movie::scaled_duration(n as u64, first, to);
    let y = movie::scaled_duration(m as u64, second, to);
    lemma_rescaled(n, first, to);
    lemma_rescaled(m, second, to);
    assert(y <= x ==> (y + 1) * second <= (x + 1) * second) by (nonlinear_arith);
    assert(x <= y ==> (x + 1) * first <= (y + 1) * first) by (nonlinear_arith);
}

} // verus!
