//! What the plain readers make of written movies.

use vstd::prelude::*;
use crate::boxes;
use crate::bytes;
use crate::decoders::h264::laws as units;
use crate::format::mp4::atoms::samples::StscEntry;
use crate::format::mp4::laws as boxed;
use crate::format::mp4::laws::WrittenTrack;
use crate::format::mp4::thumbnails::laws as indexed;
use crate::format::mp4::thumbnails::laws::WrittenTables;
use crate::format::texts;
use crate::helpers;
use crate::helpers::entries;
use crate::helpers::laws as chunks;
use crate::helpers::moov;
use crate::helpers::tables;
use crate::helpers::timing;
use crate::helpers::Mp4Box;
use crate::metadata;
use crate::mp4_writer;
use crate::mp4_writer::laws as writing;
use crate::subtitles;
use crate::subtitles::SubCodec;
use crate::tags::Tag;
use crate::text;
use crate::text::{Endian, Trim};
use crate::thumbnails;
use crate::time::Duration;
use crate::tracks;
use crate::tracks::TrackType;

verus! {

// --------------------
// Tracks
// --------------------

/// The parts of a track are found, each at its level.
proof fn lemma_plain_parts(t: WrittenTrack)
    requires
        boxed::holds_track(t),
    ensures
        ({
            let trak = writing::laid_out(t.trak);
            let hdlr = t.before_handler + t.handler + t.behind_handler;
            &&& boxes::find_box(trak, Mp4Box::Tkhd.fourcc()) == Some(boxed::written_head(t.head))
            &&& tables::mdia_box(trak, Mp4Box::Mdhd) == Some(boxed::written_media(t.media))
            &&& tables::mdia_box(trak, Mp4Box::Hdlr) == Some(hdlr)
            &&& boxes::find_in(tables::mdia_box(trak, Mp4Box::Minf), Mp4Box::Stbl.fourcc()) == Some(
                writing::laid_out(t.stbl),
            )
            &&& hdlr.len() >= 12
            &&& hdlr.subrange(8, 12) == t.handler
        }),
{
    let hdlr = t.before_handler + t.handler + t.behind_handler;
    boxed::lemma_track_types();
    boxed::law_first_box_is_found(
        t.trak,
        boxed::four('t', 'k', 'h', 'd'),
        boxed::written_head(t.head),
    );
    boxed::law_first_box_is_found(
        t.trak,
        boxed::four('m', 'd', 'i', 'a'),
        writing::laid_out(t.mdia),
    );
    boxed::law_first_box_is_found(
        t.mdia,
        boxed::four('m', 'd', 'h', 'd'),
        boxed::written_media(t.media),
    );
    boxed::law_first_box_is_found(t.mdia, boxed::four('h', 'd', 'l', 'r'), hdlr);
    boxed::law_first_box_is_found(
        t.mdia,
        boxed::four('m', 'i', 'n', 'f'),
        writing::laid_out(t.minf),
    );
    boxed::law_first_box_is_found(
        t.minf,
        boxed::four('s', 't', 'b', 'l'),
        writing::laid_out(t.stbl),
    );
    assert(hdlr.subrange(8, 12) =~= t.handler);
}

/// The number of a track is read back in both versions of its header.
pub proof fn law_track_number_reads_back(h: boxed::TrackHead)
    requires
        boxed::can_write_head(h),
    ensures
        tables::tkhd_track_id(boxed::written_head(h)) == Some(h.id),
{
    let s = boxed::written_head(h);
    let at = 12 + 8 * h.version;
    assert(s.subrange(at, at + 4) =~= bytes::be32_bytes(h.id));
    bytes::lemma_be32_roundtrip(s, at, h.id);
}

/// The language of a media header is read back.
pub proof fn law_plain_language_reads_back(m: boxed::MediaHead)
    requires
        boxed::can_write_media(m),
        m.version == 0,
    ensures
        tables::mdhd_language(boxed::written_media(m)) == Some(tables::ascii_text(m.language)),
{
    let s = boxed::written_media(m);
    let l = m.language;
    let code = boxed::packed_language(l);
    assert(s.subrange(20, 22) =~= bytes::be16_bytes(code));
    bytes::lemma_be16_roundtrip(s, 20, code);
    let a = l[0] as int;
    let b = l[1] as int;
    let c = l[2] as int;
    assert(code == (a - 0x60) * 0x400 + (b - 0x60) * 0x20 + (c - 0x60));
    assert(code / 1024 == a - 0x60);
    assert(code / 32 == (a - 0x60) * 0x20 + (b - 0x60));
    assert(tables::language_letters(code) =~= l);
}

/// A written track is listed by its number, by the kind of its handler, by the
/// type of its first sample entry, by its language and, for a video track, by
/// the size that the entry tells. Tracks of other handlers are not listed.
#[verifier::spinoff_prover]
#[verifier::rlimit(40)]
pub proof fn law_plain_track_is_listed(
    t: WrittenTrack,
    start: Seq<u8>,
    count: u32,
    codec: Seq<u8>,
    entry: Seq<u8>,
    behind: Seq<u8>,
    name: Seq<char>,
    wide: u16,
    high: u16,
)
    requires
        boxed::holds_track(t),
        t.media.version == 0,
        start.len() == 4,
        codec.len() == 4,
        entry.len() + 8 <= u32::MAX,
        boxed::first_holds(
            t.stbl,
            boxed::four('s', 't', 's', 'd'),
            boxed::written_stsd(start, count, codec, entry, behind),
        ),
        codec == vstd::utf8::encode_utf8(name),
        name.len() > 0,
        name[0] != '\0',
        name.last() != '\0',
        entry.len() >= 36,
        entry.subrange(24, 26) == bytes::be16_bytes(wide),
        entry.subrange(26, 28) == bytes::be16_bytes(high),
    ensures
        ({
            let found = tracks::track_of(writing::laid_out(t.trak));
            let kind = if t.handler == boxed::four('v', 'i', 'd', 'e') {
                Some(TrackType::Video)
            } else if t.handler == boxed::four('s', 'o', 'u', 'n') {
                Some(TrackType::Audio)
            } else if t.handler == boxed::four('s', 'b', 't', 'l') || t.handler == boxed::four(
                's',
                'u',
                'b',
                't',
            ) || t.handler == boxed::four('t', 'e', 'x', 't') {
                Some(TrackType::Subtitle)
            } else {
                None
            };
            &&& kind is None ==> found is None
            &&& kind matches Some(k) ==> (found matches Some(track) && {
                &&& track.id == t.head.id
                &&& track.kind == k
                &&& track.codec == name
                &&& track.language == Some(tables::ascii_text(t.media.language))
                &&& k == TrackType::Video ==> track.frame_width == Some(wide as u32)
                    && track.frame_height == Some(high as u32)
                &&& k != TrackType::Video ==> track.frame_width is None && track.frame_height is None
            })
        }),
{
    let stsd = boxed::written_stsd(start, count, codec, entry, behind);
    lemma_plain_parts(t);
    boxed::lemma_sample_types();
    boxed::lemma_handlers();
    boxed::law_first_box_is_found(t.stbl, boxed::four('s', 't', 's', 'd'), stsd);
    law_track_number_reads_back(t.head);
    law_plain_language_reads_back(t.media);
    lemma_entry_name(start, count, codec, entry, behind, name);
    lemma_entry_size(start, count, codec, entry, behind, wide, high);
}

proof fn lemma_entry_name(
    start: Seq<u8>,
    count: u32,
    codec: Seq<u8>,
    entry: Seq<u8>,
    behind: Seq<u8>,
    name: Seq<char>,
)
    requires
        start.len() == 4,
        codec.len() == 4,
        entry.len() + 8 <= u32::MAX,
        codec == vstd::utf8::encode_utf8(name),
        name.len() > 0,
        name[0] != '\0',
        name.last() != '\0',
    ensures
        tracks::codec_of(boxed::written_stsd(start, count, codec, entry, behind)) == name,
{
    let stsd = boxed::written_stsd(start, count, codec, entry, behind);
    assert(stsd.skip(8) =~= boxes::box_bytes(codec, entry) + behind);
    boxes::lemma_box_list_cons(codec, entry, behind);
    assert(tables::entry_types(stsd)[0] == codec);
    texts::law_utf8_reads_back(name);
    let none = Seq::<char>::empty();
    texts::law_trimming_keeps_the_middle(none, name, none, Trim::Only('\0'));
    assert(none + name + none =~= name);
}

proof fn lemma_entry_size(
    start: Seq<u8>,
    count: u32,
    codec: Seq<u8>,
    entry: Seq<u8>,
    behind: Seq<u8>,
    wide: u16,
    high: u16,
)
    requires
        start.len() == 4,
        codec.len() == 4,
        entry.len() >= 36,
        entry.subrange(24, 26) == bytes::be16_bytes(wide),
        entry.subrange(26, 28) == bytes::be16_bytes(high),
    ensures
        ({
            let stsd = boxed::written_stsd(start, count, codec, entry, behind);
            stsd.len() >= 52 && bytes::be16(stsd, 40) == wide && bytes::be16(stsd, 42) == high
        }),
{
    let stsd = boxed::written_stsd(start, count, codec, entry, behind);
    assert(stsd.subrange(40, 42) =~= entry.subrange(24, 26));
    assert(stsd.subrange(42, 44) =~= entry.subrange(26, 28));
    bytes::lemma_be16_roundtrip(stsd, 40, wide);
    bytes::lemma_be16_roundtrip(stsd, 42, high);
}

/// The first track that is accepted is taken, wherever it stands; where none is
/// accepted, none is taken.
pub proof fn law_first_accepted_track_is_taken(
    list: Seq<(Seq<u8>, Seq<u8>)>,
    accepts: spec_fn(Seq<u8>) -> bool,
    k: int,
)
    ensures
        0 <= k < list.len() && list[k].0 == boxed::four('t', 'r', 'a', 'k') && accepts(list[k].1)
            && (forall|j: int|
            0 <= j < k ==> (#[trigger] list[j]).0 != boxed::four('t', 'r', 'a', 'k') || !accepts(
                list[j].1,
            )) ==> entries::first_trak(list, accepts) == Some(list[k].1),
        (forall|j: int|
            0 <= j < list.len() ==> (#[trigger] list[j]).0 != boxed::four('t', 'r', 'a', 'k')
                || !accepts(list[j].1)) ==> entries::first_trak(list, accepts) is None,
    decreases list.len(),
{
    boxed::lemma_track_types();
    if list.len() > 0 {
        let rest = list.skip(1);
        law_first_accepted_track_is_taken(rest, accepts, k - 1);
        assert(forall|j: int| 0 <= j < rest.len() ==> #[trigger] rest[j] == list[j + 1]);
        if 0 < k < list.len() && list[k].0 == boxed::four('t', 'r', 'a', 'k') && accepts(list[k].1)
            && (forall|j: int|
            0 <= j < k ==> (#[trigger] list[j]).0 != boxed::four('t', 'r', 'a', 'k') || !accepts(
                list[j].1,
            )) {
            assert(rest[k - 1] == list[k]);
            assert(list[0].0 != boxed::four('t', 'r', 'a', 'k') || !accepts(list[0].1));
            assert forall|j: int| 0 <= j < k - 1 implies (#[trigger] rest[j]).0 != boxed::four(
                't',
                'r',
                'a',
                'k',
            ) || !accepts(rest[j].1) by {
                assert(rest[j] == list[j + 1]);
            }
        }
        if forall|j: int|
            0 <= j < list.len() ==> (#[trigger] list[j]).0 != boxed::four('t', 'r', 'a', 'k')
                || !accepts(list[j].1) {
            assert(list[0].0 != boxed::four('t', 'r', 'a', 'k') || !accepts(list[0].1));
            assert forall|j: int| 0 <= j < rest.len() implies (#[trigger] rest[j]).0 != boxed::four(
                't',
                'r',
                'a',
                'k',
            ) || !accepts(rest[j].1) by {
                assert(rest[j] == list[j + 1]);
            }
        }
    }
}

/// The parameter sets of a written configuration are found: the one sequence
/// parameter set, and the first picture parameter set.
#[verifier::spinoff_prover]
#[verifier::rlimit(40)]
pub proof fn law_first_parameter_sets_are_found(c: units::WrittenConfig)
    requires
        units::can_write_config(c),
        c.sps.len() == 1,
        c.pps.len() > 0,
    ensures
        entries::first_sps_pps(units::written_config(c)) == Some((c.sps[0], c.pps[0])),
{
    let avcc = units::written_config(c);
    units::lemma_config_parts(c);
    lemma_first_set(c.sps);
    lemma_first_set(c.pps);
    let first = units::written_sets(c.sps);
    let n = c.sps[0].len() as u16;
    let m = c.pps[0].len() as u16;
    let second = units::written_sets(c.pps);
    reveal_with_fuel(units::written_sets, 2);
    assert(c.sps.drop_last() =~= Seq::empty());
    assert(first =~= bytes::be16_bytes(n) + c.sps[0]);
    assert(avcc.subrange(6, 8) =~= bytes::be16_bytes(n));
    bytes::lemma_be16_roundtrip(avcc, 6, n);
    assert(avcc.subrange(8, 8 + n) =~= c.sps[0]);
    let at = 8int + n;
    assert(avcc.subrange(at + 1, at + 3) =~= second.subrange(0, 2));
    bytes::lemma_be16_roundtrip(avcc, at + 1, m);
    assert(avcc.subrange(at + 3, at + 3 + m) =~= second.subrange(2, 2 + m));
}

proof fn lemma_first_set(sets: Seq<Seq<u8>>)
    requires
        sets.len() > 0,
        forall|i: int| 0 <= i < sets.len() ==> (#[trigger] sets[i]).len() <= u16::MAX,
    ensures
        units::written_sets(sets).len() >= 2 + sets[0].len(),
        units::written_sets(sets).subrange(0, 2) == bytes::be16_bytes(sets[0].len() as u16),
        units::written_sets(sets).subrange(2, 2int + sets[0].len()) == sets[0],
    decreases sets.len(),
{
    let init = sets.drop_last();
    let all = units::written_sets(sets);
    if init.len() > 0 {
        assert forall|i: int| 0 <= i < init.len() implies (#[trigger] init[i]).len()
            <= u16::MAX by {
            assert(init[i] == sets[i]);
        }
        lemma_first_set(init);
        let before = units::written_sets(init);
        assert(init[0] == sets[0]);
        assert(all.subrange(0, 2) =~= before.subrange(0, 2));
        assert(all.subrange(2, 2int + sets[0].len()) =~= before.subrange(2, 2int + sets[0].len()));
    } else {
        assert(units::written_sets(init) =~= Seq::empty());
        assert(sets.last() == sets[0]);
        assert(all.subrange(0, 2) =~= bytes::be16_bytes(sets[0].len() as u16));
        assert(all.subrange(2, 2int + sets[0].len()) =~= sets[0]);
    }
}

// --------------------
// Metadata
// --------------------

/// A movie header to be written.
pub open spec fn written_movie_head(
    version: u8,
    flags: Seq<u8>,
    times: Seq<u8>,
    timescale: u32,
    duration: u64,
    behind: Seq<u8>,
) -> Seq<u8> {
    seq![version] + flags + times + bytes::be32_bytes(timescale) + boxed::time_field(
        version,
        duration,
    ) + behind
}

/// The duration of a movie is read back in both versions of its header, with the
/// timescale that it is counted in.
pub proof fn law_movie_duration_reads_back(
    moov: Seq<(Seq<u8>, Seq<u8>)>,
    file: Seq<(Seq<u8>, Seq<u8>)>,
    version: u8,
    flags: Seq<u8>,
    times: Seq<u8>,
    timescale: u32,
    duration: u64,
    behind: Seq<u8>,
)
    requires
        version <= 1,
        flags.len() == 3,
        times.len() == 8 + 8 * version,
        version == 0 ==> duration <= u32::MAX,
        writing::fits_headers(moov),
        writing::fits_headers(file),
        boxed::first_holds(file, boxed::four('m', 'o', 'o', 'v'), writing::laid_out(moov)),
        boxed::first_holds(
            moov,
            boxed::four('m', 'v', 'h', 'd'),
            written_movie_head(version, flags, times, timescale, duration, behind),
        ),
    ensures
        metadata::movie_duration(writing::laid_out(file)) == Some(
            metadata::TickDuration { ticks: duration, timescale },
        ),
{
    let s = written_movie_head(version, flags, times, timescale, duration, behind);
    let at = 12 + 8 * version;
    assert(Mp4Box::Moov.fourcc() =~= boxed::four('m', 'o', 'o', 'v'));
    assert(Mp4Box::Mvhd.fourcc() =~= boxed::four('m', 'v', 'h', 'd'));
    boxed::law_first_box_is_found(file, boxed::four('m', 'o', 'o', 'v'), writing::laid_out(moov));
    boxed::law_first_box_is_found(moov, boxed::four('m', 'v', 'h', 'd'), s);
    assert(s.subrange(at, at + 4) =~= bytes::be32_bytes(timescale));
    bytes::lemma_be32_roundtrip(s, at, timescale);
    assert(s.subrange(at + 4, at + 4 + 4 + 4 * version) =~= boxed::time_field(version, duration));
    boxed::lemma_time(s, at + 4, version, duration);
}

/// The text of an item is read back: as it is decoded from UTF-8, or from UTF-16
/// with a byte order mark. It goes by the type of its box, with `@` for the
/// copyright sign.
#[verifier::spinoff_prover]
#[verifier::rlimit(40)]
pub proof fn law_item_reads_back(
    fourcc: Seq<u8>,
    list: Seq<(Seq<u8>, Seq<u8>)>,
    locale: Seq<u8>,
    data: Seq<u8>,
    s: Seq<char>,
    order: Endian,
)
    requires
        writing::fits_headers(list),
        locale.len() == 4,
        texts::is_tidy(s),
    ensures
        boxed::first_holds(
            list,
            boxed::four('d', 'a', 't', 'a'),
            bytes::be32_bytes(1) + locale + data,
        ) && text::lossy_utf8(data) == s ==> metadata::item_of(fourcc, writing::laid_out(list))
            == Some(
            metadata::MetaView {
                key: metadata::key_of(fourcc),
                name: metadata::name_of(metadata::key_of(fourcc)),
                value: s,
            },
        ),
        boxed::first_holds(
            list,
            boxed::four('d', 'a', 't', 'a'),
            bytes::be32_bytes(2) + locale + (if order == Endian::Big {
                seq![0xfeu8, 0xff]
            } else {
                seq![0xffu8, 0xfe]
            }) + texts::unit_bytes(texts::utf16_of(s), order),
        ) ==> metadata::item_of(fourcc, writing::laid_out(list)) == Some(
            metadata::MetaView {
                key: metadata::key_of(fourcc),
                name: metadata::name_of(metadata::key_of(fourcc)),
                value: s,
            },
        ),
{
    assert(Mp4Box::Data.fourcc() =~= boxed::four('d', 'a', 't', 'a'));
    let one = bytes::be32_bytes(1) + locale + data;
    let marked = (if order == Endian::Big {
        seq![0xfeu8, 0xff]
    } else {
        seq![0xffu8, 0xfe]
    }) + texts::unit_bytes(texts::utf16_of(s), order);
    let two = bytes::be32_bytes(2) + locale + (if order == Endian::Big {
        seq![0xfeu8, 0xff]
    } else {
        seq![0xffu8, 0xfe]
    }) + texts::unit_bytes(texts::utf16_of(s), order);
    boxed::law_first_box_is_found(list, boxed::four('d', 'a', 't', 'a'), one);
    boxed::law_first_box_is_found(list, boxed::four('d', 'a', 't', 'a'), two);
    assert(one.subrange(0, 4) =~= bytes::be32_bytes(1));
    bytes::lemma_be32_roundtrip(one, 0, 1);
    assert(one.skip(8) =~= data);
    assert(two.subrange(0, 4) =~= bytes::be32_bytes(2));
    bytes::lemma_be32_roundtrip(two, 0, 2);
    assert(two.skip(8) =~= marked);
    texts::law_marked_utf16_reads_back(s, order);
    texts::lemma_tidy_stays(s);
}

/// The items with well-known types have their names.
pub proof fn law_items_are_named()
    ensures
        metadata::name_of(metadata::key_of(seq![0xa9u8, 'n' as u8, 'a' as u8, 'm' as u8]))
            == "Title"@,
        metadata::name_of(metadata::key_of(seq![0xa9u8, 'A' as u8, 'R' as u8, 'T' as u8]))
            == "Artist"@,
        metadata::name_of(metadata::key_of(seq![0xa9u8, 'a' as u8, 'l' as u8, 'b' as u8]))
            == "Album"@,
        metadata::name_of(metadata::key_of(seq![0xa9u8, 't' as u8, 'o' as u8, 'o' as u8]))
            == "Encoder"@,
        metadata::name_of(metadata::key_of(boxed::four('c', 'p', 'r', 't'))) == "Copyright"@,
{
    reveal_strlit("@nam");
    reveal_strlit("@ART");
    reveal_strlit("@alb");
    reveal_strlit("@too");
    reveal_strlit("cprt");
    let title = metadata::key_of(seq![0xa9u8, 'n' as u8, 'a' as u8, 'm' as u8]);
    let artist = metadata::key_of(seq![0xa9u8, 'A' as u8, 'R' as u8, 'T' as u8]);
    let album = metadata::key_of(seq![0xa9u8, 'a' as u8, 'l' as u8, 'b' as u8]);
    let encoder = metadata::key_of(seq![0xa9u8, 't' as u8, 'o' as u8, 'o' as u8]);
    let copyright = metadata::key_of(boxed::four('c', 'p', 'r', 't'));
    assert(title =~= "@nam"@);
    assert(artist =~= "@ART"@);
    assert(artist[1] == 'A');
    assert(album =~= "@alb"@);
    assert(album[1] == 'a');
    assert(encoder =~= "@too"@);
    assert(encoder[1] == 't');
    assert(copyright =~= "cprt"@);
    assert(copyright[1] == 'p');
    assert("@nam"@[1] == 'n' && "@ART"@[1] == 'A' && "@alb"@[1] == 'a' && "@too"@[1] == 't');
}

/// The items of a movie are listed in the order of their boxes.
pub proof fn law_items_are_listed_in_order(
    a: Seq<(Seq<u8>, Seq<u8>)>,
    b: Seq<(Seq<u8>, Seq<u8>)>,
    item: (Seq<u8>, Seq<u8>),
)
    ensures
        metadata::items_of(a + b) == metadata::items_of(a) + metadata::items_of(b),
        metadata::items_of(seq![item]) == (match metadata::item_of(item.0, item.1) {
            Some(v) => seq![v],
            None => Seq::empty(),
        }),
    decreases b.len(),
{
    if b.len() == 0 {
        assert(a + b =~= a);
        assert(metadata::items_of(a) + metadata::items_of(b) =~= metadata::items_of(a));
    } else {
        law_items_are_listed_in_order(a, b.drop_last(), item);
        assert((a + b).drop_last() =~= a + b.drop_last());
        assert((a + b).last() == b.last());
        assert(metadata::items_of(a + b) =~= metadata::items_of(a) + metadata::items_of(b));
    }
    assert(seq![item].drop_last() =~= Seq::empty());
    assert(seq![item].last() == item);
    reveal_with_fuel(metadata::items_of, 2);
    if let Some(v) = metadata::item_of(item.0, item.1) {
        assert(metadata::items_of(seq![item]) =~= seq![v]);
    }
}

/// The items stand in the list of the `meta` box of the user data of a movie,
/// behind four bytes.
pub proof fn law_items_are_found(
    file: Seq<(Seq<u8>, Seq<u8>)>,
    moov: Seq<(Seq<u8>, Seq<u8>)>,
    udta: Seq<(Seq<u8>, Seq<u8>)>,
    start: Seq<u8>,
    meta: Seq<(Seq<u8>, Seq<u8>)>,
    ilst: Seq<(Seq<u8>, Seq<u8>)>,
)
    requires
        writing::fits_headers(file),
        writing::fits_headers(moov),
        writing::fits_headers(udta),
        writing::fits_headers(meta),
        writing::fits_headers(ilst),
        start.len() == 4,
        boxed::first_holds(file, boxed::four('m', 'o', 'o', 'v'), writing::laid_out(moov)),
        boxed::first_holds(moov, boxed::four('u', 'd', 't', 'a'), writing::laid_out(udta)),
        boxed::first_holds(udta, boxed::four('m', 'e', 't', 'a'), start + writing::laid_out(meta)),
        boxed::first_holds(meta, boxed::four('i', 'l', 's', 't'), writing::laid_out(ilst)),
    ensures
        metadata::movie_items(writing::laid_out(file)) == metadata::items_of(ilst),
{
    assert(Mp4Box::Moov.fourcc() =~= boxed::four('m', 'o', 'o', 'v'));
    assert(Mp4Box::Udta.fourcc() =~= boxed::four('u', 'd', 't', 'a'));
    assert(Mp4Box::Meta.fourcc() =~= boxed::four('m', 'e', 't', 'a'));
    assert(Mp4Box::Ilst.fourcc() =~= boxed::four('i', 'l', 's', 't'));
    let inner = start + writing::laid_out(meta);
    boxed::law_first_box_is_found(file, boxed::four('m', 'o', 'o', 'v'), writing::laid_out(moov));
    boxed::law_first_box_is_found(moov, boxed::four('u', 'd', 't', 'a'), writing::laid_out(udta));
    boxed::law_first_box_is_found(udta, boxed::four('m', 'e', 't', 'a'), inner);
    boxed::law_first_box_is_found(meta, boxed::four('i', 'l', 's', 't'), writing::laid_out(ilst));
    assert(inner.skip(4) =~= writing::laid_out(meta));
    writing::law_laid_out_boxes_are_found(ilst, boxed::four('i', 'l', 's', 't'));
}

/// A value is found by the name of its item, in any case of its letters: the
/// first one of that name. Without one of that name, it is found by the key of
/// its item.
#[verifier::spinoff_prover]
#[verifier::rlimit(40)]
pub proof fn law_value_is_found(items: Seq<metadata::MetaView>, query: Seq<char>, k: int)
    requires
        0 <= k < items.len(),
        query.len() > 0,
        !text::is_white_space(query[0]),
        !text::is_white_space(query.last()),
    ensures
        text::ascii_lowercase(items[k].name) == text::ascii_lowercase(query) && (forall|j: int|
            0 <= j < k ==> text::ascii_lowercase((#[trigger] items[j]).name)
                != text::ascii_lowercase(query)) ==> metadata::found(items, query) == Some(
            items[k].value,
        ),
        items[k].key == query && (forall|j: int|
            0 <= j < k ==> (#[trigger] items[j]).key != query) && (forall|j: int|
            0 <= j < items.len() ==> text::ascii_lowercase((#[trigger] items[j]).name)
                != text::ascii_lowercase(query)) ==> metadata::found(items, query) == Some(
            items[k].value,
        ),
{
    let none = Seq::<char>::empty();
    texts::law_trimming_keeps_the_middle(none, query, none, Trim::White);
    assert(none + query + none =~= query);
    lemma_first_named(items, query, k);
    lemma_first_keyed(items, query, k);
}

proof fn lemma_first_named(items: Seq<metadata::MetaView>, name: Seq<char>, k: int)
    ensures
        0 <= k < items.len() && text::ascii_lowercase(items[k].name) == text::ascii_lowercase(name)
            && (forall|j: int|
            0 <= j < k ==> text::ascii_lowercase((#[trigger] items[j]).name)
                != text::ascii_lowercase(name)) ==> metadata::first_named(items, name) == Some(
            items[k].value,
        ),
        (forall|j: int|
            0 <= j < items.len() ==> text::ascii_lowercase((#[trigger] items[j]).name)
                != text::ascii_lowercase(name)) ==> metadata::first_named(items, name) is None,
    decreases items.len(),
{
    if items.len() > 0 {
        let rest = items.skip(1);
        lemma_first_named(rest, name, k - 1);
        assert(forall|j: int| 0 <= j < rest.len() ==> #[trigger] rest[j] == items[j + 1]);
        assert(k > 0 && k < items.len() ==> rest[k - 1] == items[k]);
        if forall|j: int|
            0 <= j < k ==> text::ascii_lowercase((#[trigger] items[j]).name)
                != text::ascii_lowercase(name) {
            assert forall|j: int| 0 <= j < k - 1 && j < rest.len() implies text::ascii_lowercase(
                (#[trigger] rest[j]).name,
            ) != text::ascii_lowercase(name) by {
                assert(rest[j] == items[j + 1]);
            }
            assert(k > 0 ==> text::ascii_lowercase(items[0].name) != text::ascii_lowercase(name));
        }
        if forall|j: int|
            0 <= j < items.len() ==> text::ascii_lowercase((#[trigger] items[j]).name)
                != text::ascii_lowercase(name) {
            assert forall|j: int| 0 <= j < rest.len() implies text::ascii_lowercase(
                (#[trigger] rest[j]).name,
            ) != text::ascii_lowercase(name) by {
                assert(rest[j] == items[j + 1]);
            }
            assert(text::ascii_lowercase(items[0].name) != text::ascii_lowercase(name));
        }
    }
}

proof fn lemma_first_keyed(items: Seq<metadata::MetaView>, key: Seq<char>, k: int)
    ensures
        0 <= k < items.len() && items[k].key == key && (forall|j: int|
            0 <= j < k ==> (#[trigger] items[j]).key != key) ==> metadata::first_keyed(items, key)
            == Some(items[k].value),
    decreases items.len(),
{
    if items.len() > 0 {
        let rest = items.skip(1);
        lemma_first_keyed(rest, key, k - 1);
        if 0 < k < items.len() && items[k].key == key && (forall|j: int|
            0 <= j < k ==> (#[trigger] items[j]).key != key) {
            assert(rest[k - 1] == items[k]);
            assert(items[0].key != key);
            assert forall|j: int| 0 <= j < k - 1 implies (#[trigger] rest[j]).key != key by {
                assert(rest[j] == items[j + 1]);
            }
        }
    }
}

// --------------------
// Cues
// --------------------

/// Whether a text has no white space at its ends.
pub open spec fn is_trim(s: Seq<char>) -> bool {
    s.len() > 0 && !text::is_white_space(s[0]) && !text::is_white_space(s.last())
}

proof fn lemma_trimmed(s: Seq<char>)
    requires
        is_trim(s),
    ensures
        subtitles::nonempty_trimmed(Some(s)) == Some(s),
{
    let none = Seq::<char>::empty();
    texts::law_trimming_keeps_the_middle(none, s, none, Trim::White);
    assert(none + s + none =~= s);
}

/// A cue gives its text back: a plain one and a WebVTT one that is no file
/// header from UTF-8, a timed text one from the bytes that its length counts.
pub proof fn law_cue_reads_back(s: Seq<char>, d: Seq<u8>, behind: Seq<u8>)
    requires
        is_trim(s),
        0 < d.len() <= u16::MAX,
    ensures
        subtitles::parsed_cue(vstd::utf8::encode_utf8(s), SubCodec::Generic) == Some(s),
        subtitles::parsed_cue(vstd::utf8::encode_utf8(s), SubCodec::Wvtt) == (
        if text::begins_with(s, "WEBVTT"@) {
            None
        } else {
            Some(s)
        }),
        text::lossy_utf8(d) == s ==> subtitles::parsed_cue(
            bytes::be16_bytes(d.len() as u16) + d + behind,
            SubCodec::Tx3g,
        ) == Some(s),
{
    let data = vstd::utf8::encode_utf8(s);
    texts::law_utf8_reads_back(s);
    lemma_trimmed(s);
    assert(data.len() > 0) by {
        vstd::utf8::encode_utf8_decode_utf8(s);
    }
    let n = d.len() as u16;
    let sample = bytes::be16_bytes(n) + d + behind;
    assert(sample.subrange(0, 2) =~= bytes::be16_bytes(n));
    bytes::lemma_be16_roundtrip(sample, 0, n);
    assert(sample.subrange(2, 2 + n) =~= d);
}

/// A cue in UTF-16 without a byte order mark gives its text back, unless its
/// bytes can be read as UTF-8.
pub proof fn law_wide_cue_reads_back(s: Seq<char>)
    requires
        is_trim(s),
    ensures
        ({
            let data = texts::unit_bytes(texts::utf16_of(s), Endian::Big);
            vstd::utf8::valid_utf8(data) || subtitles::parsed_cue(data, SubCodec::Generic) == Some(
                s,
            )
        }),
{
    let data = texts::unit_bytes(texts::utf16_of(s), Endian::Big);
    texts::law_utf16_reads_back(s, Endian::Big);
    lemma_trimmed(s);
    assert(texts::units_of_char(s[0]).len() > 0);
    assert(texts::utf16_of(s).len() > 0);
    assert(data.len() == 2 * texts::utf16_of(s).len());
}

/// Whether a text has no part of a tag in it.
pub open spec fn is_untagged(s: Seq<char>) -> bool {
    forall|i: int| 0 <= i < s.len() ==> #[trigger] s[i] != '<' && s[i] != '>'
}

proof fn lemma_plain_run(s: Seq<char>, rest: Seq<char>, in_tag: bool)
    requires
        is_untagged(s),
    ensures
        subtitles::without_tags(s + rest, in_tag) == (if in_tag {
            subtitles::without_tags(rest, true)
        } else {
            s + subtitles::without_tags(rest, false)
        }),
    decreases s.len(),
{
    if s.len() == 0 {
        assert(s + rest =~= rest);
        assert(s + subtitles::without_tags(rest, false) =~= subtitles::without_tags(rest, false));
    } else {
        let tail = s.skip(1);
        assert forall|i: int| 0 <= i < tail.len() implies #[trigger] tail[i] != '<' && tail[i]
            != '>' by {
            assert(tail[i] == s[i + 1]);
        }
        lemma_plain_run(tail, rest, in_tag);
        assert((s + rest).skip(1) =~= tail + rest);
        assert((s + rest)[0] == s[0]);
        assert(seq![s[0]] + (tail + subtitles::without_tags(rest, false)) =~= s
            + subtitles::without_tags(rest, false));
    }
}

/// Tags are left out of a text, and what stands between them is kept.
pub proof fn law_tags_are_left_out(s: Seq<char>, tag: Seq<char>, rest: Seq<char>)
    requires
        is_untagged(s),
        is_untagged(tag),
    ensures
        subtitles::without_tags(s + seq!['<'] + tag + seq!['>'] + rest, false) == s
            + subtitles::without_tags(rest, false),
        subtitles::without_tags(s, false) == s,
{
    let behind = tag + (seq!['>'] + rest);
    let marked = seq!['<'] + behind;
    lemma_plain_run(s, marked, false);
    lemma_plain_run(tag, seq!['>'] + rest, true);
    assert((seq!['>'] + rest).skip(1) =~= rest);
    assert(marked.skip(1) =~= behind);
    assert(s + seq!['<'] + tag + seq!['>'] + rest =~= s + marked);
    lemma_plain_run(s, Seq::empty(), false);
    assert(s + Seq::<char>::empty() =~= s);
}

/// The samples of a track that have bytes are read, in order.
pub proof fn law_filled_samples_are_read(
    samples: Seq<timing::SampleInfo>,
    more: Seq<timing::SampleInfo>,
    one: timing::SampleInfo,
)
    ensures
        subtitles::filled(samples + more) == subtitles::filled(samples) + subtitles::filled(more),
        subtitles::filled(seq![one]) == (if one.size == 0 {
            Seq::empty()
        } else {
            seq![one]
        }),
    decreases more.len(),
{
    if more.len() == 0 {
        assert(samples + more =~= samples);
        assert(subtitles::filled(samples) + subtitles::filled(more) =~= subtitles::filled(samples));
    } else {
        law_filled_samples_are_read(samples, more.drop_last(), one);
        assert((samples + more).drop_last() =~= samples + more.drop_last());
        assert((samples + more).last() == more.last());
        assert(subtitles::filled(samples + more) =~= subtitles::filled(samples) + subtitles::filled(
            more,
        ));
    }
    assert(seq![one].drop_last() =~= Seq::empty());
    assert(seq![one].last() == one);
    reveal_with_fuel(subtitles::filled, 2);
    assert(one.size != 0 ==> subtitles::filled(seq![one]) =~= seq![one]);
}

/// The cues of a track are those of its samples that tell a text, in order, each
/// with its sample.
pub proof fn law_cues_follow_their_samples(
    samples: Seq<timing::SampleInfo>,
    data: Seq<Seq<u8>>,
    codec: SubCodec,
    one: timing::SampleInfo,
    bytes: Seq<u8>,
)
    requires
        samples.len() == data.len(),
    ensures
        subtitles::cues_of(samples.push(one), data.push(bytes), codec) == subtitles::cues_of(
            samples,
            data,
            codec,
        ) + (match subtitles::parsed_cue(bytes, codec) {
            Some(s) => seq![(one, s)],
            None => Seq::empty(),
        }),
        subtitles::cues_of(Seq::empty(), Seq::empty(), codec).len() == 0,
{
    assert(samples.push(one).drop_last() =~= samples);
    assert(data.push(bytes).drop_last() =~= data);
    assert(subtitles::cues_of(samples.push(one), data.push(bytes), codec) =~= subtitles::cues_of(
        samples,
        data,
        codec,
    ) + (match subtitles::parsed_cue(bytes, codec) {
        Some(s) => seq![(one, s)],
        None => Seq::empty(),
    }));
}

/// A numbered cue lasts as long as its sample.
pub proof fn law_numbered_cue_lasts_as_its_sample(
    track_id: u32,
    cues: Seq<(timing::SampleInfo, Seq<char>)>,
    i: int,
)
    requires
        0 <= i < cues.len() <= u32::MAX,
    ensures
        ({
            let cue = subtitles::numbered(track_id, cues)[i];
            &&& cue.id == i + 1
            &&& cue.track_id == track_id
            &&& cue.start_time == cues[i].0.start
            &&& cue.end_time - cue.start_time == cues[i].0.duration
            &&& cue.text == cues[i].1
        }),
{
}

// --------------------
// Pictures
// --------------------

/// The samples of a track are listed in order: each lies where its chunk has it,
/// has the size that its table tells and starts when those before it are over.
/// It is a key frame where its number is told.
pub proof fn law_samples_are_listed(
    t: tables::TablesView,
    keys: Seq<u32>,
    q: int,
    i: int,
)
    requires
        chunks::lies_in(t, q, i),
        i < u32::MAX,
    ensures
        ({
            let all = thumbnails::samples_of(t, keys);
            &&& i < all.len()
            &&& all[i].size == t.sizes[i]
            &&& i == chunks::samples_in_chunks(t.stsc, q) ==> all[i].offset == t.offsets[q]
            &&& i > chunks::samples_in_chunks(t.stsc, q) ==> all[i].offset == timing::wrap64(
                all[i - 1].offset + t.sizes[i - 1],
            )
            &&& all[i].timestamp == timing::wrap64(timing::sample_start(t.timing, i) as int)
            &&& all[i].is_keyframe <==> keys.contains((i + 1) as u32)
        }),
{
    let placed = timing::samples_through(t, t.offsets.len());
    chunks::law_chunk_lays_out_its_samples(t, q, i);
    chunks::lemma_samples_listed(t, q as nat);
    timing::lemma_placed_index(t, t.offsets.len(), i);
    assert(placed[i].index == i);
}

/// Without sync samples every sample is a key frame; with them those are.
pub proof fn law_key_frames(sync: Seq<u32>, n: nat, i: int)
    requires
        n <= u32::MAX,
        0 <= i < n,
    ensures
        sync.len() == 0 ==> thumbnails::key_numbers(sync, n).contains((i + 1) as u32),
        sync.len() > 0 ==> thumbnails::key_numbers(sync, n) == sync,
{
    if sync.len() == 0 {
        assert(thumbnails::key_numbers(sync, n)[i] == (i + 1) as u32);
    }
}

/// The key frame that is read for a time is one of the samples, and no key frame
/// is nearer to that time.
pub proof fn law_nearest_key_frame_is_read(
    samples: Seq<thumbnails::Sample>,
    timescale: u32,
    times: Seq<Duration>,
    i: int,
    k: int,
)
    requires
        thumbnails::in_order(samples),
        0 <= i < times.len(),
        0 <= k < samples.len(),
        samples[k].is_keyframe,
    ensures
        ({
            let reads = thumbnails::planned_reads(samples, timescale, true, times);
            &&& reads.len() == times.len()
            &&& samples.contains(reads[i])
            &&& reads[i].is_keyframe
            &&& thumbnails::distance(reads[i].timestamp, timescale, times[i].nanos())
                <= thumbnails::distance(samples[k].timestamp, timescale, times[i].nanos())
        }),
{
    let keys = thumbnails::key_samples(samples);
    let pred = |s: thumbnails::Sample| s.is_keyframe;
    lemma_keys(samples);
    samples.filter_lemma(pred);
    assert(keys == samples.filter(pred));
    assert(keys.contains(samples[k])) by {
        assert(pred(samples[k]));
    }
    let at = choose|j: int| 0 <= j < keys.len() && keys[j] == samples[k];
    thumbnails::law_nearest_is_nearest(keys, timescale, times[i].nanos(), at);
    let reads = thumbnails::planned_reads(samples, timescale, true, times);
    let j = thumbnails::nearest(keys, timescale, times[i].nanos())->0;
    assert(reads[i] == keys[j]);
    assert(pred(keys[j]));
    assert(samples.contains(keys[j]));
}

/// The key frames of samples in order are in order, and among the samples.
proof fn lemma_keys(samples: Seq<thumbnails::Sample>)
    requires
        thumbnails::in_order(samples),
    ensures
        thumbnails::in_order(thumbnails::key_samples(samples)),
        forall|j: int|
            0 <= j < thumbnails::key_samples(samples).len() ==> samples.contains(
                #[trigger] thumbnails::key_samples(samples)[j],
            ),
    decreases samples.len(),
{
    if samples.len() > 0 {
        let init = samples.drop_last();
        let last = samples.last();
        let before = thumbnails::key_samples(init);
        let now = thumbnails::key_samples(samples);
        assert(thumbnails::in_order(init)) by {
            assert forall|i: int, j: int| 0 <= i <= j < init.len() implies (
            #[trigger] init[i]).timestamp <= (#[trigger] init[j]).timestamp by {
                assert(init[i] == samples[i] && init[j] == samples[j]);
            }
        }
        lemma_keys(init);
        reveal(Seq::filter);
        assert(now == if last.is_keyframe {
            before.push(last)
        } else {
            before
        });
        assert forall|j: int| 0 <= j < now.len() implies samples.contains(#[trigger] now[j]) by {
            if j < before.len() {
                assert(init.contains(before[j]));
                let m = choose|m: int| 0 <= m < init.len() && init[m] == before[j];
                assert(samples[m] == now[j]);
            } else {
                assert(samples[samples.len() - 1] == now[j]);
            }
        }
        assert forall|i: int, j: int| 0 <= i <= j < now.len() implies (
        #[trigger] now[i]).timestamp <= (#[trigger] now[j]).timestamp by {
            if j < before.len() {
                assert(now[i] == before[i] && now[j] == before[j]);
            } else if i < before.len() {
                assert(init.contains(before[i]));
                let m = choose|m: int| 0 <= m < init.len() && init[m] == before[i];
                assert(samples[m].timestamp <= samples[samples.len() - 1].timestamp);
            }
        }
    }
}

// --------------------
// Places
// --------------------

/// The `moov` box of a file is found behind the boxes before it, where it lies
/// in the file.
#[verifier::spinoff_prover]
#[verifier::rlimit(40)]
pub proof fn law_moov_is_found(
    before: Seq<(Seq<u8>, Seq<u8>)>,
    payload: Seq<u8>,
    rest: Seq<u8>,
    at: int,
    file_size: u64,
)
    requires
        writing::fits_headers(before),
        boxed::has_no(before, boxed::four('m', 'o', 'o', 'v')),
        payload.len() + 8 <= u32::MAX,
        0 <= at,
        at + writing::laid_out(before).len() + payload.len() + 8 <= file_size,
    ensures
        moov::scan(
            writing::laid_out(before) + boxes::box_bytes(
                boxed::four('m', 'o', 'o', 'v'),
                payload,
            ) + rest,
            at,
            file_size,
        ) == Some(
            moov::MoovBoxInfo {
                position: (at + writing::laid_out(before).len()) as u64,
                size: (payload.len() + 8) as u64,
            },
        ),
    decreases before.len(),
{
    let name = boxed::four('m', 'o', 'o', 'v');
    let tail = boxes::box_bytes(name, payload) + rest;
    let data = writing::laid_out(before) + boxes::box_bytes(name, payload) + rest;
    if before.len() == 0 {
        assert(data =~= tail);
        lemma_scan_hit(payload, rest, at, file_size);
    } else {
        let (first, held) = before[0];
        let others = before.skip(1);
        assert forall|i: int| 0 <= i < others.len() implies (#[trigger] others[i]).0.len() == 4
            && others[i].1.len() + 8 <= u32::MAX && others[i].0 != name by {
            assert(others[i] == before[i + 1]);
        }
        let next = writing::laid_out(others) + boxes::box_bytes(name, payload) + rest;
        assert(data =~= boxes::box_bytes(first, held) + next);
        lemma_scan_skip(first, held, next, at, file_size);
        assert(writing::laid_out(before).len() == held.len() + 8 + writing::laid_out(others).len());
        law_moov_is_found(others, payload, rest, at + held.len() + 8, file_size);
    }
}

proof fn lemma_scan_hit(payload: Seq<u8>, rest: Seq<u8>, at: int, file_size: u64)
    requires
        payload.len() + 8 <= u32::MAX,
        0 <= at,
        at + payload.len() + 8 <= file_size,
    ensures
        moov::scan(
            boxes::box_bytes(boxed::four('m', 'o', 'o', 'v'), payload) + rest,
            at,
            file_size,
        ) == Some(
            moov::MoovBoxInfo { position: at as u64, size: (payload.len() + 8) as u64 },
        ),
{
    assert(Mp4Box::Moov.fourcc() =~= boxed::four('m', 'o', 'o', 'v'));
    lemma_scanned_header(boxed::four('m', 'o', 'o', 'v'), payload, rest);
}

proof fn lemma_scan_skip(
    name: Seq<u8>,
    payload: Seq<u8>,
    rest: Seq<u8>,
    at: int,
    file_size: u64,
)
    requires
        name.len() == 4,
        name != boxed::four('m', 'o', 'o', 'v'),
        payload.len() + 8 <= u32::MAX,
    ensures
        moov::scan(boxes::box_bytes(name, payload) + rest, at, file_size) == moov::scan(
            rest,
            at + payload.len() + 8,
            file_size,
        ),
{
    assert(Mp4Box::Moov.fourcc() =~= boxed::four('m', 'o', 'o', 'v'));
    lemma_scanned_header(name, payload, rest);
}

proof fn lemma_scanned_header(name: Seq<u8>, payload: Seq<u8>, rest: Seq<u8>)
    requires
        name.len() == 4,
        payload.len() + 8 <= u32::MAX,
    ensures
        ({
            let data = boxes::box_bytes(name, payload) + rest;
            &&& data.len() >= 8 + payload.len()
            &&& moov::full_box_size(data) == payload.len() + 8
            &&& moov::full_header_len(data) == 8
            &&& data.subrange(4, 8) == name
            &&& data.skip(payload.len() as int + 8) == rest
        }),
{
    let data = boxes::box_bytes(name, payload) + rest;
    let size = boxes::wrap32(payload.len() + 8);
    assert(data.subrange(0, 4) =~= bytes::be32_bytes(size));
    bytes::lemma_be32_roundtrip(data, 0, size);
    assert(data.subrange(4, 8) =~= name);
    assert(data.skip(payload.len() as int + 8) =~= rest);
}

// --------------------
// Tables
// --------------------

proof fn lemma_plain_runs(pairs: Seq<(u32, u32)>)
    requires
        pairs.len() <= 0x1000_0000,
    ensures
        helpers::pair_table(mp4_writer::words(mp4_writer::stts_words(pairs)), 8) == pairs,
{
    writing::law_stts_reads_back(pairs);
}

proof fn lemma_plain_chunk_runs(list: Seq<StscEntry>)
    requires
        list.len() <= 0x1000_0000,
    ensures
        helpers::pair_table(mp4_writer::words(indexed::chunk_words(list)), 12) == Seq::new(
            list.len(),
            |i: int| (list[i].first_chunk, list[i].samples_per_chunk),
        ),
{
    let ws = indexed::chunk_words(list);
    let data = mp4_writer::words(ws);
    mp4_writer::lemma_words(ws);
    assert(bytes::be32(data, 4 * 1int) == ws[1]);
    let found = helpers::pair_table(data, 12);
    assert(found.len() == list.len());
    assert forall|i: int| 0 <= i < list.len() implies found[i] == (
        list[i].first_chunk,
        list[i].samples_per_chunk,
    ) by {
        assert(ws[2 + 3 * i] == list[i].first_chunk);
        assert(ws[3 + 3 * i] == list[i].samples_per_chunk);
        assert(4 * (2 + 3 * i) == 8 + 12 * i);
        assert(4 * (3 + 3 * i) == 12 + 12 * i);
    }
    assert(found =~= Seq::new(
        list.len(),
        |i: int| (list[i].first_chunk, list[i].samples_per_chunk),
    ));
}

proof fn lemma_plain_offsets(version: u8, pairs: Seq<(u32, i64)>)
    requires
        indexed::fits_version(version, pairs),
        forall|i: int| 0 <= i < pairs.len() ==> (#[trigger] pairs[i]).1 < 0x8000_0000,
    ensures
        mp4_writer::words(indexed::offset_words(version, pairs)).len() >= 8,
        tables::ctts_table(mp4_writer::words(indexed::offset_words(version, pairs))) == Seq::new(
            pairs.len(),
            |i: int| (pairs[i].0, pairs[i].1 as i32),
        ),
{
    let ws = indexed::offset_words(version, pairs);
    let data = mp4_writer::words(ws);
    mp4_writer::lemma_words(ws);
    assert(bytes::be32(data, 4 * 1int) == ws[1]);
    let found = tables::ctts_table(data);
    assert(found.len() == pairs.len());
    assert forall|i: int| 0 <= i < pairs.len() implies found[i] == (
        pairs[i].0,
        pairs[i].1 as i32,
    ) by {
        assert(ws[2 + 2 * i] == pairs[i].0);
        assert(ws[3 + 2 * i] == indexed::offset_word(pairs[i].1));
        assert(4 * (2 + 2 * i) == 8 + 8 * i);
        assert(4 * (3 + 2 * i) == 12 + 8 * i);
    }
    assert(found =~= Seq::new(pairs.len(), |i: int| (pairs[i].0, pairs[i].1 as i32)));
}

proof fn lemma_plain_places(t: WrittenTrack, w: WrittenTables)
    requires
        boxed::holds_track(t),
        indexed::can_write_tables(w),
        indexed::holds_tables(t.stbl, w),
    ensures
        tables::trak_offsets(writing::laid_out(t.trak)) == w.chunks,
{
    lemma_plain_parts(t);
    boxed::lemma_sample_types();
    if w.wide {
        boxed::law_first_box_is_found(t.stbl, boxed::four('s', 't', 'c', 'o'), Seq::empty());
        boxed::law_first_box_is_found(
            t.stbl,
            boxed::four('c', 'o', '6', '4'),
            mp4_writer::words(mp4_writer::co64_words(w.chunks)),
        );
        writing::law_co64_reads_back(w.chunks);
    } else {
        boxed::law_first_box_is_found(
            t.stbl,
            boxed::four('s', 't', 'c', 'o'),
            mp4_writer::words(mp4_writer::stco_words(w.chunks)),
        );
        writing::law_stco_reads_back(w.chunks);
    }
}

/// The composition offsets of a table, as 32-bit numbers.
pub open spec fn plain_offsets(w: WrittenTables) -> Option<Seq<(u32, i32)>> {
    match w.shown {
        Some((version, pairs)) => Some(
            Seq::new(pairs.len(), |i: int| (pairs[i].0, pairs[i].1 as i32)),
        ),
        None => None,
    }
}

proof fn lemma_plain_shown(t: WrittenTrack, w: WrittenTables)
    requires
        boxed::holds_track(t),
        indexed::can_write_tables(w),
        indexed::holds_tables(t.stbl, w),
        w.shown matches Some((version, pairs)) ==> forall|i: int|
            0 <= i < pairs.len() ==> (#[trigger] pairs[i]).1 < 0x8000_0000,
    ensures
        tables::trak_ctts(writing::laid_out(t.trak)) == plain_offsets(w),
{
    lemma_plain_parts(t);
    boxed::lemma_sample_types();
    match w.shown {
        Some((version, pairs)) => {
            boxed::law_first_box_is_found(
                t.stbl,
                boxed::four('c', 't', 't', 's'),
                mp4_writer::words(indexed::offset_words(version, pairs)),
            );
            lemma_plain_offsets(version, pairs);
        },
        None => {
            boxed::law_first_box_is_found(t.stbl, boxed::four('c', 't', 't', 's'), Seq::empty());
        },
    }
}

/// The tables of a written track are read back: its timescale, the sizes and the
/// durations of its samples, where its chunks lie and how many samples they
/// hold, and the composition offsets, where there are any.
#[verifier::spinoff_prover]
#[verifier::rlimit(40)]
pub proof fn law_plain_tables_read_back(t: WrittenTrack, w: WrittenTables)
    requires
        boxed::holds_track(t),
        t.media.version == 0,
        indexed::can_write_tables(w),
        indexed::holds_tables(t.stbl, w),
        w.shown matches Some((version, pairs)) ==> forall|i: int|
            0 <= i < pairs.len() ==> (#[trigger] pairs[i]).1 < 0x8000_0000,
    ensures
        tables::trak_tables(writing::laid_out(t.trak)) == Some(
            tables::TablesView {
                timescale: t.media.timescale,
                sizes: w.sizes,
                offsets: w.chunks,
                timing: w.timing,
                stsc: Seq::new(
                    w.stsc.len(),
                    |i: int| (w.stsc[i].first_chunk, w.stsc[i].samples_per_chunk),
                ),
                ctts: plain_offsets(w),
            },
        ),
{
    lemma_plain_parts(t);
    lemma_plain_places(t, w);
    lemma_plain_shown(t, w);
    boxed::lemma_sample_types();
    boxed::law_first_box_is_found(
        t.stbl,
        boxed::four('s', 't', 't', 's'),
        mp4_writer::words(mp4_writer::stts_words(w.timing)),
    );
    boxed::law_first_box_is_found(
        t.stbl,
        boxed::four('s', 't', 's', 'z'),
        mp4_writer::words(mp4_writer::stsz_words(w.sizes)),
    );
    boxed::law_first_box_is_found(
        t.stbl,
        boxed::four('s', 't', 's', 'c'),
        mp4_writer::words(indexed::chunk_words(w.stsc)),
    );
    lemma_plain_runs(w.timing);
    lemma_plain_chunk_runs(w.stsc);
    writing::law_stsz_reads_back(w.sizes);
    let mdhd = boxed::written_media(t.media);
    assert(mdhd.subrange(12, 16) =~= bytes::be32_bytes(t.media.timescale));
    bytes::lemma_be32_roundtrip(mdhd, 12, t.media.timescale);
}

/// The sync samples of a written track are read back.
pub proof fn law_plain_sync_samples_read_back(t: WrittenTrack, w: WrittenTables)
    requires
        boxed::holds_track(t),
        indexed::can_write_tables(w),
        indexed::holds_tables(t.stbl, w),
    ensures
        tables::trak_sync_samples(writing::laid_out(t.trak)) == writing::sync_of(w.sync),
{
    lemma_plain_parts(t);
    boxed::lemma_sample_types();
    match w.sync {
        Some(list) => {
            boxed::law_first_box_is_found(
                t.stbl,
                boxed::four('s', 't', 's', 's'),
                mp4_writer::words(mp4_writer::stss_words(list)),
            );
            writing::law_stss_reads_back(list);
        },
        None => {
            boxed::law_first_box_is_found(t.stbl, boxed::four('s', 't', 's', 's'), Seq::empty());
        },
    }
}

} // verus!
