//! What the index makes of written movies.

use vstd::prelude::*;
use super::super::atoms::sample_timing;
use super::super::atoms::sample_timing::CompositionOffset;
use super::super::atoms::samples;
use super::super::atoms::samples::StscEntry;
use super::super::atoms::validate;
use super::super::laws;
use super::super::laws::WrittenTrack;
use super::index;
use super::index::VideoTrack;
use super::request;
use super::tables;
use crate::bytes;
use crate::errors;
use crate::helpers::runs;
use crate::helpers::timing;
use crate::helpers::Mp4Box;
use crate::mp4_writer;
use crate::mp4_writer::laws as writing;
use crate::tags::Tag;

verus! {

// --------------------
// Sample tables
// --------------------

/// The sample tables of a track to be written.
pub struct WrittenTables {
    /// How many samples last how long.
    pub timing: Seq<(u32, u32)>,
    /// How many samples are shown how much later than they are decoded, and the
    /// version of the table that tells so.
    pub shown: Option<(u8, Seq<(u32, i64)>)>,
    pub sizes: Seq<u32>,
    pub stsc: Seq<StscEntry>,
    /// Where the chunks lie.
    pub chunks: Seq<u64>,
    /// Whether the places of the chunks are written with 64 bits.
    pub wide: bool,
    pub sync: Option<Seq<u32>>,
    /// The first bytes of the sample description box.
    pub start: Seq<u8>,
    /// The sample entries.
    pub entries: Seq<(Seq<u8>, Seq<u8>)>,
}

/// The word of a composition offset.
pub open spec fn offset_word(v: i64) -> u32 {
    if v >= 0 {
        v as u32
    } else {
        (v + 0x1_0000_0000) as u32
    }
}

/// The words of a `ctts`.
pub open spec fn offset_words(version: u8, pairs: Seq<(u32, i64)>) -> Seq<u32> {
    seq![(version * 0x100_0000) as u32, pairs.len() as u32] + Seq::new(
        2 * pairs.len(),
        |k: int|
            if k % 2 == 0 {
                pairs[k / 2].0
            } else {
                offset_word(pairs[k / 2].1)
            },
    )
}

/// The words of an `stsc`.
pub open spec fn chunk_words(list: Seq<StscEntry>) -> Seq<u32> {
    seq![0u32, list.len() as u32] + Seq::new(
        3 * list.len(),
        |k: int|
            if k % 3 == 0 {
                list[k / 3].first_chunk
            } else if k % 3 == 1 {
                list[k / 3].samples_per_chunk
            } else {
                list[k / 3].sample_description_index
            },
    )
}

/// Whether the offsets of a `ctts` fit its version: unsigned numbers in version
/// 0, signed ones in version 1.
pub open spec fn fits_version(version: u8, pairs: Seq<(u32, i64)>) -> bool {
    &&& version <= 1
    &&& pairs.len() <= 0x1000_0000
    &&& forall|i: int|
        0 <= i < pairs.len() ==> (if version == 0 {
            0 <= (#[trigger] pairs[i]).1 <= 0xffff_ffff
        } else {
            -0x8000_0000 <= pairs[i].1 < 0x8000_0000
        })
}

/// Whether the tables of a track can be written, and agree: they tell as many
/// durations, composition offsets and sizes, and the chunks hold as many samples.
pub open spec fn can_write_tables(w: WrittenTables) -> bool {
    &&& 0 < w.sizes.len() <= 0x1000_0000
    &&& w.timing.len() <= 0x1000_0000
    &&& runs::run_total(w.timing) == w.sizes.len()
    &&& w.shown matches Some((version, pairs)) ==> fits_version(version, pairs) && runs::run_total(
        pairs,
    ) == w.sizes.len()
    &&& w.stsc.len() <= 0x1000_0000
    &&& samples::is_ordered(w.stsc)
    &&& samples::starts_at_first_chunk(w.stsc, w.chunks.len() as int)
    &&& samples::runs_ok(w.stsc, w.chunks.len() as int + 1, w.stsc.len() as int)
    &&& samples::samples_before(w.stsc, w.chunks.len() as int + 1, w.stsc.len() as int)
        == w.sizes.len()
    &&& w.chunks.len() <= 0x1000_0000
    &&& w.wide || mp4_writer::fits32(w.chunks)
    &&& w.sync matches Some(list) ==> 0 < list.len() <= 0x1000_0000 && list[0] == 1
        && samples::is_increasing(list) && list.last() <= w.sizes.len()
    &&& w.start.len() == 4
    &&& 0 < w.entries.len() <= 0x1000_0000
    &&& writing::fits_headers(w.entries)
    &&& forall|k: int| 0 <= k < w.entries.len() ==> !tables::oversized(#[trigger] w.entries[k])
    &&& forall|k: int|
        0 <= k < w.stsc.len() ==> (#[trigger] w.stsc[k]).sample_description_index
            <= w.entries.len()
}

/// Whether the boxes of a sample table hold the tables, in any order and among
/// any others.
pub open spec fn holds_tables(stbl: Seq<(Seq<u8>, Seq<u8>)>, w: WrittenTables) -> bool {
    &&& writing::fits_headers(stbl)
    &&& laws::first_holds(
        stbl,
        laws::four('s', 't', 't', 's'),
        mp4_writer::words(mp4_writer::stts_words(w.timing)),
    )
    &&& match w.shown {
        Some((version, pairs)) => laws::first_holds(
            stbl,
            laws::four('c', 't', 't', 's'),
            mp4_writer::words(offset_words(version, pairs)),
        ),
        None => laws::has_no(stbl, laws::four('c', 't', 't', 's')),
    }
    &&& laws::first_holds(
        stbl,
        laws::four('s', 't', 's', 'z'),
        mp4_writer::words(mp4_writer::stsz_words(w.sizes)),
    )
    &&& laws::first_holds(
        stbl,
        laws::four('s', 't', 's', 'c'),
        mp4_writer::words(chunk_words(w.stsc)),
    )
    &&& if w.wide {
        laws::has_no(stbl, laws::four('s', 't', 'c', 'o')) && laws::first_holds(
            stbl,
            laws::four('c', 'o', '6', '4'),
            mp4_writer::words(mp4_writer::co64_words(w.chunks)),
        )
    } else {
        laws::first_holds(
            stbl,
            laws::four('s', 't', 'c', 'o'),
            mp4_writer::words(mp4_writer::stco_words(w.chunks)),
        )
    }
    &&& match w.sync {
        Some(list) => laws::first_holds(
            stbl,
            laws::four('s', 't', 's', 's'),
            mp4_writer::words(mp4_writer::stss_words(list)),
        ),
        None => laws::has_no(stbl, laws::four('s', 't', 's', 's')),
    }
    &&& laws::first_holds(
        stbl,
        laws::four('s', 't', 's', 'd'),
        w.start + bytes::be32_bytes(w.entries.len() as u32) + writing::laid_out(w.entries),
    )
}

/// The durations of samples are read back.
pub proof fn law_durations_read_back(pairs: Seq<(u32, u32)>)
    requires
        pairs.len() <= 0x1000_0000,
        runs::run_total(pairs) <= u32::MAX,
    ensures
        ({
            let data = mp4_writer::words(mp4_writer::stts_words(pairs));
            &&& sample_timing::stts_runs(data) == Some(pairs)
            &&& sample_timing::stts_samples(data) == Some(runs::run_total(pairs) as u32)
        }),
{
    let ws = mp4_writer::stts_words(pairs);
    let data = mp4_writer::words(ws);
    mp4_writer::lemma_words(ws);
    assert(bytes::be32(data, 4 * 1int) == ws[1]);
    assert forall|i: int| 0 <= i < pairs.len() implies bytes::be32(data, 8 + 8 * i) == pairs[i].0
        && bytes::be32(data, 12 + 8 * i) == pairs[i].1 by {
        assert(ws[2 + 2 * i] == pairs[i].0);
        assert(ws[3 + 2 * i] == pairs[i].1);
        assert(4 * (2 + 2 * i) == 8 + 8 * i);
        assert(4 * (3 + 2 * i) == 12 + 8 * i);
    }
    assert(sample_timing::stts_runs(data)->0 =~= pairs);
    lemma_counted_samples(data, pairs, pairs.len());
    assert(pairs.take(pairs.len() as int) =~= pairs);
}

proof fn lemma_counted_samples(data: Seq<u8>, pairs: Seq<(u32, u32)>, n: nat)
    requires
        n <= pairs.len(),
        forall|i: int| 0 <= i < pairs.len() ==> bytes::be32(data, 8 + 8 * i) == (
        #[trigger] pairs[i]).0,
    ensures
        sample_timing::counted_samples(data, n) == runs::run_total(pairs.take(n as int)),
    decreases n,
{
    if n > 0 {
        lemma_counted_samples(data, pairs, (n - 1) as nat);
        assert(pairs.take(n as int).drop_last() =~= pairs.take(n - 1));
        assert(pairs.take(n as int).last() == pairs[n - 1]);
    }
}

/// The composition offsets of samples are read back in both versions, negative
/// ones too.
pub proof fn law_composition_offsets_read_back(version: u8, pairs: Seq<(u32, i64)>)
    requires
        fits_version(version, pairs),
    ensures
        sample_timing::ctts_offsets(mp4_writer::words(offset_words(version, pairs))) matches Some(
            list,
        ) && sample_timing::offset_runs(list) == pairs,
{
    let ws = offset_words(version, pairs);
    let data = mp4_writer::words(ws);
    mp4_writer::lemma_words(ws);
    assert(bytes::be32(data, 4 * 0int) == ws[0]);
    assert(bytes::be32(data, 4 * 1int) == ws[1]);
    assert(data[0] == version) by {
        assert(bytes::be32(data, 0) == version * 0x100_0000);
    }
    let list = sample_timing::ctts_offsets(data)->0;
    assert(list.len() == pairs.len());
    assert forall|i: int| 0 <= i < pairs.len() implies list[i] == (CompositionOffset {
        sample_count: pairs[i].0,
        sample_offset: pairs[i].1,
    }) by {
        assert(ws[2 + 2 * i] == pairs[i].0);
        assert(ws[3 + 2 * i] == offset_word(pairs[i].1));
        assert(4 * (2 + 2 * i) == 8 + 8 * i);
        assert(4 * (3 + 2 * i) == 12 + 8 * i);
    }
    assert(sample_timing::offset_runs(list) =~= pairs);
}

/// The sizes of samples are read back, each one for itself or one for all.
pub proof fn law_sizes_read_back(sizes: Seq<u32>, fixed: u32, count: u32)
    requires
        sizes.len() <= 0x1000_0000,
        fixed != 0,
    ensures
        samples::stsz_sizes(mp4_writer::words(mp4_writer::stsz_words(sizes))) == Some(
            samples::SizesView { fixed: 0, sizes, count: sizes.len() as u32 },
        ),
        samples::stsz_sizes(mp4_writer::words(seq![0u32, fixed, count])) matches Some(v) && v.count
            == count && forall|i: int| 1 <= i <= count ==> #[trigger] v.size_of(i) == fixed,
{
    let ws = mp4_writer::stsz_words(sizes);
    let data = mp4_writer::words(ws);
    mp4_writer::lemma_words(ws);
    assert(bytes::be32(data, 4 * 1int) == ws[1]);
    assert(bytes::be32(data, 4 * 2int) == ws[2]);
    assert forall|i: int| 0 <= i < sizes.len() implies bytes::be32(data, 12 + 4 * i)
        == sizes[i] by {
        assert(ws[3 + i] == sizes[i]);
        assert(4 * (3 + i) == 12 + 4 * i);
    }
    assert(samples::stsz_sizes(data)->0.sizes =~= sizes);
    let vs = seq![0u32, fixed, count];
    let one = mp4_writer::words(vs);
    mp4_writer::lemma_words(vs);
    assert(bytes::be32(one, 4 * 1int) == vs[1]);
    assert(bytes::be32(one, 4 * 2int) == vs[2]);
}

/// How many samples the chunks hold is read back.
pub proof fn law_chunk_runs_read_back(list: Seq<StscEntry>)
    requires
        list.len() <= 0x1000_0000,
        samples::is_ordered(list),
    ensures
        samples::stsc_entries(mp4_writer::words(chunk_words(list))) == Some(list),
{
    let ws = chunk_words(list);
    let data = mp4_writer::words(ws);
    mp4_writer::lemma_words(ws);
    assert(bytes::be32(data, 4 * 1int) == ws[1]);
    let found = Seq::new(list.len(), |i: int| samples::stsc_entry(data, i));
    assert forall|i: int| 0 <= i < list.len() implies found[i] == list[i] by {
        assert(ws[2 + 3 * i] == list[i].first_chunk);
        assert(ws[3 + 3 * i] == list[i].samples_per_chunk);
        assert(ws[4 + 3 * i] == list[i].sample_description_index);
        assert(4 * (2 + 3 * i) == 8 + 12 * i);
        assert(4 * (3 + 3 * i) == 12 + 12 * i);
        assert(4 * (4 + 3 * i) == 16 + 12 * i);
    }
    assert(found =~= list);
}

/// Sync samples are read back.
pub proof fn law_sync_samples_read_back(list: Seq<u32>)
    requires
        list.len() <= 0x1000_0000,
        samples::is_increasing(list),
    ensures
        samples::sync_samples_of(mp4_writer::words(mp4_writer::stss_words(list))) == Some(list),
{
    let ws = mp4_writer::stss_words(list);
    let data = mp4_writer::words(ws);
    mp4_writer::lemma_words(ws);
    assert(bytes::be32(data, 4 * 1int) == ws[1]);
    assert forall|i: int| 0 <= i < list.len() implies bytes::be32(data, 8 + 4 * i) == list[i] by {
        assert(ws[2 + i] == list[i]);
        assert(4 * (2 + i) == 8 + 4 * i);
    }
    assert(samples::words_of(data)->0 =~= list);
}

proof fn lemma_short_places(chunks: Seq<u64>)
    requires
        chunks.len() <= 0x1000_0000,
        mp4_writer::fits32(chunks),
    ensures
        samples::words_of(mp4_writer::words(mp4_writer::stco_words(chunks))) matches Some(list)
            && Seq::new(list.len(), |i: int| list[i] as u64) == chunks,
{
    let ws = mp4_writer::stco_words(chunks);
    let data = mp4_writer::words(ws);
    mp4_writer::lemma_words(ws);
    assert(bytes::be32(data, 4 * 1int) == ws[1]);
    let list = samples::words_of(data)->0;
    assert forall|i: int| 0 <= i < chunks.len() implies list[i] as u64 == chunks[i] by {
        assert(ws[2 + i] == chunks[i] as u32);
        assert(4 * (2 + i) == 8 + 4 * i);
    }
    assert(Seq::new(list.len(), |i: int| list[i] as u64) =~= chunks);
}

proof fn lemma_wide_places(chunks: Seq<u64>)
    requires
        chunks.len() <= 0x1000_0000,
    ensures
        samples::numbers_of(mp4_writer::words(mp4_writer::co64_words(chunks))) == Some(chunks),
{
    let ws = mp4_writer::co64_words(chunks);
    let data = mp4_writer::words(ws);
    mp4_writer::lemma_words(ws);
    assert(bytes::be32(data, 4 * 1int) == ws[1]);
    let list = samples::numbers_of(data)->0;
    assert forall|i: int| 0 <= i < chunks.len() implies list[i] == chunks[i] by {
        assert(ws[2 + 2 * i] == (chunks[i] / 0x1_0000_0000) as u32);
        assert(ws[3 + 2 * i] == (chunks[i] % 0x1_0000_0000) as u32);
        assert(4 * (2 + 2 * i) == 8 + 8 * i);
        assert(4 * (3 + 2 * i) == 8 + 8 * i + 4);
    }
    assert(list =~= chunks);
}

/// The places of chunks are read back, with 32 and with 64 bits.
pub proof fn law_chunk_places_read_back(stbl: Seq<(Seq<u8>, Seq<u8>)>, w: WrittenTables)
    requires
        can_write_tables(w),
        holds_tables(stbl, w),
    ensures
        samples::chunk_offsets_of(writing::laid_out(stbl)) == Some(w.chunks),
{
    laws::lemma_sample_types();
    if w.wide {
        lemma_wide_places(w.chunks);
        laws::law_first_box_is_found(stbl, laws::four('s', 't', 'c', 'o'), Seq::empty());
        laws::law_first_box_is_found(
            stbl,
            laws::four('c', 'o', '6', '4'),
            mp4_writer::words(mp4_writer::co64_words(w.chunks)),
        );
    } else {
        lemma_short_places(w.chunks);
        laws::law_first_box_is_found(
            stbl,
            laws::four('s', 't', 'c', 'o'),
            mp4_writer::words(mp4_writer::stco_words(w.chunks)),
        );
    }
}

proof fn lemma_descriptions(stbl: Seq<(Seq<u8>, Seq<u8>)>, w: WrittenTables)
    requires
        can_write_tables(w),
        holds_tables(stbl, w),
    ensures
        tables::part(writing::laid_out(stbl), Mp4Box::Stsd) matches Some(stsd)
            && tables::avc_descriptions(stsd) == Ok::<_, errors::ErrorView>(
            Some(
                Seq::new(w.entries.len(), |k: int| tables::description_config(w.entries[k])),
            ),
        ),
{
    let n = w.entries.len() as u32;
    let stsd = w.start + bytes::be32_bytes(n) + writing::laid_out(w.entries);
    laws::lemma_sample_types();
    laws::law_first_box_is_found(stbl, laws::four('s', 't', 's', 'd'), stsd);
    assert(stsd.subrange(4, 8) =~= bytes::be32_bytes(n));
    bytes::lemma_be32_roundtrip(stsd, 4, n);
    assert(stsd.skip(8) =~= writing::laid_out(w.entries));
    laws::law_laid_out_boxes_are_walked(w.entries);
    lemma_room(w.entries);
    assert(w.entries.take(n as int) =~= w.entries);
    assert(tables::described(stsd, n as nat) == w.entries);
}

proof fn lemma_room(list: Seq<(Seq<u8>, Seq<u8>)>)
    requires
        writing::fits_headers(list),
    ensures
        writing::laid_out(list).len() >= 8 * list.len(),
    decreases list.len(),
{
    if list.len() > 0 {
        let rest = list.skip(1);
        assert forall|i: int| 0 <= i < rest.len() implies (#[trigger] rest[i]).0.len() == 4
            && rest[i].1.len() + 8 <= u32::MAX by {
            assert(rest[i] == list[i + 1]);
        }
        lemma_room(rest);
    }
}

/// The tables that a reader finds in a written sample table.
pub open spec fn found_tables(w: WrittenTables, t: tables::VideoTablesView) -> bool {
    &&& sample_timing::stts_runs(t.stts) == Some(w.timing)
    &&& match w.shown {
        Some((version, pairs)) => t.offsets matches Some(list) && sample_timing::offset_runs(list)
            == pairs,
        None => t.offsets is None,
    }
    &&& t.sizes == samples::SizesView { fixed: 0, sizes: w.sizes, count: w.sizes.len() as u32 }
    &&& t.stsc == w.stsc
    &&& t.chunks == w.chunks
    &&& t.sync == w.sync
    &&& t.configs == Seq::new(w.entries.len(), |k: int| tables::description_config(w.entries[k]))
}

#[verifier::spinoff_prover]
#[verifier::rlimit(40)]
proof fn lemma_offsets_found(stbl: Seq<(Seq<u8>, Seq<u8>)>, w: WrittenTables)
    requires
        can_write_tables(w),
        holds_tables(stbl, w),
    ensures
        match w.shown {
            Some((version, pairs)) => tables::present_offsets(writing::laid_out(stbl)) matches Some(
                Some(list),
            ) && sample_timing::offset_runs(list) == pairs,
            None => tables::present_offsets(writing::laid_out(stbl)) == Some(
                None::<Seq<CompositionOffset>>,
            ),
        },
{
    laws::lemma_sample_types();
    match w.shown {
        Some((version, pairs)) => {
            law_composition_offsets_read_back(version, pairs);
            laws::law_first_box_is_found(
                stbl,
                laws::four('c', 't', 't', 's'),
                mp4_writer::words(offset_words(version, pairs)),
            );
        },
        None => {
            laws::law_first_box_is_found(stbl, laws::four('c', 't', 't', 's'), Seq::empty());
        },
    }
}

proof fn lemma_sync_found(stbl: Seq<(Seq<u8>, Seq<u8>)>, w: WrittenTables)
    requires
        can_write_tables(w),
        holds_tables(stbl, w),
    ensures
        tables::present_sync(writing::laid_out(stbl)) == Some(w.sync),
{
    laws::lemma_sample_types();
    match w.sync {
        Some(list) => {
            law_sync_samples_read_back(list);
            laws::law_first_box_is_found(
                stbl,
                laws::four('s', 't', 's', 's'),
                mp4_writer::words(mp4_writer::stss_words(list)),
            );
        },
        None => {
            laws::law_first_box_is_found(stbl, laws::four('s', 't', 's', 's'), Seq::empty());
        },
    }
}

proof fn lemma_agreeing(w: WrittenTables, t: tables::VideoTablesView)
    requires
        can_write_tables(w),
        found_tables(w, t),
        t.stts == mp4_writer::words(mp4_writer::stts_words(w.timing)),
    ensures
        t.agree(),
{
    law_durations_read_back(w.timing);
    if let Some(list) = w.sync {
        assert forall|i: int| 0 <= i < list.len() implies 1 <= #[trigger] list[i]
            <= w.sizes.len() by {
            assert(list[0] <= list[i] && list[i] <= list.last());
        }
    }
    assert(validate::descriptions_in_range(t.stsc, t.configs.len() as int));
}

/// The tables of a written sample table are found.
#[verifier::spinoff_prover]
#[verifier::rlimit(40)]
pub proof fn law_written_tables_are_found(stbl: Seq<(Seq<u8>, Seq<u8>)>, w: WrittenTables)
    requires
        can_write_tables(w),
        holds_tables(stbl, w),
    ensures
        tables::video_tables(writing::laid_out(stbl)) matches Ok(t) && found_tables(w, t),
{
    let data = writing::laid_out(stbl);
    laws::lemma_sample_types();
    laws::law_first_box_is_found(
        stbl,
        laws::four('s', 't', 't', 's'),
        mp4_writer::words(mp4_writer::stts_words(w.timing)),
    );
    laws::law_first_box_is_found(
        stbl,
        laws::four('s', 't', 's', 'z'),
        mp4_writer::words(mp4_writer::stsz_words(w.sizes)),
    );
    laws::law_first_box_is_found(
        stbl,
        laws::four('s', 't', 's', 'c'),
        mp4_writer::words(chunk_words(w.stsc)),
    );
    law_durations_read_back(w.timing);
    law_sizes_read_back(w.sizes, 1, 0);
    law_chunk_runs_read_back(w.stsc);
    law_chunk_places_read_back(stbl, w);
    lemma_offsets_found(stbl, w);
    lemma_sync_found(stbl, w);
    lemma_descriptions(stbl, w);
    let t = tables::VideoTablesView {
        stts: mp4_writer::words(mp4_writer::stts_words(w.timing)),
        offsets: tables::present_offsets(data)->0,
        sizes: samples::SizesView { fixed: 0, sizes: w.sizes, count: w.sizes.len() as u32 },
        stsc: w.stsc,
        chunks: w.chunks,
        sync: w.sync,
        configs: Seq::new(w.entries.len(), |k: int| tables::description_config(w.entries[k])),
    };
    lemma_agreeing(w, t);
}

// --------------------
// Edit lists
// --------------------

/// The one edit of a track to be written.
pub struct WrittenEdit {
    pub version: u8,
    pub duration: u64,
    pub media_time: i64,
}

/// Whether an edit can be written, and starts in the media or with a gap.
pub open spec fn can_write_edit(e: WrittenEdit) -> bool {
    &&& e.version <= 1
    &&& e.duration > 0
    &&& e.media_time >= -1
    &&& e.version == 0 ==> e.duration <= u32::MAX && e.media_time <= 0x7fff_ffff
}

/// The words of an `elst` with one edit.
pub open spec fn edit_words(e: WrittenEdit) -> Seq<u32> {
    if e.version == 0 {
        seq![
            0,
            1,
            e.duration as u32,
            if e.media_time < 0 {
                0xffff_ffff
            } else {
                e.media_time as u32
            },
            0x1_0000,
        ]
    } else {
        seq![
            0x100_0000,
            1,
            (e.duration / 0x1_0000_0000) as u32,
            (e.duration % 0x1_0000_0000) as u32,
            if e.media_time < 0 {
                0xffff_ffff
            } else {
                (e.media_time as u64 / 0x1_0000_0000) as u32
            },
            if e.media_time < 0 {
                0xffff_ffff
            } else {
                (e.media_time as u64 % 0x1_0000_0000) as u32
            },
            0x1_0000,
        ]
    }
}

/// How much earlier than in the media an edit shows its samples.
pub open spec fn edit_shift(e: Option<WrittenEdit>) -> int {
    match e {
        Some(edit) => if edit.media_time < 0 {
            0
        } else {
            edit.media_time as int
        },
        None => 0,
    }
}

/// The start of an edit in the media is read back in both versions.
pub proof fn law_edit_reads_back(e: WrittenEdit)
    requires
        can_write_edit(e),
    ensures
        tables::edit_media_time(mp4_writer::words(edit_words(e))) matches Some(t) && t
            == edit_shift(Some(e)),
{
    let ws = edit_words(e);
    let data = mp4_writer::words(ws);
    mp4_writer::lemma_words(ws);
    assert(bytes::be32(data, 4 * 0int) == ws[0]);
    assert(bytes::be32(data, 4 * 1int) == ws[1]);
    assert(bytes::be32(data, 4 * 2int) == ws[2]);
    assert(bytes::be32(data, 4 * 3int) == ws[3]);
    assert(bytes::be32(data, 4 * 4int) == ws[4]);
    assert(data[0] == e.version) by {
        assert(bytes::be32(data, 0) == e.version * 0x100_0000);
    }
    if e.version == 1 {
        assert(bytes::be32(data, 4 * 5int) == ws[5]);
        assert(bytes::be32(data, 4 * 6int) == ws[6]);
        assert(bytes::be64(data, 8) == e.duration);
    }
}

/// Whether the boxes of a track hold an edit list, or none.
pub open spec fn holds_edit(
    trak: Seq<(Seq<u8>, Seq<u8>)>,
    edts: Seq<(Seq<u8>, Seq<u8>)>,
    e: Option<WrittenEdit>,
) -> bool {
    match e {
        Some(edit) => {
            &&& can_write_edit(edit)
            &&& writing::fits_headers(edts)
            &&& laws::first_holds(trak, laws::four('e', 'd', 't', 's'), writing::laid_out(edts))
            &&& laws::first_holds(
                edts,
                laws::four('e', 'l', 's', 't'),
                mp4_writer::words(edit_words(edit)),
            )
        },
        None => laws::has_no(trak, laws::four('e', 'd', 't', 's')),
    }
}

proof fn lemma_edit_found(
    trak: Seq<(Seq<u8>, Seq<u8>)>,
    edts: Seq<(Seq<u8>, Seq<u8>)>,
    e: Option<WrittenEdit>,
)
    requires
        writing::fits_headers(trak),
        holds_edit(trak, edts, e),
    ensures
        index::trak_edits(writing::laid_out(trak)) == (match e {
            Some(edit) => Some(mp4_writer::words(edit_words(edit))),
            None => None,
        }),
{
    assert(Tag::Edts.code() =~= laws::four('e', 'd', 't', 's'));
    assert(Tag::Elst.code() =~= laws::four('e', 'l', 's', 't'));
    match e {
        Some(edit) => {
            laws::law_first_box_is_found(
                trak,
                laws::four('e', 'd', 't', 's'),
                writing::laid_out(edts),
            );
            laws::law_first_box_is_found(
                edts,
                laws::four('e', 'l', 's', 't'),
                mp4_writer::words(edit_words(edit)),
            );
        },
        None => {
            laws::law_first_box_is_found(trak, laws::four('e', 'd', 't', 's'), Seq::empty());
        },
    }
}

// --------------------
// Indices
// --------------------

/// The ticks that the first `n` samples take together.
pub open spec fn ticks_of(durations: Seq<u32>, n: int) -> int
    decreases n,
{
    if n <= 0 {
        0
    } else {
        ticks_of(durations, n - 1) + durations[n - 1]
    }
}

pub(crate) proof fn lemma_ticks_of(pairs: Seq<(u32, u32)>, i: int)
    requires
        0 <= i < runs::run_total(pairs),
    ensures
        timing::sample_start(pairs, i) == ticks_of(runs::expand(pairs), i),
    decreases i,
{
    if i == 0 {
        timing::lemma_first_start(pairs);
    } else {
        lemma_ticks_of(pairs, i - 1);
        timing::law_sample_ends_at_next_start(pairs, i - 1);
    }
}

/// Whether a timeline shows each sample at the ticks that the earlier ones
/// take, moved by the composition offset that is told for it, if any are told,
/// and back by the start of the edit.
pub open spec fn shows_samples(
    v: sample_timing::TimelineView,
    w: WrittenTables,
    e: Option<WrittenEdit>,
) -> bool {
    &&& v.count() == w.sizes.len()
    &&& forall|i: int|
        1 <= i <= w.sizes.len() ==> #[trigger] v.tick(i) == ticks_of(
            runs::expand(w.timing),
            i - 1,
        ) + (match w.shown {
            Some((version, pairs)) => runs::expand(pairs)[i - 1] as int,
            None => 0,
        }) - edit_shift(e)
}

/// The track that a reader finds in a written one.
pub open spec fn found_track(t: WrittenTrack, w: WrittenTables, e: Option<WrittenEdit>) -> VideoTrack {
    VideoTrack {
        id: t.head.id,
        timescale: t.media.timescale,
        duration: if t.media.duration == 0 {
            ticks_of(runs::expand(w.timing), w.sizes.len() as int) as u64
        } else {
            t.media.duration
        },
        presentation_offset: edit_shift(e) as i64,
    }
}

proof fn lemma_all_ticks(pairs: Seq<(u32, u32)>)
    ensures
        timing::run_ticks(pairs) == ticks_of(runs::expand(pairs), runs::run_total(pairs) as int),
{
    if runs::run_total(pairs) > 0 {
        let last = runs::run_total(pairs) - 1;
        lemma_ticks_of(pairs, last);
        timing::lemma_last_sample_end(pairs);
    } else {
        timing::lemma_first_start(pairs);
    }
}

/// The track that is found in the boxes of a written one.
#[verifier::spinoff_prover]
#[verifier::rlimit(40)]
proof fn lemma_track_found(
    t: WrittenTrack,
    w: WrittenTables,
    edts: Seq<(Seq<u8>, Seq<u8>)>,
    e: Option<WrittenEdit>,
    id: u32,
)
    requires
        laws::holds_track(t),
        t.handler == laws::four('v', 'i', 'd', 'e'),
        id == 0 || id == t.head.id,
        can_write_tables(w),
        holds_tables(t.stbl, w),
        holds_edit(t.trak, edts, e),
    ensures
        index::video_trak(writing::laid_out(t.trak), id) matches Some(Ok(found)) && found.track
            == found_track(t, w, e) && found_tables(w, found.tables),
{
    laws::lemma_track_parts(t);
    laws::law_track_head_reads_back(t.head);
    laws::law_media_head_reads_back(t.media);
    law_written_tables_are_found(t.stbl, w);
    lemma_edit_found(t.trak, edts, e);
    if let Some(edit) = e {
        law_edit_reads_back(edit);
    }
    assert(Tag::Vide.code() =~= laws::four('v', 'i', 'd', 'e'));
    lemma_all_ticks(w.timing);
    sample_timing::lemma_ticks_bound(w.timing);
    assert(timing::run_ticks(w.timing) <= 0x1000_0000 * 0xffff_ffff) by (nonlinear_arith)
        requires
            timing::run_ticks(w.timing) <= runs::run_total(w.timing) * 0xffff_ffff,
            runs::run_total(w.timing) <= 0x1000_0000,
    ;
}

/// The timeline of the tables that are found shows the samples as they were
/// written.
#[verifier::spinoff_prover]
#[verifier::rlimit(40)]
proof fn lemma_timeline(w: WrittenTables, e: Option<WrittenEdit>, found: index::FoundView)
    requires
        can_write_tables(w),
        found_tables(w, found.tables),
        found.track.presentation_offset == edit_shift(e),
    ensures
        request::timeline_of(found) matches Some(v) && shows_samples(v, w, e),
{
    let count = w.sizes.len() as u32;
    let offsets = sample_timing::effective_offsets(found.tables.offsets, count);
    if w.shown is None {
        assert(offsets.drop_last() =~= Seq::empty());
        reveal_with_fuel(runs::run_total, 2);
        reveal_with_fuel(runs::expand, 2);
        assert(runs::run_total(offsets) == count);
        assert forall|i: int| 0 <= i < count implies #[trigger] runs::expand(offsets)[i] == 0 by {
            assert(offsets.last() == (count, 0i64));
        }
    }
    let v = request::timeline_of(found)->0;
    assert forall|i: int| 1 <= i <= w.sizes.len() implies #[trigger] v.tick(i) == ticks_of(
        runs::expand(w.timing),
        i - 1,
    ) + (match w.shown {
        Some((version, pairs)) => runs::expand(pairs)[i - 1] as int,
        None => 0,
    }) - edit_shift(e) by {
        lemma_ticks_of(w.timing, i - 1);
    }
}

/// Boxes that hold no track in question are passed over.
proof fn lemma_passed_over(list: Seq<(Seq<u8>, Seq<u8>)>, k: int, id: u32)
    requires
        0 <= k < list.len(),
        list[k].0 == Mp4Box::Trak.fourcc(),
        index::video_trak(list[k].1, id) is Some,
        forall|j: int|
            0 <= j < k ==> (#[trigger] list[j]).0 != Mp4Box::Trak.fourcc() || index::video_trak(
                list[j].1,
                id,
            ) is None,
    ensures
        index::video_track_in(list, id) == (match index::video_trak(list[k].1, id)->0 {
            Ok(found) => Ok(Some(found)),
            Err(e) => Err(e),
        }),
    decreases k,
{
    if k > 0 {
        let rest = list.skip(1);
        assert(list[0].0 != Mp4Box::Trak.fourcc() || index::video_trak(list[0].1, id) is None);
        assert(rest[k - 1] == list[k]);
        assert forall|j: int| 0 <= j < k - 1 implies (#[trigger] rest[j]).0 != Mp4Box::Trak.fourcc()
            || index::video_trak(rest[j].1, id) is None by {
            assert(rest[j] == list[j + 1]);
        }
        lemma_passed_over(rest, k - 1, id);
    }
}

/// Whether a box is no video track in question: no track at all, or a written
/// track that is no video track or has another number than the one asked for.
pub open spec fn is_other(b: (Seq<u8>, Seq<u8>), id: u32) -> bool {
    b.0 != laws::four('t', 'r', 'a', 'k') || exists|t: WrittenTrack| #[trigger]
        laws::holds_track(t) && b.1 == writing::laid_out(t.trak) && (t.handler != laws::four(
            'v',
            'i',
            'd',
            'e',
        ) || (id != 0 && id != t.head.id))
}

#[verifier::spinoff_prover]
#[verifier::rlimit(40)]
proof fn lemma_other(b: (Seq<u8>, Seq<u8>), id: u32)
    requires
        is_other(b, id),
        b.0 == laws::four('t', 'r', 'a', 'k'),
    ensures
        index::video_trak(b.1, id) is None,
{
    let t = choose|t: WrittenTrack| #[trigger]
        laws::holds_track(t) && b.1 == writing::laid_out(t.trak) && (t.handler != laws::four(
            'v',
            'i',
            'd',
            'e',
        ) || (id != 0 && id != t.head.id));
    laws::lemma_track_parts(t);
    laws::law_track_head_reads_back(t.head);
    laws::law_media_head_reads_back(t.media);
    assert(Tag::Vide.code() =~= laws::four('v', 'i', 'd', 'e'));
}

/// The index of a written movie is that of its first video track with the
/// number asked for, or of its first video track. It tells the number and the
/// timescale of the track and how long it is, the sizes, the chunks and the sync
/// samples that were written, and shows each sample at its time.
#[verifier::spinoff_prover]
#[verifier::rlimit(40)]
pub proof fn law_written_movie_is_indexed(
    movie: Seq<(Seq<u8>, Seq<u8>)>,
    k: int,
    t: WrittenTrack,
    w: WrittenTables,
    edts: Seq<(Seq<u8>, Seq<u8>)>,
    e: Option<WrittenEdit>,
    id: u32,
)
    requires
        writing::fits_headers(movie),
        0 <= k < movie.len(),
        movie[k] == (laws::four('t', 'r', 'a', 'k'), writing::laid_out(t.trak)),
        forall|j: int| 0 <= j < k ==> is_other(#[trigger] movie[j], id),
        laws::holds_track(t),
        t.handler == laws::four('v', 'i', 'd', 'e'),
        id == 0 || id == t.head.id,
        can_write_tables(w),
        holds_tables(t.stbl, w),
        holds_edit(t.trak, edts, e),
    ensures
        request::index_of(writing::laid_out(movie), id) matches Ok(ix) && {
            &&& ix.track == found_track(t, w, e)
            &&& found_tables(w, ix.tables)
            &&& shows_samples(ix.timeline, w, e)
        },
{
    laws::law_laid_out_boxes_are_walked(movie);
    laws::lemma_track_types();
    lemma_track_found(t, w, edts, e, id);
    assert forall|j: int| 0 <= j < k implies (#[trigger] movie[j]).0 != Mp4Box::Trak.fourcc()
        || index::video_trak(movie[j].1, id) is None by {
        assert(is_other(movie[j], id));
        if movie[j].0 == laws::four('t', 'r', 'a', 'k') {
            lemma_other(movie[j], id);
        }
    }
    lemma_passed_over(movie, k, id);
    let found = index::video_trak(writing::laid_out(t.trak), id)->0->Ok_0;
    assert(edit_shift(e) as i64 == edit_shift(e));
    lemma_timeline(w, e, found);
}

} // verus!
