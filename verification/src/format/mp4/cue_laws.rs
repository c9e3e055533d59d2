//! When and where the cues of subtitle tracks stand.

use vstd::prelude::*;
use super::atoms::locate;
use super::atoms::sample_timing;
use super::atoms::samples;
use super::laws;
use super::laws::WrittenTrack;
use super::subtitles;
use super::thumbnails::laws as tables;
use super::thumbnails::laws::WrittenTables;
use crate::boxes;
use crate::helpers::runs;
use crate::helpers::timing;
use crate::mp4_writer;
use crate::mp4_writer::laws as writing;
use crate::text;
use crate::time;

verus! {

/// Whether a time in nanoseconds is when a tick falls, rounded down.
pub open spec fn falls_at(nanos: nat, ticks: int, timescale: u32) -> bool {
    nanos * timescale <= ticks * 1_000_000_000 < (nanos + 1) * timescale
}

proof fn lemma_span(ticks: u64, timescale: u32)
    requires
        timescale > 0,
    ensures
        falls_at(time::span_of(ticks, timescale), ticks as int, timescale),
{
    let n = ticks * 1_000_000_000int;
    let d = timescale as int;
    vstd::arithmetic::div_mod::lemma_fundamental_div_mod(n, d);
    vstd::arithmetic::div_mod::lemma_mod_bound(n, d);
    let q = n / d;
    assert(d * q == q * d) by (nonlinear_arith);
    assert((q + 1) * d == q * d + d) by (nonlinear_arith);
}

/// A cue lasts from the tick at which its sample starts, after all those before
/// it, to the tick at which the sample is over.
pub proof fn law_cue_lasts_as_its_sample(pairs: Seq<(u32, u32)>, timescale: u32, i: int)
    requires
        timescale > 0,
        0 <= i < runs::run_total(pairs) <= subtitles::MAX_SUBTITLE_SAMPLES,
    ensures
        ({
            let slot = subtitles::slot_of(pairs, timescale, i);
            let durations = runs::expand(pairs);
            &&& slot.sample_index == i + 1
            &&& falls_at(slot.start, tables::ticks_of(durations, i), timescale)
            &&& falls_at(slot.end, tables::ticks_of(durations, i + 1), timescale)
            &&& slot.start <= slot.end
        }),
{
    let durations = runs::expand(pairs);
    let start = timing::sample_start(pairs, i);
    tables::lemma_ticks_of(pairs, i);
    timing::lemma_start_le_ticks(pairs, i);
    sample_timing::lemma_ticks_bound(pairs);
    assert(timing::run_ticks(pairs) <= 200000 * 0xffff_ffff) by (nonlinear_arith)
        requires
            timing::run_ticks(pairs) <= runs::run_total(pairs) * 0xffff_ffff,
            runs::run_total(pairs) <= 200000,
    ;
    runs::lemma_expand_len(pairs);
    let end = (start + durations[i]) as u64;
    assert(tables::ticks_of(durations, i + 1) == start + durations[i]);
    lemma_span(start as u64, timescale);
    lemma_span(end, timescale);
    let a = start as int * 1_000_000_000;
    let b = end as int * 1_000_000_000;
    vstd::arithmetic::div_mod::lemma_div_is_ordered(a, b, timescale as int);
}

/// Without a range every sample has a slot, in order; with one the slots keep
/// the order of the samples.
pub proof fn law_slots_are_in_order(
    pairs: Seq<(u32, u32)>,
    timescale: u32,
    range: Option<(nat, nat)>,
    n: int,
)
    requires
        0 <= n <= u32::MAX,
    ensures
        range is None ==> subtitles::slots_below(pairs, timescale, range, n) == Seq::new(
            n as nat,
            |k: int| subtitles::slot_of(pairs, timescale, k),
        ),
        forall|a: int, b: int|
            0 <= a < b < subtitles::slots_below(pairs, timescale, range, n).len() ==> (
            #[trigger] subtitles::slots_below(pairs, timescale, range, n)[a]).sample_index < (
            #[trigger] subtitles::slots_below(pairs, timescale, range, n)[b]).sample_index,
        forall|a: int|
            0 <= a < subtitles::slots_below(pairs, timescale, range, n).len() ==> 1 <= (
            #[trigger] subtitles::slots_below(pairs, timescale, range, n)[a]).sample_index <= n
                && subtitles::slots_below(pairs, timescale, range, n)[a] == subtitles::slot_of(
                pairs,
                timescale,
                subtitles::slots_below(pairs, timescale, range, n)[a].sample_index - 1,
            ),
    decreases n,
{
    if n > 0 {
        law_slots_are_in_order(pairs, timescale, range, n - 1);
        let before = subtitles::slots_below(pairs, timescale, range, n - 1);
        let now = subtitles::slots_below(pairs, timescale, range, n);
        assert forall|a: int, b: int| 0 <= a < b < now.len() implies (
        #[trigger] now[a]).sample_index < (#[trigger] now[b]).sample_index by {
            assert(now[a] == before[a]);
            if b < before.len() {
                assert(now[b] == before[b]);
            }
        }
        assert forall|a: int| 0 <= a < now.len() implies 1 <= (#[trigger] now[a]).sample_index <= n
            && now[a] == subtitles::slot_of(pairs, timescale, now[a].sample_index - 1) by {
            if a < before.len() {
                assert(now[a] == before[a]);
            }
        }
        if range is None {
            assert(now =~= Seq::new(
                n as nat,
                |k: int| subtitles::slot_of(pairs, timescale, k),
            ));
        }
    } else {
        assert(Seq::new(0, |k: int| subtitles::slot_of(pairs, timescale, k)) =~= Seq::empty());
    }
}

/// The samples among the first `n` that tell a text.
pub open spec fn telling(codec: Seq<char>, data: Seq<Seq<u8>>, n: int) -> int
    decreases n,
{
    if n <= 0 {
        0
    } else {
        telling(codec, data, n - 1) + (if subtitles::subtitle_text(codec, data[n - 1]) is Some {
            1int
        } else {
            0
        })
    }
}

/// Each sample that tells a text becomes a cue with the times of its slot and
/// that text, behind the cues of the samples before it. The others become none.
pub proof fn law_cue_keeps_its_times(
    codec: Seq<char>,
    slots: Seq<subtitles::SlotView>,
    data: Seq<Seq<u8>>,
    n: int,
    j: int,
)
    requires
        0 <= j < n,
        subtitles::subtitle_text(codec, data[j]) is Some,
    ensures
        subtitles::cues_of(codec, slots, data, n).len() == telling(codec, data, n),
        0 <= telling(codec, data, j) < telling(codec, data, n),
        ({
            let cue = subtitles::cues_of(codec, slots, data, n)[telling(codec, data, j)];
            &&& cue.start == slots[j].start
            &&& cue.end == slots[j].end
            &&& Some(cue.text) == subtitles::subtitle_text(codec, data[j])
        }),
    decreases n,
{
    lemma_cue_count(codec, slots, data, n);
    lemma_cue_count(codec, slots, data, n - 1);
    if j < n - 1 {
        law_cue_keeps_its_times(codec, slots, data, n - 1, j);
    }
}

proof fn lemma_cue_count(
    codec: Seq<char>,
    slots: Seq<subtitles::SlotView>,
    data: Seq<Seq<u8>>,
    n: int,
)
    requires
        0 <= n,
    ensures
        subtitles::cues_of(codec, slots, data, n).len() == telling(codec, data, n),
        0 <= telling(codec, data, n),
    decreases n,
{
    if n > 0 {
        lemma_cue_count(codec, slots, data, n - 1);
    }
}

/// The parts of a written track are found: its number, its timescale, its
/// duration and its language, its handler and its sample tables.
#[verifier::spinoff_prover]
#[verifier::rlimit(40)]
pub proof fn law_subtitle_parts_are_found(t: WrittenTrack)
    requires
        laws::holds_track(t),
    ensures
        subtitles::trak_parts(writing::laid_out(t.trak)) matches Some(p) && {
            &&& p.tkhd.id == t.head.id
            &&& p.mdhd.timescale == t.media.timescale
            &&& p.mdhd.duration == t.media.duration
            &&& p.mdhd.language == laws::told_language(t.media.language)
            &&& p.handler == t.handler
            &&& p.stbl == Some(writing::laid_out(t.stbl))
        },
{
    laws::lemma_track_parts(t);
    laws::law_track_head_reads_back(t.head);
    laws::law_media_head_reads_back(t.media);
}

/// The tables of a written subtitle track are found, with the type of its first
/// sample entry as its codec.
#[verifier::spinoff_prover]
#[verifier::rlimit(40)]
pub proof fn law_subtitle_tables_are_found(stbl: Seq<(Seq<u8>, Seq<u8>)>, w: WrittenTables)
    requires
        tables::can_write_tables(w),
        tables::holds_tables(stbl, w),
    ensures
        subtitles::subtitle_tables(Some(writing::laid_out(stbl))) matches Ok(found) && {
            &&& subtitles::subtitle_timing(found.stts) == (if w.sizes.len()
                > subtitles::MAX_SUBTITLE_SAMPLES {
                None
            } else {
                Some(w.timing)
            })
            &&& found.sizes == (samples::SizesView {
                fixed: 0,
                sizes: w.sizes,
                count: w.sizes.len() as u32,
            })
            &&& found.stsc == w.stsc
            &&& found.chunks == w.chunks
            &&& found.codec == text::lossy_utf8(w.entries[0].0)
        },
{
    laws::lemma_sample_types();
    laws::law_first_box_is_found(
        stbl,
        laws::four('s', 't', 't', 's'),
        mp4_writer::words(mp4_writer::stts_words(w.timing)),
    );
    laws::law_first_box_is_found(
        stbl,
        laws::four('s', 't', 's', 'z'),
        mp4_writer::words(mp4_writer::stsz_words(w.sizes)),
    );
    laws::law_first_box_is_found(
        stbl,
        laws::four('s', 't', 's', 'c'),
        mp4_writer::words(tables::chunk_words(w.stsc)),
    );
    tables::law_durations_read_back(w.timing);
    tables::law_sizes_read_back(w.sizes, 1, 0);
    tables::law_chunk_runs_read_back(w.stsc);
    tables::law_chunk_places_read_back(stbl, w);
    let rest = w.entries.skip(1);
    assert(writing::laid_out(w.entries) == boxes::box_bytes(w.entries[0].0, w.entries[0].1)
        + writing::laid_out(rest));
    let stsd = laws::written_stsd(
        w.start,
        w.entries.len() as u32,
        w.entries[0].0,
        w.entries[0].1,
        writing::laid_out(rest),
    );
    assert(stsd =~= w.start + crate::bytes::be32_bytes(w.entries.len() as u32) + writing::laid_out(
        w.entries,
    ));
    laws::lemma_stsd(
        stbl,
        w.start,
        w.entries.len() as u32,
        w.entries[0].0,
        w.entries[0].1,
        writing::laid_out(rest),
    );
}

/// Where a sample of a subtitle track lies, it has the size that its table
/// tells, and lies behind the earlier samples of its chunk.
pub proof fn law_subtitle_sample_is_placed(t: subtitles::SubtitleTablesView, i: u32)
    requires
        t.sizes.fixed == 0,
        t.sizes.sizes.len() == t.sizes.count,
    ensures
        subtitles::sample_place(t, i) matches Some((offset, size)) ==> {
            &&& 1 <= i <= t.sizes.count
            &&& size == t.sizes.sizes[i - 1]
            &&& size <= subtitles::MAX_SUBTITLE_SAMPLE_BYTES
            &&& locate::chunk_at(t.stsc, t.chunks.len() as int + 1, i - 1) matches Some(c) && offset
                == t.chunks[c] + locate::bytes_in_chunk(
                t.sizes,
                t.stsc,
                t.chunks.len() as int + 1,
                c,
                i - 1,
            )
        },
{
    if subtitles::sample_place(t, i) is Some {
        locate::law_sample_follows_the_earlier_ones_of_its_chunk(
            t.sizes,
            t.stsc,
            t.chunks,
            i as int,
        );
        let end = t.chunks.len() as int + 1;
        let c = locate::chunk_at(t.stsc, end, i - 1)->0;
        locate::lemma_bytes_in_chunk_positive(t.sizes, t.stsc, end, c, i - 1);
    }
}

/// The subtitle tracks among the first `n` boxes of a movie.
pub open spec fn subtitle_traks(list: Seq<(Seq<u8>, Seq<u8>)>, n: int) -> int
    decreases n,
{
    if n <= 0 {
        0
    } else {
        subtitle_traks(list, n - 1) + (if is_subtitle_trak(list[n - 1]) {
            1int
        } else {
            0
        })
    }
}

/// Whether a box is a track whose parts are found, with a handler of subtitles.
pub open spec fn is_subtitle_trak(b: (Seq<u8>, Seq<u8>)) -> bool {
    b.0 == laws::four('t', 'r', 'a', 'k') && (subtitles::trak_parts(b.1) matches Some(p) && (
    p.handler == laws::four('s', 'b', 't', 'l') || p.handler == laws::four('s', 'u', 'b', 't')
        || p.handler == laws::four('t', 'e', 'x', 't') || p.handler == laws::four(
        'c',
        'l',
        'c',
        'p',
    )))
}

/// The subtitle tracks of a movie are found in order, and no other tracks.
pub proof fn law_subtitle_tracks_are_found(list: Seq<(Seq<u8>, Seq<u8>)>, n: int, k: int)
    requires
        0 <= k < n <= list.len(),
    ensures
        subtitles::subtitle_parts(list, n).len() == subtitle_traks(list, n),
        is_subtitle_trak(list[k]) ==> 0 <= subtitle_traks(list, k) < subtitle_traks(list, n)
            && subtitles::trak_parts(list[k].1) == Some(
            subtitles::subtitle_parts(list, n)[subtitle_traks(list, k)],
        ),
    decreases n,
{
    lemma_parts_count(list, n);
    lemma_parts_count(list, n - 1);
    lemma_parts_count(list, k);
    laws::lemma_track_types();
    laws::lemma_handlers();
    if k < n - 1 {
        law_subtitle_tracks_are_found(list, n - 1, k);
    }
}

proof fn lemma_parts_count(list: Seq<(Seq<u8>, Seq<u8>)>, n: int)
    requires
        0 <= n <= list.len(),
    ensures
        subtitles::subtitle_parts(list, n).len() == subtitle_traks(list, n),
        0 <= subtitle_traks(list, n),
    decreases n,
{
    laws::lemma_track_types();
    laws::lemma_handlers();
    if n > 0 {
        lemma_parts_count(list, n - 1);
    }
}

} // verus!
