//! What listed tracks tell of their samples.

use vstd::prelude::*;
use super::atoms::read;
use super::atoms::sample_timing;
use super::laws;
use super::laws::WrittenTrack;
use super::thumbnails::laws as tables;
use super::thumbnails::laws::WrittenTables;
use super::tracks;
use crate::bytes;
use crate::helpers::runs;
use crate::helpers::Mp4Box;
use crate::mp4_writer;
use crate::mp4_writer::laws as writing;
use crate::text;

verus! {

// --------------------
// Frame rates
// --------------------

/// Whether a number divides another one.
pub open spec fn divides(k: nat, n: nat) -> bool {
    exists|m: nat| n == #[trigger] (k * m)
}

proof fn lemma_divides_rest(k: nat, a: nat, b: nat)
    requires
        divides(k, a),
        divides(k, b),
        b > 0,
    ensures
        divides(k, a % b),
{
    let x = choose|m: nat| a == #[trigger] (k * m);
    let y = choose|m: nat| b == #[trigger] (k * m);
    let q = a / b;
    vstd::arithmetic::div_mod::lemma_fundamental_div_mod(a as int, b as int);
    assert(a % b == a - b * q);
    assert(a - b * q == k * x - (k * y) * q);
    assert(k * x - (k * y) * q == k * (x - y * q)) by (nonlinear_arith);
    if k > 0 {
        assert(x - y * q >= 0) by (nonlinear_arith)
            requires
                k > 0,
                k * (x - y * q) >= 0,
        ;
        let z = (x - y * q) as nat;
        assert(a % b == k * z);
    } else {
        assert(a % b == k * 0) by (nonlinear_arith)
            requires
                k == 0,
                a % b == k * (x - y * q),
        ;
    }
}

/// The common divisor of two numbers divides both, and every other common
/// divisor divides it.
pub proof fn law_common_divisor_is_the_greatest(a: nat, b: nat, k: nat)
    requires
        divides(k, a),
        divides(k, b),
    ensures
        divides(k, tracks::common_divisor(a, b)),
    decreases b,
{
    if b > 0 {
        lemma_divides_rest(k, a, b);
        law_common_divisor_is_the_greatest(b, a % b, k);
    }
}

/// Whether two numbers have no common divisor but one.
pub open spec fn are_coprime(a: nat, b: nat) -> bool {
    forall|k: nat| #[trigger] divides(k, a) && divides(k, b) ==> k == 1
}

proof fn lemma_reduced(s: nat, d: nat)
    requires
        d > 0,
    ensures
        ({
            let g = tracks::common_divisor(s, d);
            &&& g > 0
            &&& s == g * (s / g)
            &&& d == g * (d / g)
            &&& are_coprime(s / g, d / g)
        }),
{
    let g = tracks::common_divisor(s, d);
    tracks::lemma_common_divisor(s, d);
    vstd::arithmetic::div_mod::lemma_fundamental_div_mod(s as int, g as int);
    vstd::arithmetic::div_mod::lemma_fundamental_div_mod(d as int, g as int);
    let a = s / g;
    let b = d / g;
    assert forall|k: nat| #[trigger] divides(k, a) && divides(k, b) implies k == 1 by {
        let x = choose|m: nat| a == #[trigger] (k * m);
        let y = choose|m: nat| b == #[trigger] (k * m);
        assert(g * (k * x) == (g * k) * x) by (nonlinear_arith);
        assert(g * (k * y) == (g * k) * y) by (nonlinear_arith);
        assert(s == (g * k) * x);
        assert(d == (g * k) * y);
        assert(divides(g * k, s));
        assert(divides(g * k, d));
        law_common_divisor_is_the_greatest(s, d, g * k);
        let z = choose|m: nat| g == #[trigger] ((g * k) * m);
        vstd::arithmetic::mul::lemma_mul_is_associative(g as int, k as int, z as int);
        let kz = k * z;
        assert(kz == 1) by (nonlinear_arith)
            requires
                g > 0,
                g == g * kz,
        ;
        assert(k == 1) by (nonlinear_arith)
            requires
                k * z == 1,
        ;
    }
}

/// Whether a text is a fraction in lowest terms with a value of `s` over `d`.
pub open spec fn is_rate(rate: Seq<char>, s: nat, d: nat) -> bool {
    exists|a: nat, b: nat| #[trigger] is_rate_as(rate, s, d, a, b)
}

/// Whether a text is the fraction of two numbers, in lowest terms and with a
/// value of `s` over `d`.
pub open spec fn is_rate_as(rate: Seq<char>, s: nat, d: nat, a: nat, b: nat) -> bool {
    &&& rate == text::decimal(a) + seq!['/'] + text::decimal(b)
    &&& a * d == b * s
    &&& are_coprime(a, b)
}

/// Where all frames last equally long, the frame rate is the timescale over how
/// long one lasts, in lowest terms. Otherwise there is none.
pub proof fn law_frame_rate(timescale: u32, pairs: Seq<(u32, u32)>)
    requires
        pairs.len() <= 0x1000_0000,
        runs::run_total(pairs) <= u32::MAX,
    ensures
        match tracks::frame_rate_of(
            timescale,
            mp4_writer::words(mp4_writer::stts_words(pairs)),
        ) {
            Some(rate) => pairs.len() == 1 && pairs[0].1 > 0 && is_rate(
                rate,
                timescale as nat,
                pairs[0].1 as nat,
            ),
            None => pairs.len() != 1 || pairs[0].1 == 0,
        },
{
    tables::law_durations_read_back(pairs);
    if pairs.len() == 1 && pairs[0].1 > 0 {
        let s = timescale as nat;
        let d = pairs[0].1 as nat;
        let g = tracks::common_divisor(s, d);
        let a = s / g;
        let b = d / g;
        lemma_reduced(s, d);
        assert(a * (g * b) == b * (g * a)) by (nonlinear_arith);
        let rate = tracks::frame_rate_of(
            timescale,
            mp4_writer::words(mp4_writer::stts_words(pairs)),
        )->0;
        assert(is_rate_as(rate, s, d, a, b));
    }
}

// --------------------
// Samples
// --------------------

/// A listed video track tells how long each of its frames lasts where that
/// differs, and its frame rate where it does not; a listed audio track tells how
/// large each of its samples is. (Tables of more than the largest number of
/// samples are not expanded.) Both count their entries and samples.
#[verifier::spinoff_prover]
#[verifier::rlimit(40)]
pub proof fn law_listed_track_tells_its_samples(t: WrittenTrack, w: WrittenTables)
    requires
        laws::holds_track(t),
        tables::can_write_tables(w),
        tables::holds_tables(t.stbl, w),
    ensures
        tracks::track_of(writing::laid_out(t.trak)) matches Ok(found) && {
            &&& found matches tracks::TrackView::Video { frame_rate, sample_durations, .. } ==> {
                &&& match frame_rate {
                    Some(rate) => w.timing.len() == 1 && w.timing[0].1 > 0 && is_rate(
                        rate,
                        t.media.timescale as nat,
                        w.timing[0].1 as nat,
                    ),
                    None => w.timing.len() != 1 || w.timing[0].1 == 0,
                }
                &&& sample_durations == (if w.timing.len() <= 1 || w.sizes.len()
                    > tracks::MAX_EXPANDED_SAMPLE_TABLE {
                    None
                } else {
                    Some(runs::expand(w.timing))
                })
            }
            &&& found matches tracks::TrackView::Audio { sample_sizes, .. } ==> sample_sizes == (
            if w.sizes.len() > tracks::MAX_EXPANDED_SAMPLE_TABLE {
                None
            } else {
                Some(w.sizes)
            })
        },
{
    laws::lemma_track_parts(t);
    laws::law_track_head_reads_back(t.head);
    laws::law_media_head_reads_back(t.media);
    let stts = mp4_writer::words(mp4_writer::stts_words(w.timing));
    let stsz = mp4_writer::words(mp4_writer::stsz_words(w.sizes));
    lemma_tables_found(t.stbl, w);
    law_frame_rate(t.media.timescale, w.timing);
    lemma_durations_told(w.timing);
    lemma_sizes_told(w.sizes);
}

proof fn lemma_tables_found(stbl: Seq<(Seq<u8>, Seq<u8>)>, w: WrittenTables)
    requires
        tables::can_write_tables(w),
        tables::holds_tables(stbl, w),
    ensures
        read::child(writing::laid_out(stbl), Mp4Box::Stts.fourcc()) == Some(
            mp4_writer::words(mp4_writer::stts_words(w.timing)),
        ),
        read::child(writing::laid_out(stbl), Mp4Box::Stsz.fourcc()) == Some(
            mp4_writer::words(mp4_writer::stsz_words(w.sizes)),
        ),
{
    laws::lemma_sample_types();
    laws::law_first_box_is_found(
        stbl,
        laws::four('s', 't', 't', 's'),
        mp4_writer::words(mp4_writer::stts_words(w.timing)),
    );
    laws::law_first_box_is_found(
        stbl,
        laws::four('s', 't', 's', 'z'),
        mp4_writer::words(mp4_writer::stsz_words(w.sizes)),
    );
}

proof fn lemma_durations_told(pairs: Seq<(u32, u32)>)
    requires
        pairs.len() <= 0x1000_0000,
        runs::run_total(pairs) <= u32::MAX,
    ensures
        tracks::sample_durations(mp4_writer::words(mp4_writer::stts_words(pairs))) == (
        if pairs.len() <= 1 || runs::run_total(pairs) > tracks::MAX_EXPANDED_SAMPLE_TABLE {
            None
        } else {
            Some(runs::expand(pairs))
        }),
{
    let ws = mp4_writer::stts_words(pairs);
    let data = mp4_writer::words(ws);
    mp4_writer::lemma_words(ws);
    assert(bytes::be32(data, 4 * 1int) == ws[1]);
    tables::law_durations_read_back(pairs);
}

proof fn lemma_sizes_told(sizes: Seq<u32>)
    requires
        sizes.len() <= 0x1000_0000,
    ensures
        tracks::sample_sizes(mp4_writer::words(mp4_writer::stsz_words(sizes))) == (
        if sizes.len() > tracks::MAX_EXPANDED_SAMPLE_TABLE {
            None
        } else {
            Some(sizes)
        }),
{
    let ws = mp4_writer::stsz_words(sizes);
    let data = mp4_writer::words(ws);
    mp4_writer::lemma_words(ws);
    assert(bytes::be32(data, 4 * 1int) == ws[1]);
    assert(bytes::be32(data, 4 * 2int) == ws[2]);
    assert forall|i: int| 0 <= i < sizes.len() implies bytes::be32(data, 12 + 4 * i)
        == sizes[i] by {
        assert(ws[3 + i] == sizes[i]);
        assert(4 * (3 + i) == 12 + 4 * i);
    }
    assert(Seq::new(sizes.len(), |i: int| bytes::be32(data, 12 + 4 * i)) =~= sizes);
}

/// The properties that the sample tables of a track give: how many entries the
/// table of durations has, how many samples it counts, the size that all samples
/// have, which is none, and how many sizes there are.
#[verifier::spinoff_prover]
#[verifier::rlimit(30)]
pub proof fn law_table_properties(stbl: Seq<(Seq<u8>, Seq<u8>)>, w: WrittenTables)
    requires
        tables::can_write_tables(w),
        tables::holds_tables(stbl, w),
    ensures
        tracks::table_properties(Some(writing::laid_out(stbl))) == seq![
            ("stts_entry_count"@, text::decimal(w.timing.len())),
            ("sample_count"@, text::decimal(w.sizes.len())),
            ("fixed_sample_size"@, text::decimal(0)),
            ("stsz_sample_count"@, text::decimal(w.sizes.len())),
        ],
{
    lemma_tables_found(stbl, w);
    lemma_counts(w);
    let stts = Some(mp4_writer::words(mp4_writer::stts_words(w.timing)));
    let stsz = Some(mp4_writer::words(mp4_writer::stsz_words(w.sizes)));
    assert(tracks::named("stts_entry_count"@, tracks::word_at(stts, 4)) =~= seq![
        ("stts_entry_count"@, text::decimal(w.timing.len())),
    ]);
    assert(tracks::named("sample_count"@, tracks::samples_in(stts)) =~= seq![
        ("sample_count"@, text::decimal(w.sizes.len())),
    ]);
    assert(tracks::named("fixed_sample_size"@, tracks::word_at(stsz, 4)) =~= seq![
        ("fixed_sample_size"@, text::decimal(0)),
    ]);
    assert(tracks::named("stsz_sample_count"@, tracks::word_at(stsz, 8)) =~= seq![
        ("stsz_sample_count"@, text::decimal(w.sizes.len())),
    ]);
}

proof fn lemma_counts(w: WrittenTables)
    requires
        tables::can_write_tables(w),
    ensures
        ({
            let stts = Some(mp4_writer::words(mp4_writer::stts_words(w.timing)));
            let stsz = Some(mp4_writer::words(mp4_writer::stsz_words(w.sizes)));
            &&& tracks::word_at(stts, 4) == Some(w.timing.len() as int)
            &&& tracks::samples_in(stts) == Some(w.sizes.len() as int)
            &&& tracks::word_at(stsz, 4) == Some(0int)
            &&& tracks::word_at(stsz, 8) == Some(w.sizes.len() as int)
        }),
{
    let ts = mp4_writer::stts_words(w.timing);
    let sz = mp4_writer::stsz_words(w.sizes);
    mp4_writer::lemma_words(ts);
    mp4_writer::lemma_words(sz);
    assert(bytes::be32(mp4_writer::words(ts), 4 * 1int) == ts[1]);
    assert(bytes::be32(mp4_writer::words(sz), 4 * 1int) == sz[1]);
    assert(bytes::be32(mp4_writer::words(sz), 4 * 2int) == sz[2]);
    tables::law_durations_read_back(w.timing);
}

} // verus!
