//! What the readers make of written H.264 units and configurations.

use vstd::prelude::*;
use super::bitstream;
use super::AvcColorMetadata;
use super::AvcConfigView;
use crate::bytes;
use crate::format::mp4::atoms::avc;
use crate::format::mp4::atoms::read;
use crate::format::mp4::laws as boxed;
use crate::helpers::entries;
use crate::mp4_writer::laws as writing;
use crate::tags::Tag;
use crate::thumbnails;

verus! {

// --------------------
// Units
// --------------------

/// A number in `n` bytes, the highest first.
pub open spec fn length_bytes(v: int, n: int) -> Seq<u8>
    decreases n,
{
    if n <= 0 {
        Seq::empty()
    } else {
        length_bytes(v / 256, n - 1).push((v % 256) as u8)
    }
}

/// Whether a number fits in `n` bytes, up to four.
pub open spec fn fits_length(v: int, n: int) -> bool {
    0 <= v && if n == 1 {
        v < 0x100
    } else if n == 2 {
        v < 0x1_0000
    } else if n == 3 {
        v < 0x100_0000
    } else {
        n == 4 && v < 0x1_0000_0000
    }
}

/// Units, each behind its length in `n` bytes.
pub open spec fn prefixed(units: Seq<Seq<u8>>, n: int) -> Seq<u8>
    decreases units.len(),
{
    if units.len() == 0 {
        Seq::empty()
    } else {
        length_bytes(units[0].len() as int, n) + units[0] + prefixed(units.skip(1), n)
    }
}

/// Units, each behind a start code.
pub open spec fn started(units: Seq<Seq<u8>>) -> Seq<u8>
    decreases units.len(),
{
    if units.len() == 0 {
        Seq::empty()
    } else {
        seq![0u8, 0, 0, 1] + units[0] + started(units.skip(1))
    }
}

/// Whether there are units whose lengths fit in `n` bytes, none of them empty.
pub open spec fn fit_lengths(units: Seq<Seq<u8>>, n: int) -> bool {
    forall|i: int|
        0 <= i < units.len() ==> 0 < (#[trigger] units[i]).len() && fits_length(
            units[i].len() as int,
            n,
        )
}

proof fn lemma_length_bytes(v: int, n: int)
    requires
        fits_length(v, n) || (n == 0 && v == 0),
    ensures
        length_bytes(v, n).len() == n,
        bitstream::big_endian(length_bytes(v, n)) == v,
    decreases n,
{
    if n > 0 {
        lemma_length_bytes(v / 256, n - 1);
        let all = length_bytes(v, n);
        assert(all.drop_last() =~= length_bytes(v / 256, n - 1));
    }
}

proof fn lemma_rest_fits(units: Seq<Seq<u8>>, n: int)
    requires
        units.len() > 0,
        fit_lengths(units, n),
    ensures
        fit_lengths(units.skip(1), n),
{
    let rest = units.skip(1);
    assert forall|i: int| 0 <= i < rest.len() implies 0 < (#[trigger] rest[i]).len()
        && fits_length(rest[i].len() as int, n) by {
        assert(rest[i] == units[i + 1]);
    }
}

#[verifier::spinoff_prover]
#[verifier::rlimit(40)]
proof fn lemma_converted(units: Seq<Seq<u8>>, n: int, out: Seq<u8>)
    requires
        1 <= n <= 4,
        fit_lengths(units, n),
        out.len() + started(units).len() <= bitstream::MAX_ANNEX_B_SAMPLE_BYTES,
    ensures
        bitstream::converted(prefixed(units, n), n, out) == (
            out + started(units),
            None::<bitstream::NalError>,
        ),
    decreases units.len(),
{
    if units.len() == 0 {
        assert(out + started(units) =~= out);
    } else {
        let unit = units[0];
        let len = unit.len() as int;
        let rest = prefixed(units.skip(1), n);
        let sample = prefixed(units, n);
        lemma_length_bytes(len, n);
        assert(sample.take(n) =~= length_bytes(len, n));
        assert(sample.subrange(n, n + len) =~= unit);
        assert(sample.skip(n + len) =~= rest);
        let next = out + bitstream::start_code() + unit;
        lemma_rest_fits(units, n);
        lemma_converted(units.skip(1), n, next);
        assert(next + started(units.skip(1)) =~= out + started(units));
    }
}

/// A sample whose units stand behind their lengths, in one to four bytes, is
/// rewritten to the same units behind start codes, in the same order.
pub proof fn law_units_are_rewritten(units: Seq<Seq<u8>>, n: int)
    requires
        1 <= n <= 4,
        fit_lengths(units, n),
        started(units).len() <= bitstream::MAX_ANNEX_B_SAMPLE_BYTES,
    ensures
        bitstream::converted(prefixed(units, n), n, Seq::empty()) == (
            started(units),
            None::<bitstream::NalError>,
        ),
        bitstream::annex_b_size(prefixed(units, n), n) == Ok::<int, bitstream::NalError>(
            started(units).len() as int,
        ),
{
    lemma_converted(units, n, Seq::empty());
    assert(Seq::<u8>::empty() + started(units) =~= started(units));
}

proof fn lemma_annexb(units: Seq<Seq<u8>>, before: Seq<u8>)
    requires
        forall|i: int| 0 <= i < units.len() ==> (#[trigger] units[i]).len() < 0x1_0000_0000,
    ensures
        thumbnails::annexb(before + prefixed(units, 4), before.len() as int) == started(units),
    decreases units.len(),
{
    let sample = before + prefixed(units, 4);
    let pos = before.len() as int;
    if units.len() > 0 {
        let unit = units[0];
        let len = unit.len() as int;
        let rest = prefixed(units.skip(1), 4);
        lemma_length_bytes(len, 4);
        reveal_with_fuel(length_bytes, 5);
        assert(length_bytes(len, 4) =~= bytes::be32_bytes(len as u32));
        assert(sample.subrange(pos, pos + 4) =~= bytes::be32_bytes(len as u32));
        bytes::lemma_be32_roundtrip(sample, pos, len as u32);
        assert(sample.subrange(pos + 4, pos + 4 + len) =~= unit);
        let next = before + length_bytes(len, 4) + unit;
        assert forall|i: int| 0 <= i < units.skip(1).len() implies (#[trigger] units.skip(
            1,
        )[i]).len() < 0x1_0000_0000 by {
            assert(units.skip(1)[i] == units[i + 1]);
        }
        lemma_annexb(units.skip(1), next);
        assert(next + rest =~= sample);
        assert(thumbnails::annexb(sample, pos) =~= started(units));
    }
}

/// The units of a picture, each behind a length of four bytes, are handed to the
/// decoder behind start codes.
pub proof fn law_picture_units_are_rewritten(units: Seq<Seq<u8>>)
    requires
        forall|i: int| 0 <= i < units.len() ==> (#[trigger] units[i]).len() < 0x1_0000_0000,
    ensures
        thumbnails::annexb(prefixed(units, 4), 0) == started(units),
{
    lemma_annexb(units, Seq::empty());
    assert(Seq::<u8>::empty() + prefixed(units, 4) =~= prefixed(units, 4));
}

proof fn lemma_with_units(out: Seq<u8>, units: Seq<Seq<u8>>)
    requires
        forall|i: int| 0 <= i < units.len() ==> 0 < (#[trigger] units[i]).len(),
        out.len() + started(units).len() <= bitstream::MAX_ANNEX_B_SAMPLE_BYTES,
    ensures
        bitstream::with_units(out, units) == (out + started(units), None::<bitstream::NalError>),
    decreases units.len(),
{
    if units.len() == 0 {
        assert(out + started(units) =~= out);
    } else {
        let next = out + bitstream::start_code() + units[0];
        let rest = units.skip(1);
        assert forall|i: int| 0 <= i < rest.len() implies 0 < (#[trigger] rest[i]).len() by {
            assert(rest[i] == units[i + 1]);
        }
        lemma_with_units(next, rest);
        assert(next + started(rest) =~= out + started(units));
    }
}

/// The parameter sets of a configuration are handed to the decoder behind start
/// codes: the sequence parameter sets, then the picture parameter sets.
pub proof fn law_parameter_sets_are_handed_over(config: AvcConfigView)
    requires
        forall|i: int| 0 <= i < config.sps.len() ==> 0 < (#[trigger] config.sps[i]).len(),
        forall|i: int| 0 <= i < config.pps.len() ==> 0 < (#[trigger] config.pps[i]).len(),
        started(config.sps).len() + started(config.pps).len()
            <= bitstream::MAX_ANNEX_B_SAMPLE_BYTES,
    ensures
        bitstream::headers(config) == (
            started(config.sps) + started(config.pps),
            None::<bitstream::NalError>,
        ),
{
    lemma_with_units(Seq::empty(), config.sps);
    assert(Seq::<u8>::empty() + started(config.sps) =~= started(config.sps));
    lemma_with_units(started(config.sps), config.pps);
}

// --------------------
// Configurations
// --------------------

/// An AVC decoder configuration to be written.
pub struct WrittenConfig {
    /// The profile, its compatible ones and the level.
    pub profile: Seq<u8>,
    pub length_size: int,
    pub sps: Seq<Seq<u8>>,
    pub pps: Seq<Seq<u8>>,
    pub behind: Seq<u8>,
}

/// Whether an AVC decoder configuration can be written.
pub open spec fn can_write_config(c: WrittenConfig) -> bool {
    &&& c.profile.len() == 3
    &&& 1 <= c.length_size <= 4
    &&& c.sps.len() < 32
    &&& c.pps.len() < 256
    &&& forall|i: int| 0 <= i < c.sps.len() ==> (#[trigger] c.sps[i]).len() <= u16::MAX
    &&& forall|i: int| 0 <= i < c.pps.len() ==> (#[trigger] c.pps[i]).len() <= u16::MAX
}

/// Parameter sets, each behind its length.
pub open spec fn written_sets(sets: Seq<Seq<u8>>) -> Seq<u8>
    decreases sets.len(),
{
    if sets.len() == 0 {
        Seq::empty()
    } else {
        written_sets(sets.drop_last()) + bytes::be16_bytes(sets.last().len() as u16) + sets.last()
    }
}

/// A written AVC decoder configuration.
pub open spec fn written_config(c: WrittenConfig) -> Seq<u8> {
    seq![1u8] + c.profile + seq![
        (0xfc + c.length_size - 1) as u8,
        (0xe0 + c.sps.len()) as u8,
    ] + written_sets(c.sps) + seq![c.pps.len() as u8] + written_sets(c.pps) + c.behind
}

proof fn lemma_sets(data: Seq<u8>, pos: int, sets: Seq<Seq<u8>>)
    requires
        0 <= pos,
        pos + written_sets(sets).len() <= data.len(),
        data.subrange(pos, pos + written_sets(sets).len()) == written_sets(sets),
        forall|i: int| 0 <= i < sets.len() ==> (#[trigger] sets[i]).len() <= u16::MAX,
    ensures
        avc::sets_from(data, pos, sets.len()) == Some((sets, pos + written_sets(sets).len())),
    decreases sets.len(),
{
    if sets.len() == 0 {
        assert(sets =~= Seq::empty());
    } else {
        let init = sets.drop_last();
        let last = sets.last();
        let all = written_sets(sets);
        let n = written_sets(init).len() as int;
        assert(sets[sets.len() - 1] == last);
        assert(data.subrange(pos, pos + n) =~= all.subrange(0, n));
        assert(all.subrange(0, n) =~= written_sets(init));
        assert forall|i: int| 0 <= i < init.len() implies (#[trigger] init[i]).len()
            <= u16::MAX by {
            assert(init[i] == sets[i]);
        }
        lemma_sets(data, pos, init);
        let end = pos + n;
        assert(data.subrange(end, end + 2) =~= all.subrange(n, n + 2));
        assert(all.subrange(n, n + 2) =~= bytes::be16_bytes(last.len() as u16));
        bytes::lemma_be16_roundtrip(data, end, last.len() as u16);
        assert(data.subrange(end + 2, end + 2 + last.len()) =~= all.subrange(
            n + 2,
            n + 2 + last.len(),
        ));
        assert(all.subrange(n + 2, n + 2 + last.len()) =~= last);
        assert(init.push(last) =~= sets);
    }
}

/// The boxes in a sample entry, and the size that it tells.
pub open spec fn written_entry(
    before: Seq<u8>,
    width: u16,
    height: u16,
    middle: Seq<u8>,
    children: Seq<(Seq<u8>, Seq<u8>)>,
) -> Seq<u8> {
    before + bytes::be16_bytes(width) + bytes::be16_bytes(height) + middle + writing::laid_out(
        children,
    )
}

/// The configuration of a written sample entry is read back: how long its
/// lengths are, its parameter sets and its size. Without a `colr` box nothing is
/// known of its colors.
pub proof fn law_configuration_reads_back(
    before: Seq<u8>,
    width: u16,
    height: u16,
    middle: Seq<u8>,
    children: Seq<(Seq<u8>, Seq<u8>)>,
    c: WrittenConfig,
)
    requires
        before.len() == 24,
        middle.len() == 50,
        writing::fits_headers(children),
        can_write_config(c),
        boxed::first_holds(children, boxed::four('a', 'v', 'c', 'C'), written_config(c)),
        boxed::has_no(children, boxed::four('c', 'o', 'l', 'r')),
    ensures
        avc::config_of(written_entry(before, width, height, middle, children)) == Some(
            AvcConfigView {
                length_size: c.length_size as usize,
                sps: c.sps,
                pps: c.pps,
                color: AvcColorMetadata { matrix_coefficients: None, full_range: None },
                display_width: width as u32,
                display_height: height as u32,
                max_input_size: None,
                resolved_full_range: None,
            },
        ),
{
    lemma_config(before, width, height, middle, children, c);
    lemma_colorless(children);
}

proof fn lemma_colorless(list: Seq<(Seq<u8>, Seq<u8>)>)
    requires
        boxed::has_no(list, boxed::four('c', 'o', 'l', 'r')),
    ensures
        avc::first_color(list) is None,
    decreases list.len(),
{
    assert(Tag::Colr.code() =~= boxed::four('c', 'o', 'l', 'r'));
    if list.len() > 0 {
        let rest = list.skip(1);
        assert(list[0].0 != boxed::four('c', 'o', 'l', 'r'));
        assert forall|j: int| 0 <= j < rest.len() implies (#[trigger] rest[j]).0 != boxed::four(
            'c',
            'o',
            'l',
            'r',
        ) by {
            assert(rest[j] == list[j + 1]);
        }
        lemma_colorless(rest);
    }
}

#[verifier::spinoff_prover]
#[verifier::rlimit(40)]
proof fn lemma_config(
    before: Seq<u8>,
    width: u16,
    height: u16,
    middle: Seq<u8>,
    children: Seq<(Seq<u8>, Seq<u8>)>,
    c: WrittenConfig,
)
    requires
        before.len() == 24,
        middle.len() == 50,
        writing::fits_headers(children),
        can_write_config(c),
        boxed::first_holds(children, boxed::four('a', 'v', 'c', 'C'), written_config(c)),
    ensures
        avc::config_of(written_entry(before, width, height, middle, children)) == Some(
            AvcConfigView {
                length_size: c.length_size as usize,
                sps: c.sps,
                pps: c.pps,
                color: match avc::first_color(children) {
                    Some(color) => color,
                    None => avc::no_color(),
                },
                display_width: width as u32,
                display_height: height as u32,
                max_input_size: None,
                resolved_full_range: None,
            },
        ),
{
    let entry = written_entry(before, width, height, middle, children);
    lemma_entry_parts(before, width, height, middle, children);
    lemma_config_parts(c);
    boxed::law_laid_out_boxes_are_walked(children);
    boxed::law_first_box_is_found(children, boxed::four('a', 'v', 'c', 'C'), written_config(c));
    assert(read::child(writing::laid_out(children), boxed::four('a', 'v', 'c', 'C'))
        == entries::first_of(children, Tag::AvcC.code()));
}

proof fn lemma_entry_parts(
    before: Seq<u8>,
    width: u16,
    height: u16,
    middle: Seq<u8>,
    children: Seq<(Seq<u8>, Seq<u8>)>,
)
    requires
        before.len() == 24,
        middle.len() == 50,
    ensures
        ({
            let entry = written_entry(before, width, height, middle, children);
            &&& entry.len() >= 78
            &&& entry.skip(78) == writing::laid_out(children)
            &&& bytes::be16(entry, 24) == width
            &&& bytes::be16(entry, 26) == height
        }),
        Tag::AvcC.code() == boxed::four('a', 'v', 'c', 'C'),
{
    let entry = written_entry(before, width, height, middle, children);
    assert(Tag::AvcC.code() =~= boxed::four('a', 'v', 'c', 'C'));
    assert(entry.skip(78) =~= writing::laid_out(children));
    assert(entry.subrange(24, 26) =~= bytes::be16_bytes(width));
    bytes::lemma_be16_roundtrip(entry, 24, width);
    assert(entry.subrange(26, 28) =~= bytes::be16_bytes(height));
    bytes::lemma_be16_roundtrip(entry, 26, height);
}

#[verifier::spinoff_prover]
#[verifier::rlimit(40)]
pub(crate) proof fn lemma_config_parts(c: WrittenConfig)
    requires
        can_write_config(c),
    ensures
        ({
            let avcc = written_config(c);
            let at = 6int + written_sets(c.sps).len();
            let end = at + 1 + written_sets(c.pps).len();
            &&& avcc.len() >= 7
            &&& avcc[0] == 1
            &&& avcc[4] % 4 + 1 == c.length_size
            &&& avcc[5] % 32 == c.sps.len()
            &&& avc::sets_from(avcc, 6, c.sps.len()) == Some((c.sps, at))
            &&& at < avcc.len()
            &&& avcc[at] == c.pps.len()
            &&& avc::sets_from(avcc, at + 1, c.pps.len()) == Some((c.pps, end))
        }),
{
    let avcc = written_config(c);
    let first = written_sets(c.sps);
    let second = written_sets(c.pps);
    assert(avcc[4] == 0xfc + c.length_size - 1);
    assert(avcc[5] == 0xe0 + c.sps.len());
    assert(avcc.subrange(6, 6int + first.len()) =~= first);
    lemma_sets(avcc, 6, c.sps);
    let at = 6int + first.len();
    assert(avcc[at] == c.pps.len());
    assert(avcc.subrange(at + 1, at + 1 + second.len()) =~= second);
    lemma_sets(avcc, at + 1, c.pps);
}

/// The colors that a written `colr` box tells: the matrix, unless it is not
/// specified, and whether the full range is used.
pub proof fn law_colors_read_back(
    primaries: u16,
    transfer: u16,
    matrix: u16,
    full: bool,
    low: u8,
    behind: Seq<u8>,
)
    requires
        low < 128,
    ensures
        avc::color_of(
            boxed::four('n', 'c', 'l', 'x') + bytes::be16_bytes(primaries) + bytes::be16_bytes(
                transfer,
            ) + bytes::be16_bytes(matrix) + seq![
                if full {
                    (128 + low) as u8
                } else {
                    low
                },
            ] + behind,
        ) == Some(
            AvcColorMetadata {
                matrix_coefficients: if matrix == 2 {
                    None
                } else {
                    Some(matrix)
                },
                full_range: Some(full),
            },
        ),
        avc::color_of(
            boxed::four('n', 'c', 'l', 'c') + bytes::be16_bytes(primaries) + bytes::be16_bytes(
                transfer,
            ) + bytes::be16_bytes(matrix) + behind,
        ) == Some(
            AvcColorMetadata {
                matrix_coefficients: if matrix == 2 {
                    None
                } else {
                    Some(matrix)
                },
                full_range: None,
            },
        ),
{
    let flag = seq![
        if full {
            (128 + low) as u8
        } else {
            low
        },
    ];
    let x = boxed::four('n', 'c', 'l', 'x') + bytes::be16_bytes(primaries) + bytes::be16_bytes(
        transfer,
    ) + bytes::be16_bytes(matrix) + flag + behind;
    let c = boxed::four('n', 'c', 'l', 'c') + bytes::be16_bytes(primaries) + bytes::be16_bytes(
        transfer,
    ) + bytes::be16_bytes(matrix) + behind;
    assert(Tag::Nclx.code() =~= boxed::four('n', 'c', 'l', 'x'));
    assert(Tag::Nclc.code() =~= boxed::four('n', 'c', 'l', 'c'));
    assert(boxed::four('n', 'c', 'l', 'x')[3] != boxed::four('n', 'c', 'l', 'c')[3]);
    assert(x.subrange(0, 4) =~= boxed::four('n', 'c', 'l', 'x'));
    assert(c.subrange(0, 4) =~= boxed::four('n', 'c', 'l', 'c'));
    assert(x.subrange(8, 10) =~= bytes::be16_bytes(matrix));
    assert(c.subrange(8, 10) =~= bytes::be16_bytes(matrix));
    bytes::lemma_be16_roundtrip(x, 8, matrix);
    bytes::lemma_be16_roundtrip(c, 8, matrix);
    assert(x[10] == flag[0]);
}

} // verus!
