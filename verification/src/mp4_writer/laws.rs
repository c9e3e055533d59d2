//! What the readers make of written movies.

use vstd::prelude::*;
use crate::av_clip;
use crate::boxes;
use crate::bytes;
use crate::clip;
use crate::helpers;
use crate::helpers::entries;
use crate::helpers::runs;
use crate::helpers::tables;
use crate::helpers::timing;
use crate::helpers::Mp4Box;
use crate::mp4_writer;
use crate::mp4_writer::movie;
use crate::mp4_writer::segment;
use crate::mp4_writer::EditListEntry;
use crate::tags::Tag;

verus! {

proof fn lemma_room(n: int, k: int)
    requires
        0 <= n,
        0 < k,
    ensures
        (n * k) / k == n,
        (k * n) / k == n,
{
    assert((n * k) / k == n) by (nonlinear_arith)
        requires
            0 < k,
    ;
    assert(k * n == n * k) by (nonlinear_arith);
}

/// The sizes written to an `stsz` are read back.
pub proof fn law_stsz_reads_back(sizes: Seq<u32>)
    requires
        sizes.len() <= u32::MAX,
    ensures
        helpers::u32_table(mp4_writer::words(mp4_writer::stsz_words(sizes))) == sizes,
{
    let ws = mp4_writer::stsz_words(sizes);
    let data = mp4_writer::words(ws);
    mp4_writer::lemma_words(ws);
    assert(bytes::be32(data, 4 * 2int) == ws[2]);
    lemma_room(sizes.len() as int, 4);
    assert(helpers::table_len(data, 8, 4) == sizes.len());
    assert forall|i: int| 0 <= i < sizes.len() implies bytes::be32(data, 12 + 4 * i)
        == sizes[i] by {
        assert(ws[3 + i] == sizes[i]);
        assert(4 * (3 + i) == 12 + 4 * i);
    }
    assert(helpers::u32_table(data) =~= sizes);
}

/// The pairs written to an `stts` are read back.
pub proof fn law_stts_reads_back(pairs: Seq<(u32, u32)>)
    requires
        pairs.len() <= u32::MAX,
    ensures
        helpers::pair_table(mp4_writer::words(mp4_writer::stts_words(pairs)), 8) == pairs,
{
    let ws = mp4_writer::stts_words(pairs);
    let data = mp4_writer::words(ws);
    mp4_writer::lemma_words(ws);
    assert(bytes::be32(data, 4 * 1int) == ws[1]);
    lemma_room(pairs.len() as int, 8);
    assert(helpers::table_len(data, 4, 8) == pairs.len());
    assert forall|i: int| 0 <= i < pairs.len() implies bytes::be32(data, 8 + 8 * i) == pairs[i].0
        && bytes::be32(data, 12 + 8 * i) == pairs[i].1 by {
        assert(ws[2 + 2 * i] == pairs[i].0);
        assert(ws[3 + 2 * i] == pairs[i].1);
        assert(4 * (2 + 2 * i) == 8 + 8 * i);
        assert(4 * (3 + 2 * i) == 12 + 8 * i);
    }
    assert(helpers::pair_table(data, 8) =~= pairs);
}

/// The pairs written to a `ctts` are read back, negative offsets too.
pub proof fn law_ctts_reads_back(pairs: Seq<(u32, i32)>)
    requires
        pairs.len() <= u32::MAX,
    ensures
        tables::ctts_table(mp4_writer::words(mp4_writer::ctts_words(pairs))) == pairs,
        mp4_writer::words(mp4_writer::ctts_words(pairs)).len() >= 8,
{
    let ws = mp4_writer::ctts_words(pairs);
    let data = mp4_writer::words(ws);
    mp4_writer::lemma_words(ws);
    assert(bytes::be32(data, 4 * 1int) == ws[1]);
    lemma_room(pairs.len() as int, 8);
    assert(helpers::table_len(data, 4, 8) == pairs.len());
    assert forall|i: int| 0 <= i < pairs.len() implies bytes::be32(data, 8 + 8 * i) == pairs[i].0
        && tables::signed32(bytes::be32(data, 12 + 8 * i)) == pairs[i].1 by {
        assert(ws[2 + 2 * i] == pairs[i].0);
        assert(ws[3 + 2 * i] == mp4_writer::word_of(pairs[i].1));
        assert(4 * (2 + 2 * i) == 8 + 8 * i);
        assert(4 * (3 + 2 * i) == 12 + 8 * i);
    }
    assert(tables::ctts_table(data) =~= pairs);
}

/// The sync samples written to an `stss` are read back.
pub proof fn law_stss_reads_back(entries: Seq<u32>)
    requires
        entries.len() <= u32::MAX,
    ensures
        tables::stss_table(mp4_writer::words(mp4_writer::stss_words(entries))) == entries,
{
    let ws = mp4_writer::stss_words(entries);
    let data = mp4_writer::words(ws);
    mp4_writer::lemma_words(ws);
    assert(bytes::be32(data, 4 * 1int) == ws[1]);
    lemma_room(entries.len() as int, 4);
    assert(helpers::table_len(data, 4, 4) == entries.len());
    assert forall|i: int| 0 <= i < entries.len() implies bytes::be32(data, 8 + 4 * i)
        == entries[i] by {
        assert(ws[2 + i] == entries[i]);
        assert(4 * (2 + i) == 8 + 4 * i);
    }
    assert(tables::stss_table(data) =~= entries);
}

proof fn lemma_stsc_reads_back()
    ensures
        helpers::pair_table(mp4_writer::words(mp4_writer::stsc_words()), 12) == seq![(1u32, 1u32)],
{
    let ws = mp4_writer::stsc_words();
    let data = mp4_writer::words(ws);
    mp4_writer::lemma_words(ws);
    assert(bytes::be32(data, 4 * 1int) == ws[1]);
    assert(bytes::be32(data, 4 * 2int) == ws[2]);
    assert(bytes::be32(data, 4 * 3int) == ws[3]);
    lemma_room(1, 12);
    assert(helpers::table_len(data, 4, 12) == 1);
    assert(helpers::pair_table(data, 12) =~= seq![(1u32, 1u32)]);
}

/// Chunk offsets that fit 32 bits are read back from an `stco`.
pub proof fn law_stco_reads_back(offsets: Seq<u64>)
    requires
        offsets.len() <= u32::MAX,
        mp4_writer::fits32(offsets),
    ensures
        helpers::widened_table(mp4_writer::words(mp4_writer::stco_words(offsets))) == offsets,
{
    let ws = mp4_writer::stco_words(offsets);
    let data = mp4_writer::words(ws);
    mp4_writer::lemma_words(ws);
    assert(bytes::be32(data, 4 * 1int) == ws[1]);
    lemma_room(offsets.len() as int, 4);
    assert(helpers::table_len(data, 4, 4) == offsets.len());
    assert forall|i: int| 0 <= i < offsets.len() implies bytes::be32(data, 8 + 4 * i) as u64
        == offsets[i] by {
        assert(ws[2 + i] == offsets[i] as u32);
        assert(offsets[i] <= u32::MAX);
        assert(4 * (2 + i) == 8 + 4 * i);
    }
    assert(helpers::widened_table(data) =~= offsets);
}

/// Chunk offsets are read back from a `co64`.
pub proof fn law_co64_reads_back(offsets: Seq<u64>)
    requires
        offsets.len() <= u32::MAX,
    ensures
        helpers::u64_table(mp4_writer::words(mp4_writer::co64_words(offsets))) == offsets,
{
    let ws = mp4_writer::co64_words(offsets);
    let data = mp4_writer::words(ws);
    mp4_writer::lemma_words(ws);
    assert(bytes::be32(data, 4 * 1int) == ws[1]);
    lemma_room(offsets.len() as int, 8);
    assert(helpers::table_len(data, 4, 8) == offsets.len());
    assert forall|i: int| 0 <= i < offsets.len() implies bytes::be64(data, 8 + 8 * i)
        == offsets[i] by {
        assert(ws[2 + 2 * i] == (offsets[i] / 0x1_0000_0000) as u32);
        assert(ws[3 + 2 * i] == (offsets[i] % 0x1_0000_0000) as u32);
        assert(4 * (2 + 2 * i) == 8 + 8 * i);
        assert(4 * (3 + 2 * i) == 8 + 8 * i + 4);
    }
    assert(helpers::u64_table(data) =~= offsets);
}

proof fn lemma_differ(a: Seq<u8>, b: Seq<u8>, i: int)
    requires
        a[i] != b[i],
    ensures
        a != b,
{
}

/// The box types of a sample table are told apart.
proof fn lemma_stbl_types_differ()
    ensures
        ({
            let sd = Mp4Box::Stsd.fourcc();
            let ts = Mp4Box::Stts.fourcc();
            let ct = Mp4Box::Ctts.fourcc();
            let sz = Mp4Box::Stsz.fourcc();
            let sc = Mp4Box::Stsc.fourcc();
            let co = Mp4Box::Stco.fourcc();
            let c6 = Mp4Box::Co64.fourcc();
            let ss = Mp4Box::Stss.fourcc();
            &&& sd != ts && sd != ct && sd != sz && sd != sc && sd != co && sd != c6 && sd != ss
            &&& ts != ct && ts != sz && ts != sc && ts != co && ts != c6 && ts != ss
            &&& ct != sz && ct != sc && ct != co && ct != c6 && ct != ss
            &&& sz != sc && sz != co && sz != c6 && sz != ss
            &&& sc != co && sc != c6 && sc != ss
            &&& co != c6 && co != ss
            &&& c6 != ss
        }),
{
    let sd = Mp4Box::Stsd.fourcc();
    let ts = Mp4Box::Stts.fourcc();
    let ct = Mp4Box::Ctts.fourcc();
    let sz = Mp4Box::Stsz.fourcc();
    let sc = Mp4Box::Stsc.fourcc();
    let co = Mp4Box::Stco.fourcc();
    let c6 = Mp4Box::Co64.fourcc();
    let ss = Mp4Box::Stss.fourcc();
    lemma_differ(sd, ts, 2);
    lemma_differ(sd, ct, 0);
    lemma_differ(sd, sz, 3);
    lemma_differ(sd, sc, 3);
    lemma_differ(sd, co, 2);
    lemma_differ(sd, c6, 0);
    lemma_differ(sd, ss, 3);
    lemma_differ(ts, ct, 0);
    lemma_differ(ts, sz, 2);
    lemma_differ(ts, sc, 2);
    lemma_differ(ts, co, 2);
    lemma_differ(ts, c6, 0);
    lemma_differ(ts, ss, 2);
    lemma_differ(ct, sz, 0);
    lemma_differ(ct, sc, 0);
    lemma_differ(ct, co, 0);
    lemma_differ(ct, c6, 1);
    lemma_differ(ct, ss, 0);
    lemma_differ(sz, sc, 3);
    lemma_differ(sz, co, 2);
    lemma_differ(sz, c6, 0);
    lemma_differ(sz, ss, 3);
    lemma_differ(sc, co, 2);
    lemma_differ(sc, c6, 0);
    lemma_differ(sc, ss, 3);
    lemma_differ(co, c6, 0);
    lemma_differ(co, ss, 2);
    lemma_differ(c6, ss, 0);
}

/// Boxes laid out one after the other.
pub open spec fn laid_out(list: Seq<(Seq<u8>, Seq<u8>)>) -> Seq<u8>
    decreases list.len(),
{
    if list.len() == 0 {
        Seq::empty()
    } else {
        boxes::box_bytes(list[0].0, list[0].1) + laid_out(list.skip(1))
    }
}

/// Whether each box of a list has a type and a payload that fit its header.
pub open spec fn fits_headers(list: Seq<(Seq<u8>, Seq<u8>)>) -> bool {
    forall|i: int|
        0 <= i < list.len() ==> (#[trigger] list[i]).0.len() == 4 && list[i].1.len() + 8
            <= u32::MAX
}

/// Whether data is nothing but boxes that fit their headers.
pub open spec fn is_laid_out(data: Seq<u8>) -> bool {
    exists|list: Seq<(Seq<u8>, Seq<u8>)>| #[trigger] laid_out(list) == data && fits_headers(list)
}

/// Boxes laid out one after the other are listed in that order, and a search
/// finds the first one of its type.
pub proof fn law_laid_out_boxes_are_found(list: Seq<(Seq<u8>, Seq<u8>)>, wanted: Seq<u8>)
    requires
        fits_headers(list),
    ensures
        boxes::box_list(laid_out(list)) == list,
        boxes::find_box(laid_out(list), wanted) == entries::first_of(list, wanted),
    decreases list.len(),
{
    if list.len() > 0 {
        let rest = list.skip(1);
        assert forall|i: int| 0 <= i < rest.len() implies (#[trigger] rest[i]).0.len() == 4
            && rest[i].1.len() + 8 <= u32::MAX by {
            assert(rest[i] == list[i + 1]);
        }
        law_laid_out_boxes_are_found(rest, wanted);
        let (fourcc, payload) = list[0];
        boxes::lemma_box_list_cons(fourcc, payload, laid_out(rest));
        assert(seq![list[0]] + rest =~= list);
        if fourcc == wanted {
            boxes::lemma_find_box_hit(fourcc, payload, laid_out(rest));
        } else {
            boxes::lemma_find_box_skip(fourcc, payload, laid_out(rest), wanted);
        }
    }
}

proof fn lemma_laid_out_append(a: Seq<(Seq<u8>, Seq<u8>)>, b: Seq<(Seq<u8>, Seq<u8>)>)
    ensures
        laid_out(a + b) == laid_out(a) + laid_out(b),
    decreases a.len(),
{
    if a.len() == 0 {
        assert(a + b =~= b);
        assert(laid_out(a) + laid_out(b) =~= laid_out(b));
    } else {
        lemma_laid_out_append(a.skip(1), b);
        assert((a + b).skip(1) =~= a.skip(1) + b);
        assert((a + b)[0] == a[0]);
        assert(laid_out(a + b) =~= laid_out(a) + laid_out(b));
    }
}

proof fn lemma_first_of_append(
    a: Seq<(Seq<u8>, Seq<u8>)>,
    b: Seq<(Seq<u8>, Seq<u8>)>,
    wanted: Seq<u8>,
)
    ensures
        entries::first_of(a + b, wanted) == (match entries::first_of(a, wanted) {
            Some(p) => Some(p),
            None => entries::first_of(b, wanted),
        }),
    decreases a.len(),
{
    if a.len() == 0 {
        assert(a + b =~= b);
    } else {
        assert((a + b).skip(1) =~= a.skip(1) + b);
        assert((a + b)[0] == a[0]);
        if a[0].0 != wanted {
            lemma_first_of_append(a.skip(1), b, wanted);
        }
    }
}

/// The one box of a list, or none.
spec fn one(fourcc: Seq<u8>, payload: Option<Seq<u8>>) -> Seq<(Seq<u8>, Seq<u8>)> {
    match payload {
        Some(p) => seq![(fourcc, p)],
        None => Seq::empty(),
    }
}

proof fn lemma_one(fourcc: Seq<u8>, payload: Option<Seq<u8>>, wanted: Seq<u8>)
    ensures
        laid_out(one(fourcc, payload)) == (match payload {
            Some(p) => boxes::box_bytes(fourcc, p),
            None => Seq::empty(),
        }),
        entries::first_of(one(fourcc, payload), wanted) == (if fourcc == wanted {
            payload
        } else {
            None
        }),
{
    let list = one(fourcc, payload);
    reveal_with_fuel(laid_out, 2);
    reveal_with_fuel(entries::first_of, 2);
    if payload is Some {
        assert(list.skip(1) =~= Seq::empty());
        assert(laid_out(list) =~= boxes::box_bytes(fourcc, payload->0));
    }
}

/// Boxes of which each may be absent.
spec fn present(items: Seq<(Seq<u8>, Option<Seq<u8>>)>) -> Seq<(Seq<u8>, Seq<u8>)>
    decreases items.len(),
{
    if items.len() == 0 {
        Seq::empty()
    } else {
        one(items[0].0, items[0].1) + present(items.skip(1))
    }
}

/// The first of several boxes, each of which may be absent, that has a type.
spec fn lookup(items: Seq<(Seq<u8>, Option<Seq<u8>>)>, wanted: Seq<u8>) -> Option<Seq<u8>>
    decreases items.len(),
{
    if items.len() == 0 {
        None
    } else if items[0].0 == wanted && items[0].1 is Some {
        items[0].1
    } else {
        lookup(items.skip(1), wanted)
    }
}

/// The bytes of boxes of which each may be absent.
spec fn written(items: Seq<(Seq<u8>, Option<Seq<u8>>)>) -> Seq<u8>
    decreases items.len(),
{
    if items.len() == 0 {
        Seq::empty()
    } else {
        (match items[0].1 {
            Some(p) => boxes::box_bytes(items[0].0, p),
            None => Seq::empty(),
        }) + written(items.skip(1))
    }
}

proof fn lemma_lookup(items: Seq<(Seq<u8>, Option<Seq<u8>>)>, wanted: Seq<u8>)
    requires
        written(items).len() <= u32::MAX,
        forall|i: int| 0 <= i < items.len() ==> (#[trigger] items[i]).0.len() == 4,
    ensures
        laid_out(present(items)) == written(items),
        fits_headers(present(items)),
        entries::first_of(present(items), wanted) == lookup(items, wanted),
        boxes::find_box(written(items), wanted) == lookup(items, wanted),
        is_laid_out(written(items)),
    decreases items.len(),
{
    if items.len() > 0 {
        let rest = items.skip(1);
        assert forall|i: int| 0 <= i < rest.len() implies (#[trigger] rest[i]).0.len() == 4 by {
            assert(rest[i] == items[i + 1]);
        }
        assert(items[0].0.len() == 4);
        lemma_lookup(rest, wanted);
        let head = one(items[0].0, items[0].1);
        lemma_one(items[0].0, items[0].1, wanted);
        lemma_laid_out_append(head, present(rest));
        lemma_first_of_append(head, present(rest), wanted);
        let all = present(items);
        assert(fits_headers(all)) by {
            assert forall|i: int| 0 <= i < all.len() implies (#[trigger] all[i]).0.len() == 4
                && all[i].1.len() + 8 <= u32::MAX by {
                if i >= head.len() {
                    assert(all[i] == present(rest)[i - head.len()]);
                } else {
                    assert(all[i] == head[0]);
                }
            }
        }
    }
    law_laid_out_boxes_are_found(present(items), wanted);
}

/// The bytes of a payload that may be absent.
spec fn payload_of(ws: Option<Seq<u32>>) -> Option<Seq<u8>> {
    match ws {
        Some(w) => Some(mp4_writer::words(w)),
        None => None,
    }
}

/// The boxes of a written sample table.
spec fn stbl_items(
    stsd: Seq<u8>,
    sizes: Seq<u32>,
    stts: Seq<(u32, u32)>,
    ctts: Option<Seq<(u32, i32)>>,
    sync: Option<Seq<u32>>,
    offsets: Seq<u64>,
) -> Seq<(Seq<u8>, Option<Seq<u8>>)> {
    seq![
        (Mp4Box::Stsd.fourcc(), Some(stsd)),
        (Mp4Box::Stts.fourcc(), Some(mp4_writer::words(mp4_writer::stts_words(stts)))),
        (Mp4Box::Ctts.fourcc(), payload_of(mp4_writer::ctts_part(ctts))),
        (Mp4Box::Stsz.fourcc(), Some(mp4_writer::words(mp4_writer::stsz_words(sizes)))),
        (Mp4Box::Stsc.fourcc(), Some(mp4_writer::words(mp4_writer::stsc_words()))),
        if mp4_writer::fits32(offsets) {
            (Mp4Box::Stco.fourcc(), Some(mp4_writer::words(mp4_writer::stco_words(offsets))))
        } else {
            (Mp4Box::Co64.fourcc(), Some(mp4_writer::words(mp4_writer::co64_words(offsets))))
        },
        (Mp4Box::Stss.fourcc(), payload_of(mp4_writer::stss_part(sync))),
    ]
}

/// The bytes of one box that may be absent.
spec fn bytes_of(item: (Seq<u8>, Option<Seq<u8>>)) -> Seq<u8> {
    match item.1 {
        Some(p) => boxes::box_bytes(item.0, p),
        None => Seq::empty(),
    }
}

proof fn lemma_written_step(items: Seq<(Seq<u8>, Option<Seq<u8>>)>, k: int, acc: Seq<u8>)
    requires
        0 <= k < items.len(),
        written(items) == acc + written(items.skip(k)),
    ensures
        written(items) == acc + bytes_of(items[k]) + written(items.skip(k + 1)),
{
    assert(items.skip(k).skip(1) =~= items.skip(k + 1));
    assert(items.skip(k)[0] == items[k]);
    assert(acc + (bytes_of(items[k]) + written(items.skip(k + 1))) =~= acc + bytes_of(items[k])
        + written(items.skip(k + 1)));
}

proof fn lemma_written_end(items: Seq<(Seq<u8>, Option<Seq<u8>>)>, acc: Seq<u8>)
    requires
        written(items) == acc + written(items.skip(items.len() as int)),
    ensures
        written(items) == acc,
{
    assert(acc + Seq::<u8>::empty() =~= acc);
}

proof fn lemma_written_two(items: Seq<(Seq<u8>, Option<Seq<u8>>)>)
    requires
        items.len() >= 2,
    ensures
        written(items) == bytes_of(items[0]) + bytes_of(items[1]) + written(items.skip(2)),
        items.len() == 2 ==> written(items) == bytes_of(items[0]) + bytes_of(items[1]),
{
    assert(written(items) == bytes_of(items[0]) + written(items.skip(1)));
    lemma_written_step(items, 1, bytes_of(items[0]));
    if items.len() == 2 {
        lemma_written_end(items, bytes_of(items[0]) + bytes_of(items[1]));
    }
}

proof fn lemma_written_three(items: Seq<(Seq<u8>, Option<Seq<u8>>)>)
    requires
        items.len() >= 3,
    ensures
        written(items) == bytes_of(items[0]) + bytes_of(items[1]) + bytes_of(items[2]) + written(
            items.skip(3),
        ),
        items.len() == 3 ==> written(items) == bytes_of(items[0]) + bytes_of(items[1]) + bytes_of(
            items[2],
        ),
{
    let acc = bytes_of(items[0]) + bytes_of(items[1]);
    lemma_written_two(items);
    lemma_written_step(items, 2, acc);
    if items.len() == 3 {
        lemma_written_end(items, acc + bytes_of(items[2]));
    }
}

proof fn lemma_written_seven(items: Seq<(Seq<u8>, Option<Seq<u8>>)>)
    requires
        items.len() == 7,
    ensures
        written(items) == bytes_of(items[0]) + bytes_of(items[1]) + bytes_of(items[2]) + bytes_of(
            items[3],
        ) + bytes_of(items[4]) + bytes_of(items[5]) + bytes_of(items[6]),
{
    lemma_written_three(items);
    let acc3 = bytes_of(items[0]) + bytes_of(items[1]) + bytes_of(items[2]);
    lemma_written_step(items, 3, acc3);
    let acc4 = acc3 + bytes_of(items[3]);
    lemma_written_step(items, 4, acc4);
    let acc5 = acc4 + bytes_of(items[4]);
    lemma_written_step(items, 5, acc5);
    let acc6 = acc5 + bytes_of(items[5]);
    lemma_written_step(items, 6, acc6);
    lemma_written_end(items, acc6 + bytes_of(items[6]));
}

/// The box at `k` is found where no other one has its type.
proof fn lemma_lookup_at(items: Seq<(Seq<u8>, Option<Seq<u8>>)>, k: int)
    requires
        0 <= k < items.len(),
        forall|i: int| 0 <= i < items.len() && i != k ==> (#[trigger] items[i]).0 != items[k].0,
    ensures
        lookup(items, items[k].0) == items[k].1,
    decreases items.len(),
{
    let rest = items.skip(1);
    if k == 0 {
        if items[0].1 is None {
            lemma_lookup_none(rest, items[0].0);
        }
    } else {
        assert(rest[k - 1] == items[k]);
        lemma_lookup_at(rest, k - 1);
        assert(items[0].0 != items[k].0);
    }
}

proof fn lemma_lookup_none(items: Seq<(Seq<u8>, Option<Seq<u8>>)>, wanted: Seq<u8>)
    requires
        forall|i: int| 0 <= i < items.len() ==> (#[trigger] items[i]).0 != wanted,
    ensures
        lookup(items, wanted) is None,
    decreases items.len(),
{
    if items.len() > 0 {
        assert(items[0].0 != wanted);
        lemma_lookup_none(items.skip(1), wanted);
    }
}

/// Whether the types of boxes are four bytes long and pairwise different.
spec fn distinct_types(items: Seq<(Seq<u8>, Option<Seq<u8>>)>) -> bool {
    &&& forall|i: int| 0 <= i < items.len() ==> (#[trigger] items[i]).0.len() == 4
    &&& forall|i: int, k: int|
        0 <= i < items.len() && 0 <= k < items.len() && i != k ==> (#[trigger] items[i]).0 != (
        #[trigger] items[k]).0
}

/// Each of several boxes of different types is found.
proof fn lemma_all_found(items: Seq<(Seq<u8>, Option<Seq<u8>>)>)
    requires
        written(items).len() <= u32::MAX,
        distinct_types(items),
    ensures
        forall|k: int|
            0 <= k < items.len() ==> boxes::find_box(
                written(items),
                (#[trigger] items[k]).0,
            ) == items[k].1,
        is_laid_out(written(items)),
{
    lemma_lookup(items, Seq::empty());
    assert forall|k: int| 0 <= k < items.len() implies boxes::find_box(
        written(items),
        (#[trigger] items[k]).0,
    ) == items[k].1 by {
        lemma_lookup(items, items[k].0);
        lemma_lookup_at(items, k);
    }
}

proof fn lemma_stbl_distinct(
    stsd: Seq<u8>,
    sizes: Seq<u32>,
    stts: Seq<(u32, u32)>,
    ctts: Option<Seq<(u32, i32)>>,
    sync: Option<Seq<u32>>,
    offsets: Seq<u64>,
)
    ensures
        distinct_types(stbl_items(stsd, sizes, stts, ctts, sync, offsets)),
        !mp4_writer::fits32(offsets) ==> forall|i: int|
            0 <= i < 7 ==> (#[trigger] stbl_items(stsd, sizes, stts, ctts, sync, offsets)[i]).0
                != Mp4Box::Stco.fourcc(),
{
    lemma_stbl_types_differ();
}

proof fn lemma_stbl_written(
    stsd: Seq<u8>,
    sizes: Seq<u32>,
    stts: Seq<(u32, u32)>,
    ctts: Option<Seq<(u32, i32)>>,
    sync: Option<Seq<u32>>,
    offsets: Seq<u64>,
)
    ensures
        written(stbl_items(stsd, sizes, stts, ctts, sync, offsets)) == mp4_writer::stbl_payload(
            boxes::box_bytes(Mp4Box::Stsd.fourcc(), stsd),
            sizes,
            stts,
            ctts,
            sync,
            offsets,
        ),
{
    lemma_written_seven(stbl_items(stsd, sizes, stts, ctts, sync, offsets));
}

/// What a written sample table holds, box by box.
proof fn lemma_stbl_boxes(
    stsd: Seq<u8>,
    sizes: Seq<u32>,
    stts: Seq<(u32, u32)>,
    ctts: Option<Seq<(u32, i32)>>,
    sync: Option<Seq<u32>>,
    offsets: Seq<u64>,
)
    requires
        mp4_writer::stbl_payload(
            boxes::box_bytes(Mp4Box::Stsd.fourcc(), stsd),
            sizes,
            stts,
            ctts,
            sync,
            offsets,
        ).len() <= u32::MAX,
    ensures
        ({
            let p = mp4_writer::stbl_payload(
                boxes::box_bytes(Mp4Box::Stsd.fourcc(), stsd),
                sizes,
                stts,
                ctts,
                sync,
                offsets,
            );
            &&& boxes::find_box(p, Mp4Box::Stsd.fourcc()) == Some(stsd)
            &&& boxes::find_box(p, Mp4Box::Stts.fourcc()) == Some(
                mp4_writer::words(mp4_writer::stts_words(stts)),
            )
            &&& boxes::find_box(p, Mp4Box::Ctts.fourcc()) == payload_of(
                mp4_writer::ctts_part(ctts),
            )
            &&& boxes::find_box(p, Mp4Box::Stsz.fourcc()) == Some(
                mp4_writer::words(mp4_writer::stsz_words(sizes)),
            )
            &&& boxes::find_box(p, Mp4Box::Stsc.fourcc()) == Some(
                mp4_writer::words(mp4_writer::stsc_words()),
            )
            &&& mp4_writer::fits32(offsets) ==> boxes::find_box(p, Mp4Box::Stco.fourcc()) == Some(
                mp4_writer::words(mp4_writer::stco_words(offsets)),
            )
            &&& !mp4_writer::fits32(offsets) ==> boxes::find_box(p, Mp4Box::Stco.fourcc()) is None
                && boxes::find_box(p, Mp4Box::Co64.fourcc()) == Some(
                mp4_writer::words(mp4_writer::co64_words(offsets)),
            )
            &&& boxes::find_box(p, Mp4Box::Stss.fourcc()) == payload_of(
                mp4_writer::stss_part(sync),
            )
            &&& is_laid_out(p)
        }),
{
    let items = stbl_items(stsd, sizes, stts, ctts, sync, offsets);
    lemma_stbl_written(stsd, sizes, stts, ctts, sync, offsets);
    lemma_stbl_distinct(stsd, sizes, stts, ctts, sync, offsets);
    lemma_all_found(items);
    assert(items[0] == (Mp4Box::Stsd.fourcc(), Some(stsd)));
    assert(items[1] == (
        Mp4Box::Stts.fourcc(),
        Some(mp4_writer::words(mp4_writer::stts_words(stts))),
    ));
    assert(items[2] == (Mp4Box::Ctts.fourcc(), payload_of(mp4_writer::ctts_part(ctts))));
    assert(items[3] == (
        Mp4Box::Stsz.fourcc(),
        Some(mp4_writer::words(mp4_writer::stsz_words(sizes))),
    ));
    assert(items[4] == (
        Mp4Box::Stsc.fourcc(),
        Some(mp4_writer::words(mp4_writer::stsc_words())),
    ));
    assert(items[6] == (Mp4Box::Stss.fourcc(), payload_of(mp4_writer::stss_part(sync))));
    if mp4_writer::fits32(offsets) {
        assert(items[5].0 == Mp4Box::Stco.fourcc());
    } else {
        assert(items[5].0 == Mp4Box::Co64.fourcc());
        lemma_lookup(items, Mp4Box::Stco.fourcc());
        lemma_lookup_none(items, Mp4Box::Stco.fourcc());
    }
}

/// The box types of a track are told apart.
proof fn lemma_trak_types_differ()
    ensures
        Mp4Box::Tkhd.fourcc() != Tag::Edts.code(),
        Mp4Box::Tkhd.fourcc() != Mp4Box::Mdia.fourcc(),
        Tag::Edts.code() != Mp4Box::Mdia.fourcc(),
        Mp4Box::Mdhd.fourcc() != Mp4Box::Hdlr.fourcc(),
        Mp4Box::Mdhd.fourcc() != Mp4Box::Minf.fourcc(),
        Mp4Box::Hdlr.fourcc() != Mp4Box::Minf.fourcc(),
        Tag::Vmhd.code() != Tag::Dinf.code(),
        Tag::Vmhd.code() != Mp4Box::Stbl.fourcc(),
        Tag::Smhd.code() != Tag::Dinf.code(),
        Tag::Smhd.code() != Mp4Box::Stbl.fourcc(),
        Tag::Dinf.code() != Mp4Box::Stbl.fourcc(),
        Mp4Box::Mvhd.fourcc() != Mp4Box::Trak.fourcc(),
        Tag::Vide.code() != Tag::Soun.code(),
{
    lemma_differ(Mp4Box::Tkhd.fourcc(), Tag::Edts.code(), 0);
    lemma_differ(Mp4Box::Tkhd.fourcc(), Mp4Box::Mdia.fourcc(), 0);
    lemma_differ(Tag::Edts.code(), Mp4Box::Mdia.fourcc(), 0);
    lemma_differ(Mp4Box::Mdhd.fourcc(), Mp4Box::Hdlr.fourcc(), 0);
    lemma_differ(Mp4Box::Mdhd.fourcc(), Mp4Box::Minf.fourcc(), 1);
    lemma_differ(Mp4Box::Hdlr.fourcc(), Mp4Box::Minf.fourcc(), 0);
    lemma_differ(Tag::Vmhd.code(), Tag::Dinf.code(), 0);
    lemma_differ(Tag::Vmhd.code(), Mp4Box::Stbl.fourcc(), 0);
    lemma_differ(Tag::Smhd.code(), Tag::Dinf.code(), 0);
    lemma_differ(Tag::Smhd.code(), Mp4Box::Stbl.fourcc(), 1);
    lemma_differ(Tag::Dinf.code(), Mp4Box::Stbl.fourcc(), 0);
    lemma_differ(Mp4Box::Mvhd.fourcc(), Mp4Box::Trak.fourcc(), 0);
    lemma_differ(Tag::Vide.code(), Tag::Soun.code(), 0);
}

/// A box that is found lies inside the data.
proof fn lemma_found_fits(data: Seq<u8>, fourcc: Seq<u8>)
    ensures
        boxes::find_box(data, fourcc) is Some ==> boxes::find_box(data, fourcc)->0.len() + 8
            <= data.len(),
    decreases data.len(),
{
    if data.len() >= 8 && boxes::box_type(data) != fourcc && 0 < boxes::box_size(data)
        <= data.len() {
        lemma_found_fits(data.skip(boxes::box_size(data)), fourcc);
    }
}

/// Each of three boxes of different types is found.
proof fn lemma_three_found(
    a: (Seq<u8>, Option<Seq<u8>>),
    b: (Seq<u8>, Option<Seq<u8>>),
    c: (Seq<u8>, Option<Seq<u8>>),
    data: Seq<u8>,
)
    requires
        data == bytes_of(a) + bytes_of(b) + bytes_of(c),
        data.len() <= u32::MAX,
        a.0.len() == 4,
        b.0.len() == 4,
        c.0.len() == 4,
        a.0 != b.0,
        a.0 != c.0,
        b.0 != c.0,
    ensures
        boxes::find_box(data, a.0) == a.1,
        boxes::find_box(data, b.0) == b.1,
        boxes::find_box(data, c.0) == c.1,
        is_laid_out(data),
{
    let items = seq![a, b, c];
    lemma_written_three(items);
    lemma_all_found(items);
    assert(items[0] == a && items[1] == b && items[2] == c);
}

/// The media information found in a written `minf`.
proof fn lemma_minf_boxes(header: Tag, payload: Seq<u8>, stbl: Seq<u8>)
    requires
        header == Tag::Vmhd || header == Tag::Smhd,
        (boxes::box_bytes(header.code(), payload) + mp4_writer::dinf_box() + boxes::box_bytes(
            Mp4Box::Stbl.fourcc(),
            stbl,
        )).len() <= u32::MAX,
    ensures
        boxes::find_box(
            boxes::box_bytes(header.code(), payload) + mp4_writer::dinf_box() + boxes::box_bytes(
                Mp4Box::Stbl.fourcc(),
                stbl,
            ),
            Mp4Box::Stbl.fourcc(),
        ) == Some(stbl),
        is_laid_out(
            boxes::box_bytes(header.code(), payload) + mp4_writer::dinf_box() + boxes::box_bytes(
                Mp4Box::Stbl.fourcc(),
                stbl,
            ),
        ),
{
    let dinf = boxes::box_bytes(
        Tag::Dref.code(),
        mp4_writer::words(seq![0, 1]) + boxes::box_bytes(
            Tag::Url.code(),
            mp4_writer::words(seq![1]),
        ),
    );
    lemma_trak_types_differ();
    lemma_three_found(
        (header.code(), Some(payload)),
        (Tag::Dinf.code(), Some(dinf)),
        (Mp4Box::Stbl.fourcc(), Some(stbl)),
        boxes::box_bytes(header.code(), payload) + mp4_writer::dinf_box() + boxes::box_bytes(
            Mp4Box::Stbl.fourcc(),
            stbl,
        ),
    );
}

/// The boxes found in a written `mdia`.
proof fn lemma_mdia_boxes(mdhd: Seq<u8>, hdlr: Seq<u8>, header: Seq<u8>, stbl: Seq<u8>)
    requires
        mp4_writer::mdia_payload(mdhd, hdlr, header, stbl).len() <= u32::MAX,
    ensures
        ({
            let mdia = mp4_writer::mdia_payload(mdhd, hdlr, header, stbl);
            &&& boxes::find_box(mdia, Mp4Box::Mdhd.fourcc()) == Some(mdhd)
            &&& boxes::find_box(mdia, Mp4Box::Hdlr.fourcc()) == Some(hdlr)
            &&& boxes::find_box(mdia, Mp4Box::Minf.fourcc()) == Some(
                header + mp4_writer::dinf_box() + stbl,
            )
            &&& is_laid_out(mdia)
        }),
{
    lemma_trak_types_differ();
    lemma_three_found(
        (Mp4Box::Mdhd.fourcc(), Some(mdhd)),
        (Mp4Box::Hdlr.fourcc(), Some(hdlr)),
        (Mp4Box::Minf.fourcc(), Some(header + mp4_writer::dinf_box() + stbl)),
        mp4_writer::mdia_payload(mdhd, hdlr, header, stbl),
    );
}

/// The contents of the `edts` of a track that has edits.
spec fn edts_payload(edits: Option<Seq<EditListEntry>>) -> Option<Seq<u8>> {
    match edits {
        Some(list) => Some(mp4_writer::edts_box(list).skip(8)),
        None => None,
    }
}

/// The boxes found in a written `trak`.
proof fn lemma_trak_boxes(tkhd: Seq<u32>, edits: Option<Seq<EditListEntry>>, mdia: Seq<u8>)
    requires
        mp4_writer::trak_payload(tkhd, edits, mdia).len() <= u32::MAX,
    ensures
        ({
            let trak = mp4_writer::trak_payload(tkhd, edits, mdia);
            &&& boxes::find_box(trak, Mp4Box::Tkhd.fourcc()) == Some(mp4_writer::words(tkhd))
            &&& boxes::find_box(trak, Mp4Box::Mdia.fourcc()) == Some(mdia)
            &&& is_laid_out(trak)
        }),
{
    lemma_trak_types_differ();
    if edits is Some {
        let inner = boxes::box_bytes(
            Tag::Elst.code(),
            mp4_writer::words(
                seq![
                    if mp4_writer::is_wide_list(edits->0) {
                        0x100_0000
                    } else {
                        0
                    },
                    boxes::wrap32(edits->0.len()),
                ],
            ) + mp4_writer::edits_bytes(edits->0, mp4_writer::is_wide_list(edits->0)),
        );
        assert(mp4_writer::edts_box(edits->0) == boxes::box_bytes(Tag::Edts.code(), inner));
        assert(mp4_writer::edts_box(edits->0).skip(8) =~= inner);
    }
    assert(bytes_of((Tag::Edts.code(), edts_payload(edits))) == mp4_writer::edts_part(edits));
    lemma_three_found(
        (Mp4Box::Tkhd.fourcc(), Some(mp4_writer::words(tkhd))),
        (Tag::Edts.code(), edts_payload(edits)),
        (Mp4Box::Mdia.fourcc(), Some(mdia)),
        mp4_writer::trak_payload(tkhd, edits, mdia),
    );
}

proof fn lemma_words_len(ws: Seq<u32>)
    ensures
        mp4_writer::words(ws).len() == 4 * ws.len(),
{
    mp4_writer::lemma_words(ws);
}

/// Parts laid end to end are no longer than the whole.
proof fn lemma_seven_parts(
    a: Seq<u8>,
    b: Seq<u8>,
    c: Seq<u8>,
    d: Seq<u8>,
    e: Seq<u8>,
    f: Seq<u8>,
    g: Seq<u8>,
    n: int,
)
    requires
        (a + b + c + d + e + f + g).len() <= n,
    ensures
        a.len() <= n,
        b.len() <= n,
        c.len() <= n,
        d.len() <= n,
        f.len() <= n,
        g.len() <= n,
{
}

proof fn lemma_box_len(fourcc: Seq<u8>, payload: Seq<u8>)
    requires
        fourcc.len() == 4,
    ensures
        boxes::box_bytes(fourcc, payload).len() == payload.len() + 8,
{
}

proof fn lemma_words_box_len(fourcc: Seq<u8>, ws: Seq<u32>)
    requires
        fourcc.len() == 4,
    ensures
        boxes::box_bytes(fourcc, mp4_writer::words(ws)).len() == 4 * ws.len() + 8,
{
    lemma_words_len(ws);
}

proof fn lemma_sizes_bounded(sizes: Seq<u32>)
    requires
        boxes::box_bytes(
            Mp4Box::Stsz.fourcc(),
            mp4_writer::words(mp4_writer::stsz_words(sizes)),
        ).len() <= u32::MAX,
    ensures
        sizes.len() <= u32::MAX,
{
    lemma_words_box_len(Mp4Box::Stsz.fourcc(), mp4_writer::stsz_words(sizes));
}

proof fn lemma_stts_bounded(stts: Seq<(u32, u32)>)
    requires
        boxes::box_bytes(
            Mp4Box::Stts.fourcc(),
            mp4_writer::words(mp4_writer::stts_words(stts)),
        ).len() <= u32::MAX,
    ensures
        stts.len() <= u32::MAX,
{
    lemma_words_box_len(Mp4Box::Stts.fourcc(), mp4_writer::stts_words(stts));
}

proof fn lemma_offsets_bounded(offsets: Seq<u64>)
    requires
        mp4_writer::offsets_box(offsets).len() <= u32::MAX,
    ensures
        offsets.len() <= u32::MAX,
{
    lemma_words_box_len(Mp4Box::Stco.fourcc(), mp4_writer::stco_words(offsets));
    lemma_words_box_len(Mp4Box::Co64.fourcc(), mp4_writer::co64_words(offsets));
}

proof fn lemma_ctts_bounded(ctts: Option<Seq<(u32, i32)>>)
    requires
        mp4_writer::optional_box(Mp4Box::Ctts.fourcc(), mp4_writer::ctts_part(ctts)).len()
            <= u32::MAX,
    ensures
        ctts is Some ==> ctts->0.len() <= u32::MAX,
{
    if ctts is Some {
        lemma_words_box_len(Mp4Box::Ctts.fourcc(), mp4_writer::ctts_words(ctts->0));
    }
}

proof fn lemma_sync_bounded(sync: Option<Seq<u32>>)
    requires
        mp4_writer::optional_box(Mp4Box::Stss.fourcc(), mp4_writer::stss_part(sync)).len()
            <= u32::MAX,
    ensures
        sync is Some ==> sync->0.len() <= u32::MAX,
{
    if sync is Some {
        lemma_words_box_len(Mp4Box::Stss.fourcc(), mp4_writer::stss_words(sync->0));
    }
}

/// The boxes of a sample table are no longer than the table.
proof fn lemma_stbl_parts(
    stsd: Seq<u8>,
    sizes: Seq<u32>,
    stts: Seq<(u32, u32)>,
    ctts: Option<Seq<(u32, i32)>>,
    sync: Option<Seq<u32>>,
    offsets: Seq<u64>,
)
    requires
        mp4_writer::stbl_payload(
            boxes::box_bytes(Mp4Box::Stsd.fourcc(), stsd),
            sizes,
            stts,
            ctts,
            sync,
            offsets,
        ).len() <= u32::MAX,
    ensures
        boxes::box_bytes(Mp4Box::Stsd.fourcc(), stsd).len() <= u32::MAX,
        boxes::box_bytes(
            Mp4Box::Stts.fourcc(),
            mp4_writer::words(mp4_writer::stts_words(stts)),
        ).len() <= u32::MAX,
        mp4_writer::optional_box(Mp4Box::Ctts.fourcc(), mp4_writer::ctts_part(ctts)).len()
            <= u32::MAX,
        boxes::box_bytes(
            Mp4Box::Stsz.fourcc(),
            mp4_writer::words(mp4_writer::stsz_words(sizes)),
        ).len() <= u32::MAX,
        mp4_writer::offsets_box(offsets).len() <= u32::MAX,
        mp4_writer::optional_box(Mp4Box::Stss.fourcc(), mp4_writer::stss_part(sync)).len()
            <= u32::MAX,
{
    lemma_seven_parts(
        boxes::box_bytes(Mp4Box::Stsd.fourcc(), stsd),
        boxes::box_bytes(Mp4Box::Stts.fourcc(), mp4_writer::words(mp4_writer::stts_words(stts))),
        mp4_writer::optional_box(Mp4Box::Ctts.fourcc(), mp4_writer::ctts_part(ctts)),
        boxes::box_bytes(Mp4Box::Stsz.fourcc(), mp4_writer::words(mp4_writer::stsz_words(sizes))),
        boxes::box_bytes(Mp4Box::Stsc.fourcc(), mp4_writer::words(mp4_writer::stsc_words())),
        mp4_writer::offsets_box(offsets),
        mp4_writer::optional_box(Mp4Box::Stss.fourcc(), mp4_writer::stss_part(sync)),
        u32::MAX as int,
    );
}

proof fn lemma_stbl_sizes(
    stsd: Seq<u8>,
    sizes: Seq<u32>,
    stts: Seq<(u32, u32)>,
    ctts: Option<Seq<(u32, i32)>>,
    sync: Option<Seq<u32>>,
    offsets: Seq<u64>,
)
    requires
        mp4_writer::stbl_payload(
            boxes::box_bytes(Mp4Box::Stsd.fourcc(), stsd),
            sizes,
            stts,
            ctts,
            sync,
            offsets,
        ).len() <= u32::MAX,
    ensures
        sizes.len() <= u32::MAX,
{
    lemma_stbl_parts(stsd, sizes, stts, ctts, sync, offsets);
    lemma_sizes_bounded(sizes);
}

proof fn lemma_stbl_runs(
    stsd: Seq<u8>,
    sizes: Seq<u32>,
    stts: Seq<(u32, u32)>,
    ctts: Option<Seq<(u32, i32)>>,
    sync: Option<Seq<u32>>,
    offsets: Seq<u64>,
)
    requires
        mp4_writer::stbl_payload(
            boxes::box_bytes(Mp4Box::Stsd.fourcc(), stsd),
            sizes,
            stts,
            ctts,
            sync,
            offsets,
        ).len() <= u32::MAX,
    ensures
        stts.len() <= u32::MAX,
{
    lemma_stbl_parts(stsd, sizes, stts, ctts, sync, offsets);
    lemma_stts_bounded(stts);
}

proof fn lemma_stbl_compositions(
    stsd: Seq<u8>,
    sizes: Seq<u32>,
    stts: Seq<(u32, u32)>,
    ctts: Option<Seq<(u32, i32)>>,
    sync: Option<Seq<u32>>,
    offsets: Seq<u64>,
)
    requires
        mp4_writer::stbl_payload(
            boxes::box_bytes(Mp4Box::Stsd.fourcc(), stsd),
            sizes,
            stts,
            ctts,
            sync,
            offsets,
        ).len() <= u32::MAX,
    ensures
        ctts is Some ==> ctts->0.len() <= u32::MAX,
{
    lemma_stbl_parts(stsd, sizes, stts, ctts, sync, offsets);
    lemma_ctts_bounded(ctts);
}

proof fn lemma_stbl_syncs(
    stsd: Seq<u8>,
    sizes: Seq<u32>,
    stts: Seq<(u32, u32)>,
    ctts: Option<Seq<(u32, i32)>>,
    sync: Option<Seq<u32>>,
    offsets: Seq<u64>,
)
    requires
        mp4_writer::stbl_payload(
            boxes::box_bytes(Mp4Box::Stsd.fourcc(), stsd),
            sizes,
            stts,
            ctts,
            sync,
            offsets,
        ).len() <= u32::MAX,
    ensures
        sync is Some ==> sync->0.len() <= u32::MAX,
{
    lemma_stbl_parts(stsd, sizes, stts, ctts, sync, offsets);
    lemma_sync_bounded(sync);
}

proof fn lemma_stbl_chunks(
    stsd: Seq<u8>,
    sizes: Seq<u32>,
    stts: Seq<(u32, u32)>,
    ctts: Option<Seq<(u32, i32)>>,
    sync: Option<Seq<u32>>,
    offsets: Seq<u64>,
)
    requires
        mp4_writer::stbl_payload(
            boxes::box_bytes(Mp4Box::Stsd.fourcc(), stsd),
            sizes,
            stts,
            ctts,
            sync,
            offsets,
        ).len() <= u32::MAX,
    ensures
        offsets.len() <= u32::MAX,
{
    lemma_stbl_parts(stsd, sizes, stts, ctts, sync, offsets);
    lemma_offsets_bounded(offsets);
}

/// What an absent list of sync samples reads back as.
pub open spec fn sync_of(sync: Option<Seq<u32>>) -> Seq<u32> {
    match sync {
        Some(list) => list,
        None => Seq::empty(),
    }
}

/// Whether the tables of a `trak` are the given ones, one chunk per sample.
pub open spec fn holds_tables(
    trak: Seq<u8>,
    timescale: u32,
    sizes: Seq<u32>,
    stts: Seq<(u32, u32)>,
    ctts: Option<Seq<(u32, i32)>>,
    sync: Option<Seq<u32>>,
    offsets: Seq<u64>,
) -> bool {
    &&& tables::trak_tables(trak) == Some(
        tables::TablesView {
            timescale,
            sizes,
            offsets,
            timing: stts,
            stsc: seq![(1u32, 1u32)],
            ctts,
        },
    )
    &&& tables::trak_sync_samples(trak) == sync_of(sync)
}

/// The offsets of a sample table: 32-bit ones first, else 64-bit ones, else none.
spec fn table_offsets(stbl: Seq<u8>) -> Seq<u64> {
    match boxes::find_box(stbl, Mp4Box::Stco.fourcc()) {
        Some(stco) => helpers::widened_table(stco),
        None => match boxes::find_box(stbl, Mp4Box::Co64.fourcc()) {
            Some(co64) => helpers::u64_table(co64),
            None => Seq::empty(),
        },
    }
}

/// The composition offsets of a sample table.
spec fn table_ctts(stbl: Seq<u8>) -> Option<Seq<(u32, i32)>> {
    match boxes::find_box(stbl, Mp4Box::Ctts.fourcc()) {
        Some(ctts) => if ctts.len() < 8 {
            None
        } else {
            Some(tables::ctts_table(ctts))
        },
        None => None,
    }
}

/// The sync samples of a sample table.
spec fn table_sync(stbl: Seq<u8>) -> Seq<u32> {
    match boxes::find_box(stbl, Mp4Box::Stss.fourcc()) {
        Some(stss) => tables::stss_table(stss),
        None => Seq::empty(),
    }
}

proof fn lemma_read_sizes(
    stbl: Seq<u8>,
    stsd: Seq<u8>,
    sizes: Seq<u32>,
    stts: Seq<(u32, u32)>,
    ctts: Option<Seq<(u32, i32)>>,
    sync: Option<Seq<u32>>,
    offsets: Seq<u64>,
)
    requires
        stbl.len() <= u32::MAX,
        stbl == mp4_writer::stbl_payload(
            boxes::box_bytes(Mp4Box::Stsd.fourcc(), stsd),
            sizes,
            stts,
            ctts,
            sync,
            offsets,
        ),
    ensures
        boxes::find_box(stbl, Mp4Box::Stsz.fourcc()) is Some,
        helpers::u32_table(boxes::find_box(stbl, Mp4Box::Stsz.fourcc())->0) == sizes,
{
    lemma_stbl_boxes(stsd, sizes, stts, ctts, sync, offsets);
    lemma_stbl_sizes(stsd, sizes, stts, ctts, sync, offsets);
    law_stsz_reads_back(sizes);
}

proof fn lemma_read_runs(
    stbl: Seq<u8>,
    stsd: Seq<u8>,
    sizes: Seq<u32>,
    stts: Seq<(u32, u32)>,
    ctts: Option<Seq<(u32, i32)>>,
    sync: Option<Seq<u32>>,
    offsets: Seq<u64>,
)
    requires
        stbl.len() <= u32::MAX,
        stbl == mp4_writer::stbl_payload(
            boxes::box_bytes(Mp4Box::Stsd.fourcc(), stsd),
            sizes,
            stts,
            ctts,
            sync,
            offsets,
        ),
    ensures
        boxes::find_box(stbl, Mp4Box::Stts.fourcc()) is Some,
        helpers::pair_table(boxes::find_box(stbl, Mp4Box::Stts.fourcc())->0, 8) == stts,
{
    lemma_stbl_boxes(stsd, sizes, stts, ctts, sync, offsets);
    lemma_stbl_runs(stsd, sizes, stts, ctts, sync, offsets);
    law_stts_reads_back(stts);
}

proof fn lemma_read_chunk_sizes(
    stbl: Seq<u8>,
    stsd: Seq<u8>,
    sizes: Seq<u32>,
    stts: Seq<(u32, u32)>,
    ctts: Option<Seq<(u32, i32)>>,
    sync: Option<Seq<u32>>,
    offsets: Seq<u64>,
)
    requires
        stbl.len() <= u32::MAX,
        stbl == mp4_writer::stbl_payload(
            boxes::box_bytes(Mp4Box::Stsd.fourcc(), stsd),
            sizes,
            stts,
            ctts,
            sync,
            offsets,
        ),
    ensures
        boxes::find_box(stbl, Mp4Box::Stsc.fourcc()) is Some,
        helpers::pair_table(boxes::find_box(stbl, Mp4Box::Stsc.fourcc())->0, 12) == seq![
            (1u32, 1u32),
        ],
{
    lemma_stbl_boxes(stsd, sizes, stts, ctts, sync, offsets);
    lemma_stsc_reads_back();
}

proof fn lemma_read_compositions(
    stbl: Seq<u8>,
    stsd: Seq<u8>,
    sizes: Seq<u32>,
    stts: Seq<(u32, u32)>,
    ctts: Option<Seq<(u32, i32)>>,
    sync: Option<Seq<u32>>,
    offsets: Seq<u64>,
)
    requires
        stbl.len() <= u32::MAX,
        stbl == mp4_writer::stbl_payload(
            boxes::box_bytes(Mp4Box::Stsd.fourcc(), stsd),
            sizes,
            stts,
            ctts,
            sync,
            offsets,
        ),
    ensures
        table_ctts(stbl) == ctts,
{
    lemma_stbl_boxes(stsd, sizes, stts, ctts, sync, offsets);
    lemma_stbl_compositions(stsd, sizes, stts, ctts, sync, offsets);
    if ctts is Some {
        law_ctts_reads_back(ctts->0);
    }
}

proof fn lemma_read_syncs(
    stbl: Seq<u8>,
    stsd: Seq<u8>,
    sizes: Seq<u32>,
    stts: Seq<(u32, u32)>,
    ctts: Option<Seq<(u32, i32)>>,
    sync: Option<Seq<u32>>,
    offsets: Seq<u64>,
)
    requires
        stbl.len() <= u32::MAX,
        stbl == mp4_writer::stbl_payload(
            boxes::box_bytes(Mp4Box::Stsd.fourcc(), stsd),
            sizes,
            stts,
            ctts,
            sync,
            offsets,
        ),
    ensures
        table_sync(stbl) == sync_of(sync),
{
    lemma_stbl_boxes(stsd, sizes, stts, ctts, sync, offsets);
    lemma_stbl_syncs(stsd, sizes, stts, ctts, sync, offsets);
    if sync is Some {
        law_stss_reads_back(sync->0);
        if sync->0.len() == 0 {
            assert(sync->0 =~= Seq::empty());
        }
    }
}

proof fn lemma_read_chunks(
    stbl: Seq<u8>,
    stsd: Seq<u8>,
    sizes: Seq<u32>,
    stts: Seq<(u32, u32)>,
    ctts: Option<Seq<(u32, i32)>>,
    sync: Option<Seq<u32>>,
    offsets: Seq<u64>,
)
    requires
        stbl.len() <= u32::MAX,
        stbl == mp4_writer::stbl_payload(
            boxes::box_bytes(Mp4Box::Stsd.fourcc(), stsd),
            sizes,
            stts,
            ctts,
            sync,
            offsets,
        ),
    ensures
        table_offsets(stbl) == offsets,
{
    lemma_stbl_boxes(stsd, sizes, stts, ctts, sync, offsets);
    lemma_stbl_chunks(stsd, sizes, stts, ctts, sync, offsets);
    if mp4_writer::fits32(offsets) {
        law_stco_reads_back(offsets);
    } else {
        law_co64_reads_back(offsets);
    }
}

/// Whether a track is nothing but boxes down to its sample table.
pub open spec fn is_nested(trak: Seq<u8>, stbl: Seq<u8>) -> bool {
    &&& is_laid_out(trak)
    &&& boxes::find_box(trak, Mp4Box::Mdia.fourcc()) matches Some(mdia) && is_laid_out(mdia) && (
    boxes::find_box(mdia, Mp4Box::Minf.fourcc()) matches Some(minf) && is_laid_out(minf)
        && boxes::find_box(minf, Mp4Box::Stbl.fourcc()) == Some(stbl))
}

/// The boxes of a written track are reached.
proof fn lemma_media_boxes(
    trak: Seq<u8>,
    tkhd: Seq<u32>,
    edits: Option<Seq<EditListEntry>>,
    mdhd: Seq<u8>,
    hdlr: Seq<u8>,
    header: Tag,
    header_payload: Seq<u8>,
    stbl: Seq<u8>,
)
    requires
        header == Tag::Vmhd || header == Tag::Smhd,
        trak.len() <= u32::MAX,
        trak == mp4_writer::trak_payload(
            tkhd,
            edits,
            mp4_writer::mdia_payload(
                mdhd,
                hdlr,
                boxes::box_bytes(header.code(), header_payload),
                boxes::box_bytes(Mp4Box::Stbl.fourcc(), stbl),
            ),
        ),
    ensures
        stbl.len() <= u32::MAX,
        boxes::find_box(trak, Mp4Box::Tkhd.fourcc()) == Some(mp4_writer::words(tkhd)),
        tables::mdia_box(trak, Mp4Box::Mdhd) == Some(mdhd),
        tables::mdia_box(trak, Mp4Box::Hdlr) == Some(hdlr),
        forall|which: Mp4Box| #[trigger]
            tables::stbl_box(trak, which) == boxes::find_box(stbl, which.fourcc()),
        is_nested(trak, stbl),
{
    let stbl_b = boxes::box_bytes(Mp4Box::Stbl.fourcc(), stbl);
    let head_b = boxes::box_bytes(header.code(), header_payload);
    let mdia = mp4_writer::mdia_payload(mdhd, hdlr, head_b, stbl_b);
    lemma_trak_boxes(tkhd, edits, mdia);
    lemma_mdia_boxes(mdhd, hdlr, head_b, stbl_b);
    lemma_minf_boxes(header, header_payload, stbl);
}

proof fn lemma_mdhd_timescale(timescale: u32, duration: u64, language: Seq<char>)
    ensures
        mp4_writer::mdhd_payload(timescale, duration, language).len() == 24,
        bytes::be32(mp4_writer::mdhd_payload(timescale, duration, language), 12) == timescale,
{
    let mdhd = mp4_writer::mdhd_payload(timescale, duration, language);
    let ws = seq![0, 0, 0, timescale, boxes::wrap32(duration as nat)];
    mp4_writer::lemma_words(ws);
    assert(bytes::be32(mp4_writer::words(ws), 4 * 3int) == ws[3]);
}

/// Tables read one by one make up the tables of a track.
proof fn lemma_gather(
    trak: Seq<u8>,
    mdhd: Seq<u8>,
    stbl: Seq<u8>,
    timescale: u32,
    sizes: Seq<u32>,
    stts: Seq<(u32, u32)>,
    ctts: Option<Seq<(u32, i32)>>,
    sync: Seq<u32>,
    offsets: Seq<u64>,
)
    requires
        tables::mdia_box(trak, Mp4Box::Mdhd) == Some(mdhd),
        mdhd.len() >= 16,
        bytes::be32(mdhd, 12) == timescale,
        forall|which: Mp4Box| #[trigger]
            tables::stbl_box(trak, which) == boxes::find_box(stbl, which.fourcc()),
        boxes::find_box(stbl, Mp4Box::Stsz.fourcc()) is Some,
        helpers::u32_table(boxes::find_box(stbl, Mp4Box::Stsz.fourcc())->0) == sizes,
        boxes::find_box(stbl, Mp4Box::Stts.fourcc()) is Some,
        helpers::pair_table(boxes::find_box(stbl, Mp4Box::Stts.fourcc())->0, 8) == stts,
        boxes::find_box(stbl, Mp4Box::Stsc.fourcc()) is Some,
        helpers::pair_table(boxes::find_box(stbl, Mp4Box::Stsc.fourcc())->0, 12) == seq![
            (1u32, 1u32),
        ],
        table_ctts(stbl) == ctts,
        table_sync(stbl) == sync,
        table_offsets(stbl) == offsets,
    ensures
        tables::trak_tables(trak) == Some(
            tables::TablesView {
                timescale,
                sizes,
                offsets,
                timing: stts,
                stsc: seq![(1u32, 1u32)],
                ctts,
            },
        ),
        tables::trak_sync_samples(trak) == sync,
{
}

/// The tables of a written track are read back.
proof fn lemma_tables_read_back(
    trak: Seq<u8>,
    mdhd: Seq<u8>,
    timescale: u32,
    stbl: Seq<u8>,
    stsd: Seq<u8>,
    sizes: Seq<u32>,
    stts: Seq<(u32, u32)>,
    ctts: Option<Seq<(u32, i32)>>,
    sync: Option<Seq<u32>>,
    offsets: Seq<u64>,
)
    requires
        stbl.len() <= u32::MAX,
        stbl == mp4_writer::stbl_payload(
            boxes::box_bytes(Mp4Box::Stsd.fourcc(), stsd),
            sizes,
            stts,
            ctts,
            sync,
            offsets,
        ),
        tables::mdia_box(trak, Mp4Box::Mdhd) == Some(mdhd),
        mdhd.len() >= 16,
        bytes::be32(mdhd, 12) == timescale,
        forall|which: Mp4Box| #[trigger]
            tables::stbl_box(trak, which) == boxes::find_box(stbl, which.fourcc()),
    ensures
        holds_tables(trak, timescale, sizes, stts, ctts, sync, offsets),
{
    lemma_read_sizes(stbl, stsd, sizes, stts, ctts, sync, offsets);
    lemma_read_runs(stbl, stsd, sizes, stts, ctts, sync, offsets);
    lemma_read_chunk_sizes(stbl, stsd, sizes, stts, ctts, sync, offsets);
    lemma_read_compositions(stbl, stsd, sizes, stts, ctts, sync, offsets);
    lemma_read_syncs(stbl, stsd, sizes, stts, ctts, sync, offsets);
    lemma_read_chunks(stbl, stsd, sizes, stts, ctts, sync, offsets);
    lemma_gather(trak, mdhd, stbl, timescale, sizes, stts, ctts, sync_of(sync), offsets);
}

/// The letters of the language that a written track carries.
pub open spec fn language_text(language: Seq<char>) -> Seq<char> {
    tables::ascii_text(
        Seq::new(
            3,
            |i: int| mp4_writer::language_letter(vstd::utf8::encode_utf8(language), i) as u8,
        ),
    )
}

proof fn lemma_packed_letters(bits: u16, a: u16, b: u16, c: u16)
    requires
        1 <= a <= 26,
        1 <= b <= 26,
        1 <= c <= 26,
        bits == a * 1024 + b * 32 + c,
    ensures
        bits / 1024 % 32 == a,
        bits / 32 % 32 == b,
        bits % 32 == c,
        bits != 0,
{
    assert(bits / 1024 % 32 == a && bits / 32 % 32 == b && bits % 32 == c) by (bit_vector)
        requires
            1 <= a <= 26,
            1 <= b <= 26,
            1 <= c <= 26,
            bits == a * 1024 + b * 32 + c,
    ;
}

proof fn lemma_mdhd_bits(timescale: u32, duration: u64, language: Seq<char>)
    ensures
        bytes::be16(mp4_writer::mdhd_payload(timescale, duration, language), 20)
            == mp4_writer::language_bits(vstd::utf8::encode_utf8(language)),
{
    let bits = mp4_writer::language_bits(vstd::utf8::encode_utf8(language));
    let mdhd = mp4_writer::mdhd_payload(timescale, duration, language);
    let ws = seq![0, 0, 0, timescale, boxes::wrap32(duration as nat)];
    lemma_words_len(ws);
    assert(mdhd.subrange(20, 22) =~= bytes::be16_bytes(bits));
    bytes::lemma_be16_roundtrip(mdhd, 20, bits);
}

proof fn lemma_bits_reads_back(lang: Seq<u8>, mdhd: Seq<u8>)
    requires
        mdhd.len() == 24,
        bytes::be16(mdhd, 20) == mp4_writer::language_bits(lang),
    ensures
        tables::mdhd_language(mdhd) == Some(
            tables::ascii_text(
                Seq::new(3, |i: int| mp4_writer::language_letter(lang, i) as u8),
            ),
        ),
{
    let bits = mp4_writer::language_bits(lang);
    let a = mp4_writer::language_letter(lang, 0) - 0x60;
    let b = mp4_writer::language_letter(lang, 1) - 0x60;
    let c = mp4_writer::language_letter(lang, 2) - 0x60;
    lemma_packed_letters(bits, a as u16, b as u16, c as u16);
    let l = tables::language_letters(bits);
    assert(l[0] == a + 0x60 && l[1] == b + 0x60 && l[2] == c + 0x60);
    assert(tables::ascii_text(l) =~= tables::ascii_text(
        Seq::new(3, |i: int| mp4_writer::language_letter(lang, i) as u8),
    ));
}

/// The language written to an `mdhd` is read back: its first three letters,
/// each replaced by that of `und` where it is not one of a to z.
pub proof fn law_language_reads_back(timescale: u32, duration: u64, language: Seq<char>)
    ensures
        tables::mdhd_language(mp4_writer::mdhd_payload(timescale, duration, language)) == Some(
            language_text(language),
        ),
{
    lemma_mdhd_timescale(timescale, duration, language);
    lemma_mdhd_bits(timescale, duration, language);
    lemma_bits_reads_back(
        vstd::utf8::encode_utf8(language),
        mp4_writer::mdhd_payload(timescale, duration, language),
    );
}

/// What an `avc1` entry reads back as.
pub open spec fn avc_of(avcc: Seq<u8>, width: u16, height: u16) -> entries::AvcView {
    let sets = match entries::first_sps_pps(avcc) {
        Some(pair) => pair,
        None => (Seq::empty(), Seq::empty()),
    };
    entries::AvcView { avcc_payload: avcc, sps: sets.0, pps: sets.1, width, height }
}

/// Whether `entry` is taken as the first entry of a sample description.
#[verifier::opaque]
spec fn is_first_entry(stsd: Seq<u8>, a: Tag, b: Tag, entry: Seq<u8>) -> bool {
    entries::first_entry(stsd, a, b) == Some(entry)
}

/// Whether `payload` is that of the first box of its type behind the `at` fixed bytes of an entry.
#[verifier::opaque]
spec fn is_entry_box(entry: Seq<u8>, at: int, fourcc: Seq<u8>, payload: Seq<u8>) -> bool {
    entries::first_of(boxes::box_list(entry.skip(at)), fourcc) == Some(payload)
}

/// The only entry of an `stsd` is taken whole.
proof fn lemma_first_entry(tag: Tag, other: Tag, entry: Seq<u8>, stsd: Seq<u8>)
    requires
        stsd == mp4_writer::words(seq![0, 1]) + boxes::box_bytes(tag.code(), entry),
        stsd.len() <= u32::MAX,
    ensures
        is_first_entry(stsd, tag, other, entry),
        entry.len() <= u32::MAX,
{
    reveal(is_first_entry);
    let ws: Seq<u32> = seq![0, 1];
    mp4_writer::lemma_words(ws);
    let size = boxes::wrap32(entry.len() + 8);
    assert(stsd.subrange(8, 12) =~= bytes::be32_bytes(size));
    bytes::lemma_be32_roundtrip(stsd, 8, size);
    assert(stsd.subrange(12, 16) =~= tag.code());
    assert(stsd.subrange(16, 8 + bytes::be32(stsd, 8)) =~= entry);
}

/// The only box behind the fixed fields of a sample entry is listed.
proof fn lemma_entry_box(base: Seq<u8>, fourcc: Seq<u8>, payload: Seq<u8>)
    requires
        fourcc.len() == 4,
        (base + boxes::box_bytes(fourcc, payload)).len() <= u32::MAX,
    ensures
        is_entry_box(
            base + boxes::box_bytes(fourcc, payload),
            base.len() as int,
            fourcc,
            payload,
        ),
{
    reveal(is_entry_box);
    let nil = Seq::<u8>::empty();
    let b = boxes::box_bytes(fourcc, payload);
    assert((base + b).skip(base.len() as int) =~= b + nil);
    boxes::lemma_box_list_cons(fourcc, payload, nil);
    assert(boxes::box_list(b + nil)[0] == (fourcc, payload));
}

#[verifier::spinoff_prover]
#[verifier::rlimit(40)]
proof fn lemma_visual_base(width: u16, height: u16, rest: Seq<u8>)
    ensures
        mp4_writer::visual_entry_base(width, height).len() == 78,
        bytes::be16(mp4_writer::visual_entry_base(width, height) + rest, 24) == width,
        bytes::be16(mp4_writer::visual_entry_base(width, height) + rest, 26) == height,
{
    let ws: Seq<u32> = seq![0x48_0000, 0x48_0000, 0];
    mp4_writer::lemma_words(ws);
    let entry = mp4_writer::visual_entry_base(width, height) + rest;
    assert(entry.subrange(24, 26) =~= bytes::be16_bytes(width));
    assert(entry.subrange(26, 28) =~= bytes::be16_bytes(height));
    bytes::lemma_be16_roundtrip(entry, 24, width);
    bytes::lemma_be16_roundtrip(entry, 26, height);
}

proof fn lemma_audio_base(channels: u16, sample_rate: u32, rest: Seq<u8>)
    ensures
        mp4_writer::audio_entry_base(channels, sample_rate).len() == 28,
        bytes::be16(mp4_writer::audio_entry_base(channels, sample_rate) + rest, 16) == channels,
        bytes::be32(mp4_writer::audio_entry_base(channels, sample_rate) + rest, 24) / 0x1_0000
            == sample_rate % 0x1_0000,
{
    let entry = mp4_writer::audio_entry_base(channels, sample_rate) + rest;
    let rate = (sample_rate % 0x1_0000 * 0x1_0000) as u32;
    assert(entry.subrange(16, 18) =~= bytes::be16_bytes(channels));
    assert(entry.subrange(24, 28) =~= bytes::be32_bytes(rate));
    bytes::lemma_be16_roundtrip(entry, 16, channels);
    bytes::lemma_be32_roundtrip(entry, 24, rate);
}

proof fn lemma_handler(tag: Tag, name: Seq<u8>)
    ensures
        entries::handler_is(Some(mp4_writer::hdlr_payload(tag, name)), tag),
        mp4_writer::hdlr_payload(tag, name).subrange(8, 12) == tag.code(),
{
    let h = mp4_writer::hdlr_payload(tag, name);
    let a: Seq<u32> = seq![0, 0];
    let b: Seq<u32> = seq![0, 0, 0];
    mp4_writer::lemma_words(a);
    mp4_writer::lemma_words(b);
    assert(h.subrange(8, 12) =~= tag.code());
}

proof fn lemma_tkhd_id(track_id: u32, duration: u64, volume: u16, width: u16, height: u16)
    ensures
        tables::tkhd_track_id(
            mp4_writer::words(mp4_writer::tkhd_words(track_id, duration, volume, width, height)),
        ) == Some(track_id),
{
    let ws = mp4_writer::tkhd_words(track_id, duration, volume, width, height);
    let data = mp4_writer::words(ws);
    mp4_writer::lemma_words(ws);
    assert(bytes::be32(data, 4 * 3int) == ws[3]);
    assert(bytes::be32(data, 4 * 0int) == ws[0]);
    assert(ws[0] == 7);
    assert(data[0] != 1);
}

/// The fields of an `avc1` entry make up what is read of it.
proof fn lemma_avc_fields(trak: Seq<u8>, stsd: Seq<u8>, entry: Seq<u8>, avcc: Seq<u8>)
    requires
        tables::stbl_box(trak, Mp4Box::Stsd) == Some(stsd),
        is_first_entry(stsd, Tag::Avc1, Tag::Avc3, entry),
        entry.len() >= 78,
        is_entry_box(entry, 78, Tag::AvcC.code(), avcc),
    ensures
        entries::trak_avc(trak) == Some(
            avc_of(avcc, bytes::be16(entry, 24), bytes::be16(entry, 26)),
        ),
{
    reveal(is_first_entry);
    reveal(is_entry_box);
}

/// The fields of an `mp4a` entry make up what is read of it.
proof fn lemma_mp4a_fields(trak: Seq<u8>, stsd: Seq<u8>, entry: Seq<u8>, esds: Seq<u8>)
    requires
        tables::stbl_box(trak, Mp4Box::Stsd) == Some(stsd),
        is_first_entry(stsd, Tag::Mp4a, Tag::Mp4a, entry),
        entry.len() >= 28,
        is_entry_box(entry, 28, Tag::Esds.code(), esds),
    ensures
        entries::trak_mp4a(trak) == Some(
            entries::Mp4aView {
                esds_payload: esds,
                channels: bytes::be16(entry, 16),
                sample_rate: bytes::be32(entry, 24) / 0x1_0000,
            },
        ),
{
    reveal(is_first_entry);
    reveal(is_entry_box);
}

/// The `avc1` entry of a written sample description is read back.
proof fn lemma_avc_entry(trak: Seq<u8>, stsd: Seq<u8>, base: Seq<u8>, avcc: Seq<u8>)
    requires
        tables::stbl_box(trak, Mp4Box::Stsd) == Some(stsd),
        stsd.len() <= u32::MAX,
        base.len() == 78,
        stsd == mp4_writer::words(seq![0, 1]) + boxes::box_bytes(
            Tag::Avc1.code(),
            base + boxes::box_bytes(Tag::AvcC.code(), avcc),
        ),
    ensures
        ({
            let entry = base + boxes::box_bytes(Tag::AvcC.code(), avcc);
            entries::trak_avc(trak) == Some(
                avc_of(avcc, bytes::be16(entry, 24), bytes::be16(entry, 26)),
            )
        }),
{
    let entry = base + boxes::box_bytes(Tag::AvcC.code(), avcc);
    lemma_first_entry(Tag::Avc1, Tag::Avc3, entry, stsd);
    lemma_entry_box(base, Tag::AvcC.code(), avcc);
    lemma_avc_fields(trak, stsd, entry, avcc);
}

/// The `mp4a` entry of a written sample description is read back.
proof fn lemma_mp4a_entry(trak: Seq<u8>, stsd: Seq<u8>, base: Seq<u8>, esds: Seq<u8>)
    requires
        tables::stbl_box(trak, Mp4Box::Stsd) == Some(stsd),
        stsd.len() <= u32::MAX,
        base.len() == 28,
        stsd == mp4_writer::words(seq![0, 1]) + boxes::box_bytes(
            Tag::Mp4a.code(),
            base + boxes::box_bytes(Tag::Esds.code(), esds),
        ),
    ensures
        ({
            let entry = base + boxes::box_bytes(Tag::Esds.code(), esds);
            entries::trak_mp4a(trak) == Some(
                entries::Mp4aView {
                    esds_payload: esds,
                    channels: bytes::be16(entry, 16),
                    sample_rate: bytes::be32(entry, 24) / 0x1_0000,
                },
            )
        }),
{
    let entry = base + boxes::box_bytes(Tag::Esds.code(), esds);
    lemma_first_entry(Tag::Mp4a, Tag::Mp4a, entry, stsd);
    lemma_entry_box(base, Tag::Esds.code(), esds);
    lemma_mp4a_fields(trak, stsd, entry, esds);
}

/// The sample table of a written video track.
spec fn video_stbl(v: movie::VideoView, sync: Option<Seq<u32>>, offsets: Seq<u64>) -> Seq<u8> {
    mp4_writer::stbl_payload(
        mp4_writer::stsd_box(mp4_writer::avc1_entry(v.width, v.height, v.avcc)),
        v.sizes,
        v.stts,
        v.ctts,
        sync,
        offsets,
    )
}

/// The sample table of a written audio track.
spec fn audio_stbl(a: movie::AudioView, offsets: Seq<u64>) -> Seq<u8> {
    mp4_writer::stbl_payload(
        mp4_writer::stsd_box(mp4_writer::mp4a_entry(a.channels, a.sample_rate, a.esds)),
        a.sizes,
        a.stts,
        a.ctts,
        None,
        offsets,
    )
}

proof fn lemma_video_boxes(
    v: movie::VideoView,
    duration: u64,
    sync: Option<Seq<u32>>,
    offsets: Seq<u64>,
)
    requires
        movie::video_trak(v, duration, sync, offsets).len() <= u32::MAX,
    ensures
        ({
            let trak = movie::video_trak(v, duration, sync, offsets);
            &&& video_stbl(v, sync, offsets).len() <= u32::MAX
            &&& boxes::find_box(trak, Mp4Box::Tkhd.fourcc()) == Some(
                mp4_writer::words(
                    mp4_writer::tkhd_words(v.track_id, duration, 0, v.width, v.height),
                ),
            )
            &&& tables::mdia_box(trak, Mp4Box::Mdhd) == Some(
                mp4_writer::mdhd_payload(
                    v.track_timescale,
                    movie::track_duration(v.stts),
                    v.language,
                ),
            )
            &&& tables::mdia_box(trak, Mp4Box::Hdlr) == Some(
                mp4_writer::hdlr_payload(Tag::Vide, mp4_writer::video_handler_name()),
            )
            &&& forall|which: Mp4Box| #[trigger]
                tables::stbl_box(trak, which) == boxes::find_box(
                    video_stbl(v, sync, offsets),
                    which.fourcc(),
                )
            &&& is_nested(trak, video_stbl(v, sync, offsets))
        }),
{
    lemma_media_boxes(
        movie::video_trak(v, duration, sync, offsets),
        mp4_writer::tkhd_words(v.track_id, duration, 0, v.width, v.height),
        v.edits,
        mp4_writer::mdhd_payload(v.track_timescale, movie::track_duration(v.stts), v.language),
        mp4_writer::hdlr_payload(Tag::Vide, mp4_writer::video_handler_name()),
        Tag::Vmhd,
        mp4_writer::words(seq![1, 0, 0]),
        video_stbl(v, sync, offsets),
    );
}

proof fn lemma_audio_boxes(a: movie::AudioView, duration: u64, offsets: Seq<u64>)
    requires
        movie::audio_trak(a, duration, offsets).len() <= u32::MAX,
    ensures
        ({
            let trak = movie::audio_trak(a, duration, offsets);
            &&& audio_stbl(a, offsets).len() <= u32::MAX
            &&& boxes::find_box(trak, Mp4Box::Tkhd.fourcc()) == Some(
                mp4_writer::words(mp4_writer::tkhd_words(a.track_id, duration, 0x100, 0, 0)),
            )
            &&& tables::mdia_box(trak, Mp4Box::Mdhd) == Some(
                mp4_writer::mdhd_payload(
                    a.track_timescale,
                    movie::track_duration(a.stts),
                    a.language,
                ),
            )
            &&& tables::mdia_box(trak, Mp4Box::Hdlr) == Some(
                mp4_writer::hdlr_payload(Tag::Soun, mp4_writer::sound_handler_name()),
            )
            &&& forall|which: Mp4Box| #[trigger]
                tables::stbl_box(trak, which) == boxes::find_box(
                    audio_stbl(a, offsets),
                    which.fourcc(),
                )
        }),
{
    lemma_media_boxes(
        movie::audio_trak(a, duration, offsets),
        mp4_writer::tkhd_words(a.track_id, duration, 0x100, 0, 0),
        a.edits,
        mp4_writer::mdhd_payload(a.track_timescale, movie::track_duration(a.stts), a.language),
        mp4_writer::hdlr_payload(Tag::Soun, mp4_writer::sound_handler_name()),
        Tag::Smhd,
        mp4_writer::words(seq![0, 0]),
        audio_stbl(a, offsets),
    );
}

/// Whether the boxes of a track, at each level, hold the parts of a video track.
pub open spec fn holds_video(trak: Seq<u8>, v: movie::VideoView, duration: u64) -> bool {
    let stsd = mp4_writer::words(seq![0, 1]) + mp4_writer::avc1_entry(v.width, v.height, v.avcc);
    &&& boxes::find_box(trak, Mp4Box::Tkhd.fourcc()) == Some(
        mp4_writer::words(mp4_writer::tkhd_words(v.track_id, duration, 0, v.width, v.height)),
    )
    &&& tables::mdia_box(trak, Mp4Box::Mdhd) == Some(
        mp4_writer::mdhd_payload(v.track_timescale, movie::track_duration(v.stts), v.language),
    )
    &&& tables::mdia_box(trak, Mp4Box::Hdlr) == Some(
        mp4_writer::hdlr_payload(Tag::Vide, mp4_writer::video_handler_name()),
    )
    &&& exists|stbl: Seq<u8>| #[trigger] is_nested(trak, stbl) && holds_entry(stbl, stsd)
}

/// Whether a sample table is nothing but boxes, and has a sample description.
pub open spec fn holds_entry(stbl: Seq<u8>, stsd: Seq<u8>) -> bool {
    is_laid_out(stbl) && boxes::find_box(stbl, Mp4Box::Stsd.fourcc()) == Some(stsd) && stsd.len()
        <= u32::MAX
}

/// The parts of a written video track are found at each level of its boxes.
pub(crate) proof fn lemma_video_parts(
    v: movie::VideoView,
    duration: u64,
    sync: Option<Seq<u32>>,
    offsets: Seq<u64>,
)
    requires
        movie::video_trak(v, duration, sync, offsets).len() <= u32::MAX,
    ensures
        holds_video(movie::video_trak(v, duration, sync, offsets), v, duration),
{
    let stsd = mp4_writer::words(seq![0, 1]) + mp4_writer::avc1_entry(v.width, v.height, v.avcc);
    lemma_video_boxes(v, duration, sync, offsets);
    lemma_stbl_boxes(stsd, v.sizes, v.stts, v.ctts, sync, offsets);
    lemma_found_fits(video_stbl(v, sync, offsets), Mp4Box::Stsd.fourcc());
    let trak = movie::video_trak(v, duration, sync, offsets);
    assert(is_nested(trak, video_stbl(v, sync, offsets)));
    assert(holds_entry(video_stbl(v, sync, offsets), stsd));
}

/// The tables of a written video track are read back.
pub proof fn law_video_tables_read_back(
    v: movie::VideoView,
    duration: u64,
    sync: Option<Seq<u32>>,
    offsets: Seq<u64>,
)
    requires
        movie::video_trak(v, duration, sync, offsets).len() <= u32::MAX,
    ensures
        holds_tables(
            movie::video_trak(v, duration, sync, offsets),
            v.track_timescale,
            v.sizes,
            v.stts,
            v.ctts,
            sync,
            offsets,
        ),
{
    let ticks = movie::track_duration(v.stts);
    lemma_video_boxes(v, duration, sync, offsets);
    lemma_mdhd_timescale(v.track_timescale, ticks, v.language);
    lemma_tables_read_back(
        movie::video_trak(v, duration, sync, offsets),
        mp4_writer::mdhd_payload(v.track_timescale, ticks, v.language),
        v.track_timescale,
        video_stbl(v, sync, offsets),
        mp4_writer::words(seq![0, 1]) + mp4_writer::avc1_entry(v.width, v.height, v.avcc),
        v.sizes,
        v.stts,
        v.ctts,
        sync,
        offsets,
    );
}

/// The size and the decoder configuration of a written video track are read back.
pub proof fn law_video_entry_reads_back(
    v: movie::VideoView,
    duration: u64,
    sync: Option<Seq<u32>>,
    offsets: Seq<u64>,
)
    requires
        movie::video_trak(v, duration, sync, offsets).len() <= u32::MAX,
    ensures
        entries::trak_avc(movie::video_trak(v, duration, sync, offsets)) == Some(
            avc_of(v.avcc, v.width, v.height),
        ),
{
    let stsd = mp4_writer::words(seq![0, 1]) + mp4_writer::avc1_entry(v.width, v.height, v.avcc);
    lemma_video_boxes(v, duration, sync, offsets);
    lemma_stbl_boxes(stsd, v.sizes, v.stts, v.ctts, sync, offsets);
    lemma_found_fits(video_stbl(v, sync, offsets), Mp4Box::Stsd.fourcc());
    lemma_visual_base(v.width, v.height, boxes::box_bytes(Tag::AvcC.code(), v.avcc));
    lemma_avc_entry(
        movie::video_trak(v, duration, sync, offsets),
        stsd,
        mp4_writer::visual_entry_base(v.width, v.height),
        v.avcc,
    );
}

/// The ID, the handler and the language of a written video track are read back.
pub proof fn law_video_headers_read_back(
    v: movie::VideoView,
    duration: u64,
    sync: Option<Seq<u32>>,
    offsets: Seq<u64>,
)
    requires
        movie::video_trak(v, duration, sync, offsets).len() <= u32::MAX,
    ensures
        entries::trak_id(movie::video_trak(v, duration, sync, offsets)) == v.track_id,
        entries::is_video(movie::video_trak(v, duration, sync, offsets)),
        entries::trak_language(movie::video_trak(v, duration, sync, offsets)) == language_text(
            v.language,
        ),
{
    lemma_video_boxes(v, duration, sync, offsets);
    lemma_handler(Tag::Vide, mp4_writer::video_handler_name());
    lemma_tkhd_id(v.track_id, duration, 0, v.width, v.height);
    law_language_reads_back(v.track_timescale, movie::track_duration(v.stts), v.language);
}

/// The tables of a written audio track are read back.
pub proof fn law_audio_tables_read_back(a: movie::AudioView, duration: u64, offsets: Seq<u64>)
    requires
        movie::audio_trak(a, duration, offsets).len() <= u32::MAX,
    ensures
        holds_tables(
            movie::audio_trak(a, duration, offsets),
            a.track_timescale,
            a.sizes,
            a.stts,
            a.ctts,
            None,
            offsets,
        ),
{
    let ticks = movie::track_duration(a.stts);
    lemma_audio_boxes(a, duration, offsets);
    lemma_mdhd_timescale(a.track_timescale, ticks, a.language);
    lemma_tables_read_back(
        movie::audio_trak(a, duration, offsets),
        mp4_writer::mdhd_payload(a.track_timescale, ticks, a.language),
        a.track_timescale,
        audio_stbl(a, offsets),
        mp4_writer::words(seq![0, 1]) + mp4_writer::mp4a_entry(a.channels, a.sample_rate, a.esds),
        a.sizes,
        a.stts,
        a.ctts,
        None,
        offsets,
    );
}

/// The channels, the sample rate (its low 16 bits) and the decoder
/// configuration of a written audio track are read back.
pub proof fn law_audio_entry_reads_back(a: movie::AudioView, duration: u64, offsets: Seq<u64>)
    requires
        movie::audio_trak(a, duration, offsets).len() <= u32::MAX,
    ensures
        entries::trak_mp4a(movie::audio_trak(a, duration, offsets)) == Some(
            entries::Mp4aView {
                esds_payload: a.esds,
                channels: a.channels,
                sample_rate: a.sample_rate % 0x1_0000,
            },
        ),
{
    let stsd = mp4_writer::words(seq![0, 1]) + mp4_writer::mp4a_entry(
        a.channels,
        a.sample_rate,
        a.esds,
    );
    lemma_audio_boxes(a, duration, offsets);
    lemma_stbl_boxes(stsd, a.sizes, a.stts, a.ctts, None, offsets);
    lemma_found_fits(audio_stbl(a, offsets), Mp4Box::Stsd.fourcc());
    lemma_audio_base(
        a.channels,
        a.sample_rate,
        boxes::box_bytes(Tag::Esds.code(), a.esds),
    );
    lemma_mp4a_entry(
        movie::audio_trak(a, duration, offsets),
        stsd,
        mp4_writer::audio_entry_base(a.channels, a.sample_rate),
        a.esds,
    );
}

/// The ID, the handler and the language of a written audio track are read
/// back. It is no video track.
pub proof fn law_audio_headers_read_back(a: movie::AudioView, duration: u64, offsets: Seq<u64>)
    requires
        movie::audio_trak(a, duration, offsets).len() <= u32::MAX,
    ensures
        entries::trak_id(movie::audio_trak(a, duration, offsets)) == a.track_id,
        !entries::is_video(movie::audio_trak(a, duration, offsets)),
        entries::handler_is(
            tables::mdia_box(movie::audio_trak(a, duration, offsets), Mp4Box::Hdlr),
            Tag::Soun,
        ),
        entries::trak_language(movie::audio_trak(a, duration, offsets)) == language_text(
            a.language,
        ),
{
    lemma_audio_boxes(a, duration, offsets);
    lemma_handler(Tag::Soun, mp4_writer::sound_handler_name());
    lemma_tkhd_id(a.track_id, duration, 0x100, 0, 0);
    law_language_reads_back(a.track_timescale, movie::track_duration(a.stts), a.language);
    lemma_trak_types_differ();
}

/// The tracks of a written movie are listed in order, behind its header.
proof fn lemma_movie_listed(
    head: Seq<u8>,
    traks: Seq<u8>,
    list: Seq<(Seq<u8>, Seq<u8>)>,
    moov: Seq<u8>,
)
    requires
        moov == boxes::box_bytes(
            Mp4Box::Moov.fourcc(),
            boxes::box_bytes(Mp4Box::Mvhd.fourcc(), head) + traks,
        ),
        moov.len() <= u32::MAX,
        boxes::box_list(traks) == list,
    ensures
        boxes::box_list(tables::moov_contents(moov)) == seq![(Mp4Box::Mvhd.fourcc(), head)] + list,
{
    let nil = Seq::<u8>::empty();
    let content = boxes::box_bytes(Mp4Box::Mvhd.fourcc(), head) + traks;
    assert(moov + nil =~= moov);
    boxes::lemma_find_box_hit(Mp4Box::Moov.fourcc(), content, nil);
    boxes::lemma_box_list_cons(Mp4Box::Mvhd.fourcc(), head, traks);
}

proof fn lemma_one_trak_listed(trak: Seq<u8>)
    requires
        boxes::box_bytes(Mp4Box::Trak.fourcc(), trak).len() <= u32::MAX,
    ensures
        boxes::box_list(boxes::box_bytes(Mp4Box::Trak.fourcc(), trak)) == seq![
            (Mp4Box::Trak.fourcc(), trak),
        ],
        trak.len() <= u32::MAX,
{
    let nil = Seq::<u8>::empty();
    let b = boxes::box_bytes(Mp4Box::Trak.fourcc(), trak);
    assert(b + nil =~= b);
    boxes::lemma_box_list_cons(Mp4Box::Trak.fourcc(), trak, nil);
    assert(boxes::box_list(nil) =~= Seq::empty());
    assert(boxes::box_list(b) =~= seq![(Mp4Box::Trak.fourcc(), trak)]);
}

proof fn lemma_first_video(list: Seq<(Seq<u8>, Seq<u8>)>, head: Seq<u8>, trak: Seq<u8>)
    requires
        list.len() >= 2,
        list[0] == (Mp4Box::Mvhd.fourcc(), head),
        list[1] == (Mp4Box::Trak.fourcc(), trak),
        entries::is_video(trak),
    ensures
        entries::first_trak(list, |t: Seq<u8>| entries::is_video(t)) == Some(trak),
{
    lemma_trak_types_differ();
    reveal_with_fuel(entries::first_trak, 3);
    assert(list.skip(1)[0] == list[1]);
}

/// The header of a written movie.
spec fn head_of(timescale: u32, duration: u64, last_track_id: u32) -> Seq<u8> {
    mp4_writer::words(mp4_writer::mvhd_words(timescale, duration, movie::next_id(last_track_id)))
}

/// Whether a movie lists just the given tracks, the first one of which is a video track.
pub open spec fn lists_tracks(moov: Seq<u8>, traks: Seq<Seq<u8>>) -> bool {
    let list = boxes::box_list(tables::moov_contents(moov));
    &&& list.len() == traks.len() + 1
    &&& list[0].0 == Mp4Box::Mvhd.fourcc()
    &&& forall|i: int|
        0 <= i < traks.len() ==> list[i + 1] == (Mp4Box::Trak.fourcc(), #[trigger] traks[i])
    &&& entries::first_trak(list, |t: Seq<u8>| entries::is_video(t)) == Some(traks[0])
}

proof fn lemma_video_movie(head: Seq<u8>, trak: Seq<u8>, moov: Seq<u8>)
    requires
        moov == boxes::box_bytes(
            Mp4Box::Moov.fourcc(),
            boxes::box_bytes(Mp4Box::Mvhd.fourcc(), head) + boxes::box_bytes(
                Mp4Box::Trak.fourcc(),
                trak,
            ),
        ),
        moov.len() <= u32::MAX,
    ensures
        trak.len() <= u32::MAX,
        entries::is_video(trak) ==> lists_tracks(moov, seq![trak]),
{
    lemma_one_trak_listed(trak);
    lemma_movie_listed(
        head,
        boxes::box_bytes(Mp4Box::Trak.fourcc(), trak),
        seq![(Mp4Box::Trak.fourcc(), trak)],
        moov,
    );
    if entries::is_video(trak) {
        lemma_first_video(boxes::box_list(tables::moov_contents(moov)), head, trak);
    }
}

proof fn lemma_regroup(h: Seq<u8>, v: Seq<u8>, a: Seq<u8>)
    ensures
        h + v + a == h + (v + a),
        (h + v + a).len() == h.len() + v.len() + a.len(),
{
    assert(h + v + a =~= h + (v + a));
}

proof fn lemma_three_listed(
    a: (Seq<u8>, Seq<u8>),
    b: (Seq<u8>, Seq<u8>),
    c: (Seq<u8>, Seq<u8>),
    data: Seq<u8>,
)
    requires
        a.0.len() == 4,
        b.0.len() == 4,
        c.0.len() == 4,
        data == boxes::box_bytes(a.0, a.1) + boxes::box_bytes(b.0, b.1) + boxes::box_bytes(
            c.0,
            c.1,
        ),
        data.len() <= u32::MAX,
    ensures
        boxes::box_list(data) == seq![a, b, c],
        a.1.len() + 8 <= u32::MAX,
        b.1.len() + 8 <= u32::MAX,
        c.1.len() + 8 <= u32::MAX,
{
    let nil = Seq::<u8>::empty();
    let ab = boxes::box_bytes(a.0, a.1);
    let bb = boxes::box_bytes(b.0, b.1);
    let cb = boxes::box_bytes(c.0, c.1);
    lemma_regroup(ab, bb, cb);
    lemma_box_len(a.0, a.1);
    lemma_box_len(b.0, b.1);
    lemma_box_len(c.0, c.1);
    boxes::lemma_box_list_cons(a.0, a.1, bb + cb);
    boxes::lemma_box_list_cons(b.0, b.1, cb);
    assert(cb + nil =~= cb);
    boxes::lemma_box_list_cons(c.0, c.1, nil);
    assert(boxes::box_list(nil) =~= Seq::empty());
    assert(boxes::box_list(data) =~= seq![a, b, c]);
}

proof fn lemma_moov_content(content: Seq<u8>, moov: Seq<u8>)
    requires
        moov == boxes::box_bytes(Mp4Box::Moov.fourcc(), content),
        moov.len() <= u32::MAX,
    ensures
        tables::moov_contents(moov) == content,
        content.len() <= u32::MAX,
{
    let nil = Seq::<u8>::empty();
    assert(moov + nil =~= moov);
    boxes::lemma_find_box_hit(Mp4Box::Moov.fourcc(), content, nil);
}

proof fn lemma_lists_two(moov: Seq<u8>, head: Seq<u8>, v_trak: Seq<u8>, a_trak: Seq<u8>)
    requires
        boxes::box_list(tables::moov_contents(moov)) == seq![
            (Mp4Box::Mvhd.fourcc(), head),
            (Mp4Box::Trak.fourcc(), v_trak),
            (Mp4Box::Trak.fourcc(), a_trak),
        ],
        entries::is_video(v_trak),
    ensures
        lists_tracks(moov, seq![v_trak, a_trak]),
{
    lemma_first_video(boxes::box_list(tables::moov_contents(moov)), head, v_trak);
}

#[verifier::spinoff_prover]
#[verifier::rlimit(40)]
proof fn lemma_av_movie(head: Seq<u8>, v_trak: Seq<u8>, a_trak: Seq<u8>, moov: Seq<u8>)
    requires
        moov == boxes::box_bytes(
            Mp4Box::Moov.fourcc(),
            boxes::box_bytes(Mp4Box::Mvhd.fourcc(), head) + boxes::box_bytes(
                Mp4Box::Trak.fourcc(),
                v_trak,
            ) + boxes::box_bytes(Mp4Box::Trak.fourcc(), a_trak),
        ),
        moov.len() <= u32::MAX,
    ensures
        v_trak.len() <= u32::MAX,
        a_trak.len() <= u32::MAX,
        boxes::box_list(tables::moov_contents(moov)) == seq![
            (Mp4Box::Mvhd.fourcc(), head),
            (Mp4Box::Trak.fourcc(), v_trak),
            (Mp4Box::Trak.fourcc(), a_trak),
        ],
{
    let content = boxes::box_bytes(Mp4Box::Mvhd.fourcc(), head) + boxes::box_bytes(
        Mp4Box::Trak.fourcc(),
        v_trak,
    ) + boxes::box_bytes(Mp4Box::Trak.fourcc(), a_trak);
    assert(tables::moov_contents(moov) == content && content.len() <= u32::MAX) by {
        lemma_moov_content(content, moov);
    }
    lemma_three_listed(
        (Mp4Box::Mvhd.fourcc(), head),
        (Mp4Box::Trak.fourcc(), v_trak),
        (Mp4Box::Trak.fourcc(), a_trak),
        content,
    );
}

/// The track of a written movie is listed behind its header and found as its
/// first video track.
pub proof fn law_video_movie_is_listed(v: movie::VideoView, base: u64)
    requires
        movie::moov_video(v, base).len() <= u32::MAX,
    ensures
        ({
            let trak = movie::video_trak(
                v,
                movie::video_duration(v),
                v.sync,
                movie::sample_offsets(base, v.sizes),
            );
            &&& trak.len() <= u32::MAX
            &&& lists_tracks(movie::moov_video(v, base), seq![trak])
        }),
{
    let offsets = movie::sample_offsets(base, v.sizes);
    let duration = movie::video_duration(v);
    lemma_video_movie(
        head_of(v.movie_timescale, duration, v.track_id),
        movie::video_trak(v, duration, v.sync, offsets),
        movie::moov_video(v, base),
    );
    law_video_headers_read_back(v, duration, v.sync, offsets);
}

/// The two tracks of a written movie are listed in order behind its header,
/// and the video track is found as its first video track.
pub proof fn law_av_movie_is_listed(
    v: movie::VideoView,
    a: movie::AudioView,
    duration: u64,
    sync: Option<Seq<u32>>,
    v_offsets: Seq<u64>,
    a_offsets: Seq<u64>,
)
    requires
        movie::moov_av(v, a, duration, sync, v_offsets, a_offsets).len() <= u32::MAX,
    ensures
        ({
            let v_trak = movie::video_trak(v, duration, sync, v_offsets);
            let a_trak = movie::audio_trak(a, duration, a_offsets);
            &&& v_trak.len() <= u32::MAX
            &&& a_trak.len() <= u32::MAX
            &&& lists_tracks(
                movie::moov_av(v, a, duration, sync, v_offsets, a_offsets),
                seq![v_trak, a_trak],
            )
        }),
{
    let head = head_of(
        v.movie_timescale,
        duration,
        if v.track_id > a.track_id {
            v.track_id
        } else {
            a.track_id
        },
    );
    let v_trak = movie::video_trak(v, duration, sync, v_offsets);
    let a_trak = movie::audio_trak(a, duration, a_offsets);
    let moov = movie::moov_av(v, a, duration, sync, v_offsets, a_offsets);
    lemma_av_movie(head, v_trak, a_trak, moov);
    law_video_headers_read_back(v, duration, sync, v_offsets);
    lemma_lists_two(moov, head, v_trak, a_trak);
}

proof fn lemma_video_id(
    v: movie::VideoView,
    duration: u64,
    sync: Option<Seq<u32>>,
    offsets: Seq<u64>,
    id: u32,
)
    requires
        movie::video_trak(v, duration, sync, offsets).len() <= u32::MAX,
    ensures
        av_clip::is_trak_with_id(
            (Mp4Box::Trak.fourcc(), movie::video_trak(v, duration, sync, offsets)),
            id,
        ) == (id == v.track_id),
{
    lemma_video_boxes(v, duration, sync, offsets);
    lemma_tkhd_id(v.track_id, duration, 0, v.width, v.height);
}

proof fn lemma_audio_id(a: movie::AudioView, duration: u64, offsets: Seq<u64>, id: u32)
    requires
        movie::audio_trak(a, duration, offsets).len() <= u32::MAX,
    ensures
        av_clip::is_trak_with_id(
            (Mp4Box::Trak.fourcc(), movie::audio_trak(a, duration, offsets)),
            id,
        ) == (id == a.track_id),
{
    lemma_audio_boxes(a, duration, offsets);
    lemma_tkhd_id(a.track_id, duration, 0x100, 0, 0);
}

proof fn lemma_found_by_id(
    moov: Seq<u8>,
    v_trak: Seq<u8>,
    a_trak: Seq<u8>,
    v_id: u32,
    a_id: u32,
)
    requires
        lists_tracks(moov, seq![v_trak, a_trak]),
        av_clip::is_trak_with_id((Mp4Box::Trak.fourcc(), a_trak), a_id),
        !av_clip::is_trak_with_id((Mp4Box::Trak.fourcc(), a_trak), v_id),
        av_clip::is_trak_with_id((Mp4Box::Trak.fourcc(), v_trak), v_id),
    ensures
        ({
            let list = boxes::box_list(tables::moov_contents(moov));
            &&& av_clip::last_with_id(list, v_id) == Some(v_trak)
            &&& av_clip::last_with_id(list, a_id) == Some(a_trak)
        }),
{
    let list = boxes::box_list(tables::moov_contents(moov));
    let traks = seq![v_trak, a_trak];
    assert(list[0int + 1] == (Mp4Box::Trak.fourcc(), traks[0]));
    assert(list[1int + 1] == (Mp4Box::Trak.fourcc(), traks[1]));
    assert(list.last() == list[2]);
    assert(list.drop_last().last() == list[1]);
    reveal_with_fuel(av_clip::last_with_id, 3);
}

/// A clip of a written movie with a video and an audio track is cut from the
/// tables that the movie was written from, whatever range of samples it takes.
pub proof fn law_written_movie_is_clipped(
    v: movie::VideoView,
    a: movie::AudioView,
    duration: u64,
    sync: Option<Seq<u32>>,
    v_offsets: Seq<u64>,
    a_offsets: Seq<u64>,
    v_start: int,
    v_end: int,
    a_start: int,
    a_end: int,
)
    requires
        movie::moov_av(v, a, duration, sync, v_offsets, a_offsets).len() <= u32::MAX,
        v.track_id != a.track_id,
        0 <= v_start < v_end <= v.sizes.len(),
        0 <= a_start < a_end <= a.sizes.len(),
    ensures
        av_clip::av_plan(
            movie::moov_av(v, a, duration, sync, v_offsets, a_offsets),
            v.track_id,
            v_start,
            v_end,
            a.track_id,
            a_start,
            a_end,
        ) == Ok::<_, av_clip::PlanError>(
            av_clip::AvClipView {
                v_track_id: v.track_id,
                a_track_id: a.track_id,
                video: av_clip::PartView {
                    timescale: v.track_timescale,
                    sizes: v.sizes.subrange(v_start, v_end),
                    stts: runs::slice_runs(v.stts, v_start, v_end),
                    ctts: clip::sliced(v.ctts, v_start, v_end),
                    language: language_text(v.language),
                },
                audio: av_clip::PartView {
                    timescale: a.track_timescale,
                    sizes: a.sizes.subrange(a_start, a_end),
                    stts: runs::slice_runs(a.stts, a_start, a_end),
                    ctts: clip::sliced(a.ctts, a_start, a_end),
                    language: language_text(a.language),
                },
                sync: clip::relative_sync(sync_of(sync), v_start, v_end),
                width: v.width,
                height: v.height,
                avcc: v.avcc,
                esds: a.esds,
                channels: a.channels,
                sample_rate: a.sample_rate % 0x1_0000,
            },
        ),
{
    let v_trak = movie::video_trak(v, duration, sync, v_offsets);
    let a_trak = movie::audio_trak(a, duration, a_offsets);
    law_av_movie_is_listed(v, a, duration, sync, v_offsets, a_offsets);
    lemma_video_id(v, duration, sync, v_offsets, v.track_id);
    lemma_audio_id(a, duration, a_offsets, v.track_id);
    lemma_audio_id(a, duration, a_offsets, a.track_id);
    lemma_found_by_id(
        movie::moov_av(v, a, duration, sync, v_offsets, a_offsets),
        v_trak,
        a_trak,
        v.track_id,
        a.track_id,
    );
    law_video_tables_read_back(v, duration, sync, v_offsets);
    law_video_entry_reads_back(v, duration, sync, v_offsets);
    law_video_headers_read_back(v, duration, sync, v_offsets);
    law_audio_tables_read_back(a, duration, a_offsets);
    law_audio_entry_reads_back(a, duration, a_offsets);
    law_audio_headers_read_back(a, duration, a_offsets);
}

proof fn lemma_held_offsets(
    trak: Seq<u8>,
    timescale: u32,
    sizes: Seq<u32>,
    stts: Seq<(u32, u32)>,
    ctts: Option<Seq<(u32, i32)>>,
    sync: Option<Seq<u32>>,
    offsets: Seq<u64>,
)
    requires
        holds_tables(trak, timescale, sizes, stts, ctts, sync, offsets),
    ensures
        tables::trak_offsets(trak) == offsets,
{
    assert(tables::trak_tables(trak)->Some_0.offsets == offsets);
}

proof fn lemma_track_offsets(v: movie::VideoView, duration: u64, offsets: Seq<u64>)
    requires
        movie::video_trak(v, duration, v.sync, offsets).len() <= u32::MAX,
    ensures
        tables::trak_offsets(movie::video_trak(v, duration, v.sync, offsets)) == offsets,
{
    law_video_tables_read_back(v, duration, v.sync, offsets);
    lemma_held_offsets(
        movie::video_trak(v, duration, v.sync, offsets),
        v.track_timescale,
        v.sizes,
        v.stts,
        v.ctts,
        v.sync,
        offsets,
    );
}

/// The track of a movie with its payload at `base`.
pub open spec fn track_at(v: movie::VideoView, base: u64) -> Seq<u8> {
    movie::video_trak(
        v,
        movie::video_duration(v),
        v.sync,
        movie::sample_offsets(base, v.sizes),
    )
}

/// Whether a movie holds one track, whose chunk offsets are those of samples laid
/// end to end from `base` on.
pub open spec fn points_at(moov: Seq<u8>, trak: Seq<u8>, base: int, sizes: Seq<u32>) -> bool {
    &&& lists_tracks(moov, seq![trak])
    &&& tables::trak_offsets(trak).len() == sizes.len()
    &&& forall|i: int|
        0 <= i < sizes.len() ==> #[trigger] tables::trak_offsets(trak)[i] == base
            + timing::size_sum(sizes, 0, i)
}

proof fn lemma_points_at(
    moov: Seq<u8>,
    trak: Seq<u8>,
    base: u64,
    sizes: Seq<u32>,
    offsets: Seq<u64>,
)
    requires
        lists_tracks(moov, seq![trak]),
        tables::trak_offsets(trak) == offsets,
        offsets.len() == sizes.len(),
        forall|i: int|
            0 <= i < sizes.len() ==> #[trigger] offsets[i] == base + timing::size_sum(sizes, 0, i),
    ensures
        points_at(moov, trak, base as int, sizes),
{
}

proof fn lemma_listed_track(v: movie::VideoView, base: u64)
    requires
        movie::moov_video(v, base).len() <= u32::MAX,
    ensures
        lists_tracks(movie::moov_video(v, base), seq![track_at(v, base)]),
        tables::trak_offsets(track_at(v, base)) == movie::sample_offsets(base, v.sizes),
{
    law_video_movie_is_listed(v, base);
    lemma_track_offsets(v, movie::video_duration(v), movie::sample_offsets(base, v.sizes));
}

proof fn lemma_headers_end(v: movie::VideoView, n: int, base: u64, len: int)
    requires
        base == segment::segment_base(v, 36, segment::mdat_header(n).len() as int),
        len == segment::moov_len(v, base),
        len <= u32::MAX,
    ensures
        base == mp4_writer::ftyp_bytes().len() + len + segment::mdat_header(n).len(),
        forall|i: int|
            0 <= i < v.sizes.len() ==> #[trigger] movie::sample_offsets(base, v.sizes)[i] == base
                + timing::size_sum(v.sizes, 0, i),
{
    mp4_writer::lemma_ftyp_len();
    segment::lemma_segment_base(v, 36, segment::mdat_header(n).len() as int);
}

/// The headers of a segment for a payload of `n` bytes agree: the payload starts
/// where the `ftyp`, the `moov` and the `mdat` header end, and the chunk offsets
/// that are read back from the track of the `moov` are the places of the samples
/// laid end to end from there. (A `moov` whose size does not fit 32 bits is left
/// out.)
pub proof fn law_segment_offsets_point_at_the_samples(v: movie::VideoView, n: int, base: u64)
    requires
        base == segment::segment_base(v, 36, segment::mdat_header(n).len() as int),
        movie::moov_video(v, base).len() <= u32::MAX,
    ensures
        base == mp4_writer::ftyp_bytes().len() + movie::moov_video(v, base).len()
            + segment::mdat_header(n).len(),
        points_at(movie::moov_video(v, base), track_at(v, base), base as int, v.sizes),
        tables::trak_offsets(track_at(v, base)) == movie::sample_offsets(base, v.sizes),
{
    segment::lemma_moov_len_is(v, base);
    lemma_headers_end(v, n, base, movie::moov_video(v, base).len() as int);
    lemma_listed_track(v, base);
    lemma_points_at(
        movie::moov_video(v, base),
        track_at(v, base),
        base,
        v.sizes,
        movie::sample_offsets(base, v.sizes),
    );
}

} // verus!
