//! Track headers and sample tables of a `trak`.

use vstd::prelude::*;
use crate::boxes;
use crate::boxes::{find_child, iter_boxes, tail, type_at};
use crate::bytes;
use crate::bytes::{read_u16_be, read_u32_be};
use crate::helpers;
use crate::helpers::{Mp4Box, Mp4Nav};

verus! {

/// The letters packed in five bits each of an `mdhd` language code.
pub open spec fn language_letters(code: u16) -> Seq<u8> {
    seq![
        (0x60 + code / 1024 % 32) as u8,
        (0x60 + code / 32 % 32) as u8,
        (0x60 + code % 32) as u8,
    ]
}

/// Whether a byte is one of the letters a to z.
pub open spec fn is_lower_letter(b: u8) -> bool {
    0x61 <= b <= 0x7a
}

/// The characters of ASCII bytes.
pub open spec fn ascii_text(b: Seq<u8>) -> Seq<char> {
    Seq::new(b.len(), |i: int| b[i] as char)
}

/// The language of an `mdhd` payload: `und` for a zero code, the packed
/// letters where all three are letters, nothing otherwise.
pub open spec fn mdhd_language(mdhd: Seq<u8>) -> Option<Seq<char>> {
    if mdhd.len() < 22 {
        None
    } else {
        let code = bytes::be16(mdhd, 20);
        let l = language_letters(code);
        if code == 0 {
            Some("und"@)
        } else if is_lower_letter(l[0]) && is_lower_letter(l[1]) && is_lower_letter(l[2]) {
            Some(ascii_text(l))
        } else {
            None
        }
    }
}

/// Extract the ISO-639-2/T language code from an `mdhd` payload.
pub fn language_from_mdhd(mdhd: &[u8]) -> (r: Option<String>)
    ensures
        crate::text::text_view(r) == mdhd_language(mdhd@),
{
    if mdhd.len() < 22 {
        return None;
    }
    let code: u16 = match read_u16_be(mdhd, 20) {
        Some(v) => v,
        None => 0,
    };
    if code == 0 {
        return Some("und".to_string());
    }
    let a: u8 = 0x60 + (code / 1024 % 32) as u8;
    let b: u8 = 0x60 + (code / 32 % 32) as u8;
    let c: u8 = 0x60 + (code % 32) as u8;
    if 0x61 <= a && a <= 0x7a && 0x61 <= b && b <= 0x7a && 0x61 <= c && c <= 0x7a {
        let mut out: String = String::new();
        out.push(a as char);
        out.push(b as char);
        out.push(c as char);
        assert(out@ =~= ascii_text(language_letters(code)));
        Some(out)
    } else {
        None
    }
}

/// The track ID of a `tkhd` payload: behind 64-bit times in version 1, behind
/// 32-bit times otherwise.
pub open spec fn tkhd_track_id(tkhd: Seq<u8>) -> Option<u32> {
    let at: int = if tkhd.len() > 0 && tkhd[0] == 1 {
        20
    } else {
        12
    };
    if at + 4 <= tkhd.len() {
        Some(bytes::be32(tkhd, at))
    } else {
        None
    }
}

/// Extract the track ID from a `tkhd` payload, handling versioned layouts.
pub fn track_id_from_tkhd(tkhd: &[u8]) -> (r: Option<u32>)
    ensures
        r == tkhd_track_id(tkhd@),
{
    if tkhd.len() == 0 {
        return None;
    }
    let at: usize = if tkhd[0] == 1 {
        20
    } else {
        12
    };
    read_u32_be(tkhd, at)
}

/// The contents of a `moov`: of the first `moov` box found, else what follows
/// the header of a `moov` box that does not end inside the data, else all of the
/// data, which is at the contents already.
pub open spec fn moov_contents(moov: Seq<u8>) -> Seq<u8> {
    match boxes::find_box(moov, Mp4Box::Moov.fourcc()) {
        Some(payload) => payload,
        None => if moov.len() >= 8 && moov.subrange(4, 8) == Mp4Box::Moov.fourcc() {
            moov.skip(8)
        } else {
            moov
        },
    }
}

/// Return the payload of the `moov` box. If `moov` points at the full box
/// (size, type and payload) its header is stripped; if it is already at the
/// payload, it comes back as it is.
pub fn moov_payload(moov: &[u8]) -> (r: &[u8])
    ensures
        r@ == moov_contents(moov@),
{
    match find_child(moov, &Mp4Box::Moov.bytes()) {
        Some(payload) => payload,
        None => if moov.len() >= 8 && type_at(moov, 4, &Mp4Box::Moov.bytes()) {
            tail(moov, 8)
        } else {
            moov
        },
    }
}

/// A box of the `mdia` of a `trak`.
pub open spec fn mdia_box(trak: Seq<u8>, which: Mp4Box) -> Option<Seq<u8>> {
    boxes::find_in(boxes::find_box(trak, Mp4Box::Mdia.fourcc()), which.fourcc())
}

/// A box of the sample table of a `trak`.
pub open spec fn stbl_box(trak: Seq<u8>, which: Mp4Box) -> Option<Seq<u8>> {
    boxes::find_in(
        boxes::find_in(mdia_box(trak, Mp4Box::Minf), Mp4Box::Stbl.fourcc()),
        which.fourcc(),
    )
}

/// The box `which` of an optional payload.
pub fn child_of<'a>(outer: Option<&'a [u8]>, which: Mp4Box) -> (r: Option<&'a [u8]>)
    ensures
        boxes::slice_view(r) == boxes::find_in(boxes::slice_view(outer), which.fourcc()),
{
    match outer {
        Some(data) => find_child(data, &which.bytes()),
        None => None,
    }
}

/// The box `which` of the `mdia` of a `trak`.
pub fn mdia_child(trak: &[u8], which: Mp4Box) -> (r: Option<&[u8]>)
    ensures
        boxes::slice_view(r) == mdia_box(trak@, which),
{
    child_of(find_child(trak, &Mp4Box::Mdia.bytes()), which)
}

/// The box `which` of the sample table of a `trak`.
pub fn stbl_child(trak: &[u8], which: Mp4Box) -> (r: Option<&[u8]>)
    ensures
        boxes::slice_view(r) == stbl_box(trak@, which),
{
    child_of(child_of(mdia_child(trak, Mp4Box::Minf), Mp4Box::Stbl), which)
}

/// The sample tables of one track.
#[derive(Debug, Clone)]
pub struct TrackTables {
    pub timescale: u32,
    pub sizes: Vec<u32>,
    pub offsets: Vec<u64>,
    pub timing: Vec<(u32, u32)>,
    pub stsc: Vec<(u32, u32)>,
    pub ctts: Option<Vec<(u32, i32)>>,
}

/// What the sample tables of one track hold.
pub struct TablesView {
    pub timescale: u32,
    pub sizes: Seq<u32>,
    pub offsets: Seq<u64>,
    pub timing: Seq<(u32, u32)>,
    pub stsc: Seq<(u32, u32)>,
    pub ctts: Option<Seq<(u32, i32)>>,
}

/// What an optional vector holds.
pub open spec fn vec_view<T>(v: Option<Vec<T>>) -> Option<Seq<T>> {
    match v {
        Some(items) => Some(items@),
        None => None,
    }
}

impl View for TrackTables {
    type V = TablesView;

    open spec fn view(&self) -> TablesView {
        TablesView {
            timescale: self.timescale,
            sizes: self.sizes@,
            offsets: self.offsets@,
            timing: self.timing@,
            stsc: self.stsc@,
            ctts: vec_view(self.ctts),
        }
    }
}

/// A 32-bit word read as a two's complement integer.
pub open spec fn signed32(v: u32) -> i32 {
    if v < 0x8000_0000 {
        v as i32
    } else {
        (v - 0x1_0000_0000) as i32
    }
}

/// A 32-bit word read as a two's complement integer.
pub fn to_signed32(v: u32) -> (r: i32)
    ensures
        r == signed32(v),
{
    if v < 0x8000_0000 {
        v as i32
    } else {
        -((0xffff_ffff - v) as i32) - 1
    }
}

/// The (count, offset) entries of a `ctts` payload.
pub open spec fn ctts_table(ctts: Seq<u8>) -> Seq<(u32, i32)> {
    Seq::new(
        helpers::table_len(ctts, 4, 8),
        |i: int|
            (bytes::be32(ctts, 8 + 8 * i), signed32(bytes::be32(ctts, 12 + 8 * i))),
    )
}

/// The composition offsets of a `trak`, where its `ctts` holds a header.
pub open spec fn trak_ctts(trak: Seq<u8>) -> Option<Seq<(u32, i32)>> {
    match stbl_box(trak, Mp4Box::Ctts) {
        Some(ctts) => if ctts.len() < 8 {
            None
        } else {
            Some(ctts_table(ctts))
        },
        None => None,
    }
}

/// The chunk offsets of a `trak`: 32-bit ones first, else 64-bit ones, else none.
pub open spec fn trak_offsets(trak: Seq<u8>) -> Seq<u64> {
    match stbl_box(trak, Mp4Box::Stco) {
        Some(stco) => helpers::widened_table(stco),
        None => match stbl_box(trak, Mp4Box::Co64) {
            Some(co64) => helpers::u64_table(co64),
            None => Seq::empty(),
        },
    }
}

/// The tables of a `trak`, present when it has a timescale and the `stsz`,
/// `stts` and `stsc` boxes.
pub open spec fn trak_tables(trak: Seq<u8>) -> Option<TablesView> {
    match (
        mdia_box(trak, Mp4Box::Mdhd),
        stbl_box(trak, Mp4Box::Stsz),
        stbl_box(trak, Mp4Box::Stts),
        stbl_box(trak, Mp4Box::Stsc),
    ) {
        (Some(mdhd), Some(stsz), Some(stts), Some(stsc)) => if mdhd.len() < 16 {
            None
        } else {
            Some(
                TablesView {
                    timescale: bytes::be32(mdhd, 12),
                    sizes: helpers::u32_table(stsz),
                    offsets: trak_offsets(trak),
                    timing: helpers::pair_table(stts, 8),
                    stsc: helpers::pair_table(stsc, 12),
                    ctts: trak_ctts(trak),
                },
            )
        },
        _ => None,
    }
}

/// What optional tables hold.
pub open spec fn tables_view(t: Option<TrackTables>) -> Option<TablesView> {
    match t {
        Some(tables) => Some(tables@),
        None => None,
    }
}

/// Extract the per-track tables used by sample iteration.
pub fn extract_track_tables(trak: &[u8]) -> (r: Option<TrackTables>)
    ensures
        tables_view(r) == trak_tables(trak@),
{
    let timescale: u32 = match mdia_child(trak, Mp4Box::Mdhd) {
        Some(mdhd) => match read_u32_be(mdhd, 12) {
            Some(v) => v,
            None => {
                return None;
            },
        },
        None => {
            return None;
        },
    };
    let sizes: Vec<u32> = match stbl_child(trak, Mp4Box::Stsz) {
        Some(stsz) => stsz.extract_u32_array(),
        None => {
            return None;
        },
    };
    let offsets: Vec<u64> = match stbl_child(trak, Mp4Box::Stco) {
        Some(stco) => stco.extract_u64_array(),
        None => match stbl_child(trak, Mp4Box::Co64) {
            Some(co64) => co64.extract_u64_array64(),
            None => Vec::new(),
        },
    };
    let timing: Vec<(u32, u32)> = match stbl_child(trak, Mp4Box::Stts) {
        Some(stts) => stts.extract_timing_pairs(),
        None => {
            return None;
        },
    };
    let stsc: Vec<(u32, u32)> = match stbl_child(trak, Mp4Box::Stsc) {
        Some(stsc) => stsc.extract_stsc_pairs(),
        None => {
            return None;
        },
    };
    let ctts: Option<Vec<(u32, i32)>> = extract_ctts_pairs(trak);
    Some(TrackTables { timescale, sizes, offsets, timing, stsc, ctts })
}

/// Parse the `ctts` pairs (sample count, sample offset) of a `trak` if present.
pub fn extract_ctts_pairs(trak: &[u8]) -> (r: Option<Vec<(u32, i32)>>)
    ensures
        vec_view(r) == trak_ctts(trak@),
{
    let ctts: &[u8] = match stbl_child(trak, Mp4Box::Ctts) {
        Some(data) => data,
        None => {
            return None;
        },
    };
    if ctts.len() < 8 {
        return None;
    }
    let pairs: Vec<(u32, u32)> = ctts.extract_timing_pairs();
    let mut out: Vec<(u32, i32)> = Vec::new();
    let mut i: usize = 0;
    while i < pairs.len()
        invariant
            i <= pairs@.len(),
            pairs@ == helpers::pair_table(ctts@, 8),
            out@ == ctts_table(ctts@).take(i as int),
        decreases pairs@.len() - i,
    {
        out.push((pairs[i].0, to_signed32(pairs[i].1)));
        i = i + 1;
        assert(out@ =~= ctts_table(ctts@).take(i as int));
    }
    assert(out@ =~= ctts_table(ctts@));
    Some(out)
}

/// The entries of an `stss` payload.
pub open spec fn stss_table(stss: Seq<u8>) -> Seq<u32> {
    Seq::new(helpers::table_len(stss, 4, 4), |i: int| bytes::be32(stss, 8 + 4 * i))
}

/// The sync sample numbers of a `trak`, none without an `stss`.
pub open spec fn trak_sync_samples(trak: Seq<u8>) -> Seq<u32> {
    match stbl_box(trak, Mp4Box::Stss) {
        Some(stss) => stss_table(stss),
        None => Seq::empty(),
    }
}

/// Return the list of sync sample numbers (1-based as stored in `stss`).
///
/// If the provided `trak` has no `stss` box, returns an empty vector.
pub fn extract_sync_samples(trak: &[u8]) -> (r: Vec<u32>)
    ensures
        r@ == trak_sync_samples(trak@),
{
    let mut out: Vec<u32> = Vec::new();
    let stss: &[u8] = match stbl_child(trak, Mp4Box::Stss) {
        Some(data) => data,
        None => {
            return out;
        },
    };
    let wide: Vec<u64> = stss.extract_u64_array();
    let mut i: usize = 0;
    while i < wide.len()
        invariant
            i <= wide@.len(),
            wide@ == helpers::widened_table(stss@),
            out@ == stss_table(stss@).take(i as int),
        decreases wide@.len() - i,
    {
        out.push(wide[i] as u32);
        i = i + 1;
        assert(out@ =~= stss_table(stss@).take(i as int));
    }
    assert(out@ =~= stss_table(stss@));
    out
}

/// The types of the entries of an `stsd` payload.
pub open spec fn entry_types(stsd: Seq<u8>) -> Seq<Seq<u8>> {
    if stsd.len() < 8 {
        Seq::empty()
    } else {
        let list = boxes::box_list(stsd.skip(8));
        Seq::new(list.len(), |i: int| list[i].0)
    }
}

/// Return the fourcc types of the entries of an `stsd` payload.
pub fn stsd_entry_types(stsd: &[u8]) -> (r: Vec<[u8; 4]>)
    ensures
        boxes::path_view(r@) == entry_types(stsd@),
{
    let mut types: Vec<[u8; 4]> = Vec::new();
    if stsd.len() < 8 {
        assert(boxes::path_view(types@) =~= entry_types(stsd@));
        return types;
    }
    let ghost list = boxes::box_list(stsd@.skip(8));
    let mut it = iter_boxes(tail(stsd, 8));
    let mut more: bool = true;
    assert(list.skip(0) =~= list);
    while more
        invariant
            list == boxes::box_list(stsd@.skip(8)),
            stsd@.len() >= 8,
            types@.len() <= list.len(),
            it@ == list.skip(types@.len() as int),
            forall|j: int| 0 <= j < types@.len() ==> types@[j]@ == list[j].0,
            !more ==> it@.len() == 0,
        decreases it@.len() + (if more { 1int } else { 0 }),
    {
        match it.next() {
            Some((fourcc, _payload)) => {
                assert(list.skip(types@.len() as int).skip(1) =~= list.skip(types@.len() as int + 1));
                types.push(fourcc);
            },
            None => {
                more = false;
            },
        }
    }
    assert(boxes::path_view(types@) =~= entry_types(stsd@));
    types
}

} // verus!
