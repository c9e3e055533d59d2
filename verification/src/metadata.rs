//! Metadata of a movie: the text items of `moov/udta/meta/ilst` and the
//! duration of `mvhd`.

use vstd::prelude::*;
use crate::boxes;
use crate::boxes::{find_child, iter_boxes, tail};
use crate::bytes;
use crate::bytes::{read_u32_be, read_u64_be};
use crate::helpers::Mp4Box;
use crate::text;
use crate::text::{
    eq_ignore_ascii_case, from_utf16, same_text, to_ascii_lowercase, trim, utf16_units, utf8_lossy,
    Endian, Trim,
};

verus! {

/// Single metadata item (from `ilst`).
#[derive(Debug, Clone)]
pub struct Meta {
    /// Raw fourcc key, using `@` for 0xA9 (e.g., "@nam").
    pub key: String,
    /// Friendly mapped name (e.g., "Title", or "Unknown").
    pub name: String,
    /// Extracted value (trimmed of null padding and white space).
    pub value: String,
}

/// What a metadata item holds.
pub struct MetaView {
    pub key: Seq<char>,
    pub name: Seq<char>,
    pub value: Seq<char>,
}

impl View for Meta {
    type V = MetaView;

    open spec fn view(&self) -> MetaView {
        MetaView { key: self.key@, name: self.name@, value: self.value@ }
    }
}

/// A duration as a number of ticks and the ticks per second.
#[derive(Debug, Clone, Copy, PartialEq, Eq, Structural)]
pub struct TickDuration {
    pub ticks: u64,
    pub timescale: u32,
}

/// Basic media metadata extracted from the MP4 `moov` atom.
#[derive(Debug, Clone)]
pub struct MediaMetadata {
    /// All text items found under `moov/udta/meta/ilst`.
    pub items: Vec<Meta>,
    /// Total duration by `mvhd`, where it can be read.
    pub duration: Option<TickDuration>,
}

/// What the items of a list hold.
pub open spec fn items_view(items: Seq<Meta>) -> Seq<MetaView> {
    Seq::new(items.len(), |i: int| items[i]@)
}

/// The key of an item: its four bytes as characters, `@` for 0xA9.
pub open spec fn key_of(fourcc: Seq<u8>) -> Seq<char> {
    Seq::new(
        fourcc.len(),
        |i: int|
            if fourcc[i] == 0xa9 {
                '@'
            } else {
                fourcc[i] as char
            },
    )
}

/// The friendly name of a key.
pub open spec fn name_of(key: Seq<char>) -> Seq<char> {
    if key == "@nam"@ {
        "Title"@
    } else if key == "@ART"@ {
        "Artist"@
    } else if key == "@alb"@ {
        "Album"@
    } else if key == "@too"@ {
        "Encoder"@
    } else if key == "cprt"@ {
        "Copyright"@
    } else {
        "Unknown"@
    }
}

/// The text that UTF-16 bytes spell: big-endian unless they start with a
/// little-endian byte order mark; a mark is left out.
pub open spec fn marked_utf16(raw: Seq<u8>) -> Option<Seq<char>> {
    if raw.len() < 2 {
        None
    } else if raw[0] == 0xfe && raw[1] == 0xff {
        text::utf16_text(text::units_of(raw.skip(2), Endian::Big))
    } else if raw[0] == 0xff && raw[1] == 0xfe {
        text::utf16_text(text::units_of(raw.skip(2), Endian::Little))
    } else {
        text::utf16_text(text::units_of(raw, Endian::Big))
    }
}

/// The text of a `data` payload: UTF-8 for type 1, UTF-16 for type 2, else none.
pub open spec fn data_text(data: Seq<u8>) -> Option<Seq<char>> {
    if data.len() < 8 {
        None
    } else if bytes::be32(data, 0) == 1 {
        Some(text::lossy_utf8(data.skip(8)))
    } else if bytes::be32(data, 0) == 2 {
        marked_utf16(data.skip(8))
    } else {
        None
    }
}

/// A text without null padding and white space around it.
pub open spec fn tidied(s: Seq<char>) -> Seq<char> {
    text::trimmed(text::trimmed(s, Trim::Only('\0')), Trim::White)
}

/// The item of one box of an `ilst`, where it holds text.
pub open spec fn item_of(fourcc: Seq<u8>, payload: Seq<u8>) -> Option<MetaView> {
    match boxes::find_box(payload, Mp4Box::Data.fourcc()) {
        Some(data) => match data_text(data) {
            Some(s) => if tidied(s).len() == 0 {
                None
            } else {
                Some(
                    MetaView {
                        key: key_of(fourcc),
                        name: name_of(key_of(fourcc)),
                        value: tidied(s),
                    },
                )
            },
            None => None,
        },
        None => None,
    }
}

/// The items of the boxes of an `ilst`.
pub open spec fn items_of(list: Seq<(Seq<u8>, Seq<u8>)>) -> Seq<MetaView>
    decreases list.len(),
{
    if list.len() == 0 {
        Seq::empty()
    } else {
        let before = items_of(list.drop_last());
        match item_of(list.last().0, list.last().1) {
            Some(item) => before.push(item),
            None => before,
        }
    }
}

/// The items of a movie. A `meta` too short for its version field holds none.
pub open spec fn movie_items(data: Seq<u8>) -> Seq<MetaView> {
    match boxes::find_in(
        boxes::find_in(
            boxes::find_box(data, Mp4Box::Moov.fourcc()),
            Mp4Box::Udta.fourcc(),
        ),
        Mp4Box::Meta.fourcc(),
    ) {
        Some(meta) => if meta.len() < 4 {
            Seq::empty()
        } else {
            match boxes::find_box(meta.skip(4), Mp4Box::Ilst.fourcc()) {
                Some(ilst) => items_of(boxes::box_list(ilst)),
                None => Seq::empty(),
            }
        },
        None => Seq::empty(),
    }
}

/// The duration that an `mvhd` tells: in version 0 of 32 bits behind times of
/// 32 bits, in version 1 of 64 bits behind times of 64 bits. Other versions and
/// a header that is cut off tell none.
pub open spec fn mvhd_duration(mvhd: Seq<u8>) -> Option<TickDuration> {
    if mvhd.len() >= 20 && mvhd[0] == 0 {
        Some(
            TickDuration {
                ticks: bytes::be32(mvhd, 16) as u64,
                timescale: bytes::be32(mvhd, 12),
            },
        )
    } else if mvhd.len() >= 32 && mvhd[0] == 1 {
        Some(
            TickDuration { ticks: bytes::be64(mvhd, 24), timescale: bytes::be32(mvhd, 20) },
        )
    } else {
        None
    }
}

/// The duration of a movie by its `mvhd`.
pub open spec fn movie_duration(data: Seq<u8>) -> Option<TickDuration> {
    match boxes::find_in(
        boxes::find_box(data, Mp4Box::Moov.fourcc()),
        Mp4Box::Mvhd.fourcc(),
    ) {
        Some(mvhd) => mvhd_duration(mvhd),
        None => None,
    }
}

/// The value of the first item with a name, whatever its case.
pub open spec fn first_named(items: Seq<MetaView>, name: Seq<char>) -> Option<Seq<char>>
    decreases items.len(),
{
    if items.len() == 0 {
        None
    } else if text::ascii_lowercase(items[0].name) == text::ascii_lowercase(name) {
        Some(items[0].value)
    } else {
        first_named(items.skip(1), name)
    }
}

/// The value of the first item with a key.
pub open spec fn first_keyed(items: Seq<MetaView>, key: Seq<char>) -> Option<Seq<char>>
    decreases items.len(),
{
    if items.len() == 0 {
        None
    } else if items[0].key == key {
        Some(items[0].value)
    } else {
        first_keyed(items.skip(1), key)
    }
}

/// The canonical name that a query stands for.
pub open spec fn canonical_name(q: Seq<char>) -> Seq<char> {
    let lower = text::ascii_lowercase(q);
    if lower == "title"@ {
        "Title"@
    } else if lower == "artist"@ {
        "Artist"@
    } else if lower == "album"@ {
        "Album"@
    } else if lower == "copyright"@ {
        "Copyright"@
    } else {
        q
    }
}

/// The value that a query finds: by name, then by key, then by canonical name.
pub open spec fn found(items: Seq<MetaView>, query: Seq<char>) -> Option<Seq<char>> {
    let q = text::trimmed(query, Trim::White);
    if q.len() == 0 {
        None
    } else if first_named(items, q) is Some {
        first_named(items, q)
    } else if first_keyed(items, q) is Some {
        first_keyed(items, q)
    } else {
        first_named(items, canonical_name(q))
    }
}

fn fourcc_to_key(fourcc: &[u8; 4]) -> (r: String)
    ensures
        r@ == key_of(fourcc@),
{
    let mut out: String = String::new();
    let mut i: usize = 0;
    while i < 4
        invariant
            i <= 4,
            out@ == key_of(fourcc@).take(i as int),
        decreases 4 - i,
    {
        if fourcc[i] == 0xa9 {
            out.push('@');
        } else {
            out.push(fourcc[i] as char);
        }
        i = i + 1;
        assert(out@ =~= key_of(fourcc@).take(i as int));
    }
    assert(out@ =~= key_of(fourcc@));
    out
}

fn map_name(key: &str) -> (r: &'static str)
    ensures
        r@ == name_of(key@),
{
    if same_text(key, "@nam") {
        "Title"
    } else if same_text(key, "@ART") {
        "Artist"
    } else if same_text(key, "@alb") {
        "Album"
    } else if same_text(key, "@too") {
        "Encoder"
    } else if same_text(key, "cprt") {
        "Copyright"
    } else {
        "Unknown"
    }
}

fn map_name_from_query(q: &str) -> (r: String)
    ensures
        r@ == canonical_name(q@),
{
    let lower: String = to_ascii_lowercase(q);
    if same_text(lower.as_str(), "title") {
        "Title".to_owned()
    } else if same_text(lower.as_str(), "artist") {
        "Artist".to_owned()
    } else if same_text(lower.as_str(), "album") {
        "Album".to_owned()
    } else if same_text(lower.as_str(), "copyright") {
        "Copyright".to_owned()
    } else {
        q.to_owned()
    }
}

/// Decodes UTF-16 bytes, see `marked_utf16`.
pub fn decode_marked_utf16(raw: &[u8]) -> (r: Option<String>)
    ensures
        text::text_view(r) == marked_utf16(raw@),
{
    if raw.len() < 2 {
        return None;
    }
    let units: Vec<u16> = if raw[0] == 0xfe && raw[1] == 0xff {
        utf16_units(tail(raw, 2), Endian::Big)
    } else if raw[0] == 0xff && raw[1] == 0xfe {
        utf16_units(tail(raw, 2), Endian::Little)
    } else {
        utf16_units(raw, Endian::Big)
    };
    from_utf16(units.as_slice())
}

fn text_of_data(data: &[u8]) -> (r: Option<String>)
    ensures
        text::text_view(r) == data_text(data@),
{
    if data.len() < 8 {
        return None;
    }
    match read_u32_be(data, 0) {
        Some(1) => Some(utf8_lossy(tail(data, 8))),
        Some(2) => decode_marked_utf16(tail(data, 8)),
        _ => None,
    }
}

/// What an optional item holds.
pub open spec fn meta_view(m: Option<Meta>) -> Option<MetaView> {
    match m {
        Some(item) => Some(item@),
        None => None,
    }
}

fn item_from_box(fourcc: &[u8; 4], payload: &[u8]) -> (r: Option<Meta>)
    ensures
        meta_view(r) == item_of(fourcc@, payload@),
{
    let data: &[u8] = match find_child(payload, &Mp4Box::Data.bytes()) {
        Some(data) => data,
        None => {
            return None;
        },
    };
    let s: String = match text_of_data(data) {
        Some(s) => s,
        None => {
            return None;
        },
    };
    let unpadded: String = trim(s.as_str(), Trim::Only('\0'));
    let value: String = trim(unpadded.as_str(), Trim::White);
    if same_text(value.as_str(), "") {
        proof {
            reveal_strlit("");
        }
        return None;
    }
    proof {
        reveal_strlit("");
        if value@.len() == 0 {
            assert(value@ =~= ""@);
        }
    }
    let key: String = fourcc_to_key(fourcc);
    let name: String = map_name(key.as_str()).to_owned();
    Some(Meta { key, name, value })
}

fn collect_items(ilst: &[u8]) -> (r: Vec<Meta>)
    ensures
        items_view(r@) == items_of(boxes::box_list(ilst@)),
{
    let ghost list = boxes::box_list(ilst@);
    let mut it = iter_boxes(ilst);
    let mut out: Vec<Meta> = Vec::new();
    let ghost mut seen: int = 0;
    assert(list.skip(0) =~= list);
    assert(list.take(0) =~= Seq::empty());
    assert(items_view(out@) =~= items_of(list.take(0)));
    loop
        invariant
            0 <= seen <= list.len(),
            it@ == list.skip(seen),
            list == boxes::box_list(ilst@),
            items_view(out@) == items_of(list.take(seen)),
        decreases it@.len(),
    {
        match it.next() {
            Some((typ, payload)) => {
                proof {
                    assert(list.skip(seen).skip(1) =~= list.skip(seen + 1));
                    assert(list.take(seen + 1).drop_last() =~= list.take(seen));
                    assert(list.take(seen + 1).last() == list.skip(seen)[0]);
                    seen = seen + 1;
                }
                let ghost before = out@;
                match item_from_box(&typ, payload) {
                    Some(item) => {
                        out.push(item);
                        assert(items_view(out@) =~= items_view(before).push(item@));
                    },
                    None => {},
                }
            },
            None => {
                assert(list.take(seen) =~= list);
                return out;
            },
        }
    }
}

fn duration_of(data: &[u8]) -> (r: Option<TickDuration>)
    ensures
        r == movie_duration(data@),
{
    let moov: &[u8] = match find_child(data, &Mp4Box::Moov.bytes()) {
        Some(moov) => moov,
        None => {
            return None;
        },
    };
    let mvhd: &[u8] = match find_child(moov, &Mp4Box::Mvhd.bytes()) {
        Some(mvhd) => mvhd,
        None => {
            return None;
        },
    };
    if mvhd.len() < 20 {
        return None;
    }
    if mvhd[0] == 0 {
        match (read_u32_be(mvhd, 16), read_u32_be(mvhd, 12)) {
            (Some(ticks), Some(timescale)) => Some(TickDuration { ticks: ticks as u64, timescale }),
            _ => None,
        }
    } else if mvhd[0] == 1 {
        match (read_u64_be(mvhd, 24), read_u32_be(mvhd, 20)) {
            (Some(ticks), Some(timescale)) => Some(TickDuration { ticks, timescale }),
            _ => None,
        }
    } else {
        None
    }
}

fn items_in(data: &[u8]) -> (r: Vec<Meta>)
    ensures
        items_view(r@) == movie_items(data@),
{
    let none: Vec<Meta> = Vec::new();
    assert(items_view(none@) =~= Seq::empty());
    let moov: &[u8] = match find_child(data, &Mp4Box::Moov.bytes()) {
        Some(moov) => moov,
        None => {
            return none;
        },
    };
    let udta: &[u8] = match find_child(moov, &Mp4Box::Udta.bytes()) {
        Some(udta) => udta,
        None => {
            return none;
        },
    };
    let meta: &[u8] = match find_child(udta, &Mp4Box::Meta.bytes()) {
        Some(meta) => meta,
        None => {
            return none;
        },
    };
    if meta.len() < 4 {
        return none;
    }
    match find_child(tail(meta, 4), &Mp4Box::Ilst.bytes()) {
        Some(ilst) => collect_items(ilst),
        None => none,
    }
}

impl MediaMetadata {
    /// The metadata of a movie, read from the bytes of its `moov` box.
    pub fn from_bytes(data: &[u8]) -> (r: Self)
        ensures
            items_view(r.items@) == movie_items(data@),
            r.duration == movie_duration(data@),
    {
        MediaMetadata { items: items_in(data), duration: duration_of(data) }
    }

    fn named(&self, name: &str) -> (r: Option<String>)
        ensures
            text::text_view(r) == first_named(items_view(self.items@), name@),
    {
        let ghost all = items_view(self.items@);
        let mut i: usize = 0;
        assert(all.skip(0) =~= all);
        while i < self.items.len()
            invariant
                i <= self.items@.len(),
                all == items_view(self.items@),
                first_named(all, name@) == first_named(all.skip(i as int), name@),
            decreases self.items@.len() - i,
        {
            if eq_ignore_ascii_case(self.items[i].name.as_str(), name) {
                return Some(self.items[i].value.as_str().to_owned());
            }
            assert(all.skip(i as int).skip(1) =~= all.skip(i + 1));
            i = i + 1;
        }
        None
    }

    fn keyed(&self, key: &str) -> (r: Option<String>)
        ensures
            text::text_view(r) == first_keyed(items_view(self.items@), key@),
    {
        let ghost all = items_view(self.items@);
        let mut i: usize = 0;
        assert(all.skip(0) =~= all);
        while i < self.items.len()
            invariant
                i <= self.items@.len(),
                all == items_view(self.items@),
                first_keyed(all, key@) == first_keyed(all.skip(i as int), key@),
            decreases self.items@.len() - i,
        {
            if same_text(self.items[i].key.as_str(), key) {
                return Some(self.items[i].value.as_str().to_owned());
            }
            assert(all.skip(i as int).skip(1) =~= all.skip(i + 1));
            i = i + 1;
        }
        None
    }

    /// Return first value for a given logical name (e.g., "title") or key (e.g., "@nam").
    pub fn get(&self, query: &str) -> (r: Option<String>)
        ensures
            text::text_view(r) == found(items_view(self.items@), query@),
    {
        let q: String = trim(query, Trim::White);
        proof {
            reveal_strlit("");
            if q@.len() == 0 {
                assert(q@ =~= ""@);
            }
        }
        if same_text(q.as_str(), "") {
            return None;
        }
        match self.named(q.as_str()) {
            Some(value) => {
                return Some(value);
            },
            None => {},
        }
        match self.keyed(q.as_str()) {
            Some(value) => {
                return Some(value);
            },
            None => {},
        }
        let mapped: String = map_name_from_query(q.as_str());
        self.named(mapped.as_str())
    }

    /// Return all items.
    pub fn get_all(&self) -> (r: &[Meta])
        ensures
            r@ == self.items@,
    {
        self.items.as_slice()
    }
}

} // verus!
