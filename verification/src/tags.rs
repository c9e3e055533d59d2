//! Four-character codes that are compared against or written by name.

use vstd::prelude::*;

verus! {

/// Four-character codes outside the box hierarchy that [`crate::helpers::Mp4Box`] walks.
#[derive(Debug, Clone, Copy, PartialEq, Eq)]
pub enum Tag {
    Vide,
    Soun,
    Sbtl,
    Subt,
    Text,
    Clcp,
    Avc1,
    Avc3,
    AvcC,
    Colr,
    Nclx,
    Nclc,
    Mp4a,
    Esds,
    Tx3g,
    Wvtt,
    Stpp,
    Payl,
    Vttc,
    Ftyp,
    Isom,
    Iso2,
    Mp41,
    Mp42,
    Vmhd,
    Smhd,
    Dinf,
    Dref,
    Url,
    Edts,
    Elst,
    Mdat,
    Apic,
    Comm,
}

impl Tag {
    /// The four bytes of the code.
    pub open spec fn code(self) -> Seq<u8> {
        match self {
            Tag::Vide => seq![0x76u8, 0x69, 0x64, 0x65],
            Tag::Soun => seq![0x73u8, 0x6f, 0x75, 0x6e],
            Tag::Sbtl => seq![0x73u8, 0x62, 0x74, 0x6c],
            Tag::Subt => seq![0x73u8, 0x75, 0x62, 0x74],
            Tag::Text => seq![0x74u8, 0x65, 0x78, 0x74],
            Tag::Clcp => seq![0x63u8, 0x6c, 0x63, 0x70],
            Tag::Avc1 => seq![0x61u8, 0x76, 0x63, 0x31],
            Tag::Avc3 => seq![0x61u8, 0x76, 0x63, 0x33],
            Tag::AvcC => seq![0x61u8, 0x76, 0x63, 0x43],
            Tag::Colr => seq![0x63u8, 0x6f, 0x6c, 0x72],
            Tag::Nclx => seq![0x6eu8, 0x63, 0x6c, 0x78],
            Tag::Nclc => seq![0x6eu8, 0x63, 0x6c, 0x63],
            Tag::Mp4a => seq![0x6du8, 0x70, 0x34, 0x61],
            Tag::Esds => seq![0x65u8, 0x73, 0x64, 0x73],
            Tag::Tx3g => seq![0x74u8, 0x78, 0x33, 0x67],
            Tag::Wvtt => seq![0x77u8, 0x76, 0x74, 0x74],
            Tag::Stpp => seq![0x73u8, 0x74, 0x70, 0x70],
            Tag::Payl => seq![0x70u8, 0x61, 0x79, 0x6c],
            Tag::Vttc => seq![0x76u8, 0x74, 0x74, 0x63],
            Tag::Ftyp => seq![0x66u8, 0x74, 0x79, 0x70],
            Tag::Isom => seq![0x69u8, 0x73, 0x6f, 0x6d],
            Tag::Iso2 => seq![0x69u8, 0x73, 0x6f, 0x32],
            Tag::Mp41 => seq![0x6du8, 0x70, 0x34, 0x31],
            Tag::Mp42 => seq![0x6du8, 0x70, 0x34, 0x32],
            Tag::Vmhd => seq![0x76u8, 0x6d, 0x68, 0x64],
            Tag::Smhd => seq![0x73u8, 0x6d, 0x68, 0x64],
            Tag::Dinf => seq![0x64u8, 0x69, 0x6e, 0x66],
            Tag::Dref => seq![0x64u8, 0x72, 0x65, 0x66],
            Tag::Url => seq![0x75u8, 0x72, 0x6c, 0x20],
            Tag::Edts => seq![0x65u8, 0x64, 0x74, 0x73],
            Tag::Elst => seq![0x65u8, 0x6c, 0x73, 0x74],
            Tag::Mdat => seq![0x6du8, 0x64, 0x61, 0x74],
            Tag::Apic => seq![0x41u8, 0x50, 0x49, 0x43],
            Tag::Comm => seq![0x43u8, 0x4f, 0x4d, 0x4d],
        }
    }

    /// The four bytes of the code.
    pub fn bytes(self) -> (r: [u8; 4])
        ensures
            r@ == self.code(),
    {
        let r: [u8; 4] = match self {
            Tag::Vide => [0x76, 0x69, 0x64, 0x65],
            Tag::Soun => [0x73, 0x6f, 0x75, 0x6e],
            Tag::Sbtl => [0x73, 0x62, 0x74, 0x6c],
            Tag::Subt => [0x73, 0x75, 0x62, 0x74],
            Tag::Text => [0x74, 0x65, 0x78, 0x74],
            Tag::Clcp => [0x63, 0x6c, 0x63, 0x70],
            Tag::Avc1 => [0x61, 0x76, 0x63, 0x31],
            Tag::Avc3 => [0x61, 0x76, 0x63, 0x33],
            Tag::AvcC => [0x61, 0x76, 0x63, 0x43],
            Tag::Colr => [0x63, 0x6f, 0x6c, 0x72],
            Tag::Nclx => [0x6e, 0x63, 0x6c, 0x78],
            Tag::Nclc => [0x6e, 0x63, 0x6c, 0x63],
            Tag::Mp4a => [0x6d, 0x70, 0x34, 0x61],
            Tag::Esds => [0x65, 0x73, 0x64, 0x73],
            Tag::Tx3g => [0x74, 0x78, 0x33, 0x67],
            Tag::Wvtt => [0x77, 0x76, 0x74, 0x74],
            Tag::Stpp => [0x73, 0x74, 0x70, 0x70],
            Tag::Payl => [0x70, 0x61, 0x79, 0x6c],
            Tag::Vttc => [0x76, 0x74, 0x74, 0x63],
            Tag::Ftyp => [0x66, 0x74, 0x79, 0x70],
            Tag::Isom => [0x69, 0x73, 0x6f, 0x6d],
            Tag::Iso2 => [0x69, 0x73, 0x6f, 0x32],
            Tag::Mp41 => [0x6d, 0x70, 0x34, 0x31],
            Tag::Mp42 => [0x6d, 0x70, 0x34, 0x32],
            Tag::Vmhd => [0x76, 0x6d, 0x68, 0x64],
            Tag::Smhd => [0x73, 0x6d, 0x68, 0x64],
            Tag::Dinf => [0x64, 0x69, 0x6e, 0x66],
            Tag::Dref => [0x64, 0x72, 0x65, 0x66],
            Tag::Url => [0x75, 0x72, 0x6c, 0x20],
            Tag::Edts => [0x65, 0x64, 0x74, 0x73],
            Tag::Elst => [0x65, 0x6c, 0x73, 0x74],
            Tag::Mdat => [0x6d, 0x64, 0x61, 0x74],
            Tag::Apic => [0x41, 0x50, 0x49, 0x43],
            Tag::Comm => [0x43, 0x4f, 0x4d, 0x4d],
        };
        assert(r@ =~= self.code());
        r
    }
}

} // verus!
