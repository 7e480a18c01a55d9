//! TIFF directory parsing: the tags this library reads, entries of a
//! directory (IFD) and whole directory trees, including maker notes and the
//! Fuji RAF container.

use vstd::prelude::*;
use std::collections::HashMap;
use crate::text::{push_dec, push_hex, spec_dec, spec_hex};
use crate::basics::{Endian, be_u16, be_u32, le_u16, spec_be_u16, spec_be_u32, spec_le_u16, spec_read_u16, spec_read_u32};

verus! {

/// The TIFF tags this library knows, each standing for its 16-bit code.
#[derive(Debug, Copy, Clone, PartialEq, Eq, Structural)]
pub enum Tag {
    PanaWidth,
    PanaLength,
    NefWB0,
    PanaWBsR,
    PanaWBsB,
    NrwWB,
    NefSerial,
    PanaWBs2R,
    PanaWBs2G,
    PanaWBs2B,
    Cr2PowerShotWB,
    NewSubFileType,
    Cr2OldOffset,
    NefMeta1,
    NefMeta2,
    NefWB1,
    Cr2OldWB,
    NefKey,
    ImageWidth,
    ImageLength,
    BitsPerSample,
    Compression,
    PhotometricInt,
    Make,
    Model,
    StripOffsets,
    Orientation,
    SamplesPerPixel,
    StripByteCounts,
    PanaOffsets,
    GrayResponse,
    Software,
    TileWidth,
    TileLength,
    TileOffsets,
    SubIFDs,
    PefBlackLevels,
    PefWB,
    PefHuffman,
    Xmp,
    DcrWB,
    OrfBlackLevels,
    DcrLinearization,
    EpsonWB,
    KodakWB,
    OlympusRedMul,
    OlympusBlueMul,
    OlympusImgProc,
    RafOldWB,
    Cr2ColorData,
    SonyCurve,
    SonyOffset,
    SonyLength,
    SonyKey,
    SonyGRBG,
    SonyRGGB,
    CFAPattern,
    KodakIFD,
    LeafMetadata,
    ExifIFDPointer,
    Makernote,
    SrwSensorAreas,
    SrwRGGBLevels,
    SrwRGGBBlacks,
    Cr2Id,
    DNGVersion,
    Linearization,
    BlackLevels,
    WhiteLevel,
    ColorMatrix1,
    ColorMatrix2,
    AsShotNeutral,
    DNGPrivateArea,
    Cr2StripeWidths,
    ActiveArea,
    MaskedAreas,
    RafRawSubIFD,
    RafImageWidth,
    RafImageLength,
    RafBitsPerSample,
    RafOffsets,
    RafWBGRB,
    KdcWB,
    KdcWidth,
    KdcLength,
    KdcOffset,
    KdcIFD,
}

/// The 16-bit code of a tag.
pub open spec fn tag_value(tag: Tag) -> u16 {
    match tag {
        Tag::PanaWidth => 0x0002,
        Tag::PanaLength => 0x0003,
        Tag::NefWB0 => 0x000C,
        Tag::PanaWBsR => 0x0011,
        Tag::PanaWBsB => 0x0012,
        Tag::NrwWB => 0x0014,
        Tag::NefSerial => 0x001d,
        Tag::PanaWBs2R => 0x0024,
        Tag::PanaWBs2G => 0x0025,
        Tag::PanaWBs2B => 0x0026,
        Tag::Cr2PowerShotWB => 0x0029,
        Tag::NewSubFileType => 0x00FE,
        Tag::Cr2OldOffset => 0x0081,
        Tag::NefMeta1 => 0x008c,
        Tag::NefMeta2 => 0x0096,
        Tag::NefWB1 => 0x0097,
        Tag::Cr2OldWB => 0x00A4,
        Tag::NefKey => 0x00a7,
        Tag::ImageWidth => 0x0100,
        Tag::ImageLength => 0x0101,
        Tag::BitsPerSample => 0x0102,
        Tag::Compression => 0x0103,
        Tag::PhotometricInt => 0x0106,
        Tag::Make => 0x010F,
        Tag::Model => 0x0110,
        Tag::StripOffsets => 0x0111,
        Tag::Orientation => 0x0112,
        Tag::SamplesPerPixel => 0x0115,
        Tag::StripByteCounts => 0x0117,
        Tag::PanaOffsets => 0x0118,
        Tag::GrayResponse => 0x0123,
        Tag::Software => 0x0131,
        Tag::TileWidth => 0x0142,
        Tag::TileLength => 0x0143,
        Tag::TileOffsets => 0x0144,
        Tag::SubIFDs => 0x014A,
        Tag::PefBlackLevels => 0x0200,
        Tag::PefWB => 0x0201,
        Tag::PefHuffman => 0x0220,
        Tag::Xmp => 0x02BC,
        Tag::DcrWB => 0x03FD,
        Tag::OrfBlackLevels => 0x0600,
        Tag::DcrLinearization => 0x090D,
        Tag::EpsonWB => 0x0E80,
        Tag::KodakWB => 0x0F00,
        Tag::OlympusRedMul => 0x1017,
        Tag::OlympusBlueMul => 0x1018,
        Tag::OlympusImgProc => 0x2040,
        Tag::RafOldWB => 0x2ff0,
        Tag::Cr2ColorData => 0x4001,
        Tag::SonyCurve => 0x7010,
        Tag::SonyOffset => 0x7200,
        Tag::SonyLength => 0x7201,
        Tag::SonyKey => 0x7221,
        Tag::SonyGRBG => 0x7303,
        Tag::SonyRGGB => 0x7313,
        Tag::CFAPattern => 0x828E,
        Tag::KodakIFD => 0x8290,
        Tag::LeafMetadata => 0x8606,
        Tag::ExifIFDPointer => 0x8769,
        Tag::Makernote => 0x927C,
        Tag::SrwSensorAreas => 0xA010,
        Tag::SrwRGGBLevels => 0xA021,
        Tag::SrwRGGBBlacks => 0xA028,
        Tag::Cr2Id => 0xc5d8,
        Tag::DNGVersion => 0xC612,
        Tag::Linearization => 0xC618,
        Tag::BlackLevels => 0xC61A,
        Tag::WhiteLevel => 0xC61D,
        Tag::ColorMatrix1 => 0xC621,
        Tag::ColorMatrix2 => 0xC622,
        Tag::AsShotNeutral => 0xC628,
        Tag::DNGPrivateArea => 0xC634,
        Tag::Cr2StripeWidths => 0xC640,
        Tag::ActiveArea => 0xC68D,
        Tag::MaskedAreas => 0xC68E,
        Tag::RafRawSubIFD => 0xF000,
        Tag::RafImageWidth => 0xF001,
        Tag::RafImageLength => 0xF002,
        Tag::RafBitsPerSample => 0xF003,
        Tag::RafOffsets => 0xF007,
        Tag::RafWBGRB => 0xF00E,
        Tag::KdcWB => 0xFA2A,
        Tag::KdcWidth => 0xFD00,
        Tag::KdcLength => 0xFD01,
        Tag::KdcOffset => 0xFD04,
        Tag::KdcIFD => 0xFE00,
    }
}

/// The tag with code `v`, if this library knows it.
pub open spec fn tag_of(v: u16) -> Option<Tag> {
    if v == 0x0002 {
        Some(Tag::PanaWidth)
    } else     if v == 0x0003 {
        Some(Tag::PanaLength)
    } else     if v == 0x000C {
        Some(Tag::NefWB0)
    } else     if v == 0x0011 {
        Some(Tag::PanaWBsR)
    } else     if v == 0x0012 {
        Some(Tag::PanaWBsB)
    } else     if v == 0x0014 {
        Some(Tag::NrwWB)
    } else     if v == 0x001d {
        Some(Tag::NefSerial)
    } else     if v == 0x0024 {
        Some(Tag::PanaWBs2R)
    } else     if v == 0x0025 {
        Some(Tag::PanaWBs2G)
    } else     if v == 0x0026 {
        Some(Tag::PanaWBs2B)
    } else     if v == 0x0029 {
        Some(Tag::Cr2PowerShotWB)
    } else     if v == 0x00FE {
        Some(Tag::NewSubFileType)
    } else     if v == 0x0081 {
        Some(Tag::Cr2OldOffset)
    } else     if v == 0x008c {
        Some(Tag::NefMeta1)
    } else     if v == 0x0096 {
        Some(Tag::NefMeta2)
    } else     if v == 0x0097 {
        Some(Tag::NefWB1)
    } else     if v == 0x00A4 {
        Some(Tag::Cr2OldWB)
    } else     if v == 0x00a7 {
        Some(Tag::NefKey)
    } else     if v == 0x0100 {
        Some(Tag::ImageWidth)
    } else     if v == 0x0101 {
        Some(Tag::ImageLength)
    } else     if v == 0x0102 {
        Some(Tag::BitsPerSample)
    } else     if v == 0x0103 {
        Some(Tag::Compression)
    } else     if v == 0x0106 {
        Some(Tag::PhotometricInt)
    } else     if v == 0x010F {
        Some(Tag::Make)
    } else     if v == 0x0110 {
        Some(Tag::Model)
    } else     if v == 0x0111 {
        Some(Tag::StripOffsets)
    } else     if v == 0x0112 {
        Some(Tag::Orientation)
    } else     if v == 0x0115 {
        Some(Tag::SamplesPerPixel)
    } else     if v == 0x0117 {
        Some(Tag::StripByteCounts)
    } else     if v == 0x0118 {
        Some(Tag::PanaOffsets)
    } else     if v == 0x0123 {
        Some(Tag::GrayResponse)
    } else     if v == 0x0131 {
        Some(Tag::Software)
    } else     if v == 0x0142 {
        Some(Tag::TileWidth)
    } else     if v == 0x0143 {
        Some(Tag::TileLength)
    } else     if v == 0x0144 {
        Some(Tag::TileOffsets)
    } else     if v == 0x014A {
        Some(Tag::SubIFDs)
    } else     if v == 0x0200 {
        Some(Tag::PefBlackLevels)
    } else     if v == 0x0201 {
        Some(Tag::PefWB)
    } else     if v == 0x0220 {
        Some(Tag::PefHuffman)
    } else     if v == 0x02BC {
        Some(Tag::Xmp)
    } else     if v == 0x03FD {
        Some(Tag::DcrWB)
    } else     if v == 0x0600 {
        Some(Tag::OrfBlackLevels)
    } else     if v == 0x090D {
        Some(Tag::DcrLinearization)
    } else     if v == 0x0E80 {
        Some(Tag::EpsonWB)
    } else     if v == 0x0F00 {
        Some(Tag::KodakWB)
    } else     if v == 0x1017 {
        Some(Tag::OlympusRedMul)
    } else     if v == 0x1018 {
        Some(Tag::OlympusBlueMul)
    } else     if v == 0x2040 {
        Some(Tag::OlympusImgProc)
    } else     if v == 0x2ff0 {
        Some(Tag::RafOldWB)
    } else     if v == 0x4001 {
        Some(Tag::Cr2ColorData)
    } else     if v == 0x7010 {
        Some(Tag::SonyCurve)
    } else     if v == 0x7200 {
        Some(Tag::SonyOffset)
    } else     if v == 0x7201 {
        Some(Tag::SonyLength)
    } else     if v == 0x7221 {
        Some(Tag::SonyKey)
    } else     if v == 0x7303 {
        Some(Tag::SonyGRBG)
    } else     if v == 0x7313 {
        Some(Tag::SonyRGGB)
    } else     if v == 0x828E {
        Some(Tag::CFAPattern)
    } else     if v == 0x8290 {
        Some(Tag::KodakIFD)
    } else     if v == 0x8606 {
        Some(Tag::LeafMetadata)
    } else     if v == 0x8769 {
        Some(Tag::ExifIFDPointer)
    } else     if v == 0x927C {
        Some(Tag::Makernote)
    } else     if v == 0xA010 {
        Some(Tag::SrwSensorAreas)
    } else     if v == 0xA021 {
        Some(Tag::SrwRGGBLevels)
    } else     if v == 0xA028 {
        Some(Tag::SrwRGGBBlacks)
    } else     if v == 0xc5d8 {
        Some(Tag::Cr2Id)
    } else     if v == 0xC612 {
        Some(Tag::DNGVersion)
    } else     if v == 0xC618 {
        Some(Tag::Linearization)
    } else     if v == 0xC61A {
        Some(Tag::BlackLevels)
    } else     if v == 0xC61D {
        Some(Tag::WhiteLevel)
    } else     if v == 0xC621 {
        Some(Tag::ColorMatrix1)
    } else     if v == 0xC622 {
        Some(Tag::ColorMatrix2)
    } else     if v == 0xC628 {
        Some(Tag::AsShotNeutral)
    } else     if v == 0xC634 {
        Some(Tag::DNGPrivateArea)
    } else     if v == 0xC640 {
        Some(Tag::Cr2StripeWidths)
    } else     if v == 0xC68D {
        Some(Tag::ActiveArea)
    } else     if v == 0xC68E {
        Some(Tag::MaskedAreas)
    } else     if v == 0xF000 {
        Some(Tag::RafRawSubIFD)
    } else     if v == 0xF001 {
        Some(Tag::RafImageWidth)
    } else     if v == 0xF002 {
        Some(Tag::RafImageLength)
    } else     if v == 0xF003 {
        Some(Tag::RafBitsPerSample)
    } else     if v == 0xF007 {
        Some(Tag::RafOffsets)
    } else     if v == 0xF00E {
        Some(Tag::RafWBGRB)
    } else     if v == 0xFA2A {
        Some(Tag::KdcWB)
    } else     if v == 0xFD00 {
        Some(Tag::KdcWidth)
    } else     if v == 0xFD01 {
        Some(Tag::KdcLength)
    } else     if v == 0xFD04 {
        Some(Tag::KdcOffset)
    } else     if v == 0xFE00 {
        Some(Tag::KdcIFD)
    } else {
        None
    }
}

/// The 16-bit code of a tag.
pub fn t(tag: Tag) -> (r: u16)
    ensures
        r == tag_value(tag),
{
    match tag {
        Tag::PanaWidth => 0x0002,
        Tag::PanaLength => 0x0003,
        Tag::NefWB0 => 0x000C,
        Tag::PanaWBsR => 0x0011,
        Tag::PanaWBsB => 0x0012,
        Tag::NrwWB => 0x0014,
        Tag::NefSerial => 0x001d,
        Tag::PanaWBs2R => 0x0024,
        Tag::PanaWBs2G => 0x0025,
        Tag::PanaWBs2B => 0x0026,
        Tag::Cr2PowerShotWB => 0x0029,
        Tag::NewSubFileType => 0x00FE,
        Tag::Cr2OldOffset => 0x0081,
        Tag::NefMeta1 => 0x008c,
        Tag::NefMeta2 => 0x0096,
        Tag::NefWB1 => 0x0097,
        Tag::Cr2OldWB => 0x00A4,
        Tag::NefKey => 0x00a7,
        Tag::ImageWidth => 0x0100,
        Tag::ImageLength => 0x0101,
        Tag::BitsPerSample => 0x0102,
        Tag::Compression => 0x0103,
        Tag::PhotometricInt => 0x0106,
        Tag::Make => 0x010F,
        Tag::Model => 0x0110,
        Tag::StripOffsets => 0x0111,
        Tag::Orientation => 0x0112,
        Tag::SamplesPerPixel => 0x0115,
        Tag::StripByteCounts => 0x0117,
        Tag::PanaOffsets => 0x0118,
        Tag::GrayResponse => 0x0123,
        Tag::Software => 0x0131,
        Tag::TileWidth => 0x0142,
        Tag::TileLength => 0x0143,
        Tag::TileOffsets => 0x0144,
        Tag::SubIFDs => 0x014A,
        Tag::PefBlackLevels => 0x0200,
        Tag::PefWB => 0x0201,
        Tag::PefHuffman => 0x0220,
        Tag::Xmp => 0x02BC,
        Tag::DcrWB => 0x03FD,
        Tag::OrfBlackLevels => 0x0600,
        Tag::DcrLinearization => 0x090D,
        Tag::EpsonWB => 0x0E80,
        Tag::KodakWB => 0x0F00,
        Tag::OlympusRedMul => 0x1017,
        Tag::OlympusBlueMul => 0x1018,
        Tag::OlympusImgProc => 0x2040,
        Tag::RafOldWB => 0x2ff0,
        Tag::Cr2ColorData => 0x4001,
        Tag::SonyCurve => 0x7010,
        Tag::SonyOffset => 0x7200,
        Tag::SonyLength => 0x7201,
        Tag::SonyKey => 0x7221,
        Tag::SonyGRBG => 0x7303,
        Tag::SonyRGGB => 0x7313,
        Tag::CFAPattern => 0x828E,
        Tag::KodakIFD => 0x8290,
        Tag::LeafMetadata => 0x8606,
        Tag::ExifIFDPointer => 0x8769,
        Tag::Makernote => 0x927C,
        Tag::SrwSensorAreas => 0xA010,
        Tag::SrwRGGBLevels => 0xA021,
        Tag::SrwRGGBBlacks => 0xA028,
        Tag::Cr2Id => 0xc5d8,
        Tag::DNGVersion => 0xC612,
        Tag::Linearization => 0xC618,
        Tag::BlackLevels => 0xC61A,
        Tag::WhiteLevel => 0xC61D,
        Tag::ColorMatrix1 => 0xC621,
        Tag::ColorMatrix2 => 0xC622,
        Tag::AsShotNeutral => 0xC628,
        Tag::DNGPrivateArea => 0xC634,
        Tag::Cr2StripeWidths => 0xC640,
        Tag::ActiveArea => 0xC68D,
        Tag::MaskedAreas => 0xC68E,
        Tag::RafRawSubIFD => 0xF000,
        Tag::RafImageWidth => 0xF001,
        Tag::RafImageLength => 0xF002,
        Tag::RafBitsPerSample => 0xF003,
        Tag::RafOffsets => 0xF007,
        Tag::RafWBGRB => 0xF00E,
        Tag::KdcWB => 0xFA2A,
        Tag::KdcWidth => 0xFD00,
        Tag::KdcLength => 0xFD01,
        Tag::KdcOffset => 0xFD04,
        Tag::KdcIFD => 0xFE00,
    }
}

impl Tag {
    /// The tag with code `v`, if this library knows it.
    pub fn n(v: u16) -> (r: Option<Tag>)
        ensures
            r == tag_of(v),
    {
        match v {
            0x0002 => Some(Tag::PanaWidth),
            0x0003 => Some(Tag::PanaLength),
            0x000C => Some(Tag::NefWB0),
            0x0011 => Some(Tag::PanaWBsR),
            0x0012 => Some(Tag::PanaWBsB),
            0x0014 => Some(Tag::NrwWB),
            0x001d => Some(Tag::NefSerial),
            0x0024 => Some(Tag::PanaWBs2R),
            0x0025 => Some(Tag::PanaWBs2G),
            0x0026 => Some(Tag::PanaWBs2B),
            0x0029 => Some(Tag::Cr2PowerShotWB),
            0x00FE => Some(Tag::NewSubFileType),
            0x0081 => Some(Tag::Cr2OldOffset),
            0x008c => Some(Tag::NefMeta1),
            0x0096 => Some(Tag::NefMeta2),
            0x0097 => Some(Tag::NefWB1),
            0x00A4 => Some(Tag::Cr2OldWB),
            0x00a7 => Some(Tag::NefKey),
            0x0100 => Some(Tag::ImageWidth),
            0x0101 => Some(Tag::ImageLength),
            0x0102 => Some(Tag::BitsPerSample),
            0x0103 => Some(Tag::Compression),
            0x0106 => Some(Tag::PhotometricInt),
            0x010F => Some(Tag::Make),
            0x0110 => Some(Tag::Model),
            0x0111 => Some(Tag::StripOffsets),
            0x0112 => Some(Tag::Orientation),
            0x0115 => Some(Tag::SamplesPerPixel),
            0x0117 => Some(Tag::StripByteCounts),
            0x0118 => Some(Tag::PanaOffsets),
            0x0123 => Some(Tag::GrayResponse),
            0x0131 => Some(Tag::Software),
            0x0142 => Some(Tag::TileWidth),
            0x0143 => Some(Tag::TileLength),
            0x0144 => Some(Tag::TileOffsets),
            0x014A => Some(Tag::SubIFDs),
            0x0200 => Some(Tag::PefBlackLevels),
            0x0201 => Some(Tag::PefWB),
            0x0220 => Some(Tag::PefHuffman),
            0x02BC => Some(Tag::Xmp),
            0x03FD => Some(Tag::DcrWB),
            0x0600 => Some(Tag::OrfBlackLevels),
            0x090D => Some(Tag::DcrLinearization),
            0x0E80 => Some(Tag::EpsonWB),
            0x0F00 => Some(Tag::KodakWB),
            0x1017 => Some(Tag::OlympusRedMul),
            0x1018 => Some(Tag::OlympusBlueMul),
            0x2040 => Some(Tag::OlympusImgProc),
            0x2ff0 => Some(Tag::RafOldWB),
            0x4001 => Some(Tag::Cr2ColorData),
            0x7010 => Some(Tag::SonyCurve),
            0x7200 => Some(Tag::SonyOffset),
            0x7201 => Some(Tag::SonyLength),
            0x7221 => Some(Tag::SonyKey),
            0x7303 => Some(Tag::SonyGRBG),
            0x7313 => Some(Tag::SonyRGGB),
            0x828E => Some(Tag::CFAPattern),
            0x8290 => Some(Tag::KodakIFD),
            0x8606 => Some(Tag::LeafMetadata),
            0x8769 => Some(Tag::ExifIFDPointer),
            0x927C => Some(Tag::Makernote),
            0xA010 => Some(Tag::SrwSensorAreas),
            0xA021 => Some(Tag::SrwRGGBLevels),
            0xA028 => Some(Tag::SrwRGGBBlacks),
            0xc5d8 => Some(Tag::Cr2Id),
            0xC612 => Some(Tag::DNGVersion),
            0xC618 => Some(Tag::Linearization),
            0xC61A => Some(Tag::BlackLevels),
            0xC61D => Some(Tag::WhiteLevel),
            0xC621 => Some(Tag::ColorMatrix1),
            0xC622 => Some(Tag::ColorMatrix2),
            0xC628 => Some(Tag::AsShotNeutral),
            0xC634 => Some(Tag::DNGPrivateArea),
            0xC640 => Some(Tag::Cr2StripeWidths),
            0xC68D => Some(Tag::ActiveArea),
            0xC68E => Some(Tag::MaskedAreas),
            0xF000 => Some(Tag::RafRawSubIFD),
            0xF001 => Some(Tag::RafImageWidth),
            0xF002 => Some(Tag::RafImageLength),
            0xF003 => Some(Tag::RafBitsPerSample),
            0xF007 => Some(Tag::RafOffsets),
            0xF00E => Some(Tag::RafWBGRB),
            0xFA2A => Some(Tag::KdcWB),
            0xFD00 => Some(Tag::KdcWidth),
            0xFD01 => Some(Tag::KdcLength),
            0xFD04 => Some(Tag::KdcOffset),
            0xFE00 => Some(Tag::KdcIFD),
            _ => None,
        }
    }
}

/// Every tag is found again from its code.
pub proof fn lemma_tag_roundtrip(tag: Tag)
    ensures
        tag_of(tag_value(tag)) == Some(tag),
{
}

/// A code that names a tag is that tag's code.
pub proof fn lemma_tag_of_value(v: u16)
    ensures
        tag_of(v) matches Some(tag) ==> tag_value(tag) == v,
{
}


/// Unicode's `White_Space` property: tab, line feed, vertical tab, form
/// feed, carriage return, space, next line, no-break space, ogham space
/// mark, the spaces U+2000 to U+200A, line and paragraph separators, narrow
/// no-break space, medium mathematical space and ideographic space.
pub open spec fn is_white_space(c: char) -> bool {
    let n = c as u32;
    ||| 0x9 <= n <= 0xD
    ||| n == 0x20
    ||| n == 0x85
    ||| n == 0xA0
    ||| n == 0x1680
    ||| 0x2000 <= n <= 0x200A
    ||| n == 0x2028
    ||| n == 0x2029
    ||| n == 0x202F
    ||| n == 0x205F
    ||| n == 0x3000
}

/// `s` without its leading white space.
pub open spec fn trim_start(s: Seq<char>) -> Seq<char>
    decreases s.len(),
{
    if s.len() > 0 && is_white_space(s[0]) {
        trim_start(s.drop_first())
    } else {
        s
    }
}

/// `s` without its trailing white space.
pub open spec fn trim_end(s: Seq<char>) -> Seq<char>
    decreases s.len(),
{
    if s.len() > 0 && is_white_space(s.last()) {
        trim_end(s.drop_last())
    } else {
        s
    }
}

/// `s` without its leading and trailing white space.
pub open spec fn trim_white_space(s: Seq<char>) -> Seq<char> {
    trim_end(trim_start(s))
}

/// Calls `std::str::from_utf8`. Trusted: as its documentation says, the
/// bytes are accepted exactly when they are valid UTF-8 (no overlong
/// encodings, no surrogates, nothing above U+10FFFF), and the string is
/// then the characters they encode.
#[verifier::external_body]
fn str_from_utf8(bytes: &[u8]) -> (r: Option<&str>)
    ensures
        r is Some <==> vstd::utf8::valid_utf8(bytes@),
        r matches Some(s) ==> s@ == vstd::utf8::decode_utf8(bytes@),
{
    std::str::from_utf8(bytes).ok()
}

/// Calls `str::trim`. Trusted: as its documentation says, the result is
/// `s` with its leading and trailing characters of Unicode's `White_Space`
/// property removed.
#[verifier::external_body]
fn str_trim(s: &str) -> (r: &str)
    ensures
        r@ == trim_white_space(s@),
{
    s.trim()
}

/// Position of the first zero byte at or after `i`, or the length of `data`.
pub open spec fn nul_pos(data: Seq<u8>, i: int) -> int
    decreases data.len() - i,
{
    if i >= data.len() || i < 0 {
        data.len() as int
    } else if data[i] == 0 {
        i
    } else {
        nul_pos(data, i + 1)
    }
}

/// The text of string data: the bytes before the first zero byte, decoded
/// as UTF-8 and trimmed of white space; empty where they are not UTF-8.
pub open spec fn spec_entry_str(data: Seq<u8>) -> Seq<char> {
    let text = data.subrange(0, nul_pos(data, 0));
    if vstd::utf8::valid_utf8(text) {
        trim_white_space(vstd::utf8::decode_utf8(text))
    } else {
        Seq::empty()
    }
}

/// The first zero byte at or after `i` is at or after `i` and inside the data.
pub proof fn lemma_nul_pos_range(data: Seq<u8>, i: int)
    requires
        0 <= i <= data.len(),
    ensures
        i <= nul_pos(data, i) <= data.len(),
    decreases data.len() - i,
{
    if i < data.len() && data[i] != 0 {
        lemma_nul_pos_range(data, i + 1);
    }
}

/// String data as text: up to the first zero byte, decoded as UTF-8 and
/// trimmed; empty where it is not UTF-8.
pub fn get_str_entry_val(data: &[u8]) -> (r: &str)
    ensures
        r@ == spec_entry_str(data@),
{
    // Truncate the string when there are \0 bytes
    let mut len: usize = 0;
    while len < data.len() && data[len] != 0
        invariant
            len <= data@.len(),
            nul_pos(data@, 0) == nul_pos(data@, len as int),
        decreases data@.len() - len,
    {
        len = len + 1;
    }
    proof {
        lemma_nul_pos_range(data@, 0);
    }
    match str_from_utf8(vstd::slice::slice_subrange(data, 0, len)) {
        Some(val) => str_trim(val),
        None => {
            proof {
                reveal_strlit("");
            }
            ""
        },
    }
}

// ---------------------------------------------------------------------------
// Entries
// ---------------------------------------------------------------------------

/// Element size of each TIFF field type, as a power of two (types past 13
/// never occur: unknown types are read as bytes).
pub open spec fn spec_datashift(typ: u16) -> int {
    if typ == 3 || typ == 8 {
        1
    } else if typ == 4 || typ == 9 || typ == 11 || typ == 13 {
        2
    } else if typ == 5 || typ == 10 || typ == 12 {
        3
    } else {
        0
    }
}

/// Element size of field type `typ`, as a power of two.
fn datashift(typ: u16) -> (r: u64)
    ensures
        r as int == spec_datashift(typ),
{
    // 0-1-2-3-4-5-6-7-8-9-10-11-12-13
    // 0,0,0,1,2,3,0,0,1,2, 3, 2, 3, 2
    match typ {
        3 | 8 => 1,
        4 | 9 | 11 | 13 => 2,
        5 | 10 | 12 => 3,
        _ => 0,
    }
}

/// A directory entry: its tag, field type and element count, where its data
/// lies and the data itself.
pub struct EntryView {
    pub tag: u16,
    pub typ: u16,
    pub count: usize,
    pub parent_offset: usize,
    pub doffset: usize,
    pub data: Seq<u8>,
    pub endian: Endian,
}

/// A directory entry: its tag, field type and element count, where its
/// data lies and the data itself.
#[derive(Debug, Copy, Clone)]
pub struct TiffEntry<'a> {
    tag: u16,
    typ: u16,
    count: usize,
    parent_offset: usize,
    doffset: usize,
    data: &'a [u8],
    endian: Endian,
}

impl<'a> View for TiffEntry<'a> {
    type V = EntryView;

    closed spec fn view(&self) -> EntryView {
        EntryView {
            tag: self.tag,
            typ: self.typ,
            count: self.count,
            parent_offset: self.parent_offset,
            doffset: self.doffset,
            data: self.data@,
            endian: self.endian,
        }
    }
}

/// The field type of the entry at `off`, unknown types read as bytes.
pub open spec fn spec_entry_typ(e: Endian, buf: Seq<u8>, off: int) -> u16 {
    let typ = spec_read_u16(e, buf, off + 2);
    if typ == 0 || typ > 13 {
        1
    } else {
        typ
    }
}

/// The element count of the entry at `off`.
pub open spec fn spec_entry_count(e: Endian, buf: Seq<u8>, off: int) -> usize {
    spec_read_u32(e, buf, off + 4) as usize
}

/// The size in bytes of the data of the entry at `off` (the element count
/// shifted by the type's element size, in a `usize`).
pub open spec fn spec_entry_bytesize(e: Endian, buf: Seq<u8>, off: int) -> usize {
    (spec_entry_count(e, buf, off) as int * vstd::arithmetic::power2::pow2(
        spec_datashift(spec_entry_typ(e, buf, off)) as nat,
    )) as usize
}

/// Where the data of the entry at `off` starts: in the entry itself where it
/// fits in four bytes, else at the offset it holds, less `base_offset`.
pub open spec fn spec_entry_doffset(e: Endian, buf: Seq<u8>, off: int, base_offset: int) -> int {
    if spec_entry_bytesize(e, buf, off) <= 4 {
        off + 8
    } else {
        spec_read_u32(e, buf, off + 8) - base_offset
    }
}

/// The entry at `off` of `buf`, where its data lies inside `buf`.
pub open spec fn spec_entry_at(
    buf: Seq<u8>,
    off: int,
    base_offset: int,
    parent_offset: int,
    e: Endian,
) -> Option<EntryView> {
    let doffset = spec_entry_doffset(e, buf, off, base_offset);
    let size = spec_entry_bytesize(e, buf, off);
    if 0 <= doffset && doffset + size <= buf.len() {
        Some(
            EntryView {
                tag: spec_read_u16(e, buf, off),
                typ: spec_entry_typ(e, buf, off),
                count: spec_entry_count(e, buf, off),
                parent_offset: parent_offset as usize,
                doffset: doffset as usize,
                data: buf.subrange(doffset, doffset + size),
                endian: e,
            },
        )
    } else {
        None
    }
}

/// The message of the error that reading the entry at `off` ends with,
/// where its data does not lie inside `buf`.
pub open spec fn spec_entry_message(buf: Seq<u8>, off: int, base: int, e: Endian) -> Seq<char> {
    let tag = spec_read_u16(e, buf, off);
    let size = spec_entry_bytesize(e, buf, off);
    let d = spec_entry_doffset(e, buf, off, base);
    if size <= 4 && off + 8 > usize::MAX {
        "TIFF: entry offset overflow for tag "@ + spec_dec(tag as nat)
    } else if size > 4 && d < 0 {
        "TIFF: entry data offset underflow for tag "@ + spec_dec(tag as nat)
    } else if d + size > usize::MAX {
        "TIFF: entry data range overflow for tag "@ + spec_dec(tag as nat)
    } else {
        "TIFF: entry data for tag "@ + spec_dec(tag as nat) + " at "@ + spec_dec(d as nat) + ".."@ + spec_dec(
            (d + size) as nat,
        ) + " exceeds buffer size "@ + spec_dec(buf.len())
    }
}

/// The value at index `idx` of data of field type `typ` read as a 32-bit
/// number: bytes for byte-sized types, shorts for short types, longs for
/// long types and the numerator for rationals; 0 for floating-point types
/// and where the data is too short.
pub open spec fn spec_value_u32(typ: u16, data: Seq<u8>, endian: Endian, idx: int) -> u32 {
    if typ == 1 || typ == 2 || typ == 6 || typ == 7 {
        if 0 <= idx < data.len() {
            data[idx] as u32
        } else {
            0
        }
    } else if typ == 3 || typ == 8 {
        spec_read_u16(endian, data, idx * 2) as u32
    } else if typ == 4 || typ == 9 || typ == 13 {
        spec_read_u32(endian, data, idx * 4)
    } else if typ == 5 || typ == 10 {
        spec_read_u32(endian, data, idx * 8)
    } else {
        0
    }
}

/// The value at index `idx` of an entry read as a 32-bit number.
pub open spec fn spec_get_u32(en: EntryView, idx: int) -> u32 {
    spec_value_u32(en.typ, en.data, en.endian, idx)
}

/// The value at index `idx` of an entry read as a 16-bit number.
pub open spec fn spec_get_u16(en: EntryView, idx: int) -> u16 {
    let typ = en.typ;
    if typ == 1 || typ == 2 || typ == 6 || typ == 7 {
        if 0 <= idx < en.data.len() {
            en.data[idx] as u16
        } else {
            0
        }
    } else if typ == 3 || typ == 8 {
        spec_read_u16(en.endian, en.data, idx * 2)
    } else if typ == 4 || typ == 9 || typ == 13 {
        spec_read_u32(en.endian, en.data, idx * 4) as u16
    } else if typ == 5 || typ == 10 {
        spec_read_u32(en.endian, en.data, idx * 8) as u16
    } else {
        0
    }
}

/// An offset plus a length, saturating at the largest `usize` (where no
/// buffer reaches anyway).
fn sat_add(a: usize, b: usize) -> (r: usize)
    ensures
        r == if a + b <= usize::MAX {
            (a + b) as usize
        } else {
            usize::MAX
        },
{
    if a <= usize::MAX - b {
        a + b
    } else {
        usize::MAX
    }
}

/// Reads a `u16` at `offset + delta`, with no overflow of the offset.
fn ru16_at(e: Endian, buf: &[u8], offset: usize, delta: usize) -> (r: u16)
    ensures
        r == spec_read_u16(e, buf@, offset + delta),
{
    assert(buf@.len() == buf.len());
    e.ru16(buf, sat_add(offset, delta))
}

/// Reads a `u32` at `offset + delta`, with no overflow of the offset.
fn ru32_at(e: Endian, buf: &[u8], offset: usize, delta: usize) -> (r: u32)
    ensures
        r == spec_read_u32(e, buf@, offset + delta),
{
    assert(buf@.len() == buf.len());
    e.ru32(buf, sat_add(offset, delta))
}

impl<'a> TiffEntry<'a> {
    /// Entries have a known field type.
    #[verifier::type_invariant]
    closed spec fn typ_known(&self) -> bool {
        1 <= self.typ <= 13
    }

    /// Parses the 12-byte directory entry at `offset` of `buf`. Its data
    /// must lie inside `buf`; the data offset it holds counts from
    /// `base_offset`.
    pub fn new(buf: &'a [u8], offset: usize, base_offset: usize, parent_offset: usize, e: Endian) -> (r: Result<TiffEntry<'a>, String>)
        ensures
            match spec_entry_at(buf@, offset as int, base_offset as int, parent_offset as int, e) {
                Some(v) => (r matches Ok(en) && en@ == v),
                None => (r matches Err(m) && m@ == spec_entry_message(
                    buf@,
                    offset as int,
                    base_offset as int,
                    e,
                )),
            },
    {
        assert(buf@.len() == buf.len());
        let tag = e.ru16(buf, offset);
        let mut typ = ru16_at(e, buf, offset, 2);
        let count = ru32_at(e, buf, offset, 4) as usize;

        // An unknown type is read as byte data
        if typ == 0 || typ > 13 {
            typ = 1;
        }

        let shift = datashift(typ);
        proof {
            vstd::arithmetic::power2::lemma2_to64();
        }
        let mul: u64 = if shift == 0 { 1 } else if shift == 1 { 2 } else if shift == 2 { 4 } else { 8 };
        let bytesize: usize = ((count as u64) * mul) as usize;
        let doffset: usize = if bytesize <= 4 {
            if offset > usize::MAX - 8 {
                let mut m = String::from_str("TIFF: entry offset overflow for tag ");
                push_dec(&mut m, tag as u128);
                return Err(m);
            }
            offset + 8
        } else {
            let d = ru32_at(e, buf, offset, 8) as usize;
            if d < base_offset {
                let mut m = String::from_str("TIFF: entry data offset underflow for tag ");
                push_dec(&mut m, tag as u128);
                return Err(m);
            }
            d - base_offset
        };

        if doffset > usize::MAX - bytesize {
            let mut m = String::from_str("TIFF: entry data range overflow for tag ");
            push_dec(&mut m, tag as u128);
            return Err(m);
        }
        let end = doffset + bytesize;
        if end > buf.len() {
            let mut m = String::from_str("TIFF: entry data for tag ");
            push_dec(&mut m, tag as u128);
            m.append(" at ");
            push_dec(&mut m, doffset as u128);
            m.append("..");
            push_dec(&mut m, end as u128);
            m.append(" exceeds buffer size ");
            push_dec(&mut m, buf.len() as u128);
            return Err(m);
        }

        Ok(
            TiffEntry {
                tag: tag,
                typ: typ,
                count: count,
                parent_offset: parent_offset,
                doffset: doffset,
                data: vstd::slice::slice_subrange(buf, doffset, end),
                endian: e,
            },
        )
    }

    /// A copy of this entry with other data.
    pub fn copy_with_new_data(&self, data: &'a [u8]) -> (r: TiffEntry<'a>)
        ensures
            r@ == (EntryView { data: data@, ..self@ }),
    {
        proof {
            use_type_invariant(self);
        }
        TiffEntry {
            tag: self.tag,
            typ: self.typ,
            count: self.count,
            parent_offset: self.parent_offset,
            doffset: self.doffset,
            data: data,
            endian: self.endian,
        }
    }

    /// A copy of this entry whose data is `buffer` from the entry's offset
    /// within its parent on; empty where that offset lies past the buffer.
    pub fn copy_offset_from_parent(&self, buffer: &'a [u8]) -> (r: TiffEntry<'a>)
        ensures
            ({
                let off = if self@.parent_offset + self@.doffset <= buffer@.len() {
                    self@.parent_offset + self@.doffset
                } else {
                    buffer@.len() as int
                };
                r@ == (EntryView { data: buffer@.subrange(off, buffer@.len() as int), ..self@ })
            }),
    {
        // Clamp to buffer bounds: callers get an empty or truncated slice for
        // inconsistent offsets rather than a failure.
        let sum = sat_add(self.parent_offset, self.doffset);
        let off = if sum < buffer.len() { sum } else { buffer.len() };
        self.copy_with_new_data(vstd::slice::slice_subrange(buffer, off, buffer.len()))
    }

    /// Where the entry's data starts in the buffer it was read from.
    pub fn doffset(&self) -> (r: usize)
        ensures
            r == self@.doffset,
    {
        self.doffset
    }

    /// Offset of the directory the entry was read from.
    pub fn parent_offset(&self) -> (r: usize)
        ensures
            r == self@.parent_offset,
    {
        self.parent_offset
    }

    /// The entry's element count.
    pub fn count(&self) -> (r: usize)
        ensures
            r == self@.count,
    {
        self.count
    }

    /// The value at index `idx` as a 16-bit number.
    pub fn get_u16(&self, idx: usize) -> (r: u16)
        ensures
            r == spec_get_u16(self@, idx as int),
    {
        proof {
            use_type_invariant(self);
        }
        match self.typ {
            1 | 2 | 6 | 7 => if idx < self.data.len() {
                self.data[idx] as u16
            } else {
                0
            },
            3 | 8 => self.get_force_u16(idx),
            4 | 9 | 13 => self.get_force_u32(idx) as u16,
            5 | 10 => self.rational_numerator(idx) as u16,
            11 | 12 => 0,  // FLOAT/DOUBLE: no meaningful u16
            _ => 0,  // unreachable: typ is normalized to 1..=13
        }
    }

    /// The value at index `idx` as a 32-bit number.
    pub fn get_u32(&self, idx: usize) -> (r: u32)
        ensures
            r == spec_get_u32(self@, idx as int),
    {
        proof {
            use_type_invariant(self);
        }
        match self.typ {
            1 | 2 | 6 | 7 => if idx < self.data.len() {
                self.data[idx] as u32
            } else {
                0
            },
            3 | 8 => self.get_force_u16(idx) as u32,
            4 | 9 | 13 => self.get_force_u32(idx),
            5 | 10 => self.rational_numerator(idx),
            11 | 12 => 0,  // FLOAT/DOUBLE: no meaningful u32
            _ => 0,  // unreachable: typ is normalized to 1..=13
        }
    }

    /// The value at index `idx` as a `usize`.
    pub fn get_usize(&self, idx: usize) -> (r: usize)
        ensures
            r == spec_get_u32(self@, idx as int) as usize,
    {
        self.get_u32(idx) as usize
    }

    /// The `idx`-th 32-bit word of the data, whatever the type.
    pub fn get_force_u32(&self, idx: usize) -> (r: u32)
        ensures
            r == spec_read_u32(self@.endian, self@.data, idx * 4),
    {
        assert(self.data@.len() == self.data.len());
        if idx > usize::MAX / 4 {
            return 0;
        }
        self.endian.ru32(self.data, idx * 4)
    }

    /// The numerator of the `idx`-th rational of the data: the first of
    /// each pair of 32-bit words.
    fn rational_numerator(&self, idx: usize) -> (r: u32)
        ensures
            r == spec_read_u32(self@.endian, self@.data, idx * 8),
    {
        assert(self.data@.len() == self.data.len());
        if idx > usize::MAX / 8 {
            return 0;
        }
        self.endian.ru32(self.data, idx * 8)
    }

    /// The `idx`-th 16-bit word of the data, whatever the type.
    pub fn get_force_u16(&self, idx: usize) -> (r: u16)
        ensures
            r == spec_read_u16(self@.endian, self@.data, idx * 2),
    {
        assert(self.data@.len() == self.data.len());
        if idx > usize::MAX / 2 {
            return 0;
        }
        self.endian.ru16(self.data, idx * 2)
    }


    /// The entry's data as text: up to the first zero byte, decoded as UTF-8
    /// and trimmed; empty where it is not UTF-8.
    pub fn get_str(&self) -> (r: &'a str)
        ensures
            r@ == spec_entry_str(self@.data),
    {
        get_str_entry_val(self.data)
    }

    /// The field type of the entry.
    pub fn typ(&self) -> (r: u16)
        ensures
            r == self@.typ,
    {
        self.typ
    }

    /// The byte order of the entry's data.
    pub fn endian(&self) -> (r: Endian)
        ensures
            r == self@.endian,
    {
        self.endian
    }

    /// The raw data of the entry.
    pub fn get_data(&self) -> (r: &'a [u8])
        ensures
            r@ == self@.data,
    {
        self.data
    }
}

/// Reading a value as 16 bits gives the 32-bit reading truncated.
pub proof fn lemma_get_u16_is_truncated_u32(en: EntryView, idx: int)
    ensures
        spec_get_u16(en, idx) == spec_get_u32(en, idx) as u16,
{
    let typ = en.typ;
    if typ == 3 || typ == 8 {
        let v = spec_read_u16(en.endian, en.data, idx * 2);
        assert(v == (v as u32) as u16) by (bit_vector);
    } else if typ == 1 || typ == 2 || typ == 6 || typ == 7 {
        if 0 <= idx < en.data.len() {
            let b = en.data[idx];
            assert(b as u16 == (b as u32) as u16) by (bit_vector);
        }
    }
}

// ---------------------------------------------------------------------------
// Directories
// ---------------------------------------------------------------------------

/// A directory (IFD): its entries by tag code, the directories found below
/// it, the offset of the next one in its chain, the offset of the TIFF
/// structure it belongs to and its byte order.
#[derive(Debug)]
pub struct TiffIFD<'a> {
    entries: HashMap<u16, TiffEntry<'a>>,
    subifds: Vec<TiffIFD<'a>>,
    nextifd: usize,
    start_offset: usize,
    endian: Endian,
}

impl<'a> TiffIFD<'a> {
    /// The entries of this directory, by tag code.
    pub closed spec fn entry_map(&self) -> Map<u16, EntryView> {
        entry_views(self.entries@)
    }

    /// The directories below this one, in the order they were found.
    pub closed spec fn subs(&self) -> Seq<TiffIFD<'a>> {
        self.subifds@
    }

    /// Offset of the next directory in the chain (0 for none).
    pub closed spec fn next(&self) -> usize {
        self.nextifd
    }

    /// Offset of the TIFF structure in the file that data offsets count from.
    pub closed spec fn start(&self) -> usize {
        self.start_offset
    }

    /// Byte order of the directory.
    pub closed spec fn order(&self) -> Endian {
        self.endian
    }
}

/// The first entry with tag code `k` in `ifd` or, if it has none, in the
/// directories below it, searched depth first in order.
pub open spec fn spec_find_entry<'a>(ifd: TiffIFD<'a>, k: u16) -> Option<EntryView>
    decreases ifd, 0int,
{
    if ifd.entry_map().contains_key(k) {
        Some(ifd.entry_map()[k])
    } else {
        spec_find_in_list(ifd.subs(), 0, k)
    }
}

/// The first entry with tag code `k` found in `list[i..]`.
pub open spec fn spec_find_in_list<'a>(list: Seq<TiffIFD<'a>>, i: int, k: u16) -> Option<EntryView>
    decreases list, list.len() - i,
{
    if i < 0 || i >= list.len() {
        None
    } else {
        match spec_find_entry(list[i], k) {
            Some(e) => Some(e),
            None => spec_find_in_list(list, i + 1, k),
        }
    }
}

/// Whether directory `ifd` itself holds an entry with tag code `k`.
pub open spec fn has_own(ifd: TiffIFD, k: u16) -> bool {
    ifd.entry_map().contains_key(k)
}

/// The directories holding tag code `k`, collected depth first: `ifd` if it
/// holds it, then for each directory below it, that directory if it holds
/// it, followed by the collection from that directory (which lists it once
/// more).
pub open spec fn spec_ifds_with<'a>(ifd: TiffIFD<'a>, k: u16) -> Seq<TiffIFD<'a>>
    decreases ifd, 0int,
{
    (if has_own(ifd, k) {
        seq![ifd]
    } else {
        Seq::empty()
    }) + spec_ifds_with_list(ifd.subs(), 0, k)
}

/// The collection of `spec_ifds_with` over `list[i..]`.
pub open spec fn spec_ifds_with_list<'a>(list: Seq<TiffIFD<'a>>, i: int, k: u16) -> Seq<TiffIFD<'a>>
    decreases list, list.len() - i,
{
    if i < 0 || i >= list.len() {
        Seq::empty()
    } else {
        (if has_own(list[i], k) {
            seq![list[i]]
        } else {
            Seq::empty()
        }) + spec_ifds_with(list[i], k) + spec_ifds_with_list(list, i + 1, k)
    }
}

/// The collection of `spec_ifds_with` over `list[..n]`.
pub open spec fn spec_ifds_with_prefix<'a>(list: Seq<TiffIFD<'a>>, n: int, k: u16) -> Seq<TiffIFD<'a>>
    decreases n,
{
    if n <= 0 {
        Seq::empty()
    } else {
        spec_ifds_with_prefix(list, n - 1, k) + (if has_own(list[n - 1], k) {
            seq![list[n - 1]]
        } else {
            Seq::empty()
        }) + spec_ifds_with(list[n - 1], k)
    }
}

proof fn lemma_ifds_with_prefix_all<'a>(list: Seq<TiffIFD<'a>>, n: int, k: u16)
    requires
        0 <= n <= list.len(),
    ensures
        spec_ifds_with_prefix(list, n, k) + spec_ifds_with_list(list, n, k) == spec_ifds_with_list(
            list,
            0,
            k,
        ),
    decreases n,
{
    if n > 0 {
        lemma_ifds_with_prefix_all(list, n - 1, k);
        let a = spec_ifds_with_prefix(list, n - 1, k);
        let b = (if has_own(list[n - 1], k) {
            seq![list[n - 1]]
        } else {
            Seq::empty()
        }) + spec_ifds_with(list[n - 1], k);
        let c = spec_ifds_with_list(list, n, k);
        assert(spec_ifds_with_list(list, n - 1, k) == b + c);
        assert(a + (b + c) =~= (a + b) + c);
    } else {
        assert(Seq::<TiffIFD<'a>>::empty() + spec_ifds_with_list(list, 0, k) =~= spec_ifds_with_list(
            list,
            0,
            k,
        ));
    }
}

proof fn lemma_find_in_list_skip<'a>(list: Seq<TiffIFD<'a>>, n: int, k: u16)
    requires
        0 <= n <= list.len(),
        forall|j: int| 0 <= j < n ==> spec_find_entry(#[trigger] list[j], k) is None,
    ensures
        spec_find_in_list(list, 0, k) == spec_find_in_list(list, n, k),
    decreases n,
{
    if n > 0 {
        lemma_find_in_list_skip(list, n - 1, k);
    }
}

impl<'a> TiffIFD<'a> {
    /// The first entry with tag `tag` in this directory or, if it has none,
    /// in the directories below it, searched depth first in order.
    pub fn find_entry(&self, tag: Tag) -> (r: Option<&TiffEntry<'a>>)
        ensures
            match spec_find_entry(*self, tag_value(tag)) {
                Some(v) => (r matches Some(en) && en@ == v),
                None => r is None,
            },
        decreases *self,
    {
        broadcast use vstd::std_specs::hash::group_hash_axioms;

        let k = t(tag);
        if self.entries.contains_key(&k) {
            self.entries.get(&k)
        } else {
            let n = self.subifds.len();
            let mut i: usize = 0;
            while i < n
                invariant
                    n == self.subifds@.len(),
                    i <= n,
                    k == tag_value(tag),
                    !self.entry_map().contains_key(k),
                    forall|j: int| 0 <= j < i ==> spec_find_entry(#[trigger] self.subifds@[j], k) is None,
                decreases n - i,
            {
                proof {
                    assert(decreases_to!(*self => self.subifds));
                    assert(decreases_to!(self.subifds => self.subifds@));
                    assert(decreases_to!(self.subifds@ => self.subifds@[i as int]));
                }
                match self.subifds[i].find_entry(tag) {
                    Some(x) => {
                        proof {
                            lemma_find_in_list_skip(self.subifds@, i as int, k);
                        }
                        return Some(x);
                    },
                    None => {},
                }
                i = i + 1;
            }
            proof {
                lemma_find_in_list_skip(self.subifds@, n as int, k);
            }
            None
        }
    }

    /// Whether this directory or one below it has an entry with tag `tag`.
    pub fn has_entry(&self, tag: Tag) -> (r: bool)
        ensures
            r == spec_find_entry(*self, tag_value(tag)) is Some,
    {
        self.find_entry(tag).is_some()
    }

    /// The directories that hold tag `tag`, collected depth first.
    pub fn find_ifds_with_tag(&self, tag: Tag) -> (r: Vec<&TiffIFD<'a>>)
        ensures
            r@.map_values(|x: &TiffIFD<'a>| *x) == spec_ifds_with(*self, tag_value(tag)),
        decreases *self,
    {
        broadcast use vstd::std_specs::hash::group_hash_axioms;

        let k = t(tag);
        let mut ifds: Vec<&TiffIFD<'a>> = Vec::new();
        if self.entries.contains_key(&k) {
            ifds.push(self);
        }
        assert(ifds@.map_values(|x: &TiffIFD<'a>| *x) =~= (if has_own(*self, k) {
            seq![*self]
        } else {
            Seq::empty()
        }));
        let ghost head = ifds@.map_values(|x: &TiffIFD<'a>| *x);
        let n = self.subifds.len();
        let mut i: usize = 0;
        while i < n
            invariant
                n == self.subifds@.len(),
                i <= n,
                k == tag_value(tag),
                head == (if has_own(*self, k) {
                    seq![*self]
                } else {
                    Seq::empty()
                }),
                ifds@.map_values(|x: &TiffIFD<'a>| *x) == head + spec_ifds_with_prefix(
                    self.subifds@,
                    i as int,
                    k,
                ),
            decreases n - i,
        {
            proof {
                assert(decreases_to!(*self => self.subifds));
                assert(decreases_to!(self.subifds => self.subifds@));
                assert(decreases_to!(self.subifds@ => self.subifds@[i as int]));
            }
            let ifd = &self.subifds[i];
            let ghost before = ifds@.map_values(|x: &TiffIFD<'a>| *x);
            if ifd.entries.contains_key(&k) {
                ifds.push(ifd);
            }
            let ghost mid = ifds@.map_values(|x: &TiffIFD<'a>| *x);
            assert(mid =~= before + (if has_own(*ifd, k) {
                seq![*ifd]
            } else {
                Seq::empty()
            }));
            let sub = ifd.find_ifds_with_tag(tag);
            let m = sub.len();
            let mut j: usize = 0;
            while j < m
                invariant
                    m == sub@.len(),
                    j <= m,
                    ifds@.map_values(|x: &TiffIFD<'a>| *x) == mid + sub@.take(j as int).map_values(
                        |x: &TiffIFD<'a>| *x,
                    ),
                decreases m - j,
            {
                let ghost prev = ifds@;
                ifds.push(sub[j]);
                j = j + 1;
                proof {
                    let lhs = ifds@.map_values(|x: &TiffIFD<'a>| *x);
                    let rhs = mid + sub@.take(j as int).map_values(|x: &TiffIFD<'a>| *x);
                    let pm = prev.map_values(|x: &TiffIFD<'a>| *x);
                    assert(pm == mid + sub@.take(j - 1).map_values(|x: &TiffIFD<'a>| *x));
                    assert(lhs.len() == rhs.len());
                    assert forall|q: int| 0 <= q < lhs.len() implies lhs[q] == rhs[q] by {
                        if q < prev.len() {
                            assert(lhs[q] == pm[q]);
                            if q < mid.len() {
                            } else {
                                assert(sub@.take(j as int)[q - mid.len()] == sub@.take(j - 1)[q
                                    - mid.len()]);
                            }
                        } else {
                            assert(q == mid.len() + j - 1);
                        }
                    }
                    assert(lhs =~= rhs);
                }
            }
            assert(sub@.take(m as int) =~= sub@);
            i = i + 1;
            assert(ifds@.map_values(|x: &TiffIFD<'a>| *x) =~= head + spec_ifds_with_prefix(
                self.subifds@,
                i as int,
                k,
            ));
        }
        proof {
            lemma_ifds_with_prefix_all(self.subifds@, n as int, k);
            assert(spec_ifds_with_list(self.subifds@, n as int, k) =~= Seq::empty());
            assert(spec_ifds_with_prefix(self.subifds@, n as int, k) =~= spec_ifds_with_list(
                self.subifds@,
                0,
                k,
            ));
        }
        ifds
    }

    /// The first directory that holds tag `tag`, in the order of
    /// `find_ifds_with_tag`.
    pub fn find_first_ifd(&self, tag: Tag) -> (r: Option<&TiffIFD<'a>>)
        ensures
            match r {
                Some(ifd) => spec_ifds_with(*self, tag_value(tag)).len() > 0 && *ifd == spec_ifds_with(
                    *self,
                    tag_value(tag),
                )[0],
                None => spec_ifds_with(*self, tag_value(tag)).len() == 0,
            },
    {
        let ifds = self.find_ifds_with_tag(tag);
        if ifds.len() > 0 {
            Some(ifds[0])
        } else {
            None
        }
    }

    /// The directory's byte order.
    pub fn get_endian(&self) -> (r: Endian)
        ensures
            r == self.order(),
    {
        self.endian
    }

    /// Whether the directory is little-endian.
    pub fn little_endian(&self) -> (r: bool)
        ensures
            r == (self.order() == Endian::Little),
    {
        self.endian.little()
    }

    /// Offset of the TIFF structure the directory belongs to.
    pub fn start_offset(&self) -> (r: usize)
        ensures
            r == self.start(),
    {
        self.start_offset
    }
}

/// The entry with tag code `k` of the first directory in `ifds`, if any.
pub open spec fn first_own_entry<'a>(ifds: Seq<TiffIFD<'a>>, k: u16) -> Option<EntryView> {
    if ifds.len() > 0 {
        Some(ifds[0].entry_map()[k])
    } else {
        None
    }
}

proof fn lemma_first_own_entry_concat<'a>(a: Seq<TiffIFD<'a>>, b: Seq<TiffIFD<'a>>, k: u16)
    ensures
        first_own_entry(a + b, k) == if a.len() > 0 {
            first_own_entry(a, k)
        } else {
            first_own_entry(b, k)
        },
{
    if a.len() > 0 {
        assert((a + b)[0] == a[0]);
    } else {
        assert(a + b =~= b);
    }
}

proof fn lemma_ifds_with_list_first<'a>(list: Seq<TiffIFD<'a>>, i: int, k: u16)
    requires
        0 <= i,
    ensures
        spec_find_in_list(list, i, k) == first_own_entry(spec_ifds_with_list(list, i, k), k),
        forall|j: int|
            0 <= j < spec_ifds_with_list(list, i, k).len() ==> has_own(
                #[trigger] spec_ifds_with_list(list, i, k)[j],
                k,
            ),
    decreases list, list.len() - i,
{
    if i < list.len() {
        let x = list[i];
        assert(decreases_to!(list => list[i]));
        lemma_ifds_with_first(x, k);
        lemma_ifds_with_list_first(list, i + 1, k);
        let h = if has_own(x, k) {
            seq![x]
        } else {
            Seq::empty()
        };
        let a = spec_ifds_with(x, k);
        let t = spec_ifds_with_list(list, i + 1, k);
        assert(spec_ifds_with_list(list, i, k) == h + a + t);
        lemma_first_own_entry_concat(h + a, t, k);
        lemma_first_own_entry_concat(h, a, k);
        if has_own(x, k) {
            assert(a == h + spec_ifds_with_list(x.subs(), 0, k));
            assert(a[0] == x);
        }
        assert forall|j: int|
            0 <= j < spec_ifds_with_list(list, i, k).len() implies has_own(
                #[trigger] spec_ifds_with_list(list, i, k)[j],
                k,
            ) by {
            let s = h + a + t;
            if j < h.len() {
                assert(s[j] == h[j]);
            } else if j < h.len() + a.len() {
                assert(s[j] == a[j - h.len()]);
            } else {
                assert(s[j] == t[j - h.len() - a.len()]);
            }
        }
    }
}

proof fn lemma_ifds_with_first<'a>(ifd: TiffIFD<'a>, k: u16)
    ensures
        spec_find_entry(ifd, k) == first_own_entry(spec_ifds_with(ifd, k), k),
        forall|j: int|
            0 <= j < spec_ifds_with(ifd, k).len() ==> has_own(#[trigger] spec_ifds_with(ifd, k)[j], k),
    decreases ifd, 0int,
{
    assert(decreases_to!(ifd => ifd.subifds));
    assert(decreases_to!(ifd.subifds => ifd.subifds@));
    lemma_ifds_with_list_first(ifd.subs(), 0, k);
    let h = if has_own(ifd, k) {
        seq![ifd]
    } else {
        Seq::empty()
    };
    let l = spec_ifds_with_list(ifd.subs(), 0, k);
    lemma_first_own_entry_concat(h, l, k);
    assert forall|j: int|
        0 <= j < spec_ifds_with(ifd, k).len() implies has_own(#[trigger] spec_ifds_with(ifd, k)[j], k) by {
        if j < h.len() {
            assert((h + l)[j] == h[j]);
        } else {
            assert((h + l)[j] == l[j - h.len()]);
        }
    }
}

/// Every directory that `find_ifds_with_tag` lists holds `tag` itself, and
/// `find_entry` gives the entry for `tag` of the first of them (the one
/// that `find_first_ifd` gives), or nothing where there is none.
pub proof fn lemma_find_entry_is_first_ifd<'a>(ifd: TiffIFD<'a>, tag: Tag)
    ensures
        spec_find_entry(ifd, tag_value(tag)) == first_own_entry(spec_ifds_with(ifd, tag_value(tag)), tag_value(tag)),
        forall|j: int|
            0 <= j < spec_ifds_with(ifd, tag_value(tag)).len() ==> (#[trigger] spec_ifds_with(
                ifd,
                tag_value(tag),
            )[j]).entry_map().contains_key(tag_value(tag)),
{
    lemma_ifds_with_first(ifd, tag_value(tag));
}

/// The views of the entries of a map.
pub open spec fn entry_views<'a>(m: Map<u16, TiffEntry<'a>>) -> Map<u16, EntryView> {
    Map::new(|k: u16| m.contains_key(k), |k: u16| m[k]@)
}

proof fn lemma_entry_views_insert<'a>(m: Map<u16, TiffEntry<'a>>, k: u16, v: TiffEntry<'a>)
    ensures
        entry_views(m.insert(k, v)) == entry_views(m).insert(k, v@),
{
    assert(entry_views(m.insert(k, v)) =~= entry_views(m).insert(k, v@));
}

// ---------------------------------------------------------------------------
// Directory parsing
// ---------------------------------------------------------------------------

/// Number of entries of the directory at `offset`.
pub open spec fn spec_ifd_num(buf: Seq<u8>, offset: int, e: Endian) -> int {
    spec_read_u16(e, buf, offset) as int
}

/// Whether a directory can be read at `offset`: at most 4000 entries, and
/// its count, entries and next-directory offset all inside `buf`.
pub open spec fn spec_ifd_ok(buf: Seq<u8>, offset: int, e: Endian) -> bool {
    &&& spec_ifd_num(buf, offset, e) <= 4000
    &&& offset + 2 + 12 * spec_ifd_num(buf, offset, e) + 4 <= buf.len()
}

/// The message of the error that reading the directory at `offset` ends
/// with, where it cannot be read.
pub open spec fn spec_ifd_message(buf: Seq<u8>, offset: int, e: Endian) -> Seq<char> {
    let num = spec_ifd_num(buf, offset, e);
    if num > 4000 {
        "too many entries in IFD ("@ + spec_dec(num as nat) + ")"@
    } else {
        "IFD at offset "@ + spec_dec(offset as nat) + " with "@ + spec_dec(num as nat) + " entries needs "@
            + spec_dec((offset + 2 + 12 * num + 4) as nat) + " bytes but buffer is "@ + spec_dec(buf.len())
    }
}

/// Offset of the directory that follows the one at `offset`.
pub open spec fn spec_ifd_next(buf: Seq<u8>, offset: int, e: Endian) -> usize {
    spec_read_u32(e, buf, offset + 2 + 12 * spec_ifd_num(buf, offset, e)) as usize
}

/// Entry `i` of the directory at `offset`, where its tag is one this library
/// knows and its data lies inside `buf`.
pub open spec fn spec_slot_entry(buf: Seq<u8>, offset: int, base: int, e: Endian, i: int) -> Option<
    EntryView,
> {
    let off = offset + 2 + 12 * i;
    if tag_of(spec_read_u16(e, buf, off)) is Some {
        spec_entry_at(buf, off, base, offset, e)
    } else {
        None
    }
}

/// Bytes `pat` occur in `data` at `at`.
pub open spec fn bytes_at(data: Seq<u8>, at: int, pat: Seq<u8>) -> bool {
    &&& 0 <= at
    &&& at + pat.len() <= data.len()
    &&& data.subrange(at, at + pat.len()) == pat
}

/// Whether bytes `pat` occur in `data` at `at`.
fn matches_at(data: &[u8], at: usize, pat: &[u8]) -> (r: bool)
    ensures
        r == bytes_at(data@, at as int, pat@),
{
    if at > data.len() || pat.len() > data.len() - at {
        return false;
    }
    let mut i: usize = 0;
    while i < pat.len()
        invariant
            i <= pat@.len(),
            at + pat@.len() <= data.len(),
            forall|j: int| 0 <= j < i ==> data@[at + j] == pat@[j],
        decreases pat@.len() - i,
    {
        if data[at + i] != pat[i] {
            assert(data@.subrange(at as int, at + pat@.len())[i as int] != pat@[i as int]);
            return false;
        }
        i = i + 1;
    }
    assert(data@.subrange(at as int, at + pat@.len()) =~= pat@);
    true
}

/// "OLYMP"
pub open spec fn pat_olymp() -> Seq<u8> {
    seq![0x4Fu8, 0x4Cu8, 0x59u8, 0x4Du8, 0x50u8]
}

/// "OLYMPUS"
pub open spec fn pat_olympus() -> Seq<u8> {
    seq![0x4Fu8, 0x4Cu8, 0x59u8, 0x4Du8, 0x50u8, 0x55u8, 0x53u8]
}

/// "EPSON"
pub open spec fn pat_epson() -> Seq<u8> {
    seq![0x45u8, 0x50u8, 0x53u8, 0x4Fu8, 0x4Eu8]
}

/// "AOC\0"
pub open spec fn pat_aoc() -> Seq<u8> {
    seq![0x41u8, 0x4Fu8, 0x43u8, 0x00u8]
}

/// "PENTAX"
pub open spec fn pat_pentax() -> Seq<u8> {
    seq![0x50u8, 0x45u8, 0x4Eu8, 0x54u8, 0x41u8, 0x58u8]
}

/// "Nikon\0\x02"
pub open spec fn pat_nikon() -> Seq<u8> {
    seq![0x4Eu8, 0x69u8, 0x6Bu8, 0x6Fu8, 0x6Eu8, 0x00u8, 0x02u8]
}

/// "II", the little-endian mark.
pub open spec fn pat_ii() -> Seq<u8> {
    seq![0x49u8, 0x49u8]
}

/// "MM", the big-endian mark.
pub open spec fn pat_mm() -> Seq<u8> {
    seq![0x4Du8, 0x4Du8]
}

/// Where the directory of a maker note at `offset` lies: the start of the
/// buffer it is read from, its offset in that buffer and its byte order.
/// Olympus notes hold a directory 8 bytes in (12 for "OLYMPUS"); Epson and
/// Pentax prefixes are skipped; Pentax and Nikon notes are read from their
/// own start and mark their byte order; other notes may mark their byte
/// order with "II" or "MM". `None` where the note lies outside `buf`.
#[verifier::opaque]
pub open spec fn spec_makernote_target(buf: Seq<u8>, offset: int, e: Endian) -> Option<
    (int, int, Endian),
> {
    if offset >= buf.len() {
        None
    } else {
        let data = buf.subrange(offset, buf.len() as int);
        if bytes_at(data, 0, pat_olymp()) {
            Some(
                (
                    0,
                    offset + if bytes_at(data, 0, pat_olympus()) {
                        12int
                    } else {
                        8int
                    },
                    e,
                ),
            )
        } else {
            let off1 = (if bytes_at(data, 0, pat_epson()) {
                8int
            } else {
                0int
            }) + (if bytes_at(data, 0, pat_aoc()) {
                4int
            } else {
                0int
            });
            if bytes_at(data, 0, pat_pentax()) {
                let off2 = off1 + 8;
                Some(
                    (
                        offset,
                        10,
                        if bytes_at(data, off2, pat_ii()) {
                            Endian::Little
                        } else {
                            Endian::Big
                        },
                    ),
                )
            } else if bytes_at(data, 0, pat_nikon()) {
                let off2 = off1 + 10;
                if off2 + offset < buf.len() {
                    Some(
                        (
                            offset + off2,
                            8,
                            if bytes_at(data, off2, pat_ii()) {
                                Endian::Little
                            } else {
                                Endian::Big
                            },
                        ),
                    )
                } else {
                    None
                }
            } else {
                let (o3, e3) = if bytes_at(data, off1, pat_ii()) {
                    (off1 + 2, Endian::Little)
                } else {
                    (off1, e)
                };
                let (o4, e4) = if bytes_at(data, o3, pat_mm()) {
                    (o3 + 2, Endian::Big)
                } else {
                    (o3, e3)
                };
                Some((0, offset + o4, e4))
            }
        }
    }
}

/// Whether the maker note at `offset` is a full "OLYMPUS" one, whose
/// image-processing directory is read as well.
pub open spec fn is_olympus_note(buf: Seq<u8>, offset: int) -> bool {
    offset < buf.len() && bytes_at(buf.subrange(offset, buf.len() as int), 0, pat_olympus())
}

// ---------------------------------------------------------------------------
// What a parsed directory tree holds
// ---------------------------------------------------------------------------

/// Tags whose entries hold offsets of further directories.
pub open spec fn is_dir_tag(k: u16) -> bool {
    k == 0x014A || k == 0x8769 || k == 0xF000 || k == 0x8290 || k == 0xFE00
}

/// How many more levels of directories are followed below `depth`.
pub open spec fn levels_left(depth: int) -> nat {
    if depth < 10 {
        (10 - depth) as nat
    } else {
        0
    }
}

/// The first of two search results that found something.
pub open spec fn first_found(a: Option<EntryView>, b: Option<EntryView>) -> Option<EntryView> {
    match a {
        Some(x) => Some(x),
        None => b,
    }
}

/// Whether entry `v` of a directory at `depth` stays among its entries:
/// plain entries always; below depth 10, pointer entries where a directory
/// they point at cannot be read and maker note entries whose note cannot be
/// read (from depth 10 on these are neither followed nor kept).
pub open spec fn spec_kept(buf: Seq<u8>, base: int, depth: int, e: Endian, v: EntryView) -> bool
    decreases levels_left(depth), 1int, 0int,
{
    if is_dir_tag(v.tag) {
        depth < 10 && exists|j: int|
            0 <= j < v.count && !spec_ifd_ok(buf, #[trigger] spec_get_u32(v, j) as int, e)
    } else if v.tag == 0x927C {
        depth < 10 && !spec_note_ok(buf, v.doffset as int, base, depth + 1, e)
    } else {
        true
    }
}

/// The entry with tag code `k` that the directory at `offset` holds itself:
/// the last of its first `n` entries with that tag that stays.
pub open spec fn spec_own_entry(
    buf: Seq<u8>,
    offset: int,
    base: int,
    depth: int,
    e: Endian,
    k: u16,
    n: int,
) -> Option<EntryView>
    decreases levels_left(depth), 2int, n,
{
    if n <= 0 {
        None
    } else {
        match spec_slot_entry(buf, offset, base, e, n - 1) {
            Some(v) => if v.tag == k && spec_kept(buf, base, depth, e, v) {
                Some(v)
            } else {
                spec_own_entry(buf, offset, base, depth, e, k, n - 1)
            },
            None => spec_own_entry(buf, offset, base, depth, e, k, n - 1),
        }
    }
}

/// The entries the directory at `offset` holds after its first `n` entries
/// were read, by tag code.
pub open spec fn spec_own_map(buf: Seq<u8>, offset: int, base: int, depth: int, e: Endian, n: int) -> Map<
    u16,
    EntryView,
> {
    Map::new(
        |k: u16| spec_own_entry(buf, offset, base, depth, e, k, n) is Some,
        |k: u16| spec_own_entry(buf, offset, base, depth, e, k, n)->0,
    )
}

/// The entries the directory at `offset` holds itself, by tag code.
pub open spec fn spec_own_entries(buf: Seq<u8>, offset: int, base: int, depth: int, e: Endian) -> Map<
    u16,
    EntryView,
> {
    spec_own_map(buf, offset, base, depth, e, spec_ifd_num(buf, offset, e))
}

/// What a search for tag code `k` finds in the directories at the first `m`
/// offsets of pointer entry `v`, in order.
pub open spec fn spec_find_targets(
    buf: Seq<u8>,
    base: int,
    depth: int,
    e: Endian,
    v: EntryView,
    k: u16,
    m: int,
) -> Option<EntryView>
    decreases levels_left(depth), 1int, m,
{
    if m <= 0 || depth >= 10 {
        None
    } else {
        let t = spec_get_u32(v, m - 1) as int;
        first_found(
            spec_find_targets(buf, base, depth, e, v, k, m - 1),
            if spec_ifd_ok(buf, t, e) {
                spec_find_parsed(buf, t, base, depth + 1, e, k)
            } else {
                None
            },
        )
    }
}

/// What a search for tag code `k` finds in the directories that the first
/// `n` entries of the directory at `offset` lead to, in order.
pub open spec fn spec_find_slots(
    buf: Seq<u8>,
    offset: int,
    base: int,
    depth: int,
    e: Endian,
    k: u16,
    n: int,
) -> Option<EntryView>
    decreases levels_left(depth), 2int, n,
{
    if n <= 0 {
        None
    } else {
        first_found(
            spec_find_slots(buf, offset, base, depth, e, k, n - 1),
            match spec_slot_entry(buf, offset, base, e, n - 1) {
                Some(v) => if depth < 10 && is_dir_tag(v.tag) {
                    spec_find_targets(buf, base, depth, e, v, k, v.count as int)
                } else if depth < 10 && v.tag == 0x927C && spec_note_ok(
                    buf,
                    v.doffset as int,
                    base,
                    depth + 1,
                    e,
                ) {
                    spec_find_note(buf, v.doffset as int, base, depth + 1, e, k)
                } else {
                    None
                },
                None => None,
            },
        )
    }
}

/// The entry with tag code `k` in the directory read at `offset` at nesting
/// `depth` or, if it holds none itself, in the directories below it,
/// searched depth first in order: what `find_entry` gives on it.
pub open spec fn spec_find_parsed(buf: Seq<u8>, offset: int, base: int, depth: int, e: Endian, k: u16) -> Option<
    EntryView,
>
    decreases levels_left(depth), 3int, 0int,
{
    let n = spec_ifd_num(buf, offset, e);
    first_found(
        spec_own_entry(buf, offset, base, depth, e, k, n),
        spec_find_slots(buf, offset, base, depth, e, k, n),
    )
}

/// Where the image-processing directory of an "OLYMPUS" maker note at
/// `offset` lies, from the note's start: the first value of the entry the
/// note's main directory gives for it, or 0.
pub open spec fn spec_olympus_ioff(buf: Seq<u8>, offset: int, base: int, depth: int, e: Endian) -> int
    decreases levels_left(depth), 4int, 0int,
{
    match spec_find_parsed(buf, offset + 12, base, depth, e, 0x2040) {
        Some(en) => spec_get_u32(en, 0) as int,
        None => 0,
    }
}

/// Whether the maker note at `offset` is an "OLYMPUS" one whose
/// image-processing directory lies inside `buf` and is read.
pub open spec fn spec_olympus_iproc(buf: Seq<u8>, offset: int, base: int, depth: int, e: Endian) -> bool
    decreases levels_left(depth), 5int, 0int,
{
    let ioff = spec_olympus_ioff(buf, offset, base, depth, e);
    is_olympus_note(buf, offset) && ioff != 0 && ioff < buf.len() - offset
}

/// Whether a maker note at `offset` can be read: its directory, found as
/// `spec_makernote_target` says, and the image-processing directory of an
/// "OLYMPUS" note where it is read.
pub open spec fn spec_note_ok(buf: Seq<u8>, offset: int, base: int, depth: int, e: Endian) -> bool
    decreases levels_left(depth), 6int, 0int,
{
    match spec_makernote_target(buf, offset, e) {
        None => false,
        Some((st, io, en)) => spec_ifd_ok(buf.subrange(st, buf.len() as int), io, en) && (
        spec_olympus_iproc(buf, offset, base, depth, e) ==> spec_ifd_ok(
            buf.subrange(offset + spec_olympus_ioff(buf, offset, base, depth, e), buf.len() as int),
            0,
            e,
        )),
    }
}

/// What `find_entry` gives for tag code `k` on the maker note read at
/// `offset`: a search of its directory, then of the image-processing
/// directory of an "OLYMPUS" note.
pub open spec fn spec_find_note(buf: Seq<u8>, offset: int, base: int, depth: int, e: Endian, k: u16) -> Option<
    EntryView,
>
    decreases levels_left(depth), 6int, 0int,
{
    match spec_makernote_target(buf, offset, e) {
        None => None,
        Some((st, io, en)) => first_found(
            spec_find_parsed(buf.subrange(st, buf.len() as int), io, base, depth, en, k),
            if spec_olympus_iproc(buf, offset, base, depth, e) {
                let ioff = spec_olympus_ioff(buf, offset, base, depth, e);
                spec_find_parsed(buf.subrange(offset + ioff, buf.len() as int), 0, ioff, depth, e, k)
            } else {
                None
            },
        ),
    }
}

/// Where a directory below another one was read from: a directory at an
/// offset of a buffer (with the base its data offsets count from, the
/// offset of its TIFF structure, its depth and byte order), or a maker note
/// at an offset of a buffer.
pub enum SubSource {
    Dir(Seq<u8>, int, int, int, int, Endian),
    Note(Seq<u8>, int, int, int, Endian),
}

/// Sources of the directories at the first `m` offsets of pointer entry
/// `v` that can be read, in order.
pub open spec fn spec_dir_sources(
    buf: Seq<u8>,
    base: int,
    start: int,
    depth: int,
    e: Endian,
    v: EntryView,
    m: int,
) -> Seq<SubSource>
    decreases m,
{
    if m <= 0 {
        Seq::empty()
    } else {
        let t = spec_get_u32(v, m - 1) as int;
        spec_dir_sources(buf, base, start, depth, e, v, m - 1) + if spec_ifd_ok(buf, t, e) {
            seq![SubSource::Dir(buf, t, base, start, depth + 1, e)]
        } else {
            Seq::empty()
        }
    }
}

/// Sources of the directories that the first `n` entries of the directory
/// at `offset` lead to, in order: the readable directories of pointer
/// entries and the readable maker notes, below depth 10.
pub open spec fn spec_sub_sources(
    buf: Seq<u8>,
    offset: int,
    base: int,
    start: int,
    depth: int,
    e: Endian,
    n: int,
) -> Seq<SubSource>
    decreases n,
{
    if n <= 0 {
        Seq::empty()
    } else {
        spec_sub_sources(buf, offset, base, start, depth, e, n - 1) + match spec_slot_entry(
            buf,
            offset,
            base,
            e,
            n - 1,
        ) {
            Some(v) => if depth < 10 && is_dir_tag(v.tag) {
                spec_dir_sources(buf, base, start, depth, e, v, v.count as int)
            } else if depth < 10 && v.tag == 0x927C && spec_note_ok(
                buf,
                v.doffset as int,
                base,
                depth + 1,
                e,
            ) {
                seq![SubSource::Note(buf, v.doffset as int, base, depth + 1, e)]
            } else {
                Seq::empty()
            },
            None => Seq::empty(),
        }
    }
}

/// What a directory read at `offset` holds itself: its next offset, the
/// offset of its TIFF structure, its byte order and its entries.
pub open spec fn spec_dir_facts(
    ifd: TiffIFD,
    buf: Seq<u8>,
    offset: int,
    base: int,
    start: int,
    depth: int,
    e: Endian,
) -> bool {
    &&& ifd.next() == spec_ifd_next(buf, offset, e)
    &&& ifd.start() == start
    &&& ifd.order() == e
    &&& ifd.entry_map() == spec_own_entries(buf, offset, base, depth, e)
}

/// `ifd` is the directory tree read at `offset`: its own facts, and below
/// it one directory tree for each of its sources, in order.
pub open spec fn spec_tree_read<'a>(
    ifd: TiffIFD<'a>,
    buf: Seq<u8>,
    offset: int,
    base: int,
    start: int,
    depth: int,
    e: Endian,
) -> bool
    decreases ifd, 1int,
{
    let srcs = spec_sub_sources(buf, offset, base, start, depth, e, spec_ifd_num(buf, offset, e));
    &&& spec_dir_facts(ifd, buf, offset, base, start, depth, e)
    &&& ifd.subs().len() == srcs.len()
    &&& spec_subs_read(ifd.subs(), srcs, 0)
}

/// The sources of the directories below the maker note at `offset`: those
/// of its directory, then its image-processing directory where it is read.
pub open spec fn spec_note_sources(buf: Seq<u8>, offset: int, base: int, depth: int, e: Endian) -> Seq<
    SubSource,
> {
    match spec_makernote_target(buf, offset, e) {
        None => Seq::empty(),
        Some((st, io, en)) => {
            let sub = buf.subrange(st, buf.len() as int);
            let ioff = spec_olympus_ioff(buf, offset, base, depth, e);
            spec_sub_sources(sub, io, base, 0, depth, en, spec_ifd_num(sub, io, en)) + if spec_olympus_iproc(
                buf,
                offset,
                base,
                depth,
                e,
            ) {
                seq![SubSource::Dir(buf.subrange(offset + ioff, buf.len() as int), 0, ioff, 0, depth, e)]
            } else {
                Seq::empty()
            }
        },
    }
}

/// `x` is the directory tree read from the maker note at `offset`: the
/// facts of its directory, and below it one tree for each source.
pub open spec fn spec_note_read<'a>(x: TiffIFD<'a>, buf: Seq<u8>, offset: int, base: int, depth: int, e: Endian) -> bool
    decreases x, 1int,
{
    match spec_makernote_target(buf, offset, e) {
        None => false,
        Some((st, io, en)) => {
            let srcs = spec_note_sources(buf, offset, base, depth, e);
            &&& spec_dir_facts(x, buf.subrange(st, buf.len() as int), io, base, 0, depth, en)
            &&& x.subs().len() == srcs.len()
            &&& spec_subs_read(x.subs(), srcs, 0)
        },
    }
}

/// `x` is the tree read from source `s`.
pub open spec fn spec_sub_read<'a>(x: TiffIFD<'a>, s: SubSource) -> bool
    decreases x, 2int,
{
    match s {
        SubSource::Dir(buf, offset, base, start, depth, e) => spec_tree_read(x, buf, offset, base, start, depth, e),
        SubSource::Note(buf, offset, base, depth, e) => spec_note_read(x, buf, offset, base, depth, e),
    }
}

/// Each of the directories `list[i..]` is the tree read from the source at
/// the same place of `srcs`.
pub open spec fn spec_subs_read<'a>(list: Seq<TiffIFD<'a>>, srcs: Seq<SubSource>, i: int) -> bool
    decreases list, srcs.len() - i,
{
    if i < 0 || i >= srcs.len() || i >= list.len() {
        true
    } else {
        spec_sub_read(list[i], srcs[i]) && spec_subs_read(list, srcs, i + 1)
    }
}

/// A list read from its sources stays so with one more tree read from one
/// more source.
proof fn lemma_subs_read_push<'a>(
    list: Seq<TiffIFD<'a>>,
    srcs: Seq<SubSource>,
    x: TiffIFD<'a>,
    s: SubSource,
    i: int,
)
    requires
        0 <= i <= list.len(),
        list.len() == srcs.len(),
        spec_subs_read(list, srcs, i),
        spec_sub_read(x, s),
    ensures
        spec_subs_read(list.push(x), srcs.push(s), i),
    decreases list.len() - i,
{
    if i < list.len() {
        lemma_subs_read_push(list, srcs, x, s, i + 1);
        assert(list.push(x)[i] == list[i]);
        assert(srcs.push(s)[i] == srcs[i]);
    } else {
        assert(list.push(x)[i] == x);
        assert(srcs.push(s)[i] == s);
        assert(spec_subs_read(list.push(x), srcs.push(s), i + 1));
    }
}

/// What reading an "OLYMPUS" or "OLYMP" maker note whose directory lies at
/// `io` of `buf` comes to.
proof fn lemma_olympus_note(buf: Seq<u8>, offset: int, base: int, depth: int, e: Endian, io: int)
    requires
        spec_makernote_target(buf, offset, e) == Some((0int, io, e)),
    ensures
        spec_note_ok(buf, offset, base, depth, e) == (spec_ifd_ok(buf, io, e) && (spec_olympus_iproc(
            buf,
            offset,
            base,
            depth,
            e,
        ) ==> spec_ifd_ok(
            buf.subrange(offset + spec_olympus_ioff(buf, offset, base, depth, e), buf.len() as int),
            0,
            e,
        ))),
        forall|k: u16|
            #[trigger] spec_find_note(buf, offset, base, depth, e, k) == first_found(
                spec_find_parsed(buf, io, base, depth, e, k),
                if spec_olympus_iproc(buf, offset, base, depth, e) {
                    spec_find_parsed(
                        buf.subrange(offset + spec_olympus_ioff(buf, offset, base, depth, e), buf.len() as int),
                        0,
                        spec_olympus_ioff(buf, offset, base, depth, e),
                        depth,
                        e,
                        k,
                    )
                } else {
                    None
                },
            ),
        spec_note_sources(buf, offset, base, depth, e) == spec_sub_sources(
            buf,
            io,
            base,
            0,
            depth,
            e,
            spec_ifd_num(buf, io, e),
        ) + if spec_olympus_iproc(buf, offset, base, depth, e) {
            seq![
                SubSource::Dir(
                    buf.subrange(offset + spec_olympus_ioff(buf, offset, base, depth, e), buf.len() as int),
                    0,
                    spec_olympus_ioff(buf, offset, base, depth, e),
                    0,
                    depth,
                    e,
                ),
            ]
        } else {
            Seq::empty()
        },
{
    assert(buf.subrange(0, buf.len() as int) =~= buf);
}

/// An "OLYMPUS" or "OLYMP" note without an image-processing directory is
/// read as the directory tree at `io`.
proof fn lemma_olympus_read_plain<'a>(x: TiffIFD<'a>, buf: Seq<u8>, offset: int, base: int, depth: int, e: Endian, io: int)
    requires
        spec_makernote_target(buf, offset, e) == Some((0int, io, e)),
        !spec_olympus_iproc(buf, offset, base, depth, e),
        spec_tree_read(x, buf, io, base, 0, depth, e),
    ensures
        spec_note_read(x, buf, offset, base, depth, e),
{
    lemma_olympus_note(buf, offset, base, depth, e, io);
    assert(buf.subrange(0, buf.len() as int) =~= buf);
    assert(spec_note_sources(buf, offset, base, depth, e) =~= spec_sub_sources(
        buf,
        io,
        base,
        0,
        depth,
        e,
        spec_ifd_num(buf, io, e),
    ));
}

/// An "OLYMPUS" note with an image-processing directory is read as the
/// directory tree at `io` with that directory's tree below it, last.
proof fn lemma_olympus_read_iproc<'a>(
    x: TiffIFD<'a>,
    main: TiffIFD<'a>,
    p: TiffIFD<'a>,
    buf: Seq<u8>,
    offset: int,
    base: int,
    depth: int,
    e: Endian,
    io: int,
)
    requires
        spec_makernote_target(buf, offset, e) == Some((0int, io, e)),
        spec_olympus_iproc(buf, offset, base, depth, e),
        spec_tree_read(main, buf, io, base, 0, depth, e),
        spec_tree_read(
            p,
            buf.subrange(offset + spec_olympus_ioff(buf, offset, base, depth, e), buf.len() as int),
            0,
            spec_olympus_ioff(buf, offset, base, depth, e),
            0,
            depth,
            e,
        ),
        x.entry_map() == main.entry_map(),
        x.next() == main.next(),
        x.start() == main.start(),
        x.order() == main.order(),
        x.subs() == main.subs().push(p),
    ensures
        spec_note_read(x, buf, offset, base, depth, e),
{
    lemma_olympus_note(buf, offset, base, depth, e, io);
    assert(buf.subrange(0, buf.len() as int) =~= buf);
    let ioff = spec_olympus_ioff(buf, offset, base, depth, e);
    let msrcs = spec_sub_sources(buf, io, base, 0, depth, e, spec_ifd_num(buf, io, e));
    let psrc = SubSource::Dir(buf.subrange(offset + ioff, buf.len() as int), 0, ioff, 0, depth, e);
    lemma_subs_read_push(main.subs(), msrcs, p, psrc, 0);
    assert(spec_note_sources(buf, offset, base, depth, e) =~= msrcs.push(psrc));
}

/// A note whose first bytes are not "OLYMP" is no "OLYMPUS" note.
proof fn lemma_olympus_prefix(buf: Seq<u8>, offset: int)
    requires
        0 <= offset < buf.len(),
        !bytes_at(buf.subrange(offset, buf.len() as int), 0, pat_olymp()),
    ensures
        !is_olympus_note(buf, offset),
{
    let d = buf.subrange(offset, buf.len() as int);
    if bytes_at(d, 0, pat_olympus()) {
        assert(d.subrange(0, 5) =~= d.subrange(0, 7).subrange(0, 5));
        assert(pat_olympus().subrange(0, 5) =~= pat_olymp());
    }
}

/// The message of the error that reading the maker note at `offset`
/// ends with, where it cannot be read: the note lies outside `buf`, or
/// its directory (at an offset no larger than the largest `usize`) or an
/// "OLYMPUS" note's image-processing directory cannot be read.
#[verifier::opaque]
pub open spec fn spec_note_message(buf: Seq<u8>, offset: int, base: int, depth: int, e: Endian) -> Seq<char> {
    match spec_makernote_target(buf, offset, e) {
        None => if offset >= buf.len() {
            "Makernote offset out of bounds"@
        } else {
            "Nikon makernote offset out of bounds"@
        },
        Some((st, io, en)) => {
            let sub = buf.subrange(st, buf.len() as int);
            let io2 = if io <= usize::MAX {
                io
            } else {
                usize::MAX as int
            };
            if !spec_ifd_ok(sub, io2, en) {
                spec_ifd_message(sub, io2, en)
            } else {
                let ioff = spec_olympus_ioff(buf, offset, base, depth, e);
                spec_ifd_message(buf.subrange(offset + ioff, buf.len() as int), 0, e)
            }
        },
    }
}

/// The message of a maker note whose directory, at `io` of the buffer
/// from `st` on, cannot be read; and of one whose directory can be read
/// but whose image-processing directory cannot.
proof fn lemma_note_message(buf: Seq<u8>, offset: int, base: int, depth: int, e: Endian, st: int, io: int, en: Endian)
    requires
        spec_makernote_target(buf, offset, e) == Some((st, io, en)),
    ensures
        ({
            let sub = buf.subrange(st, buf.len() as int);
            let io2 = if io <= usize::MAX {
                io
            } else {
                usize::MAX as int
            };
            let ioff = spec_olympus_ioff(buf, offset, base, depth, e);
            &&& !spec_ifd_ok(sub, io2, en) ==> spec_note_message(buf, offset, base, depth, e) == spec_ifd_message(
                sub,
                io2,
                en,
            )
            &&& spec_ifd_ok(sub, io2, en) ==> spec_note_message(buf, offset, base, depth, e) == spec_ifd_message(
                buf.subrange(offset + ioff, buf.len() as int),
                0,
                e,
            )
        }),
{
    reveal(spec_note_message);
}

/// The message of a maker note that lies outside the buffer.
proof fn lemma_note_message_none(buf: Seq<u8>, offset: int, base: int, depth: int, e: Endian)
    requires
        spec_makernote_target(buf, offset, e) is None,
    ensures
        spec_note_message(buf, offset, base, depth, e) == if offset >= buf.len() {
            "Makernote offset out of bounds"@
        } else {
            "Nikon makernote offset out of bounds"@
        },
{
    reveal(spec_note_message);
}

/// A maker note other than an "OLYMPUS" one is read as the directory tree
/// at its target.
proof fn lemma_note_read_plain<'a>(
    buf: Seq<u8>,
    offset: int,
    base: int,
    depth: int,
    e: Endian,
    st: int,
    io: int,
    en: Endian,
)
    requires
        spec_makernote_target(buf, offset, e) == Some((st, io, en)),
        !is_olympus_note(buf, offset),
    ensures
        forall|x: TiffIFD<'a>|
            spec_tree_read(x, buf.subrange(st, buf.len() as int), io, base, 0, depth, en)
                ==> #[trigger] spec_note_read(x, buf, offset, base, depth, e),
{
    let sub = buf.subrange(st, buf.len() as int);
    assert(!spec_olympus_iproc(buf, offset, base, depth, e));
    assert(spec_note_sources(buf, offset, base, depth, e) =~= spec_sub_sources(
        sub,
        io,
        base,
        0,
        depth,
        en,
        spec_ifd_num(sub, io, en),
    ));
}

/// A search of a list with one more directory at its end finds what it
/// found before, or else what that directory holds.
proof fn lemma_find_in_list_push<'a>(list: Seq<TiffIFD<'a>>, x: TiffIFD<'a>, k: u16, i: int)
    requires
        0 <= i <= list.len(),
    ensures
        spec_find_in_list(list.push(x), i, k) == first_found(
            spec_find_in_list(list, i, k),
            spec_find_entry(x, k),
        ),
    decreases list.len() - i,
{
    if i < list.len() {
        lemma_find_in_list_push(list, x, k, i + 1);
        assert(list.push(x)[i] == list[i]);
    } else {
        assert(list.push(x)[i] == x);
        assert(spec_find_in_list(list.push(x), i + 1, k) is None);
    }
}

impl<'a> TiffIFD<'a> {
    /// Reads the directories at the offsets that pointer entry `entry`
    /// holds: each one that can be read goes to `subifds`, and where one
    /// cannot, the entry itself goes to `entries`.
    fn follow_targets(
        buf: &'a [u8],
        base_offset: usize,
        start_offset: usize,
        depth: u32,
        e: Endian,
        entry: TiffEntry<'a>,
        entries: &mut HashMap<u16, TiffEntry<'a>>,
        subifds: &mut Vec<TiffIFD<'a>>,
        Ghost(srcs0): Ghost<Seq<SubSource>>,
    )
        requires
            depth < 10,
            old(subifds)@.len() == srcs0.len(),
            spec_subs_read(old(subifds)@, srcs0, 0),
        ensures
            ({
                let srcs = srcs0 + spec_dir_sources(
                    buf@,
                    base_offset as int,
                    start_offset as int,
                    depth as int,
                    e,
                    entry@,
                    entry@.count as int,
                );
                final(subifds)@.len() == srcs.len() && spec_subs_read(final(subifds)@, srcs, 0)
            }),
            entry_views(final(entries)@) == if exists|q: int|
                0 <= q < entry@.count && !spec_ifd_ok(buf@, #[trigger] spec_get_u32(entry@, q) as int, e) {
                entry_views(old(entries)@).insert(entry@.tag, entry@)
            } else {
                entry_views(old(entries)@)
            },
            forall|k: u16|
                #[trigger] spec_find_in_list(final(subifds)@, 0, k) == first_found(
                    spec_find_in_list(old(subifds)@, 0, k),
                    spec_find_targets(buf@, base_offset as int, depth as int, e, entry@, k, entry@.count as int),
                ),
        decreases 10 - depth, 0int,
    {
        let ghost gb = buf@;
        let ghost gbase = base_offset as int;
        let ghost gd = depth as int;
        let ghost v = entry@;
        let ghost m0 = entry_views(entries@);
        let ghost s0 = subifds@;
        let tag = entry.tag;
        let count = entry.count;
        let mut j: usize = 0;
        while j < count
            invariant
                depth < 10,
                gd == depth,
                gb == buf@,
                gbase == base_offset,
                v == entry@,
                count == v.count,
                tag == v.tag,
                j <= count,
                entry_views(entries@) == if exists|q: int|
                    0 <= q < j && !spec_ifd_ok(gb, #[trigger] spec_get_u32(v, q) as int, e) {
                    m0.insert(tag, v)
                } else {
                    m0
                },
                forall|k: u16|
                    #[trigger] spec_find_in_list(subifds@, 0, k) == first_found(
                        spec_find_in_list(s0, 0, k),
                        spec_find_targets(gb, gbase, gd, e, v, k, j as int),
                    ),
                subifds@.len() == (srcs0 + spec_dir_sources(gb, gbase, start_offset as int, gd, e, v, j as int)).len(),
                spec_subs_read(subifds@, srcs0 + spec_dir_sources(gb, gbase, start_offset as int, gd, e, v, j as int), 0),
            decreases count - j,
        {
            let next = entry.get_u32(j) as usize;
            let ghost before = subifds@;
            let ghost d = srcs0 + spec_dir_sources(gb, gbase, start_offset as int, gd, e, v, j as int);
            match TiffIFD::new(buf, next, base_offset, start_offset, depth + 1, e) {
                Ok(val) => {
                    subifds.push(val);
                    proof {
                        let src = SubSource::Dir(gb, next as int, gbase, start_offset as int, gd + 1, e);
                        lemma_subs_read_push(before, d, val, src, 0);
                        assert(srcs0 + spec_dir_sources(gb, gbase, start_offset as int, gd, e, v, j + 1) =~= d.push(src));
                        assert forall|k: u16|
                            #[trigger] spec_find_in_list(subifds@, 0, k) == first_found(
                                spec_find_in_list(s0, 0, k),
                                spec_find_targets(gb, gbase, gd, e, v, k, j + 1),
                            ) by {
                            lemma_find_in_list_push(before, val, k, 0);
                        }
                    }
                },
                Err(_) => {
                    // Ignore unparsable IFDs
                    proof {
                        lemma_entry_views_insert(entries@, tag, entry);
                        assert(srcs0 + spec_dir_sources(gb, gbase, start_offset as int, gd, e, v, j + 1) =~= d);
                    }
                    entries.insert(tag, entry);
                },
            }
            j = j + 1;
        }
    }

    /// Reads entry `i` of the directory at `offset` into `entries`, or the
    /// directories it leads to into `subifds`.
    #[verifier::spinoff_prover]
    #[verifier::rlimit(60)]
    fn add_slot(
        buf: &'a [u8],
        offset: usize,
        base_offset: usize,
        start_offset: usize,
        depth: u32,
        e: Endian,
        i: usize,
        entries: &mut HashMap<u16, TiffEntry<'a>>,
        subifds: &mut Vec<TiffIFD<'a>>,
    )
        requires
            spec_ifd_ok(buf@, offset as int, e),
            i < spec_ifd_num(buf@, offset as int, e),
            entry_views(old(entries)@) == spec_own_map(
                buf@,
                offset as int,
                base_offset as int,
                depth as int,
                e,
                i as int,
            ),
            forall|k: u16|
                #[trigger] spec_find_in_list(old(subifds)@, 0, k) == spec_find_slots(
                    buf@,
                    offset as int,
                    base_offset as int,
                    depth as int,
                    e,
                    k,
                    i as int,
                ),
            old(subifds)@.len() == spec_sub_sources(
                buf@,
                offset as int,
                base_offset as int,
                start_offset as int,
                depth as int,
                e,
                i as int,
            ).len(),
            spec_subs_read(
                old(subifds)@,
                spec_sub_sources(buf@, offset as int, base_offset as int, start_offset as int, depth as int, e, i as int),
                0,
            ),
        ensures
            final(subifds)@.len() == spec_sub_sources(
                buf@,
                offset as int,
                base_offset as int,
                start_offset as int,
                depth as int,
                e,
                i + 1,
            ).len(),
            spec_subs_read(
                final(subifds)@,
                spec_sub_sources(buf@, offset as int, base_offset as int, start_offset as int, depth as int, e, i + 1),
                0,
            ),
            entry_views(final(entries)@) == spec_own_map(
                buf@,
                offset as int,
                base_offset as int,
                depth as int,
                e,
                i + 1,
            ),
            forall|k: u16|
                #[trigger] spec_find_in_list(final(subifds)@, 0, k) == spec_find_slots(
                    buf@,
                    offset as int,
                    base_offset as int,
                    depth as int,
                    e,
                    k,
                    i + 1,
                ),
        decreases 10 - depth, 1int,
    {
        broadcast use vstd::std_specs::hash::group_hash_axioms;

        let ghost gb = buf@;
        let ghost go = offset as int;
        let ghost gbase = base_offset as int;
        let ghost gd = depth as int;
        let ghost m0 = entry_views(entries@);
        let ghost s0 = subifds@;
        let ghost slot = spec_slot_entry(gb, go, gbase, e, i as int);
        let ghost gs = start_offset as int;
        let ghost srcs = spec_sub_sources(gb, go, gbase, gs, gd, e, i as int);
        assert(buf@.len() == buf.len());
        let entry_offset: usize = offset + 2 + i * 12;
        if Tag::n(e.ru16(buf, entry_offset)).is_some() {
            match TiffEntry::new(buf, entry_offset, base_offset, offset, e) {
                Ok(entry) => {
                    let tag = entry.tag;
                    let ghost v = entry@;
                    assert(tag == v.tag);
                    assert(slot == Some(v));
                    if tag == t(Tag::SubIFDs) || tag == t(Tag::ExifIFDPointer) || tag == t(
                        Tag::RafRawSubIFD,
                    ) || tag == t(Tag::KodakIFD) || tag == t(Tag::KdcIFD) {
                        if depth < 10 {  // Avoid infinite looping IFDs
                            TiffIFD::follow_targets(
                                buf,
                                base_offset,
                                start_offset,
                                depth,
                                e,
                                entry,
                                entries,
                                subifds,
                                Ghost(srcs),
                            );
                        }
                        proof {
                            assert(spec_kept(gb, gbase, gd, e, v) == (gd < 10 && exists|q: int|
                                0 <= q < v.count && !spec_ifd_ok(gb, #[trigger] spec_get_u32(v, q) as int, e)));
                        }
                    } else if tag == t(Tag::Makernote) {
                        if depth < 10 {  // Avoid infinite looping IFDs
                            match TiffIFD::new_makernote(buf, entry.doffset, base_offset, depth + 1, e) {
                                Ok(val) => {
                                    subifds.push(val);
                                    proof {
                                        let src = SubSource::Note(gb, v.doffset as int, gbase, gd + 1, e);
                                        lemma_subs_read_push(s0, srcs, val, src, 0);
                                        assert(spec_sub_sources(gb, go, gbase, gs, gd, e, i + 1) =~= srcs.push(src));
                                        assert forall|k: u16|
                                            #[trigger] spec_find_in_list(subifds@, 0, k)
                                                == spec_find_slots(gb, go, gbase, gd, e, k, i + 1) by {
                                            lemma_find_in_list_push(s0, val, k, 0);
                                        }
                                    }
                                },
                                Err(_) => {
                                    // Ignore unparsable IFDs
                                    proof {
                                        lemma_entry_views_insert(entries@, tag, entry);
                                    }
                                    entries.insert(tag, entry);
                                },
                            }
                        }
                        proof {
                            assert(spec_kept(gb, gbase, gd, e, v) == (gd < 10 && !spec_note_ok(
                                gb,
                                v.doffset as int,
                                gbase,
                                gd + 1,
                                e,
                            )));
                        }
                    } else {
                        proof {
                            lemma_entry_views_insert(entries@, tag, entry);
                        }
                        entries.insert(tag, entry);
                        proof {
                            assert(spec_kept(gb, gbase, gd, e, v));
                        }
                    }
                    proof {
                        assert(spec_own_entry(gb, go, gbase, gd, e, tag, i + 1) == if spec_kept(gb, gbase, gd, e, v) {
                            Some(v)
                        } else {
                            spec_own_entry(gb, go, gbase, gd, e, tag, i as int)
                        });
                    }
                },
                Err(_) => {},  // Skip entries with invalid data ranges
            }
        }
        // Skip entries we don't know about
        proof {
            assert(entry_views(entries@) =~= spec_own_map(gb, go, gbase, gd, e, i + 1));
            if subifds@ == s0 {
                assert(spec_sub_sources(gb, go, gbase, gs, gd, e, i + 1) =~= srcs);
            }
        }
    }

    /// Parses the directory at `offset` of `buf` with its entries and, up to
    /// depth 10, the directories its pointer and maker-note entries lead
    /// to; data offsets in entries count from `base_offset`.
    pub fn new(buf: &'a [u8], offset: usize, base_offset: usize, start_offset: usize, depth: u32, e: Endian) -> (r: Result<TiffIFD<'a>, String>)
        ensures
            r is Ok <==> spec_ifd_ok(buf@, offset as int, e),
            r matches Err(m) ==> m@ == spec_ifd_message(buf@, offset as int, e),
            r matches Ok(ifd) ==> {
                &&& ifd.next() == spec_ifd_next(buf@, offset as int, e)
                &&& ifd.start() == start_offset
                &&& ifd.order() == e
                &&& ifd.entry_map() == spec_own_entries(
                    buf@,
                    offset as int,
                    base_offset as int,
                    depth as int,
                    e,
                )
                &&& forall|k: u16|
                    #[trigger] spec_find_entry(ifd, k) == spec_find_parsed(
                        buf@,
                        offset as int,
                        base_offset as int,
                        depth as int,
                        e,
                        k,
                    )
                &&& spec_tree_read(
                    ifd,
                    buf@,
                    offset as int,
                    base_offset as int,
                    start_offset as int,
                    depth as int,
                    e,
                )
            },
        decreases 10 - depth, 2int,
    {
        let mut entries: HashMap<u16, TiffEntry<'a>> = HashMap::new();
        let mut subifds: Vec<TiffIFD<'a>> = Vec::new();

        let num = e.ru16(buf, offset);  // Directory entries in this IFD
        if num > 4000 {
            let mut m = String::from_str("too many entries in IFD (");
            push_dec(&mut m, num as u128);
            m.append(")");
            return Err(m);
        }
        if offset > buf.len() || (num as usize) * 12 + 6 > buf.len() - offset {
            let mut m = String::from_str("IFD at offset ");
            push_dec(&mut m, offset as u128);
            m.append(" with ");
            push_dec(&mut m, num as u128);
            m.append(" entries needs ");
            push_dec(&mut m, offset as u128 + 2 + (num as u128) * 12 + 4);
            m.append(" bytes but buffer is ");
            push_dec(&mut m, buf.len() as u128);
            return Err(m);
        }
        let ghost gb = buf@;
        let ghost go = offset as int;
        let ghost gbase = base_offset as int;
        let ghost gd = depth as int;
        assert(entry_views(entries@) =~= spec_own_map(gb, go, gbase, gd, e, 0));
        let mut i: usize = 0;
        while i < num as usize
            invariant
                gb == buf@,
                go == offset,
                gbase == base_offset,
                gd == depth,
                num == spec_ifd_num(gb, go, e),
                spec_ifd_ok(gb, go, e),
                i <= num,
                entry_views(entries@) == spec_own_map(gb, go, gbase, gd, e, i as int),
                forall|k: u16|
                    #[trigger] spec_find_in_list(subifds@, 0, k) == spec_find_slots(
                        gb,
                        go,
                        gbase,
                        gd,
                        e,
                        k,
                        i as int,
                    ),
                subifds@.len() == spec_sub_sources(gb, go, gbase, start_offset as int, gd, e, i as int).len(),
                spec_subs_read(subifds@, spec_sub_sources(gb, go, gbase, start_offset as int, gd, e, i as int), 0),
            decreases num - i,
        {
            TiffIFD::add_slot(buf, offset, base_offset, start_offset, depth, e, i, &mut entries, &mut subifds);
            i = i + 1;
        }

        let ghost subs = subifds@;
        let ifd = TiffIFD {
            entries: entries,
            subifds: subifds,
            nextifd: e.ru32(buf, offset + 2 + (num as usize) * 12) as usize,
            start_offset: start_offset,
            endian: e,
        };
        proof {
            assert(ifd.entry_map() =~= spec_own_entries(gb, go, gbase, gd, e));
            assert forall|k: u16| #[trigger] spec_find_entry(ifd, k) == spec_find_parsed(gb, go, gbase, gd, e, k) by {
                assert(ifd.subs() == subs);
                assert(spec_find_in_list(subs, 0, k) == spec_find_slots(gb, go, gbase, gd, e, k, num as int));
                assert(ifd.entry_map().contains_key(k) == (spec_own_entry(gb, go, gbase, gd, e, k, num as int) is Some));
            }
        }
        Ok(ifd)
    }

    /// The Olympus case of `new_makernote`.
    #[verifier::spinoff_prover]
    fn new_olympus(buf: &'a [u8], offset: usize, base_offset: usize, depth: u32, e: Endian) -> (r: Result<TiffIFD<'a>, String>)
        requires
            offset < buf@.len(),
            bytes_at(buf@.subrange(offset as int, buf@.len() as int), 0, pat_olymp()),
        ensures
            r is Ok <==> spec_note_ok(buf@, offset as int, base_offset as int, depth as int, e),
            r matches Err(m) ==> m@ == spec_note_message(buf@, offset as int, base_offset as int, depth as int, e),
            r matches Ok(ifd) ==> forall|k: u16|
                #[trigger] spec_find_entry(ifd, k) == spec_find_note(
                    buf@,
                    offset as int,
                    base_offset as int,
                    depth as int,
                    e,
                    k,
                ),
            r matches Ok(ifd) ==> spec_note_read(ifd, buf@, offset as int, base_offset as int, depth as int, e),
            ({
                let io = offset + if is_olympus_note(buf@, offset as int) {
                    12int
                } else {
                    8int
                };
                r matches Ok(ifd) ==> {
                    &&& ifd.start() == 0
                    &&& ifd.order() == e
                    &&& ifd.next() == spec_ifd_next(buf@, io, e)
                    &&& ifd.entry_map() == spec_own_entries(buf@, io, base_offset as int, depth as int, e)
                }
            }),
        decreases 10 - depth, 3int,
    {
        let ghost gb = buf@;
        let ghost go = offset as int;
        let ghost gbase = base_offset as int;
        let ghost gd = depth as int;
        let data = vstd::slice::slice_subrange(buf, offset, buf.len());
        let mut off: usize = 8;
        let endian = e;
        let olympus: [u8; 7] = [0x4F, 0x4C, 0x59, 0x4D, 0x50, 0x55, 0x53];
        assert(olympus@ == pat_olympus());
        if matches_at(data, 0, &olympus) {
            off = off + 4;
        }
        let ghost io = offset + off;
        proof {
            assert(off == 12 <==> is_olympus_note(gb, go));
            assert(gb.subrange(0, gb.len() as int) =~= gb);
            assert(spec_makernote_target(gb, go, e) == Some((0int, io, e))) by {
                reveal(spec_makernote_target);
            }
            lemma_olympus_note(gb, go, gbase, gd, e, io);
            lemma_note_message(gb, go, gbase, gd, e, 0, io, e);
            if offset + off > usize::MAX {
                assert(!spec_ifd_ok(gb, io, e));
            }
        }

        let mut mainifd = match TiffIFD::new(buf, sat_add(offset, off), base_offset, 0, depth, endian) {
            Ok(v) => v,
            Err(err) => return Err(err),
        };
        let ghost main0 = mainifd;

        if off == 12 {
            // Parse the Olympus ImgProc section if it exists
            let ioff = match mainifd.find_entry(Tag::OlympusImgProc) {
                Some(entry) => entry.get_usize(0),
                None => 0,
            };
            assert(ioff == spec_olympus_ioff(gb, go, gbase, gd, e));
            if ioff != 0 {
                if ioff < buf.len() - offset {
                    let iprocifd = match TiffIFD::new(
                        vstd::slice::slice_subrange(buf, offset + ioff, buf.len()),
                        0,
                        ioff,
                        0,
                        depth,
                        endian,
                    ) {
                        Ok(v) => v,
                        Err(err) => return Err(err),
                    };
                    mainifd.subifds.push(iprocifd);
                    proof {
                        assert(mainifd.entry_map() == main0.entry_map());
                        assert(mainifd.subifds@ == main0.subifds@.push(iprocifd));
                        assert(spec_olympus_iproc(gb, go, gbase, gd, e));
                        lemma_olympus_read_iproc(mainifd, main0, iprocifd, gb, go, gbase, gd, e, io);
                        assert forall|k: u16|
                            #[trigger] spec_find_entry(mainifd, k) == spec_find_note(gb, go, gbase, gd, e, k) by {
                            lemma_find_in_list_push(main0.subifds@, iprocifd, k, 0);
                            assert(spec_find_entry(mainifd, k) == first_found(
                                spec_find_entry(main0, k),
                                spec_find_entry(iprocifd, k),
                            ));
                        }
                    }
                    return Ok(mainifd);
                }
            }
        }
        proof {
            assert(!spec_olympus_iproc(gb, go, gbase, gd, e));
            lemma_olympus_read_plain(mainifd, gb, go, gbase, gd, e, io);
            assert forall|k: u16|
                #[trigger] spec_find_entry(mainifd, k) == spec_find_note(gb, go, gbase, gd, e, k) by {
                assert(spec_find_entry(mainifd, k) == spec_find_parsed(gb, io, gbase, gd, e, k));
            }
        }
        Ok(mainifd)
    }

    /// Parses a maker note at `offset` of `buf`: the directory it holds,
    /// found as `spec_makernote_target` says, and for "OLYMPUS" notes the
    /// image-processing directory that one of its entries points at.
    #[verifier::spinoff_prover]
    pub fn new_makernote(buf: &'a [u8], offset: usize, base_offset: usize, depth: u32, e: Endian) -> (r: Result<TiffIFD<'a>, String>)
        ensures
            r is Ok <==> spec_note_ok(buf@, offset as int, base_offset as int, depth as int, e),
            r matches Err(m) ==> m@ == spec_note_message(buf@, offset as int, base_offset as int, depth as int, e),
            r matches Ok(ifd) ==> forall|k: u16|
                #[trigger] spec_find_entry(ifd, k) == spec_find_note(
                    buf@,
                    offset as int,
                    base_offset as int,
                    depth as int,
                    e,
                    k,
                ),
            r matches Ok(ifd) ==> spec_note_read(ifd, buf@, offset as int, base_offset as int, depth as int, e),
            match spec_makernote_target(buf@, offset as int, e) {
                None => r is Err,
                Some((st, io, en)) => {
                    let sub = buf@.subrange(st, buf@.len() as int);
                    r matches Ok(ifd) ==> {
                        &&& ifd.start() == 0
                        &&& ifd.order() == en
                        &&& ifd.next() == spec_ifd_next(sub, io, en)
                        &&& ifd.entry_map() == spec_own_entries(sub, io, base_offset as int, depth as int, en)
                    }
                },
            },
        decreases 10 - depth, 4int,
    {
        proof {
            reveal(spec_makernote_target);
        }
        if offset >= buf.len() {
            proof {
                lemma_note_message_none(buf@, offset as int, base_offset as int, depth as int, e);
            }
            return Err(String::from_str("Makernote offset out of bounds"));
        }
        let data = vstd::slice::slice_subrange(buf, offset, buf.len());
        let mut endian = e;
        assert(buf@.subrange(0, buf@.len() as int) =~= buf@);

        // Olympus starts the makernote with their own name, sometimes truncated
        let olymp: [u8; 5] = [0x4F, 0x4C, 0x59, 0x4D, 0x50];
        assert(olymp@ == pat_olymp());
        if matches_at(data, 0, &olymp) {
            return TiffIFD::new_olympus(buf, offset, base_offset, depth, e);
        }
        TiffIFD::new_other_note(buf, offset, base_offset, depth, e)
    }

    /// The case of `new_makernote` for notes that do not start "OLYMP".
    #[verifier::spinoff_prover]
    #[verifier::rlimit(80)]
    fn new_other_note(buf: &'a [u8], offset: usize, base_offset: usize, depth: u32, e: Endian) -> (r: Result<TiffIFD<'a>, String>)
        requires
            offset < buf@.len(),
            !bytes_at(buf@.subrange(offset as int, buf@.len() as int), 0, pat_olymp()),
        ensures
            r is Ok <==> spec_note_ok(buf@, offset as int, base_offset as int, depth as int, e),
            r matches Err(m) ==> m@ == spec_note_message(buf@, offset as int, base_offset as int, depth as int, e),
            r matches Ok(ifd) ==> forall|k: u16|
                #[trigger] spec_find_entry(ifd, k) == spec_find_note(
                    buf@,
                    offset as int,
                    base_offset as int,
                    depth as int,
                    e,
                    k,
                ),
            r matches Ok(ifd) ==> spec_note_read(ifd, buf@, offset as int, base_offset as int, depth as int, e),
            match spec_makernote_target(buf@, offset as int, e) {
                None => r is Err,
                Some((st, io, en)) => {
                    let sub = buf@.subrange(st, buf@.len() as int);
                    r matches Ok(ifd) ==> {
                        &&& ifd.start() == 0
                        &&& ifd.order() == en
                        &&& ifd.next() == spec_ifd_next(sub, io, en)
                        &&& ifd.entry_map() == spec_own_entries(sub, io, base_offset as int, depth as int, en)
                    }
                },
            },
        decreases 10 - depth, 3int,
    {
        proof {
            reveal(spec_makernote_target);
        }
        let mut off: usize = 0;
        let data = vstd::slice::slice_subrange(buf, offset, buf.len());
        let mut endian = e;
        assert(buf@.subrange(0, buf@.len() as int) =~= buf@);
        proof {
            lemma_olympus_prefix(buf@, offset as int);
        }
        // Epson starts the makernote with its own name
        let epson: [u8; 5] = [0x45, 0x50, 0x53, 0x4F, 0x4E];
        assert(epson@ == pat_epson());
        if matches_at(data, 0, &epson) {
            off = off + 8;
        }

        // Pentax makernote starts with AOC\0 - If it's there, skip it
        let aoc: [u8; 4] = [0x41, 0x4F, 0x43, 0x00];
        assert(aoc@ == pat_aoc());
        if matches_at(data, 0, &aoc) {
            off = off + 4;
        }

        let ii: [u8; 2] = [0x49, 0x49];
        assert(ii@ == pat_ii());

        // Pentax can also start with PENTAX and in that case uses different offsets
        let pentax: [u8; 6] = [0x50, 0x45, 0x4E, 0x54, 0x41, 0x58];
        assert(pentax@ == pat_pentax());
        if matches_at(data, 0, &pentax) {
            off = off + 8;
            let endian = if matches_at(data, off, &ii) { Endian::Little } else { Endian::Big };
            proof {
                lemma_note_read_plain(buf@, offset as int, base_offset as int, depth as int, e, offset as int, 10, endian);
                lemma_note_message(buf@, offset as int, base_offset as int, depth as int, e, offset as int, 10, endian);
            }
            return TiffIFD::new(data, 10, base_offset, 0, depth, endian);
        }

        let nikon: [u8; 7] = [0x4E, 0x69, 0x6B, 0x6F, 0x6E, 0x00, 0x02];
        assert(nikon@ == pat_nikon());
        if matches_at(data, 0, &nikon) {
            off = off + 10;
            let endian = if matches_at(data, off, &ii) { Endian::Little } else { Endian::Big };
            if off < buf.len() - offset {
                proof {
                    lemma_note_read_plain(
                        buf@,
                        offset as int,
                        base_offset as int,
                        depth as int,
                        e,
                        offset + off,
                        8,
                        endian,
                    );
                    lemma_note_message(
                        buf@,
                        offset as int,
                        base_offset as int,
                        depth as int,
                        e,
                        offset + off,
                        8,
                        endian,
                    );
                }
                return TiffIFD::new(
                    vstd::slice::slice_subrange(buf, off + offset, buf.len()),
                    8,
                    base_offset,
                    0,
                    depth,
                    endian,
                );
            }
            proof {
                lemma_note_message_none(buf@, offset as int, base_offset as int, depth as int, e);
            }
            return Err(String::from_str("Nikon makernote offset out of bounds"));
        }

        // Some have MM or II to indicate endianness - read that
        if matches_at(data, off, &ii) {
            off = off + 2;
            endian = Endian::Little;
        }
        let mm: [u8; 2] = [0x4D, 0x4D];
        assert(mm@ == pat_mm());
        if matches_at(data, off, &mm) {
            off = off + 2;
            endian = Endian::Big;
        }

        proof {
            lemma_note_read_plain(buf@, offset as int, base_offset as int, depth as int, e, 0, offset + off, endian);
            lemma_note_message(buf@, offset as int, base_offset as int, depth as int, e, 0, offset + off, endian);
        }
        TiffIFD::new(buf, sat_add(offset, off), base_offset, 0, depth, endian)
    }
}

/// Byte order marked at `offset` ("II" little, "MM" big), if any.
pub open spec fn spec_root_endian(buf: Seq<u8>, offset: int) -> Option<Endian> {
    let m = spec_le_u16(buf, offset);
    if m == 0x4949 {
        Some(Endian::Little)
    } else if m == 0x4d4d {
        Some(Endian::Big)
    } else {
        None
    }
}

/// Whether the chain of at most `n` directories from `next` can be read:
/// each directory until one whose next offset is 0.
pub open spec fn spec_chain_ok(sub: Seq<u8>, next: int, e: Endian, n: nat) -> bool
    decreases n,
{
    if n == 0 {
        true
    } else {
        spec_ifd_ok(sub, next, e) && (spec_ifd_next(sub, next, e) == 0 || spec_chain_ok(
            sub,
            spec_ifd_next(sub, next, e) as int,
            e,
            (n - 1) as nat,
        ))
    }
}

/// Number of directories in that chain.
pub open spec fn spec_chain_len(sub: Seq<u8>, next: int, e: Endian, n: nat) -> nat
    decreases n,
{
    if n == 0 {
        0
    } else if spec_ifd_next(sub, next, e) == 0 {
        1
    } else {
        1 + spec_chain_len(sub, spec_ifd_next(sub, next, e) as int, e, (n - 1) as nat)
    }
}

/// Whether a TIFF structure can be read at `offset`: a byte-order mark, then
/// a chain of at most 100 directories starting at the offset it holds.
pub open spec fn spec_root_ok(buf: Seq<u8>, offset: int) -> bool {
    &&& offset < buf.len()
    &&& spec_root_endian(buf, offset) is Some
    &&& spec_chain_ok(
        buf.subrange(offset, buf.len() as int),
        spec_read_u32(spec_root_endian(buf, offset)->0, buf, offset + 4) as int,
        spec_root_endian(buf, offset)->0,
        100,
    )
}

/// The offset of directory `i` of the chain from `next`.
pub open spec fn spec_chain_at(sub: Seq<u8>, next: int, e: Endian, i: nat) -> int
    decreases i,
{
    if i == 0 {
        next
    } else {
        spec_chain_at(sub, spec_ifd_next(sub, next, e) as int, e, (i - 1) as nat)
    }
}

/// Directory `i + 1` of a chain is the one directory `i` points at.
proof fn lemma_chain_at_step(sub: Seq<u8>, next: int, e: Endian, i: nat)
    ensures
        spec_chain_at(sub, next, e, i + 1) == spec_ifd_next(sub, spec_chain_at(sub, next, e, i), e) as int,
    decreases i,
{
    let n2 = spec_ifd_next(sub, next, e) as int;
    assert(spec_chain_at(sub, next, e, i + 1) == spec_chain_at(sub, n2, e, i));
    if i > 0 {
        lemma_chain_at_step(sub, n2, e, (i - 1) as nat);
        assert(spec_chain_at(sub, next, e, i) == spec_chain_at(sub, n2, e, (i - 1) as nat));
        assert((i - 1) as nat + 1 == i);
    }
}

/// What a search for tag code `k` finds in the chain of at most `n`
/// directories from `next`, in order.
pub open spec fn spec_find_chain(sub: Seq<u8>, next: int, e: Endian, n: nat, k: u16) -> Option<EntryView>
    decreases n,
{
    if n == 0 {
        None
    } else {
        first_found(
            spec_find_parsed(sub, next, 0, 0, e, k),
            if spec_ifd_next(sub, next, e) == 0 {
                None
            } else {
                spec_find_chain(sub, spec_ifd_next(sub, next, e) as int, e, (n - 1) as nat, k)
            },
        )
    }
}

/// What `find_entry` gives for tag code `k` on the TIFF structure read at
/// `offset`: the first entry with that tag in its chain of directories.
pub open spec fn spec_find_root(buf: Seq<u8>, offset: int, k: u16) -> Option<EntryView> {
    let e = spec_root_endian(buf, offset)->0;
    spec_find_chain(
        buf.subrange(offset, buf.len() as int),
        spec_read_u32(e, buf, offset + 4) as int,
        e,
        100,
        k,
    )
}

/// The message of the error that reading the chain of at most `n`
/// directories from `next` ends with: that of the first directory that
/// cannot be read.
pub open spec fn spec_chain_message(sub: Seq<u8>, next: int, e: Endian, n: nat) -> Seq<char>
    decreases n,
{
    if n == 0 {
        Seq::empty()
    } else if !spec_ifd_ok(sub, next, e) {
        spec_ifd_message(sub, next, e)
    } else if spec_ifd_next(sub, next, e) == 0 {
        Seq::empty()
    } else {
        spec_chain_message(sub, spec_ifd_next(sub, next, e) as int, e, (n - 1) as nat)
    }
}

/// The message of the error that reading a TIFF structure at `offset`
/// ends with, where it cannot be read.
pub open spec fn spec_root_message(buf: Seq<u8>, offset: int) -> Seq<char> {
    if offset >= buf.len() {
        "TIFF: root offset "@ + spec_dec(offset as nat) + " out of bounds ("@ + spec_dec(buf.len()) + ")"@
    } else if spec_root_endian(buf, offset) is None {
        "TIFF: don't know marker 0x"@ + spec_hex(spec_le_u16(buf, offset) as nat)
    } else {
        let e = spec_root_endian(buf, offset)->0;
        spec_chain_message(
            buf.subrange(offset, buf.len() as int),
            spec_read_u32(e, buf, offset + 4) as int,
            e,
            100,
        )
    }
}

/// What a TIFF structure read at `offset` is: no entries of its own, its
/// chain of directories below it, all counting offsets from `offset`.
pub open spec fn spec_root_result(ifd: TiffIFD, buf: Seq<u8>, offset: int) -> bool {
    let e = spec_root_endian(buf, offset)->0;
    &&& ifd.entry_map() == Map::<u16, EntryView>::empty()
    &&& ifd.next() == 0
    &&& ifd.start() == offset
    &&& ifd.order() == e
    &&& ifd.subs().len() == spec_chain_len(
        buf.subrange(offset, buf.len() as int),
        spec_read_u32(e, buf, offset + 4) as int,
        e,
        100,
    )
    &&& forall|i: int|
        0 <= i < ifd.subs().len() ==> (#[trigger] ifd.subs()[i]).start() == offset
            && ifd.subs()[i].order() == e
    &&& forall|i: int|
        0 <= i < ifd.subs().len() ==> spec_tree_read(
            #[trigger] ifd.subs()[i],
            buf.subrange(offset, buf.len() as int),
            spec_chain_at(
                buf.subrange(offset, buf.len() as int),
                spec_read_u32(e, buf, offset + 4) as int,
                e,
                i as nat,
            ),
            0,
            offset,
            0,
            e,
        )
    &&& forall|k: u16| #[trigger] spec_find_entry(ifd, k) == spec_find_root(buf, offset, k)
}

/// The directory walk of the Fuji RAF header after `i` steps: the offset of
/// the next record, the entries found and whether the walk has stopped.
/// Records are a tag, a length and that many data bytes; the image size
/// and the old white balance records become entries.
pub open spec fn spec_fuji_walk(buf: Seq<u8>, offset: int, i: int) -> (int, Map<u16, EntryView>, bool)
    decreases i,
{
    if i <= 0 {
        (offset + 4, Map::empty(), false)
    } else {
        let (off, m, stop) = spec_fuji_walk(buf, offset, i - 1);
        if stop || off + 4 > buf.len() {
            (off, m, true)
        } else {
            let tag = spec_be_u16(buf, off);
            let len = spec_be_u16(buf, off + 2);
            let m2 = if tag == 0x0100 && off + 8 <= buf.len() {
                m.insert(
                    0x0100,
                    EntryView {
                        tag: 0x0100,
                        typ: 3,
                        count: 2,
                        parent_offset: 0,
                        doffset: (off + 4) as usize,
                        data: buf.subrange(off + 4, off + 8),
                        endian: Endian::Big,
                    },
                )
            } else if tag == 0x2ff0 && off + 12 <= buf.len() {
                m.insert(
                    0x2ff0,
                    EntryView {
                        tag: 0x2ff0,
                        typ: 3,
                        count: 4,
                        parent_offset: 0,
                        doffset: (off + 4) as usize,
                        data: buf.subrange(off + 4, off + 12),
                        endian: Endian::Big,
                    },
                )
            } else {
                m
            };
            (off + len + 4, m2, false)
        }
    }
}

/// Whether `buf` starts with "FUJIFILM".
pub open spec fn is_fuji_file(buf: Seq<u8>) -> bool {
    bytes_at(buf, 0, seq![0x46u8, 0x55u8, 0x4Au8, 0x49u8, 0x46u8, 0x49u8, 0x4Cu8, 0x4Du8])
}

impl<'a> TiffIFD<'a> {
    /// Parses a TIFF structure at `offset`: its byte-order mark and the
    /// chain of (at most 100) directories from the offset it holds.
    pub fn new_root(buf: &'a [u8], offset: usize) -> (r: Result<TiffIFD<'a>, String>)
        ensures
            r is Ok <==> spec_root_ok(buf@, offset as int),
            r matches Ok(ifd) ==> spec_root_result(ifd, buf@, offset as int),
            r matches Err(m) ==> m@ == spec_root_message(buf@, offset as int),
    {
        let mut subifds: Vec<TiffIFD<'a>> = Vec::new();
        if offset >= buf.len() {
            let mut m = String::from_str("TIFF: root offset ");
            push_dec(&mut m, offset as u128);
            m.append(" out of bounds (");
            push_dec(&mut m, buf.len() as u128);
            m.append(")");
            return Err(m);
        }

        let marker = le_u16(buf, offset);
        let endian = match marker {
            0x4949 => Endian::Little,
            0x4d4d => Endian::Big,
            _ => {
                let mut m = String::from_str("TIFF: don't know marker 0x");
                push_hex(&mut m, marker as u128);
                return Err(m);
            },
        };
        let first = ru32_at(endian, buf, offset, 4) as usize;
        let mut nextifd = first;
        let sub = vstd::slice::slice_subrange(buf, offset, buf.len());
        let ghost gsub = sub@;
        let mut k: usize = 0;
        let mut done = false;
        while !done
            invariant
                gsub == sub@,
                gsub == buf@.subrange(offset as int, buf@.len() as int),
                endian == spec_root_endian(buf@, offset as int)->0,
                spec_root_endian(buf@, offset as int) is Some,
                first == spec_read_u32(endian, buf@, offset + 4) as usize,
                k <= 100,
                done == ((k > 0 && nextifd == 0) || k == 100),
                k == 0 ==> nextifd == first,
                spec_chain_ok(gsub, first as int, endian, 100) == (done || spec_chain_ok(
                    gsub,
                    nextifd as int,
                    endian,
                    (100 - k) as nat,
                )),
                spec_chain_len(gsub, first as int, endian, 100) == k + if done {
                    0
                } else {
                    spec_chain_len(gsub, nextifd as int, endian, (100 - k) as nat)
                },
                subifds@.len() == k,
                forall|i: int|
                    0 <= i < k ==> (#[trigger] subifds@[i]).start() == offset && subifds@[i].order()
                        == endian,
                !done ==> nextifd == spec_chain_at(gsub, first as int, endian, k as nat),
                forall|i: int|
                    0 <= i < k ==> spec_tree_read(
                        #[trigger] subifds@[i],
                        gsub,
                        spec_chain_at(gsub, first as int, endian, i as nat),
                        0,
                        offset as int,
                        0,
                        endian,
                    ),
                !done ==> spec_chain_message(gsub, first as int, endian, 100) == spec_chain_message(
                    gsub,
                    nextifd as int,
                    endian,
                    (100 - k) as nat,
                ),
                forall|c: u16|
                    #[trigger] spec_find_chain(gsub, first as int, endian, 100, c) == first_found(
                        spec_find_in_list(subifds@, 0, c),
                        if done {
                            None
                        } else {
                            spec_find_chain(gsub, nextifd as int, endian, (100 - k) as nat, c)
                        },
                    ),
            decreases 100 - k,
        {
            let ghost x = nextifd as int;
            let ghost n = (100 - k) as nat;
            assert(spec_chain_ok(gsub, x, endian, n) == (spec_ifd_ok(gsub, x, endian) && (
            spec_ifd_next(gsub, x, endian) == 0 || spec_chain_ok(
                gsub,
                spec_ifd_next(gsub, x, endian) as int,
                endian,
                (n - 1) as nat,
            ))));
            assert(spec_chain_len(gsub, x, endian, n) == if spec_ifd_next(gsub, x, endian) == 0 {
                1
            } else {
                1 + spec_chain_len(gsub, spec_ifd_next(gsub, x, endian) as int, endian, (n - 1) as nat)
            });
            let ifd = match TiffIFD::new(sub, nextifd, 0, offset, 0, endian) {
                Ok(v) => v,
                Err(err) => return Err(err),
            };
            let ghost before = subifds@;
            nextifd = ifd.nextifd;
            subifds.push(ifd);
            k = k + 1;
            done = nextifd == 0 || k == 100;
            proof {
                lemma_chain_at_step(gsub, first as int, endian, (k - 1) as nat);
                assert(subifds@[k - 1] == ifd);
                if k == 100 && nextifd != 0 {
                    assert(spec_chain_ok(gsub, nextifd as int, endian, 0));
                    assert(spec_chain_len(gsub, nextifd as int, endian, 0) == 0);
                }
                assert forall|c: u16|
                    #[trigger] spec_find_chain(gsub, first as int, endian, 100, c) == first_found(
                        spec_find_in_list(subifds@, 0, c),
                        if done {
                            None
                        } else {
                            spec_find_chain(gsub, nextifd as int, endian, (100 - k) as nat, c)
                        },
                    ) by {
                    lemma_find_in_list_push(before, ifd, c, 0);
                    assert(spec_find_chain(gsub, x, endian, n, c) == first_found(
                        spec_find_parsed(gsub, x, 0, 0, endian, c),
                        if nextifd == 0 {
                            None
                        } else {
                            spec_find_chain(gsub, nextifd as int, endian, (n - 1) as nat, c)
                        },
                    ));
                    if k == 100 && nextifd != 0 {
                        assert(spec_find_chain(gsub, nextifd as int, endian, 0, c) is None);
                    }
                }
            }
        }
        let empty: HashMap<u16, TiffEntry<'a>> = HashMap::new();
        assert(entry_views(empty@) =~= Map::<u16, EntryView>::empty());
        let ghost subs = subifds@;
        let root = TiffIFD {
            entries: empty,
            subifds: subifds,
            nextifd: 0,
            start_offset: offset,
            endian: endian,
        };
        proof {
            assert forall|c: u16| #[trigger] spec_find_entry(root, c) == spec_find_root(buf@, offset as int, c) by {
                assert(root.subs() == subs);
                assert(!root.entry_map().contains_key(c));
            }
        }
        Ok(root)
    }

    /// Parses the directory of a Fuji RAF header at `offset`: a count of at
    /// most 4000 records, walked as `spec_fuji_walk` says.
    pub fn new_fuji(buf: &'a [u8], offset: usize) -> (r: Result<TiffIFD<'a>, String>)
        ensures
            r is Ok <==> spec_be_u32(buf@, offset as int) <= 4000,
            r matches Err(m) ==> m@ == "too many entries in IFD ("@ + spec_dec(spec_be_u32(buf@, offset as int) as nat)
                + ")"@,
            r matches Ok(ifd) ==> {
                &&& ifd.entry_map() == spec_fuji_walk(
                    buf@,
                    offset as int,
                    spec_be_u32(buf@, offset as int) as int,
                ).1
                &&& ifd.subs().len() == 0
                &&& ifd.next() == 0
                &&& ifd.start() == 0
                &&& ifd.order() == Endian::Big
            },
    {
        broadcast use vstd::std_specs::hash::group_hash_axioms;

        let mut entries: HashMap<u16, TiffEntry<'a>> = HashMap::new();
        let num = be_u32(buf, offset);  // Directory entries in this IFD
        if num > 4000 {
            let mut m = String::from_str("too many entries in IFD (");
            push_dec(&mut m, num as u128);
            m.append(")");
            return Err(m);
        }
        assert(buf@.len() == buf.len());
        let mut stopped = offset > usize::MAX - 4;
        let mut off: usize = if stopped { 0 } else { offset + 4 };
        let ghost gb = buf@;
        let mut i: u32 = 0;
        assert(entry_views(entries@) =~= Map::empty());
        while i < num
            invariant
                gb == buf@,
                buf@.len() == buf.len(),
                i <= num,
                entry_views(entries@) == spec_fuji_walk(gb, offset as int, i as int).1,
                stopped ==> (spec_fuji_walk(gb, offset as int, i as int).2 || spec_fuji_walk(
                    gb,
                    offset as int,
                    i as int,
                ).0 + 4 > gb.len()),
                !stopped ==> !spec_fuji_walk(gb, offset as int, i as int).2 && spec_fuji_walk(
                    gb,
                    offset as int,
                    i as int,
                ).0 == off,
            decreases num - i,
        {
            if !stopped {
                if off > buf.len() || buf.len() - off < 4 {
                    stopped = true;
                } else {
                    let tag = be_u16(buf, off);
                    let len = be_u16(buf, off + 2);
                    if tag == t(Tag::ImageWidth) && buf.len() - off >= 8 {
                        let data = vstd::slice::slice_subrange(buf, off + 4, off + 8);
                        let en = TiffEntry {
                            tag: t(Tag::ImageWidth),
                            typ: 3,  // Short
                            count: 2,
                            parent_offset: 0,
                            doffset: off + 4,
                            data,
                            endian: Endian::Big,
                        };
                        proof {
                            lemma_entry_views_insert(entries@, 0x0100u16, en);
                        }
                        entries.insert(t(Tag::ImageWidth), en);
                    } else if tag == t(Tag::RafOldWB) && buf.len() - off >= 12 {
                        let data = vstd::slice::slice_subrange(buf, off + 4, off + 12);
                        let en = TiffEntry {
                            tag: t(Tag::RafOldWB),
                            typ: 3,  // Short
                            count: 4,
                            parent_offset: 0,
                            doffset: off + 4,
                            data,
                            endian: Endian::Big,
                        };
                        proof {
                            lemma_entry_views_insert(entries@, 0x2ff0u16, en);
                        }
                        entries.insert(t(Tag::RafOldWB), en);
                    }
                    if off > usize::MAX - 4 - (len as usize) {
                        stopped = true;
                    } else {
                        off = off + (len as usize) + 4;
                    }
                }
            }
            i = i + 1;
        }

        Ok(
            TiffIFD {
                entries: entries,
                subifds: Vec::new(),
                nextifd: 0,
                start_offset: 0,
                endian: Endian::Big,
            },
        )
    }
}

/// Offset of the first TIFF structure of a Fuji RAF file.
pub open spec fn spec_fuji_root(buf: Seq<u8>) -> int {
    if spec_be_u32(buf, 84) + 12 <= usize::MAX {
        spec_be_u32(buf, 84) + 12
    } else {
        usize::MAX as int
    }
}

/// The entry standing for the raw data offset of a RAF file whose second
/// TIFF structure cannot be read.
pub open spec fn spec_raf_offsets_entry(buf: Seq<u8>) -> EntryView {
    EntryView {
        tag: 0xF007,
        typ: 4,
        count: 1,
        parent_offset: 0,
        doffset: 100,
        data: buf.subrange(100, 104),
        endian: Endian::Big,
    }
}

/// What `find_entry` gives for tag code `k` on a Fuji RAF file: the entry
/// standing for the raw data offset where the second TIFF structure cannot
/// be read, else the first entry with that tag in the first TIFF
/// structure, the second one and the Fuji directory, in that order.
pub open spec fn spec_find_raf(buf: Seq<u8>, k: u16) -> Option<EntryView> {
    let o2 = spec_be_u32(buf, 100) as int;
    let fo = spec_be_u32(buf, 92) as int;
    let fuji = spec_fuji_walk(buf, fo, spec_be_u32(buf, fo) as int).1;
    first_found(
        if !spec_root_ok(buf, o2) && k == 0xF007 {
            Some(spec_raf_offsets_entry(buf))
        } else {
            None
        },
        first_found(
            spec_find_root(buf, spec_fuji_root(buf), k),
            first_found(
                if spec_root_ok(buf, o2) {
                    spec_find_root(buf, o2, k)
                } else {
                    None
                },
                if spec_be_u32(buf, fo) <= 4000 && fuji.contains_key(k) {
                    Some(fuji[k])
                } else {
                    None
                },
            ),
        ),
    )
}

/// How a search goes through the parts of a Fuji RAF file.
proof fn lemma_raf_find<'a>(raf: TiffIFD<'a>, buf: Seq<u8>)
    requires
        ({
            let root2 = spec_root_ok(buf, spec_be_u32(buf, 100) as int);
            let fo = spec_be_u32(buf, 92) as int;
            let fuji = spec_be_u32(buf, fo) <= 4000;
            let s = raf.subs();
            &&& raf.entry_map() == if root2 {
                Map::<u16, EntryView>::empty()
            } else {
                Map::<u16, EntryView>::empty().insert(0xF007, spec_raf_offsets_entry(buf))
            }
            &&& s.len() == 1 + (if root2 {
                1int
            } else {
                0
            }) + (if fuji {
                1int
            } else {
                0
            })
            &&& spec_root_result(s[0], buf, spec_fuji_root(buf))
            &&& root2 ==> spec_root_result(s[1], buf, spec_be_u32(buf, 100) as int)
            &&& fuji ==> s[s.len() - 1].entry_map() == spec_fuji_walk(buf, fo, spec_be_u32(buf, fo) as int).1
                && s[s.len() - 1].subs().len() == 0
        }),
    ensures
        forall|k: u16| #[trigger] spec_find_entry(raf, k) == spec_find_raf(buf, k),
{
    let root2 = spec_root_ok(buf, spec_be_u32(buf, 100) as int);
    let fo = spec_be_u32(buf, 92) as int;
    let fuji = spec_be_u32(buf, fo) <= 4000;
    let s = raf.subs();
    let n = s.len() as int;
    assert forall|k: u16| #[trigger] spec_find_entry(raf, k) == spec_find_raf(buf, k) by {
        assert(spec_find_in_list(s, n, k) is None);
        if fuji {
            let f = s[n - 1];
            assert(spec_find_in_list(f.subs(), 0, k) is None);
            assert(spec_find_in_list(s, n - 1, k) == spec_find_entry(f, k));
        }
        if root2 {
            assert(spec_find_in_list(s, 1, k) == first_found(spec_find_entry(s[1], k), spec_find_in_list(s, 2, k)));
        }
        assert(spec_find_in_list(s, 0, k) == first_found(spec_find_entry(s[0], k), spec_find_in_list(s, 1, k)));
    }
}

/// What a Fuji RAF file is read as: the entry standing for the raw data
/// offset where the second TIFF structure cannot be read; below it the
/// first TIFF structure, the second one where it can be read and the Fuji
/// directory where it can be read; searched as `spec_find_raf` says.
pub open spec fn spec_raf_result(ifd: TiffIFD, buf: Seq<u8>) -> bool {
    let root2 = spec_root_ok(buf, spec_be_u32(buf, 100) as int);
    let fuji = spec_be_u32(buf, spec_be_u32(buf, 92) as int) <= 4000;
    &&& ifd.next() == 0
    &&& ifd.start() == 0
    &&& ifd.order() == spec_root_endian(buf, spec_fuji_root(buf))->0
    &&& ifd.entry_map() == if root2 {
        Map::<u16, EntryView>::empty()
    } else {
        Map::<u16, EntryView>::empty().insert(0xF007, spec_raf_offsets_entry(buf))
    }
    &&& ifd.subs().len() == 1 + (if root2 {
        1int
    } else {
        0
    }) + (if fuji {
        1int
    } else {
        0
    })
    &&& spec_root_result(ifd.subs()[0], buf, spec_fuji_root(buf))
    &&& root2 ==> spec_root_result(ifd.subs()[1], buf, spec_be_u32(buf, 100) as int)
    &&& fuji ==> {
        let f = ifd.subs()[ifd.subs().len() - 1];
        let fo = spec_be_u32(buf, 92) as int;
        &&& f.entry_map() == spec_fuji_walk(buf, fo, spec_be_u32(buf, fo) as int).1
        &&& f.subs().len() == 0
        &&& f.next() == 0
        &&& f.start() == 0
        &&& f.order() == Endian::Big
    }
    &&& forall|k: u16| #[trigger] spec_find_entry(ifd, k) == spec_find_raf(buf, k)
}

impl<'a> TiffIFD<'a> {
    /// Parses a Fuji RAF container at least 108 bytes long: its two TIFF
    /// structures and its own directory.
    fn new_raf(buf: &'a [u8]) -> (r: Result<TiffIFD<'a>, String>)
        requires
            buf@.len() >= 108,
        ensures
            r is Ok <==> spec_root_ok(buf@, spec_fuji_root(buf@)),
            r matches Ok(ifd) ==> spec_raf_result(ifd, buf@),
            r matches Err(m) ==> m@ == spec_root_message(buf@, spec_fuji_root(buf@)),
    {
        broadcast use vstd::std_specs::hash::group_hash_axioms;

        let ghost gb = buf@;
        let ifd1 = match TiffIFD::new_root(buf, sat_add(be_u32(buf, 84) as usize, 12)) {
            Ok(v) => v,
            Err(err) => return Err(err),
        };
        let endian = ifd1.get_endian();
        let mut subifds: Vec<TiffIFD<'a>> = Vec::new();
        subifds.push(ifd1);
        let mut entries: HashMap<u16, TiffEntry<'a>> = HashMap::new();
        assert(entry_views(entries@) =~= Map::<u16, EntryView>::empty());

        let ioffset = be_u32(buf, 100) as usize;
        match TiffIFD::new_root(buf, ioffset) {
            Ok(val) => {
                subifds.push(val);
            },
            Err(_) => {
                let en = TiffEntry {
                    tag: t(Tag::RafOffsets),
                    typ: 4,  // Long
                    count: 1,
                    parent_offset: 0,
                    doffset: 100,
                    // buf.len() >= 108 checked above
                    data: vstd::slice::slice_subrange(buf, 100, 104),
                    endian: Endian::Big,
                };
                proof {
                    lemma_entry_views_insert(entries@, 0xF007u16, en);
                }
                entries.insert(t(Tag::RafOffsets), en);
            },
        }
        match TiffIFD::new_fuji(buf, be_u32(buf, 92) as usize) {
            Ok(val) => subifds.push(val),
            Err(_) => {},
        }

        let raf = TiffIFD { entries: entries, subifds: subifds, nextifd: 0, start_offset: 0, endian: endian };
        proof {
            lemma_raf_find(raf, gb);
        }
        Ok(raf)
    }

    /// Parses a file: a Fuji RAF container (starting "FUJIFILM") with its
    /// two TIFF structures and its own directory, or a plain TIFF structure
    /// at the start of `buf`.
    pub fn new_file(buf: &'a [u8]) -> (r: Result<TiffIFD<'a>, String>)
        ensures
            !is_fuji_file(buf@) ==> (r is Ok <==> spec_root_ok(buf@, 0)),
            !is_fuji_file(buf@) ==> (r matches Err(m) ==> m@ == spec_root_message(buf@, 0)),
            is_fuji_file(buf@) ==> (r matches Err(m) ==> m@ == if buf@.len() < 108 {
                "FUJIFILM: header too short"@
            } else {
                spec_root_message(buf@, spec_fuji_root(buf@))
            }),
            !is_fuji_file(buf@) ==> (r matches Ok(ifd) ==> spec_root_result(ifd, buf@, 0)),
            is_fuji_file(buf@) ==> (r is Ok <==> buf@.len() >= 108 && spec_root_ok(
                buf@,
                spec_fuji_root(buf@),
            )),
            is_fuji_file(buf@) ==> (r matches Ok(ifd) ==> spec_raf_result(ifd, buf@)),
    {
        let magic: [u8; 8] = [0x46, 0x55, 0x4A, 0x49, 0x46, 0x49, 0x4C, 0x4D];
        assert(magic@ == seq![0x46u8, 0x55u8, 0x4Au8, 0x49u8, 0x46u8, 0x49u8, 0x4Cu8, 0x4Du8]);
        if matches_at(buf, 0, &magic) {
            if buf.len() < 108 {
                return Err(String::from_str("FUJIFILM: header too short"));
            }
            TiffIFD::new_raf(buf)
        } else {
            TiffIFD::new_root(buf, 0)
        }
    }
}

} // verus!
