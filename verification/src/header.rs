//! The fixed 14-byte QOI file header: magic, dimensions, channel count and
//! color space, with exact serialization and parsing.

use vstd::prelude::*;

verus! {

/// The number of channels an image carries; on the wire `Rgb` is the byte 3
/// and `Rgba` the byte 4.
#[derive(PartialEq, Eq, Structural, Clone, Copy, Debug)]
pub enum QoiChannels {
    Rgb,
    Rgba,
}

/// The informational color-space tag; on the wire `SRgbWithLinearAlpha` is
/// the byte 0 and `AllChannelsLinear` the byte 1.
#[derive(PartialEq, Eq, Structural, Clone, Copy, Debug)]
pub enum QoiColorSpace {
    SRgbWithLinearAlpha,
    AllChannelsLinear,
}

pub open spec fn channels_byte(c: QoiChannels) -> u8 {
    match c {
        QoiChannels::Rgb => 3,
        QoiChannels::Rgba => 4,
    }
}

pub open spec fn color_space_byte(c: QoiColorSpace) -> u8 {
    match c {
        QoiColorSpace::SRgbWithLinearAlpha => 0,
        QoiColorSpace::AllChannelsLinear => 1,
    }
}

/// The byte sequence `"qoif"` beginning every QOI header.
pub open spec fn magic_bytes() -> Seq<u8> {
    seq![113u8, 111u8, 105u8, 102u8]
}

/// A 32-bit value as its four big-endian bytes.
pub open spec fn be32_bytes(x: u32) -> Seq<u8> {
    seq![
        (x / 0x1000000) as u8,
        ((x / 0x10000) % 0x100) as u8,
        ((x / 0x100) % 0x100) as u8,
        (x % 0x100) as u8,
    ]
}

/// The 32-bit value four big-endian bytes stand for.
pub open spec fn be32_value(b0: u8, b1: u8, b2: u8, b3: u8) -> u32 {
    (b0 * 0x1000000 + b1 * 0x10000 + b2 * 0x100 + b3) as u32
}

/// Recomposing the four big-endian bytes of a value gives the value back.
pub proof fn lemma_be32_round_trip(x: u32)
    ensures
        be32_value(be32_bytes(x)[0], be32_bytes(x)[1], be32_bytes(x)[2], be32_bytes(x)[3]) == x,
{
    assert((x / 0x1000000) * 0x1000000 + ((x / 0x10000) % 0x100) * 0x10000 + ((x / 0x100) % 0x100)
        * 0x100 + (x % 0x100) == x) by (nonlinear_arith);
}

/// A struct representing the QOI file header.
#[derive(PartialEq, Eq, Structural, Clone, Copy, Debug)]
pub struct QoiHeader {
    pub width: u32,
    pub height: u32,
    pub channels: QoiChannels,
    pub color_space: QoiColorSpace,
}

/// The 14 bytes a header serializes to: magic, width and height big-endian,
/// channel byte, color-space byte.
pub open spec fn header_bytes(h: QoiHeader) -> Seq<u8> {
    magic_bytes() + be32_bytes(h.width) + be32_bytes(h.height) + seq![
        channels_byte(h.channels),
        color_space_byte(h.color_space),
    ]
}

/// Parse a header from the front of a byte stream.
///
/// Fails exactly when fewer than 14 bytes are available, the magic is wrong,
/// the channel byte is neither 3 nor 4, or the color-space byte is neither 0
/// nor 1. Width and height are accepted as any 32-bit value.
pub open spec fn parse_header(bytes: Seq<u8>) -> Option<QoiHeader> {
    if bytes.len() < 14 {
        None
    } else if bytes.subrange(0, 4) != magic_bytes() {
        None
    } else if bytes[12] != 3 && bytes[12] != 4 {
        None
    } else if bytes[13] != 0 && bytes[13] != 1 {
        None
    } else {
        Some(
            QoiHeader {
                width: be32_value(bytes[4], bytes[5], bytes[6], bytes[7]),
                height: be32_value(bytes[8], bytes[9], bytes[10], bytes[11]),
                channels: if bytes[12] == 3 {
                    QoiChannels::Rgb
                } else {
                    QoiChannels::Rgba
                },
                color_space: if bytes[13] == 0 {
                    QoiColorSpace::SRgbWithLinearAlpha
                } else {
                    QoiColorSpace::AllChannelsLinear
                },
            },
        )
    }
}

/// Parsing the serialization of any header yields that header back, and any
/// prefix shorter than 14 bytes is rejected.
pub proof fn lemma_header_round_trip(h: QoiHeader, short: Seq<u8>)
    requires
        short.len() < 14,
    ensures
        parse_header(header_bytes(h)) == Some(h),
        parse_header(short) == None::<QoiHeader>,
{
    let bytes = header_bytes(h);
    assert(bytes.subrange(0, 4) =~= magic_bytes());
    lemma_be32_round_trip(h.width);
    lemma_be32_round_trip(h.height);
    assert(parse_header(bytes)->Some_0 =~= h);
}

/// Parsing looks at the first 14 bytes alone.
pub proof fn lemma_parse_header_prefix(bytes: Seq<u8>, rest: Seq<u8>)
    requires
        bytes.len() >= 14,
    ensures
        parse_header(bytes + rest) == parse_header(bytes),
{
    assert((bytes + rest).subrange(0, 4) =~= bytes.subrange(0, 4));
}

/// One big-endian byte of a 32-bit value, computed executably.
fn be32_byte_at(x: u32, shift: u32) -> (b: u8)
    requires
        shift == 0x1000000 || shift == 0x10000 || shift == 0x100 || shift == 1,
    ensures
        b as int == (x / shift) % 0x100,
{
    ((x / shift) % 0x100) as u8
}

impl QoiHeader {
    pub fn new(width: u32, height: u32, channels: QoiChannels, color_space: QoiColorSpace) -> (h:
        QoiHeader)
        ensures
            h == (QoiHeader { width, height, channels, color_space }),
    {
        QoiHeader { width, height, channels, color_space }
    }

    /// Serialize this header to its exact 14 bytes.
    pub fn to_bytes(&self) -> (bytes: [u8; 14])
        ensures
            bytes@ == header_bytes(*self),
    {
        let w = self.width;
        let hh = self.height;
        let chan: u8 = match self.channels {
            QoiChannels::Rgb => 3,
            QoiChannels::Rgba => 4,
        };
        let cs: u8 = match self.color_space {
            QoiColorSpace::SRgbWithLinearAlpha => 0,
            QoiColorSpace::AllChannelsLinear => 1,
        };
        let bytes: [u8; 14] = [
            113,
            111,
            105,
            102,
            be32_byte_at(w, 0x1000000),
            be32_byte_at(w, 0x10000),
            be32_byte_at(w, 0x100),
            be32_byte_at(w, 1),
            be32_byte_at(hh, 0x1000000),
            be32_byte_at(hh, 0x10000),
            be32_byte_at(hh, 0x100),
            be32_byte_at(hh, 1),
            chan,
            cs,
        ];
        proof {
            assert(w / 0x1000000 < 0x100);
            assert(bytes@ =~= header_bytes(*self));
        }
        bytes
    }
}

} // verus!
