//! The image header: dimensions, channel count and color-space tag, carried
//! in a fixed 14-byte prefix with big-endian integers.

use vstd::prelude::*;

verus! {

/// Size in bytes of the encoded header.
pub const HEADER_SIZE: usize = 14;

/// Size in bytes of the end-of-stream trailer: seven zero bytes and a one.
pub const PADDING: usize = 8;

/// Channel count and color-space tag of an image, as carried in the header's
/// last two bytes.
#[derive(Clone, Copy, Debug, PartialEq, Eq, Structural)]
pub enum Colors {
    /// Three channels, gamma-encoded.
    Srgb,
    /// Four channels, gamma-encoded with linear alpha.
    SrgbLinA,
    /// Three channels, all linear.
    Rgb,
    /// Four channels, all linear.
    Rgba,
}

impl Colors {
    /// Whether pixels carry an alpha channel.
    pub open spec fn spec_has_alpha(&self) -> bool {
        match self {
            Colors::Rgb | Colors::Srgb => false,
            Colors::Rgba | Colors::SrgbLinA => true,
        }
    }

    /// Whether pixels carry an alpha channel.
    #[verifier::when_used_as_spec(spec_has_alpha)]
    pub fn has_alpha(&self) -> (b: bool)
        ensures
            b == self.spec_has_alpha(),
    {
        match self {
            Colors::Rgb | Colors::Srgb => false,
            Colors::Rgba | Colors::SrgbLinA => true,
        }
    }

    /// Bytes per pixel: three, or four with alpha.
    pub open spec fn spec_channels(&self) -> usize {
        match self {
            Colors::Rgb | Colors::Srgb => 3usize,
            Colors::Rgba | Colors::SrgbLinA => 4usize,
        }
    }

    /// Bytes per pixel: three, or four with alpha.
    #[verifier::when_used_as_spec(spec_channels)]
    pub fn channels(&self) -> (c: usize)
        ensures
            c == self.spec_channels(),
    {
        match self {
            Colors::Rgb | Colors::Srgb => 3,
            Colors::Rgba | Colors::SrgbLinA => 4,
        }
    }
}

/// An image header: dimensions and pixel format. Width or height may be
/// zero, in which case the payload is empty.
#[derive(Clone, Copy, Debug, PartialEq, Eq, Structural)]
pub struct Qoi {
    pub width: u32,
    pub height: u32,
    pub colors: Colors,
}

impl Qoi {
    /// Length in bytes of the raw pixel buffer this header describes.
    pub open spec fn spec_decoded_size(self) -> int {
        self.width * self.height * self.colors.spec_channels()
    }
}

/// A 32-bit value as four big-endian bytes.
pub open spec fn be32(x: u32) -> Seq<u8> {
    seq![
        (x / 0x1000000) as u8,
        ((x / 0x10000) % 256) as u8,
        ((x / 0x100) % 256) as u8,
        (x % 256) as u8,
    ]
}

/// The channel-count byte of the header.
pub open spec fn channels_byte(c: Colors) -> u8 {
    match c {
        Colors::Rgb | Colors::Srgb => 3u8,
        Colors::Rgba | Colors::SrgbLinA => 4u8,
    }
}

/// The color-space byte of the header: 0 for gamma-encoded, 1 for linear.
pub open spec fn colorspace_byte(c: Colors) -> u8 {
    match c {
        Colors::Srgb | Colors::SrgbLinA => 0u8,
        Colors::Rgb | Colors::Rgba => 1u8,
    }
}

/// The 14 header bytes: the magic `qoif`, big-endian width and height, the
/// channel count and the color-space tag.
pub open spec fn header_bytes(q: Qoi) -> Seq<u8> {
    seq![0x71u8, 0x6fu8, 0x69u8, 0x66u8] + be32(q.width) + be32(q.height) + seq![
        channels_byte(q.colors),
        colorspace_byte(q.colors),
    ]
}

} // verus!
