//! The pixel model: a fixed-width red/green/blue/alpha value, the wrapping
//! arithmetic on its channels, and the 6-bit hash that addresses the cache of
//! recently seen pixels. Three-channel images carry alpha 255 throughout, so
//! one runtime-selected channel width serves both pixel formats.

use vstd::prelude::*;

verus! {

/// Addition on one channel, modulo 256.
pub open spec fn wadd8(x: u8, y: u8) -> u8 {
    if x + y > 255 {
        (x + y - 256) as u8
    } else {
        (x + y) as u8
    }
}

/// Subtraction on one channel, modulo 256.
pub open spec fn wsub8(x: u8, y: u8) -> u8 {
    if x - y < 0 {
        (x - y + 256) as u8
    } else {
        (x - y) as u8
    }
}

/// One pixel. For three-channel images `a` is always 255.
#[derive(Clone, Copy, PartialEq, Eq, Structural, Debug)]
pub struct Pixel {
    pub r: u8,
    pub g: u8,
    pub b: u8,
    pub a: u8,
}

/// The codec's pixel hash, the address of a pixel in the 64-slot cache.
pub open spec fn pixel_hash(p: Pixel) -> int {
    (3 * p.r + 5 * p.g + 7 * p.b + 11 * p.a) % 64
}

/// The pixel stored at byte offset `off` of a flat pixel buffer.
pub open spec fn spec_read(bytes: Seq<u8>, off: int, has_alpha: bool) -> Pixel {
    Pixel {
        r: bytes[off],
        g: bytes[off + 1],
        b: bytes[off + 2],
        a: if has_alpha {
            bytes[off + 3]
        } else {
            255
        },
    }
}

impl Pixel {
    /// The all-zero pixel, the initial content of every cache slot.
    pub fn new() -> (p: Pixel)
        ensures
            p == (Pixel { r: 0, g: 0, b: 0, a: 0 }),
    {
        Pixel { r: 0, g: 0, b: 0, a: 0 }
    }

    /// Opaque black, the previous pixel at the start of every stream.
    pub fn new_opaque() -> (p: Pixel)
        ensures
            p == (Pixel { r: 0, g: 0, b: 0, a: 255 }),
    {
        Pixel { r: 0, g: 0, b: 0, a: 255 }
    }

    /// Reads the pixel at byte offset `off`, taking three or four bytes.
    pub fn read(&mut self, bytes: &[u8], off: usize, has_alpha: bool)
        requires
            off + channel_width(has_alpha) <= bytes@.len(),
        ensures
            *final(self) == spec_read(bytes@, off as int, has_alpha),
    {
        let n = bytes.len();  // binds the buffer length, so the offsets below stay in machine range
        self.r = bytes[off];
        self.g = bytes[off + 1];
        self.b = bytes[off + 2];
        self.a = if has_alpha {
            bytes[off + 3]
        } else {
            255
        };
    }

    /// Writes the pixel at byte offset `off`, taking three or four bytes.
    pub fn write(&self, bytes: &mut Vec<u8>, off: usize, has_alpha: bool)
        requires
            off + channel_width(has_alpha) <= old(bytes)@.len(),
        ensures
            final(bytes)@ == old(bytes)@.subrange(0, off as int) + pixel_as_bytes(
                *self,
                has_alpha,
            ) + old(bytes)@.subrange(off + channel_width(has_alpha), old(bytes)@.len() as int),
    {
        let n = bytes.len();  // binds the buffer length, so the offsets below stay in machine range
        bytes[off] = self.r;
        bytes[off + 1] = self.g;
        bytes[off + 2] = self.b;
        if has_alpha {
            bytes[off + 3] = self.a;
        }
        proof {
            assert(bytes@ =~= old(bytes)@.subrange(0, off as int) + pixel_as_bytes(
                *self,
                has_alpha,
            ) + old(bytes)@.subrange(off + channel_width(has_alpha), old(bytes)@.len() as int));
        }
    }

    /// The channel-wise difference from `prev`, modulo 256.
    pub fn var(&self, prev: &Pixel) -> (v: Var)
        ensures
            v == spec_var(*self, *prev),
    {
        Var {
            r: self.r.wrapping_sub(prev.r),
            g: self.g.wrapping_sub(prev.g),
            b: self.b.wrapping_sub(prev.b),
        }
    }

    /// The alpha channel; 255 for three-channel pixels.
    pub fn a(&self) -> (v: u8)
        ensures
            v == self.a,
    {
        self.a
    }

    /// The three color channels.
    pub fn rgb(&self) -> (v: [u8; 3])
        ensures
            v@ == seq![self.r, self.g, self.b],
    {
        [self.r, self.g, self.b]
    }

    /// All four channels.
    pub fn rgba(&self) -> (v: [u8; 4])
        ensures
            v@ == seq![self.r, self.g, self.b, self.a],
    {
        [self.r, self.g, self.b, self.a]
    }

    /// Overwrites the color channels, preserving alpha.
    pub fn set_rgb(&mut self, other: [u8; 3])
        ensures
            *final(self) == (Pixel { r: other@[0], g: other@[1], b: other@[2], a: old(self).a }),
    {
        self.r = other[0];
        self.g = other[1];
        self.b = other[2];
    }

    /// Overwrites all four channels.
    pub fn set_rgba(&mut self, other: [u8; 4])
        ensures
            *final(self) == (Pixel { r: other@[0], g: other@[1], b: other@[2], a: other@[3] }),
    {
        self.r = other[0];
        self.g = other[1];
        self.b = other[2];
        self.a = other[3];
    }

    /// Adds a delta to each color channel, modulo 256; alpha is untouched.
    pub fn add_rgb(&mut self, other: [u8; 3])
        ensures
            *final(self) == spec_add_rgb(*old(self), other@[0], other@[1], other@[2]),
    {
        self.r = self.r.wrapping_add(other[0]);
        self.g = self.g.wrapping_add(other[1]);
        self.b = self.b.wrapping_add(other[2]);
    }

    /// The cache slot this pixel hashes to.
    pub fn hash(&self) -> (h: u8)
        ensures
            h as int == pixel_hash(*self),
            h < 64,
    {
        let s: u32 = 3 * (self.r as u32) + 5 * (self.g as u32) + 7 * (self.b as u32) + 11 * (
        self.a as u32);
        (s % 64) as u8
    }
}

/// The three or four bytes of one pixel as laid out in a pixel buffer.
pub open spec fn pixel_as_bytes(px: Pixel, has_alpha: bool) -> Seq<u8> {
    if has_alpha {
        seq![px.r, px.g, px.b, px.a]
    } else {
        seq![px.r, px.g, px.b]
    }
}

/// `prev` moved by a channel-wise delta, modulo 256.
pub open spec fn spec_add_rgb(p: Pixel, dr: u8, dg: u8, db: u8) -> Pixel {
    Pixel { r: wadd8(p.r, dr), g: wadd8(p.g, dg), b: wadd8(p.b, db), a: p.a }
}

/// The channel-wise difference of two pixels, modulo 256.
pub open spec fn spec_var(p: Pixel, prev: Pixel) -> Var {
    Var { r: wsub8(p.r, prev.r), g: wsub8(p.g, prev.g), b: wsub8(p.b, prev.b) }
}

/// Bytes per pixel: three, or four when alpha is tracked.
pub open spec fn channel_width(has_alpha: bool) -> int {
    if has_alpha {
        4
    } else {
        3
    }
}

/// The raw per-channel delta between a pixel and its predecessor, used to
/// decide between the compact one- and two-byte delta opcodes.
#[derive(Clone, Copy, PartialEq, Eq, Structural, Debug)]
pub struct Var {
    pub r: u8,
    pub g: u8,
    pub b: u8,
}

/// Whether each channel delta, biased by 2, fits in two bits.
pub open spec fn diff_fits(v: Var) -> bool {
    wadd8(v.r, 2) < 4 && wadd8(v.g, 2) < 4 && wadd8(v.b, 2) < 4
}

/// The one-byte delta opcode: tag bits 01, then three 2-bit biased deltas.
pub open spec fn diff_byte(v: Var) -> u8 {
    (0x40 + wadd8(v.r, 2) * 16 + wadd8(v.g, 2) * 4 + wadd8(v.b, 2)) as u8
}

/// The green delta biased by 32, as carried in the first luma byte.
pub open spec fn luma_g(v: Var) -> u8 {
    wadd8(v.g, 32)
}

/// The red delta relative to the green delta, biased by 8.
pub open spec fn luma_r(v: Var) -> u8 {
    wsub8(wadd8(v.r, 8), v.g)
}

/// The blue delta relative to the green delta, biased by 8.
pub open spec fn luma_b(v: Var) -> u8 {
    wsub8(wadd8(v.b, 8), v.g)
}

/// Whether the deltas fit the two-byte luma opcode: six bits of green delta
/// and four bits each of green-relative red and blue deltas.
pub open spec fn luma_fits(v: Var) -> bool {
    luma_r(v) < 16 && luma_b(v) < 16 && luma_g(v) < 64
}

/// The two bytes of the luma opcode: tag bits 10 with the green delta, then
/// the red and blue deltas packed in one byte.
pub open spec fn luma_bytes(v: Var) -> Seq<u8> {
    seq![(0x80 + luma_g(v)) as u8, (luma_r(v) * 16 + luma_b(v)) as u8]
}

impl Var {
    /// The one-byte delta opcode, when every channel delta fits two bits.
    pub fn diff(&self) -> (res: Option<u8>)
        ensures
            res == if diff_fits(*self) {
                Some(diff_byte(*self))
            } else {
                None::<u8>
            },
    {
        let r = self.r.wrapping_add(2);
        let g = self.g.wrapping_add(2);
        let b = self.b.wrapping_add(2);
        if r < 4 && g < 4 && b < 4 {
            Some(0x40 + r * 16 + g * 4 + b)
        } else {
            None
        }
    }

    /// The two-byte luma opcode, when the deltas fit its bias ranges.
    pub fn luma(&self) -> (res: Option<[u8; 2]>)
        ensures
            match res {
                Some(bytes) => luma_fits(*self) && bytes@ == luma_bytes(*self),
                None => !luma_fits(*self),
            },
    {
        let r = self.r.wrapping_add(8).wrapping_sub(self.g);
        let g = self.g.wrapping_add(32);
        let b = self.b.wrapping_add(8).wrapping_sub(self.g);
        if r < 16 && b < 16 && g < 64 {
            Some([0x80 + g, r * 16 + b])
        } else {
            None
        }
    }
}

} // verus!
