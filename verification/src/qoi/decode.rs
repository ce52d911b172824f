//! The decoder: parses the header, then folds over opcodes reconstructing
//! pixels into a caller-supplied buffer. Every function is verified against
//! the spec-level decoder in `model`.

use vstd::prelude::*;
use crate::qoi::header::{Colors, Qoi, HEADER_SIZE};
use crate::qoi::model::{
    dec_index_init, dec_ops, dec_range, dec_wrap, lemma_dec_range_len, lemma_dec_wrap_assoc,
    lemma_pixel_bytes_add, lemma_pixel_bytes_one, lemma_skip_skip, lemma_window_advance,
    opaque_pixel, pixel_bytes, zero_pixel,
};
use crate::qoi::pixel::{channel_width, pixel_as_bytes, spec_add_rgb, wadd8, wsub8, Pixel};

verus! {

/// Why a decode failed.
#[derive(Clone, Copy, Debug, PartialEq, Eq, Structural, Hash)]
pub enum DecodeError {
    /// The stream ended inside the header or inside an opcode.
    NotEnoughData,
    /// The first four bytes are not the format's magic.
    InvalidMagic,
    /// The channel-count byte is neither 3 nor 4.
    InvalidChannelsValue,
    /// The color-space byte is neither 0 nor 1.
    InvalidColorSpaceValue,
    /// The destination buffer cannot hold the decoded payload.
    OutputIsTooSmall,
}

/// A 32-bit value from four big-endian bytes.
pub open spec fn be32_val(b0: u8, b1: u8, b2: u8, b3: u8) -> u32 {
    (b0 * 0x1000000 + b1 * 0x10000 + b2 * 0x100 + b3) as u32
}

/// What parsing the 14-byte header of a byte stream yields.
pub open spec fn parse_header(bytes: Seq<u8>) -> Result<Qoi, DecodeError> {
    if bytes.len() < HEADER_SIZE {
        Err(DecodeError::NotEnoughData)
    } else if !(bytes[0] == 0x71 && bytes[1] == 0x6f && bytes[2] == 0x69 && bytes[3] == 0x66) {
        Err(DecodeError::InvalidMagic)
    } else {
        let w = be32_val(bytes[4], bytes[5], bytes[6], bytes[7]);
        let h = be32_val(bytes[8], bytes[9], bytes[10], bytes[11]);
        let ch = bytes[12];
        let cs = bytes[13];
        if ch == 3 && cs == 0 {
            Ok(Qoi { width: w, height: h, colors: Colors::Srgb })
        } else if ch == 4 && cs == 0 {
            Ok(Qoi { width: w, height: h, colors: Colors::SrgbLinA })
        } else if ch == 3 && cs == 1 {
            Ok(Qoi { width: w, height: h, colors: Colors::Rgb })
        } else if ch == 4 && cs == 1 {
            Ok(Qoi { width: w, height: h, colors: Colors::Rgba })
        } else if cs == 0 || cs == 1 {
            Err(DecodeError::InvalidChannelsValue)
        } else {
            Err(DecodeError::InvalidColorSpaceValue)
        }
    }
}

/// What decoding a whole stream into a buffer of `out_len` bytes yields:
/// the parsed header and the pixel sequence, or the first error.
pub open spec fn spec_decode(bytes: Seq<u8>, out_len: int) -> Result<
    (Qoi, Seq<Pixel>),
    DecodeError,
> {
    match parse_header(bytes) {
        Err(e) => Err(e),
        Ok(q) => {
            if q.width == 0 || q.height == 0 {
                Ok((q, seq![]))
            } else if q.spec_decoded_size() > out_len {
                Err(DecodeError::OutputIsTooSmall)
            } else {
                match dec_range(
                    dec_index_init(q.colors.spec_has_alpha()),
                    opaque_pixel(),
                    0nat,
                    bytes.skip(HEADER_SIZE as int),
                    (q.width * q.height) as nat,
                    q.colors.spec_has_alpha(),
                ) {
                    None => Err(DecodeError::NotEnoughData),
                    Some(r) => Ok((q, r.0)),
                }
            }
        },
    }
}

/// Writes `count` copies of one pixel at byte position `at`.
fn fill_pixels(pixels: &mut Vec<u8>, at: usize, count: usize, px: Pixel, has_alpha: bool)
    requires
        at + count * channel_width(has_alpha) <= old(pixels)@.len(),
    ensures
        final(pixels)@ == old(pixels)@.subrange(0, at as int) + pixel_bytes(
            Seq::new(count as nat, |i: int| px),
            has_alpha,
        ) + old(pixels)@.subrange(
            at + count * channel_width(has_alpha),
            old(pixels)@.len() as int,
        ),
{
    let n = pixels.len();  // binds the buffer length, so offsets below stay in machine range
    let cw: usize = if has_alpha { 4 } else { 3 };
    let mut j: usize = 0;
    proof {
        assert(pixels@ =~= pixels@.subrange(0, at as int) + pixel_bytes(
            Seq::new(0nat, |i: int| px),
            has_alpha,
        ) + pixels@.subrange(at as int, pixels@.len() as int));
    }
    while j < count
        invariant
            j <= count,
            cw == channel_width(has_alpha),
            at + count * cw <= old(pixels)@.len(),
            pixels@.len() == old(pixels)@.len(),
            old(pixels)@.len() <= usize::MAX,
            pixels@ == old(pixels)@.subrange(0, at as int) + pixel_bytes(
                Seq::new(j as nat, |i: int| px),
                has_alpha,
            ) + old(pixels)@.subrange(at + j * cw, old(pixels)@.len() as int),
        decreases count - j,
    {
        proof {
            vstd::arithmetic::mul::lemma_mul_inequality(j as int + 1, count as int, cw as int);
            vstd::arithmetic::mul::lemma_mul_is_distributive_add_other_way(
                cw as int,
                j as int,
                1,
            );
        }
        px.write(pixels, at + j * cw, has_alpha);
        proof {
            let prev_view = old(pixels)@.subrange(0, at as int) + pixel_bytes(
                Seq::new(j as nat, |i: int| px),
                has_alpha,
            ) + old(pixels)@.subrange(at + j * cw, old(pixels)@.len() as int);
            assert(Seq::new((j + 1) as nat, |i: int| px) =~= Seq::new(j as nat, |i: int| px)
                + seq![px]);
            lemma_pixel_bytes_add(Seq::new(j as nat, |i: int| px), seq![px], has_alpha);
            lemma_pixel_bytes_one(px, has_alpha);
            assert(pixels@ =~= old(pixels)@.subrange(0, at as int) + pixel_bytes(
                Seq::new((j + 1) as nat, |i: int| px),
                has_alpha,
            ) + old(pixels)@.subrange(at + (j + 1) * cw, old(pixels)@.len() as int));
        }
        j = j + 1;
    }
}

/// Decodes one single-pixel opcode at `bytes[bpos]` (cache reference,
/// delta, luma or literal — not a run), writing the pixel at byte position
/// `opos` and updating cache and previous pixel. Returns the opcode's byte
/// length, or `NotEnoughData` when the stream ends inside it, leaving all
/// state untouched.
#[verifier::rlimit(60)]
#[verifier::spinoff_prover]
fn dec_op_step(
    index: &mut Vec<Pixel>,
    px: &mut Pixel,
    bytes: &[u8],
    bpos: usize,
    pixels: &mut Vec<u8>,
    opos: usize,
    has_alpha: bool,
    Ghost(rem): Ghost<nat>,
) -> (res: Result<usize, DecodeError>)
    requires
        old(index)@.len() == 64,
        bpos < bytes@.len(),
        !(0xc0 <= bytes@[bpos as int] && bytes@[bpos as int] <= 0xfd),
        rem > 0,
        opos + channel_width(has_alpha) <= old(pixels)@.len(),
    ensures
        final(index)@.len() == 64,
        final(pixels)@.len() == old(pixels)@.len(),
        match res {
            Ok(c) => {
                &&& 1 <= c <= 5
                &&& bpos + c <= bytes@.len()
                &&& dec_ops(old(index)@, *old(px), bytes@.skip(bpos as int), rem, has_alpha)
                    == dec_wrap(
                    seq![*final(px)],
                    c as int,
                    dec_ops(
                        final(index)@,
                        *final(px),
                        bytes@.skip(bpos + c),
                        (rem - 1) as nat,
                        has_alpha,
                    ),
                )
                &&& final(pixels)@ == old(pixels)@.subrange(0, opos as int) + pixel_as_bytes(
                    *final(px),
                    has_alpha,
                ) + old(pixels)@.subrange(
                    opos + channel_width(has_alpha),
                    old(pixels)@.len() as int,
                )
            },
            Err(e) => {
                &&& e == DecodeError::NotEnoughData
                &&& dec_ops(old(index)@, *old(px), bytes@.skip(bpos as int), rem, has_alpha)
                    is None
                &&& final(pixels)@ == old(pixels)@
                &&& final(index)@ == old(index)@
                &&& *final(px) == *old(px)
            },
        },
{
    let bn = bytes.len();
    let b1 = bytes[bpos];
    let ghost tail = bytes@.skip(bpos as int);
    let ghost px0 = *px;
    let ghost index0 = index@;
    proof {
        assert(tail[0] == b1);
        assert(tail.len() == bn - bpos);
    }
    if b1 < 0x40 {
        // cache reference: the slot's pixel, cache untouched
        let v = index[b1 as usize];
        *px = v;
        px.write(pixels, opos, has_alpha);
        proof {
            assert(dec_ops(index0, px0, tail, rem, has_alpha) == dec_wrap(
                seq![v],
                1,
                dec_ops(index@, v, bytes@.skip(bpos + 1), (rem - 1) as nat, has_alpha),
            )) by {
                reveal(dec_ops);
                lemma_skip_skip(bytes@, bpos as int, 1);
            }
        }
        Ok(1)
    } else if b1 < 0x80 {
        // one-byte delta: three 2-bit deltas biased by 2
        let vr = (b1 / 16 % 4).wrapping_sub(2);
        let vg = (b1 / 4 % 4).wrapping_sub(2);
        let vb = (b1 % 4).wrapping_sub(2);
        px.add_rgb([vr, vg, vb]);
        let h = px.hash();
        let v = *px;
        index[h as usize] = v;
        px.write(pixels, opos, has_alpha);
        proof {
            assert(v == spec_add_rgb(
                px0,
                wsub8(((b1 as int / 16) % 4) as u8, 2),
                wsub8(((b1 as int / 4) % 4) as u8, 2),
                wsub8((b1 as int % 4) as u8, 2),
            ));
            assert(dec_ops(index0, px0, tail, rem, has_alpha) == dec_wrap(
                seq![v],
                1,
                dec_ops(index@, v, bytes@.skip(bpos + 1), (rem - 1) as nat, has_alpha),
            )) by {
                reveal(dec_ops);
                lemma_skip_skip(bytes@, bpos as int, 1);
            }
        }
        Ok(1)
    } else if b1 < 0xc0 {
        // two-byte luma delta
        if bn - bpos < 2 {
            proof {
                assert(dec_ops(index0, px0, tail, rem, has_alpha) is None) by {
                    reveal(dec_ops);
                }
            }
            return Err(DecodeError::NotEnoughData);
        }
        let b2 = bytes[bpos + 1];
        let vg = (b1 - 0x80).wrapping_sub(32);
        let vr = (b2 / 16).wrapping_sub(8).wrapping_add(vg);
        let vb = (b2 % 16).wrapping_sub(8).wrapping_add(vg);
        px.add_rgb([vr, vg, vb]);
        let h = px.hash();
        let v = *px;
        index[h as usize] = v;
        px.write(pixels, opos, has_alpha);
        proof {
            assert(tail[1] == b2);
            let svg = wsub8((b1 - 0x80) as u8, 32);
            assert(v == spec_add_rgb(
                px0,
                wadd8(wsub8((b2 as int / 16) as u8, 8), svg),
                svg,
                wadd8(wsub8((b2 as int % 16) as u8, 8), svg),
            ));
            assert(dec_ops(index0, px0, tail, rem, has_alpha) == dec_wrap(
                seq![v],
                2,
                dec_ops(index@, v, bytes@.skip(bpos + 2), (rem - 1) as nat, has_alpha),
            )) by {
                reveal(dec_ops);
                lemma_skip_skip(bytes@, bpos as int, 2);
            }
        }
        Ok(2)
    } else if b1 == 0xfe {
        // three-channel literal, alpha unchanged
        if bn - bpos < 4 {
            proof {
                assert(dec_ops(index0, px0, tail, rem, has_alpha) is None) by {
                    reveal(dec_ops);
                }
            }
            return Err(DecodeError::NotEnoughData);
        }
        let b2 = bytes[bpos + 1];
        let b3 = bytes[bpos + 2];
        let b4 = bytes[bpos + 3];
        px.set_rgb([b2, b3, b4]);
        let h = px.hash();
        let v = *px;
        index[h as usize] = v;
        px.write(pixels, opos, has_alpha);
        proof {
            assert(tail[1] == b2 && tail[2] == b3 && tail[3] == b4);
            assert(dec_ops(index0, px0, tail, rem, has_alpha) == dec_wrap(
                seq![v],
                4,
                dec_ops(index@, v, bytes@.skip(bpos + 4), (rem - 1) as nat, has_alpha),
            )) by {
                reveal(dec_ops);
                lemma_skip_skip(bytes@, bpos as int, 4);
            }
        }
        Ok(4)
    } else {
        // four-channel literal; without alpha the fifth byte is present but
        // discarded
        if bn - bpos < 5 {
            proof {
                assert(dec_ops(index0, px0, tail, rem, has_alpha) is None) by {
                    reveal(dec_ops);
                }
            }
            return Err(DecodeError::NotEnoughData);
        }
        let b2 = bytes[bpos + 1];
        let b3 = bytes[bpos + 2];
        let b4 = bytes[bpos + 3];
        let b5 = bytes[bpos + 4];
        if has_alpha {
            px.set_rgba([b2, b3, b4, b5]);
        } else {
            px.set_rgb([b2, b3, b4]);
        }
        let h = px.hash();
        let v = *px;
        index[h as usize] = v;
        px.write(pixels, opos, has_alpha);
        proof {
            assert(b1 == 0xff);
            assert(tail[1] == b2 && tail[2] == b3 && tail[3] == b4 && tail[4] == b5);
            assert(dec_ops(index0, px0, tail, rem, has_alpha) == dec_wrap(
                seq![v],
                5,
                dec_ops(index@, v, bytes@.skip(bpos + 5), (rem - 1) as nat, has_alpha),
            )) by {
                reveal(dec_ops);
                lemma_skip_skip(bytes@, bpos as int, 5);
            }
        }
        Ok(5)
    }
}

impl Qoi {
    /// Length in bytes of the raw pixel buffer this header describes.
    pub fn decoded_size(&self) -> (size: usize)
        requires
            self.spec_decoded_size() <= usize::MAX,
        ensures
            size == self.spec_decoded_size(),
    {
        proof {
            assert(self.width * self.height * 3 <= self.width * self.height
                * self.colors.spec_channels()) by (nonlinear_arith)
                requires self.width >= 0 && self.height >= 0 && self.colors.spec_channels() >= 3;
            assert(self.width * self.height <= self.width * self.height * 3) by (nonlinear_arith)
                requires self.width >= 0 && self.height >= 0;
        }
        self.width as usize * self.height as usize * self.colors.channels()
    }

    /// Parses the 14-byte header at the front of a stream.
    pub fn decode_header(bytes: &[u8]) -> (res: Result<Qoi, DecodeError>)
        ensures
            res == parse_header(bytes@),
    {
        let n = bytes.len();
        if n < HEADER_SIZE {
            return Err(DecodeError::NotEnoughData);
        }
        if !(bytes[0] == 0x71 && bytes[1] == 0x6f && bytes[2] == 0x69 && bytes[3] == 0x66) {
            return Err(DecodeError::InvalidMagic);
        }
        let w = (bytes[4] as u32) * 0x1000000 + (bytes[5] as u32) * 0x10000 + (bytes[6] as u32)
            * 0x100 + (bytes[7] as u32);
        let h = (bytes[8] as u32) * 0x1000000 + (bytes[9] as u32) * 0x10000 + (bytes[10] as u32)
            * 0x100 + (bytes[11] as u32);
        let channels = bytes[12];
        let colors = bytes[13];
        if channels == 3 && colors == 0 {
            Ok(Qoi { width: w, height: h, colors: Colors::Srgb })
        } else if channels == 4 && colors == 0 {
            Ok(Qoi { width: w, height: h, colors: Colors::SrgbLinA })
        } else if channels == 3 && colors == 1 {
            Ok(Qoi { width: w, height: h, colors: Colors::Rgb })
        } else if channels == 4 && colors == 1 {
            Ok(Qoi { width: w, height: h, colors: Colors::Rgba })
        } else if colors == 0 || colors == 1 {
            Err(DecodeError::InvalidChannelsValue)
        } else {
            Err(DecodeError::InvalidColorSpaceValue)
        }
    }

    /// Decodes a whole stream, header included, into `output`.
    pub fn decode(bytes: &[u8], output: &mut Vec<u8>) -> (res: Result<Qoi, DecodeError>)
        ensures
            final(output)@.len() == old(output)@.len(),
            match res {
                Ok(q) => spec_decode(bytes@, old(output)@.len() as int) matches Ok(p) && p.0 == q
                    && final(output)@ == pixel_bytes(p.1, q.colors.spec_has_alpha()) + old(
                    output,
                )@.skip(q.spec_decoded_size()),
                Err(e) => spec_decode(bytes@, old(output)@.len() as int) == Err::<
                    (Qoi, Seq<Pixel>),
                    DecodeError,
                >(e),
            },
    {
        let qoi = match Self::decode_header(bytes) {
            Ok(q) => q,
            Err(e) => {
                return Err(e);
            },
        };
        match qoi.decode_skip_header(bytes, HEADER_SIZE, output) {
            Ok(()) => Ok(qoi),
            Err(e) => Err(e),
        }
    }

    /// Decodes the opcode stream `bytes[from..]`, the header already parsed
    /// into `self`, into `output`.
    pub fn decode_skip_header(&self, bytes: &[u8], from: usize, output: &mut Vec<u8>) -> (res:
        Result<(), DecodeError>)
        requires
            from <= bytes@.len(),
        ensures
            final(output)@.len() == old(output)@.len(),
            ({
                let ha = self.colors.spec_has_alpha();
                let m = dec_range(
                    dec_index_init(ha),
                    opaque_pixel(),
                    0nat,
                    bytes@.skip(from as int),
                    (self.width * self.height) as nat,
                    ha,
                );
                match res {
                    Ok(()) => if self.width == 0 || self.height == 0 {
                        final(output)@ == old(output)@
                    } else {
                        &&& self.spec_decoded_size() <= old(output)@.len()
                        &&& m matches Some(r) && final(output)@ == pixel_bytes(r.0, ha) + old(
                            output,
                        )@.skip(self.spec_decoded_size())
                    },
                    Err(DecodeError::OutputIsTooSmall) => self.width > 0 && self.height > 0
                        && self.spec_decoded_size() > old(output)@.len() && final(output)@ == old(
                        output,
                    )@,
                    Err(DecodeError::NotEnoughData) => self.width > 0 && self.height > 0
                        && self.spec_decoded_size() <= old(output)@.len() && m is None,
                    Err(_) => false,
                }
            }),
    {
        if self.width == 0 || self.height == 0 {
            return Ok(());
        }
        let out_n = output.len();
        let ha = self.colors.has_alpha();
        let cw = self.colors.channels();
        // the exact payload size, rejecting headers whose size overflows the
        // machine: no real buffer could hold such a payload
        let px_len: usize = match (self.width as usize).checked_mul(self.height as usize) {
            None => {
                proof {
                    overflow_size_exceeds(self.width as int, self.height as int, cw as int, usize::MAX as int, old(output)@.len() as int);
                }
                return Err(DecodeError::OutputIsTooSmall);
            },
            Some(wh) => match wh.checked_mul(cw) {
                None => {
                    proof {
                        overflow_size_exceeds2(self.width as int, self.height as int, cw as int, usize::MAX as int, old(output)@.len() as int);
                    }
                    return Err(DecodeError::OutputIsTooSmall);
                },
                Some(s) => s,
            },
        };
        if output.len() < px_len {
            return Err(DecodeError::OutputIsTooSmall);
        }
        let mut index: Vec<Pixel> = Vec::new();
        let init_px = if ha {
            Pixel::new()
        } else {
            Pixel::new_opaque()
        };
        let mut i: usize = 0;
        while i < 64
            invariant
                i <= 64,
                index@.len() == i,
                index@ =~= dec_index_init(self.colors.spec_has_alpha()).take(i as int),
                init_px == if self.colors.spec_has_alpha() {
                    zero_pixel()
                } else {
                    opaque_pixel()
                },
            decreases 64 - i,
        {
            index.push(init_px);
            i = i + 1;
            proof {
                assert(index@ =~= dec_index_init(self.colors.spec_has_alpha()).take(i as int));
            }
        }
        proof {
            assert(index@ =~= dec_index_init(self.colors.spec_has_alpha()));
        }
        let mut px = Pixel::new_opaque();
        let mut run: usize = 0;
        let ghost need = (self.width * self.height) as nat;
        proof {
            assert(px_len == need * channel_width(self.colors.spec_has_alpha()));
            assert(px_len % cw == 0) by (nonlinear_arith)
                requires px_len == need * cw, cw > 0, need >= 0;
        }
        match Self::decode_range(&mut index, &mut px, &mut run, bytes, from, output, 0, px_len, ha)
        {
            Ok(_consumed) => {
                proof {
                    assert((px_len as int) / (cw as int) == need) by (nonlinear_arith)
                        requires px_len == need * cw, cw > 2, need >= 0;
                }
                Ok(())
            },
            Err(e) => {
                proof {
                    assert((px_len as int) / (cw as int) == need) by (nonlinear_arith)
                        requires px_len == need * cw, cw > 2, need >= 0;
                }
                Err(e)
            },
        }
    }

    /// Decodes opcodes from `bytes[from..]` until the window
    /// `pixels[start..end]` is full, resuming and leaving behind cache,
    /// previous pixel and pending run, so a stream can be decoded into
    /// bounded windows across several calls. Returns the count of opcode
    /// bytes consumed.
    #[verifier::rlimit(100)]
    #[verifier::spinoff_prover]
    pub fn decode_range(
        index: &mut Vec<Pixel>,
        ppx: &mut Pixel,
        prun: &mut usize,
        bytes: &[u8],
        from: usize,
        pixels: &mut Vec<u8>,
        start: usize,
        end: usize,
        has_alpha: bool,
    ) -> (res: Result<usize, DecodeError>)
        requires
            old(index)@.len() == 64,
            start <= end <= old(pixels)@.len(),
            from <= bytes@.len(),
            (end - start) % channel_width(has_alpha) == 0,
        ensures
            final(pixels)@.len() == old(pixels)@.len(),
            final(index)@.len() == 64,
            ({
                let ha = has_alpha;
                let need = ((end - start) as int / channel_width(ha)) as nat;
                let m = dec_range(
                    old(index)@,
                    *old(ppx),
                    *old(prun) as nat,
                    bytes@.skip(from as int),
                    need,
                    ha,
                );
                match res {
                    Ok(consumed) => m matches Some(r) && {
                        &&& consumed == r.4
                        &&& final(index)@ == r.1
                        &&& *final(ppx) == r.2
                        &&& *final(prun) == r.3
                        &&& final(pixels)@ == old(pixels)@.subrange(0, start as int) + pixel_bytes(
                            r.0,
                            ha,
                        ) + old(pixels)@.subrange(end as int, old(pixels)@.len() as int)
                    },
                    Err(e) => e == DecodeError::NotEnoughData && m is None,
                }
            }),
    {
        let pn = pixels.len();
        let bn = bytes.len();
        let cw: usize = if has_alpha { 4 } else { 3 };
        let total_px: usize = (end - start) / cw;
        let ghost need = total_px as nat;
        let ghost m = dec_range(
            index@,
            *ppx,
            *prun as nat,
            bytes@.skip(from as int),
            need,
            has_alpha,
        );
        proof {
            vstd::arithmetic::div_mod::lemma_fundamental_div_mod((end - start) as int, cw as int);
        }
        let mut px = *ppx;
        let mut opos = start;
        let mut left = total_px;
        let mut bpos = from;
        let ghost mut out: Seq<Pixel> = Seq::new(0nat, |i: int| px);
        proof {
            assert(pixels@ =~= pixels@.subrange(0, start as int) + pixel_bytes(out, has_alpha)
                + pixels@.subrange(start as int, pixels@.len() as int));
        }

        if *prun > 0 {
            let k = if *prun < total_px {
                *prun
            } else {
                total_px
            };
            proof {
                vstd::arithmetic::mul::lemma_mul_inequality(k as int, total_px as int, cw as int);
            }
            let ghost before = pixels@;
            fill_pixels(pixels, start, k, px, has_alpha);
            proof {
                lemma_window_advance(
                    old(pixels)@,
                    before,
                    pixels@,
                    start as int,
                    out,
                    Seq::new(k as nat, |i: int| px),
                    has_alpha,
                );
                out = out + Seq::new(k as nat, |i: int| px);
                assert(out =~= Seq::new(k as nat, |i: int| px));
            }
            opos = start + k * cw;
            left = total_px - k;
            if left == 0 {
                *prun = *prun - k;
                proof {
                    assert(k == need);
                    assert(out =~= Seq::new(need, |i: int| *old(ppx)));
                    assert(*old(prun) >= need);
                }
                return Ok(0);
            }
            *prun = 0;
        }
        proof {
            assert(*old(prun) as nat == out.len());
            assert(out =~= Seq::new(*old(prun) as nat, |i: int| *old(ppx)));
            if (*old(prun) as nat) < need {
                assert(m == dec_wrap(
                    out,
                    0,
                    dec_ops(
                        index@,
                        px,
                        bytes@.skip(from as int),
                        (need - out.len()) as nat,
                        has_alpha,
                    ),
                ));
            } else {
                // only an empty window falls through with its run pending
                assert(need == 0 && *old(prun) == 0);
                assert(dec_ops(index@, px, bytes@.skip(from as int), 0nat, has_alpha) == Some(
                    (Seq::<Pixel>::empty(), index@, px, 0nat, 0int),
                )) by {
                    reveal(dec_ops);
                }
                assert(Seq::new(0nat, |i: int| *old(ppx)) =~= out + Seq::<Pixel>::empty());
                assert(m == dec_wrap(
                    out,
                    0,
                    dec_ops(
                        index@,
                        px,
                        bytes@.skip(from as int),
                        (need - out.len()) as nat,
                        has_alpha,
                    ),
                ));
            }
        }

        while left > 0
            invariant
                index@.len() == 64,
                pixels@.len() == old(pixels)@.len(),
                old(pixels)@.len() <= usize::MAX,
                bytes@.len() == bn,
                bn <= usize::MAX,
                from <= bpos <= bn,
                cw == channel_width(has_alpha),
                start <= opos <= end <= pn,
                pn == old(pixels)@.len(),
                out.len() + left == need,
                need == ((end - start) as int / channel_width(has_alpha)) as nat,
                m == dec_range(
                    old(index)@,
                    *old(ppx),
                    *old(prun) as nat,
                    bytes@.skip(from as int),
                    need,
                    has_alpha,
                ),
                opos == start + out.len() * cw,
                end - opos == left * cw,
                pixels@ == old(pixels)@.subrange(0, start as int) + pixel_bytes(out, has_alpha)
                    + old(pixels)@.subrange(opos as int, old(pixels)@.len() as int),
                m == dec_wrap(
                    out,
                    (bpos - from) as int,
                    dec_ops(
                        index@,
                        px,
                        bytes@.skip(bpos as int),
                        (need - out.len()) as nat,
                        has_alpha,
                    ),
                ),
                *prun == 0,
            decreases left,
        {
            let ghost out0 = out;
            let ghost index0 = index@;
            let ghost px0 = px;
            let ghost bpos0 = bpos as int;
            let ghost rem = (need - out.len()) as nat;
            let ghost tail = bytes@.skip(bpos as int);
            proof {
                assert(rem > 0);
                vstd::arithmetic::mul::lemma_mul_inequality(1, left as int, cw as int);
                vstd::arithmetic::mul::lemma_mul_is_distributive_add_other_way(
                    cw as int,
                    out.len() as int,
                    1,
                );
            }
            if bpos >= bn {
                proof {
                    assert(tail.len() == 0);
                    assert(dec_ops(index@, px, tail, rem, has_alpha) is None) by {
                        reveal(dec_ops);
                    }
                }
                return Err(DecodeError::NotEnoughData);
            }
            let b1 = bytes[bpos];
            proof {
                assert(tail[0] == b1);
                assert(tail.len() == bn - bpos);
            }
            if 0xc0 <= b1 && b1 <= 0xfd {
                // run: repeat the previous pixel; a run reaching past the
                // window leaves the remainder as pending state
                let payload = (b1 - 0xc0) as usize;
                let ghost n_copies = payload + 1;
                let ghost before1 = pixels@;
                px.write(pixels, opos, has_alpha);
                proof {
                    lemma_pixel_bytes_one(px, has_alpha);
                    lemma_window_advance(
                        old(pixels)@,
                        before1,
                        pixels@,
                        start as int,
                        out0,
                        seq![px],
                        has_alpha,
                    );
                    out = out0 + seq![px];
                }
                opos = opos + cw;
                bpos = bpos + 1;
                left = left - 1;
                let k = if payload < left {
                    payload
                } else {
                    left
                };
                proof {
                    vstd::arithmetic::mul::lemma_mul_inequality(k as int, left as int, cw as int);
                    vstd::arithmetic::mul::lemma_mul_is_distributive_add_other_way(
                        cw as int,
                        out.len() as int,
                        k as int,
                    );
                }
                let ghost before2 = pixels@;
                fill_pixels(pixels, opos, k, px, has_alpha);
                proof {
                    let fills = Seq::new(k as nat, |i: int| px);
                    lemma_window_advance(
                        old(pixels)@,
                        before2,
                        pixels@,
                        start as int,
                        out,
                        fills,
                        has_alpha,
                    );
                    out = out + fills;
                }
                opos = opos + k * cw;
                left = left - k;
                proof {
                    let fills = Seq::new(k as nat, |i: int| px);
                    lemma_skip_skip(bytes@, bpos0, 1);
                    if payload > rem - 1 {
                        // the run reaches past the window
                        assert(left == 0);
                        assert(dec_ops(index0, px0, tail, rem, has_alpha) == Some(
                            (
                                Seq::new(rem, |i: int| px0),
                                index0,
                                px0,
                                (n_copies - rem) as nat,
                                1int,
                            ),
                        )) by {
                            reveal(dec_ops);
                        }
                        assert(Seq::new(rem, |i: int| px0) =~= seq![px] + fills);
                        assert(out =~= out0 + Seq::new(rem, |i: int| px0));
                    } else {
                        assert(k == payload);
                        assert(dec_ops(index0, px0, tail, rem, has_alpha) == dec_wrap(
                            Seq::new(n_copies as nat, |i: int| px0),
                            1,
                            dec_ops(
                                index0,
                                px0,
                                bytes@.skip(bpos0 + 1),
                                (rem - n_copies) as nat,
                                has_alpha,
                            ),
                        )) by {
                            reveal(dec_ops);
                        }
                        assert(Seq::new(n_copies as nat, |i: int| px0) =~= seq![px] + fills);
                        lemma_dec_wrap_assoc(
                            out0,
                            bpos0 - from,
                            Seq::new(n_copies as nat, |i: int| px0),
                            1,
                            dec_ops(
                                index0,
                                px0,
                                bytes@.skip(bpos0 + 1),
                                (rem - n_copies) as nat,
                                has_alpha,
                            ),
                        );
                        assert(out =~= out0 + Seq::new(n_copies as nat, |i: int| px0));
                    }
                }
                if left == 0 {
                    *prun = payload - k;
                    *ppx = px;
                    proof {
                        if payload > rem - 1 {
                            assert(m == Some(
                                (
                                    out,
                                    index@,
                                    px,
                                    (n_copies - rem) as nat,
                                    (bpos - from) as int,
                                ),
                            ));
                            assert(payload - k == n_copies - rem);
                        } else {
                            assert(rem == n_copies);
                            assert(dec_ops(
                                index@,
                                px,
                                bytes@.skip(bpos0 + 1),
                                0nat,
                                has_alpha,
                            ) == Some((
                                Seq::<Pixel>::empty(),
                                index@,
                                px,
                                0nat,
                                0int,
                            ))) by {
                                reveal(dec_ops);
                            }
                            assert(out + Seq::<Pixel>::empty() =~= out);
                            assert(payload - k == 0);
                        }
                    }
                    return Ok(bpos - from);
                }
            } else {
                let ghost before = pixels@;
                match dec_op_step(index, &mut px, bytes, bpos, pixels, opos, has_alpha, Ghost(rem))
                {
                    Err(e) => {
                        return Err(e);
                    },
                    Ok(c) => {
                        proof {
                            lemma_pixel_bytes_one(px, has_alpha);
                            lemma_window_advance(
                                old(pixels)@,
                                before,
                                pixels@,
                                start as int,
                                out0,
                                seq![px],
                                has_alpha,
                            );
                            out = out0 + seq![px];
                            lemma_dec_wrap_assoc(
                                out0,
                                bpos0 - from,
                                seq![px],
                                c as int,
                                dec_ops(
                                    index@,
                                    px,
                                    bytes@.skip(bpos0 + c),
                                    (rem - 1) as nat,
                                    has_alpha,
                                ),
                            );
                        }
                        opos = opos + cw;
                        bpos = bpos + c;
                        left = left - 1;
                    },
                }
            }
        }
        *ppx = px;
        proof {
            assert(out.len() == need);
            assert(dec_ops(index@, px, bytes@.skip(bpos as int), 0nat, has_alpha) == Some(
                (Seq::<Pixel>::empty(), index@, px, 0nat, 0int),
            )) by {
                reveal(dec_ops);
            }
            assert(out + Seq::<Pixel>::empty() =~= out);
        }
        Ok(bpos - from)
    }
    /// Decodes a whole stream into a freshly allocated buffer of exactly
    /// the decoded size.
    pub fn decode_alloc(bytes: &[u8]) -> (res: Result<(Qoi, Vec<u8>), DecodeError>)
        ensures
            match res {
                Ok((q, v)) => spec_decode(bytes@, usize::MAX as int) matches Ok(p) && p.0 == q
                    && v@ == pixel_bytes(p.1, q.colors.spec_has_alpha()),
                Err(e) => spec_decode(bytes@, usize::MAX as int) == Err::<
                    (Qoi, Seq<Pixel>),
                    DecodeError,
                >(e),
            },
    {
        let qoi = match Self::decode_header(bytes) {
            Ok(q) => q,
            Err(e) => {
                return Err(e);
            },
        };
        if qoi.width == 0 || qoi.height == 0 {
            let output: Vec<u8> = Vec::new();
            proof {
                lemma_dec_range_len(
                    dec_index_init(qoi.colors.spec_has_alpha()),
                    opaque_pixel(),
                    0nat,
                    bytes@.skip(HEADER_SIZE as int),
                    (qoi.width * qoi.height) as nat,
                    qoi.colors.spec_has_alpha(),
                );
                assert(pixel_bytes(Seq::<Pixel>::empty(), qoi.colors.spec_has_alpha()) =~= Seq::<
                    u8,
                >::empty());
            }
            return Ok((qoi, output));
        }
        let cw = qoi.colors.channels();
        let size: usize = match (qoi.width as usize).checked_mul(qoi.height as usize) {
            None => {
                proof {
                    overflow_size_exceeds(qoi.width as int, qoi.height as int, cw as int, usize::MAX as int, usize::MAX as int);
                }
                return Err(DecodeError::OutputIsTooSmall);
            },
            Some(wh) => match wh.checked_mul(cw) {
                None => {
                    proof {
                        overflow_size_exceeds2(qoi.width as int, qoi.height as int, cw as int, usize::MAX as int, usize::MAX as int);
                    }
                    return Err(DecodeError::OutputIsTooSmall);
                },
                Some(s) => s,
            },
        };
        let mut output: Vec<u8> = Vec::new();
        let mut i: usize = 0;
        while i < size
            invariant
                i <= size,
                output@.len() == i,
            decreases size - i,
        {
            output.push(0);
            i = i + 1;
        }
        match qoi.decode_skip_header(bytes, HEADER_SIZE, &mut output) {
            Ok(()) => {
                proof {
                    let ha = qoi.colors.spec_has_alpha();
                    let m = dec_range(
                        dec_index_init(ha),
                        opaque_pixel(),
                        0nat,
                        bytes@.skip(HEADER_SIZE as int),
                        (qoi.width * qoi.height) as nat,
                        ha,
                    );
                    lemma_dec_range_len(
                        dec_index_init(ha),
                        opaque_pixel(),
                        0nat,
                        bytes@.skip(HEADER_SIZE as int),
                        (qoi.width * qoi.height) as nat,
                        ha,
                    );
                    match m {
                        Some(r) => {
                            assert(pixel_bytes(r.0, ha).len() == size) by (nonlinear_arith)
                                requires
                                    pixel_bytes(r.0, ha).len() == r.0.len() * channel_width(ha),
                                    r.0.len() == qoi.width * qoi.height,
                                    size == qoi.width * qoi.height * channel_width(ha),
                            ;
                            assert(pixel_bytes(r.0, ha) + Seq::<u8>::empty() =~= pixel_bytes(
                                r.0,
                                ha,
                            ));
                            assert(output@ =~= pixel_bytes(r.0, ha));
                        },
                        None => {},
                    }
                }
                Ok((qoi, output))
            },
            Err(e) => Err(e),
        }
    }
}

/// If the pixel count alone overflows the machine, the payload exceeds any
/// buffer length.
proof fn overflow_size_exceeds(w: int, h: int, cw: int, max: int, out_len: int)
    requires
        w * h > max,
        cw >= 3,
        w >= 0,
        h >= 0,
        out_len <= max,
    ensures
        w * h * cw > out_len,
{
    assert(w * h * cw >= w * h) by (nonlinear_arith)
        requires w * h >= 0, cw >= 1;
}

/// If the payload size overflows the machine, it exceeds any buffer length.
proof fn overflow_size_exceeds2(w: int, h: int, cw: int, max: int, out_len: int)
    requires
        w * h * cw > max,
        out_len <= max,
    ensures
        w * h * cw > out_len,
{
}

} // verus!
