//! The encoder: writes the header, folds the classifier ladder over the
//! pixels, and closes the stream with the trailer. Every function is
//! verified against the spec-level encoder in `model`.

use vstd::prelude::*;
use crate::qoi::header::{Qoi, HEADER_SIZE, PADDING};
use crate::qoi::model::{
    enc_fits, enc_index_init, enc_prepend, enc_range, enc_step, flush_bytes,
    lemma_byte_window_advance, lemma_enc_bounds, lemma_enc_prepend_assoc, literal_bytes,
    opaque_pixel, seq_pixels, trailer,
};
use crate::qoi::pixel::{channel_width, spec_read, Pixel};

verus! {

/// Why an encode failed.
#[derive(Clone, Copy, Debug, PartialEq, Eq, Structural, Hash)]
pub enum EncodeError {
    /// The pixel buffer is shorter than the header implies.
    NotEnoughPixelData,
    /// The destination buffer cannot hold the encoded stream.
    OutputIsTooSmall,
}

/// The whole encoded stream of an image: header, opcodes, trailer.
pub open spec fn spec_encode(q: Qoi, pixels: Seq<u8>) -> Seq<u8> {
    crate::qoi::header::header_bytes(q) + enc_range(
        enc_index_init(),
        opaque_pixel(),
        0nat,
        seq_pixels(pixels, q.colors.spec_has_alpha()),
        q.colors.spec_has_alpha(),
    ).0 + trailer()
}

/// Writes one byte at position `at`.
fn put_byte(output: &mut Vec<u8>, at: usize, b: u8)
    requires
        at < old(output)@.len(),
    ensures
        final(output)@ == old(output)@.subrange(0, at as int) + seq![b] + old(output)@.subrange(
            at + 1,
            old(output)@.len() as int,
        ),
{
    let n = output.len();  // binds the buffer length, so offsets below stay in machine range
    output[at] = b;
    proof {
        assert(output@ =~= old(output)@.subrange(0, at as int) + seq![b] + old(output)@.subrange(
            at + 1,
            old(output)@.len() as int,
        ));
    }
}

/// Flushes a pending run at position `at`: nothing for an empty run, a
/// cache reference or zero-payload run opcode for a single repeat, and a
/// run opcode otherwise. Returns the bytes written.
fn flush_run(index: &Vec<Pixel>, prev: &Pixel, run: usize, output: &mut Vec<u8>, at: usize) -> (n:
    usize)
    requires
        index@.len() == 64,
        run <= 61,
        at + 1 <= old(output)@.len(),
    ensures
        n == flush_bytes(index@, *prev, run as nat).len(),
        n <= 1,
        final(output)@ == old(output)@.subrange(0, at as int) + flush_bytes(
            index@,
            *prev,
            run as nat,
        ) + old(output)@.subrange(at + n, old(output)@.len() as int),
{
    if run == 0 {
        proof {
            assert(output@ =~= output@.subrange(0, at as int) + flush_bytes(
                index@,
                *prev,
                0nat,
            ) + output@.subrange(at as int, output@.len() as int));
        }
        0
    } else if run == 1 {
        let h = prev.hash();
        let z = Pixel::new();
        let slot = index[0x35];
        let b = if h == 0x35 && slot == z {
            0xc0
        } else {
            h
        };
        put_byte(output, at, b);
        1
    } else {
        put_byte(output, at, 0xc0 + (run as u8) - 1);
        1
    }
}

/// Emits the delta or literal bytes for a pixel that missed the cache, at
/// position `at`. Returns the bytes written.
fn emit_literal(px: &Pixel, prev: &Pixel, output: &mut Vec<u8>, at: usize, has_alpha: bool) -> (n:
    usize)
    requires
        at + 5 <= old(output)@.len(),
    ensures
        n == literal_bytes(*px, *prev, has_alpha).len(),
        1 <= n <= 5,
        final(output)@ == old(output)@.subrange(0, at as int) + literal_bytes(
            *px,
            *prev,
            has_alpha,
        ) + old(output)@.subrange(at + n, old(output)@.len() as int),
{
    let n = output.len();  // binds the buffer length, so offsets below stay in machine range
    if has_alpha && prev.a() != px.a() {
        output[at] = 0xff;
        output[at + 1] = px.r;
        output[at + 2] = px.g;
        output[at + 3] = px.b;
        output[at + 4] = px.a;
        proof {
            assert(output@ =~= old(output)@.subrange(0, at as int) + literal_bytes(
                *px,
                *prev,
                has_alpha,
            ) + old(output)@.subrange(at + 5, old(output)@.len() as int));
        }
        5
    } else {
        let v = px.var(prev);
        match v.diff() {
            Some(d) => {
                output[at] = d;
                proof {
                    assert(output@ =~= old(output)@.subrange(0, at as int) + literal_bytes(
                        *px,
                        *prev,
                        has_alpha,
                    ) + old(output)@.subrange(at + 1, old(output)@.len() as int));
                }
                1
            },
            None => {
                match v.luma() {
                    Some(l) => {
                        output[at] = l[0];
                        output[at + 1] = l[1];
                        proof {
                            assert(output@ =~= old(output)@.subrange(0, at as int)
                                + literal_bytes(*px, *prev, has_alpha) + old(output)@.subrange(
                                at + 2,
                                old(output)@.len() as int,
                            ));
                        }
                        2
                    },
                    None => {
                        output[at] = 0xfe;
                        output[at + 1] = px.r;
                        output[at + 2] = px.g;
                        output[at + 3] = px.b;
                        proof {
                            assert(output@ =~= old(output)@.subrange(0, at as int)
                                + literal_bytes(*px, *prev, has_alpha) + old(output)@.subrange(
                                at + 4,
                                old(output)@.len() as int,
                            ));
                        }
                        4
                    },
                }
            },
        }
    }
}

/// Handles one pixel that differs from its predecessor: flushes the
/// pending run, then emits a cache reference or delta or literal bytes,
/// entering the pixel into the cache in the latter case. Returns the bytes
/// written.
#[verifier::spinoff_prover]
fn enc_mismatch_step(
    index: &mut Vec<Pixel>,
    prev: Pixel,
    run: usize,
    px: Pixel,
    output: &mut Vec<u8>,
    at: usize,
    has_alpha: bool,
    is_last: bool,
) -> (n: usize)
    requires
        old(index)@.len() == 64,
        run <= 61,
        at + 8 <= old(output)@.len(),
        px != prev,
    ensures
        final(index)@.len() == 64,
        final(output)@.len() == old(output)@.len(),
        ({
            let s = enc_step(old(index)@, prev, run as nat, px, is_last, has_alpha);
            &&& n == s.0.len()
            &&& n <= 7
            &&& final(index)@ == s.1
            &&& final(output)@ == old(output)@.subrange(0, at as int) + s.0 + old(
                output,
            )@.subrange(at + n, old(output)@.len() as int)
        }),
{
    let on = output.len();  // binds the buffer length, so offsets below stay in machine range
    let ghost index0 = index@;
    let ghost oldv = output@;
    let n1 = flush_run(index, &prev, run, output, at);
    let ghost fl = flush_bytes(index0, prev, run as nat);
    let ghost mid = output@;
    let h = px.hash();
    let slot = index[h as usize];
    if slot == px {
        put_byte(output, at + n1, h);
        proof {
            let s = enc_step(index0, prev, run as nat, px, is_last, has_alpha);
            assert(s.0 == fl + seq![h]);
            lemma_byte_window_advance(oldv, mid, output@, at as int, fl, seq![h]);
        }
        n1 + 1
    } else {
        index[h as usize] = px;
        let n2 = emit_literal(&px, &prev, output, at + n1, has_alpha);
        proof {
            let s = enc_step(index0, prev, run as nat, px, is_last, has_alpha);
            assert(s.0 == fl + literal_bytes(px, prev, has_alpha));
            lemma_byte_window_advance(
                oldv,
                mid,
                output@,
                at as int,
                fl,
                literal_bytes(px, prev, has_alpha),
            );
        }
        n1 + n2
    }
}

impl Qoi {
    /// Writes the 14 header bytes at the front of `output`.
    fn write_header(&self, output: &mut Vec<u8>)
        requires
            HEADER_SIZE <= old(output)@.len(),
        ensures
            final(output)@ == crate::qoi::header::header_bytes(*self) + old(output)@.skip(
                HEADER_SIZE as int,
            ),
    {
        let n = output.len();  // binds the buffer length, so offsets below stay in machine range
        output[0] = 0x71;
        output[1] = 0x6f;
        output[2] = 0x69;
        output[3] = 0x66;
        let w = self.width;
        output[4] = (w / 0x1000000) as u8;
        output[5] = ((w / 0x10000) % 256) as u8;
        output[6] = ((w / 0x100) % 256) as u8;
        output[7] = (w % 256) as u8;
        let h = self.height;
        output[8] = (h / 0x1000000) as u8;
        output[9] = ((h / 0x10000) % 256) as u8;
        output[10] = ((h / 0x100) % 256) as u8;
        output[11] = (h % 256) as u8;
        output[12] = self.colors.channels() as u8;
        output[13] = if self.colors.has_alpha() {
            match self.colors {
                crate::qoi::header::Colors::SrgbLinA => 0,
                _ => 1,
            }
        } else {
            match self.colors {
                crate::qoi::header::Colors::Srgb => 0,
                _ => 1,
            }
        };
        proof {
            assert(output@ =~= crate::qoi::header::header_bytes(*self) + old(output)@.skip(
                HEADER_SIZE as int,
            ));
        }
    }

    /// Writes the 8 trailer bytes at position `at`.
    fn write_trailer(output: &mut Vec<u8>, at: usize)
        requires
            at + PADDING <= old(output)@.len(),
        ensures
            final(output)@ == old(output)@.subrange(0, at as int) + trailer() + old(
                output,
            )@.subrange(at + PADDING, old(output)@.len() as int),
    {
        let n = output.len();  // binds the buffer length, so offsets below stay in machine range
        output[at] = 0;
        output[at + 1] = 0;
        output[at + 2] = 0;
        output[at + 3] = 0;
        output[at + 4] = 0;
        output[at + 5] = 0;
        output[at + 6] = 0;
        output[at + 7] = 1;
        proof {
            assert(output@ =~= old(output)@.subrange(0, at as int) + trailer() + old(
                output,
            )@.subrange(at + PADDING, old(output)@.len() as int));
        }
    }

    /// Encodes the pixels of `pixels` (whose length must be a whole number
    /// of pixels) as opcodes into `output[from..]`, resuming and leaving
    /// behind cache, previous pixel and pending run, so an image can be
    /// encoded in bounded slices across several calls. Returns the bytes
    /// written.
    #[verifier::rlimit(100)]
    #[verifier::spinoff_prover]
    pub fn encode_range(
        index: &mut Vec<Pixel>,
        px_prev: &mut Pixel,
        run: &mut usize,
        pixels: &[u8],
        output: &mut Vec<u8>,
        from: usize,
        has_alpha: bool,
    ) -> (res: Result<usize, EncodeError>)
        requires
            old(index)@.len() == 64,
            *old(run) <= 61,
            pixels@.len() as int % channel_width(has_alpha) == 0,
            from <= old(output)@.len(),
        ensures
            final(output)@.len() == old(output)@.len(),
            final(index)@.len() == 64,
            *final(run) <= 61,
            ({
                let pxs = seq_pixels(pixels@, has_alpha);
                let e = enc_range(old(index)@, *old(px_prev), *old(run) as nat, pxs, has_alpha);
                let avail = old(output)@.len() - from;
                match res {
                    Ok(n) => {
                        &&& enc_fits(
                            old(index)@,
                            *old(px_prev),
                            *old(run) as nat,
                            pxs,
                            avail,
                            has_alpha,
                        )
                        &&& n == e.0.len()
                        &&& from + n <= old(output)@.len()
                        &&& final(output)@ == old(output)@.subrange(0, from as int) + e.0 + old(
                            output,
                        )@.subrange(from + n, old(output)@.len() as int)
                        &&& final(index)@ == e.1
                        &&& *final(px_prev) == e.2
                        &&& *final(run) == e.3
                    },
                    Err(err) => err == EncodeError::OutputIsTooSmall && !enc_fits(
                        old(index)@,
                        *old(px_prev),
                        *old(run) as nat,
                        pxs,
                        avail,
                        has_alpha,
                    ),
                }
            }),
    {
        let pln = pixels.len();
        let on = output.len();
        let cw: usize = if has_alpha { 4 } else { 3 };
        let npx: usize = pln / cw;
        let ghost pxs = seq_pixels(pixels@, has_alpha);
        let ghost e0 = enc_range(index@, *px_prev, *run as nat, pxs, has_alpha);
        let ghost f0 = enc_fits(index@, *px_prev, *run as nat, pxs, (on - from) as int, has_alpha);
        proof {
            vstd::arithmetic::div_mod::lemma_fundamental_div_mod(pln as int, cw as int);
        }
        let mut prev = *px_prev;
        let mut runc = *run;
        let mut i: usize = 0;
        let mut opos = from;
        let ghost mut written: Seq<u8> = Seq::empty();
        proof {
            assert(output@ =~= output@.subrange(0, from as int) + written + output@.subrange(
                from as int,
                output@.len() as int,
            ));
            assert(pxs.skip(0) =~= pxs);
        }
        while i < npx
            invariant
                index@.len() == 64,
                runc <= 61,
                *run == *old(run),
                *run <= 61,
                i <= npx,
                npx * cw == pixels@.len(),
                pixels@.len() == pln,
                npx == pxs.len(),
                pxs == seq_pixels(pixels@, has_alpha),
                cw == channel_width(has_alpha),
                from <= opos <= on,
                on == old(output)@.len(),
                output@.len() == on,
                opos == from + written.len(),
                output@ == old(output)@.subrange(0, from as int) + written + old(
                    output,
                )@.subrange(opos as int, old(output)@.len() as int),
                e0 == enc_prepend(
                    written,
                    enc_range(index@, prev, runc as nat, pxs.skip(i as int), has_alpha),
                ),
                f0 == enc_fits(
                    index@,
                    prev,
                    runc as nat,
                    pxs.skip(i as int),
                    on - from - written.len(),
                    has_alpha,
                ),
                e0 == enc_range(old(index)@, *old(px_prev), *old(run) as nat, pxs, has_alpha),
                f0 == enc_fits(
                    old(index)@,
                    *old(px_prev),
                    *old(run) as nat,
                    pxs,
                    (on - from) as int,
                    has_alpha,
                ),
            decreases npx - i,
        {
            let ghost index_c = index@;
            let ghost prev_c = prev;
            let ghost runc_c = runc as nat;
            let ghost written0 = written;
            let ghost rest = pxs.skip(i as int);
            proof {
                assert(rest.len() == npx - i);
                vstd::arithmetic::mul::lemma_mul_inequality(i as int + 1, npx as int, cw as int);
                vstd::arithmetic::mul::lemma_mul_is_distributive_add_other_way(
                    cw as int,
                    i as int,
                    1,
                );
            }
            if on - opos <= 7 {
                proof {
                    assert(!f0);
                }
                return Err(EncodeError::OutputIsTooSmall);
            }
            let mut px = Pixel::new();
            px.read(pixels, i * cw, has_alpha);
            let is_last = i + 1 == npx;
            proof {
                assert(rest[0] == pxs[i as int]);
                assert(pxs[i as int] == spec_read(pixels@, i * cw, has_alpha));
                assert(px == rest[0]);
                assert(rest.skip(1) =~= pxs.skip(i + 1));
                assert((rest.len() == 1) == is_last);
            }
            let ghost s = enc_step(index_c, prev_c, runc_c, px, is_last, has_alpha);
            proof {
                assert(enc_range(index_c, prev_c, runc_c, rest, has_alpha) == enc_prepend(
                    s.0,
                    enc_range(s.1, s.2, s.3, pxs.skip(i + 1), has_alpha),
                ));
                assert(enc_fits(index_c, prev_c, runc_c, rest, on - opos, has_alpha) == (on - opos
                    > 7 && enc_fits(
                    s.1,
                    s.2,
                    s.3,
                    pxs.skip(i + 1),
                    on - opos - s.0.len(),
                    has_alpha,
                )));
            }
            if px == prev {
                if runc == 61 || is_last {
                    let ghost before = output@;
                    put_byte(output, opos, 0xc0 + (runc as u8));
                    proof {
                        assert(s.0 == seq![(0xc0 + runc_c) as u8]);
                        lemma_byte_window_advance(
                            old(output)@,
                            before,
                            output@,
                            from as int,
                            written0,
                            s.0,
                        );
                        written = written0 + s.0;
                        lemma_enc_prepend_assoc(
                            written0,
                            s.0,
                            enc_range(s.1, s.2, s.3, pxs.skip(i + 1), has_alpha),
                        );
                    }
                    opos = opos + 1;
                    runc = 0;
                } else {
                    runc = runc + 1;
                    proof {
                        assert(s.0 == Seq::<u8>::empty());
                        assert(written0 + s.0 =~= written0);
                        lemma_enc_prepend_assoc(
                            written0,
                            s.0,
                            enc_range(s.1, s.2, s.3, pxs.skip(i + 1), has_alpha),
                        );
                    }
                }
            } else {
                let ghost before = output@;
                let nb = enc_mismatch_step(index, prev, runc, px, output, opos, has_alpha, is_last);
                proof {
                    lemma_byte_window_advance(
                        old(output)@,
                        before,
                        output@,
                        from as int,
                        written0,
                        s.0,
                    );
                    written = written0 + s.0;
                    lemma_enc_prepend_assoc(
                        written0,
                        s.0,
                        enc_range(s.1, s.2, s.3, pxs.skip(i + 1), has_alpha),
                    );
                }
                opos = opos + nb;
                runc = 0;
                prev = px;
            }
            i = i + 1;
        }
        *px_prev = prev;
        *run = runc;
        proof {
            assert(pxs.skip(npx as int) =~= Seq::<Pixel>::empty());
            assert(enc_range(index@, prev, runc as nat, pxs.skip(npx as int), has_alpha) == (
                Seq::<u8>::empty(),
                index@,
                prev,
                runc as nat,
            ));
            assert(written + Seq::<u8>::empty() =~= written);
            assert(e0.0 == written);
        }
        Ok(opos - from)
    }

    /// The largest stream this header can produce: a worst-case literal
    /// and one spare byte per pixel, plus header and trailer.
    pub open spec fn spec_encoded_size_limit(self) -> int {
        self.width * self.height * (channel_width(self.colors.spec_has_alpha()) + 1) + HEADER_SIZE
            + PADDING
    }

    /// The largest stream this header can produce.
    pub fn encoded_size_limit(&self) -> (limit: usize)
        requires
            self.spec_encoded_size_limit() <= usize::MAX,
        ensures
            limit == self.spec_encoded_size_limit(),
    {
        let f: usize = if self.colors.has_alpha() {
            5
        } else {
            4
        };
        proof {
            assert(self.width * self.height <= self.width * self.height * f) by (nonlinear_arith)
                requires self.width >= 0 && self.height >= 0 && f >= 1;
            assert(self.width * self.height * 4 <= self.width * self.height * f)
                by (nonlinear_arith)
                requires self.width >= 0 && self.height >= 0 && f >= 4;
        }
        self.width as usize * self.height as usize * f + HEADER_SIZE + PADDING
    }

    /// Encodes a whole image: header, opcodes, trailer, into `output`.
    /// Returns the total bytes written.
    #[verifier::rlimit(60)]
    #[verifier::spinoff_prover]
    pub fn encode(&self, pixels: &[u8], output: &mut Vec<u8>) -> (res: Result<usize, EncodeError>)
        ensures
            final(output)@.len() == old(output)@.len(),
            ({
                let px_len = self.spec_decoded_size();
                let ha = self.colors.spec_has_alpha();
                let pxs = seq_pixels(pixels@.subrange(0, px_len), ha);
                let body = enc_range(enc_index_init(), opaque_pixel(), 0nat, pxs, ha).0;
                match res {
                    Ok(n) => {
                        &&& old(output)@.len() > HEADER_SIZE
                        &&& pixels@.len() >= px_len
                        &&& n == HEADER_SIZE + body.len() + PADDING
                        &&& n <= old(output)@.len()
                        &&& n == spec_encode(*self, pixels@.subrange(0, px_len)).len()
                        &&& final(output)@ == spec_encode(*self, pixels@.subrange(0, px_len))
                            + old(output)@.skip(n as int)
                    },
                    Err(EncodeError::NotEnoughPixelData) => old(output)@.len() > HEADER_SIZE
                        && pixels@.len() < px_len,
                    Err(EncodeError::OutputIsTooSmall) => old(output)@.len() <= HEADER_SIZE || (
                    pixels@.len() >= px_len && (!enc_fits(
                        enc_index_init(),
                        opaque_pixel(),
                        0nat,
                        pxs,
                        old(output)@.len() - HEADER_SIZE,
                        ha,
                    ) || old(output)@.len() < HEADER_SIZE + body.len() + PADDING)),
                }
            }),
    {
        let on = output.len();
        if on <= HEADER_SIZE {
            return Err(EncodeError::OutputIsTooSmall);
        }
        self.write_header(output);
        let ha = self.colors.has_alpha();
        let cw = self.colors.channels();
        let pln = pixels.len();
        let px_len: usize = match (self.width as usize).checked_mul(self.height as usize) {
            None => {
                proof {
                    assert(self.width * self.height * cw >= self.width * self.height)
                        by (nonlinear_arith)
                        requires self.width >= 0 && self.height >= 0 && cw >= 1;
                }
                return Err(EncodeError::NotEnoughPixelData);
            },
            Some(wh) => match wh.checked_mul(cw) {
                None => {
                    return Err(EncodeError::NotEnoughPixelData);
                },
                Some(s) => s,
            },
        };
        if pln < px_len {
            return Err(EncodeError::NotEnoughPixelData);
        }
        let sub = vstd::slice::slice_subrange(pixels, 0, px_len);
        let mut index: Vec<Pixel> = Vec::new();
        let mut j: usize = 0;
        while j < 64
            invariant
                j <= 64,
                index@.len() == j,
                index@ =~= enc_index_init().take(j as int),
            decreases 64 - j,
        {
            index.push(Pixel::new());
            j = j + 1;
            proof {
                assert(index@ =~= enc_index_init().take(j as int));
            }
        }
        proof {
            assert(index@ =~= enc_index_init());
            assert(px_len % cw == 0) by (nonlinear_arith)
                requires px_len == self.width * self.height * cw, cw > 0;
        }
        let mut prev = Pixel::new_opaque();
        let mut runv: usize = 0;
        let ghost after_header = output@;
        let size = match Self::encode_range(
            &mut index,
            &mut prev,
            &mut runv,
            sub,
            output,
            HEADER_SIZE,
            ha,
        ) {
            Ok(s) => s,
            Err(e) => {
                return Err(e);
            },
        };
        if on - HEADER_SIZE - size < PADDING {
            return Err(EncodeError::OutputIsTooSmall);
        }
        let ghost pxs = seq_pixels(pixels@.subrange(0, px_len as int), ha);
        let ghost body = enc_range(enc_index_init(), opaque_pixel(), 0nat, pxs, ha).0;
        let ghost before_trailer = output@;
        Self::write_trailer(output, HEADER_SIZE + size);
        proof {
            let hb = crate::qoi::header::header_bytes(*self);
            assert(after_header.subrange(0, HEADER_SIZE as int) =~= hb);
            assert(after_header.subrange(HEADER_SIZE + size, on as int) =~= old(output)@.subrange(
                HEADER_SIZE + size,
                on as int,
            ));
            assert(before_trailer =~= hb + body + old(output)@.subrange(
                HEADER_SIZE + size,
                on as int,
            ));
            assert(output@ =~= hb + body + trailer() + old(output)@.skip(
                HEADER_SIZE + size + PADDING,
            ));
            assert(output@ =~= spec_encode(*self, pixels@.subrange(0, px_len as int))
                + old(output)@.skip(HEADER_SIZE + size + PADDING));
        }
        Ok(size + PADDING + HEADER_SIZE)
    }

    /// Encodes a whole image into a freshly allocated buffer, trimmed to
    /// the encoded size. Fails only when the pixel buffer is too short.
    pub fn encode_alloc(&self, pixels: &[u8]) -> (res: Result<Vec<u8>, EncodeError>)
        requires
            self.spec_encoded_size_limit() <= usize::MAX,
        ensures
            ({
                let px_len = self.spec_decoded_size();
                match res {
                    Ok(v) => pixels@.len() >= px_len && v@ == spec_encode(
                        *self,
                        pixels@.subrange(0, px_len),
                    ),
                    Err(EncodeError::NotEnoughPixelData) => pixels@.len() < px_len,
                    Err(_) => false,
                }
            }),
    {
        let limit = self.encoded_size_limit();
        let mut output: Vec<u8> = Vec::new();
        let mut i: usize = 0;
        while i < limit
            invariant
                i <= limit,
                output@.len() == i,
            decreases limit - i,
        {
            output.push(0);
            i = i + 1;
        }
        let ghost ha = self.colors.spec_has_alpha();
        let ghost px_len = self.spec_decoded_size();
        let ghost pxs = seq_pixels(pixels@.subrange(0, px_len), ha);
        proof {
            if pixels@.len() >= px_len {
                assert(pxs.len() == self.width * self.height) by (nonlinear_arith)
                    requires
                        pxs.len() == px_len / channel_width(ha),
                        px_len == self.width * self.height * channel_width(ha),
                        channel_width(ha) > 0,
                ;
                assert((channel_width(ha) + 1) * pxs.len() == self.width * self.height * (
                channel_width(ha) + 1)) by (nonlinear_arith)
                    requires pxs.len() == self.width * self.height;
                lemma_enc_bounds(
                    enc_index_init(),
                    opaque_pixel(),
                    0nat,
                    pxs,
                    limit - HEADER_SIZE,
                    ha,
                );
            }
        }
        match self.encode(pixels, &mut output) {
            Ok(size) => {
                output.truncate(size);
                proof {
                    assert(output@ =~= spec_encode(*self, pixels@.subrange(0, px_len)));
                }
                Ok(output)
            },
            Err(e) => {
                proof {
                    if pixels@.len() >= px_len {
                        assert(false);
                    }
                }
                Err(e)
            },
        }
    }
}

} // verus!
