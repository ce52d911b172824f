//! The codec's laws: decoding inverts encoding, for every image and both
//! pixel formats, and the header survives its own round trip. The proofs
//! walk the encoder and decoder state machines in lockstep.

use vstd::prelude::*;
use crate::qoi::decode::{parse_header, spec_decode};
use crate::qoi::encode::spec_encode;
use crate::qoi::header::{be32, header_bytes, Qoi};
use crate::qoi::model::{
    dec_index_init, dec_ops, dec_range, dec_wrap, enc_index_init, enc_range, enc_step,
    flush_bytes, lemma_dec_wrap_assoc, literal_bytes, opaque_pixel, pixel_bytes, seq_pixels,
    trailer, zero_pixel,
};
use crate::qoi::pixel::{
    channel_width, diff_byte, diff_fits, luma_b, luma_fits, luma_g, luma_r, pixel_hash,
    spec_add_rgb, spec_read, spec_var, wadd8, wsub8, Pixel,
};

verus! {

/// The decoder's cache agrees with the encoder's on every slot the encoder
/// has written; a still-empty slot holds the all-zero pixel on the encoder
/// side and the decoder's initial value.
pub open spec fn index_match(ei: Seq<Pixel>, di: Seq<Pixel>, has_alpha: bool) -> bool {
    &&& ei.len() == 64
    &&& di.len() == 64
    &&& forall|i: int|
        0 <= i < 64 ==> (di[i] == ei[i] || (ei[i] == zero_pixel() && di[i] == dec_index_init(
            has_alpha,
        )[i]))
}

/// What holds of every encoder state reachable from the start of a stream:
/// the pending run fits an opcode, and the previous pixel either sits in
/// its cache slot or is the untouched starting pixel with its slot empty.
pub open spec fn enc_inv(ei: Seq<Pixel>, prev: Pixel, run: nat, has_alpha: bool) -> bool {
    &&& ei.len() == 64
    &&& run <= 61
    &&& (ei[pixel_hash(prev)] == prev || (prev == opaque_pixel() && ei[0x35] == zero_pixel()))
    &&& (!has_alpha ==> prev.a == 255)
}

/// Without alpha every pixel of the image carries alpha 255.
pub open spec fn pxs_alpha_ok(pxs: Seq<Pixel>, has_alpha: bool) -> bool {
    !has_alpha ==> forall|i: int| 0 <= i < pxs.len() ==> pxs[i].a == 255
}

/// Subtracting what was added comes back, modulo 256.
proof fn lemma_w_cancel_sub(x: u8, y: u8)
    ensures
        wsub8(wadd8(x, y), y) == x,
{
}

/// Adding a difference back to its base recovers the pixel, modulo 256.
proof fn lemma_w_cancel_add(x: u8, y: u8)
    ensures
        wadd8(y, wsub8(x, y)) == x,
{
}

/// The green-relative biasing of the luma opcode cancels out.
proof fn lemma_w_cancel_luma(a: u8, g: u8)
    ensures
        wadd8(wsub8(wsub8(wadd8(a, 8), g), 8), g) == a,
{
}

/// Unpacking the three 2-bit fields of a delta byte.
proof fn lemma_pack4(fr: int, fg: int, fb: int)
    requires
        0 <= fr < 4,
        0 <= fg < 4,
        0 <= fb < 4,
    ensures
        0x40 <= 0x40 + fr * 16 + fg * 4 + fb < 0x80,
        ((0x40 + fr * 16 + fg * 4 + fb) / 16) % 4 == fr,
        ((0x40 + fr * 16 + fg * 4 + fb) / 4) % 4 == fg,
        (0x40 + fr * 16 + fg * 4 + fb) % 4 == fb,
{
    let b = 0x40 + fr * 16 + fg * 4 + fb;
    vstd::arithmetic::div_mod::lemma_div_multiples_vanish_fancy(4 + fr, fg * 4 + fb, 16);
    assert(b == 16 * (4 + fr) + (fg * 4 + fb));
    assert(b / 16 == 4 + fr);
    vstd::arithmetic::div_mod::lemma_mod_multiples_vanish(1, fr, 4);
    assert((4 + fr) % 4 == fr);
    vstd::arithmetic::div_mod::lemma_div_multiples_vanish_fancy(16 + fr * 4 + fg, fb, 4);
    assert(b == 4 * (16 + fr * 4 + fg) + fb);
    assert(b / 4 == 16 + fr * 4 + fg);
    vstd::arithmetic::div_mod::lemma_mod_multiples_vanish(4 + fr, fg, 4);
    assert((16 + fr * 4 + fg) % 4 == fg);
    vstd::arithmetic::div_mod::lemma_mod_multiples_vanish(16 + fr * 4 + fg, fb, 4);
    assert(b % 4 == fb);
}

/// Unpacking the two 4-bit fields of the second luma byte.
proof fn lemma_pack2(lr: int, lb: int)
    requires
        0 <= lr < 16,
        0 <= lb < 16,
    ensures
        0 <= lr * 16 + lb < 256,
        (lr * 16 + lb) / 16 == lr,
        (lr * 16 + lb) % 16 == lb,
{
    vstd::arithmetic::div_mod::lemma_div_multiples_vanish_fancy(lr, lb, 16);
    vstd::arithmetic::div_mod::lemma_mod_multiples_vanish(lr, lb, 16);
}

/// Decoding the bytes that flush a pending run yields exactly that many
/// repeats of the previous pixel and moves on.
#[verifier::spinoff_prover]
proof fn lemma_flush_decode(
    ei: Seq<Pixel>,
    di: Seq<Pixel>,
    prev: Pixel,
    run: nat,
    tail: Seq<u8>,
    need: nat,
    has_alpha: bool,
)
    requires
        index_match(ei, di, has_alpha),
        enc_inv(ei, prev, run, has_alpha),
        1 <= run <= need,
    ensures
        dec_ops(di, prev, flush_bytes(ei, prev, run) + tail, need, has_alpha) == dec_wrap(
            Seq::new(run, |i: int| prev),
            1,
            dec_ops(di, prev, tail, (need - run) as nat, has_alpha),
        ),
{
    reveal(dec_ops);
    let fl = flush_bytes(ei, prev, run);
    let bytes = fl + tail;
    assert(fl.len() == 1);
    assert(bytes.skip(1) =~= tail);
    if run == 1 {
        if pixel_hash(prev) == 0x35 && ei[0x35] == zero_pixel() {
            // flushed as a run opcode with payload zero: one repeat
            assert(bytes[0] == 0xc0);
            assert(Seq::new(1nat, |i: int| prev) =~= seq![prev]);
        } else {
            // flushed as a cache reference to the previous pixel's slot
            let h = pixel_hash(prev);
            assert(ei[h] == prev) by {
                assert(pixel_hash(opaque_pixel()) == 0x35);
            }
            assert(di[h] == prev) by {
                if !has_alpha {
                    assert(prev.a == 255);
                    assert(ei[h] != zero_pixel());
                } else {
                    if ei[h] == zero_pixel() {
                        assert(di[h] == dec_index_init(has_alpha)[h]);
                    }
                }
            }
            assert(bytes[0] == h as u8);
            assert((h as u8) < 0x40);
            assert(Seq::new(1nat, |i: int| prev) =~= seq![prev]);
        }
    } else {
        // flushed as one run opcode carrying all pending repeats
        assert(bytes[0] == (0xc0 + run - 1) as u8);
        assert(0xc0 <= bytes[0] <= 0xfd);
        assert((bytes[0] - 0xc0) + 1 == run);
    }
}

/// Decoding the bytes the encoder emits for one pixel that differs from
/// its predecessor (after any flush) yields that pixel and keeps the two
/// caches in step.
#[verifier::rlimit(100)]
#[verifier::spinoff_prover]
proof fn lemma_px_decode(
    ei: Seq<Pixel>,
    di: Seq<Pixel>,
    prev: Pixel,
    px: Pixel,
    run: nat,
    is_last: bool,
    tail: Seq<u8>,
    need: nat,
    has_alpha: bool,
)
    requires
        index_match(ei, di, has_alpha),
        enc_inv(ei, prev, 0nat, has_alpha),
        px != prev,
        !has_alpha ==> px.a == 255,
        need >= 1,
    ensures
        ({
            let s = enc_step(ei, prev, 0nat, px, is_last, has_alpha);
            let di2 = if ei[pixel_hash(px)] == px {
                di
            } else {
                di.update(pixel_hash(px), px)
            };
            &&& dec_ops(di, prev, s.0 + tail, need, has_alpha) == dec_wrap(
                seq![px],
                s.0.len() as int,
                dec_ops(di2, px, tail, (need - 1) as nat, has_alpha),
            )
            &&& index_match(s.1, di2, has_alpha)
            &&& enc_inv(s.1, px, 0nat, has_alpha)
        }),
{
    reveal(dec_ops);
    let s = enc_step(ei, prev, 0nat, px, is_last, has_alpha);
    let h = pixel_hash(px);
    assert(flush_bytes(ei, prev, 0nat) =~= Seq::<u8>::empty());
    if ei[h] == px {
        // cache reference
        let bytes = s.0 + tail;
        assert(s.0 =~= seq![h as u8]);
        assert(bytes[0] == h as u8 && (h as u8) < 0x40);
        assert(bytes.skip(1) =~= tail);
        assert(di[h] == px) by {
            if !has_alpha {
                assert(px.a == 255);
                assert(ei[h] != zero_pixel());
            } else {
                if ei[h] == zero_pixel() {
                    assert(di[h] == dec_index_init(has_alpha)[h]);
                }
            }
        }
    } else {
        let lb = literal_bytes(px, prev, has_alpha);
        let bytes = s.0 + tail;
        assert(s.0 =~= lb);
        assert(bytes =~= lb + tail);
        let di2 = di.update(h, px);
        if has_alpha && px.a != prev.a {
            // full four-channel literal
            assert(bytes[0] == 0xff);
            assert(bytes.len() >= 5);
            assert(bytes[1] == px.r && bytes[2] == px.g && bytes[3] == px.b && bytes[4] == px.a);
            let px_d = Pixel { r: px.r, g: px.g, b: px.b, a: px.a };
            assert(px_d == px);
            assert(bytes.skip(5) =~= tail);
        } else {
            assert(px.a == prev.a) by {
                if !has_alpha {
                    assert(prev.a == 255 && px.a == 255);
                }
            }
            let v = spec_var(px, prev);
            if diff_fits(v) {
                // one-byte delta
                let fr = wadd8(v.r, 2) as int;
                let fg = wadd8(v.g, 2) as int;
                let fb = wadd8(v.b, 2) as int;
                lemma_pack4(fr, fg, fb);
                let b1 = diff_byte(v);
                assert(b1 == 0x40 + fr * 16 + fg * 4 + fb);
                assert(bytes[0] == b1 && 0x40 <= b1 < 0x80);
                assert((b1 as int / 16) % 4 == fr && (b1 as int / 4) % 4 == fg && b1 as int % 4
                    == fb);
                let px_d = spec_add_rgb(
                    prev,
                    wsub8(fr as u8, 2),
                    wsub8(fg as u8, 2),
                    wsub8(fb as u8, 2),
                );
                assert(px_d == px) by {
                    lemma_w_cancel_sub(v.r, 2);
                    lemma_w_cancel_sub(v.g, 2);
                    lemma_w_cancel_sub(v.b, 2);
                    lemma_w_cancel_add(px.r, prev.r);
                    lemma_w_cancel_add(px.g, prev.g);
                    lemma_w_cancel_add(px.b, prev.b);
                }
                assert(bytes.skip(1) =~= tail);
            } else if luma_fits(v) {
                // two-byte luma delta
                let lg = luma_g(v) as int;
                let lr = luma_r(v) as int;
                let lbb = luma_b(v) as int;
                lemma_pack2(lr, lbb);
                let b1 = (0x80 + lg) as u8;
                let b2 = (lr * 16 + lbb) as u8;
                assert(bytes[0] == b1 && 0x80 <= b1 < 0xc0);
                assert(bytes.len() >= 2 && bytes[1] == b2);
                assert(b2 as int / 16 == lr && b2 as int % 16 == lbb);
                assert(b1 - 0x80 == lg);
                let svg = wsub8((b1 - 0x80) as u8, 32);
                assert(svg == v.g) by {
                    lemma_w_cancel_sub(v.g, 32);
                }
                let vr_d = wadd8(wsub8(lr as u8, 8), svg);
                let vb_d = wadd8(wsub8(lbb as u8, 8), svg);
                assert(vr_d == v.r && vb_d == v.b) by {
                    lemma_w_cancel_luma(v.r, v.g);
                    lemma_w_cancel_luma(v.b, v.g);
                }
                let px_d = spec_add_rgb(prev, vr_d, svg, vb_d);
                assert(px_d == px) by {
                    lemma_w_cancel_add(px.r, prev.r);
                    lemma_w_cancel_add(px.g, prev.g);
                    lemma_w_cancel_add(px.b, prev.b);
                }
                assert(bytes.skip(2) =~= tail);
            } else {
                // three-channel literal, alpha unchanged
                assert(bytes[0] == 0xfe);
                assert(bytes.len() >= 4);
                assert(bytes[1] == px.r && bytes[2] == px.g && bytes[3] == px.b);
                let px_d = Pixel { r: px.r, g: px.g, b: px.b, a: prev.a };
                assert(px_d == px);
                assert(bytes.skip(4) =~= tail);
            }
        }
        assert(index_match(ei.update(h, px), di2, has_alpha));
    }
}

/// Decoding what the encoder emits from any reachable pair of states
/// yields the pending run and then exactly the encoded pixels, consuming
/// exactly the emitted bytes, whatever follows them.
#[verifier::rlimit(100)]
#[verifier::spinoff_prover]
proof fn lemma_range_round_trip(
    ei: Seq<Pixel>,
    di: Seq<Pixel>,
    prev: Pixel,
    run: nat,
    pxs: Seq<Pixel>,
    extra: Seq<u8>,
    has_alpha: bool,
)
    requires
        index_match(ei, di, has_alpha),
        enc_inv(ei, prev, run, has_alpha),
        pxs_alpha_ok(pxs, has_alpha),
        pxs.len() == 0 ==> run == 0,
    ensures
        ({
            let e = enc_range(ei, prev, run, pxs, has_alpha);
            dec_ops(di, prev, e.0 + extra, (run + pxs.len()) as nat, has_alpha) matches Some(r)
                && r.0 == Seq::new(run, |i: int| prev) + pxs && r.3 == 0 && r.4 == e.0.len()
        }),
    decreases pxs.len(),
{
    let e = enc_range(ei, prev, run, pxs, has_alpha);
    if pxs.len() == 0 {
        assert(e.0 =~= Seq::<u8>::empty());
        assert(e.0 + extra =~= extra);
        assert(dec_ops(di, prev, extra, 0nat, has_alpha) == Some(
            (Seq::<Pixel>::empty(), di, prev, 0nat, 0int),
        )) by {
            reveal(dec_ops);
        }
        assert(Seq::new(0nat, |i: int| prev) + pxs =~= Seq::<Pixel>::empty());
    } else {
        let px = pxs[0];
        let is_last = pxs.len() == 1;
        let rest = pxs.subrange(1, pxs.len() as int);
        let s = enc_step(ei, prev, run, px, is_last, has_alpha);
        let er = enc_range(s.1, s.2, s.3, rest, has_alpha);
        assert(e.0 == s.0 + er.0);
        let need = (run + pxs.len()) as nat;
        if px == prev {
            if run == 61 || is_last {
                // the run is flushed, covering this pixel too
                let b1 = (0xc0 + run) as u8;
                assert(s.0 =~= seq![b1]);
                assert((s.0 + er.0 + extra)[0] == b1);
                assert(0xc0 <= b1 <= 0xfd);
                assert((b1 - 0xc0) + 1 == run + 1);
                assert((s.0 + er.0 + extra).skip(1) =~= er.0 + extra);
                lemma_range_round_trip(ei, di, prev, 0nat, rest, extra, has_alpha);
                assert(dec_ops(di, prev, s.0 + er.0 + extra, need, has_alpha) == dec_wrap(
                    Seq::new((run + 1) as nat, |i: int| prev),
                    1,
                    dec_ops(di, prev, er.0 + extra, (need - run - 1) as nat, has_alpha),
                )) by {
                    reveal(dec_ops);
                }
                assert(e.0 + extra =~= s.0 + er.0 + extra);
                assert(Seq::new((run + 1) as nat, |i: int| prev) + (Seq::new(0nat, |i: int| prev)
                    + rest) =~= Seq::new(run, |i: int| prev) + pxs);
            } else {
                // the run keeps accumulating; nothing is emitted
                assert(s.0 =~= Seq::<u8>::empty());
                assert(e.0 =~= er.0);
                assert(s.3 == run + 1 && s.3 <= 61);
                lemma_range_round_trip(ei, di, prev, (run + 1) as nat, rest, extra, has_alpha);
                assert(e.0 + extra =~= er.0 + extra);
                assert(Seq::new((run + 1) as nat, |i: int| prev) + rest =~= Seq::new(
                    run,
                    |i: int| prev,
                ) + pxs);
            }
        } else {
            // flush the pending run, then emit this pixel
            let fl = flush_bytes(ei, prev, run);
            let h = pixel_hash(px);
            let s0 = enc_step(ei, prev, 0nat, px, is_last, has_alpha);
            assert(s.0 == fl + s0.0 && s.1 == s0.1 && s.2 == s0.2 && s.3 == s0.3) by {
                assert(flush_bytes(ei, prev, 0nat) =~= Seq::<u8>::empty());
                if run == 0 {
                    assert(fl =~= Seq::<u8>::empty());
                    assert(fl + s0.0 =~= s0.0);
                    assert(Seq::<u8>::empty() + (if ei[h] == px {
                        seq![h as u8]
                    } else {
                        literal_bytes(px, prev, has_alpha)
                    }) =~= (if ei[h] == px {
                        seq![h as u8]
                    } else {
                        literal_bytes(px, prev, has_alpha)
                    }));
                }
            }
            let di2 = if ei[h] == px {
                di
            } else {
                di.update(h, px)
            };
            lemma_px_decode(ei, di, prev, px, run, is_last, er.0 + extra, (need - run) as nat, has_alpha);
            lemma_range_round_trip(s.1, di2, px, 0nat, rest, extra, has_alpha);
            // peel the flush bytes, then the pixel's own bytes
            if run == 0 {
                assert(e.0 + extra =~= s0.0 + (er.0 + extra));
                assert(dec_ops(di, prev, e.0 + extra, need, has_alpha) == dec_wrap(
                    seq![px],
                    s0.0.len() as int,
                    dec_ops(di2, px, er.0 + extra, (need - 1) as nat, has_alpha),
                ));
                lemma_dec_wrap_assoc(
                    seq![px],
                    s0.0.len() as int,
                    Seq::new(0nat, |i: int| px),
                    0,
                    dec_ops(di2, px, er.0 + extra, (need - 1) as nat, has_alpha),
                );
                assert(Seq::new(run, |i: int| prev) + pxs =~= seq![px] + (Seq::new(
                    0nat,
                    |i: int| px,
                ) + rest));
            } else {
                lemma_flush_decode(ei, di, prev, run, s0.0 + (er.0 + extra), need, has_alpha);
                assert(e.0 + extra =~= fl + (s0.0 + (er.0 + extra)));
                assert(dec_ops(di, prev, e.0 + extra, need, has_alpha) == dec_wrap(
                    Seq::new(run, |i: int| prev),
                    1,
                    dec_ops(di, prev, s0.0 + (er.0 + extra), (need - run) as nat, has_alpha),
                ));
                lemma_dec_wrap_assoc(
                    Seq::new(run, |i: int| prev),
                    1,
                    seq![px],
                    s0.0.len() as int,
                    dec_ops(di2, px, er.0 + extra, (need - run - 1) as nat, has_alpha),
                );
                lemma_dec_wrap_assoc(
                    Seq::new(run, |i: int| prev) + seq![px],
                    1 + s0.0.len() as int,
                    Seq::new(0nat, |i: int| px),
                    0,
                    dec_ops(di2, px, er.0 + extra, (need - run - 1) as nat, has_alpha),
                );
                assert(fl.len() == 1);
                assert(Seq::new(run, |i: int| prev) + pxs =~= (Seq::new(run, |i: int| prev)
                    + seq![px]) + (Seq::new(0nat, |i: int| px) + rest));
            }
        }
    }
}

/// A 32-bit value survives the trip through its four big-endian bytes.
proof fn lemma_be32_round(x: u32)
    ensures
        crate::qoi::decode::be32_val(
            be32(x)[0],
            be32(x)[1],
            be32(x)[2],
            be32(x)[3],
        ) == x,
{
    let d = 0x100;
    vstd::arithmetic::div_mod::lemma_fundamental_div_mod(x as int, d);
    vstd::arithmetic::div_mod::lemma_fundamental_div_mod(x as int / d, d);
    vstd::arithmetic::div_mod::lemma_fundamental_div_mod(x as int / d / d, d);
    vstd::arithmetic::div_mod::lemma_div_denominator(x as int, d, d);
    vstd::arithmetic::div_mod::lemma_div_denominator(x as int, d * d, d);
    vstd::arithmetic::div_mod::lemma_div_denominator(x as int / d, d, d);
    assert(x as int / 0x100 / 0x100 == x as int / 0x10000);
    assert(x as int / 0x10000 / 0x100 == x as int / 0x1000000);
    assert(x as int / 0x1000000 < 0x100) by {
        vstd::arithmetic::div_mod::lemma_multiply_divide_lt(x as int, 0x1000000, 0x100);
    }
    assert(x as int == (x as int / 0x1000000) * 0x1000000 + ((x as int / 0x10000) % 0x100)
        * 0x10000 + ((x as int / 0x100) % 0x100) * 0x100 + (x as int % 0x100)) by (nonlinear_arith)
        requires
            x as int == d * (x as int / d) + x as int % d,
            x as int / d == d * (x as int / d / d) + (x as int / d) % d,
            x as int / d / d == d * (x as int / d / d / d) + (x as int / d / d) % d,
            x as int / d / d == x as int / 0x10000,
            x as int / d / d / d == x as int / 0x1000000,
            d == 0x100,
    ;
}

/// Parsing the header bytes of a header gives that header back.
pub proof fn lemma_header_round_trip(q: Qoi)
    ensures
        parse_header(header_bytes(q)) == Ok::<Qoi, crate::qoi::decode::DecodeError>(q),
{
    let hb = header_bytes(q);
    assert(hb.len() == 14);
    lemma_be32_round(q.width);
    lemma_be32_round(q.height);
    assert(hb[4] == be32(q.width)[0] && hb[5] == be32(q.width)[1] && hb[6] == be32(q.width)[2]
        && hb[7] == be32(q.width)[3]);
    assert(hb[8] == be32(q.height)[0] && hb[9] == be32(q.height)[1] && hb[10] == be32(
        q.height,
    )[2] && hb[11] == be32(q.height)[3]);
}

/// Reading the pixels of a buffer and flattening them again gives the
/// buffer back.
pub proof fn lemma_pixel_bytes_inverse(bytes: Seq<u8>, has_alpha: bool)
    requires
        bytes.len() as int % channel_width(has_alpha) == 0,
    ensures
        pixel_bytes(seq_pixels(bytes, has_alpha), has_alpha) == bytes,
{
    let cw = channel_width(has_alpha);
    let pxs = seq_pixels(bytes, has_alpha);
    assert(pxs.len() * cw == bytes.len()) by (nonlinear_arith)
        requires
            pxs.len() == bytes.len() as int / cw,
            bytes.len() as int % cw == 0,
            cw > 0,
            bytes.len() as int == cw * (bytes.len() as int / cw) + bytes.len() as int % cw,
    {
        vstd::arithmetic::div_mod::lemma_fundamental_div_mod(bytes.len() as int, cw);
    }
    assert forall|j: int| 0 <= j < bytes.len() implies pixel_bytes(pxs, has_alpha)[j] == bytes[j]
        by {
        vstd::arithmetic::div_mod::lemma_fundamental_div_mod(j, cw);
        vstd::arithmetic::div_mod::lemma_multiply_divide_lt(j, pxs.len() as int, cw);
        assert(0 <= j / cw < pxs.len());
        assert(pxs[j / cw] == spec_read(bytes, (j / cw) * cw, has_alpha));
        assert((j / cw) * cw + j % cw == j);
    }
    assert(pixel_bytes(pxs, has_alpha) =~= bytes);
}

/// Round-trip: decoding an encoded image, with any output buffer at least
/// as large as the raw pixel buffer, gives back the header and exactly the
/// original pixels.
pub proof fn lemma_round_trip(q: Qoi, pixels: Seq<u8>, out_len: int)
    requires
        pixels.len() == q.spec_decoded_size(),
        out_len >= q.spec_decoded_size(),
    ensures
        ({
            let pxs = seq_pixels(pixels, q.colors.spec_has_alpha());
            &&& spec_decode(spec_encode(q, pixels), out_len) == Ok::<
                (Qoi, Seq<Pixel>),
                crate::qoi::decode::DecodeError,
            >((q, pxs))
            &&& pixel_bytes(pxs, q.colors.spec_has_alpha()) == pixels
        }),
{
    let ha = q.colors.spec_has_alpha();
    let cw = channel_width(ha);
    let pxs = seq_pixels(pixels, ha);
    let body = enc_range(enc_index_init(), opaque_pixel(), 0nat, pxs, ha).0;
    let stream = spec_encode(q, pixels);
    let hb = header_bytes(q);
    assert(pixels.len() as int % cw == 0) by (nonlinear_arith)
        requires pixels.len() == q.width * q.height * cw, cw > 0;
    lemma_pixel_bytes_inverse(pixels, ha);
    assert(pxs.len() == q.width * q.height) by (nonlinear_arith)
        requires
            pxs.len() == pixels.len() as int / cw,
            pixels.len() == q.width * q.height * cw,
            cw > 0,
    ;
    // the stream opens with the header bytes, so parsing finds the header
    lemma_header_round_trip(q);
    assert(stream.len() >= 14);
    assert forall|i: int| 0 <= i < 14 implies stream[i] == hb[i] by {}
    assert(parse_header(stream) == Ok::<Qoi, crate::qoi::decode::DecodeError>(q));
    if q.width == 0 || q.height == 0 {
        assert(pxs.len() == 0);
        assert(pxs =~= Seq::<Pixel>::empty());
        assert(seq![] =~= pxs);
    } else {
        assert(q.spec_decoded_size() <= out_len);
        // the payload decodes by the range round trip
        assert(index_match(enc_index_init(), dec_index_init(ha), ha));
        assert(enc_inv(enc_index_init(), opaque_pixel(), 0nat, ha));
        assert(pxs_alpha_ok(pxs, ha));
        lemma_range_round_trip(
            enc_index_init(),
            dec_index_init(ha),
            opaque_pixel(),
            0nat,
            pxs,
            trailer(),
            ha,
        );
        assert(stream.skip(14) =~= body + trailer());
        let m = dec_ops(dec_index_init(ha), opaque_pixel(), body + trailer(), pxs.len(), ha);
        let need = (q.width * q.height) as nat;
        assert(need == pxs.len());
        match m {
            Some(r) => {
                assert(r.0 == Seq::new(0nat, |i: int| opaque_pixel()) + pxs);
                assert(Seq::new(0nat, |i: int| opaque_pixel()) + pxs =~= pxs);
                let dr = dec_range(
                    dec_index_init(ha),
                    opaque_pixel(),
                    0nat,
                    stream.skip(14),
                    need,
                    ha,
                );
                assert(need >= 1) by (nonlinear_arith)
                    requires q.width >= 1, q.height >= 1, need == q.width * q.height;
                assert(dr == dec_wrap(Seq::new(0nat, |i: int| opaque_pixel()), 0, m));
                match dr {
                    Some(r2) => {
                        assert(r2.0 =~= pxs);
                    },
                    None => {
                        assert(false);
                    },
                }
            },
            None => {
                assert(false);
            },
        }
    }
}

/// The byte form of a run of `q62` full run opcodes and a remainder.
pub open spec fn run_opcodes(n: nat) -> Seq<u8> {
    Seq::new(n / 62, |i: int| 0xfdu8) + if n % 62 > 0 {
        seq![(0xc0 + n % 62 - 1) as u8]
    } else {
        Seq::empty()
    }
}

/// On a constant image equal to the starting pixel, the encoder emits one
/// full run opcode per 62 pixels and one remainder opcode, nothing else.
proof fn lemma_const_run(
    index: Seq<Pixel>,
    prev: Pixel,
    run: nat,
    n: nat,
    has_alpha: bool,
)
    requires
        run <= 61,
        n >= 1,
    ensures
        enc_range(index, prev, run, Seq::new(n, |i: int| prev), has_alpha).0 == run_opcodes(
            (run + n) as nat,
        ),
        enc_range(index, prev, run, Seq::new(n, |i: int| prev), has_alpha).3 == 0,
    decreases n,
{
    let pxs = Seq::new(n, |i: int| prev);
    let s = enc_step(index, prev, run, pxs[0], n == 1, has_alpha);
    let rest = pxs.subrange(1, pxs.len() as int);
    assert(rest =~= Seq::new((n - 1) as nat, |i: int| prev));
    let t = (run + n) as int;
    if n == 1 {
        // the stream ends: the whole pending run goes out in one opcode
        assert(s.0 =~= seq![(0xc0 + run) as u8]);
        assert(rest.len() == 0);
        assert(enc_range(s.1, s.2, s.3, rest, has_alpha) == (Seq::<u8>::empty(), s.1, s.2, s.3));
        assert(s.3 == 0);
        assert(enc_range(index, prev, run, pxs, has_alpha).0 =~= s.0);
        if run == 61 {
            assert(t == 62 && t / 62 == 1 && t % 62 == 0);
            assert(run_opcodes(t as nat) =~= seq![0xfdu8]);
        } else {
            assert(t / 62 == 0 && t % 62 == t) by {
                vstd::arithmetic::div_mod::lemma_basic_div(t, 62);
                vstd::arithmetic::div_mod::lemma_small_mod(t as nat, 62);
            }
            assert(run_opcodes(t as nat) =~= seq![(0xc0 + run) as u8]);
        }
    } else if run == 61 {
        // a full run opcode covering 62 pixels, then start over
        assert(s.0 =~= seq![0xfdu8]);
        lemma_const_run(index, prev, 0nat, (n - 1) as nat, has_alpha);
        assert(t - 62 == 0 + (n - 1));
        assert(t / 62 == (t - 62) / 62 + 1 && t % 62 == (t - 62) % 62) by {
            vstd::arithmetic::div_mod::lemma_div_multiples_vanish_quotient(1, t - 62, 62);
            vstd::arithmetic::div_mod::lemma_div_plus_one(t - 62, 62);
            vstd::arithmetic::div_mod::lemma_mod_multiples_vanish(1, t - 62, 62);
        }
        assert(enc_range(index, prev, run, pxs, has_alpha).0 =~= seq![0xfdu8] + run_opcodes(
            (t - 62) as nat,
        ));
        assert(Seq::new(t as nat / 62, |i: int| 0xfdu8) =~= seq![0xfdu8] + Seq::new(
            (t - 62) as nat / 62,
            |i: int| 0xfdu8,
        ));
        assert(seq![0xfdu8] + run_opcodes((t - 62) as nat) =~= run_opcodes(t as nat));
    } else {
        // keep accumulating
        assert(s.0 =~= Seq::<u8>::empty());
        lemma_const_run(index, prev, (run + 1) as nat, (n - 1) as nat, has_alpha);
        assert(enc_range(index, prev, run, pxs, has_alpha).0 =~= run_opcodes(t as nat));
    }
}

/// A constant image of the opaque starting pixel encodes to run opcodes
/// alone: one full run opcode per 62 pixels, then one remainder opcode.
pub proof fn lemma_constant_image_runs(n: nat, has_alpha: bool)
    requires
        n >= 1,
    ensures
        enc_range(
            enc_index_init(),
            opaque_pixel(),
            0nat,
            Seq::new(n, |i: int| opaque_pixel()),
            has_alpha,
        ).0 == run_opcodes(n),
{
    lemma_const_run(enc_index_init(), opaque_pixel(), 0nat, n, has_alpha);
}

} // verus!
