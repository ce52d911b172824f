//! The codec as a mathematical state machine. One step of the encoder maps a
//! state (cache, previous pixel, pending run) and a pixel to emitted bytes
//! and the next state; the decoder folds over opcodes. The executable
//! encoder and decoder are verified against these functions, and the
//! round-trip theorem is proved about them.

use vstd::prelude::*;
use crate::qoi::pixel::{
    channel_width, diff_byte, diff_fits, luma_bytes, luma_fits, pixel_as_bytes, pixel_hash,
    spec_add_rgb, spec_read, spec_var, wadd8, wsub8, Pixel,
};

verus! {

/// The all-zero pixel: the initial content of the encoder's cache.
pub open spec fn zero_pixel() -> Pixel {
    Pixel { r: 0, g: 0, b: 0, a: 0 }
}

/// Opaque black: the previous pixel at the start of a stream.
pub open spec fn opaque_pixel() -> Pixel {
    Pixel { r: 0, g: 0, b: 0, a: 255 }
}

/// The encoder's initial cache: 64 all-zero slots.
pub open spec fn enc_index_init() -> Seq<Pixel> {
    Seq::new(64, |i: int| zero_pixel())
}

/// The decoder's initial cache. Without alpha a slot reads back as an
/// opaque pixel, since three-channel pixels carry alpha 255 implicitly.
pub open spec fn dec_index_init(has_alpha: bool) -> Seq<Pixel> {
    Seq::new(
        64,
        |i: int|
            if has_alpha {
                zero_pixel()
            } else {
                opaque_pixel()
            },
    )
}

/// The pixels of a flat byte buffer.
pub open spec fn seq_pixels(bytes: Seq<u8>, has_alpha: bool) -> Seq<Pixel> {
    Seq::new(
        (bytes.len() as int / channel_width(has_alpha)) as nat,
        |i: int| spec_read(bytes, i * channel_width(has_alpha), has_alpha),
    )
}

/// A pixel sequence as a flat byte buffer.
pub open spec fn pixel_bytes(pxs: Seq<Pixel>, has_alpha: bool) -> Seq<u8> {
    Seq::new(
        (pxs.len() * channel_width(has_alpha)) as nat,
        |j: int|
            {
                let p = pxs[j / channel_width(has_alpha)];
                let c = j % channel_width(has_alpha);
                if c == 0 {
                    p.r
                } else if c == 1 {
                    p.g
                } else if c == 2 {
                    p.b
                } else {
                    p.a
                }
            },
    )
}

/// Bytes that flushing a pending run of `run` repeats of `prev` emits. A
/// run of one is folded into a one-byte cache reference, except when that
/// would hit the still-empty slot 0x35: that collision is disambiguated by
/// a run opcode of payload zero.
pub open spec fn flush_bytes(index: Seq<Pixel>, prev: Pixel, run: nat) -> Seq<u8> {
    if run == 0 {
        seq![]
    } else if run == 1 {
        if pixel_hash(prev) == 0x35 && index[0x35] == zero_pixel() {
            seq![0xc0u8]
        } else {
            seq![pixel_hash(prev) as u8]
        }
    } else {
        seq![(0xc0 + run - 1) as u8]
    }
}

/// Opcode bytes for a pixel that differs from its predecessor and misses
/// the cache: full four-channel literal when alpha changed, else the
/// one-byte delta, the two-byte luma delta, or the three-channel literal,
/// in that order of preference.
pub open spec fn literal_bytes(px: Pixel, prev: Pixel, has_alpha: bool) -> Seq<u8> {
    if has_alpha && px.a != prev.a {
        seq![0xffu8, px.r, px.g, px.b, px.a]
    } else {
        let v = spec_var(px, prev);
        if diff_fits(v) {
            seq![diff_byte(v)]
        } else if luma_fits(v) {
            luma_bytes(v)
        } else {
            seq![0xfeu8, px.r, px.g, px.b]
        }
    }
}

/// One encoder step on pixel `px`: the bytes emitted and the state after.
/// A pixel equal to its predecessor extends the pending run, which is
/// flushed at 62 repeats or at the end of the stream; any other pixel first
/// flushes the pending run, then goes out as a cache reference or as delta
/// or literal bytes, entering the cache in the latter case.
pub open spec fn enc_step(
    index: Seq<Pixel>,
    prev: Pixel,
    run: nat,
    px: Pixel,
    is_last: bool,
    has_alpha: bool,
) -> (Seq<u8>, Seq<Pixel>, Pixel, nat) {
    if px == prev {
        if run == 61 || is_last {
            (seq![(0xc0 + run) as u8], index, prev, 0nat)
        } else {
            (seq![], index, prev, (run + 1) as nat)
        }
    } else {
        let fl = flush_bytes(index, prev, run);
        let h = pixel_hash(px);
        if index[h] == px {
            (fl + seq![h as u8], index, px, 0nat)
        } else {
            (fl + literal_bytes(px, prev, has_alpha), index.update(h, px), px, 0nat)
        }
    }
}

/// The encoder folded over a pixel sequence: all bytes emitted and the
/// final state.
pub open spec fn enc_range(
    index: Seq<Pixel>,
    prev: Pixel,
    run: nat,
    pxs: Seq<Pixel>,
    has_alpha: bool,
) -> (Seq<u8>, Seq<Pixel>, Pixel, nat)
    decreases pxs.len(),
{
    if pxs.len() == 0 {
        (seq![], index, prev, run)
    } else {
        let s = enc_step(index, prev, run, pxs[0], pxs.len() == 1, has_alpha);
        let rest = enc_range(s.1, s.2, s.3, pxs.subrange(1, pxs.len() as int), has_alpha);
        (s.0 + rest.0, rest.1, rest.2, rest.3)
    }
}

/// Whether the encoder's conservative headroom check passes at every pixel:
/// before each pixel more than 7 bytes of the output window must remain.
pub open spec fn enc_fits(
    index: Seq<Pixel>,
    prev: Pixel,
    run: nat,
    pxs: Seq<Pixel>,
    avail: int,
    has_alpha: bool,
) -> bool
    decreases pxs.len(),
{
    if pxs.len() == 0 {
        true
    } else {
        avail > 7 && {
            let s = enc_step(index, prev, run, pxs[0], pxs.len() == 1, has_alpha);
            enc_fits(
                s.1,
                s.2,
                s.3,
                pxs.subrange(1, pxs.len() as int),
                avail - s.0.len(),
                has_alpha,
            )
        }
    }
}

/// Prepends already-emitted bytes to an encoder outcome.
pub open spec fn enc_prepend(bytes: Seq<u8>, t: (Seq<u8>, Seq<Pixel>, Pixel, nat)) -> (
    Seq<u8>,
    Seq<Pixel>,
    Pixel,
    nat,
) {
    (bytes + t.0, t.1, t.2, t.3)
}

/// Prepending twice is prepending once with the parts joined.
pub proof fn lemma_enc_prepend_assoc(a: Seq<u8>, b: Seq<u8>, t: (Seq<u8>, Seq<Pixel>, Pixel, nat))
    ensures
        enc_prepend(a, enc_prepend(b, t)) == enc_prepend(a + b, t),
{
    assert(a + (b + t.0) =~= (a + b) + t.0);
}

/// Writing `bs` right after the window already holding `w0` extends the
/// window: the whole buffer then holds `w0 + bs`.
pub proof fn lemma_byte_window_advance(
    oldv: Seq<u8>,
    before: Seq<u8>,
    after: Seq<u8>,
    from: int,
    w0: Seq<u8>,
    bs: Seq<u8>,
)
    requires
        0 <= from,
        from + w0.len() + bs.len() <= oldv.len(),
        before == oldv.subrange(0, from) + w0 + oldv.subrange(
            from + w0.len(),
            oldv.len() as int,
        ),
        after == before.subrange(0, from + w0.len()) + bs + before.subrange(
            from + w0.len() + bs.len(),
            before.len() as int,
        ),
    ensures
        after == oldv.subrange(0, from) + (w0 + bs) + oldv.subrange(
            from + w0.len() + bs.len(),
            oldv.len() as int,
        ),
{
    assert(after =~= oldv.subrange(0, from) + (w0 + bs) + oldv.subrange(
        from + w0.len() + bs.len(),
        oldv.len() as int,
    ));
}

/// The conservative headroom check passes, and the emitted bytes leave at
/// least 8 bytes spare, whenever the window offers one byte more than a
/// worst-case literal per pixel, one byte for a pending run, and 8 for the
/// trailer. The final pending run also stays within an opcode's range.
pub proof fn lemma_enc_bounds(
    index: Seq<Pixel>,
    prev: Pixel,
    run: nat,
    pxs: Seq<Pixel>,
    avail: int,
    has_alpha: bool,
)
    requires
        run <= 61,
        avail >= (channel_width(has_alpha) + 1) * pxs.len() + (if run > 0 {
            1int
        } else {
            0int
        }) + 8,
    ensures
        enc_fits(index, prev, run, pxs, avail, has_alpha),
        enc_range(index, prev, run, pxs, has_alpha).0.len() + 8 <= avail,
        enc_range(index, prev, run, pxs, has_alpha).3 <= 61,
    decreases pxs.len(),
{
    let cw1 = channel_width(has_alpha) + 1;
    if pxs.len() == 0 {
    } else {
        let s = enc_step(index, prev, run, pxs[0], pxs.len() == 1, has_alpha);
        let rest = pxs.subrange(1, pxs.len() as int);
        assert(cw1 * pxs.len() == cw1 * rest.len() + cw1) by (nonlinear_arith)
            requires
                rest.len() == pxs.len() - 1,
                pxs.len() >= 1,
        ;
        let fp: int = if run > 0 {
            1
        } else {
            0
        };
        let fp2: int = if s.3 > 0 {
            1
        } else {
            0
        };
        assert(s.0.len() + fp2 <= fp + cw1 && s.3 <= 61);
        assert(avail - s.0.len() >= cw1 * rest.len() + fp2 + 8);
        lemma_enc_bounds(s.1, s.2, s.3, rest, avail - s.0.len(), has_alpha);
        assert(enc_range(index, prev, run, pxs, has_alpha).0.len() == s.0.len() + enc_range(
            s.1,
            s.2,
            s.3,
            rest,
            has_alpha,
        ).0.len());
    }
}

/// Prepends already-produced pixels and already-consumed bytes to a
/// decoder outcome.
pub open spec fn dec_wrap(
    out: Seq<Pixel>,
    consumed: int,
    o: Option<(Seq<Pixel>, Seq<Pixel>, Pixel, nat, int)>,
) -> Option<(Seq<Pixel>, Seq<Pixel>, Pixel, nat, int)> {
    match o {
        None => None,
        Some(r) => Some((out + r.0, r.1, r.2, r.3, consumed + r.4)),
    }
}

/// Wrapping twice is wrapping once with the parts joined.
pub proof fn lemma_dec_wrap_assoc(
    o1: Seq<Pixel>,
    c1: int,
    o2: Seq<Pixel>,
    c2: int,
    x: Option<(Seq<Pixel>, Seq<Pixel>, Pixel, nat, int)>,
)
    ensures
        dec_wrap(o1, c1, dec_wrap(o2, c2, x)) == dec_wrap(o1 + o2, c1 + c2, x),
{
    match x {
        None => {},
        Some(r) => {
            assert(o1 + (o2 + r.0) =~= (o1 + o2) + r.0);
        },
    }
}

/// The decoder folded over opcodes until `need` pixels are produced:
/// `Some((pixels, cache, previous, leftover run, bytes consumed))`, or
/// `None` when the byte stream ends inside an opcode. A run opcode reaching
/// past the requested pixels leaves the remainder as a pending run.
#[verifier::opaque]
pub open spec fn dec_ops(
    index: Seq<Pixel>,
    prev: Pixel,
    bytes: Seq<u8>,
    need: nat,
    has_alpha: bool,
) -> Option<(Seq<Pixel>, Seq<Pixel>, Pixel, nat, int)>
    decreases need,
{
    if need == 0 {
        Some((seq![], index, prev, 0nat, 0))
    } else if bytes.len() == 0 {
        None
    } else {
        let b1 = bytes[0];
        if b1 < 0x40 {
            let px = index[b1 as int];
            dec_wrap(seq![px], 1, dec_ops(index, px, bytes.skip(1), (need - 1) as nat, has_alpha))
        } else if b1 < 0x80 {
            let px = spec_add_rgb(
                prev,
                wsub8(((b1 as int / 16) % 4) as u8, 2),
                wsub8(((b1 as int / 4) % 4) as u8, 2),
                wsub8((b1 as int % 4) as u8, 2),
            );
            dec_wrap(
                seq![px],
                1,
                dec_ops(
                    index.update(pixel_hash(px), px),
                    px,
                    bytes.skip(1),
                    (need - 1) as nat,
                    has_alpha,
                ),
            )
        } else if b1 < 0xc0 {
            if bytes.len() < 2 {
                None
            } else {
                let b2 = bytes[1];
                let vg = wsub8((b1 - 0x80) as u8, 32);
                let vr = wadd8(wsub8((b2 as int / 16) as u8, 8), vg);
                let vb = wadd8(wsub8((b2 as int % 16) as u8, 8), vg);
                let px = spec_add_rgb(prev, vr, vg, vb);
                dec_wrap(
                    seq![px],
                    2,
                    dec_ops(
                        index.update(pixel_hash(px), px),
                        px,
                        bytes.skip(2),
                        (need - 1) as nat,
                        has_alpha,
                    ),
                )
            }
        } else if b1 == 0xfe {
            if bytes.len() < 4 {
                None
            } else {
                let px = Pixel { r: bytes[1], g: bytes[2], b: bytes[3], a: prev.a };
                dec_wrap(
                    seq![px],
                    4,
                    dec_ops(
                        index.update(pixel_hash(px), px),
                        px,
                        bytes.skip(4),
                        (need - 1) as nat,
                        has_alpha,
                    ),
                )
            }
        } else if b1 == 0xff {
            if bytes.len() < 5 {
                None
            } else {
                let px = if has_alpha {
                    Pixel { r: bytes[1], g: bytes[2], b: bytes[3], a: bytes[4] }
                } else {
                    // without alpha the fifth byte is present but discarded
                    Pixel { r: bytes[1], g: bytes[2], b: bytes[3], a: prev.a }
                };
                dec_wrap(
                    seq![px],
                    5,
                    dec_ops(
                        index.update(pixel_hash(px), px),
                        px,
                        bytes.skip(5),
                        (need - 1) as nat,
                        has_alpha,
                    ),
                )
            }
        } else {
            let n = (b1 - 0xc0) + 1;
            if n > need {
                Some((Seq::new(need, |i: int| prev), index, prev, (n - need) as nat, 1))
            } else {
                dec_wrap(
                    Seq::new(n as nat, |i: int| prev),
                    1,
                    dec_ops(index, prev, bytes.skip(1), (need - n) as nat, has_alpha),
                )
            }
        }
    }
}

/// The decoder including an initial pending run carried in from an earlier
/// call: the pending repeats of `prev` come first, then opcodes.
pub open spec fn dec_range(
    index: Seq<Pixel>,
    prev: Pixel,
    run: nat,
    bytes: Seq<u8>,
    need: nat,
    has_alpha: bool,
) -> Option<(Seq<Pixel>, Seq<Pixel>, Pixel, nat, int)> {
    if run >= need {
        Some((Seq::new(need, |i: int| prev), index, prev, (run - need) as nat, 0))
    } else {
        dec_wrap(
            Seq::new(run, |i: int| prev),
            0,
            dec_ops(index, prev, bytes, (need - run) as nat, has_alpha),
        )
    }
}

/// The 8 trailer bytes closing every stream.
pub open spec fn trailer() -> Seq<u8> {
    seq![0u8, 0u8, 0u8, 0u8, 0u8, 0u8, 0u8, 1u8]
}

/// Flattening one pixel agrees with its byte form.
pub proof fn lemma_pixel_bytes_one(px: Pixel, has_alpha: bool)
    ensures
        pixel_bytes(seq![px], has_alpha) == pixel_as_bytes(px, has_alpha),
{
    assert(pixel_bytes(seq![px], has_alpha) =~= pixel_as_bytes(px, has_alpha));
}

/// Flattening distributes over concatenation of pixel sequences.
pub proof fn lemma_pixel_bytes_add(a: Seq<Pixel>, b: Seq<Pixel>, has_alpha: bool)
    ensures
        pixel_bytes(a + b, has_alpha) == pixel_bytes(a, has_alpha) + pixel_bytes(b, has_alpha),
{
    let cw = channel_width(has_alpha);
    assert forall|j: int| 0 <= j < (a.len() + b.len()) * cw implies pixel_bytes(a + b, has_alpha)[j]
        == (pixel_bytes(a, has_alpha) + pixel_bytes(b, has_alpha))[j] by {
        vstd::arithmetic::mul::lemma_mul_is_distributive_add_other_way(cw, a.len() as int, b.len() as int);
        if j < a.len() * cw {
            vstd::arithmetic::div_mod::lemma_multiply_divide_lt(j, a.len() as int, cw);
            assert((a + b)[j / cw] == a[j / cw]);
        } else {
            let j2 = j - a.len() * cw;
            vstd::arithmetic::div_mod::lemma_hoist_over_denominator(j2, a.len() as int, cw as nat);
            assert(j / cw == j2 / cw + a.len());
            vstd::arithmetic::div_mod::lemma_mod_multiples_vanish(a.len() as int, j2, cw);
            assert(j % cw == j2 % cw);
            vstd::arithmetic::div_mod::lemma_div_multiples_vanish_fancy(j2 / cw, j2 % cw, cw);
            vstd::arithmetic::div_mod::lemma_fundamental_div_mod(j2, cw);
            assert(0 <= j2 / cw < b.len()) by {
                vstd::arithmetic::div_mod::lemma_div_is_ordered(j2, (b.len() * cw - 1) as int, cw);
                vstd::arithmetic::div_mod::lemma_div_multiples_vanish_fancy(
                    b.len() as int - 1,
                    cw - 1,
                    cw,
                );
            }
            assert((a + b)[j / cw] == b[j2 / cw]);
        }
    }
    assert(pixel_bytes(a + b, has_alpha) =~= pixel_bytes(a, has_alpha) + pixel_bytes(
        b,
        has_alpha,
    ));
}

/// Skipping twice is skipping the sum.
pub proof fn lemma_skip_skip(s: Seq<u8>, a: int, b: int)
    requires
        0 <= a,
        0 <= b,
        a + b <= s.len(),
    ensures
        s.skip(a).skip(b) == s.skip(a + b),
{
    assert(s.skip(a).skip(b) =~= s.skip(a + b));
}

/// Writing the byte form of `fills` right after the window already holding
/// `out0` extends the window: the whole buffer then holds `out0 + fills`.
pub proof fn lemma_window_advance(
    oldv: Seq<u8>,
    before: Seq<u8>,
    after: Seq<u8>,
    start: int,
    out0: Seq<Pixel>,
    fills: Seq<Pixel>,
    has_alpha: bool,
)
    requires
        0 <= start,
        start + (out0.len() + fills.len()) * channel_width(has_alpha) <= oldv.len(),
        before == oldv.subrange(0, start) + pixel_bytes(out0, has_alpha) + oldv.subrange(
            start + out0.len() * channel_width(has_alpha),
            oldv.len() as int,
        ),
        after == before.subrange(0, start + out0.len() * channel_width(has_alpha)) + pixel_bytes(
            fills,
            has_alpha,
        ) + before.subrange(
            start + out0.len() * channel_width(has_alpha) + fills.len() * channel_width(
                has_alpha,
            ),
            before.len() as int,
        ),
    ensures
        after == oldv.subrange(0, start) + pixel_bytes(out0 + fills, has_alpha) + oldv.subrange(
            start + (out0.len() + fills.len()) * channel_width(has_alpha),
            oldv.len() as int,
        ),
{
    let cw = channel_width(has_alpha);
    vstd::arithmetic::mul::lemma_mul_is_distributive_add_other_way(
        cw,
        out0.len() as int,
        fills.len() as int,
    );
    lemma_pixel_bytes_add(out0, fills, has_alpha);
    assert(after =~= oldv.subrange(0, start) + pixel_bytes(out0 + fills, has_alpha)
        + oldv.subrange(start + (out0.len() + fills.len()) * cw, oldv.len() as int));
}

/// A successful decode yields exactly the requested number of pixels.
pub proof fn lemma_dec_ops_len(
    index: Seq<Pixel>,
    prev: Pixel,
    bytes: Seq<u8>,
    need: nat,
    has_alpha: bool,
)
    ensures
        dec_ops(index, prev, bytes, need, has_alpha) matches Some(r) ==> r.0.len() == need,
    decreases need,
{
    reveal(dec_ops);
    if need == 0 {
    } else if bytes.len() == 0 {
    } else {
        let b1 = bytes[0];
        if b1 < 0x40 {
            let px = index[b1 as int];
            lemma_dec_ops_len(index, px, bytes.skip(1), (need - 1) as nat, has_alpha);
        } else if b1 < 0x80 {
            let px = spec_add_rgb(
                prev,
                wsub8(((b1 as int / 16) % 4) as u8, 2),
                wsub8(((b1 as int / 4) % 4) as u8, 2),
                wsub8((b1 as int % 4) as u8, 2),
            );
            lemma_dec_ops_len(
                index.update(pixel_hash(px), px),
                px,
                bytes.skip(1),
                (need - 1) as nat,
                has_alpha,
            );
        } else if b1 < 0xc0 {
            if bytes.len() >= 2 {
                let b2 = bytes[1];
                let vg = wsub8((b1 - 0x80) as u8, 32);
                let vr = wadd8(wsub8((b2 as int / 16) as u8, 8), vg);
                let vb = wadd8(wsub8((b2 as int % 16) as u8, 8), vg);
                let px = spec_add_rgb(prev, vr, vg, vb);
                lemma_dec_ops_len(
                    index.update(pixel_hash(px), px),
                    px,
                    bytes.skip(2),
                    (need - 1) as nat,
                    has_alpha,
                );
            }
        } else if b1 == 0xfe {
            if bytes.len() >= 4 {
                let px = Pixel { r: bytes[1], g: bytes[2], b: bytes[3], a: prev.a };
                lemma_dec_ops_len(
                    index.update(pixel_hash(px), px),
                    px,
                    bytes.skip(4),
                    (need - 1) as nat,
                    has_alpha,
                );
            }
        } else if b1 == 0xff {
            if bytes.len() >= 5 {
                let px = if has_alpha {
                    Pixel { r: bytes[1], g: bytes[2], b: bytes[3], a: bytes[4] }
                } else {
                    Pixel { r: bytes[1], g: bytes[2], b: bytes[3], a: prev.a }
                };
                lemma_dec_ops_len(
                    index.update(pixel_hash(px), px),
                    px,
                    bytes.skip(5),
                    (need - 1) as nat,
                    has_alpha,
                );
            }
        } else {
            let n = (b1 - 0xc0) + 1;
            if n <= need {
                lemma_dec_ops_len(index, prev, bytes.skip(1), (need - n) as nat, has_alpha);
            }
        }
    }
}

/// A successful decode with a pending run also yields exactly the
/// requested number of pixels.
pub proof fn lemma_dec_range_len(
    index: Seq<Pixel>,
    prev: Pixel,
    run: nat,
    bytes: Seq<u8>,
    need: nat,
    has_alpha: bool,
)
    ensures
        dec_range(index, prev, run, bytes, need, has_alpha) matches Some(r) ==> r.0.len() == need,
{
    if run < need {
        lemma_dec_ops_len(index, prev, bytes, (need - run) as nat, has_alpha);
    }
}

} // verus!
