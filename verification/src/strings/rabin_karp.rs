//! Rabin–Karp substring search over a string's bytes: a rolling polynomial
//! hash narrows the candidates, and every candidate is checked directly.

use vstd::prelude::*;
use vstd::string::StringSliceAdditionalSpecFns;

verus! {

/// The hash modulus, a large prime.
pub const MODULUS: usize = 1_000_000_007;

/// The hash base, a prime larger than any byte.
pub const BASE: usize = 257;

/// The polynomial hash of a byte string, modulo `MODULUS`.
pub open spec fn poly_hash(s: Seq<u8>) -> int
    decreases s.len(),
{
    if s.len() == 0 {
        0
    } else {
        (poly_hash(s.drop_last()) * BASE + s.last()) % (MODULUS as int)
    }
}

/// `BASE` to the `e`, modulo `MODULUS`.
pub open spec fn pow_mod(e: nat) -> int
    decreases e,
{
    if e == 0 {
        1
    } else {
        (pow_mod((e - 1) as nat) * BASE) % (MODULUS as int)
    }
}

/// The pattern occurs in the text starting at byte `s`.
pub open spec fn match_at(t: Seq<u8>, p: Seq<u8>, s: int) -> bool {
    t.subrange(s, s + p.len()) == p
}

/// The hash stays within the modulus.
proof fn lemma_poly_range(s: Seq<u8>)
    ensures
        0 <= poly_hash(s) < MODULUS,
    decreases s.len(),
{
    if s.len() > 0 {
        lemma_poly_range(s.drop_last());
        vstd::arithmetic::div_mod::lemma_mod_bound(
            poly_hash(s.drop_last()) * BASE + s.last(),
            MODULUS as int,
        );
    }
}

/// The power stays within the modulus.
proof fn lemma_pow_range(e: nat)
    ensures
        0 <= pow_mod(e) < MODULUS,
    decreases e,
{
    if e > 0 {
        lemma_pow_range((e - 1) as nat);
        vstd::arithmetic::div_mod::lemma_mod_bound(
            pow_mod((e - 1) as nat) * BASE,
            MODULUS as int,
        );
    }
}

/// Peeling the first byte off a window: its hash is the first byte times
/// the top power plus the hash of the rest, modulo `MODULUS`.
proof fn lemma_poly_decompose(s: Seq<u8>)
    requires
        s.len() >= 1,
    ensures
        poly_hash(s) == (s[0] * pow_mod((s.len() - 1) as nat) + poly_hash(s.drop_first())) % (
        MODULUS as int),
    decreases s.len(),
{
    let m = MODULUS as int;
    if s.len() == 1 {
        assert(s.drop_last() =~= Seq::<u8>::empty());
        assert(s.drop_first() =~= Seq::<u8>::empty());
        assert(poly_hash(Seq::<u8>::empty()) == 0);
        assert(poly_hash(s) == (0 * BASE + s.last()) % m);
        assert(s.last() == s[0]);
        assert(s[0] * pow_mod(0) == s[0]);
    } else {
        let dl = s.drop_last();
        let e = (s.len() - 2) as nat;
        lemma_poly_decompose(dl);
        assert(dl[0] == s[0]);
        assert(dl.drop_first() =~= s.drop_first().drop_last());
        let r = poly_hash(s.drop_first().drop_last());
        let p = pow_mod(e);
        // poly(s) == ((s0*p + r) % m * BASE + last) % m == (s0*p*BASE + r*BASE + last) % m
        vstd::arithmetic::div_mod::lemma_mul_mod_noop_left(
            s[0] * p + r,
            BASE as int,
            m,
        );
        vstd::arithmetic::div_mod::lemma_add_mod_noop(
            (s[0] * p + r) * BASE,
            s.last() as int,
            m,
        );
        vstd::arithmetic::div_mod::lemma_mod_twice((s[0] * p + r) * BASE + s.last(), m);
        assert(poly_hash(s) == ((s[0] * p + r) * BASE + s.last()) % m) by {
            assert((((s[0] * p + r) % m) * BASE) % m == ((s[0] * p + r) * BASE) % m);
            assert((((s[0] * p + r) * BASE) % m + (s.last() as int) % m) % m == ((s[0] * p + r)
                * BASE + s.last()) % m);
            assert((s.last() as int) % m == s.last() as int) by {
                vstd::arithmetic::div_mod::lemma_small_mod(s.last() as nat, MODULUS as nat);
            }
        }
        // regroup: s0*(p*BASE) + (r*BASE + last), and fold p*BASE into the next power
        assert((s[0] * p + r) * BASE == s[0] * (p * BASE) + (r * BASE + s.last()) - s.last())
            by (nonlinear_arith);
        // poly of the tail advances the same way
        assert(poly_hash(s.drop_first()) == (r * BASE + s.last()) % m) by {
            assert(s.drop_first().drop_last() =~= s.drop_first().drop_last());
            assert(s.drop_first().last() == s.last());
        }
        // replace p*BASE with pow_mod(len-1) under the modulus
        vstd::arithmetic::div_mod::lemma_mul_mod_noop_right(
            s[0] as int,
            p * BASE,
            m,
        );
        assert(pow_mod((s.len() - 1) as nat) == (p * BASE) % m);
        vstd::arithmetic::div_mod::lemma_mul_mod_noop_right(
            s[0] as int,
            pow_mod((s.len() - 1) as nat),
            m,
        );
        vstd::arithmetic::div_mod::lemma_mod_twice(p * BASE, m);
        let a = s[0] as int;
        let q = p * BASE;
        let rest = r * BASE + s.last();
        // (a*q + rest) % m == (a*pow' + poly(tail)) % m
        vstd::arithmetic::div_mod::lemma_add_mod_noop(a * q, rest, m);
        vstd::arithmetic::div_mod::lemma_add_mod_noop(
            a * ((q) % m),
            rest % m,
            m,
        );
        assert((a * q) % m == (a * (q % m)) % m);
        vstd::arithmetic::div_mod::lemma_mod_twice(a * (q % m), m);
        vstd::arithmetic::div_mod::lemma_mod_twice(rest, m);
        assert(poly_hash(s) == (a * (q % m) % m + rest % m) % m);
        vstd::arithmetic::div_mod::lemma_add_mod_noop(a * (q % m), rest, m);
        assert(poly_hash(s) == (a * (q % m) + rest) % m);
        assert((a * pow_mod((s.len() - 1) as nat) + poly_hash(s.drop_first())) % m == (a * (q
            % m) + rest) % m) by {
            vstd::arithmetic::div_mod::lemma_add_mod_noop(a * (q % m), rest, m);
            vstd::arithmetic::div_mod::lemma_mod_twice(rest, m);
        }
    }
}

/// Whether the pattern occurs anywhere in the text, by bytes. Empty
/// strings and patterns longer than the text never match.
#[verifier::rlimit(100)]
#[verifier::spinoff_prover]
pub fn rabin_karp(text: &str, pattern: &str) -> (res: bool)
    ensures
        res == (text.spec_bytes().len() > 0 && pattern.spec_bytes().len() > 0
            && pattern.spec_bytes().len() <= text.spec_bytes().len() && exists|s: int|
            0 <= s <= text.spec_bytes().len() - pattern.spec_bytes().len() && match_at(
                text.spec_bytes(),
                pattern.spec_bytes(),
                s,
            )),
{
    let text_bytes = text.as_bytes();
    let pattern_bytes = pattern.as_bytes();
    let t_len = text_bytes.len();
    let p_len = pattern_bytes.len();
    let ghost tb = text.spec_bytes();
    let ghost pb = pattern.spec_bytes();
    if t_len == 0 || p_len == 0 || p_len > t_len {
        return false;
    }
    let md: u64 = MODULUS as u64;
    let bs: u64 = BASE as u64;

    // highest power of the base, for removing the leftmost byte
    let mut highest_pow: u64 = 1;
    let mut e: usize = 0;
    while e < p_len - 1
        invariant
            p_len >= 1,
            e <= p_len - 1,
            md == MODULUS as u64,
            bs == BASE as u64,
            highest_pow == pow_mod(e as nat),
            0 <= highest_pow < MODULUS,
        decreases p_len - e,
    {
        proof {
            vstd::arithmetic::div_mod::lemma_mod_bound(
                (highest_pow * bs) as int,
                MODULUS as int,
            );
            assert((highest_pow as int) * (bs as int) < u64::MAX) by (nonlinear_arith)
                requires 0 <= highest_pow < MODULUS, bs == 257;
        }
        highest_pow = highest_pow * bs % md;
        e = e + 1;
    }

    // hashes of the pattern and of the first window of the text
    let mut pattern_hash: u64 = 0;
    let mut text_hash: u64 = 0;
    let mut i: usize = 0;
    while i < p_len
        invariant
            i <= p_len <= t_len,
            t_len == tb.len(),
            p_len == pb.len(),
            text_bytes@ == tb,
            pattern_bytes@ == pb,
            md == MODULUS as u64,
            bs == BASE as u64,
            pattern_hash == poly_hash(pb.subrange(0, i as int)),
            text_hash == poly_hash(tb.subrange(0, i as int)),
            0 <= pattern_hash < MODULUS,
            0 <= text_hash < MODULUS,
        decreases p_len - i,
    {
        proof {
            assert(pb.subrange(0, i + 1).drop_last() =~= pb.subrange(0, i as int));
            assert(tb.subrange(0, i + 1).drop_last() =~= tb.subrange(0, i as int));
            assert(pb.subrange(0, i + 1).last() == pb[i as int]);
            assert(tb.subrange(0, i + 1).last() == tb[i as int]);
            assert((pattern_hash as int) * (bs as int) + 255 < u64::MAX) by (nonlinear_arith)
                requires 0 <= pattern_hash < MODULUS, bs == 257;
            assert((text_hash as int) * (bs as int) + 255 < u64::MAX) by (nonlinear_arith)
                requires 0 <= text_hash < MODULUS, bs == 257;
            vstd::arithmetic::div_mod::lemma_mod_bound(
                (pattern_hash as int) * (bs as int) + pattern_bytes@[i as int],
                MODULUS as int,
            );
            vstd::arithmetic::div_mod::lemma_mod_bound(
                (text_hash as int) * (bs as int) + text_bytes@[i as int],
                MODULUS as int,
            );
        }
        pattern_hash = (pattern_hash * bs + pattern_bytes[i] as u64) % md;
        text_hash = (text_hash * bs + text_bytes[i] as u64) % md;
        i = i + 1;
    }
    proof {
        assert(pb.subrange(0, p_len as int) =~= pb);
    }

    // slide the window across the text
    let mut s: usize = 0;
    while s <= t_len - p_len
        invariant
            s <= t_len - p_len + 1,
            p_len >= 1,
            p_len <= t_len,
            t_len == tb.len(),
            p_len == pb.len(),
            text_bytes@ == tb,
            pattern_bytes@ == pb,
            tb == text.spec_bytes(),
            pb == pattern.spec_bytes(),
            md == MODULUS as u64,
            bs == BASE as u64,
            pattern_hash == poly_hash(pb),
            s <= t_len - p_len ==> text_hash == poly_hash(tb.subrange(s as int, s + p_len)),
            0 <= text_hash < MODULUS,
            0 <= highest_pow < MODULUS,
            highest_pow == pow_mod((p_len - 1) as nat),
            forall|q: int| 0 <= q < s ==> !match_at(tb, pb, q),
        decreases t_len - p_len + 1 - s,
    {
        if pattern_hash == text_hash {
            // confirm the candidate byte by byte
            let mut k: usize = 0;
            let mut same = true;
            while k < p_len
                invariant
                    k <= p_len,
                    s + p_len <= t_len,
                    t_len == tb.len(),
                    p_len == pb.len(),
                    text_bytes@ == tb,
                    pattern_bytes@ == pb,
                    same == (forall|q: int| 0 <= q < k ==> tb[s + q] == pb[q]),
                decreases p_len - k,
            {
                if text_bytes[s + k] != pattern_bytes[k] {
                    same = false;
                }
                k = k + 1;
            }
            if same {
                proof {
                    assert forall|q: int| 0 <= q < p_len implies tb.subrange(
                        s as int,
                        s + p_len,
                    )[q] == pb[q] by {
                        assert(tb[s + q] == pb[q]);
                    }
                    assert(tb.subrange(s as int, s + p_len) =~= pb);
                    assert(tb.subrange(s as int, s + pb.len()) == pb);
                    assert(match_at(tb, pb, s as int));
                    assert(match_at(text.spec_bytes(), pattern.spec_bytes(), s as int));
                }
                return true;
            }
            proof {
                assert(!match_at(tb, pb, s as int)) by {
                    if tb.subrange(s as int, s + p_len) == pb {
                        assert forall|q: int| 0 <= q < p_len implies tb[s + q] == pb[q] by {
                            assert(tb.subrange(s as int, s + p_len)[q] == tb[s + q]);
                        }
                    }
                }
            }
        } else {
            proof {
                // different hashes, so the window differs from the pattern
                assert(!match_at(tb, pb, s as int)) by {
                    if tb.subrange(s as int, s + p_len) == pb {
                        assert(poly_hash(tb.subrange(s as int, s + p_len)) == poly_hash(pb));
                    }
                }
            }
        }

        if s < t_len - p_len {
            let ghost w = tb.subrange(s as int, s + p_len);
            let ghost w2 = tb.subrange(s + 1, s + 1 + p_len);
            let ghost m = MODULUS as int;
            let ghost a = tb[s as int] as int;
            let ghost pfull = pow_mod((p_len - 1) as nat);
            let ghost r = poly_hash(w.drop_first());
            proof {
                lemma_poly_decompose(w);
                lemma_poly_range(w.drop_first());
                assert(w[0] == tb[s as int] && w.len() == p_len);
                assert(text_hash as int == (a * pfull + r) % m);
                assert((a as int) * (highest_pow as int) < u64::MAX) by (nonlinear_arith)
                    requires 0 <= highest_pow < MODULUS, 0 <= a < 256;
                vstd::arithmetic::div_mod::lemma_mod_bound(a * (highest_pow as int), m);
                // subtracting the first byte's contribution leaves the rest
                assert(((text_hash as int) + m - (a * (highest_pow as int)) % m) % m == r) by {
                    assert(highest_pow as int == pfull);
                    vstd::arithmetic::div_mod::lemma_mod_twice(a * pfull, m);
                    vstd::arithmetic::div_mod::lemma_sub_mod_noop(a * pfull + r, a * pfull, m);
                    vstd::arithmetic::div_mod::lemma_mod_twice(a * pfull + r, m);
                    assert(((a * pfull + r) % m - (a * pfull) % m) % m == r % m);
                    vstd::arithmetic::div_mod::lemma_mod_add_multiples_vanish(
                        (a * pfull + r) % m - (a * pfull) % m,
                        m,
                    );
                    vstd::arithmetic::div_mod::lemma_small_mod(r as nat, MODULUS as nat);
                }
                vstd::arithmetic::div_mod::lemma_mod_bound(
                    (text_hash as int) + m - (a * (highest_pow as int)) % m,
                    m,
                );
                // the shifted window hashes from the rest and the new byte
                assert(w2.drop_last() =~= w.drop_first());
                assert(w2.last() == tb[s + p_len]);
                assert((r * (bs as int)) + 255 < u64::MAX) by (nonlinear_arith)
                    requires 0 <= r < MODULUS, bs == 257;
                vstd::arithmetic::div_mod::lemma_mod_bound(
                    r * (bs as int) + (tb[s + p_len] as int),
                    m,
                );
            }
            text_hash = (text_hash + md - (text_bytes[s] as u64) * highest_pow % md) % md;
            proof {
                assert(text_hash as int == r);
            }
            text_hash = (text_hash * bs + text_bytes[s + p_len] as u64) % md;
            proof {
                assert(text_hash as int == poly_hash(w2));
            }
        }
        s = s + 1;
    }
    proof {
        assert forall|q: int|
            0 <= q <= t_len - p_len implies !match_at(
            text.spec_bytes(),
            pattern.spec_bytes(),
            q,
        ) by {
            assert(!match_at(tb, pb, q));
        }
    }
    false
}

} // verus!
