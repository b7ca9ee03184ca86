//! Conversions between the formats, and to and from integers.

use crate::float::arith;
use crate::float::arith::{split, Parts};
use crate::float::bits::{shift_left, shift_right};
use crate::float::formats::Format;
use crate::float::round;
use vstd::arithmetic::div_mod::*;
use vstd::arithmetic::mul::*;
use vstd::arithmetic::power2::*;
use vstd::prelude::*;

verus! {

/// The number `a` of the format `from` in the format `to`.
pub fn convert(from: Format, to: Format, a: Parts) -> (r: Parts)
    requires
        a.fits(from),
    ensures
        r == arith::converted(from, to, a),
        r.fits(to),
        r.nan(to) <==> a.nan(from),
{
    let top: u64 = from.infinity_code();
    if a.code > top {
        return Parts { neg: a.neg, code: convert_nan(from, to, a.code) };
    }
    if a.code == top {
        return Parts { neg: a.neg, code: to.infinity_code() };
    }
    let (m, t) = split(from, a.code);
    let ds: i32 = to.scale_bits() - from.scale_bits();
    let e: i32 = t as i32 + ds;
    let ghost num = a.units(from) * round::up(ds as int);
    let ghost den = round::down(ds as int);
    proof {
        let u = round::up(e as int);
        let d = round::down(e as int);
        let v = round::up(ds as int);
        let p = pow2(t as nat);
        lemma_positive(e as int);
        lemma_positive(ds as int);
        lemma_shifted_twice(t as nat, ds as int);
        assert(m as nat * (u * den) == ((m as nat * p) * v) * d) by (nonlinear_arith)
            requires
                u * den == (p * v) * d,
        ;
        assert((m + 1) * (u * den) > m as nat * (u * den)) by (nonlinear_arith)
            requires
                u > 0,
                den > 0,
        ;
        lemma2_to64_rest();
        arith::lemma_pow2_order_le(from.mant() + 1, 53);
        arith::lemma_pow2_order_le(53, 127);
    }
    let code: u64 = round::round(to, m as u128, e, false, Ghost(num), Ghost(den));
    Parts { neg: a.neg, code }
}

proof fn lemma_positive(e: int)
    ensures
        round::up(e) > 0,
        round::down(e) > 0,
{
    lemma_pow2_pos(if e > 0 { e as nat } else { 0 });
    lemma_pow2_pos(if e < 0 { (-e) as nat } else { 0 });
}

/// Shifting by `t` and by `ds` is shifting by `t + ds`.
proof fn lemma_shifted_twice(t: nat, ds: int)
    ensures
        round::up(t + ds) * round::down(ds) == (pow2(t) * round::up(ds)) * round::down(t + ds),
{
    let e = t + ds;
    let eu: nat = if e > 0 { e as nat } else { 0 };
    let ed: nat = if e < 0 { (-e) as nat } else { 0 };
    let du: nat = if ds > 0 { ds as nat } else { 0 };
    let dd: nat = if ds < 0 { (-ds) as nat } else { 0 };
    lemma_pow2_adds(eu, dd);
    lemma_pow2_adds(t, du);
    lemma_pow2_adds(t + du, ed);
}

fn convert_nan(from: Format, to: Format, code: u64) -> (r: u64)
    requires
        from.infinity() < code < from.sign_weight(),
    ensures
        r == arith::converted_nan(from, to, code as nat),
        to.infinity() < r < to.sign_weight(),
{
    let payload: u64 = code - from.infinity_code();
    let quiet: u64 = match to {
        Format::Half => 0x200,
        Format::Single => 0x40_0000,
        Format::Double => 0x8_0000_0000_0000,
    };
    let mf: u32 = from.mant_bits();
    let mt: u32 = to.mant_bits();
    proof {
        round::lemma_format_powers(from);
        round::lemma_format_powers(to);
        lemma2_to64();
        lemma2_to64_rest();
        assert(payload < pow2(from.mant()));
        assert(quiet == pow2((to.mant() - 1) as nat));
        lemma_pow2_unfold(to.mant());
    }
    let moved: u128;
    if mt >= mf {
        proof {
            let k = (mt - mf) as nat;
            lemma_pow2_adds(from.mant(), k);
            lemma_pow2_pos(k);
            lemma_mul_strict_inequality(payload as int, pow2(from.mant()) as int, pow2(k) as int);
        }
        moved = shift_left(payload as u128, mt - mf);
        assert(moved as nat / 1nat == moved);
    } else {
        moved = shift_right(payload as u128, mf - mt);
        proof {
            let k = (mf - mt) as nat;
            lemma_pow2_adds(to.mant(), k);
            lemma_pow2_pos(k);
            lemma_mul_strict_inequality_converse(
                moved as int,
                pow2(to.mant()) as int,
                pow2(k) as int,
            );
            assert(payload * 1 == payload);
        }
    }
    if moved < quiet as u128 {
        to.infinity_code() + (moved as u64 + quiet)
    } else {
        to.infinity_code() + moved as u64
    }
}

/// The number of the format nearest to `n`.
pub fn from_unsigned(f: Format, n: u64) -> (r: Parts)
    ensures
        r == arith::from_integer(f, n as nat),
        r.fits(f),
        !r.nan(f),
{
    let scale: i32 = f.scale_bits();
    proof {
        arith::lemma_truncates_whole(n as nat, f.scale());
        lemma2_to64_rest();
        lemma_pow2_unfold(64);
        lemma_pow2_strictly_increases(64, 127);
    }
    let code: u64 = round::round(
        f,
        n as u128,
        scale,
        false,
        Ghost(n as nat * pow2(f.scale())),
        Ghost(1),
    );
    Parts { neg: false, code }
}

/// The whole part of the number, kept within the range of `usize`; 0 for NaN.
pub fn to_usize(f: Format, a: Parts) -> (r: usize)
    requires
        a.fits(f),
    ensures
        r == arith::truncated(f, a, usize::MAX as nat),
{
    let top: u64 = f.infinity_code();
    if a.code > top || a.neg {
        return 0;
    }
    if a.code == top {
        return usize::MAX;
    }
    let (m, t) = split(f, a.code);
    let scale: u32 = f.scale_bits() as u32;
    let ghost ps = pow2(f.scale());
    proof {
        lemma_pow2_pos(f.scale());
        lemma2_to64_rest();
        lemma_pow2_unfold(64);
        arith::lemma_pow2_order_le(f.mant() + 1, 53);
    }
    if t >= scale {
        let k: u32 = t - scale;
        let ghost whole = m as nat * pow2(k as nat);
        proof {
            lemma_pow2_adds(k as nat, f.scale());
            assert(m as nat * (pow2(k as nat) * ps) == ps * whole) by (nonlinear_arith)
                requires
                    whole == m as nat * pow2(k as nat),
            ;
            lemma_div_multiples_vanish(whole as int, ps as int);
        }
        if k >= 64 {
            proof {
                arith::lemma_pow2_order_le(64, k as nat);
                lemma_pow2_pos(f.mant());
                assert(whole >= pow2(64)) by (nonlinear_arith)
                    requires
                        whole == m as nat * pow2(k as nat),
                        m >= 1,
                        pow2(k as nat) >= pow2(64),
                ;
            }
            return usize::MAX;
        }
        proof {
            arith::lemma_widened(m as nat, k as nat);
        }
        let w: u128 = shift_left(m as u128, k);
        if w > usize::MAX as u128 {
            usize::MAX
        } else {
            w as usize
        }
    } else {
        let k: u32 = scale - t;
        proof {
            lemma_pow2_adds(t as nat, k as nat);
            lemma_pow2_pos(t as nat);
            lemma_pow2_pos(k as nat);
            let pt = pow2(t as nat);
            let pk = pow2(k as nat);
            lemma_mul_is_commutative(m as int, pt as int);
            lemma_truncate_middle_free(m as nat, pt, pk);
        }
        if k >= 64 {
            proof {
                arith::lemma_pow2_order_le(64, k as nat);
                lemma_basic_div(m as int, pow2(k as nat) as int);
            }
            return 0;
        }
        let w: u128 = shift_right(m as u128, k);
        proof {
            lemma_div_decreases_or_same(m as nat, pow2(k as nat));
        }
        if w > usize::MAX as u128 {
            usize::MAX
        } else {
            w as usize
        }
    }
}

proof fn lemma_div_decreases_or_same(m: nat, d: nat)
    requires
        d > 0,
    ensures
        m / d <= m,
{
    lemma_div_nonincreasing(m as int, d as int);
}

/// `(m * pt) / (pt * pk) == m / pk`.
proof fn lemma_truncate_middle_free(m: nat, pt: nat, pk: nat)
    requires
        pt > 0,
        pk > 0,
    ensures
        (m * pt) / (pt * pk) == m / pk,
{
    assert(pt * pk > 0) by (nonlinear_arith)
        requires
            pt > 0,
            pk > 0,
    ;
    lemma_div_denominator((m * pt) as int, pt as int, pk as int);
    assert(m * pt == pt * m) by (nonlinear_arith);
    lemma_div_multiples_vanish(m as int, pt as int);
}

/// The number rounded to the nearest integer, halves going away from zero, and
/// kept within `-limit..=limit`; 0 for NaN.
pub open spec fn rounded(f: Format, a: Parts, limit: int) -> int {
    if a.nan(f) {
        0
    } else {
        let k = if a.infinite(f) || arith::rounded_magnitude(f, a) > limit {
            limit
        } else {
            arith::rounded_magnitude(f, a) as int
        };
        if a.neg {
            -k
        } else {
            k
        }
    }
}

/// The number rounded to the nearest integer, halves going away from zero, and
/// kept within `-limit..=limit`; 0 for NaN.
pub fn round_to_integer(f: Format, a: Parts, limit: i32) -> (r: i32)
    requires
        a.fits(f),
        limit >= 0,
    ensures
        r == rounded(f, a, limit as int),
{
    let top: u64 = f.infinity_code();
    if a.code > top {
        return 0;
    }
    let magnitude: u128 = if a.code == top {
        limit as u128
    } else {
        round_magnitude(f, a)
    };
    let k: i32 = if magnitude > limit as u128 {
        limit
    } else {
        magnitude as i32
    };
    if a.neg {
        -k
    } else {
        k
    }
}

/// The magnitude rounded to an integer, or some number past `i32` if that is
/// larger still.
fn round_magnitude(f: Format, a: Parts) -> (r: u128)
    requires
        a.finite(f),
    ensures
        r == arith::rounded_magnitude(f, a) || (r > i32::MAX && arith::rounded_magnitude(f, a)
            > i32::MAX),
{
    let (m, t) = split(f, a.code);
    let scale: u32 = f.scale_bits() as u32;
    let ghost ps = pow2(f.scale());
    proof {
        lemma_pow2_pos(f.scale());
        lemma2_to64_rest();
        lemma_pow2_unfold(64);
        arith::lemma_pow2_order_le(f.mant() + 1, 53);
    }
    if t >= scale {
        let k: u32 = t - scale;
        let ghost whole = m as nat * pow2(k as nat);
        proof {
            lemma_pow2_adds(k as nat, f.scale());
            assert(m as nat * (pow2(k as nat) * ps) == ps * whole) by (nonlinear_arith)
                requires
                    whole == m as nat * pow2(k as nat),
            ;
            assert(2 * (ps * whole) + ps == (2 * ps) * whole + ps) by (nonlinear_arith);
            lemma_div_multiples_vanish_fancy(whole as int, ps as int, (2 * ps) as int);
        }
        if k >= 64 {
            proof {
                arith::lemma_pow2_order_le(64, k as nat);
                lemma_pow2_pos(f.mant());
                assert(whole >= pow2(64)) by (nonlinear_arith)
                    requires
                        whole == m as nat * pow2(k as nat),
                        m >= 1,
                        pow2(k as nat) >= pow2(64),
                ;
            }
            return u128::MAX;
        }
        proof {
            arith::lemma_widened(m as nat, k as nat);
        }
        shift_left(m as u128, k)
    } else {
        let k: u32 = scale - t;
        let ghost pt = pow2(t as nat);
        let ghost pk = pow2(k as nat);
        let ghost half = pow2((k - 1) as nat);
        proof {
            lemma_pow2_adds(t as nat, k as nat);
            lemma_pow2_pos(t as nat);
            lemma_pow2_pos(k as nat);
            lemma_pow2_unfold(k as nat);
            // (2 * m * pt + pt * pk) / (2 * pt * pk) == (m + half) / pk
            assert(2 * (m as nat * pt) + pt * pk == (m + half) as nat * (2 * pt)) by (nonlinear_arith)
                requires
                    pk == 2 * half,
            ;
            assert(2 * (pt * pk) == (2 * pt) * pk) by (nonlinear_arith);
            lemma_truncate_middle_free((m + half) as nat, 2 * pt, pk);
        }
        if k > 64 {
            proof {
                arith::lemma_pow2_order_le(64, (k - 1) as nat);
                lemma_basic_div((m + half) as int, pk as int);
            }
            return 0;
        }
        proof {
            arith::lemma_pow2_order_le((k - 1) as nat, 63);
            assert(1 * half == half);
        }
        shift_right(m as u128 + shift_left(1, k - 1), k)
    }
}

} // verus!
