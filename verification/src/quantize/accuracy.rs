//! How far INT4 takes a number from where it was, and that it takes it there
//! once.
//!
//! Everything is counted in units of binary32, of which `one()` make up 1.

use crate::float::arith;
use crate::float::arith::Parts;
use crate::float::formats;
use crate::float::formats::Format;
use crate::float::laws;
use crate::float::round;
use crate::float::{Binary16, Binary32};
use crate::parallel;
use crate::quantize::fp16;
use crate::quantize::int4;
use vstd::arithmetic::div_mod::*;
use vstd::arithmetic::mul::*;
use vstd::arithmetic::power2::*;
use vstd::prelude::*;

verus! {

/// 1 in units of binary32.
pub open spec fn one() -> nat {
    pow2(149)
}

/// Small whole numbers are binary32 numbers.
proof fn lemma_small_whole(n: nat)
    requires
        n < 0x100_0000,
    ensures
        Binary32::of_integer(n).finite(),
        !Binary32::of_integer(n).parts().neg,
        Binary32::of_integer(n).units() == n * one(),
{
    let f = Format::Single;
    round::lemma_format_powers(f);
    lemma2_to64();
    let code = laws::lemma_representable(f, n, 149);
    formats::lemma_nearest_exact(f, code, 1);
    assert(f.units(code) * 1 == f.units(code));
    Binary32::of_integer(n).lemma_parts(arith::from_integer(f, n));
}

/// The parts of a quotient of positive numbers.
proof fn lemma_quotient(a: Binary32, b: Binary32)
    requires
        a.finite(),
        b.finite(),
        !a.parts().neg,
        !b.parts().neg,
        b.units() > 0,
    ensures
        ({
            let code = Format::Single.nearest(a.units() * one(), b.units());
            &&& a.quotient(b).parts() == (Parts { neg: false, code: code as u64 })
            &&& Format::Single.is_nearest(code, a.units() * one(), b.units())
        }),
{
    let f = Format::Single;
    round::lemma_units_zero(f);
    laws::law_nearest_exists(f, a.units() * one(), b.units());
    a.quotient(b).lemma_parts(arith::quotient(f, a.parts(), b.parts()));
}

/// The parts of a product with a positive number.
proof fn lemma_product(a: Binary32, b: Binary32)
    requires
        a.finite(),
        b.finite(),
        !b.parts().neg,
    ensures
        ({
            let code = Format::Single.nearest(a.units() * b.units(), one());
            &&& a.product(b).parts() == (Parts { neg: a.parts().neg, code: code as u64 })
            &&& Format::Single.is_nearest(code, a.units() * b.units(), one())
        }),
{
    let f = Format::Single;
    lemma_pow2_pos(149);
    laws::law_nearest_exists(f, a.units() * b.units(), one());
    a.product(b).lemma_parts(arith::product(f, a.parts(), b.parts()));
}

/// The least normal magnitude of binary32.
proof fn lemma_least_normal()
    ensures
        Format::Single.units(pow2(23)) == 0x80_0000,
{
    lemma2_to64();
    formats::lemma_grid_join(pow2(23), 0, 23);
    lemma_pow2_unfold(24);
    assert(0 * pow2(23) == 0);
    assert(pow2(23) * 1 == pow2(23));
}

/// A group whose largest magnitude over 7 lies in the normal range of binary16.
pub open spec fn is_normal_group(group: Seq<Binary32>) -> bool {
    let seventh = int4::abs_max(group).quotient(Binary32::of_integer(7));
    &&& seventh.finite()
    &&& seventh.units() >= pow2(135)
    &&& int4::scale_of(group).finite()
}

/// The scale against the largest magnitude, which is about 7 scales.
proof fn lemma_scale(group: Seq<Binary32>)
    requires
        is_normal_group(group),
    ensures
        int4::abs_max(group).finite(),
        int4::scale_of(group).widened().finite(),
        !int4::scale_of(group).widened().parts().neg,
        int4::scale_of(group).widened().units() >= pow2(134),
        int4::scale_of(group).widened().units() < pow2(165),
        100 * int4::abs_max(group).units() <= 701 * int4::scale_of(group).widened().units(),
        14000 * int4::scale_of(group).widened().units() <= 2001 * int4::abs_max(group).units(),
        int4::abs_max(group).parts().code != 0,
{
    let f = Format::Single;
    let max = int4::abs_max(group);
    let seven = Binary32::of_integer(7);
    let scale = int4::scale_of(group);
    let z = max.quotient(seven);
    let p = one();
    int4::law_abs_max(group);
    lemma_small_whole(7);
    lemma_pow2_pos(149);
    lemma_pow2_pos(135);
    round::lemma_units_zero(f);
    z.lemma_parts(arith::quotient(f, max.parts(), seven.parts()));
    assert(max.finite());
    lemma_quotient(max, seven);
    let m = max.units();
    let zu = z.units();
    // z is within one part in 2^24 of a seventh.
    lemma_least_normal();
    lemma2_to64();
    arith::lemma_pow2_order_le(24, 135);
    if m * p < 0x80_0000 * (7 * p) {
        laws::lemma_bounded(f, m * p, 7 * p, pow2(23));
    }
    laws::law_relative_error(f, m * p, 7 * p, z.parts().code as nat);
    assert(pow2(24) == 0x100_0000);
    assert(0xFF_FFFF * m <= 7 * 0x100_0000 * zu && 7 * 0x100_0000 * zu <= 0x100_0001 * m)
        by (nonlinear_arith)
        requires
            0x100_0000 * arith::magnitude(zu * (7 * p) - m * p) <= m * p,
            p > 0,
    {
        assert(m * p - zu * (7 * p) == (m - 7 * zu) * p);
        assert(zu * (7 * p) - m * p == (7 * zu - m) * p);
        assert(0x100_0000 * ((m - 7 * zu) * p) <= m * p);
        assert(0x100_0000 * ((7 * zu - m) * p) <= m * p);
        assert((0x100_0000 * (m - 7 * zu)) * p <= m * p);
        assert((0x100_0000 * (7 * zu - m)) * p <= m * p);
        assert(0x100_0000 * (m - 7 * zu) <= m);
        assert(0x100_0000 * (7 * zu - m) <= m);
    }
    // It is no zero, so that it is what the scale is made of.
    if max.parts().code == 0 {
        assert(m == 0);
        assert(7 * 0x100_0000 * zu >= 0);
        assert(m * p == 0) by (nonlinear_arith)
            requires
                m == 0,
        ;
        assert((7 * p) > 0);
        formats::lemma_nearest_exact(f, 0, 7 * p);
        assert(0 * (7 * p) == 0);
    }
    assert(scale == z.narrowed());
    // The scale is within one part in 2^11 of that.
    let h = arith::converted(f, Format::Half, z.parts());
    let den = pow2(125);
    lemma_pow2_pos(125);
    assert(round::up(-125) == 1);
    assert(zu * 1 == zu);
    laws::law_nearest_exists(Format::Half, zu, den);
    scale.lemma_parts(h);
    formats::lemma_grid_join(pow2(10), 0, 10);
    lemma_pow2_unfold(11);
    assert(0 * pow2(10) == 0);
    assert(pow2(10) * 1 == pow2(10));
    lemma_pow2_adds(10, 125);
    laws::law_relative_error(Format::Half, zu, den, h.code as nat);
    laws::law_widening_is_exact(Format::Half, f, h);
    scale.widened().lemma_parts(arith::converted(Format::Half, f, h));
    let s = scale.widened().units();
    assert(s == Format::Half.units(h.code as nat) * den);
    assert(2047 * zu <= 2048 * s <= 2049 * zu);
    assert(14000 * s <= 2001 * m) by (nonlinear_arith)
        requires
            7 * 0x100_0000 * zu <= 0x100_0001 * m,
            2048 * s <= 2049 * zu,
    ;
    assert(100 * m <= 701 * s) by (nonlinear_arith)
        requires
            0xFF_FFFF * m <= 7 * 0x100_0000 * zu,
            2048 * s >= 2047 * zu,
    ;
    // Its size.
    lemma_pow2_unfold(135);
    assert(s >= pow2(134));
    let top = Format::Half.infinity();
    round::lemma_format_powers(Format::Half);
    formats::lemma_units_increasing(Format::Half, h.code as nat, top);
    formats::lemma_grid_join(pow2(10), 30, 10);
    lemma_pow2_adds(10, 30);
    lemma_pow2_adds(40, 125);
    assert(30 * pow2(10) + pow2(10) == top);
    assert(Format::Half.units(h.code as nat) * den < pow2(40) * den) by (nonlinear_arith)
        requires
            Format::Half.units(h.code as nat) < pow2(40),
            den > 0,
    ;
}

/// The inverse of a scale, against the scale.
proof fn lemma_inverse(scale: Binary16)
    requires
        scale.widened().finite(),
        !scale.widened().parts().neg,
        pow2(134) <= scale.widened().units() < pow2(165),
    ensures
        int4::inverse(scale).finite(),
        !int4::inverse(scale).parts().neg,
        0x100_0000 * arith::magnitude(
            int4::inverse(scale).units() * scale.widened().units() - one() * one(),
        ) <= one() * one(),
{
    let f = Format::Single;
    let p = one();
    let wide = scale.widened();
    let s = wide.units();
    lemma_pow2_pos(134);
    lemma_pow2_pos(149);
    round::lemma_units_zero(f);
    assert(wide.parts().code != 0);
    lemma_small_whole(1);
    assert(1 * p == p);
    lemma_quotient(Binary32::of_integer(1), wide);
    let code = f.nearest(p * p, s);
    lemma2_to64();
    lemma_least_normal();
    lemma_pow2_adds(149, 149);
    lemma_pow2_adds(23, 165);
    lemma_pow2_adds(165, 134);
    arith::lemma_pow2_order_le(188, 298);
    arith::lemma_pow2_order_le(298, 299);
    let top = laws::lemma_representable(f, 1, 165);
    assert(1 * pow2(165) == pow2(165));
    assert(p * p <= pow2(165) * s) by (nonlinear_arith)
        requires
            p * p <= pow2(165) * pow2(134),
            s >= pow2(134),
    ;
    laws::lemma_bounded(f, p * p, s, top);
    assert(0x80_0000 * s <= p * p) by (nonlinear_arith)
        requires
            s <= pow2(165),
            0x80_0000 * pow2(165) <= p * p,
    ;
    laws::law_relative_error(f, p * p, s, code);
    assert(pow2(24) == 0x100_0000);
}

/// A binary32 product of positive numbers up to 8, against the exact one.
proof fn lemma_product_error(num: nat, code: nat)
    requires
        num <= (8 * one()) * one(),
        Format::Single.is_nearest(code, num, one()),
    ensures
        code < Format::Single.infinity(),
        Format::Single.units(code) <= 8 * one(),
        0x100_0000 * arith::magnitude(Format::Single.units(code) * one() - num) <= (8 * one())
            * one(),
{
    let f = Format::Single;
    let p = one();
    lemma_pow2_pos(149);
    lemma2_to64();
    round::lemma_format_powers(f);
    let top = laws::lemma_representable(f, 8, 149);
    laws::lemma_bounded(f, num, p, top);
    formats::lemma_nearest_is(f, code, num, p);
    lemma_least_normal();
    if num >= 0x80_0000 * p {
        laws::law_relative_error(f, num, p, code);
        assert(pow2(24) == 0x100_0000);
    } else {
        laws::lemma_bounded(f, num, p, pow2(23));
        lemma_subnormal(code);
        let w = f.units(code);
        if code > 0 {
            lemma_subnormal((code - 1) as nat);
            assert((w - 1 + w) * p == 2 * (w * p) - p) by (nonlinear_arith);
        }
        lemma_subnormal(code + 1);
        assert((w + w + 1) * p == 2 * (w * p) + p) by (nonlinear_arith);
        arith::lemma_pow2_order_le(24, 149);
        assert(0x80_0000 * p <= (8 * p) * p) by (nonlinear_arith)
            requires
                p >= 0x80_0000,
        ;
        assert(w == 0 ==> w * p == 0) by (nonlinear_arith);
    }
}

/// Up to twice the least normal magnitude, a code counts units.
proof fn lemma_subnormal(code: nat)
    requires
        code <= 0x80_0001,
    ensures
        Format::Single.units(code) == code,
{
    lemma2_to64();
    lemma_pow2_unfold(24);
    formats::lemma_grid_join(code, 0, 23);
    assert(0 * pow2(23) == 0);
    assert(code * 1 == code);
}

/// The integer of a number: within half a scale and a bit of the number, and
/// within the range that needs no cutting.
proof fn lemma_integer(u: nat, i: nat, s: nat, w: nat, k: nat)
    requires
        s > 0,
        100 * u <= 701 * s,
        0x100_0000 * arith::magnitude(i * s - one() * one()) <= one() * one(),
        0x100_0000 * arith::magnitude(w * one() - u * i) <= (8 * one()) * one(),
        2 * k * one() <= 2 * w + one() < 2 * (k + 1) * one(),
    ensures
        k <= 7,
        2000 * arith::magnitude(k * s - u) <= 1001 * s,
{
    let p = one();
    let t: int = 0x100_0000;
    lemma_pow2_pos(149);
    let ps = p * s;
    let a = w * s - u * p;
    // In 2^-24: 16 scales of one.
    assert(-16 * ps <= t * a <= 16 * ps) by (nonlinear_arith)
        requires
            t == 0x100_0000,
            a == w * s - u * p,
            ps == p * s,
            p > 0,
            s > 0,
            100 * u <= 701 * s,
            -(p * p) <= t * (i * s - p * p) <= p * p,
            -((8 * p) * p) <= t * (w * p - u * i) <= (8 * p) * p,
    {
        lemma_spread(u, i, s, w, p);
    }
    let b = k * p - w;
    assert(2 * k * p == 2 * (k * p) && 2 * (k + 1) * p == 2 * (k * p) + 2 * p) by (nonlinear_arith);
    assert(-p <= 2 * b <= p);
    // k * s - u, times p.
    assert((k * s - u) * p == b * s + a) by (nonlinear_arith)
        requires
            a == w * s - u * p,
            b == k * p - w,
    ;
    assert(-ps <= 2 * (b * s) <= ps) by (nonlinear_arith)
        requires
            -p <= 2 * b <= p,
            ps == p * s,
            s > 0,
    ;
    let d = (k * s - u) * p;
    assert(2000 * d <= 1001 * ps && 2000 * d >= -1001 * ps);
    assert(2000 * (k * s - u) <= 1001 * s && 2000 * (k * s - u) >= -1001 * s) by (nonlinear_arith)
        requires
            d == (k * s - u) * p,
            ps == p * s,
            2000 * d <= 1001 * ps,
            2000 * d >= -1001 * ps,
            p > 0,
    ;
    assert(k <= 7) by (nonlinear_arith)
        requires
            2000 * (k * s - u) <= 1001 * s,
            100 * u <= 701 * s,
            s > 0,
    ;
}

/// The two roundings together.
proof fn lemma_spread(u: nat, i: nat, s: nat, w: nat, p: nat)
    requires
        p > 0,
        s > 0,
        100 * u <= 701 * s,
        -(p * p) <= 0x100_0000 * (i * s - p * p) <= p * p,
        -((8 * p) * p) <= 0x100_0000 * (w * p - u * i) <= (8 * p) * p,
    ensures
        -16 * (p * s) <= 0x100_0000 * (w * s - u * p) <= 16 * (p * s),
{
    let t: int = 0x100_0000;
    let x = w * p - u * i;
    let y = i * s - p * p;
    let a = w * s - u * p;
    let pp = p * p;
    assert(a * p == x * s + u * y) by (nonlinear_arith)
        requires
            x == w * p - u * i,
            y == i * s - p * p,
            a == w * s - u * p,
    ;
    assert(-((8 * pp) * s) <= t * x * s <= (8 * pp) * s) by (nonlinear_arith)
        requires
            -((8 * p) * p) <= t * x <= (8 * p) * p,
            pp == p * p,
            s > 0,
    ;
    assert(-(u * pp) <= t * (u * y) <= u * pp) by (nonlinear_arith)
        requires
            -pp <= t * y <= pp,
            u >= 0,
    ;
    assert(u * pp <= (8 * s) * pp) by (nonlinear_arith)
        requires
            100 * u <= 701 * s,
            pp >= 0,
    ;
    assert(pp >= 0) by (nonlinear_arith)
        requires
            pp == p * p,
    ;
    assert((8 * pp) * s + (8 * s) * pp == (16 * (p * s)) * p) by (nonlinear_arith)
        requires
            pp == p * p,
    ;
    assert(t * (a * p) == t * x * s + t * (u * y)) by (nonlinear_arith)
        requires
            a * p == x * s + u * y,
    ;
    assert(-16 * (p * s) <= t * a <= 16 * (p * s)) by (nonlinear_arith)
        requires
            -((16 * (p * s)) * p) <= t * (a * p) <= (16 * (p * s)) * p,
            p > 0,
    {
        assert(t * (a * p) == (t * a) * p);
    }
}

/// A whole number up to 8 times a scale is exact.
proof fn lemma_scaled(k: nat, scale: Binary16)
    requires
        k <= 8,
        scale.finite(),
    ensures
        ({
            let code = Format::Single.nearest((k * one()) * scale.widened().units(), one());
            &&& code < Format::Single.infinity()
            &&& Format::Single.units(code) == k * scale.widened().units()
        }),
{
    let f = Format::Single;
    let p = one();
    let h = scale.parts();
    let c = h.code as nat;
    let m = formats::significand(c, 10);
    let t = formats::grid(c, 10);
    laws::law_widening_is_exact(Format::Half, f, h);
    scale.widened().lemma_parts(arith::converted(Format::Half, f, h));
    lemma2_to64();
    lemma_pow2_pos(149);
    formats::lemma_grid_split(c, 10);
    let b = pow2(10);
    assert(t < 31) by (nonlinear_arith)
        requires
            t * b <= c,
            c < 31 * b,
            b > 0,
    ;
    lemma_pow2_adds(t, 125);
    let s = scale.widened().units();
    assert(k * m < 0x100_0000) by (nonlinear_arith)
        requires
            k <= 8,
            m < 2048,
    ;
    let code = laws::lemma_representable(f, k * m, t + 125);
    assert((k * m) * (pow2(t) * pow2(125)) == k * ((m * pow2(t)) * pow2(125))) by (nonlinear_arith);
    formats::lemma_nearest_exact(f, code, p);
    assert((k * s) * p == (k * p) * s) by (nonlinear_arith);
}

/// A number of at most 7.01 scales: its integer, and what comes back of it.
proof fn lemma_number(v: Binary32, scale: Binary16) -> (k: nat)
    requires
        v.finite(),
        scale.finite(),
        scale.widened().finite(),
        !scale.widened().parts().neg,
        pow2(134) <= scale.widened().units() < pow2(165),
        100 * v.units() <= 701 * scale.widened().units(),
    ensures
        k <= 7,
        int4::quantized(v, scale) == (if v.parts().neg {
            -(k as int)
        } else {
            k as int
        }),
        2000 * arith::magnitude(k * scale.widened().units() - v.units()) <= 1001
            * scale.widened().units(),
        ({
            let q = int4::quantized(v, scale);
            let r = Binary32::of_signed(q).product(scale.widened());
            &&& r.finite()
            &&& r.units() == k * scale.widened().units()
            &&& r.parts().neg <==> q < 0
        }),
{
    let f = Format::Single;
    let p = one();
    lemma_pow2_pos(134);
    lemma_pow2_pos(149);
    lemma_inverse(scale);
    let inv = int4::inverse(scale);
    let u = v.units();
    let s = scale.widened().units();
    let iu = inv.units();
    // The product with the inverse, and the integer.
    lemma_product(v, inv);
    lemma_small_product(u, iu, s, p);
    let code = f.nearest(u * iu, p);
    lemma_product_error(u * iu, code);
    let w = f.units(code);
    let k = (2 * w + p) as nat / (2 * p);
    lemma_fundamental_div_mod((2 * w + p) as int, (2 * p) as int);
    lemma_mod_bound((2 * w + p) as int, (2 * p) as int);
    assert(2 * k * p == (2 * p) * k && 2 * (k + 1) * p == (2 * p) * k + 2 * p) by (nonlinear_arith);
    lemma_integer(u, iu, s, w, k);
    let q = int4::quantized(v, scale);
    assert(q == if v.parts().neg {
        -(k as int)
    } else {
        k as int
    });
    // The integer times the scale.
    lemma_small_whole(k);
    let whole = Binary32::of_signed(q);
    let parts = Parts { neg: q < 0, ..arith::from_integer(f, k) };
    assert(arith::magnitude(q) == k);
    Binary32::of_integer(k).lemma_parts(arith::from_integer(f, k));
    laws::law_nearest_exists(f, k * p, 1);
    whole.lemma_parts(parts);
    lemma_scaled(k, scale);
    lemma_product(whole, scale.widened());
    k
}

/// INT4 takes a number of a group in the normal range no further than half the
/// scale of its group, and a thousandth of that. The largest magnitude of the
/// group is 7 scales, give or take a thousandth.
pub proof fn law_int4_error(data: Seq<Binary32>, size: nat, i: int)
    requires
        size > 0,
        0 <= i < data.len(),
        data[i].finite(),
        is_normal_group(parallel::chunk_of(data, size, i / size as int)),
    ensures
        ({
            let group = parallel::chunk_of(data, size, i / size as int);
            let scale = int4::scale_of(group).widened().units();
            let r = int4::through_int4(data, size, i);
            &&& r.finite()
            &&& 2000 * arith::magnitude(
                r.parts().value(Format::Single) - data[i].parts().value(Format::Single),
            ) <= 1001 * scale
            &&& 100 * int4::abs_max(group).units() <= 701 * scale
            &&& 14000 * scale <= 2001 * int4::abs_max(group).units()
        }),
{
    let v = data[i];
    let group = parallel::chunk_of(data, size, i / size as int);
    let scale = int4::scale_of(group);
    lemma_scale(group);
    lemma_member(data, size, i);
    let k = lemma_number(v, scale);
    let s = scale.widened().units();
    assert(k == 0 ==> k * s == 0) by (nonlinear_arith);
}

/// A group that INT4 keeps: its largest magnitude is 0, or lies in the range in
/// which its seventh part is a normal binary16 number, from `7 * 2^-14` to
/// `7 * 65504`.
pub open spec fn is_kept(group: Seq<Binary32>) -> bool {
    let max = int4::abs_max(group).units();
    max == 0 || 7 * pow2(135) <= max <= 458528 * one()
}

/// Such a group has a scale in the normal range, unless it is all zeros.
proof fn lemma_kept(group: Seq<Binary32>)
    requires
        is_kept(group),
    ensures
        int4::abs_max(group).units() == 0 ==> int4::abs_max(group).parts().code == 0,
        int4::abs_max(group).units() > 0 ==> is_normal_group(group),
{
    let f = Format::Single;
    let p = one();
    let max = int4::abs_max(group);
    let m = max.units();
    int4::law_abs_max(group);
    round::lemma_units_zero(f);
    if m == 0 {
        if max.parts().code > 0 {
            formats::lemma_units_increasing(f, 0, max.parts().code as nat);
        }
    } else {
        let seven = Binary32::of_integer(7);
        lemma2_to64();
        lemma_pow2_pos(149);
        lemma_pow2_pos(125);
        round::lemma_format_powers(f);
        lemma_small_whole(7);
        // Below infinity.
        let c = laws::lemma_representable(f, 458528, 149);
        if !max.finite() {
            formats::lemma_units_increasing(f, c, max.parts().code as nat);
        }
        lemma_quotient(max, seven);
        let z = max.quotient(seven);
        // The seventh part, from both sides.
        let lo = laws::lemma_representable(f, 1, 135);
        let hi = laws::lemma_representable(f, 65504, 149);
        assert(1 * pow2(135) == pow2(135));
        let den = 7 * p;
        assert(pow2(135) * den <= m * p && m * p <= (65504 * p) * den) by (nonlinear_arith)
            requires
                den == 7 * p,
                7 * pow2(135) <= m <= 458528 * p,
                p > 0,
        ;
        laws::law_nearest_monotone(f, pow2(135) * den, m * p, den);
        formats::lemma_nearest_exact(f, lo, den);
        laws::lemma_bounded(f, m * p, den, hi);
        let zc = z.parts().code as nat;
        if lo < zc {
            formats::lemma_units_increasing(f, lo, zc);
        }
        assert(z.finite() && z.units() >= pow2(135));
        // As a binary16 number it is at most the largest one.
        let h = arith::converted(f, Format::Half, z.parts());
        formats::lemma_grid_join(2047, 29, 10);
        lemma_pow2_unfold(11);
        lemma_pow2_adds(5, 24);
        lemma_pow2_adds(24, 125);
        let u = Format::Half.units(0x7BFF);
        let top = 29 * pow2(10) + 2047;
        assert(top == 0x7BFF);
        assert(Format::Half.units(top) == 2047 * pow2(29));
        assert(u == 65504 * pow2(24));
        assert(u * pow2(125) == 65504 * p) by (nonlinear_arith)
            requires
                u == 65504 * pow2(24),
                p == pow2(24) * pow2(125),
        ;
        assert(round::up(-125) == 1);
        assert(z.units() * 1 == z.units());
        laws::lemma_bounded(Format::Half, z.units(), pow2(125), 0x7BFF);
        z.narrowed().lemma_parts(h);
        assert(max.parts().code != 0);
    }
}

/// INT4 takes a number no further than 72 thousandths of the largest magnitude
/// of its group: half of one of 7 parts, and what rounding the scale costs.
pub proof fn law_int4_relative_error(data: Seq<Binary32>, size: nat, i: int)
    requires
        size > 0,
        0 <= i < data.len(),
        data[i].finite(),
        is_kept(parallel::chunk_of(data, size, i / size as int)),
    ensures
        ({
            let group = parallel::chunk_of(data, size, i / size as int);
            let r = int4::through_int4(data, size, i);
            &&& r.finite()
            &&& 1000 * arith::magnitude(
                r.parts().value(Format::Single) - data[i].parts().value(Format::Single),
            ) <= 72 * int4::abs_max(group).units()
        }),
{
    let group = parallel::chunk_of(data, size, i / size as int);
    lemma_kept(group);
    if int4::abs_max(group).units() > 0 {
        law_int4_error(data, size, i);
    } else {
        lemma_member(data, size, i);
        round::lemma_units_zero(Format::Single);
        if data[i].parts().code > 0 {
            formats::lemma_units_increasing(Format::Single, 0, data[i].parts().code as nat);
        }
        int4::lemma_unit_scale();
        int4::law_int4_preserves_zero(data, size, i);
    }
}

/// What is at most 7.01 times a number, times its rounded inverse.
proof fn lemma_small_product(u: nat, i: nat, s: nat, p: nat)
    requires
        s > 0,
        100 * u <= 701 * s,
        0x100_0000 * (i * s - p * p) <= p * p,
    ensures
        u * i <= (8 * p) * p,
{
    let pp = p * p;
    assert(100 * (u * i) <= 701 * (i * s)) by (nonlinear_arith)
        requires
            100 * u <= 701 * s,
    ;
    assert((8 * p) * p == 8 * pp) by (nonlinear_arith)
        requires
            pp == p * p,
    ;
    assert(pp >= 0) by (nonlinear_arith)
        requires
            pp == p * p,
    ;
}

/// A number is one of its group.
proof fn lemma_member(data: Seq<Binary32>, size: nat, i: int)
    requires
        size > 0,
        0 <= i < data.len(),
        data[i].finite(),
    ensures
        data[i].units() <= int4::abs_max(
            parallel::chunk_of(data, size, i / size as int),
        ).units(),
{
    let g = i / size as int;
    let group = parallel::chunk_of(data, size, g);
    int4::lemma_group_of(data.len(), size, i);
    let j = i - g * size;
    assert(group[j] == data[i]);
    lemma_below_max(group, j);
}

/// What a number becomes through INT4 under a scale.
spec fn again(v: Binary32, scale: Binary16) -> Binary32 {
    Binary32::of_signed(int4::quantized(v, scale)).product(scale.widened())
}

/// What comes back of a number keeps its integer.
proof fn lemma_same_integer(v: Binary32, scale: Binary16) -> (k: nat)
    requires
        v.finite(),
        scale.finite(),
        scale.widened().finite(),
        !scale.widened().parts().neg,
        pow2(134) <= scale.widened().units() < pow2(165),
        100 * v.units() <= 701 * scale.widened().units(),
    ensures
        k <= 7,
        again(v, scale).finite(),
        again(v, scale).units() == k * scale.widened().units(),
        2000 * arith::magnitude(k * scale.widened().units() - v.units()) <= 1001
            * scale.widened().units(),
        int4::quantized(again(v, scale), scale) == int4::quantized(v, scale),
{
    let s = scale.widened().units();
    lemma_pow2_pos(134);
    let k = lemma_number(v, scale);
    assert(100 * (k * s) <= 701 * s) by (nonlinear_arith)
        requires
            k <= 7,
    ;
    let n = lemma_number(again(v, scale), scale);
    assert(n == k) by (nonlinear_arith)
        requires
            2000 * (n * s - k * s) <= 1001 * s,
            2000 * (k * s - n * s) <= 1001 * s,
            s > 0,
    ;
    k
}

/// What comes back of a group: its scale and its integers.
proof fn lemma_same_group(group: Seq<Binary32>)
    requires
        is_kept(group),
        forall|j: int| 0 <= j < group.len() ==> (#[trigger] group[j]).finite(),
    ensures
        ({
            let scale = int4::scale_of(group);
            let back = group.map_values(|v: Binary32| again(v, scale));
            &&& int4::scale_of(back) == scale
            &&& forall|j: int|
                0 <= j < group.len() ==> int4::quantized(#[trigger] back[j], scale)
                    == int4::quantized(group[j], scale)
        }),
{
    let scale = int4::scale_of(group);
    let back = group.map_values(|v: Binary32| again(v, scale));
    lemma_kept(group);
    int4::law_abs_max(group);
    if int4::abs_max(group).units() > 0 {
        lemma_scale(group);
        assert forall|j: int| 0 <= j < group.len() implies int4::quantized(
            #[trigger] back[j],
            scale,
        ) == int4::quantized(group[j], scale) by {
            lemma_below_max(group, j);
            lemma_same_integer(group[j], scale);
        }
        lemma_same_scale(group);
    } else {
        int4::lemma_unit_scale();
        assert forall|j: int| 0 <= j < group.len() implies int4::quantized(
            #[trigger] back[j],
            scale,
        ) == int4::quantized(group[j], scale) && back[j].parts().code == 0 by {
            lemma_below_max(group, j);
            round::lemma_units_zero(Format::Single);
            if group[j].parts().code > 0 {
                formats::lemma_units_increasing(Format::Single, 0, group[j].parts().code as nat);
            }
            int4::lemma_zero_number(group[j], scale);
            int4::lemma_zero_number(back[j], scale);
        }
        int4::law_abs_max(back);
        if int4::abs_max(back).parts().code != 0 {
            let j = choose|j: int|
                0 <= j < back.len() && int4::abs_max(back) == (#[trigger] back[j]).magnitude();
            back[j].lemma_parts(Parts { neg: false, ..back[j].parts() });
        }
    }
}

/// No number of a group lies above its largest magnitude.
proof fn lemma_below_max(group: Seq<Binary32>, j: int)
    requires
        0 <= j < group.len(),
        group[j].finite(),
    ensures
        group[j].units() <= int4::abs_max(group).units(),
{
    int4::law_abs_max(group);
    group[j].lemma_parts(Parts { neg: false, ..group[j].parts() });
    assert(!int4::abs_max(group).below(group[j].magnitude()));
}

/// The largest magnitude becomes 7 scales exactly, so that the scale stays.
proof fn lemma_same_scale(group: Seq<Binary32>)
    requires
        is_normal_group(group),
        forall|j: int| 0 <= j < group.len() ==> (#[trigger] group[j]).finite(),
    ensures
        int4::scale_of(
            group.map_values(|v: Binary32| again(v, int4::scale_of(group))),
        ) == int4::scale_of(group),
{
    let f = Format::Single;
    let p = one();
    let scale = int4::scale_of(group);
    let wide = scale.widened();
    let s = wide.units();
    let back = group.map_values(|v: Binary32| again(v, scale));
    lemma_scale(group);
    lemma_pow2_pos(134);
    lemma_pow2_pos(149);
    int4::law_abs_max(group);
    int4::law_abs_max(back);
    let max = int4::abs_max(back);
    // One number becomes 7 scales.
    let j = choose|j: int|
        0 <= j < group.len() && int4::abs_max(group) == (#[trigger] group[j]).magnitude();
    group[j].lemma_parts(Parts { neg: false, ..group[j].parts() });
    let u = group[j].units();
    assert(u == int4::abs_max(group).units());
    let k = lemma_same_integer(group[j], scale);
    assert(k == 7) by (nonlinear_arith)
        requires
            k <= 7,
            2000 * (u - k * s) <= 1001 * s,
            14000 * s <= 2001 * u,
            s > 0,
    ;
    assert(back[j].units() == 7 * s);
    lemma_below_max(back, j);
    // None becomes more.
    round::lemma_units_zero(f);
    assert(max.parts().code != 0);
    let i = choose|i: int| 0 <= i < back.len() && max == (#[trigger] back[i]).magnitude();
    lemma_below_max(group, i);
    let n = lemma_same_integer(group[i], scale);
    back[i].lemma_parts(Parts { neg: false, ..back[i].parts() });
    assert(n * s <= 7 * s) by (nonlinear_arith)
        requires
            n <= 7,
    ;
    assert(max.units() == 7 * s);
    // A seventh of that is the scale.
    let seven = Binary32::of_integer(7);
    lemma_small_whole(7);
    lemma_quotient(max, seven);
    let c = wide.parts().code as nat;
    assert(s * (7 * p) == (7 * s) * p) by (nonlinear_arith);
    formats::lemma_nearest_exact(f, c, 7 * p);
    let z = max.quotient(seven);
    assert(z.parts() == wide.parts());
    z.lemma_parts(wide.parts());
    wide.lemma_parts(wide.parts());
    assert(z == wide);
    fp16::law_fp16_round_trip(scale);
}

/// Quantizing what came back of quantized data changes nothing: the bytes and
/// the scales are the same.
pub proof fn law_int4_idempotent(
    first: int4::Int4Packed,
    second: int4::Int4Packed,
    data: Seq<Binary32>,
    size: nat,
)
    requires
        size > 0,
        forall|i: int| 0 <= i < data.len() ==> (#[trigger] data[i]).finite(),
        forall|g: int|
            0 <= g < parallel::chunk_count(data.len(), size) ==> is_kept(
                #[trigger] parallel::chunk_of(data, size, g),
            ),
        first.is_quantized(data, size),
        second.is_quantized(first.restored_numbers(), size),
    ensures
        second.data@ == first.data@,
        second.scales@ == first.scales@,
        second.group_size == first.group_size,
        second.num_elements == first.num_elements,
{
    let back = first.restored_numbers();
    let count = parallel::chunk_count(data.len(), size);
    int4::law_int4_round_trip(first, data, size);
    assert forall|g: int| 0 <= g < count implies int4::scale_of(
        #[trigger] parallel::chunk_of(back, size, g),
    ) == int4::scale_of(parallel::chunk_of(data, size, g)) by {
        lemma_same_chunk(data, size, g);
    }
    assert(second.scales@ =~= first.scales@);
    assert forall|i: int| 0 <= i < data.len() implies int4::nibbles(back, size)[i]
        == int4::nibbles(data, size)[i] by {
        let g = i / size as int;
        int4::lemma_group_of(data.len(), size, i);
        lemma_same_chunk(data, size, g);
        let j = i - g * size;
        assert(parallel::chunk_of(data, size, g)[j] == data[i]);
        assert(parallel::chunk_of(back, size, g)[j] == back[i]);
    }
    assert(int4::nibbles(back, size) =~= int4::nibbles(data, size));
}

/// A group of what comes back is what comes back of the group.
proof fn lemma_same_chunk(data: Seq<Binary32>, size: nat, g: int)
    requires
        size > 0,
        0 <= g < parallel::chunk_count(data.len(), size),
        forall|i: int| 0 <= i < data.len() ==> (#[trigger] data[i]).finite(),
        is_kept(parallel::chunk_of(data, size, g)),
    ensures
        ({
            let back = Seq::new(data.len(), |i: int| int4::through_int4(data, size, i));
            let group = parallel::chunk_of(data, size, g);
            let scale = int4::scale_of(group);
            &&& int4::scale_of(parallel::chunk_of(back, size, g)) == scale
            &&& parallel::chunk_of(back, size, g).len() == group.len()
            &&& forall|j: int|
                0 <= j < group.len() ==> int4::quantized(
                    #[trigger] parallel::chunk_of(back, size, g)[j],
                    scale,
                ) == int4::quantized(group[j], scale)
        }),
{
    let back = Seq::new(data.len(), |i: int| int4::through_int4(data, size, i));
    let group = parallel::chunk_of(data, size, g);
    let scale = int4::scale_of(group);
    let a = parallel::chunk_of(back, size, g);
    let b = group.map_values(|v: Binary32| again(v, scale));
    parallel::lemma_chunk_bounds(data.len(), size, g as nat);
    lemma_mul_nonnegative(g, size as int);
    assert((g + 1) * size == g * size + size) by (nonlinear_arith);
    assert forall|j: int| 0 <= j < a.len() implies a[j] == b[j] by {
        lemma_fundamental_div_mod_converse((g * size + j) as int, size as int, g, j);
        assert(group[j] == data[g * size + j]);
    }
    assert(a =~= b);
    assert forall|j: int| 0 <= j < group.len() implies (#[trigger] group[j]).finite() by {
        assert(group[j] == data[g * size + j]);
    }
    lemma_same_group(group);
}

/// The scale of a group: 1 if all its numbers are zero; infinite if one is; and
/// otherwise the binary16 number nearest to the binary32 number nearest to the
/// seventh part of its largest magnitude. It is never negative.
pub proof fn law_int4_scale(group: Seq<Binary32>)
    ensures
        ({
            let max = int4::abs_max(group);
            let scale = int4::scale_of(group);
            let seventh = Format::Single.nearest(max.units(), 7);
            &&& !scale.parts().neg
            &&& !scale.nan()
            &&& max.infinite() ==> scale.infinite()
            &&& max.finite() && max.units() == 0 ==> scale.finite() && scale.units() == pow2(24)
            &&& max.finite() && max.units() > 0 ==> {
                &&& Format::Single.is_nearest(seventh, max.units(), 7)
                &&& Format::Half.is_nearest(
                    scale.parts().code as nat,
                    Format::Single.units(seventh),
                    pow2(125),
                )
            }
        }),
{
    let f = Format::Single;
    let g = Format::Half;
    let max = int4::abs_max(group);
    let m = max.units();
    let seven = Binary32::of_integer(7);
    let p = one();
    int4::law_abs_max(group);
    round::lemma_units_zero(f);
    lemma_small_whole(7);
    lemma_small_whole(1);
    lemma_pow2_pos(149);
    lemma_pow2_pos(125);
    lemma2_to64();
    assert(round::up(-125) == 1);
    let z = max.quotient(seven);
    z.lemma_parts(arith::quotient(f, max.parts(), seven.parts()));
    if max.parts().code == 0 {
        let unit = Binary32::of_integer(1);
        fp16::law_fp16_closest(unit, 0);
        let c = laws::lemma_representable(g, 1, 24);
        lemma_pow2_adds(24, 125);
        assert(1 * pow2(24) == pow2(24) && 1 * p == p);
        formats::lemma_nearest_exact(g, c, pow2(125));
        formats::lemma_nearest_is(g, unit.narrowed().parts().code as nat, p, pow2(125));
    } else if max.finite() {
        formats::lemma_units_increasing(f, 0, max.parts().code as nat);
        lemma_quotient(max, seven);
        let c = f.nearest(m * p, 7 * p);
        laws::lemma_common_factor(f, c, m, 7, p);
        formats::lemma_nearest_is(f, c, m, 7);
        laws::lemma_bounded(f, m, 7, max.parts().code as nat);
        fp16::law_fp16_closest(z, 0);
    } else {
        assert(max.infinite());
        formats::lemma_units_increasing(f, 0, max.parts().code as nat);
        assert(z.infinite());
        fp16::law_fp16_value(int4::scale_of(group), z);
    }
}

/// The integer of a finite number under a finite scale: 0 if the scale is 0, and
/// otherwise the number times the rounded inverse of the scale, rounded to
/// binary32 and then to the next integer, halves going away from zero, and kept
/// within `-8..=7`. `s` is the scale in units of binary32.
pub proof fn law_int4_integer(v: Binary32, scale: Binary16)
    requires
        v.finite(),
        scale.finite(),
        !scale.parts().neg,
    ensures
        ({
            let f = Format::Single;
            let s = scale.units() * pow2(125);
            let inv = f.units(f.nearest(one() * one(), s));
            let product = f.units(f.nearest(v.units() * inv, one()));
            let k = (2 * product + one()) / (2 * one());
            let q = int4::quantized(v, scale);
            &&& s == 0 ==> q == 0
            &&& s > 0 && v.parts().neg ==> q == (if k < 8 {
                -(k as int)
            } else {
                -8
            })
            &&& s > 0 && !v.parts().neg ==> q == (if k < 7 {
                k as int
            } else {
                7
            })
        }),
{
    let f = Format::Single;
    let p = one();
    let wide = scale.widened();
    let s = scale.units() * pow2(125);
    let inv = int4::inverse(scale);
    fp16::law_fp16_value(scale, v);
    round::lemma_units_zero(f);
    lemma_small_whole(0);
    lemma_small_whole(1);
    lemma_pow2_pos(149);
    assert(0 * p == 0 && 1 * p == p);
    if wide.parts().code > 0 {
        formats::lemma_units_increasing(f, 0, wide.parts().code as nat);
        lemma_quotient(Binary32::of_integer(1), wide);
        lemma_inverse_is_finite(scale);
    }
    lemma_product(v, inv);
    let w = v.product(inv);
    let code = f.nearest(v.units() * inv.units(), p);
    if s == 0 {
        assert(inv.units() == 0);
        assert(v.units() * inv.units() == 0) by (nonlinear_arith)
            requires
                inv.units() == 0,
        ;
        formats::lemma_nearest_exact(f, 0, p);
        lemma_basic_div(p as int, 2 * p as int);
    } else if code == f.infinity() {
        lemma2_to64();
        let top = laws::lemma_representable(f, 8, 149);
        formats::lemma_units_increasing(f, top, f.infinity());
        let u = f.units(f.infinity());
        lemma_div_is_ordered((16 * p) as int, (2 * u + p) as int, (2 * p) as int);
        lemma_div_multiples_vanish(8, (2 * p) as int);
        assert((2 * p) * 8 == 16 * p);
    }
}

/// The inverse of a scale that is not zero is finite.
proof fn lemma_inverse_is_finite(scale: Binary16)
    requires
        scale.finite(),
        !scale.parts().neg,
        scale.widened().parts().code > 0,
    ensures
        int4::inverse(scale).finite(),
        !int4::inverse(scale).parts().neg,
{
    let f = Format::Single;
    let p = one();
    let wide = scale.widened();
    fp16::law_fp16_value(scale, wide);
    round::lemma_units_zero(f);
    formats::lemma_units_increasing(f, 0, wide.parts().code as nat);
    lemma_small_whole(1);
    lemma_pow2_pos(149);
    lemma_pow2_pos(125);
    assert(1 * p == p);
    lemma_quotient(Binary32::of_integer(1), wide);
    let s = wide.units();
    let h = scale.units();
    assert(s >= pow2(125)) by (nonlinear_arith)
        requires
            s == h * pow2(125),
            s > 0,
            pow2(125) > 0,
    ;
    lemma2_to64();
    round::lemma_format_powers(f);
    let top = laws::lemma_representable(f, 1, 173);
    assert(1 * pow2(173) == pow2(173));
    lemma_pow2_adds(149, 149);
    lemma_pow2_adds(173, 125);
    assert(p * p <= pow2(173) * s) by (nonlinear_arith)
        requires
            p * p == pow2(173) * pow2(125),
            s >= pow2(125),
    ;
    laws::lemma_bounded(f, p * p, s, top);
}

/// Four bits are an integer in two's complement, and stand for exactly that many
/// times the scale.
pub proof fn law_int4_value(nibble: int, scale: Binary16)
    requires
        0 <= nibble < 16,
        scale.finite(),
    ensures
        ({
            let r = int4::restored(nibble, scale);
            let q = if nibble < 8 {
                nibble
            } else {
                nibble - 16
            };
            &&& r.finite()
            &&& r.units() == arith::magnitude(q) * (scale.units() * pow2(125))
            &&& r.parts().neg <==> (q < 0) != scale.parts().neg
        }),
{
    let f = Format::Single;
    let q = int4::signed(nibble);
    let k = arith::magnitude(q);
    let wide = scale.widened();
    fp16::law_fp16_value(scale, wide);
    lemma_small_whole(k);
    let whole = Binary32::of_signed(q);
    let parts = Parts { neg: q < 0, ..arith::from_integer(f, k) };
    Binary32::of_integer(k).lemma_parts(arith::from_integer(f, k));
    laws::law_nearest_exists(f, k * one(), 1);
    whole.lemma_parts(parts);
    lemma_scaled(k, scale);
    whole.product(wide).lemma_parts(arith::product(f, whole.parts(), wide.parts()));
}

/// How quantized data is laid out: the integer of every number, under the scale of
/// its group, stands in two's complement in four bits, an even one in the low half
/// of its byte and an odd one in the high half. Half a byte that is left is 0. A
/// group is `size` numbers in a row, or what is left at the end.
pub proof fn law_int4_layout(p: int4::Int4Packed, data: Seq<Binary32>, size: nat, i: int)
    requires
        size > 0,
        p.is_quantized(data, size),
        0 <= i < data.len(),
    ensures
        p.num_elements == data.len(),
        p.group_size == size,
        p.data@.len() == (data.len() + 1) / 2,
        p.scales@.len() == (data.len() + size - 1) / size as int,
        i / (size as int) < p.scales@.len(),
        ({
            let start = (i / (size as int)) * size;
            let end = if start + size < data.len() {
                start + size
            } else {
                data.len() as int
            };
            &&& start <= i < end
            &&& p.scales@[i / (size as int)] == int4::scale_of(data.subrange(start, end))
        }),
        ({
            let q = int4::quantized(data[i], p.scales@[i / (size as int)]);
            let byte = p.data@[i / 2];
            &&& -8 <= q <= 7
            &&& i % 2 == 0 ==> byte % 16 == (q + 16) % 16
            &&& i % 2 == 1 ==> byte / 16 == (q + 16) % 16
            &&& i % 2 == 0 && i == data.len() - 1 ==> byte / 16 == 0
        }),
{
    let g = i / (size as int);
    let s = int4::nibbles(data, size);
    int4::lemma_group_of(data.len(), size, i);
    assert((g + 1) * size == g * size + size) by (nonlinear_arith);
    int4::lemma_layout(data, size, i);
}

/// How packed data is read, whoever made it: as many numbers as have a scale, up to
/// the count that is given, each of them the four bits at its place under the scale
/// of its group.
pub proof fn law_int4_reading(p: int4::Int4Packed, i: int)
    requires
        p.readable(),
        0 <= i < p.restored_numbers().len(),
    ensures
        p.restored_numbers().len() <= p.num_elements,
        p.restored_numbers().len() <= p.scales@.len() * p.group_size,
        p.restored_numbers().len() == p.num_elements || p.restored_numbers().len()
            == p.scales@.len() * p.group_size,
        p.restored_numbers()[i] == int4::restored(
            if i % 2 == 0 {
                p.data@[i / 2] as int % 16
            } else {
                p.data@[i / 2] as int / 16
            },
            p.scales@[i / p.group_size as int],
        ),
{
}

} // verus!
