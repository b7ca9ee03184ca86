//! What holds of rounding and of the conversions as a whole.

use crate::float::arith;
use crate::float::arith::Parts;
use crate::float::formats;
use crate::float::formats::Format;
use crate::float::round;
use crate::float::Binary64;
use vstd::arithmetic::div_mod::*;
use vstd::arithmetic::mul::*;
use vstd::arithmetic::power2::*;
use vstd::prelude::*;

verus! {

/// The highest bit of a positive number.
proof fn lemma_top_bit(m: nat) -> (k: nat)
    requires
        m > 0,
    ensures
        pow2(k) <= m < pow2(k + 1),
    decreases m,
{
    lemma2_to64();
    if m == 1 {
        0
    } else {
        let k = lemma_top_bit(m / 2);
        lemma_pow2_unfold(k + 1);
        lemma_pow2_unfold(k + 2);
        k + 1
    }
}

/// A significand times a power of two is a magnitude of the format, as long as
/// it lies below infinity.
pub proof fn lemma_representable(f: Format, m: nat, t: nat) -> (code: nat)
    requires
        m < pow2(f.mant() + 1),
        t + 2 < pow2(f.exp()),
    ensures
        code < f.infinity(),
        f.units(code) == m * pow2(t),
{
    let mant = f.mant();
    let p = pow2(mant);
    round::lemma_format_powers(f);
    if m == 0 {
        round::lemma_units_zero(f);
        0
    } else {
        let k = lemma_top_bit(m);
        if k > mant {
            arith::lemma_pow2_order_le(mant + 1, k);
        }
        let s: nat = if mant - k <= t {
            (mant - k) as nat
        } else {
            t
        };
        let rest = (t - s) as nat;
        let ps = pow2(s);
        let wide = m * ps;
        lemma_pow2_pos(s);
        lemma_pow2_adds(k, s);
        lemma_pow2_adds(k + 1, s);
        lemma_pow2_adds(s, rest);
        arith::lemma_pow2_order_le(k + 1 + s, mant + 1);
        assert(pow2(k) * ps <= wide < pow2(k + 1) * ps) by (nonlinear_arith)
            requires
                pow2(k) <= m < pow2(k + 1),
                ps > 0,
                wide == m * ps,
        ;
        formats::lemma_grid_join(wide, rest, mant);
        assert(wide * pow2(rest) == m * (ps * pow2(rest))) by (nonlinear_arith)
            requires
                wide == m * ps,
        ;
        let top = (pow2(f.exp()) - 1) as nat;
        assert(rest * p + wide < top * p) by (nonlinear_arith)
            requires
                rest + 2 <= top,
                wide < 2 * p,
        ;
        rest * p + wide
    }
}

/// The code at or below a magnitude that lies below that of `top`.
proof fn lemma_code_below(f: Format, num: nat, den: nat, top: nat) -> (code: nat)
    requires
        den > 0,
        num < f.units(top) * den,
    ensures
        code < top,
        f.units(code) * den <= num < f.units(code + 1) * den,
    decreases top,
{
    round::lemma_units_zero(f);
    assert(0 * den == 0);
    let below = (top - 1) as nat;
    if num >= f.units(below) * den {
        below
    } else {
        lemma_code_below(f, num, den, below)
    }
}

/// Rounding to nearest picks one code, of every magnitude.
pub proof fn law_nearest_exists(f: Format, num: nat, den: nat)
    requires
        den > 0,
    ensures
        f.is_nearest(f.nearest(num, den), num, den),
{
    if num >= f.units(f.infinity()) * den {
        formats::lemma_nearest_overflow(f, num, den);
    } else {
        let code = lemma_code_below(f, num, den, f.infinity());
        formats::lemma_nearest_between(f, code, num, den);
    }
}

/// Rounding to nearest gives a magnitude of the format that no other is closer
/// than. Infinity stands here for the magnitude that would follow the largest.
pub proof fn law_nearest_is_closest(f: Format, num: nat, den: nat, code: nat, other: nat)
    requires
        den > 0,
        f.is_nearest(code, num, den),
        other <= f.infinity(),
    ensures
        arith::magnitude(f.units(code) * den - num) <= arith::magnitude(f.units(other) * den - num),
{
    let u = f.units(code);
    let w = f.units(other);
    if other < code {
        let v = f.units((code - 1) as nat);
        if other < code - 1 {
            formats::lemma_units_increasing(f, other, (code - 1) as nat);
        }
        formats::lemma_units_increasing(f, other, code);
        assert((v + u) * den == v * den + u * den) by (nonlinear_arith);
        assert(w * den <= v * den && w * den < u * den) by (nonlinear_arith)
            requires
                w <= v,
                w < u,
                den > 0,
        ;
    } else if other > code {
        let v = f.units(code + 1);
        if other > code + 1 {
            formats::lemma_units_increasing(f, code + 1, other);
        }
        formats::lemma_units_increasing(f, code, other);
        assert((u + v) * den == u * den + v * den) by (nonlinear_arith);
        assert(w * den >= v * den && w * den > u * den) by (nonlinear_arith)
            requires
                w >= v,
                w > u,
                den > 0,
        ;
    }
}

/// The order keys of two numbers compare as the numbers do.
pub proof fn law_order_key(a: Binary64, b: Binary64)
    requires
        !a.nan(),
        !b.nan(),
    ensures
        a.below(b) <==> a.order_key() < b.order_key(),
{
    let f = Format::Double;
    let x = a.parts().code as nat;
    let y = b.parts().code as nat;
    round::lemma_units_zero(f);
    if x < y {
        formats::lemma_units_increasing(f, x, y);
    } else if y < x {
        formats::lemma_units_increasing(f, y, x);
    }
    if x > 0 {
        formats::lemma_units_increasing(f, 0, x);
    }
    if y > 0 {
        formats::lemma_units_increasing(f, 0, y);
    }
}

/// The narrower of two neighbouring formats.
pub open spec fn widens(from: Format, to: Format) -> bool {
    ||| from == Format::Half && to == Format::Single
    ||| from == Format::Single && to == Format::Double
}

/// A number keeps its value when it is converted to a wider format: only the
/// unit changes.
pub proof fn law_widening_is_exact(from: Format, to: Format, a: Parts)
    requires
        widens(from, to),
        a.finite(from),
    ensures
        arith::converted(from, to, a).finite(to),
        arith::converted(from, to, a).neg == a.neg,
        arith::converted(from, to, a).units(to) == a.units(from) * pow2(
            (to.scale() - from.scale()) as nat,
        ),
{
    let ds = (to.scale() - from.scale()) as nat;
    let code = a.code as nat;
    let m = formats::significand(code, from.mant());
    let t = formats::grid(code, from.mant());
    let p = pow2(from.mant());
    formats::lemma_grid_split(code, from.mant());
    round::lemma_format_powers(from);
    lemma2_to64();
    arith::lemma_pow2_order_le(from.mant() + 1, to.mant() + 1);
    lemma_pow2_adds(t, ds);
    assert(t < 254) by (nonlinear_arith)
        requires
            t * p <= code,
            code < 255 * p,
            t > 0 ==> code >= t * p + p,
    ;
    if from == Format::Half {
        assert(t < 30) by (nonlinear_arith)
            requires
                t * p <= code,
                code < 31 * p,
                t > 0 ==> code >= t * p + p,
        ;
    }
    let wide = lemma_representable(to, m, t + ds);
    assert(m * pow2(t) * pow2(ds) == m * (pow2(t) * pow2(ds))) by (nonlinear_arith);
    formats::lemma_nearest_exact(to, wide, 1);
    assert(to.units(wide) * 1 == to.units(wide));
    assert(round::down(ds as int) == 1);
}

/// Narrowing undoes widening, on every number.
pub proof fn law_narrowing_undoes_widening(from: Format, to: Format, a: Parts)
    requires
        widens(from, to),
        !a.nan(from),
    ensures
        arith::converted(to, from, arith::converted(from, to, a)) == a,
{
    if a.finite(from) {
        let ds = (to.scale() - from.scale()) as nat;
        law_widening_is_exact(from, to, a);
        lemma_pow2_pos(ds);
        formats::lemma_nearest_exact(from, a.code as nat, pow2(ds));
        lemma2_to64();
        let wide = arith::converted(from, to, a).units(to);
        assert(wide * 1 == wide);
        assert(round::up(-(ds as int)) == 1);
    }
}

/// Rounding to nearest costs at most half a unit of the last place: relative to
/// a number in the normal range, one part in `2^(mant + 1)`.
pub proof fn law_relative_error(f: Format, num: nat, den: nat, code: nat)
    requires
        den > 0,
        f.is_nearest(code, num, den),
        code < f.infinity(),
        num >= f.units(pow2(f.mant())) * den,
    ensures
        pow2(f.mant() + 1) * arith::magnitude(f.units(code) * den - num) <= num,
{
    let mant = f.mant();
    let p = pow2(mant);
    round::lemma_format_powers(f);
    let u = f.units(code);
    if num >= u * den {
        if code < p {
            formats::lemma_units_increasing(f, code, p);
            if code + 1 < p {
                formats::lemma_units_increasing(f, code + 1, p);
            }
            let v = f.units(code + 1);
            let w = f.units(p);
            assert((u + v) * den < 2 * num) by (nonlinear_arith)
                requires
                    u < w,
                    v <= w,
                    w * den <= num,
                    den > 0,
            ;
        }
        let v = f.units(code + 1);
        assert((u + v) * den == u * den + v * den && (v - u) * den == v * den - u * den)
            by (nonlinear_arith);
        lemma_step(f, code, num, den, (num - u * den) as nat);
    } else {
        if code <= p {
            if code < p {
                formats::lemma_units_increasing(f, code, p);
            }
            let w = f.units(p);
            assert(u * den <= w * den) by (nonlinear_arith)
                requires
                    u <= w,
            ;
        }
        let below = (code - 1) as nat;
        let v = f.units(below);
        formats::lemma_units_increasing(f, below, code);
        assert((v + u) * den == v * den + u * den) by (nonlinear_arith);
        assert(v * den <= num) by (nonlinear_arith)
            requires
                v < u,
                (v + u) * den <= 2 * num,
                den > 0,
        ;
        assert((u - v) * den == u * den - v * den) by (nonlinear_arith);
        lemma_step(f, below, num, den, (u * den - num) as nat);
    }
}

/// Half a step at a normal code, against a number no smaller than the code.
proof fn lemma_step(f: Format, code: nat, num: nat, den: nat, error: nat)
    requires
        den > 0,
        code >= pow2(f.mant()),
        num >= f.units(code) * den,
        2 * error <= (f.units(code + 1) - f.units(code)) * den,
    ensures
        pow2(f.mant() + 1) * error <= num,
{
    let mant = f.mant();
    let p = pow2(mant);
    let m = formats::significand(code, mant);
    let t = pow2(formats::grid(code, mant));
    round::lemma_format_powers(f);
    formats::lemma_grid_split(code, mant);
    formats::lemma_units_next(f, code);
    assert((m + 1) * t - m * t == t) by (nonlinear_arith);
    assert(0 * p == 0);
    assert(m >= p);
    assert(2 * p * error <= num) by (nonlinear_arith)
        requires
            2 * error <= t * den,
            num >= (m * t) * den,
            m >= p,
            t >= 0,
            den > 0,
    {
        assert(p * (2 * error) <= p * (t * den));
        assert(p * (t * den) <= m * (t * den));
        assert(m * (t * den) == (m * t) * den);
    }
}

/// Whole numbers up to `2^53` are binary64 numbers.
pub proof fn law_whole_numbers_are_exact(n: nat)
    requires
        n <= 0x20_0000_0000_0000,
    ensures
        Binary64::of_integer(n).finite(),
        !Binary64::of_integer(n).parts().neg,
        Binary64::of_integer(n).units() == n * pow2(1074),
{
    let f = Format::Double;
    round::lemma_format_powers(f);
    lemma2_to64();
    lemma2_to64_rest();
    let code: nat;
    if n < 0x20_0000_0000_0000 {
        code = lemma_representable(f, n, 1074);
    } else {
        code = lemma_representable(f, 0x10_0000_0000_0000, 1075);
        lemma_pow2_unfold(1075);
    }
    formats::lemma_nearest_exact(f, code, 1);
    assert(f.units(code) * 1 == f.units(code));
    Binary64::of_integer(n).lemma_parts(arith::from_integer(f, n));
}

/// A quotient by a power of two is exact, as long as it does not go below the
/// unit.
pub proof fn lemma_exact_quotient(a: Binary64, n: nat, t: nat, k: nat)
    requires
        n <= 0x20_0000_0000_0000,
        a.finite(),
        !a.parts().neg,
        a.units() == n * pow2(t),
        k <= 53,
        k <= t < 2000,
    ensures
        a.quotient(Binary64::of_integer(pow2(k))).finite(),
        !a.quotient(Binary64::of_integer(pow2(k))).parts().neg,
        a.quotient(Binary64::of_integer(pow2(k))).units() == n * pow2((t - k) as nat),
{
    let f = Format::Double;
    let b = Binary64::of_integer(pow2(k));
    let p = pow2(1074);
    let pk = pow2(k);
    let rest = (t - k) as nat;
    lemma2_to64_rest();
    lemma2_to64();
    round::lemma_format_powers(f);
    arith::lemma_pow2_order_le(k, 53);
    lemma_pow2_pos(k);
    lemma_pow2_pos(1074);
    law_whole_numbers_are_exact(pk);
    lemma_pow2_adds(k, rest);
    round::lemma_units_zero(f);
    let den = pk * p;
    assert(den > 0) by (nonlinear_arith)
        requires
            den == pk * p,
            pk > 0,
            p > 0,
    ;
    let code: nat;
    if n < 0x20_0000_0000_0000 {
        code = lemma_representable(f, n, rest);
    } else {
        code = lemma_representable(f, 0x10_0000_0000_0000, rest + 1);
        lemma_pow2_unfold(rest + 1);
        assert(0x10_0000_0000_0000 * (2 * pow2(rest)) == n * pow2(rest)) by (nonlinear_arith)
            requires
                n == 0x20_0000_0000_0000,
        ;
    }
    assert(f.units(code) == n * pow2(rest));
    assert((n * pow2(rest)) * den == (n * pow2(t)) * p) by (nonlinear_arith)
        requires
            den == pk * p,
            pow2(t) == pk * pow2(rest),
    ;
    formats::lemma_nearest_exact(f, code, den);
    let q = arith::quotient(f, a.parts(), b.parts());
    assert(b.parts().units(f) == den);
    assert(b.parts().code != 0);
    assert(q == Parts { neg: false, code: code as u64 });
    a.quotient(b).lemma_parts(q);
}

/// Dividing a whole number up to `2^53` by a power of two loses nothing, so
/// that cutting off the fraction gives the integer quotient.
pub proof fn law_whole_quotient(n: nat, k: nat)
    requires
        n <= 0x20_0000_0000_0000,
        n <= usize::MAX,
        k <= 53,
    ensures
        Binary64::of_integer(n).quotient(Binary64::of_integer(pow2(k))).whole() == n / pow2(k),
{
    let pk = pow2(k);
    let rest = (1074 - k) as nat;
    let r = pow2(rest);
    law_whole_numbers_are_exact(n);
    lemma_exact_quotient(Binary64::of_integer(n), n, 1074, k);
    lemma_pow2_pos(k);
    lemma_pow2_pos(rest);
    lemma_pow2_adds(k, rest);
    assert(n * r / (pk * r) == n / pk) by {
        lemma_mul_is_commutative(n as int, r as int);
        lemma_mul_is_commutative(pk as int, r as int);
        lemma_div_denominator((r * n) as int, r as int, pk as int);
        lemma_div_multiples_vanish(n as int, r as int);
    }
    lemma_div_is_ordered_by_denominator(n as int, 1, pk as int);
}

/// A larger number never rounds to a smaller one.
pub proof fn law_nearest_monotone(f: Format, lo: nat, hi: nat, den: nat)
    requires
        den > 0,
        lo <= hi,
    ensures
        f.nearest(lo, den) <= f.nearest(hi, den),
{
    let a = f.nearest(lo, den);
    let b = f.nearest(hi, den);
    law_nearest_exists(f, lo, den);
    law_nearest_exists(f, hi, den);
    if b < a {
        let s = f.units(b) + f.units(b + 1);
        let r = f.units((a - 1) as nat) + f.units(a);
        if b + 1 < a {
            formats::lemma_units_increasing(f, b, (a - 1) as nat);
            formats::lemma_units_increasing(f, b + 1, a);
            assert(s * den < r * den) by (nonlinear_arith)
                requires
                    s < r,
                    den > 0,
            ;
        } else {
            assert((a - 1) as nat == b);
            assert(a % 2 == 0 ==> b % 2 != 0);
        }
    }
}

/// What lies no higher than a number of the format rounds no higher.
pub proof fn lemma_bounded(f: Format, num: nat, den: nat, code: nat)
    requires
        den > 0,
        code < f.infinity(),
        num <= f.units(code) * den,
    ensures
        f.nearest(num, den) <= code,
        f.units(f.nearest(num, den)) <= f.units(code),
{
    law_nearest_monotone(f, num, f.units(code) * den, den);
    formats::lemma_nearest_exact(f, code, den);
    let c = f.nearest(num, den);
    if c < code {
        formats::lemma_units_increasing(f, c, code);
    }
}

/// A product by a power of two is exact, as long as it lies below infinity.
pub proof fn lemma_exact_product(a: Binary64, b: Binary64, n: nat, t: nat, k: nat)
    requires
        n <= 0x20_0000_0000_0000,
        a.finite(),
        b.finite(),
        !a.parts().neg,
        !b.parts().neg,
        a.units() == n * pow2(t),
        b.units() == pow2(k),
        1074 <= t,
        1074 <= k,
        t + k < 3000,
    ensures
        a.product(b).finite(),
        !a.product(b).parts().neg,
        a.product(b).units() == n * pow2((t + k - 1074) as nat),
{
    let f = Format::Double;
    let e = (t + k - 1074) as nat;
    let den = pow2(1074);
    lemma2_to64();
    lemma2_to64_rest();
    round::lemma_format_powers(f);
    lemma_pow2_pos(1074);
    lemma_pow2_adds(t, k);
    lemma_pow2_adds(e, 1074);
    let code: nat;
    if n < 0x20_0000_0000_0000 {
        code = lemma_representable(f, n, e);
    } else {
        code = lemma_representable(f, 0x10_0000_0000_0000, e + 1);
        lemma_pow2_unfold(e + 1);
        assert(0x10_0000_0000_0000 * (2 * pow2(e)) == n * pow2(e)) by (nonlinear_arith)
            requires
                n == 0x20_0000_0000_0000,
        ;
    }
    assert(f.units(code) == n * pow2(e));
    assert((n * pow2(e)) * den == (n * pow2(t)) * pow2(k)) by (nonlinear_arith)
        requires
            pow2(e) * den == pow2(t) * pow2(k),
    ;
    formats::lemma_nearest_exact(f, code, den);
    let q = arith::product(f, a.parts(), b.parts());
    assert(q == Parts { neg: false, code: code as u64 });
    a.product(b).lemma_parts(q);
}

/// The code one exponent higher stands for twice the magnitude.
proof fn lemma_next_exponent(code: nat)
    requires
        code >= pow2(52),
    ensures
        Format::Double.units(code + pow2(52)) == 2 * Format::Double.units(code),
{
    let p = pow2(52);
    let m = formats::significand(code, 52);
    let t = formats::grid(code, 52);
    lemma_pow2_unfold(53);
    formats::lemma_grid_split(code, 52);
    assert(0 * p == 0);
    assert(m >= p);
    formats::lemma_grid_join(m, t + 1, 52);
    assert((t + 1) * p == t * p + p) by (nonlinear_arith);
    lemma_pow2_unfold(t + 1);
    assert(m * (2 * pow2(t)) == 2 * (m * pow2(t))) by (nonlinear_arith);
}

/// The code of a whole number up to `2^64`: a normal one, and far from infinity.
proof fn lemma_whole_code(n: nat)
    requires
        0 < n <= 0x1_0000_0000_0000_0000,
    ensures
        pow2(52) < Format::Double.nearest(n * pow2(1074), 1) <= 1087 * pow2(52),
{
    let f = Format::Double;
    let one = pow2(1074);
    let p = pow2(52);
    lemma2_to64();
    lemma2_to64_rest();
    lemma_pow2_unfold(64);
    lemma_pow2_pos(1074);
    round::lemma_format_powers(f);
    let num = n * one;
    assert(one <= num <= pow2(64) * one) by (nonlinear_arith)
        requires
            num == n * one,
            0 < n <= pow2(64),
    ;
    // No smaller than 1, which is normal.
    let c1 = lemma_representable(f, 1, 1074);
    assert(1 * one == one && f.units(c1) * 1 == f.units(c1));
    law_nearest_monotone(f, one, num, 1);
    formats::lemma_nearest_exact(f, c1, 1);
    formats::lemma_grid_join(p, 0, 52);
    lemma_pow2_unfold(53);
    assert(0 * p == 0 && p * 1 == p);
    lemma_pow2_strictly_increases(52, 1074);
    if c1 < p {
        formats::lemma_units_increasing(f, c1, p);
    }
    // No larger than 2^64.
    formats::lemma_grid_join(p, 1086, 52);
    lemma_pow2_adds(52, 1086);
    lemma_pow2_adds(64, 1074);
    let top = 1086 * p + p;
    assert(f.units(top) == pow2(64) * one);
    assert(f.units(top) * 1 == f.units(top));
    lemma_bounded(f, num, 1, top);
}

/// Twice a magnitude at a normal code rounds to the code one exponent higher.
pub proof fn lemma_doubled_code(c: nat, num: nat, den: nat)
    requires
        den > 0,
        pow2(52) < c <= 2000 * pow2(52),
        Format::Double.is_nearest(c, num, den),
    ensures
        c + pow2(52) < Format::Double.infinity(),
        Format::Double.nearest(2 * num, den) == c + pow2(52),
        Format::Double.is_nearest(c + pow2(52), 2 * num, den),
        Format::Double.units(c + pow2(52)) == 2 * Format::Double.units(c),
{
    let f = Format::Double;
    let p = pow2(52);
    lemma2_to64_rest();
    lemma_next_exponent(c);
    lemma_next_exponent((c - 1) as nat);
    lemma_next_exponent(c + 1);
    let d = c + p;
    assert((d - 1) as nat == (c - 1) as nat + p);
    assert(d + 1 == c + 1 + p);
    assert(d % 2 == c % 2);
    let low = f.units((c - 1) as nat) + f.units(c);
    let high = f.units(c) + f.units(c + 1);
    assert((2 * low) * den == 2 * (low * den) && (2 * high) * den == 2 * (high * den))
        by (nonlinear_arith);
    assert(f.is_nearest(d, 2 * num, den));
    formats::lemma_nearest_is(f, d, 2 * num, den);
}

/// Twice a whole number rounds to twice what the number rounds to.
pub proof fn law_doubled(n: nat)
    requires
        0 < n <= 0x1_0000_0000_0000_0000,
    ensures
        Binary64::of_integer(n).finite(),
        !Binary64::of_integer(n).parts().neg,
        Binary64::of_integer(n).units() > 0,
        Binary64::of_integer(2 * n).finite(),
        !Binary64::of_integer(2 * n).parts().neg,
        Binary64::of_integer(2 * n).units() == 2 * Binary64::of_integer(n).units(),
{
    let f = Format::Double;
    let num = n * pow2(1074);
    let c = f.nearest(num, 1);
    law_nearest_exists(f, num, 1);
    lemma_whole_code(n);
    lemma_doubled_code(c, num, 1);
    assert((2 * n) * pow2(1074) == 2 * num) by (nonlinear_arith)
        requires
            num == n * pow2(1074),
    ;
    Binary64::of_integer(n).lemma_parts(arith::from_integer(f, n));
    Binary64::of_integer(2 * n).lemma_parts(arith::from_integer(f, 2 * n));
    round::lemma_units_zero(f);
    formats::lemma_units_increasing(f, 0, c);
}

/// A number over another of which it is a small multiple is that multiple.
pub proof fn lemma_multiple(a: Binary64, b: Binary64, k: nat)
    requires
        0 < k <= 0x20_0000_0000_0000,
        a.finite(),
        b.finite(),
        !a.parts().neg,
        !b.parts().neg,
        b.units() > 0,
        a.units() == k * b.units(),
    ensures
        a.quotient(b) == Binary64::of_integer(k),
{
    let f = Format::Double;
    let one = pow2(1074);
    let x = b.units();
    law_whole_numbers_are_exact(k);
    round::lemma_units_zero(f);
    let w = Binary64::of_integer(k);
    let code = w.parts().code as nat;
    formats::lemma_nearest_exact(f, code, x);
    assert((k * one) * x == (k * x) * one) by (nonlinear_arith);
    let q = arith::quotient(f, a.parts(), b.parts());
    assert(q == Parts { neg: false, code: code as u64 });
    w.lemma_parts(q);
}

/// Rounding does not see a common factor.
pub proof fn lemma_common_factor(f: Format, code: nat, num: nat, den: nat, k: nat)
    requires
        k > 0,
    ensures
        f.is_nearest(code, num * k, den * k) <==> f.is_nearest(code, num, den),
{
    assert forall|s: nat|
        (#[trigger] (s * (den * k)) < 2 * (num * k) <==> s * den < 2 * num) && (s * (den * k) == 2
            * (num * k) <==> s * den == 2 * num) && (2 * (num * k) < s * (den * k) <==> 2 * num < s
            * den) by {
        let x = s * den;
        let y = 2 * num;
        assert(s * (den * k) == x * k && 2 * (num * k) == y * k) by (nonlinear_arith)
            requires
                x == s * den,
                y == 2 * num,
        ;
        assert((x * k < y * k <==> x < y) && (x * k == y * k <==> x == y)) by (nonlinear_arith)
            requires
                k > 0,
        ;
    }
    let low = (f.units((code - 1) as nat) + f.units(code)) as nat;
    let high = (f.units(code) + f.units(code + 1)) as nat;
    assert(low * (den * k) < 2 * (num * k) <==> low * den < 2 * num);
    assert(high * (den * k) < 2 * (num * k) <==> high * den < 2 * num);
}

/// A product is the number nearest to the exact one, with the sign of the exact
/// one. No other number is closer.
pub proof fn law_product(a: Binary64, b: Binary64, other: nat)
    requires
        a.finite(),
        b.finite(),
        other <= Format::Double.infinity(),
    ensures
        ({
            let r = a.product(b);
            let exact = a.units() * b.units();
            &&& r.parts().neg <==> a.parts().neg != b.parts().neg
            &&& Format::Double.is_nearest(r.parts().code as nat, exact, pow2(1074))
            &&& arith::magnitude(r.units() * pow2(1074) - exact) <= arith::magnitude(
                Format::Double.units(other) * pow2(1074) - exact,
            )
        }),
{
    let f = Format::Double;
    let exact = a.units() * b.units();
    lemma_pow2_pos(1074);
    law_nearest_exists(f, exact, pow2(1074));
    a.product(b).lemma_parts(arith::product(f, a.parts(), b.parts()));
    law_nearest_is_closest(f, exact, pow2(1074), a.product(b).parts().code as nat, other);
}

/// A quotient is the number nearest to the exact one, with the sign of the exact
/// one. No other number is closer.
pub proof fn law_quotient(a: Binary64, b: Binary64, other: nat)
    requires
        a.finite(),
        b.finite(),
        b.units() > 0,
        other <= Format::Double.infinity(),
    ensures
        ({
            let r = a.quotient(b);
            let exact = a.units() * pow2(1074);
            &&& r.parts().neg <==> a.parts().neg != b.parts().neg
            &&& Format::Double.is_nearest(r.parts().code as nat, exact, b.units())
            &&& arith::magnitude(r.units() * b.units() - exact) <= arith::magnitude(
                Format::Double.units(other) * b.units() - exact,
            )
        }),
{
    let f = Format::Double;
    let exact = a.units() * pow2(1074);
    round::lemma_units_zero(f);
    law_nearest_exists(f, exact, b.units());
    a.quotient(b).lemma_parts(arith::quotient(f, a.parts(), b.parts()));
    law_nearest_is_closest(f, exact, b.units(), a.quotient(b).parts().code as nat, other);
}

/// A sum is the number nearest to the exact one, with the sign of the exact one.
/// No other number is closer.
pub proof fn law_sum(a: Binary64, b: Binary64, other: nat)
    requires
        a.finite(),
        b.finite(),
        other <= Format::Double.infinity(),
    ensures
        ({
            let r = a.sum(b);
            let exact = a.parts().value(Format::Double) + b.parts().value(Format::Double);
            &&& exact != 0 ==> (r.parts().neg <==> exact < 0)
            &&& Format::Double.is_nearest(r.parts().code as nat, arith::magnitude(exact), 1)
            &&& arith::magnitude(r.units() - arith::magnitude(exact)) <= arith::magnitude(
                Format::Double.units(other) - arith::magnitude(exact),
            )
        }),
{
    let f = Format::Double;
    let exact = a.parts().value(f) + b.parts().value(f);
    let r = a.sum(b);
    law_nearest_exists(f, arith::magnitude(exact), 1);
    round::lemma_units_zero(f);
    formats::lemma_nearest_exact(f, 0, 1);
    assert(0 * 1 == 0);
    r.lemma_parts(arith::sum(f, a.parts(), b.parts()));
    law_nearest_is_closest(f, arith::magnitude(exact), 1, r.parts().code as nat, other);
    assert(r.units() * 1 == r.units());
    assert(f.units(other) * 1 == f.units(other));
}

/// The number that a whole number up to `2^53` gives over another is the one
/// nearest to the exact quotient: it is off by at most one part in `2^53`, and
/// not at all if the division leaves nothing.
pub proof fn law_quotient_of_whole_numbers(a: nat, b: nat)
    requires
        a <= 0x20_0000_0000_0000,
        0 < b <= 0x20_0000_0000_0000,
    ensures
        ({
            let r = Binary64::of_integer(a).quotient(Binary64::of_integer(b));
            &&& r.finite()
            &&& !r.parts().neg
            &&& Format::Double.is_nearest(r.parts().code as nat, a * pow2(1074), b)
            &&& 0x20_0000_0000_0000 * arith::magnitude(r.units() * b - a * pow2(1074)) <= a * pow2(
                1074,
            )
            &&& a % b == 0 ==> r.units() == (a / b) * pow2(1074)
        }),
{
    let f = Format::Double;
    let one = pow2(1074);
    let x = Binary64::of_integer(a);
    let y = Binary64::of_integer(b);
    let r = x.quotient(y);
    law_whole_numbers_are_exact(a);
    law_whole_numbers_are_exact(b);
    lemma_pow2_pos(1074);
    assert(b * one > 0) by (nonlinear_arith)
        requires
            b > 0,
            one > 0,
    ;
    law_quotient(x, y, 0);
    let code = r.parts().code as nat;
    lemma_common_factor(f, code, a * one, b, one);
    formats::lemma_nearest_is(f, code, a * one, b);
    let top = Binary64::of_integer(a).parts().code as nat;
    assert(a * one <= (a * one) * b) by (nonlinear_arith)
        requires
            b > 0,
    ;
    lemma_bounded(f, a * one, b, top);
    lemma2_to64();
    lemma2_to64_rest();
    round::lemma_format_powers(f);
    if a > 0 {
        formats::lemma_grid_join(pow2(52), 0, 52);
        lemma_pow2_unfold(53);
        assert(0 * pow2(52) == 0 && pow2(52) * 1 == pow2(52));
        lemma_pow2_adds(52, 53);
        arith::lemma_pow2_order_le(105, 1074);
        assert(a * one >= pow2(52) * b) by (nonlinear_arith)
            requires
                a > 0,
                one >= pow2(52) * pow2(53),
                b <= pow2(53),
        ;
        law_relative_error(f, a * one, b, code);
    } else {
        round::lemma_units_zero(f);
        assert(0 * one == 0 && 0 * b == 0);
        formats::lemma_nearest_exact(f, 0, b);
    }
    if a % b == 0 {
        let q = a / b;
        lemma_fundamental_div_mod(a as int, b as int);
        lemma_div_is_ordered_by_denominator(a as int, 1, b as int);
        law_whole_numbers_are_exact(q);
        let c = Binary64::of_integer(q).parts().code as nat;
        assert((q * one) * b == a * one) by (nonlinear_arith)
            requires
                a == b * q,
        ;
        formats::lemma_nearest_exact(f, c, b);
    }
}

/// The spacing of the binary64 numbers from `2^53` to `2^64`.
pub proof fn lemma_large_whole(n: nat)
    requires
        0x20_0000_0000_0000 < n <= u64::MAX,
    ensures
        arith::from_integer(Format::Double, n).finite(Format::Double),
        1075 <= formats::grid(arith::from_integer(Format::Double, n).code as nat, 52) <= 1086,
{
    let f = Format::Double;
    let one = pow2(1074);
    lemma2_to64();
    lemma2_to64_rest();
    lemma_pow2_unfold(64);
    lemma_pow2_pos(1074);
    round::lemma_format_powers(f);
    let p = pow2(52);
    // 2^53 and 2^64 as codes.
    formats::lemma_grid_join(p, 1075, 52);
    formats::lemma_grid_join(p, 1086, 52);
    let lo = 1075 * p + p;
    let hi = 1086 * p + p;
    lemma_pow2_adds(52, 1075);
    lemma_pow2_adds(53, 1074);
    lemma_pow2_adds(52, 1086);
    lemma_pow2_adds(64, 1074);
    assert(f.units(lo) == 0x20_0000_0000_0000 * one);
    assert(f.units(hi) == pow2(64) * one);
    let num = n * one;
    assert(0x20_0000_0000_0000 * one <= num <= pow2(64) * one) by (nonlinear_arith)
        requires
            num == n * one,
            0x20_0000_0000_0000 < n <= pow2(64),
    ;
    assert(f.units(hi) * 1 == f.units(hi) && f.units(lo) * 1 == f.units(lo));
    lemma_bounded(f, num, 1, hi);
    law_nearest_monotone(f, f.units(lo), num, 1);
    formats::lemma_nearest_exact(f, lo, 1);
    let c = f.nearest(num, 1);
    assert(lo <= c <= hi);
    lemma_fundamental_div_mod(c as int, p as int);
    lemma_mod_bound(c as int, p as int);
    let e = c / p;
    assert(1076 <= e <= 1087) by (nonlinear_arith)
        requires
            p * e <= c < p * e + p,
            1076 * p <= c <= 1087 * p,
            p > 0,
    ;
}

/// NaN stays NaN between binary16 and binary32.
pub proof fn lemma_converted_nan(from: Format, to: Format, a: Parts)
    requires
        (from == Format::Half && to == Format::Single) || (from == Format::Single && to
            == Format::Half),
        a.fits(from),
        a.nan(from),
    ensures
        arith::converted(from, to, a).nan(to),
        arith::converted(from, to, a).fits(to),
{
    lemma2_to64();
    let payload = (a.code - from.infinity()) as nat;
    assert(pow2(13) == 0x2000 && pow2(0) == 1 && pow2(22) == 0x40_0000 && pow2(9) == 0x200);
    if from == Format::Half {
        assert(round::up(13) == 0x2000 && round::down(13) == 1);
        assert(payload * 0x2000 / 1 == payload * 0x2000);
        assert(arith::converted_nan(from, to, a.code as nat) < 0x8000_0000);
    } else {
        assert(round::up(-13) == 1 && round::down(-13) == 0x2000);
        assert(payload * 1 == payload);
        assert(payload < 0x80_0000);
        assert(payload / 0x2000 < 0x400);
        assert(arith::converted_nan(from, to, a.code as nat) < 0x8000);
    }
}

/// Numbers compare by their values, of which an infinite one exceeds every finite
/// one. The two zeros are equal, and NaN is neither less nor more than anything.
pub proof fn law_below(a: Binary64, b: Binary64)
    ensures
        a.nan() || b.nan() ==> !a.below(b) && !b.below(a),
        a.finite() && b.finite() ==> (a.below(b) <==> a.parts().value(Format::Double)
            < b.parts().value(Format::Double)),
        a.finite() && b.infinite() ==> (a.below(b) <==> !b.parts().neg),
        a.infinite() && b.finite() ==> (a.below(b) <==> a.parts().neg),
        a.infinite() && b.infinite() ==> (a.below(b) <==> a.parts().neg && !b.parts().neg),
        a.below(b) ==> !b.below(a),
{
    let f = Format::Double;
    let x = a.parts().code as nat;
    let y = b.parts().code as nat;
    formats::lemma_units_increasing(f, 0, f.infinity());
    if x < f.infinity() {
        formats::lemma_units_increasing(f, x, f.infinity());
    }
    if y < f.infinity() {
        formats::lemma_units_increasing(f, y, f.infinity());
    }
}

} // verus!
