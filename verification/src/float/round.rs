//! Rounding a scaled integer to the nearest magnitude of a format.

use crate::float::bits::{bit_len, shift_left, shift_right};
use crate::float::formats;
use crate::float::formats::Format;
use vstd::arithmetic::mul::*;
use vstd::arithmetic::power2::*;
use vstd::prelude::*;

verus! {

impl Format {
    pub fn mant_bits(self) -> (r: u32)
        ensures
            r == self.mant(),
    {
        match self {
            Format::Half => 10,
            Format::Single => 23,
            Format::Double => 52,
        }
    }

    pub fn infinity_code(self) -> (r: u64)
        ensures
            r == self.infinity(),
    {
        match self {
            Format::Half => 0x7C00,
            Format::Single => 0x7F80_0000,
            Format::Double => 0x7FF0_0000_0000_0000,
        }
    }

    pub fn scale_bits(self) -> (r: i32)
        ensures
            r == self.scale(),
    {
        match self {
            Format::Half => 24,
            Format::Single => 149,
            Format::Double => 1074,
        }
    }
}

/// The powers of two of the format, as numbers.
pub proof fn lemma_format_powers(f: Format)
    ensures
        pow2(f.mant()) == (match f {
            Format::Half => 0x400nat,
            Format::Single => 0x80_0000nat,
            Format::Double => 0x10_0000_0000_0000nat,
        }),
        pow2(f.mant() + 1) == 2 * pow2(f.mant()),
        f.infinity() == (pow2(f.exp()) - 1) * pow2(f.mant()),
        f.sign_weight() == f.infinity() + pow2(f.mant()),
{
    lemma2_to64();
    lemma2_to64_rest();
    lemma_pow2_unfold(f.mant() + 1);
    match f {
        Format::Half => {
            assert(31 * 0x400 == 0x7C00);
        },
        Format::Single => {
            assert(255 * 0x80_0000 == 0x7F80_0000);
        },
        Format::Double => {
            assert(2047 * 0x10_0000_0000_0000 == 0x7FF0_0000_0000_0000);
        },
    }
}

/// `2^e` for positive `e`, else 1.
pub open spec fn up(e: int) -> nat {
    pow2(if e > 0 {
        e as nat
    } else {
        0
    })
}

/// `2^-e` for negative `e`, else 1.
pub open spec fn down(e: int) -> nat {
    pow2(if e < 0 {
        (-e) as nat
    } else {
        0
    })
}

/// Whether `q * 2^e` is `num / den` cut down to a multiple of `2^e`, and
/// `inexact` tells whether anything was cut off.
pub open spec fn truncates(q: nat, e: int, inexact: bool, num: nat, den: nat) -> bool {
    &&& q * (up(e) * den) <= num * down(e)
    &&& num * down(e) < (q + 1) * (up(e) * den)
    &&& inexact <==> q * (up(e) * den) != num * down(e)
}

proof fn lemma_powers_meet(e: int, s: int, t: nat)
    requires
        t - e == s,
    ensures
        s >= 0 ==> pow2(t) * down(e) == pow2(s as nat) * up(e),
        s <= 0 ==> pow2((-s) as nat) * (pow2(t) * down(e)) == up(e),
        up(e) > 0,
        down(e) > 0,
{
    let a: nat = if e > 0 { e as nat } else { 0 };
    let b: nat = if e < 0 { (-e) as nat } else { 0 };
    lemma_pow2_pos(a);
    lemma_pow2_pos(b);
    lemma_pow2_adds(t, b);
    if s >= 0 {
        lemma_pow2_adds(s as nat, a);
    }
    if s <= 0 {
        lemma_pow2_adds((-s) as nat, t + b);
    }
}

/// Cutting `s` more bits off `q` leaves `m`; what was cut off, against half of
/// `2^s`, tells on which side of the midpoint the number lies.
proof fn lemma_cut(q: nat, e: int, inexact: bool, num: nat, den: nat, s: nat, t: nat, m: nat)
    requires
        den > 0,
        truncates(q, e, inexact, num, den),
        s > 0,
        t - e == s,
        m * pow2(s) <= q < (m + 1) * pow2(s),
    ensures
        (m * pow2(t)) * den <= num,
        num < ((m + 1) * pow2(t)) * den,
        ({
            let rem = q - m * pow2(s);
            let half = pow2((s - 1) as nat);
            let twice_mid = (m * pow2(t) + (m + 1) * pow2(t)) * den;
            &&& rem < half ==> 2 * num < twice_mid
            &&& rem > half || (rem == half && inexact) ==> 2 * num > twice_mid
            &&& rem == half && !inexact ==> 2 * num == twice_mid
        }),
{
    let big = pow2(s);
    let half = pow2((s - 1) as nat);
    let grid_step = pow2(t);
    let u = up(e);
    let d = down(e);
    let n = num * d;
    let a = u * den;
    lemma_pow2_unfold(s);
    lemma_powers_meet(e, s as int, t);
    assert(a > 0) by (nonlinear_arith)
        requires
            u > 0,
            den > 0,
            a == u * den,
    ;
    let k = m * big + half;
    let twice_mid = (m * grid_step + (m + 1) * grid_step) * den;
    // everything, times `d`, is a multiple of `a`
    assert(((m * grid_step) * den) * d == (m * big) * a) by (nonlinear_arith)
        requires
            grid_step * d == big * u,
            a == u * den,
    ;
    assert((((m + 1) * grid_step) * den) * d == ((m + 1) * big) * a) by (nonlinear_arith)
        requires
            grid_step * d == big * u,
            a == u * den,
    ;
    assert(twice_mid * d == (2 * k) * a) by (nonlinear_arith)
        requires
            twice_mid == (m * grid_step + (m + 1) * grid_step) * den,
            ((m * grid_step) * den) * d == (m * big) * a,
            (((m + 1) * grid_step) * den) * d == ((m + 1) * big) * a,
            k == m * big + half,
            big == 2 * half,
    ;
    assert((m * big) * a <= q * a) by (nonlinear_arith)
        requires
            m * big <= q,
    ;
    assert((q + 1) * a <= ((m + 1) * big) * a) by (nonlinear_arith)
        requires
            q + 1 <= (m + 1) * big,
    ;
    let low = (m * grid_step) * den;
    let high = ((m + 1) * grid_step) * den;
    lemma_cancel_le(low, num, d);
    lemma_cancel_lt(num, high, d);
    let rem = q - m * big;
    assert((2 * num) * d == 2 * n) by (nonlinear_arith)
        requires
            n == num * d,
    ;
    if rem < half {
        assert((q + 1) * a <= k * a) by (nonlinear_arith)
            requires
                q + 1 <= k,
        ;
        assert((2 * k) * a == 2 * (k * a)) by (nonlinear_arith);
        lemma_cancel_lt(2 * num, twice_mid, d);
    } else {
        assert(k * a <= q * a) by (nonlinear_arith)
            requires
                k <= q,
        ;
        assert((2 * k) * a == 2 * (k * a)) by (nonlinear_arith);
        if rem > half {
            assert((k + 1) * a <= q * a) by (nonlinear_arith)
                requires
                    k + 1 <= q,
            ;
            assert((k + 1) * a == k * a + a) by (nonlinear_arith);
            lemma_cancel_lt(twice_mid, 2 * num, d);
        } else if inexact {
            lemma_cancel_lt(twice_mid, 2 * num, d);
        } else {
            assert(k == q);
            lemma_cancel_le(twice_mid, 2 * num, d);
            lemma_cancel_le(2 * num, twice_mid, d);
        }
    }
}

proof fn lemma_cancel_le(x: nat, y: nat, d: nat)
    requires
        d > 0,
        x * d <= y * d,
    ensures
        x <= y,
{
    lemma_mul_inequality_converse(x as int, y as int, d as int);
}

proof fn lemma_cancel_lt(x: nat, y: nat, d: nat)
    requires
        x * d < y * d,
    ensures
        x < y,
{
    lemma_mul_strict_inequality_converse(x as int, y as int, d as int);
}

/// How far the bits of `m = q / 2^s` reach.
proof fn lemma_significand_bounds(q: nat, len: nat, s: int, m: nat)
    requires
        len > 0,
        pow2((len - 1) as nat) <= q < pow2(len),
        s <= len,
        s > 0 ==> m * pow2(s as nat) <= q < (m + 1) * pow2(s as nat),
        s <= 0 ==> m == q * pow2((-s) as nat),
    ensures
        m < pow2((len - s) as nat),
        s < len ==> pow2((len - 1 - s) as nat) <= m,
{
    if s > 0 {
        let p = pow2(s as nat);
        lemma_pow2_pos(s as nat);
        let hi = pow2((len - s) as nat);
        lemma_pow2_adds((len - s) as nat, s as nat);
        lemma_cancel_lt(m, hi, p);
        if s < len {
            let lo = pow2((len - 1 - s) as nat);
            lemma_pow2_adds((len - 1 - s) as nat, s as nat);
            lemma_cancel_lt(lo, m + 1, p);
        }
    } else {
        let k = (-s) as nat;
        lemma_pow2_pos(k);
        lemma_pow2_adds(len, k);
        lemma_pow2_adds((len - 1) as nat, k);
        let p = pow2(k);
        lemma_mul_strict_inequality(q as int, pow2(len) as int, p as int);
        lemma_mul_inequality(pow2((len - 1) as nat) as int, q as int, p as int);
    }
}

/// `q / 2^s` rounded down, where a negative `s` shifts to the left.
fn cut(q: u128, s: i32, len: u32) -> (m: u128)
    requires
        1 <= len <= 127,
        pow2((len - 1) as nat) <= q < pow2(len as nat),
        s <= len,
        s <= 0 ==> len - s <= 53,
    ensures
        m < pow2((len - s) as nat),
        s < len ==> pow2((len - 1 - s) as nat) <= m,
        s > 0 ==> m * pow2(s as nat) <= q < (m + 1) * pow2(s as nat),
        s <= 0 ==> m == q * pow2((-s) as nat),
{
    let m: u128;
    if s > 0 {
        m = shift_right(q, s as u32);
    } else {
        proof {
            let k = (-s) as nat;
            lemma_pow2_adds(len as nat, k);
            lemma_pow2_pos(k);
            lemma_mul_strict_inequality(q as int, pow2(len as nat) as int, pow2(k) as int);
            if len + k < 53 {
                lemma_pow2_strictly_increases(len as nat + k, 53);
            }
            lemma2_to64_rest();
        }
        m = shift_left(q, (-s) as u32);
    }
    proof {
        lemma_significand_bounds(q as nat, len as nat, s as int, m as nat);
    }
    m
}

/// The code of the significand `m` at the spacing `2^t`, or infinity if that is
/// out of range.
fn code_of(f: Format, t: i32, m: u128) -> (code: u64)
    requires
        t >= 0,
        m < pow2(f.mant() + 1),
    ensures
        ({
            let low = t as nat * pow2(f.mant()) + m as nat;
            code == if low < f.infinity() {
                low
            } else {
                f.infinity()
            }
        }),
{
    let top: u64 = f.infinity_code();
    proof {
        lemma_format_powers(f);
    }
    let over_top: bool = match f {
        Format::Half => t >= 31,
        Format::Single => t >= 255,
        Format::Double => t >= 2047,
    };
    if over_top {
        proof {
            lemma_top(f, t as nat);
        }
        return top;
    }
    let step: u64 = match f {
        Format::Half => 0x400,
        Format::Single => 0x80_0000,
        Format::Double => 0x10_0000_0000_0000,
    };
    assert(t as nat * step <= 2046 * step) by (nonlinear_arith)
        requires
            0 <= t <= 2046,
    ;
    let base: u64 = t as u64 * step + m as u64;
    if base < top {
        base
    } else {
        top
    }
}

/// The code nearest to `num / den` units, where `q * 2^e` is that number cut
/// down to a multiple of `2^e`. Something may be cut off only if `q` keeps two
/// bits more than a significand has.
pub fn round(
    f: Format,
    q: u128,
    e: i32,
    inexact: bool,
    Ghost(num): Ghost<nat>,
    Ghost(den): Ghost<nat>,
) -> (code: u64)
    requires
        den > 0,
        -10000 <= e <= 10000,
        q < pow2(127),
        truncates(q as nat, e as int, inexact, num, den),
        inexact ==> q >= pow2(f.mant() + 2),
    ensures
        code <= f.infinity(),
        code == f.nearest(num, den),
        f.is_nearest(code as nat, num, den),
{
    let mant: u32 = f.mant_bits();
    let top: u64 = f.infinity_code();
    proof {
        lemma_pow2_pos(f.mant() + 2);
    }
    if q == 0 {
        proof {
            lemma_zero(f, e as int, num, den);
        }
        return 0;
    }
    let len: u32 = bit_len(q);
    proof {
        lemma_pow2_order((len - 1) as nat, 127);
        lemma_pow2_order(f.mant() + 2, len as nat);
    }
    let over: i32 = len as i32 + e - (mant as i32 + 1);
    let t: i32 = if over > 0 {
        over
    } else {
        0
    };
    let s: i32 = t - e;
    if s > len as i32 {
        proof {
            lemma_tiny(f, q as nat, e as int, inexact, num, den, len as nat);
        }
        return 0;
    }
    let m: u128 = cut(q, s, len);
    let ghost low = (t as nat * pow2(f.mant()) + m) as nat;
    proof {
        if t == 0 && len - s < mant + 1 {
            lemma_pow2_strictly_increases((len - s) as nat, f.mant() + 1);
        }
        formats::lemma_grid_join(m as nat, t as nat, f.mant());
        formats::lemma_units_next(f, low);
        if s > 0 {
            lemma_cut(q as nat, e as int, inexact, num, den, s as nat, t as nat, m as nat);
        } else {
            lemma_exact(q as nat, e as int, num, den, s as int, t as nat, m as nat);
        }
    }
    let base: u64 = code_of(f, t, m);
    if base >= top {
        proof {
            lemma_past_top(f, low, num, den);
        }
        return top;
    }
    if s <= 0 {
        proof {
            formats::lemma_nearest_exact(f, low, den);
        }
        return base;
    }
    proof {
        formats::lemma_nearest_between(f, low, num, den);
        lemma_pow2_order((s - 1) as nat, (len - 1) as nat);
        if s < len {
            lemma_pow2_strictly_increases((s - 1) as nat, (len - 1) as nat);
        }
    }
    let half: u128 = shift_left(1, (s - 1) as u32);
    let rem: u128 = q - shift_left(m, s as u32);
    let code: u64 = if rem > half || (rem == half && (inexact || base % 2 == 1)) {
        base + 1
    } else {
        base
    };
    proof {
        formats::lemma_nearest_is(f, code as nat, num, den);
    }
    code
}

/// Powers of two are ordered as their exponents.
proof fn lemma_pow2_order(a: nat, b: nat)
    ensures
        pow2(a) < pow2(b) <==> a < b,
{
    if a < b {
        lemma_pow2_strictly_increases(a, b);
    } else if b < a {
        lemma_pow2_strictly_increases(b, a);
    }
}

/// At or past the code of infinity, infinity is nearest.
proof fn lemma_past_top(f: Format, low: nat, num: nat, den: nat)
    requires
        den > 0,
        low >= f.infinity(),
        f.units(low) * den <= num,
    ensures
        f.is_nearest(f.infinity(), num, den),
        f.nearest(num, den) == f.infinity(),
{
    if low > f.infinity() {
        formats::lemma_units_increasing(f, f.infinity(), low);
    }
    let u = f.units(f.infinity());
    let v = f.units(low);
    assert(u * den <= v * den) by (nonlinear_arith)
        requires
            u <= v,
    ;
    formats::lemma_nearest_overflow(f, num, den);
    formats::lemma_nearest_is(f, f.infinity(), num, den);
}

proof fn lemma_top(f: Format, t: nat)
    requires
        match f {
            Format::Half => t >= 31,
            Format::Single => t >= 255,
            Format::Double => t >= 2047,
        },
    ensures
        t * pow2(f.mant()) >= f.infinity(),
{
    lemma_format_powers(f);
    let p = pow2(f.mant());
    match f {
        Format::Half => {
            assert(t * p >= 31 * p) by (nonlinear_arith)
                requires
                    t >= 31,
            ;
        },
        Format::Single => {
            assert(t * p >= 255 * p) by (nonlinear_arith)
                requires
                    t >= 255,
            ;
        },
        Format::Double => {
            assert(t * p >= 2047 * p) by (nonlinear_arith)
                requires
                    t >= 2047,
            ;
        },
    }
}

proof fn lemma_zero(f: Format, e: int, num: nat, den: nat)
    requires
        den > 0,
        truncates(0, e, false, num, den),
    ensures
        f.is_nearest(0, num, den),
        f.nearest(num, den) == 0,
{
    let d = down(e);
    lemma_powers_meet(e, -e, 0);
    assert(0 * (up(e) * den) == 0) by (nonlinear_arith);
    assert(num == 0) by (nonlinear_arith)
        requires
            num * d == 0,
            d > 0,
    ;
    lemma_units_zero(f);
    formats::lemma_nearest_exact(f, 0, den);
}

pub proof fn lemma_units_zero(f: Format)
    ensures
        f.units(0) == 0,
        f.units(1) == 1,
{
    lemma_format_powers(f);
    lemma2_to64();
    formats::lemma_grid_join(0, 0, f.mant());
    formats::lemma_grid_join(1, 0, f.mant());
}

/// A number below a quarter of a unit rounds to zero.
proof fn lemma_tiny(f: Format, q: nat, e: int, inexact: bool, num: nat, den: nat, len: nat)
    requires
        den > 0,
        truncates(q, e, inexact, num, den),
        q < pow2(len),
        -e > len,
    ensures
        f.is_nearest(0, num, den),
        f.nearest(num, den) == 0,
{
    let s = (-e) as nat;
    let half = pow2((s - 1) as nat);
    lemma_units_zero(f);
    lemma2_to64();
    lemma_pow2_unfold(s);
    if len < s - 1 {
        lemma_pow2_strictly_increases(len, (s - 1) as nat);
    }
    assert(0 * pow2(s) == 0 && (0 + 1) * pow2(s) == pow2(s)) by (nonlinear_arith);
    lemma_cut(q, e, inexact, num, den, s, 0, 0);
    assert(0 * pow2(0) == 0) by (nonlinear_arith);
    formats::lemma_nearest_between(f, 0, num, den);
    formats::lemma_nearest_is(f, 0, num, den);
}

/// With nothing cut off, `m * 2^t` is the number itself.
proof fn lemma_exact(q: nat, e: int, num: nat, den: nat, s: int, t: nat, m: nat)
    requires
        den > 0,
        truncates(q, e, false, num, den),
        s <= 0,
        t - e == s,
        m == q * pow2((-s) as nat),
    ensures
        (m * pow2(t)) * den == num,
{
    let u = up(e);
    let d = down(e);
    let k = pow2((-s) as nat);
    let g = pow2(t);
    lemma_powers_meet(e, s, t);
    assert(((m * g) * den) * d == q * (u * den)) by (nonlinear_arith)
        requires
            m == q * k,
            k * (g * d) == u,
    ;
    lemma_cancel_le((m * g) * den, num, d);
    lemma_cancel_le(num, (m * g) * den, d);
}

} // verus!
