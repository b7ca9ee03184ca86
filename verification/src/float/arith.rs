//! Arithmetic of the binary formats, rounded to nearest.

use crate::float::bits::{bit_len, shift_left, shift_right};
use crate::float::formats;
use crate::float::formats::Format;
use crate::float::round;
use vstd::arithmetic::div_mod::*;
use vstd::arithmetic::mul::*;
use vstd::arithmetic::power2::*;
use vstd::prelude::*;

verus! {

/// A bit pattern taken apart: the sign bit, and the code that is left.
#[derive(Clone, Copy, PartialEq, Eq, Debug, Structural)]
pub struct Parts {
    pub neg: bool,
    pub code: u64,
}

impl Parts {
    /// Whether the code fits beside the sign bit.
    pub open spec fn fits(self, f: Format) -> bool {
        self.code < f.sign_weight()
    }

    pub open spec fn nan(self, f: Format) -> bool {
        self.code > f.infinity()
    }

    pub open spec fn infinite(self, f: Format) -> bool {
        self.code == f.infinity()
    }

    pub open spec fn finite(self, f: Format) -> bool {
        self.code < f.infinity()
    }

    /// The magnitude, in units.
    pub open spec fn units(self, f: Format) -> nat {
        f.units(self.code as nat)
    }

    /// The value, in units.
    pub open spec fn value(self, f: Format) -> int {
        if self.neg {
            -(self.units(f) as int)
        } else {
            self.units(f) as int
        }
    }
}

/// The NaN that operations give: positive, with only the highest mantissa bit.
pub open spec fn quiet_nan(f: Format) -> Parts {
    Parts {
        neg: false,
        code: match f {
            Format::Half => 0x7E00u64,
            Format::Single => 0x7FC0_0000u64,
            Format::Double => 0x7FF8_0000_0000_0000u64,
        },
    }
}

pub open spec fn product(f: Format, a: Parts, b: Parts) -> Parts {
    if a.nan(f) || b.nan(f) || (a.infinite(f) && b.code == 0) || (a.code == 0 && b.infinite(f)) {
        quiet_nan(f)
    } else {
        Parts {
            neg: a.neg != b.neg,
            code: if a.infinite(f) || b.infinite(f) {
                f.infinity() as u64
            } else {
                f.nearest(a.units(f) * b.units(f), pow2(f.scale())) as u64
            },
        }
    }
}

pub open spec fn quotient(f: Format, a: Parts, b: Parts) -> Parts {
    if a.nan(f) || b.nan(f) || (a.infinite(f) && b.infinite(f)) || (a.code == 0 && b.code == 0) {
        quiet_nan(f)
    } else {
        Parts {
            neg: a.neg != b.neg,
            code: if a.infinite(f) || b.code == 0 {
                f.infinity() as u64
            } else if b.infinite(f) {
                0
            } else {
                f.nearest(a.units(f) * pow2(f.scale()), b.units(f)) as u64
            },
        }
    }
}

pub open spec fn sum(f: Format, a: Parts, b: Parts) -> Parts {
    if a.nan(f) || b.nan(f) || (a.infinite(f) && b.infinite(f) && a.neg != b.neg) {
        quiet_nan(f)
    } else if a.infinite(f) {
        a
    } else if b.infinite(f) {
        b
    } else {
        let v = a.value(f) + b.value(f);
        if v == 0 {
            Parts { neg: a.neg && b.neg, code: 0 }
        } else {
            Parts { neg: v < 0, code: f.nearest(magnitude(v), 1) as u64 }
        }
    }
}

pub open spec fn magnitude(v: int) -> nat {
    if v < 0 {
        (-v) as nat
    } else {
        v as nat
    }
}

/// The value of `a` in the format `to`. A NaN keeps its sign and as much of its
/// mantissa as there is room for, and becomes quiet.
pub open spec fn converted(from: Format, to: Format, a: Parts) -> Parts {
    Parts {
        neg: a.neg,
        code: if a.nan(from) {
            converted_nan(from, to, a.code as nat) as u64
        } else if a.infinite(from) {
            to.infinity() as u64
        } else {
            to.nearest(
                a.units(from) * round::up(to.scale() - from.scale()),
                round::down(to.scale() - from.scale()),
            ) as u64
        },
    }
}

pub open spec fn converted_nan(from: Format, to: Format, code: nat) -> nat {
    let payload = (code - from.infinity()) as nat;
    let moved = (payload * round::up(to.mant() - from.mant())) / round::down(
        to.mant() - from.mant(),
    );
    let quiet = pow2((to.mant() - 1) as nat);
    to.infinity() + if moved < quiet {
        moved + quiet
    } else {
        moved
    }
}

/// The format's number nearest to `n`.
pub open spec fn from_integer(f: Format, n: nat) -> Parts {
    Parts { neg: false, code: f.nearest(n * pow2(f.scale()), 1) as u64 }
}

/// The value cut down towards zero, kept within `0..=max`; 0 for NaN.
pub open spec fn truncated(f: Format, a: Parts, max: nat) -> nat {
    if a.nan(f) || a.neg {
        0
    } else if a.infinite(f) || a.units(f) / pow2(f.scale()) > max {
        max
    } else {
        a.units(f) / pow2(f.scale())
    }
}

/// The magnitude rounded to a whole number, halves going up.
pub open spec fn rounded_magnitude(f: Format, a: Parts) -> nat {
    (2 * a.units(f) + pow2(f.scale())) / (2 * pow2(f.scale()))
}

/// Whether `a < b` as numbers.
pub open spec fn less(f: Format, a: Parts, b: Parts) -> bool {
    !a.nan(f) && !b.nan(f) && a.value(f) < b.value(f)
}

fn quiet(f: Format) -> (r: Parts)
    ensures
        r == quiet_nan(f),
        r.fits(f),
        r.nan(f),
{
    Parts {
        neg: false,
        code: match f {
            Format::Half => 0x7E00,
            Format::Single => 0x7FC0_0000,
            Format::Double => 0x7FF8_0000_0000_0000,
        },
    }
}

/// A finite code as a significand and the exponent of its spacing.
pub fn split(f: Format, code: u64) -> (r: (u64, u32))
    requires
        code < f.infinity(),
    ensures
        f.units(code as nat) == r.0 * pow2(r.1 as nat),
        r.0 < pow2(f.mant() + 1),
        r.0 <= code,
        r.1 < 2046,
        r.1 > 0 ==> r.0 >= pow2(f.mant()),
        r.0 == 0 ==> code == 0,
        r.1 == formats::grid(code as nat, f.mant()),
        r.0 == formats::significand(code as nat, f.mant()),
{
    proof {
        round::lemma_format_powers(f);
        formats::lemma_grid_split(code as nat, f.mant());
    }
    let step: u64 = match f {
        Format::Half => 0x400,
        Format::Single => 0x80_0000,
        Format::Double => 0x10_0000_0000_0000,
    };
    let e: u64 = code / step;
    proof {
        lemma_fundamental_div_mod(code as int, step as int);
        lemma_mod_bound(code as int, step as int);
        assert(e < 2047) by (nonlinear_arith)
            requires
                step * e <= code,
                code < 2047 * step,
        ;
    }
    if e == 0 {
        assert(formats::grid(code as nat, f.mant()) == 0);
        assert(0 * step == 0);
        (code, 0)
    } else {
        let t: u64 = e - 1;
        assert(t * step + step == step * e) by (nonlinear_arith)
            requires
                t == e - 1,
        ;
        (code - t * step, t as u32)
    }
}

/// `up(e) * 2^a == down(e) * 2^b` when `e == b - a`.
proof fn lemma_shift_balance(e: int, a: nat, b: nat)
    requires
        e == b - a,
    ensures
        round::up(e) * pow2(a) == round::down(e) * pow2(b),
        round::up(e) > 0,
        round::down(e) > 0,
{
    let x: nat = if e > 0 { e as nat } else { 0 };
    let y: nat = if e < 0 { (-e) as nat } else { 0 };
    lemma_pow2_pos(x);
    lemma_pow2_pos(y);
    lemma_pow2_adds(x, a);
    lemma_pow2_adds(y, b);
}

pub fn multiply(f: Format, a: Parts, b: Parts) -> (r: Parts)
    requires
        a.fits(f),
        b.fits(f),
    ensures
        r == product(f, a, b),
        r.fits(f),
{
    let top: u64 = f.infinity_code();
    if a.code > top || b.code > top || (a.code == top && b.code == 0) || (a.code == 0 && b.code
        == top) {
        return quiet(f);
    }
    let neg: bool = a.neg != b.neg;
    if a.code == top || b.code == top {
        return Parts { neg, code: top };
    }
    let (ma, ta) = split(f, a.code);
    let (mb, tb) = split(f, b.code);
    let scale: i32 = f.scale_bits();
    let e: i32 = ta as i32 + tb as i32 - scale;
    let ghost num = a.units(f) * b.units(f);
    let ghost den = pow2(f.scale());
    proof {
        lemma_pow2_pos(f.scale());
        lemma_product_fits(f, ma as nat, mb as nat);
    }
    let q: u128 = ma as u128 * mb as u128;
    proof {
        lemma_shift_balance(e as int, f.scale(), (ta + tb) as nat);
        lemma_pow2_adds(ta as nat, tb as nat);
        let pa = pow2(ta as nat);
        let pb = pow2(tb as nat);
        let u = round::up(e as int);
        let d = round::down(e as int);
        assert((ma * pa) * (mb * pb) == (ma * mb) * (pa * pb)) by (nonlinear_arith);
        assert(q * (u * den) == ((ma * mb) * (pa * pb)) * d) by (nonlinear_arith)
            requires
                q == ma * mb,
                u * den == d * (pa * pb),
        ;
        assert((q + 1) * (u * den) > q * (u * den)) by (nonlinear_arith)
            requires
                u > 0,
                den > 0,
        ;
    }
    let code: u64 = round::round(f, q, e, false, Ghost(num), Ghost(den));
    Parts { neg, code }
}

proof fn lemma_product_fits(f: Format, x: nat, y: nat)
    requires
        x < pow2(f.mant() + 1),
        y < pow2(f.mant() + 1),
    ensures
        x * y < pow2(127),
        x * y <= u128::MAX,
{
    lemma2_to64_rest();
    lemma_pow2_order_le(f.mant() + 1, 53);
    assert(pow2(53) == 0x20_0000_0000_0000);
    assert(x * y < 0x20_0000_0000_0000 * 0x20_0000_0000_0000) by (nonlinear_arith)
        requires
            x < 0x20_0000_0000_0000,
            y < 0x20_0000_0000_0000,
    ;
    lemma_pow2_adds(53, 53);
    lemma_pow2_strictly_increases(106, 127);
}

pub proof fn lemma_pow2_order_le(a: nat, b: nat)
    requires
        a <= b,
    ensures
        pow2(a) <= pow2(b),
{
    if a < b {
        lemma_pow2_strictly_increases(a, b);
    }
}

pub fn divide(f: Format, a: Parts, b: Parts) -> (r: Parts)
    requires
        a.fits(f),
        b.fits(f),
    ensures
        r == quotient(f, a, b),
        r.fits(f),
{
    let top: u64 = f.infinity_code();
    if a.code > top || b.code > top || (a.code == top && b.code == top) || (a.code == 0 && b.code
        == 0) {
        return quiet(f);
    }
    let neg: bool = a.neg != b.neg;
    if a.code == top || b.code == 0 {
        return Parts { neg, code: top };
    }
    if b.code == top {
        return Parts { neg, code: 0 };
    }
    let (ma, ta) = split(f, a.code);
    let (mb, tb) = split(f, b.code);
    let ghost num = a.units(f) * pow2(f.scale());
    let ghost den = b.units(f);
    proof {
        lemma_pow2_pos(tb as nat);
        assert(den > 0) by (nonlinear_arith)
            requires
                den == mb * pow2(tb as nat),
                mb > 0,
                pow2(tb as nat) > 0,
        ;
    }
    if a.code == 0 {
        proof {
            round::lemma_units_zero(f);
            assert(0 * pow2(f.scale()) == 0 && 0 * den == 0) by (nonlinear_arith);
            formats::lemma_nearest_exact(f, 0, den);
        }
        return Parts { neg, code: 0 };
    }
    let len: u32 = bit_len(ma as u128);
    proof {
        lemma2_to64_rest();
        lemma_pow2_order_le(f.mant() + 1, 53);
        if len > 64 {
            lemma_pow2_order_le(64, (len - 1) as nat);
        }
    }
    let k: u32 = 126 - len;
    proof {
        lemma_pow2_adds(len as nat, k as nat);
        lemma_pow2_adds((len - 1) as nat, k as nat);
        lemma_pow2_pos(k as nat);
        lemma_mul_strict_inequality(ma as int, pow2(len as nat) as int, pow2(k as nat) as int);
        lemma_mul_inequality(pow2((len - 1) as nat) as int, ma as int, pow2(k as nat) as int);
        lemma_pow2_adds(63, 63);
        lemma_pow2_strictly_increases(126, 127);
    }
    let wide: u128 = shift_left(ma as u128, k);
    let q: u128 = wide / (mb as u128);
    let inexact: bool = wide % (mb as u128) != 0;
    let scale: i32 = f.scale_bits();
    let e: i32 = ta as i32 - tb as i32 + scale - k as i32;
    proof {
        lemma_fundamental_div_mod(wide as int, mb as int);
        lemma_mod_bound(wide as int, mb as int);
        assert(q * mb == mb * q && (q + 1) * mb == q * mb + mb) by (nonlinear_arith);
        lemma_quotient(
            q as nat,
            e as int,
            inexact,
            ma as nat,
            ta as nat,
            mb as nat,
            tb as nat,
            f.scale(),
            k as nat,
        );
        lemma_quotient_size(f, q as nat, wide as nat, mb as nat);
        assert(q <= wide) by (nonlinear_arith)
            requires
                q * mb <= wide,
                mb >= 1,
        ;
    }
    let code: u64 = round::round(f, q, e, inexact, Ghost(num), Ghost(den));
    Parts { neg, code }
}

proof fn lemma_quotient_size(f: Format, q: nat, wide: nat, mb: nat)
    requires
        wide >= pow2(125),
        wide < (q + 1) * mb,
        0 < mb < pow2(f.mant() + 1),
    ensures
        q >= pow2(f.mant() + 2),
{
    let p = pow2(f.mant() + 2);
    lemma_pow2_adds(f.mant() + 2, f.mant() + 1);
    lemma_pow2_order_le((f.mant() + 2) + (f.mant() + 1), 125);
    if q < p {
        assert((q + 1) * mb <= p * pow2(f.mant() + 1)) by (nonlinear_arith)
            requires
                q + 1 <= p,
                mb <= pow2(f.mant() + 1),
        ;
    }
}

proof fn lemma_quotient(
    q: nat,
    e: int,
    inexact: bool,
    ma: nat,
    ta: nat,
    mb: nat,
    tb: nat,
    scale: nat,
    k: nat,
)
    requires
        e == ta - tb + scale - k,
        mb > 0,
        q * mb <= ma * pow2(k) < (q + 1) * mb,
        inexact <==> q * mb != ma * pow2(k),
    ensures
        round::truncates(q, e, inexact, (ma * pow2(ta)) * pow2(scale), mb * pow2(tb)),
{
    let u = round::up(e);
    let d = round::down(e);
    let num = (ma * pow2(ta)) * pow2(scale);
    let den = mb * pow2(tb);
    lemma_shift_balance(e, tb + k, ta + scale);
    lemma_pow2_adds(tb, k);
    lemma_pow2_adds(ta, scale);
    lemma_pow2_pos(tb);
    let pk = pow2(k);
    let pb = pow2(tb);
    let w = ma * pk;
    let g = u * pb;
    assert(g > 0) by (nonlinear_arith)
        requires
            g == u * pb,
            u > 0,
            pb > 0,
    ;
    let pa = pow2(ta);
    let ps = pow2(scale);
    assert(num * d == w * g) by (nonlinear_arith)
        requires
            num == (ma * pa) * ps,
            w == ma * pk,
            g == u * pb,
            u * (pb * pk) == d * (pa * ps),
    ;
    assert(q * (u * den) == (q * mb) * g) by (nonlinear_arith)
        requires
            den == mb * pb,
            g == u * pb,
    ;
    assert((q + 1) * (u * den) == ((q + 1) * mb) * g) by (nonlinear_arith)
        requires
            den == mb * pb,
            g == u * pb,
    ;
    lemma_mul_inequality((q * mb) as int, w as int, g as int);
    lemma_mul_strict_inequality(w as int, ((q + 1) * mb) as int, g as int);
    if q * mb != w {
        lemma_mul_strict_inequality((q * mb) as int, w as int, g as int);
    }
}

pub open spec fn signed(neg: bool, magnitude: nat) -> int {
    if neg {
        -(magnitude as int)
    } else {
        magnitude as int
    }
}

/// The rounded sum `v` of two finite numbers with signs `na` and `nb`.
pub open spec fn rounded_sum(f: Format, na: bool, nb: bool, v: int) -> Parts {
    if v == 0 {
        Parts { neg: na && nb, code: 0 }
    } else {
        Parts { neg: v < 0, code: f.nearest(magnitude(v), 1) as u64 }
    }
}

pub proof fn lemma_truncates_whole(q: nat, e: nat)
    ensures
        round::truncates(q, e as int, false, q * pow2(e), 1),
{
    let p = pow2(e);
    lemma_pow2_pos(e);
    lemma2_to64();
    assert(round::up(e as int) == p);
    assert(round::down(e as int) == 1);
    assert((q + 1) * p == q * p + p && q * (p * 1) == q * p && (q * p) * 1 == q * p && (q + 1) * (p
        * 1) == (q + 1) * p) by (nonlinear_arith);
}

/// The sum of `ma * 2^ta` and `mb * 2^tb`, where the first has the coarser
/// spacing.
fn sum_ordered(f: Format, na: bool, ma: u64, ta: u32, nb: bool, mb: u64, tb: u32) -> (r: Parts)
    requires
        tb <= ta < 2046,
        ma < pow2(f.mant() + 1),
        mb < pow2(f.mant() + 1),
        ta > 0 ==> ma >= pow2(f.mant()),
    ensures
        r == rounded_sum(
            f,
            na,
            nb,
            signed(na, ma as nat * pow2(ta as nat)) + signed(nb, mb as nat * pow2(tb as nat)),
        ),
        r.fits(f),
{
    let d: u32 = ta - tb;
    let ghost ua = ma as nat * pow2(ta as nat);
    let ghost ub = mb as nat * pow2(tb as nat);
    let ghost v = signed(na, ua) + signed(nb, ub);
    proof {
        lemma2_to64_rest();
        lemma_pow2_order_le(f.mant() + 1, 53);
        lemma_pow2_strictly_increases(118, 127);
    }
    if d <= 64 {
        let ghost p = pow2(tb as nat);
        proof {
            lemma_widened(ma as nat, d as nat);
            lemma_pow2_adds(d as nat, tb as nat);
            lemma_pow2_pos(tb as nat);
            assert(ua == (ma as nat * pow2(d as nat)) * p) by (nonlinear_arith)
                requires
                    ua == ma as nat * (pow2(d as nat) * p),
            ;
        }
        let wa: u128 = shift_left(ma as u128, d);
        let wb: u128 = mb as u128;
        let q: u128;
        let neg: bool;
        if na == nb {
            q = wa + wb;
            neg = na;
            assert((wa + wb) * p == wa * p + wb * p) by (nonlinear_arith);
        } else if wa >= wb {
            q = (wa - wb) as u128;
            neg = na;
            assert((wa - wb) * p == wa * p - wb * p) by (nonlinear_arith);
        } else {
            q = (wb - wa) as u128;
            neg = nb;
            assert((wb - wa) * p == wb * p - wa * p) by (nonlinear_arith);
        }
        assert(q * p == 0 <==> q == 0) by (nonlinear_arith)
            requires
                p > 0,
        ;
        assert(q * p >= 0) by (nonlinear_arith);
        assert(magnitude(v) == q * p);
        if q == 0 {
            return Parts { neg: na && nb, code: 0 };
        }
        proof {
            lemma_truncates_whole(q as nat, tb as nat);
        }
        let code: u64 = round::round(
            f,
            q,
            tb as i32,
            false,
            Ghost(magnitude(v)),
            Ghost(1),
        );
        return Parts { neg, code };
    }
    let shift: u32 = d - 64;
    let bq: u128;
    let cut: bool;
    if shift < 128 {
        bq = shift_right(mb as u128, shift);
        cut = shift_left(bq, shift) != mb as u128;
    } else {
        bq = 0;
        cut = mb != 0;
        proof {
            lemma_pow2_order_le(53, shift as nat);
            assert((0 + 1) * pow2(shift as nat) == pow2(shift as nat) && 0 * pow2(shift as nat) == 0)
                by (nonlinear_arith);
        }
    }
    proof {
        lemma_widened(ma as nat, 64);
        lemma_pow2_pos(shift as nat);
        assert(bq <= mb) by (nonlinear_arith)
            requires
                bq * pow2(shift as nat) <= mb,
                pow2(shift as nat) >= 1,
        ;
    }
    let wa: u128 = shift_left(ma as u128, 64);
    proof {
        lemma_far_size(f, ma as nat, mb as nat);
    }
    let q: u128 = if na == nb {
        wa + bq
    } else if cut {
        wa - bq - 1
    } else {
        wa - bq
    };
    let e: i32 = ta as i32 - 64;
    proof {
        lemma_far(
            na == nb,
            ma as nat,
            ta as nat,
            mb as nat,
            tb as nat,
            shift as nat,
            bq as nat,
            cut,
            q as nat,
            e as int,
        );
        assert(magnitude(v) == if na == nb { ua + ub } else { (ua - ub) as nat });
    }
    let code: u64 = round::round(f, q, e, cut, Ghost(magnitude(v)), Ghost(1));
    Parts { neg: na, code }
}

pub proof fn lemma_widened(m: nat, d: nat)
    requires
        m < pow2(53),
        d <= 64,
    ensures
        m * pow2(d) < pow2(117),
        m * pow2(d) <= u128::MAX - pow2(64),
        pow2(117) + pow2(117) == pow2(118),
        pow2(53) < pow2(117),
{
    lemma_pow2_adds(53, 64);
    lemma_pow2_order_le(d, 64);
    lemma_pow2_pos(d);
    assert(m * pow2(d) < pow2(53) * pow2(64)) by (nonlinear_arith)
        requires
            m < pow2(53),
            0 < pow2(d) <= pow2(64),
    ;
    lemma_pow2_unfold(118);
    lemma2_to64_rest();
    lemma_pow2_unfold(64);
    assert(pow2(117) == 0x20_0000_0000_0000 * 0x1_0000_0000_0000_0000);
    lemma_pow2_strictly_increases(53, 117);
}

proof fn lemma_far_size(f: Format, ma: nat, mb: nat)
    requires
        pow2(f.mant()) <= ma,
        mb < pow2(f.mant() + 1),
    ensures
        ma * pow2(64) >= pow2(f.mant() + 2) + mb + 1,
{
    let p = pow2(f.mant());
    lemma_pow2_pos(f.mant());
    lemma_pow2_unfold(f.mant() + 1);
    lemma_pow2_unfold(f.mant() + 2);
    lemma2_to64_rest();
    lemma_pow2_unfold(64);
    assert(ma * pow2(64) >= p * 16) by (nonlinear_arith)
        requires
            ma >= p,
            pow2(64) >= 16,
    ;
}

/// When the spacings are far apart, the second number only nudges the first.
proof fn lemma_far(
    same: bool,
    ma: nat,
    ta: nat,
    mb: nat,
    tb: nat,
    shift: nat,
    bq: nat,
    cut: bool,
    q: nat,
    e: int,
)
    requires
        ta == tb + shift + 64,
        e == ta - 64,
        bq * pow2(shift) <= mb < (bq + 1) * pow2(shift),
        cut <==> bq * pow2(shift) != mb,
        bq + 1 <= ma * pow2(64),
        q == if same {
            ma * pow2(64) + bq
        } else if cut {
            (ma * pow2(64) - bq - 1) as nat
        } else {
            (ma * pow2(64) - bq) as nat
        },
    ensures
        ({
            let ua = ma * pow2(ta);
            let ub = mb * pow2(tb);
            &&& ua > ub
            &&& round::truncates(
                q,
                e,
                cut,
                if same {
                    ua + ub
                } else {
                    (ua - ub) as nat
                },
                1,
            )
        }),
{
    let w = ma * pow2(64);
    let p = pow2(e as nat);
    let pb = pow2(tb);
    let ps = pow2(shift);
    let ua = ma * pow2(ta);
    let ub = mb * pb;
    lemma_pow2_adds(64, e as nat);
    lemma_pow2_adds(shift, tb);
    lemma_pow2_pos(e as nat);
    lemma_pow2_pos(tb);
    lemma2_to64();
    assert(e as nat == shift + tb);
    assert(64 + e as nat == ta);
    assert(ua == w * p) by (nonlinear_arith)
        requires
            ua == ma * (pow2(64) * p),
            w == ma * pow2(64),
    ;
    assert((bq * ps) * pb == bq * p && ((bq + 1) * ps) * pb == (bq + 1) * p) by (nonlinear_arith)
        requires
            p == ps * pb,
    ;
    lemma_mul_inequality((bq * ps) as int, mb as int, pb as int);
    lemma_mul_strict_inequality(mb as int, ((bq + 1) * ps) as int, pb as int);
    if cut {
        lemma_mul_strict_inequality((bq * ps) as int, mb as int, pb as int);
    }
    assert(round::up(e) == p);
    assert(round::down(e) == 1);
    lemma_mul_inequality((bq + 1) as int, w as int, p as int);
    assert((w + bq) * p == w * p + bq * p) by (nonlinear_arith);
    assert((w + bq + 1) * p == w * p + (bq + 1) * p) by (nonlinear_arith);
    assert((w - bq) * p == w * p - bq * p) by (nonlinear_arith);
    assert((w - bq - 1) * p == w * p - (bq + 1) * p) by (nonlinear_arith);
    assert((w - bq + 1) * p == w * p - bq * p + p) by (nonlinear_arith);
    assert(q * (p * 1) == q * p && (q + 1) * (p * 1) == (q + 1) * p) by (nonlinear_arith);
}

/// `a + b`.
pub fn plus(f: Format, a: Parts, b: Parts) -> (r: Parts)
    requires
        a.fits(f),
        b.fits(f),
    ensures
        r == sum(f, a, b),
        r.fits(f),
{
    let top: u64 = f.infinity_code();
    if a.code > top || b.code > top || (a.code == top && b.code == top && a.neg != b.neg) {
        return quiet(f);
    }
    if a.code == top {
        return a;
    }
    if b.code == top {
        return b;
    }
    let (ma, ta) = split(f, a.code);
    let (mb, tb) = split(f, b.code);
    if ta >= tb {
        sum_ordered(f, a.neg, ma, ta, b.neg, mb, tb)
    } else {
        sum_ordered(f, b.neg, mb, tb, a.neg, ma, ta)
    }
}

/// `a - b`.
pub fn minus(f: Format, a: Parts, b: Parts) -> (r: Parts)
    requires
        a.fits(f),
        b.fits(f),
    ensures
        r == sum(f, a, Parts { neg: !b.neg, ..b }),
        r.fits(f),
{
    plus(f, a, Parts { neg: !b.neg, code: b.code })
}

/// Whether `a < b`.
pub fn is_less(f: Format, a: Parts, b: Parts) -> (r: bool)
    requires
        a.fits(f),
        b.fits(f),
    ensures
        r == less(f, a, b),
{
    let top: u64 = f.infinity_code();
    proof {
        round::lemma_units_zero(f);
        let x = a.code as nat;
        let y = b.code as nat;
        if x < y {
            formats::lemma_units_increasing(f, x, y);
        }
        if y < x {
            formats::lemma_units_increasing(f, y, x);
        }
        if x > 0 {
            formats::lemma_units_increasing(f, 0, x);
        }
        if y > 0 {
            formats::lemma_units_increasing(f, 0, y);
        }
    }
    if a.code > top || b.code > top {
        false
    } else if a.neg && b.neg {
        b.code < a.code
    } else if a.neg {
        a.code > 0 || b.code > 0
    } else if b.neg {
        false
    } else {
        a.code < b.code
    }
}

} // verus!
