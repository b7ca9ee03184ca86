//! The binary interchange formats and what rounding to nearest means.
//!
//! A *code* is a bit pattern without its sign bit, read as a number. Codes of
//! one format are ordered as the magnitudes that they stand for, and every
//! finite magnitude is a whole number of *units*, the least positive magnitude
//! of the format. So everything about rounding can be said over the integers.

use vstd::arithmetic::div_mod::*;
use vstd::arithmetic::mul::*;
use vstd::arithmetic::power2::*;
use vstd::prelude::*;

verus! {

/// One of the three binary formats that the crate works with.
#[derive(Clone, Copy, PartialEq, Eq, Debug, Structural)]
pub enum Format {
    /// binary16: 5 exponent bits, 10 mantissa bits.
    Half,
    /// binary32: 8 exponent bits, 23 mantissa bits.
    Single,
    /// binary64: 11 exponent bits, 52 mantissa bits.
    Double,
}

impl Format {
    /// The number of mantissa bits that are stored.
    pub open spec fn mant(self) -> nat {
        match self {
            Format::Half => 10,
            Format::Single => 23,
            Format::Double => 52,
        }
    }

    /// The number of exponent bits that are stored.
    pub open spec fn exp(self) -> nat {
        match self {
            Format::Half => 5,
            Format::Single => 8,
            Format::Double => 11,
        }
    }

    /// One unit is `2^-scale`.
    pub open spec fn scale(self) -> nat {
        match self {
            Format::Half => 24,
            Format::Single => 149,
            Format::Double => 1074,
        }
    }

    /// The code of infinity: all exponent bits set, no mantissa bit.
    pub open spec fn infinity(self) -> nat {
        match self {
            Format::Half => 0x7C00,
            Format::Single => 0x7F80_0000,
            Format::Double => 0x7FF0_0000_0000_0000,
        }
    }

    /// The sign bit as a number, which is also the number of codes.
    pub open spec fn sign_weight(self) -> nat {
        match self {
            Format::Half => 0x8000,
            Format::Single => 0x8000_0000,
            Format::Double => 0x8000_0000_0000_0000,
        }
    }

    /// The magnitude of a code, in units. At the code of infinity this is the
    /// magnitude that would follow the largest finite one, which is where
    /// overflow begins to round to.
    pub open spec fn units(self, code: nat) -> nat {
        significand(code, self.mant()) * pow2(grid(code, self.mant()))
    }

    /// Whether `code` is the magnitude nearest to `num / den` units, a tie
    /// going to the even code: `num / den` lies no lower than midway to the
    /// code below and no higher than midway to the code above.
    pub open spec fn is_nearest(self, code: nat, num: nat, den: nat) -> bool {
        &&& code <= self.infinity()
        &&& code > 0 ==> {
            let twice_mid = (self.units((code - 1) as nat) + self.units(code)) * den;
            twice_mid < 2 * num || (twice_mid == 2 * num && code % 2 == 0)
        }
        &&& code < self.infinity() ==> {
            let twice_mid = (self.units(code) + self.units(code + 1)) * den;
            2 * num < twice_mid || (twice_mid == 2 * num && code % 2 == 0)
        }
    }

    /// The code nearest to `num / den` units.
    pub open spec fn nearest(self, num: nat, den: nat) -> nat {
        choose|code: nat| self.is_nearest(code, num, den)
    }
}

/// The exponent, over the unit, of the spacing between a code and the next.
pub open spec fn grid(code: nat, mant: nat) -> nat {
    let e = code / pow2(mant);
    if e == 0 {
        0
    } else {
        (e - 1) as nat
    }
}

/// The significand of a code: its mantissa, with the leading bit unless the
/// code is subnormal.
pub open spec fn significand(code: nat, mant: nat) -> nat {
    (code - grid(code, mant) * pow2(mant)) as nat
}

pub proof fn lemma_grid_split(code: nat, mant: nat)
    ensures
        significand(code, mant) < pow2(mant + 1),
        grid(code, mant) > 0 ==> significand(code, mant) >= pow2(mant),
        code == grid(code, mant) * pow2(mant) + significand(code, mant),
{
    let p = pow2(mant);
    lemma_pow2_pos(mant);
    lemma_pow2_unfold(mant + 1);
    lemma_fundamental_div_mod(code as int, p as int);
    let e = code / p;
    let r = code % p;
    lemma_mod_bound(code as int, p as int);
    if e > 0 {
        assert(p * e == (e - 1) * p + p) by (nonlinear_arith);
        assert((e - 1) * p >= 0) by (nonlinear_arith)
            requires
                e > 0,
        ;
    } else {
        assert(p * e == 0 && 0 * p == 0) by (nonlinear_arith)
            requires
                e == 0,
        ;
    }
}

/// A significand and a spacing give back the code they make up.
pub proof fn lemma_grid_join(m: nat, t: nat, mant: nat)
    requires
        m < pow2(mant + 1),
        t > 0 ==> m >= pow2(mant),
    ensures
        grid(t * pow2(mant) + m, mant) == t,
        significand(t * pow2(mant) + m, mant) == m,
{
    let p = pow2(mant);
    lemma_pow2_pos(mant);
    lemma_pow2_unfold(mant + 1);
    let code = t * p + m;
    if m < p {
        assert(t == 0);
        assert(code == m);
        lemma_fundamental_div_mod_converse(code as int, p as int, 0, m as int);
    } else {
        assert(code == (t + 1) * p + (m - p)) by (nonlinear_arith)
            requires
                code == t * p + m,
        ;
        lemma_fundamental_div_mod_converse(code as int, p as int, (t + 1) as int, (m - p) as int);
    }
}

/// The next code lies one spacing further.
pub proof fn lemma_next_code(code: nat, mant: nat)
    ensures
        significand(code + 1, mant) * pow2(grid(code + 1, mant)) == (significand(code, mant) + 1)
            * pow2(grid(code, mant)),
        significand(code + 1, mant) * pow2(grid(code + 1, mant)) == significand(code, mant) * pow2(
            grid(code, mant),
        ) + pow2(grid(code, mant)),
        pow2(grid(code, mant)) > 0,
{
    let p = pow2(mant);
    let m = significand(code, mant);
    let t = grid(code, mant);
    lemma_grid_split(code, mant);
    lemma_pow2_pos(mant);
    lemma_pow2_pos(t);
    lemma_pow2_unfold(mant + 1);
    if m + 1 < pow2(mant + 1) {
        lemma_grid_join(m + 1, t, mant);
        assert(t * p + (m + 1) == code + 1);
    } else {
        assert(m + 1 == 2 * p);
        lemma_grid_join(p, t + 1, mant);
        assert((t + 1) * p + p == t * p + 2 * p) by (nonlinear_arith);
        assert(code + 1 == (t + 1) * p + p);
        lemma_pow2_unfold(t + 1);
        assert(p * (2 * pow2(t)) == (2 * p) * pow2(t)) by (nonlinear_arith);
    }
    assert((m + 1) * pow2(t) == m * pow2(t) + pow2(t)) by (nonlinear_arith);
}

pub proof fn lemma_units_next(f: Format, code: nat)
    ensures
        f.units(code + 1) == (significand(code, f.mant()) + 1) * pow2(grid(code, f.mant())),
        f.units(code + 1) > f.units(code),
{
    lemma_next_code(code, f.mant());
}

/// Larger codes stand for larger magnitudes.
pub proof fn lemma_units_increasing(f: Format, a: nat, b: nat)
    requires
        a < b,
    ensures
        f.units(a) < f.units(b),
    decreases b,
{
    lemma_units_next(f, (b - 1) as nat);
    if a < b - 1 {
        lemma_units_increasing(f, a, (b - 1) as nat);
    }
}

/// Rounding to nearest picks one code at most.
pub proof fn lemma_nearest_unique(f: Format, a: nat, b: nat, num: nat, den: nat)
    requires
        den > 0,
        f.is_nearest(a, num, den),
        f.is_nearest(b, num, den),
    ensures
        a == b,
{
    if a < b {
        lemma_nearest_order(f, a, b, num, den);
    } else if b < a {
        lemma_nearest_order(f, b, a, num, den);
    }
}

proof fn lemma_nearest_order(f: Format, a: nat, b: nat, num: nat, den: nat)
    requires
        den > 0,
        a < b,
        f.is_nearest(a, num, den),
    ensures
        !f.is_nearest(b, num, den),
{
    let hi = f.units(a) + f.units(a + 1);
    let lo = f.units((b - 1) as nat) + f.units(b);
    if a + 1 < b {
        lemma_units_increasing(f, a, (b - 1) as nat);
        lemma_units_increasing(f, a + 1, b);
        assert(hi * den < lo * den) by (nonlinear_arith)
            requires
                hi < lo,
                den > 0,
        ;
    } else {
        assert(hi == lo);
        assert((b - 1) as nat == a);
        assert(a % 2 == 0 ==> b % 2 != 0);
    }
}

/// Between two neighbours, the midpoint decides.
pub proof fn lemma_nearest_between(f: Format, code: nat, num: nat, den: nat)
    requires
        den > 0,
        code < f.infinity(),
        f.units(code) * den <= num,
        num < f.units(code + 1) * den,
    ensures
        ({
            let twice_mid = (f.units(code) + f.units(code + 1)) * den;
            &&& 2 * num < twice_mid ==> f.is_nearest(code, num, den)
            &&& 2 * num > twice_mid ==> f.is_nearest(code + 1, num, den)
            &&& 2 * num == twice_mid ==> f.is_nearest(
                if code % 2 == 0 { code } else { code + 1 },
                num,
                den,
            )
        }),
{
    let u = f.units(code);
    let v = f.units(code + 1);
    if code > 0 {
        let w = f.units((code - 1) as nat);
        lemma_units_increasing(f, (code - 1) as nat, code);
        assert((w + u) * den < 2 * num) by (nonlinear_arith)
            requires
                w < u,
                den > 0,
                u * den <= num,
        ;
    }
    let x = f.units(code + 2);
    lemma_units_increasing(f, code + 1, code + 2);
    assert(2 * num < (v + x) * den) by (nonlinear_arith)
        requires
            v < x,
            den > 0,
            num < v * den,
    ;
    assert(code + 1 + 1 == code + 2);
    assert((code + 1 - 1) as nat == code);
}

/// A magnitude at or above that of the code of infinity rounds to infinity.
pub proof fn lemma_nearest_overflow(f: Format, num: nat, den: nat)
    requires
        den > 0,
        f.units(f.infinity()) * den <= num,
    ensures
        f.is_nearest(f.infinity(), num, den),
{
    let top = f.infinity();
    lemma_units_increasing(f, (top - 1) as nat, top);
    let u = f.units((top - 1) as nat);
    let v = f.units(top);
    assert((u + v) * den < 2 * num) by (nonlinear_arith)
        requires
            u < v,
            den > 0,
            v * den <= num,
    ;
}

/// A magnitude that the format holds rounds to itself.
pub proof fn lemma_nearest_exact(f: Format, code: nat, den: nat)
    requires
        den > 0,
        code <= f.infinity(),
    ensures
        f.is_nearest(code, f.units(code) * den, den),
        f.nearest(f.units(code) * den, den) == code,
{
    let num = f.units(code) * den;
    if code < f.infinity() {
        lemma_units_next(f, code);
        let u = f.units(code);
        let v = f.units(code + 1);
        assert(u * den < v * den && 2 * (u * den) < (u + v) * den) by (nonlinear_arith)
            requires
                u < v,
                den > 0,
        ;
        lemma_nearest_between(f, code, num, den);
    } else {
        lemma_nearest_overflow(f, num, den);
    }
    lemma_nearest_is(f, code, num, den);
}

/// The nearest code is the one that satisfies `is_nearest`.
pub proof fn lemma_nearest_is(f: Format, code: nat, num: nat, den: nat)
    requires
        den > 0,
        f.is_nearest(code, num, den),
    ensures
        f.nearest(num, den) == code,
{
    lemma_nearest_unique(f, f.nearest(num, den), code, num, den);
}

} // verus!
