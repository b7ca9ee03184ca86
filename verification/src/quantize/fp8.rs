//! Quantization to FP8 E4M3: 1 sign bit, 4 exponent bits (bias 7), 3 mantissa
//! bits, no infinity, and one NaN of either sign.
//!
//! As for the wider formats, the *code* of a byte is the byte without its sign
//! bit. Codes `0..=126` are magnitudes, counted here in steps of `2^-9`, the
//! least positive one; code 127 is NaN.

use crate::float::arith;
use crate::float::arith::{split, Parts};
use crate::float::formats;
use crate::float::formats::Format;
use crate::float::laws;
use crate::float::round;
use crate::float::Binary32;
use crate::parallel;
use crate::parallel::flat_map_chunks;
use vstd::arithmetic::div_mod::*;
use vstd::arithmetic::mul::*;
use vstd::arithmetic::power2::*;
use vstd::prelude::*;

verus! {

/// The code of the largest magnitude, 448.
pub const LARGEST: u8 = 126;

/// The code of NaN.
pub const NAN: u8 = 127;

/// The weight of the sign bit.
pub const SIGN: u8 = 128;

/// How many numbers a thread takes at a time.
pub const CHUNK: usize = 4096;

/// The magnitude of a code, in steps of `2^-9`.
pub open spec fn steps(code: nat) -> nat {
    formats::significand(code, 3) * pow2(formats::grid(code, 3))
}

/// One step in units of binary32.
pub open spec fn step() -> nat {
    pow2(140)
}

/// Whether `code` is the encoding of a magnitude of `units` units of binary32.
/// Below one step everything becomes zero. From there on the nearest magnitude
/// is taken, the larger of two at the same distance, and the largest for
/// everything beyond it.
pub open spec fn is_code(code: nat, units: nat) -> bool {
    &&& code <= LARGEST
    &&& units < step() ==> code == 0
    &&& units >= step() ==> {
        &&& 0 < code
        &&& (steps((code - 1) as nat) + steps(code)) * step() <= 2 * units
        &&& code < LARGEST ==> 2 * units < (steps(code) + steps(code + 1)) * step()
    }
}

/// The code of a magnitude.
pub open spec fn code_of(units: nat) -> nat {
    choose|code: nat| is_code(code, units)
}

/// The byte of a number: NaN for what is not finite, always with its sign.
pub open spec fn encoded(v: Binary32) -> u8 {
    let code = if v.finite() {
        code_of(v.units())
    } else {
        NAN as nat
    };
    (code + if v.parts().neg {
        SIGN as nat
    } else {
        0
    }) as u8
}

/// The code of a byte.
pub open spec fn code(byte: u8) -> nat {
    (byte % SIGN) as nat
}

/// The number of a byte. NaN loses its sign.
pub open spec fn decoded(byte: u8) -> Binary32 {
    if code(byte) == NAN {
        Binary32::of(arith::quiet_nan(Format::Single))
    } else {
        Binary32::of(
            Parts {
                neg: byte >= SIGN,
                code: Format::Single.nearest(steps(code(byte)) * step(), 1) as u64,
            },
        )
    }
}

/// A significand with leading bit and a spacing, or a subnormal one.
proof fn lemma_steps(x: nat, d: nat)
    requires
        x < 16,
        d > 0 ==> x >= 8,
    ensures
        steps(8 * d + x) == x * pow2(d),
        steps(8 * d + x + 1) == (x + 1) * pow2(d),
        d == 0 ==> steps(x) == x && steps(x + 1) == x + 1,
        pow2(d) > 0,
{
    lemma2_to64();
    assert(x * 1 == x && (x + 1) * 1 == x + 1);
    formats::lemma_grid_join(x, d, 3);
    formats::lemma_next_code(8 * d + x, 3);
    assert(d * 8 == 8 * d);
}

proof fn lemma_steps_increasing(a: nat, b: nat)
    requires
        a < b,
    ensures
        steps(a) < steps(b),
    decreases b,
{
    formats::lemma_next_code((b - 1) as nat, 3);
    if a < b - 1 {
        lemma_steps_increasing(a, (b - 1) as nat);
    }
}

/// A magnitude has one code at most, and more magnitude no smaller code.
proof fn lemma_code_order(a: nat, b: nat, lo: nat, hi: nat)
    requires
        lo <= hi,
        is_code(a, lo),
        is_code(b, hi),
    ensures
        a <= b,
{
    if b < a {
        assert(lo >= step());
        let s = steps((a - 1) as nat) + steps(a);
        let r = steps(b) + steps(b + 1);
        if b < a - 1 {
            lemma_steps_increasing(b, (a - 1) as nat);
            lemma_steps_increasing(b + 1, a);
        }
        assert(r * step() <= s * step()) by (nonlinear_arith)
            requires
                r <= s,
        ;
    }
}

proof fn lemma_code_of(c: nat, units: nat)
    requires
        is_code(c, units),
    ensures
        code_of(units) == c,
{
    let d = code_of(units);
    lemma_code_order(c, d, units, units);
    lemma_code_order(d, c, units, units);
}

/// Too small for the least magnitude.
proof fn lemma_flushed(m: nat, t: nat)
    requires
        m < 0x100_0000,
        t < 117,
    ensures
        is_code(0, m * pow2(t)),
{
    lemma2_to64();
    lemma_pow2_adds(24, 116);
    arith::lemma_pow2_order_le(t, 116);
    lemma_pow2_pos(t);
    assert(m * pow2(t) < 0x100_0000 * pow2(116)) by (nonlinear_arith)
        requires
            m < 0x100_0000,
            0 < pow2(t) <= pow2(116),
    ;
}

/// A subnormal code: `x` steps. Where rounding gives 8, that is the code of the
/// least normal magnitude.
proof fn lemma_subnormal(m: nat, t: nat, x: nat)
    requires
        117 <= t <= 119,
        0x80_0000 <= m < 0x100_0000,
        x * pow2((140 - t) as nat) <= m + pow2((139 - t) as nat) < (x + 1) * pow2((140 - t) as nat),
    ensures
        0 < x <= 8,
        is_code(x, m * pow2(t)),
{
    let k = (140 - t) as nat;
    let h = pow2((k - 1) as nat);
    let p = pow2(t);
    let u = m * p;
    lemma2_to64();
    lemma_pow2_unfold(k);
    lemma_pow2_adds(k, t);
    lemma_pow2_pos(t);
    assert(h == 0x10_0000 || h == 0x20_0000 || h == 0x40_0000);
    assert(0 < x <= 8) by (nonlinear_arith)
        requires
            x * (2 * h) <= m + h < (x + 1) * (2 * h),
            0x10_0000 <= h <= 0x40_0000,
            0x80_0000 <= m < 0x100_0000,
    ;
    assert(2 * h * p == step());
    assert(step() <= u < 8 * step()) by (nonlinear_arith)
        requires
            u == m * p,
            step() == 2 * h * p,
            0x10_0000 <= h <= 0x40_0000,
            0x80_0000 <= m < 0x100_0000,
            p > 0,
    ;
    assert((2 * x - 1) * step() <= 2 * u < (2 * x + 1) * step()) by (nonlinear_arith)
        requires
            u == m * p,
            step() == 2 * h * p,
            x * (2 * h) <= m + h < (x + 1) * (2 * h),
            p > 0,
    {
        assert((2 * x - 1) * h <= m);
        assert((2 * x - 1) * h * (2 * p) <= m * (2 * p));
        assert((2 * x - 1) * (2 * h * p) == (2 * x - 1) * h * (2 * p));
        assert(m < (2 * x + 1) * h);
        assert(m * (2 * p) < (2 * x + 1) * h * (2 * p));
        assert((2 * x + 1) * (2 * h * p) == (2 * x + 1) * h * (2 * p));
    }
    lemma_steps((x - 1) as nat, 0);
    lemma_steps(x, 0);
}

/// A normal code: the significand `x` over the spacing `2^d` steps.
proof fn lemma_normal(m: nat, t: nat, x: nat, d: nat)
    requires
        t == d + 120,
        d <= 14,
        0x80_0000 <= m < 0x100_0000,
        x * 0x10_0000 <= m + 0x8_0000 < (x + 1) * 0x10_0000,
    ensures
        8 <= x <= 16,
        is_code(
            if 8 * d + x < LARGEST {
                8 * d + x
            } else {
                LARGEST as nat
            },
            m * pow2(t),
        ),
{
    let g = pow2(d);
    let u = m * pow2(t);
    let q = pow2(120);
    lemma2_to64();
    lemma_pow2_adds(d, 120);
    lemma_pow2_adds(20, 120);
    lemma_pow2_pos(d);
    lemma_pow2_pos(120);
    assert(step() == 0x10_0000 * q);
    assert(g * q > 0) by (nonlinear_arith)
        requires
            g > 0,
            q > 0,
    ;
    // In halves of a spacing: 2^19 * 2^d * 2^120 units.
    let half = 0x8_0000 * (g * q);
    assert(2 * half == g * step()) by (nonlinear_arith)
        requires
            half == 0x8_0000 * (g * q),
            step() == 0x10_0000 * q,
    ;
    assert((2 * x - 1) * half <= u < (2 * x + 1) * half) by (nonlinear_arith)
        requires
            u == m * (g * q),
            half == 0x8_0000 * (g * q),
            g * q > 0,
            x * 0x10_0000 <= m + 0x8_0000 < (x + 1) * 0x10_0000,
    {
        assert((2 * x - 1) * 0x8_0000 <= m);
        assert((2 * x - 1) * 0x8_0000 * (g * q) <= m * (g * q));
        assert(m < (2 * x + 1) * 0x8_0000);
        assert(m * (g * q) < (2 * x + 1) * 0x8_0000 * (g * q));
    }
    assert(16 * half <= u) by (nonlinear_arith)
        requires
            u == m * (g * q),
            half == 0x8_0000 * (g * q),
            g * q > 0,
            0x80_0000 <= m,
    ;
    assert(8 <= x <= 16) by (nonlinear_arith)
        requires
            x * 0x10_0000 <= m + 0x8_0000 < (x + 1) * 0x10_0000,
            0x80_0000 <= m < 0x100_0000,
    ;
    assert(8 * step() <= u) by (nonlinear_arith)
        requires
            16 * half <= u,
            2 * half == g * step(),
            g >= 1,
    ;
    let c = 8 * d + x;
    if c >= LARGEST {
        assert(d == 14 && x >= 14);
        lemma_steps(13, 14);
        assert((13 * g + 14 * g) * step() == 27 * (g * step())) by (nonlinear_arith);
        assert(27 * half <= (2 * x - 1) * half) by (nonlinear_arith)
            requires
                x >= 14,
                half >= 0,
        ;
    } else {
        lemma_normal_neighbours(x, d);
        let a = steps((c - 1) as nat);
        let b = steps(c + 1);
        assert((a + x * g) * step() <= 2 * u) by (nonlinear_arith)
            requires
                a + x * g <= (if x > 8 { 2 * x - 1 } else { 16 }) * g,
                2 * half == g * step(),
                (2 * x - 1) * half <= u,
                16 * half <= u,
        {
            let k = if x > 8 {
                2 * x - 1
            } else {
                16
            };
            assert((a + x * g) * step() <= (k * g) * step());
            assert((k * g) * step() == k * (g * step()));
            assert(k * (2 * half) == 2 * (k * half));
        }
        assert(2 * u < (x * g + b) * step()) by (nonlinear_arith)
            requires
                x * g + b >= (2 * x + 1) * g,
                2 * half == g * step(),
                u < (2 * x + 1) * half,
        {
            assert((x * g + b) * step() >= ((2 * x + 1) * g) * step());
            assert(((2 * x + 1) * g) * step() == (2 * x + 1) * (g * step()));
            assert((2 * x + 1) * (2 * half) == 2 * ((2 * x + 1) * half));
        }
    }
}

/// The magnitudes around a normal code, or around the code that a carry gives.
proof fn lemma_normal_neighbours(x: nat, d: nat)
    requires
        8 <= x <= 16,
    ensures
        steps(8 * d + x) == x * pow2(d),
        steps((8 * d + x - 1) as nat) + x * pow2(d) <= (if x > 8 {
            2 * x - 1
        } else {
            16
        }) * pow2(d),
        x * pow2(d) + steps(8 * d + x + 1) >= (2 * x + 1) * pow2(d),
{
    let g = pow2(d);
    lemma_pow2_unfold(d + 1);
    if x == 16 {
        lemma_steps(8, d + 1);
        lemma_steps(15, d);
        lemma_pow2_pos(d);
        assert(8 * (d + 1) + 8 + 1 == 8 * d + x + 1);
        assert(x * g == 16 * g && (2 * x + 1) * g == 33 * g && (8 + 1) * (2 * g) == 18 * g)
            by (nonlinear_arith)
            requires
                x == 16,
        ;
    } else {
        lemma_steps(x, d);
        if x > 8 {
            lemma_steps((x - 1) as nat, d);
        } else if d > 0 {
            lemma_steps(15, (d - 1) as nat);
            lemma_pow2_unfold(d);
        } else {
            lemma_steps(7, 0);
        }
    }
    assert((x - 1) * g + x * g == (2 * x - 1) * g) by (nonlinear_arith);
    assert((x + 1) * g + x * g == (2 * x + 1) * g) by (nonlinear_arith);
}

/// Too large for any code but the last.
proof fn lemma_clamped(units: nat)
    requires
        units >= 0x4_0000 * step(),
    ensures
        is_code(LARGEST as nat, units),
{
    lemma2_to64();
    lemma_pow2_pos(140);
    lemma_steps(13, 14);
    assert((13 * pow2(14) + 14 * pow2(14)) * step() <= 2 * units) by (nonlinear_arith)
        requires
            pow2(14) == 0x4000,
            units >= 0x4_0000 * step(),
            step() > 0,
    ;
}

/// The code of the magnitude `m * 2^t` units of binary32.
fn encode_magnitude(m: u64, t: u32) -> (c: u8)
    requires
        m < 0x100_0000,
        t > 0 ==> m >= 0x80_0000,
    ensures
        c == code_of(m as nat * pow2(t as nat)),
        is_code(c as nat, m as nat * pow2(t as nat)),
{
    let ghost units = m as nat * pow2(t as nat);
    let c: u8;
    if t > 134 {
        proof {
            lemma2_to64();
            arith::lemma_pow2_order_le(135, t as nat);
            lemma_pow2_adds(23, 135);
            lemma_pow2_adds(18, 140);
            assert(units >= 0x80_0000 * pow2(135)) by (nonlinear_arith)
                requires
                    units == m as nat * pow2(t as nat),
                    m >= 0x80_0000,
                    pow2(t as nat) >= pow2(135),
            ;
            lemma_clamped(units);
        }
        c = LARGEST;
    } else if t < 117 {
        proof {
            lemma_flushed(m as nat, t as nat);
        }
        c = 0;
    } else if t < 120 {
        let h: u64 = if t == 117 {
            0x40_0000
        } else if t == 118 {
            0x20_0000
        } else {
            0x10_0000
        };
        let x: u64 = (m + h) / (2 * h);
        proof {
            lemma2_to64();
            assert(h == pow2((139 - t) as nat));
            lemma_pow2_unfold((140 - t) as nat);
            lemma_quotient((m + h) as nat, 2 * h as nat, x as nat);
            lemma_subnormal(m as nat, t as nat, x as nat);
        }
        c = x as u8;
    } else {
        let d: u32 = t - 120;
        let x: u64 = (m + 0x8_0000) / 0x10_0000;
        proof {
            lemma_normal(m as nat, t as nat, x as nat, d as nat);
        }
        let wide: u32 = 8 * d + x as u32;
        c = if wide < LARGEST as u32 {
            wide as u8
        } else {
            LARGEST
        };
    }
    proof {
        lemma_code_of(c as nat, units);
    }
    c
}

proof fn lemma_quotient(a: nat, b: nat, q: nat)
    requires
        b > 0,
        q == a / b,
    ensures
        q * b <= a < (q + 1) * b,
{
    lemma_fundamental_div_mod(a as int, b as int);
    lemma_mod_bound(a as int, b as int);
    assert(b * q == q * b && (q + 1) * b == q * b + b) by (nonlinear_arith);
}

/// Encode a binary32 number as FP8 E4M3.
///
/// Handles zeros, subnormals, normals, NaN, and infinity (mapped to NaN since
/// E4M3 has no infinity representation). Values exceeding the representable
/// range are clamped to 448 of their sign.
pub fn encode_fp8(val: Binary32) -> (r: u8)
    ensures
        r == encoded(val),
        code(r) == (if val.finite() {
            code_of(val.units())
        } else {
            NAN as nat
        }),
        r >= SIGN <==> val.parts().neg,
        val.finite() ==> is_code(code(r), val.units()),
{
    let p: Parts = val.to_parts();
    let c: u8;
    if p.code >= 0x7F80_0000 {
        c = NAN;
    } else {
        let (m, t) = split(Format::Single, p.code);
        proof {
            round::lemma_format_powers(Format::Single);
        }
        c = encode_magnitude(m, t);
    }
    if p.neg {
        c + SIGN
    } else {
        c
    }
}

/// Every byte but the two NaNs is a number that binary32 holds exactly.
pub proof fn law_fp8_decoding_is_exact(byte: u8)
    requires
        code(byte) != NAN,
    ensures
        decoded(byte).finite(),
        decoded(byte).units() == steps(code(byte)) * step(),
        decoded(byte).parts().neg <==> byte >= SIGN,
{
    let c = code(byte);
    let d: nat = if c < 8 {
        0
    } else {
        (c / 8 - 1) as nat
    };
    let x = (c - 8 * d) as nat;
    lemma_steps(x, d);
    lemma_pow2_adds(d, 140);
    let g = pow2(d);
    assert((x * g) * step() == x * (g * step())) by (nonlinear_arith);
    lemma2_to64();
    let exact = laws::lemma_representable(Format::Single, x, d + 140);
    formats::lemma_nearest_exact(Format::Single, exact, 1);
    assert(Format::Single.units(exact) * 1 == Format::Single.units(exact));
    decoded(byte).lemma_parts(Parts { neg: byte >= SIGN, code: exact as u64 });
}

/// Decode an FP8 E4M3 byte to binary32, which holds every E4M3 number exactly.
pub fn decode_fp8(byte: u8) -> (r: Binary32)
    ensures
        r == decoded(byte),
        r.nan() <==> code(byte) == NAN,
        code(byte) != NAN ==> {
            &&& r.finite()
            &&& r.units() == steps(code(byte)) * step()
            &&& r.parts().neg <==> byte >= SIGN
        },
{
    let neg: bool = byte >= SIGN;
    let c: u8 = byte % SIGN;
    if c == NAN {
        return Binary32 { bits: 0x7FC0_0000 };
    }
    let e: u8 = c / 8;
    let d: u8 = if e == 0 {
        0
    } else {
        e - 1
    };
    let x: u8 = c - 8 * d;
    let ghost units = steps(c as nat) * step();
    proof {
        lemma_steps(x as nat, d as nat);
        lemma_pow2_adds(d as nat, 140);
        let g = pow2(d as nat);
        let q = pow2(d as nat + 140);
        lemma_pow2_pos(d as nat + 140);
        assert((x as nat * g) * step() == x as nat * (g * step())) by (nonlinear_arith);
        assert((x + 1) * q > x as nat * q) by (nonlinear_arith)
            requires
                q > 0,
        ;
        lemma2_to64();
        assert(units * 1 == units && q * 1 == q);
        arith::lemma_pow2_order_le(64, 127);
        lemma2_to64_rest();
    }
    let code: u64 = round::round(
        Format::Single,
        x as u128,
        d as i32 + 140,
        false,
        Ghost(units),
        Ghost(1),
    );
    proof {
        law_fp8_decoding_is_exact(byte);
    }
    Binary32::from_parts(Parts { neg, code })
}

fn encode_chunk(chunk: &[Binary32]) -> (r: Vec<u8>)
    ensures
        r@ == chunk@.map_values(|v: Binary32| encoded(v)),
{
    let mut out: Vec<u8> = Vec::with_capacity(chunk.len());
    for i in 0..chunk.len()
        invariant
            out@ =~= chunk@.take(i as int).map_values(|v: Binary32| encoded(v)),
    {
        out.push(encode_fp8(chunk[i]));
    }
    assert(chunk@.take(chunk@.len() as int) =~= chunk@);
    out
}

fn decode_chunk(chunk: &[u8]) -> (r: Vec<Binary32>)
    ensures
        r@ == chunk@.map_values(|b: u8| decoded(b)),
{
    let mut out: Vec<Binary32> = Vec::with_capacity(chunk.len());
    for i in 0..chunk.len()
        invariant
            out@ =~= chunk@.take(i as int).map_values(|b: u8| decoded(b)),
    {
        out.push(decode_fp8(chunk[i]));
    }
    assert(chunk@.take(chunk@.len() as int) =~= chunk@);
    out
}

/// Quantize binary32 numbers to FP8 E4M3, in parallel across chunks.
pub fn quantize_fp8(data: &[Binary32]) -> (r: Vec<u8>)
    ensures
        r@ == data@.map_values(|v: Binary32| encoded(v)),
        r@.len() == data@.len(),
{
    let r: Vec<u8> = flat_map_chunks(data, CHUNK, encode_chunk);
    proof {
        parallel::lemma_flat_map(data@, CHUNK as nat, encode_chunk, r@, |v: Binary32| encoded(v));
    }
    r
}

/// Dequantize FP8 E4M3 back to binary32.
pub fn dequantize_fp8(data: &[u8]) -> (r: Vec<Binary32>)
    ensures
        r@ == data@.map_values(|b: u8| decoded(b)),
        r@.len() == data@.len(),
{
    let r: Vec<Binary32> = flat_map_chunks(data, CHUNK, decode_chunk);
    proof {
        parallel::lemma_flat_map(data@, CHUNK as nat, decode_chunk, r@, |b: u8| decoded(b));
    }
    r
}

/// The code to take, among those up to `c`.
proof fn lemma_find_code(units: nat, c: nat) -> (r: nat)
    requires
        units >= step(),
        0 < c <= LARGEST,
        c < LARGEST ==> 2 * units < (steps(c) + steps(c + 1)) * step(),
    ensures
        is_code(r, units),
    decreases c,
{
    if (steps((c - 1) as nat) + steps(c)) * step() <= 2 * units {
        c
    } else {
        lemma_steps(0, 0);
        if c == 1 {
            assert((steps(0) + steps(1)) * step() == step()) by (nonlinear_arith)
                requires
                    steps(0) == 0,
                    steps(1) == 1,
            ;
        }
        lemma_find_code(units, (c - 1) as nat)
    }
}

/// Every magnitude has one code.
pub proof fn law_fp8_code_is_unique(units: nat, c: nat)
    ensures
        is_code(code_of(units), units),
        is_code(c, units) ==> c == code_of(units),
{
    if units < step() {
        assert(is_code(0, units));
    } else {
        let r = lemma_find_code(units, LARGEST as nat);
    }
    if is_code(c, units) {
        lemma_code_of(c, units);
    }
}

/// Encoding what decoding gave returns the same byte, NaN aside.
pub proof fn law_fp8_round_trip(byte: u8)
    requires
        code(byte) != NAN,
    ensures
        encoded(decoded(byte)) == byte,
{
    let c = code(byte);
    let u = steps(c) * step();
    law_fp8_decoding_is_exact(byte);
    lemma_pow2_pos(140);
    lemma_steps(0, 0);
    if c == 0 {
        assert(0 * step() == 0);
    } else {
        lemma_steps_increasing((c - 1) as nat, c);
        lemma_steps_increasing(c, c + 1);
        lemma_steps_increasing(0, c);
        let a = steps((c - 1) as nat);
        let b = steps(c);
        let n = steps(c + 1);
        assert(b * step() >= step() && (a + b) * step() <= 2 * (b * step()) < (b + n) * step())
            by (nonlinear_arith)
            requires
                a < b < n,
                b >= 1,
                step() > 0,
        ;
    }
    assert(is_code(c, u));
    lemma_code_of(c, u);
}

/// NaN and the infinities, and nothing else, become NaN; and NaN alone decodes
/// to NaN.
pub proof fn law_fp8_nan(v: Binary32, byte: u8)
    ensures
        code(encoded(v)) == NAN <==> !v.finite(),
        decoded(byte).nan() <==> code(byte) == NAN,
{
    law_fp8_code_is_unique(v.units(), 0);
    if code(byte) != NAN {
        law_fp8_decoding_is_exact(byte);
    }
}

/// The sign survives encoding, of every number and of NaN; and it survives
/// the round trip of every finite number, zero included.
pub proof fn law_fp8_sign(v: Binary32)
    ensures
        encoded(v) >= SIGN <==> v.parts().neg,
        v.finite() ==> (decoded(encoded(v)).parts().neg <==> v.parts().neg),
{
    law_fp8_code_is_unique(v.units(), 0);
    if v.finite() {
        law_fp8_decoding_is_exact(encoded(v));
    }
}

/// Of two magnitudes, the larger never gets the smaller code.
pub proof fn law_fp8_monotone(v: Binary32, w: Binary32)
    requires
        v.finite(),
        w.finite(),
        v.units() <= w.units(),
    ensures
        code(encoded(v)) <= code(encoded(w)),
{
    law_fp8_code_is_unique(v.units(), 0);
    law_fp8_code_is_unique(w.units(), 0);
    lemma_code_order(code_of(v.units()), code_of(w.units()), v.units(), w.units());
}

/// Whatever is smaller than `2^-9`, which is one step, becomes zero.
pub proof fn law_fp8_flushes(v: Binary32)
    requires
        v.finite(),
        v.units() < step(),
    ensures
        code(encoded(v)) == 0,
        decoded(encoded(v)).units() == 0,
{
    law_fp8_code_is_unique(v.units(), 0);
    law_fp8_decoding_is_exact(encoded(v));
    lemma_steps(0, 0);
    assert(0 * step() == 0);
}

/// 448, which is 229376 steps, and everything finite beyond it become 448.
pub proof fn law_fp8_clamps(v: Binary32)
    requires
        v.finite(),
        v.units() >= 229376 * step(),
    ensures
        code(encoded(v)) == LARGEST,
        decoded(encoded(v)).units() == 229376 * step(),
{
    lemma2_to64();
    lemma_pow2_pos(140);
    lemma_steps(13, 14);
    lemma_steps(14, 14);
    assert((13 * pow2(14) + 14 * pow2(14)) * step() <= 2 * v.units()) by (nonlinear_arith)
        requires
            pow2(14) == 0x4000,
            v.units() >= 229376 * step(),
            step() > 0,
    ;
    assert(is_code(LARGEST as nat, v.units()));
    law_fp8_code_is_unique(v.units(), LARGEST as nat);
    law_fp8_decoding_is_exact(encoded(v));
}

/// Nothing decodes to a magnitude beyond 448, which is 229376 steps.
pub proof fn law_fp8_bounded(byte: u8)
    requires
        code(byte) != NAN,
    ensures
        decoded(byte).units() <= 229376 * step(),
{
    lemma2_to64();
    law_fp8_decoding_is_exact(byte);
    lemma_steps(14, 14);
    if code(byte) < LARGEST {
        lemma_steps_increasing(code(byte), LARGEST as nat);
    }
    lemma_mul_inequality(steps(code(byte)) as int, 229376, step() as int);
}

/// A round trip changes a magnitude from `2^-6`, which is 8 steps, to 448, which
/// is 229376 steps, by at most one part in 16.
pub proof fn law_fp8_error(v: Binary32)
    requires
        v.finite(),
        8 * step() <= v.units() <= 229376 * step(),
    ensures
        16 * arith::magnitude(decoded(encoded(v)).units() - v.units()) <= v.units(),
{
    let u = v.units();
    let c = code_of(u);
    law_fp8_code_is_unique(u, c);
    law_fp8_decoding_is_exact(encoded(v));
    lemma_fp8_error(c, u);
}

proof fn lemma_fp8_error(c: nat, u: nat)
    requires
        is_code(c, u),
        8 * step() <= u <= 229376 * step(),
    ensures
        16 * arith::magnitude(steps(c) * step() - u) <= u,
{
    let s = step();
    let b = steps(c);
    let n = steps(c + 1);
    lemma_pow2_pos(140);
    lemma_steps(7, 0);
    lemma_steps_increasing(c, c + 1);
    if c < 8 {
        if c < 7 {
            lemma_steps_increasing(c + 1, 8);
        }
        assert((b + n) * s <= 16 * s) by (nonlinear_arith)
            requires
                b < n <= 8,
        ;
    }
    if u >= b * s {
        assert((b + n) * s == b * s + n * s && (n - b) * s == n * s - b * s) by (nonlinear_arith);
        if c == LARGEST {
            lemma_steps(14, 14);
            lemma2_to64();
            assert(b == 229376);
            assert(b * s == 229376 * s);
        }
        lemma_fp8_step(c, u, (u - b * s) as nat);
    } else {
        assert(c != 8);
        let below = (c - 1) as nat;
        let a = steps(below);
        lemma_steps_increasing(below, c);
        assert((a + b) * s == a * s + b * s && (b - a) * s == b * s - a * s) by (nonlinear_arith);
        assert(a * s <= b * s) by (nonlinear_arith)
            requires
                a < b,
        ;
        lemma_fp8_step(below, u, (b * s - u) as nat);
    }
}

/// Half a spacing at a normal code, against a magnitude no smaller than it.
proof fn lemma_fp8_step(c: nat, u: nat, error: nat)
    requires
        c >= 8,
        u >= steps(c) * step(),
        c >= LARGEST ==> error == 0,
        c < LARGEST ==> 2 * error <= (steps(c + 1) - steps(c)) * step(),
    ensures
        16 * error <= u,
{
    lemma2_to64();
    formats::lemma_grid_split(c, 3);
    formats::lemma_next_code(c, 3);
    let m = formats::significand(c, 3);
    let g = pow2(formats::grid(c, 3));
    lemma_pow2_pos(140);
    assert(0 * 8 == 0);
    if c < LARGEST {
        assert(16 * error <= u) by (nonlinear_arith)
            requires
                2 * error <= g * step(),
                u >= (m * g) * step(),
                m >= 8,
                g > 0,
        {
            assert(8 * (g * step()) <= m * (g * step()));
            assert(m * (g * step()) == (m * g) * step());
        }
    }
}

/// A round trip changes a magnitude from one step to `2^-6`, which is 8 steps, by
/// at most half a step, and one below a step by less than a step.
pub proof fn law_fp8_small_error(v: Binary32)
    requires
        v.finite(),
        v.units() < 8 * step(),
    ensures
        v.units() >= step() ==> 2 * arith::magnitude(decoded(encoded(v)).units() - v.units())
            <= step(),
        v.units() < step() ==> arith::magnitude(decoded(encoded(v)).units() - v.units()) < step(),
{
    let u = v.units();
    let c = code_of(u);
    lemma_pow2_pos(140);
    law_fp8_code_is_unique(u, c);
    law_fp8_decoding_is_exact(encoded(v));
    lemma_steps(0, 0);
    assert(0 * step() == 0);
    if u >= step() {
        if c > 8 {
            // The midpoint below lies beyond 8 steps.
            lemma_steps(8, 0);
            lemma_steps_increasing(8, c);
            if c > 9 {
                lemma_steps_increasing(8, (c - 1) as nat);
            }
            let a = steps((c - 1) as nat) + steps(c);
            assert(a * step() >= 16 * step()) by (nonlinear_arith)
                requires
                    a >= 16,
            ;
        }
        lemma_steps((c - 1) as nat, 0);
        lemma_steps(c, 0);
        assert((c - 1 + c) * step() == 2 * (c * step()) - step() && (c + c + 1) * step() == 2 * (c
            * step()) + step()) by (nonlinear_arith);
    }
}

/// From one step on, no magnitude of the format is closer than the encoded one,
/// and of two at the same distance the larger one is taken.
pub proof fn law_fp8_closest(v: Binary32, other: u8)
    requires
        v.finite(),
        v.units() >= step(),
        code(other) != NAN,
    ensures
        ({
            let error = arith::magnitude(decoded(encoded(v)).units() - v.units());
            let other_error = arith::magnitude(decoded(other).units() - v.units());
            &&& error <= other_error
            &&& error == other_error ==> code(other) <= code(encoded(v))
        }),
{
    let u = v.units();
    let c = code_of(u);
    let o = code(other);
    law_fp8_code_is_unique(u, c);
    law_fp8_decoding_is_exact(encoded(v));
    law_fp8_decoding_is_exact(other);
    lemma_pow2_pos(140);
    let s = step();
    let b = steps(c);
    let x = steps(o);
    if o < c {
        let a = steps((c - 1) as nat);
        lemma_steps_increasing(o, c);
        if o < c - 1 {
            lemma_steps_increasing(o, (c - 1) as nat);
        }
        assert((a + b) * s == a * s + b * s) by (nonlinear_arith);
        assert(x * s <= a * s && x * s < b * s) by (nonlinear_arith)
            requires
                x <= a,
                x < b,
                s > 0,
        ;
    } else if o > c {
        let n = steps(c + 1);
        lemma_steps_increasing(c, o);
        if o > c + 1 {
            lemma_steps_increasing(c + 1, o);
        }
        assert((b + n) * s == b * s + n * s) by (nonlinear_arith);
        assert(x * s >= n * s && x * s > b * s) by (nonlinear_arith)
            requires
                x >= n,
                x > b,
                s > 0,
        ;
    }
}

/// The bits of a byte: the highest one is the sign, the next four are an exponent
/// `e` and the last three a mantissa `m`. With an exponent of 0 the magnitude is
/// `m` times `2^-9`, and otherwise `8 + m` times `2^(e - 10)`. All seven bits
/// together are NaN.
pub proof fn law_fp8_bits(byte: u8)
    ensures
        ({
            let e = ((byte % 128) / 8) as nat;
            let m = (byte % 8) as nat;
            let v = decoded(byte);
            &&& v.nan() <==> e == 15 && m == 7
            &&& !v.nan() ==> v.finite() && (v.parts().neg <==> byte >= 128)
            &&& e == 0 ==> v.units() == m * pow2(140)
            &&& e > 0 && !v.nan() ==> v.units() == (8 + m) * pow2((139 + e) as nat)
        }),
{
    let c = code(byte);
    let e = ((byte % 128) / 8) as nat;
    let m = (byte % 8) as nat;
    assert(c == 8 * e + m);
    if c != NAN {
        law_fp8_decoding_is_exact(byte);
        if e == 0 {
            lemma_steps(m, 0);
        } else {
            let d = (e - 1) as nat;
            lemma_steps(8 + m, d);
            lemma_pow2_adds(d, 140);
            assert(((8 + m) * pow2(d)) * step() == (8 + m) * (pow2(d) * step())) by (nonlinear_arith);
        }
    }
}

/// Encoding what came back of a number gives the byte of the number again, but
/// for the sign of NaN.
pub proof fn law_fp8_idempotent(v: Binary32)
    ensures
        encoded(decoded(encoded(v))) % 128 == encoded(v) % 128,
        v.finite() ==> encoded(decoded(encoded(v))) == encoded(v),
{
    law_fp8_nan(v, encoded(v));
    if v.finite() {
        law_fp8_round_trip(encoded(v));
    } else {
        law_fp8_nan(decoded(encoded(v)), encoded(v));
    }
}

} // verus!
