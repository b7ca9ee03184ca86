//! What the commands read, compute and show.

use crate::eviction;
use crate::float::arith;
use crate::float::arith::{split, Parts};
use crate::float::big;
use crate::float::bits::shift_left;
use crate::float::formats;
use crate::float::formats::Format;
use crate::float::laws;
use crate::float::round;
use crate::float::{Binary32, Binary64};
use crate::quantize::method::QuantMethod;
use crate::simulator;
use crate::simulator::{shrink, ModelConfig, SimulationResult};
use crate::text;
use crate::text::{append_decimal, digit_str, same_text, to_lowercase};
use vstd::arithmetic::div_mod::*;
use vstd::arithmetic::mul::*;
use vstd::arithmetic::power2::*;
use vstd::prelude::*;
use vstd::string::*;

verus! {

/// The method that a name in lower case stands for.
pub open spec fn method_named(name: Seq<char>) -> Option<QuantMethod> {
    if name == "fp16"@ {
        Some(QuantMethod::FP16)
    } else if name == "fp8"@ || name == "fp8e4m3"@ || name == "e4m3"@ {
        Some(QuantMethod::FP8E4M3)
    } else if name == "int4"@ || name == "i4"@ {
        Some(QuantMethod::INT4)
    } else {
        None
    }
}

/// Whether `r` is the method of a name in lower case, or says that there is none.
pub open spec fn names_method(name: Seq<char>, r: Result<QuantMethod, String>) -> bool {
    match method_named(name) {
        Some(m) => r == Ok::<QuantMethod, String>(m),
        None => r matches Err(e) && e@ == "Unknown method '"@ + name
            + "'. Use: fp16, fp8, int4"@,
    }
}

/// The method of a name in lower case.
pub fn parse_lowercase_method(name: &str) -> (r: Result<QuantMethod, String>)
    ensures
        names_method(name@, r),
{
    if same_text(name, "fp16") {
        Ok(QuantMethod::FP16)
    } else if same_text(name, "fp8") || same_text(name, "fp8e4m3") || same_text(name, "e4m3") {
        Ok(QuantMethod::FP8E4M3)
    } else if same_text(name, "int4") || same_text(name, "i4") {
        Ok(QuantMethod::INT4)
    } else {
        let mut e: String = "Unknown method '".to_string();
        e.append(name);
        e.append("'. Use: fp16, fp8, int4");
        Err(e)
    }
}

/// The method of a name, in whatever case.
pub fn parse_method(s: &str) -> (r: Result<QuantMethod, String>)
    ensures
        names_method(text::lowercase(s@), r),
        text::is_plain_text(s@) ==> names_method(text::lowered(s@), r),
{
    let low: String = to_lowercase(s);
    parse_lowercase_method(low.as_str())
}

/// Whether a model is the preset of a name in lower case.
pub open spec fn is_preset(name: Seq<char>, m: ModelConfig) -> bool {
    ||| name == "7b"@ && m.name@ == "7B (32-layer, 32-head, dim 128)"@ && m.num_layers == 32
        && m.num_kv_heads == 32 && m.head_dim == 128
    ||| name == "13b"@ && m.name@ == "13B (40-layer, 40-head, dim 128)"@ && m.num_layers == 40
        && m.num_kv_heads == 40 && m.head_dim == 128
    ||| name == "70b"@ && m.name@ == "70B (80-layer, 8 KV-head, dim 128)"@ && m.num_layers == 80
        && m.num_kv_heads == 8 && m.head_dim == 128
}

/// Whether `r` is the preset of a name in lower case, or says that there is none.
pub open spec fn names_model(name: Seq<char>, r: Result<ModelConfig, String>) -> bool {
    if name == "7b"@ || name == "13b"@ || name == "70b"@ {
        r matches Ok(m) && is_preset(name, m)
    } else {
        r matches Err(e) && e@ == "Unknown model '"@ + name + "'. Use: 7b, 13b, 70b"@
    }
}

/// The preset of a name in lower case.
pub fn parse_lowercase_model(name: &str) -> (r: Result<ModelConfig, String>)
    ensures
        names_model(name@, r),
{
    if same_text(name, "7b") {
        Ok(ModelConfig::preset_7b())
    } else if same_text(name, "13b") {
        Ok(ModelConfig::preset_13b())
    } else if same_text(name, "70b") {
        Ok(ModelConfig::preset_70b())
    } else {
        let mut e: String = "Unknown model '".to_string();
        e.append(name);
        e.append("'. Use: 7b, 13b, 70b");
        Err(e)
    }
}

/// The preset of a name, in whatever case.
pub fn parse_model(s: &str) -> (r: Result<ModelConfig, String>)
    ensures
        names_model(text::lowercase(s@), r),
        text::is_plain_text(s@) ==> names_model(text::lowered(s@), r),
{
    let low: String = to_lowercase(s);
    parse_lowercase_model(low.as_str())
}

/// The next state of a xorshift generator of 64 bits.
pub open spec fn xorshift(state: u64) -> u64 {
    let a = state ^ (state << 13);
    let b = a ^ (a >> 7);
    b ^ (b << 17)
}

/// The state after `n` steps.
pub open spec fn state_after(n: nat) -> u64
    decreases n,
{
    if n == 0 {
        0xDEAD_BEEF_CAFE_BABE
    } else {
        xorshift(state_after((n - 1) as nat))
    }
}

/// A state mapped to the range from -2 to 2.
pub open spec fn kv_value(state: u64) -> Binary32 {
    Binary32::of_integer(state as nat).quotient(Binary32::of_integer(u64::MAX as nat)).product(
        Binary32::of_integer(4),
    ).difference(Binary32::of_integer(2))
}

/// The generated data.
pub open spec fn kv_data(n: nat) -> Seq<Binary32> {
    Seq::new(n, |i: int| kv_value(state_after((i + 1) as nat)))
}

/// Generate deterministic pseudo-random data simulating KV cache values, in the
/// range from -2 to 2.
pub fn generate_kv_data(num_elements: usize) -> (r: Vec<Binary32>)
    ensures
        r@ == kv_data(num_elements as nat),
{
    let mut data: Vec<Binary32> = Vec::new();
    let mut state: u64 = 0xDEAD_BEEF_CAFE_BABE;
    let max: Binary32 = Binary32::from_unsigned(u64::MAX);
    let four: Binary32 = Binary32::from_unsigned(4);
    let two: Binary32 = Binary32::from_unsigned(2);
    for i in 0..num_elements
        invariant
            max == Binary32::of_integer(u64::MAX as nat),
            four == Binary32::of_integer(4),
            two == Binary32::of_integer(2),
            state == state_after(i as nat),
            data@ =~= kv_data(i as nat),
    {
        state = state ^ (state << 13);
        state = state ^ (state >> 7);
        state = state ^ (state << 17);
        assert(state == state_after((i + 1) as nat));
        data.push(Binary32::from_unsigned(state).over(max).times(four).minus(two));
    }
    data
}

/// Every generated value lies in the range from -2 to 2.
pub proof fn law_kv_values_are_bounded(state: u64)
    ensures
        kv_value(state).finite(),
        kv_value(state).units() <= 2 * pow2(149),
{
    let f = Format::Single;
    let one = pow2(149);
    lemma2_to64();
    lemma2_to64_rest();
    round::lemma_format_powers(f);
    round::lemma_units_zero(f);
    lemma_pow2_pos(149);
    lemma_pow2_unfold(64);
    lemma_pow2_adds(64, 149);
    let c64 = laws::lemma_representable(f, 1, 213);
    let c1 = laws::lemma_representable(f, 1, 149);
    let c2 = laws::lemma_representable(f, 2, 149);
    let c4 = laws::lemma_representable(f, 4, 149);
    assert(1 * one == one && 1 * pow2(213) == pow2(213));
    // The two integers.
    let s = state as nat;
    let m = u64::MAX as nat;
    let a = Binary32::of_integer(s);
    let b = Binary32::of_integer(m);
    assert(s * one <= m * one && m * one <= pow2(64) * one && one <= m * one) by (nonlinear_arith)
        requires
            s <= m,
            1 <= m <= pow2(64),
            one > 0,
    ;
    assert(f.units(c64) * 1 == f.units(c64));
    laws::lemma_bounded(f, s * one, 1, c64);
    laws::lemma_bounded(f, m * one, 1, c64);
    laws::law_nearest_monotone(f, s * one, m * one, 1);
    laws::law_nearest_monotone(f, one, m * one, 1);
    formats::lemma_nearest_exact(f, c1, 1);
    assert(f.units(c1) * 1 == f.units(c1));
    a.lemma_parts(arith::from_integer(f, s));
    b.lemma_parts(arith::from_integer(f, m));
    let ua = a.units();
    let ub = b.units();
    assert(c1 > 0);
    formats::lemma_units_increasing(f, 0, b.parts().code as nat);
    if a.parts().code < b.parts().code {
        formats::lemma_units_increasing(f, a.parts().code as nat, b.parts().code as nat);
    }
    // Their quotient is at most 1.
    assert(ua * one <= one * ub) by (nonlinear_arith)
        requires
            ua <= ub,
    ;
    laws::lemma_bounded(f, ua * one, ub, c1);
    let q = a.quotient(b);
    let pq = arith::quotient(f, a.parts(), b.parts());
    q.lemma_parts(pq);
    assert(q.finite() && !q.parts().neg && q.units() <= one);
    // Four times that is at most 4.
    let four = Binary32::of_integer(4);
    formats::lemma_nearest_exact(f, c4, 1);
    assert(f.units(c4) * 1 == f.units(c4));
    four.lemma_parts(arith::from_integer(f, 4));
    let uq = q.units();
    assert(uq * (4 * one) <= (4 * one) * one) by (nonlinear_arith)
        requires
            uq <= one,
    ;
    laws::lemma_bounded(f, uq * (4 * one), one, c4);
    let p = q.product(four);
    let pp = arith::product(f, q.parts(), four.parts());
    p.lemma_parts(pp);
    assert(p.finite() && !p.parts().neg && p.units() <= 4 * one);
    // Less 2, it is between -2 and 2.
    let two = Binary32::of_integer(2);
    formats::lemma_nearest_exact(f, c2, 1);
    assert(f.units(c2) * 1 == f.units(c2));
    two.lemma_parts(arith::from_integer(f, 2));
    let v = p.units() - 2 * one;
    assert(f.units(c2) == 2 * one);
    laws::lemma_bounded(f, arith::magnitude(v), 1, c2);
    let pd = arith::sum(f, p.parts(), Parts { neg: true, ..two.parts() });
    p.difference(two).lemma_parts(pd);
}

/// The generator starts from its seed, whatever is generated, and takes one step
/// for each number, so that less data is the beginning of more. A step is linear
/// over the bits.
pub proof fn law_generator(n: nat, more: nat, a: u64, b: u64)
    requires
        n <= more,
    ensures
        state_after(0) == 0xDEAD_BEEF_CAFE_BABEu64,
        state_after(n + 1) == xorshift(state_after(n)),
        kv_data(n).len() == n,
        kv_data(more).take(n as int) == kv_data(n),
        n > 0 ==> kv_data(n)[n - 1] == kv_value(state_after(n)),
        xorshift(a ^ b) == xorshift(a) ^ xorshift(b),
{
    assert(kv_data(more).take(n as int) =~= kv_data(n));
    assert(xorshift(a ^ b) == xorshift(a) ^ xorshift(b)) by (bit_vector);
}

/// Rounding to binary32 costs one part in `2^24`, from `2^23` units on.
proof fn lemma_single_error(code: nat, num: nat, den: nat)
    requires
        den > 0,
        Format::Single.is_nearest(code, num, den),
        code < Format::Single.infinity(),
        num >= 0x80_0000 * den,
    ensures
        0x100_0000 * arith::magnitude(Format::Single.units(code) * den - num) <= num,
{
    lemma2_to64();
    formats::lemma_grid_join(pow2(23), 0, 23);
    lemma_pow2_unfold(24);
    assert(0 * pow2(23) == 0 && pow2(23) * 1 == pow2(23));
    laws::law_relative_error(Format::Single, num, den, code);
}

/// An integer up to `2^64` as a binary32 number.
proof fn lemma_single_integer(s: nat)
    requires
        s <= u64::MAX,
    ensures
        Binary32::of_integer(s).finite(),
        !Binary32::of_integer(s).parts().neg,
        0x100_0000 * arith::magnitude(Binary32::of_integer(s).units() - s * pow2(149)) <= s * pow2(
            149,
        ),
{
    let f = Format::Single;
    let one = pow2(149);
    let a = Binary32::of_integer(s);
    lemma2_to64();
    lemma2_to64_rest();
    lemma_pow2_unfold(64);
    lemma_pow2_adds(64, 149);
    lemma_pow2_pos(149);
    round::lemma_format_powers(f);
    round::lemma_units_zero(f);
    let top = laws::lemma_representable(f, 1, 213);
    assert(1 * pow2(213) == pow2(213) && f.units(top) * 1 == f.units(top));
    assert(s * one <= pow2(64) * one) by (nonlinear_arith)
        requires
            s <= pow2(64),
    ;
    laws::lemma_bounded(f, s * one, 1, top);
    laws::law_nearest_exists(f, s * one, 1);
    a.lemma_parts(arith::from_integer(f, s));
    assert(a.units() * 1 == a.units());
    if s > 0 {
        arith::lemma_pow2_order_le(24, 149);
        assert(s * one >= 0x80_0000 * 1) by (nonlinear_arith)
            requires
                s > 0,
                one >= 0x80_0000,
        ;
        lemma_single_error(a.parts().code as nat, s * one, 1);
    } else {
        assert(0 * one == 0 && 0 * 1 == 0);
        formats::lemma_nearest_exact(f, 0, 1);
    }
}

/// A small whole number as a binary32 number.
proof fn lemma_small_single(n: nat)
    requires
        n <= 8,
    ensures
        Binary32::of_integer(n).finite(),
        !Binary32::of_integer(n).parts().neg,
        Binary32::of_integer(n).units() == n * pow2(149),
{
    let f = Format::Single;
    lemma2_to64();
    round::lemma_format_powers(f);
    let c = laws::lemma_representable(f, n, 149);
    formats::lemma_nearest_exact(f, c, 1);
    assert(f.units(c) * 1 == f.units(c));
    Binary32::of_integer(n).lemma_parts(arith::from_integer(f, n));
}

/// The quotient of two integers, of which the second is the larger.
proof fn lemma_kv_quotient(s: nat)
    requires
        s <= u64::MAX,
    ensures
        ({
            let a = Binary32::of_integer(s);
            let b = Binary32::of_integer(u64::MAX as nat);
            let q = a.quotient(b);
            &&& q.finite()
            &&& !q.parts().neg
            &&& q.units() <= pow2(149)
            &&& q.units() == 0 || q.units() >= 0x100_0000
            &&& 0x100_0000 * arith::magnitude(q.units() * b.units() - a.units() * pow2(149))
                <= a.units() * pow2(149)
        }),
{
    let f = Format::Single;
    let one = pow2(149);
    let m = u64::MAX as nat;
    let a = Binary32::of_integer(s);
    let b = Binary32::of_integer(m);
    let q = a.quotient(b);
    let ua = a.units();
    let ub = b.units();
    lemma2_to64();
    lemma2_to64_rest();
    lemma_pow2_unfold(64);
    lemma_pow2_pos(149);
    round::lemma_format_powers(f);
    round::lemma_units_zero(f);
    lemma_single_integer(s);
    lemma_single_integer(m);
    let c1 = laws::lemma_representable(f, 1, 149);
    let low = laws::lemma_representable(f, 1, 24);
    assert(1 * one == one && 1 * pow2(24) == pow2(24));
    // The larger of the two.
    laws::law_nearest_exists(f, s * one, 1);
    laws::law_nearest_exists(f, m * one, 1);
    a.lemma_parts(arith::from_integer(f, s));
    b.lemma_parts(arith::from_integer(f, m));
    assert(s * one <= m * one) by (nonlinear_arith)
        requires
            s <= m,
    ;
    laws::law_nearest_monotone(f, s * one, m * one, 1);
    if a.parts().code < b.parts().code {
        formats::lemma_units_increasing(f, a.parts().code as nat, b.parts().code as nat);
    }
    let mo = m * one;
    let so = s * one;
    assert(mo == 0xFFFF_FFFF_FFFF_FFFF * one && ub > 0 && ub <= 0x2_0000_0000_0000_0000 * one && (s
        == 0 || 2 * ua >= one) && (s == 0 ==> ua == 0)) by (nonlinear_arith)
        requires
            m == 0xFFFF_FFFF_FFFF_FFFF,
            mo == m * one,
            so == s * one,
            one > 0,
            -mo <= 0x100_0000 * (ub - mo) <= mo,
            -so <= 0x100_0000 * (ua - so) <= so,
    ;
    laws::law_nearest_exists(f, ua * one, ub);
    q.lemma_parts(arith::quotient(f, a.parts(), b.parts()));
    assert(b.parts().code != 0);
    assert(ua * one <= one * ub) by (nonlinear_arith)
        requires
            ua <= ub,
    ;
    laws::lemma_bounded(f, ua * one, ub, c1);
    let code = q.parts().code as nat;
    if s > 0 {
        lemma_pow2_adds(83, 66);
        lemma_pow2_adds(64, 2);
        arith::lemma_pow2_order_le(24, 83);
        assert(ua * one >= 0x100_0000 * ub) by (nonlinear_arith)
            requires
                2 * ua >= one,
                ub <= 0x2_0000_0000_0000_0000 * one,
                one == pow2(83) * 0x4_0000_0000_0000_0000,
                pow2(83) >= 0x100_0000,
        ;
        laws::law_nearest_monotone(f, pow2(24) * ub, ua * one, ub);
        formats::lemma_nearest_exact(f, low, ub);
        if low < code {
            formats::lemma_units_increasing(f, low, code);
        }
        lemma_single_error(code, ua * one, ub);
    } else {
        assert(ua * one == 0) by (nonlinear_arith)
            requires
                ua == 0,
        ;
        formats::lemma_nearest_exact(f, 0, ub);
        assert(0 * ub == 0);
    }
}

/// Four times a number up to 1.
proof fn lemma_kv_product(q: Binary32)
    requires
        q.finite(),
        !q.parts().neg,
        q.units() <= pow2(149),
        q.units() == 0 || q.units() >= 0x100_0000,
    ensures
        ({
            let r = q.product(Binary32::of_integer(4));
            &&& r.finite()
            &&& !r.parts().neg
            &&& r.units() <= 4 * pow2(149)
            &&& 0x100_0000 * arith::magnitude(r.units() - 4 * q.units()) <= 4 * q.units()
        }),
{
    let f = Format::Single;
    let one = pow2(149);
    let four = Binary32::of_integer(4);
    let r = q.product(four);
    let u = q.units();
    lemma2_to64();
    lemma_pow2_pos(149);
    round::lemma_format_powers(f);
    round::lemma_units_zero(f);
    lemma_small_single(4);
    let c4 = laws::lemma_representable(f, 4, 149);
    let num = u * (4 * one);
    assert(num == (4 * u) * one && num <= (4 * one) * one) by (nonlinear_arith)
        requires
            num == u * (4 * one),
            u <= one,
    ;
    laws::law_nearest_exists(f, num, one);
    r.lemma_parts(arith::product(f, q.parts(), four.parts()));
    laws::lemma_bounded(f, num, one, c4);
    let code = r.parts().code as nat;
    laws::lemma_common_factor(f, code, 4 * u, 1, one);
    assert(1 * one == one);
    assert(f.is_nearest(code, 4 * u, 1));
    assert(r.units() * 1 == r.units());
    if u > 0 {
        lemma_single_error(code, 4 * u, 1);
    } else {
        formats::lemma_nearest_exact(f, 0, 1);
        assert(0 * 1 == 0);
        formats::lemma_nearest_is(f, code, 0, 1);
    }
}

/// A number up to 4, less 2.
proof fn lemma_kv_difference(r: Binary32)
    requires
        r.finite(),
        !r.parts().neg,
        r.units() <= 4 * pow2(149),
    ensures
        ({
            let d = r.difference(Binary32::of_integer(2));
            &&& d.finite()
            &&& 0x100_0000 * arith::magnitude(
                d.parts().value(Format::Single) - (r.units() - 2 * pow2(149)),
            ) <= 2 * pow2(149)
        }),
{
    let f = Format::Single;
    let one = pow2(149);
    let two = Binary32::of_integer(2);
    let d = r.difference(two);
    let v = r.units() - 2 * one;
    let size = arith::magnitude(v);
    lemma2_to64();
    lemma_pow2_pos(149);
    round::lemma_format_powers(f);
    round::lemma_units_zero(f);
    lemma_small_single(2);
    let c2 = laws::lemma_representable(f, 2, 149);
    assert(f.units(c2) * 1 == f.units(c2));
    laws::lemma_bounded(f, size, 1, c2);
    laws::law_nearest_exists(f, size, 1);
    let sum = arith::sum(f, r.parts(), Parts { neg: true, ..two.parts() });
    d.lemma_parts(sum);
    let code = f.nearest(size, 1);
    assert(f.units(code) * 1 == f.units(code));
    if size >= 0x80_0000 {
        lemma_single_error(code, size, 1);
    } else {
        let c = laws::lemma_representable(f, size, 0);
        assert(size * pow2(0) == size && f.units(c) * 1 == f.units(c));
        formats::lemma_nearest_exact(f, c, 1);
    }
}

/// The roundings together.
proof fn lemma_kv_roundings(s: int, ua: int, ub: int, uq: int, ur: int, d: int, one: int)
    requires
        one > 0,
        0 <= s <= 0xFFFF_FFFF_FFFF_FFFF,
        0 <= uq <= one,
        ua >= 0,
        -(s * one) <= 0x100_0000 * (ua - s * one) <= s * one,
        -(0xFFFF_FFFF_FFFF_FFFF * one) <= 0x100_0000 * (ub - 0xFFFF_FFFF_FFFF_FFFF * one)
            <= 0xFFFF_FFFF_FFFF_FFFF * one,
        -(ua * one) <= 0x100_0000 * (uq * ub - ua * one) <= ua * one,
        -(4 * uq) <= 0x100_0000 * (ur - 4 * uq) <= 4 * uq,
        -(2 * one) <= 0x100_0000 * (d - (ur - 2 * one)) <= 2 * one,
    ensures
        0x8_0000 * (d * 0x1_0000_0000_0000_0000 - (4 * s - 0x2_0000_0000_0000_0000) * one)
            <= 0x1_0000_0000_0000_0000 * one,
        0x8_0000 * (d * 0x1_0000_0000_0000_0000 - (4 * s - 0x2_0000_0000_0000_0000) * one)
            >= -(0x1_0000_0000_0000_0000 * one),
{
    let t: int = 0x100_0000;
    let big: int = 0x1_0000_0000_0000_0000;
    let so = s * one;
    let x = uq * ub - ua * one;
    let y = ub - big * one;
    let z = ua - so;
    assert(0 <= so <= big * one) by (nonlinear_arith)
        requires
            so == s * one,
            0 <= s <= big,
            one > 0,
    ;
    assert(ua <= 2 * (big * one));
    assert(-(2 * (big * one)) <= t * y <= 2 * (big * one)) by (nonlinear_arith)
        requires
            t == 0x100_0000,
            big == 0x1_0000_0000_0000_0000,
            y == ub - big * one,
            one > 0,
            -(0xFFFF_FFFF_FFFF_FFFF * one) <= t * (ub - 0xFFFF_FFFF_FFFF_FFFF * one)
                <= 0xFFFF_FFFF_FFFF_FFFF * one,
    ;
    // `uq * big` against `so`, times `one`.
    let w = uq * big - so;
    assert(w * one == x - uq * y + z * one) by (nonlinear_arith)
        requires
            w == uq * big - so,
            x == uq * ub - ua * one,
            y == ub - big * one,
            z == ua - so,
    ;
    let bo = big * one;
    let boo = bo * one;
    assert(-(2 * boo) <= t * x <= 2 * boo) by (nonlinear_arith)
        requires
            -(ua * one) <= t * x <= ua * one,
            ua <= 2 * bo,
            boo == bo * one,
            one > 0,
    ;
    assert(-(2 * boo) <= t * (uq * y) <= 2 * boo) by (nonlinear_arith)
        requires
            -(2 * bo) <= t * y <= 2 * bo,
            0 <= uq <= one,
            boo == bo * one,
            bo >= 0,
    {
        assert(t * (uq * y) == uq * (t * y));
        assert(uq * (t * y) <= uq * (2 * bo));
        assert(uq * (t * y) >= uq * (-(2 * bo)));
        assert(uq * (2 * bo) <= one * (2 * bo));
        assert(uq * (-(2 * bo)) == -(uq * (2 * bo)));
        assert(one * (2 * bo) == 2 * (bo * one));
    }
    assert(-boo <= t * (z * one) <= boo) by (nonlinear_arith)
        requires
            -so <= t * z <= so,
            so <= bo,
            boo == bo * one,
            one > 0,
    {
        assert(t * (z * one) == (t * z) * one);
        assert((t * z) * one <= so * one);
        assert((t * z) * one >= (-so) * one);
        assert(so * one <= bo * one);
        assert((-so) * one == -(so * one));
    }
    assert(-(5 * boo) <= t * (w * one) <= 5 * boo) by (nonlinear_arith)
        requires
            w * one == x - uq * y + z * one,
            -(2 * boo) <= t * x <= 2 * boo,
            -(2 * boo) <= t * (uq * y) <= 2 * boo,
            -boo <= t * (z * one) <= boo,
    ;
    assert(-(5 * bo) <= t * w <= 5 * bo) by (nonlinear_arith)
        requires
            -(5 * boo) <= t * (w * one) <= 5 * boo,
            boo == bo * one,
            one > 0,
    {
        assert(t * (w * one) == (t * w) * one);
        assert(5 * boo == (5 * bo) * one);
        assert(-(5 * boo) == (-(5 * bo)) * one);
    }
    // The rest is in proportion.
    assert(d * big == (d - (ur - 2 * one)) * big + (ur - 4 * uq) * big + 4 * (uq * big) - 2 * bo)
        by (nonlinear_arith)
        requires
            bo == big * one,
    ;
    assert((4 * s - 2 * big) * one == 4 * so - 2 * bo) by (nonlinear_arith)
        requires
            so == s * one,
            bo == big * one,
    ;
    let e = d - (ur - 2 * one);
    let g = ur - 4 * uq;
    assert(t * (e * big) == (t * e) * big && t * (g * big) == (t * g) * big) by (nonlinear_arith);
}

/// A state is mapped to the range from -2 to 2 in proportion: `s` out of `2^64` to
/// `4 * s / 2^64 - 2`, up to one part in `2^19` of 1, which is `2^149` units.
pub proof fn law_kv_value(state: u64)
    ensures
        kv_value(state).finite(),
        ({
            let v = kv_value(state).parts().value(Format::Single);
            let exact = (4 * state - 0x2_0000_0000_0000_0000) * pow2(149);
            0x8_0000 * arith::magnitude(v * 0x1_0000_0000_0000_0000 - exact)
                <= 0x1_0000_0000_0000_0000 * pow2(149)
        }),
{
    let s = state as nat;
    let one = pow2(149);
    let m = u64::MAX as nat;
    let a = Binary32::of_integer(s);
    let b = Binary32::of_integer(m);
    let q = a.quotient(b);
    let r = q.product(Binary32::of_integer(4));
    let d = r.difference(Binary32::of_integer(2));
    lemma_pow2_pos(149);
    lemma_single_integer(s);
    lemma_single_integer(m);
    lemma_kv_quotient(s);
    lemma_kv_product(q);
    lemma_kv_difference(r);
    lemma_kv_roundings(
        s as int,
        a.units() as int,
        b.units() as int,
        q.units() as int,
        r.units() as int,
        d.parts().value(Format::Single),
        one as int,
    );
}

/// How many numbers a layer's keys and values have.
pub open spec fn element_count(heads: nat, dim: nat, seq_len: nat) -> nat {
    2 * heads * dim * seq_len
}

/// A layer has 4 bytes for each of the numbers of its keys and values: one key and
/// one value for each head, dimension and token.
pub proof fn law_element_count(
    r: SimulationResult,
    heads: nat,
    dim: nat,
    seq_len: nat,
    method: QuantMethod,
)
    requires
        r.projects_layer(heads, dim, seq_len, method),
    ensures
        r.baseline_bytes == 4 * element_count(heads, dim, seq_len),
        element_count(heads, dim, seq_len) == 2 * (heads * (dim * seq_len)),
{
    simulator::law_single_layer(r, heads, dim, seq_len, method);
    assert(8 * (heads * dim) * seq_len == 4 * (2 * heads * dim * seq_len) && 2 * heads * dim
        * seq_len == 2 * (heads * (dim * seq_len))) by (nonlinear_arith);
}

/// How many numbers a layer's keys and values have, if that can be counted.
pub fn count_elements(heads: usize, dim: usize, seq_len: usize) -> (r: Option<usize>)
    ensures
        r == (if element_count(heads as nat, dim as nat, seq_len as nat) <= usize::MAX {
            Some(element_count(heads as nat, dim as nat, seq_len as nat) as usize)
        } else {
            None
        }),
        r matches Some(n) ==> n == 2 * heads * dim * seq_len,
        r is None ==> 2 * heads * dim * seq_len > usize::MAX,
{
    if heads == 0 || dim == 0 || seq_len == 0 {
        assert(2 * heads * dim * seq_len == 0) by (nonlinear_arith)
            requires
                heads == 0 || dim == 0 || seq_len == 0,
        ;
        return Some(0);
    }
    proof {
        lemma_factor(2 * heads as nat, dim as nat);
        lemma_factor(2 * heads as nat * dim as nat, seq_len as nat);
    }
    match heads.checked_mul(2) {
        Some(a) => match a.checked_mul(dim) {
            Some(b) => b.checked_mul(seq_len),
            None => None,
        },
        None => None,
    }
}

proof fn lemma_factor(a: nat, b: nat)
    requires
        b > 0,
    ensures
        a * b >= a,
{
    assert(a * b >= a) by (nonlinear_arith)
        requires
            b > 0,
    ;
}

/// Which projections fit in the budget, in their order.
pub fn fitting(results: &[SimulationResult]) -> (r: Vec<usize>)
    ensures
        r@ == eviction::indices(results@.len()).filter(
            |i: usize| results@[i as int].fits_in_budget,
        ),
        forall|j: int, k: int| 0 <= j < k < r@.len() ==> r@[j] < r@[k],
        forall|i: usize| #[trigger]
            r@.contains(i) <==> i < results@.len() && results@[i as int].fits_in_budget,
{
    let ghost pred = |i: usize| results@[i as int].fits_in_budget;
    let mut r: Vec<usize> = Vec::new();
    assert(r@ =~= eviction::indices(0).filter(pred)) by {
        reveal(Seq::filter);
    }
    for i in 0..results.len()
        invariant
            pred == (|i: usize| results@[i as int].fits_in_budget),
            r@ == eviction::indices(i as nat).filter(pred),
    {
        proof {
            reveal(Seq::filter);
            let next = eviction::indices((i + 1) as nat);
            assert(next.drop_last() =~= eviction::indices(i as nat));
            assert(next.last() == i);
        }
        if results[i].fits_in_budget {
            r.push(i);
        }
    }
    proof {
        eviction::lemma_filtered(results@.len(), pred);
    }
    r
}

/// Which projection is shown as the best: the last one that fits.
pub fn best_fit(results: &[SimulationResult]) -> (r: Option<usize>)
    ensures
        ({
            let fit = eviction::indices(results@.len()).filter(
                |i: usize| results@[i as int].fits_in_budget,
            );
            r == (if fit.len() > 0 {
                Some(fit.last())
            } else {
                None
            })
        }),
        r matches Some(i) ==> i < results@.len() && results@[i as int].fits_in_budget,
        r matches Some(i) ==> forall|j: int|
            i < j < results@.len() ==> !(#[trigger] results@[j]).fits_in_budget,
        r is None ==> forall|j: int|
            0 <= j < results@.len() ==> !(#[trigger] results@[j]).fits_in_budget,
{
    let fit: Vec<usize> = fitting(results);
    proof {
        let n = fit@.len();
        assert(results.len() == results@.len());
        assert(n > 0 ==> fit@.contains(fit@[n - 1]));
        assert forall|j: int|
            0 <= j < results@.len() && (#[trigger] results@[j]).fits_in_budget implies n > 0 && j
            <= fit@[n - 1] by {
            assert(fit@.contains(j as usize));
            let k = choose|k: int| 0 <= k < fit@.len() && fit@[k] == j as usize;
            assert(k == n - 1 || fit@[k] < fit@[n - 1]);
        }
    }
    if fit.len() > 0 {
        Some(fit[fit.len() - 1])
    } else {
        None
    }
}

/// What a method leaves of a cache and what it saves, unless rounding makes the
/// cache larger.
pub fn project_savings(baseline: usize, method: QuantMethod) -> (r: Option<(usize, usize)>)
    ensures
        ({
            let left = simulator::shrunk(baseline as nat, Some(method));
            r == (if left <= baseline {
                Some((left as usize, (baseline - left) as usize))
            } else {
                None
            })
        }),
        r matches Some((left, saved)) ==> left + saved == baseline,
        baseline <= 0x20_0000_0000_0000 ==> r is Some,
        baseline <= 0x20_0000_0000_0000 ==> (r->0).0 == baseline as nat / (match method {
            QuantMethod::FP16 => 2nat,
            QuantMethod::FP8E4M3 => 4,
            QuantMethod::INT4 => 8,
        }),
{
    proof {
        if baseline <= 0x20_0000_0000_0000 {
            simulator::law_shrunk(baseline as nat, Some(method));
        }
    }
    let left: usize = shrink(baseline, Some(method));
    if left <= baseline {
        Some((left, baseline - left))
    } else {
        None
    }
}

/// The name of a method for display, that of the unquantized cache for none.
pub fn method_label(method: Option<QuantMethod>) -> (r: String)
    ensures
        r@ == (match method {
            Some(m) => m.label(),
            None => "FP32"@,
        }),
{
    match method {
        Some(m) => m.to_string(),
        None => "FP32".to_string(),
    }
}

/// The name of an eviction strategy for display.
pub fn eviction_label(strategy: &Option<String>) -> (r: String)
    ensures
        r@ == (match strategy {
            Some(s) => s@,
            None => "None"@,
        }),
{
    match strategy {
        Some(s) => s.clone(),
        None => "None".to_string(),
    }
}

/// The whole number nearest to `num / den`, a tie going to the even one.
pub open spec fn rounded_even(num: nat, den: nat) -> nat {
    let q = num / den;
    let r = num % den;
    if 2 * r < den || (2 * r == den && q % 2 == 0) {
        q
    } else {
        q + 1
    }
}

/// The last `places` decimal digits of a number.
pub open spec fn last_digits(n: nat, places: nat) -> Seq<char>
    decreases places,
{
    if places == 0 {
        Seq::empty()
    } else {
        last_digits(n / 10, (places - 1) as nat).push(text::digit_char(n % 10))
    }
}

/// A number of `10^-places` with its decimal point.
pub open spec fn point_text(n: nat, places: nat) -> Seq<char> {
    text::decimal_text(n / big::ten_to(places)) + "."@ + last_digits(n, places)
}

/// A number that is not negative, with as many digits after the point, the last
/// one rounded to nearest.
pub open spec fn fixed_text(v: Binary64, places: nat) -> Seq<char> {
    point_text(rounded_even(v.units() * big::ten_to(places), pow2(1074)), places)
}

/// A size for display, in the largest unit that it reaches.
pub open spec fn bytes_text(bytes: nat) -> Seq<char> {
    if bytes >= 0x4000_0000 {
        fixed_text(simulator::in_units(bytes, 0x4000_0000), 2) + " GB"@
    } else if bytes >= 0x10_0000 {
        fixed_text(simulator::in_units(bytes, 0x10_0000), 1) + " MB"@
    } else if bytes >= 0x400 {
        fixed_text(simulator::in_units(bytes, 0x400), 1) + " KB"@
    } else {
        text::decimal_text(bytes) + " B"@
    }
}

/// The binary64 number nearest to a whole number is a whole number.
fn nearest_whole(n: u64) -> (r: u128)
    ensures
        Binary64::of_integer(n as nat).finite(),
        !Binary64::of_integer(n as nat).parts().neg,
        Binary64::of_integer(n as nat).units() == r * pow2(1074),
        r < 0x2_0000_0000_0000_0000,
        exists|m: nat, t: nat|
            m <= 0x20_0000_0000_0000 && 1074 <= t < 1100 && #[trigger] (m * pow2(t)) == r * pow2(
                1074,
            ),
{
    if n <= 0x20_0000_0000_0000 {
        proof {
            laws::law_whole_numbers_are_exact(n as nat);
            let m = n as nat;
            assert(m * pow2(1074) == n * pow2(1074));
        }
        return n as u128;
    }
    let p: Parts = Binary64::from_unsigned(n).to_parts();
    proof {
        laws::lemma_large_whole(n as nat);
        Binary64::of_integer(n as nat).lemma_parts(arith::from_integer(Format::Double, n as nat));
    }
    let (m, t) = split(Format::Double, p.code);
    let k: u32 = t - 1074;
    proof {
        lemma2_to64_rest();
        lemma_pow2_adds(k as nat, 1074);
        arith::lemma_pow2_order_le(k as nat, 12);
        lemma2_to64();
        assert(m as nat * pow2(k as nat) < 0x20_0000_0000_0000 * 0x1000) by (nonlinear_arith)
            requires
                m < 0x20_0000_0000_0000,
                0 < pow2(k as nat) <= 0x1000,
        ;
        assert((m as nat * pow2(k as nat)) * pow2(1074) == m as nat * (pow2(k as nat) * pow2(1074)))
            by (nonlinear_arith);
        let a = m as nat;
        let b = t as nat;
        assert(a * pow2(b) == (m as nat * pow2(k as nat)) * pow2(1074));
    }
    shift_left(m as u128, k)
}

/// Rounding does not see a common factor.
proof fn lemma_rounded_scaled(a: nat, b: nat, c: nat)
    requires
        b > 0,
        c > 0,
    ensures
        rounded_even(a * c, b * c) == rounded_even(a, b),
{
    let q = a / b;
    let r = a % b;
    lemma_fundamental_div_mod(a as int, b as int);
    lemma_mod_bound(a as int, b as int);
    assert(a * c == q * (b * c) + r * c) by (nonlinear_arith)
        requires
            a == b * q + r,
    ;
    assert(0 <= r * c < b * c) by (nonlinear_arith)
        requires
            0 <= r < b,
            c > 0,
    ;
    lemma_fundamental_div_mod_converse((a * c) as int, (b * c) as int, q as int, (r * c) as int);
    assert((2 * r < b <==> 2 * (r * c) < b * c) && (2 * r == b <==> 2 * (r * c) == b * c))
        by (nonlinear_arith)
        requires
            c > 0,
    ;
}

/// A size of at least `2^k` bytes in units of `2^k` bytes, in steps of
/// `10^-places`.
fn round_units(bytes: u64, k: u32, places: u32) -> (r: u64)
    requires
        (k == 10 && bytes < 0x10_0000) || (k == 20 && bytes < 0x4000_0000) || k == 30,
        1 <= places <= 2,
    ensures
        r == rounded_even(
            simulator::in_units(bytes as nat, pow2(k as nat)).units() * big::ten_to(places as nat),
            pow2(1074),
        ),
{
    let whole: u128 = nearest_whole(bytes);
    let unit: u128 = if k == 10 {
        0x400
    } else if k == 20 {
        0x10_0000
    } else {
        0x4000_0000
    };
    let ten: u128 = if places == 1 {
        10
    } else {
        100
    };
    let num: u128 = whole * ten;
    let q: u128 = num / unit;
    let left: u128 = num % unit;
    let r: u128 = if 2 * left < unit || (2 * left == unit && q % 2 == 0) {
        q
    } else {
        q + 1
    };
    proof {
        lemma2_to64();
        assert(unit == pow2(k as nat));
        reveal_with_fuel(big::ten_to, 3);
        assert(ten == big::ten_to(places as nat));
        assert(r == rounded_even(num as nat, unit as nat));
        let (m, t): (nat, nat) = choose|m: nat, t: nat|
            m <= 0x20_0000_0000_0000 && 1074 <= t < 1100 && #[trigger] (m * pow2(t)) == whole
                * pow2(1074);
        let a = Binary64::of_integer(bytes as nat);
        laws::lemma_exact_quotient(a, m, t, k as nat);
        let rest = (1074 - k) as nat;
        let c = pow2(rest);
        let v = simulator::in_units(bytes as nat, pow2(k as nat));
        lemma_pow2_adds(k as nat, (t - k) as nat);
        lemma_pow2_adds(k as nat, rest);
        lemma_pow2_pos(rest);
        lemma_pow2_pos(k as nat);
        let u = v.units();
        let pk = pow2(k as nat);
        let x = pow2((t - k) as nat);
        assert(u * pk == (whole * c) * pk) by (nonlinear_arith)
            requires
                u == m * x,
                m * (pk * x) == whole * (pk * c),
        ;
        assert(u == whole * c) by (nonlinear_arith)
            requires
                u * pk == (whole * c) * pk,
                pk > 0,
        ;
        assert(u * ten as nat == num as nat * c) by (nonlinear_arith)
            requires
                u == whole * c,
                num == whole * ten,
        ;
        lemma_rounded_scaled(num as nat, pk, c);
    }
    r as u64
}

fn append_digits(out: &mut String, n: u64, places: u32)
    ensures
        final(out)@ == old(out)@ + last_digits(n as nat, places as nat),
    decreases places,
{
    if places > 0 {
        append_digits(out, n / 10, places - 1);
        let ghost before = out@;
        out.append(digit_str(n % 10));
        assert(out@ =~= before.push(text::digit_char((n % 10) as nat)));
    }
    assert(out@ =~= old(out)@ + last_digits(n as nat, places as nat));
}

/// A size in units of `2^k` bytes, with as many digits after the point.
fn unit_text(bytes: u64, k: u32, places: u32) -> (r: String)
    requires
        (k == 10 && bytes < 0x10_0000) || (k == 20 && bytes < 0x4000_0000) || k == 30,
        1 <= places <= 2,
    ensures
        r@ == fixed_text(simulator::in_units(bytes as nat, pow2(k as nat)), places as nat),
{
    let n: u64 = round_units(bytes, k, places);
    let mut out: String = String::new();
    let ten: u64 = if places == 1 {
        10
    } else {
        100
    };
    proof {
        reveal_with_fuel(big::ten_to, 3);
        assert(ten == big::ten_to(places as nat));
    }
    append_decimal(&mut out, n / ten);
    out.append(".");
    append_digits(&mut out, n, places);
    assert(out@ =~= point_text(n as nat, places as nat));
    out
}

/// Up to `2^53` bytes, the size in units of `2^k` bytes is the exact one, rounded
/// to the last digit that is shown.
pub proof fn law_shown_size(bytes: nat, k: nat, places: nat)
    requires
        bytes <= 0x20_0000_0000_0000,
        k <= 53,
    ensures
        fixed_text(simulator::in_units(bytes, pow2(k)), places) == point_text(
            rounded_even(bytes * big::ten_to(places), pow2(k)),
            places,
        ),
{
    let a = Binary64::of_integer(bytes);
    laws::law_whole_numbers_are_exact(bytes);
    laws::lemma_exact_quotient(a, bytes, 1074, k);
    let rest = (1074 - k) as nat;
    let c = pow2(rest);
    let ten = big::ten_to(places);
    lemma_pow2_adds(k, rest);
    lemma_pow2_pos(rest);
    lemma_pow2_pos(k);
    assert((bytes * c) * ten == (bytes * ten) * c) by (nonlinear_arith);
    lemma_rounded_scaled(bytes * ten, pow2(k), c);
}

/// A size for display, in the largest unit that it reaches.
pub fn format_bytes(bytes: usize) -> (r: String)
    ensures
        r@ == bytes_text(bytes as nat),
{
    proof {
        lemma2_to64();
    }
    let n: u64 = bytes as u64;
    let mut out: String;
    if n >= 0x4000_0000 {
        out = unit_text(n, 30, 2);
        out.append(" GB");
    } else if n >= 0x10_0000 {
        out = unit_text(n, 20, 1);
        out.append(" MB");
    } else if n >= 0x400 {
        out = unit_text(n, 10, 1);
        out.append(" KB");
    } else {
        out = String::new();
        append_decimal(&mut out, n);
        out.append(" B");
        assert(out@ =~= bytes_text(bytes as nat));
    }
    out
}

/// Whether `n` is the whole number nearest to `num / den`, a tie going to the even
/// one.
pub open spec fn is_closest_whole(n: nat, num: nat, den: nat) -> bool {
    &&& 2 * num <= (2 * n + 1) * den
    &&& (2 * n - 1) * den <= 2 * num
    &&& 2 * num == (2 * n + 1) * den || 2 * num == (2 * n - 1) * den ==> n % 2 == 0
}

proof fn lemma_closest_whole(a: nat, b: nat, c: nat, d: nat)
    requires
        b > 0,
        d > 0,
        c == a * d,
    ensures
        is_closest_whole(rounded_even(a, b), c, b * d),
{
    let n = rounded_even(a, b);
    let q = a / b;
    lemma_fundamental_div_mod(a as int, b as int);
    lemma_mod_bound(a as int, b as int);
    assert(b * q == q * b) by (nonlinear_arith);
    assert((2 * n + 1) * b == 2 * (n * b) + b && (2 * n - 1) * b == 2 * (n * b) - b)
        by (nonlinear_arith);
    assert((q + 1) * b == q * b + b) by (nonlinear_arith);
    let x = (2 * n + 1) * b;
    let y = (2 * n - 1) * b;
    assert(2 * a <= x && y <= 2 * a);
    assert((2 * n + 1) * (b * d) == x * d && (2 * n - 1) * (b * d) == y * d && 2 * c == (2 * a) * d)
        by (nonlinear_arith)
        requires
            x == (2 * n + 1) * b,
            y == (2 * n - 1) * b,
            c == a * d,
    ;
    assert((2 * a) * d <= x * d && y * d <= (2 * a) * d && ((2 * a) * d == x * d ==> 2 * a == x)
        && ((2 * a) * d == y * d ==> 2 * a == y)) by (nonlinear_arith)
        requires
            2 * a <= x,
            y <= 2 * a,
            d > 0,
    ;
}

/// How a size is shown: below 1024 bytes as it is; below `2^20` in KB and below
/// `2^30` in MB, in tenths; and from there on in GB, in hundredths. The number that
/// is shown is the one nearest to the size, a tie going to the even digit. Beyond
/// `2^53` bytes, the size is first rounded to binary64, of which `2^1074` units
/// make up 1.
pub proof fn law_shown_bytes(bytes: nat) -> (n: nat)
    requires
        bytes <= u64::MAX,
    ensures
        ({
            let size = Format::Double.units(Format::Double.nearest(bytes * pow2(1074), 1));
            let one = pow2(1074);
            let shown = bytes_text(bytes);
            let tenths = text::decimal_text(n / 10) + "."@ + seq![text::digit_char(n % 10)];
            let hundredths = text::decimal_text(n / 100) + "."@ + seq![
                text::digit_char((n / 10) % 10),
                text::digit_char(n % 10),
            ];
            &&& bytes <= 0x20_0000_0000_0000 ==> size == bytes * one
            &&& bytes < 1024 ==> shown == text::decimal_text(bytes) + " B"@
            &&& 1024 <= bytes < 0x10_0000 ==> shown == tenths + " KB"@ && is_closest_whole(
                n,
                size * 10,
                one * 1024,
            )
            &&& 0x10_0000 <= bytes < 0x4000_0000 ==> shown == tenths + " MB"@ && is_closest_whole(
                n,
                size * 10,
                one * 0x10_0000,
            )
            &&& 0x4000_0000 <= bytes ==> shown == hundredths + " GB"@ && is_closest_whole(
                n,
                size * 100,
                one * 0x4000_0000,
            )
        }),
{
    lemma2_to64();
    let one = pow2(1074);
    lemma_pow2_pos(1074);
    let (k, places): (nat, nat) = if bytes >= 0x4000_0000 {
        (30, 2)
    } else if bytes >= 0x10_0000 {
        (20, 1)
    } else {
        (10, 1)
    };
    simulator::law_size_in_units(bytes, k);
    if bytes <= 0x20_0000_0000_0000 {
        laws::law_whole_numbers_are_exact(bytes);
        Binary64::of_integer(bytes).lemma_parts(arith::from_integer(Format::Double, bytes));
        laws::law_nearest_exists(Format::Double, bytes * one, 1);
    }
    let size = Format::Double.units(Format::Double.nearest(bytes * one, 1));
    let u = simulator::in_units(bytes, pow2(k)).units();
    let ten = big::ten_to(places);
    reveal_with_fuel(big::ten_to, 3);
    let n = rounded_even(u * ten, one);
    assert((u * ten) * pow2(k) == size * ten) by (nonlinear_arith)
        requires
            u * pow2(k) == size,
    ;
    lemma_pow2_pos(k);
    lemma_closest_whole(u * ten, one, size * ten, pow2(k));
    reveal_with_fuel(last_digits, 3);
    assert(last_digits(n, 1) =~= seq![text::digit_char(n % 10)]);
    assert(last_digits(n, 2) =~= seq![
        text::digit_char((n / 10) % 10),
        text::digit_char(n % 10),
    ]);
    n
}

/// The name of a method: the six names, each for its method, and an error for
/// everything else that is in lower case.
pub proof fn law_method_names(name: Seq<char>, r: Result<QuantMethod, String>)
    requires
        names_method(name, r),
    ensures
        r == Ok::<QuantMethod, String>(QuantMethod::FP16) <==> name == "fp16"@,
        r == Ok::<QuantMethod, String>(QuantMethod::FP8E4M3) <==> name == "fp8"@ || name
            == "fp8e4m3"@ || name == "e4m3"@,
        r == Ok::<QuantMethod, String>(QuantMethod::INT4) <==> name == "int4"@ || name == "i4"@,
        r matches Err(e) ==> e@ == "Unknown method '"@ + name + "'. Use: fp16, fp8, int4"@,
{
    reveal_strlit("fp16");
    reveal_strlit("fp8");
    reveal_strlit("fp8e4m3");
    reveal_strlit("e4m3");
    reveal_strlit("int4");
    reveal_strlit("i4");
    assert("fp16"@[2] == '1');
    assert("fp8"@.len() == 3 && "fp8e4m3"@.len() == 7 && "i4"@.len() == 2);
    assert("e4m3"@[0] == 'e' && "int4"@[0] == 'i' && "fp16"@[0] == 'f');
}

/// The name of a model: the three presets, and an error for everything else that
/// is in lower case.
pub proof fn law_model_names(name: Seq<char>, r: Result<ModelConfig, String>)
    requires
        names_model(name, r),
    ensures
        r is Ok <==> name == "7b"@ || name == "13b"@ || name == "70b"@,
        r matches Err(e) ==> e@ == "Unknown model '"@ + name + "'. Use: 7b, 13b, 70b"@,
        r matches Ok(m) ==> m.head_dim == 128,
        r matches Ok(m) ==> name == "7b"@ ==> m.num_layers == 32 && m.num_kv_heads == 32,
        r matches Ok(m) ==> name == "13b"@ ==> m.num_layers == 40 && m.num_kv_heads == 40,
        r matches Ok(m) ==> name == "70b"@ ==> m.num_layers == 80 && m.num_kv_heads == 8,
{
    reveal_strlit("7b");
    reveal_strlit("13b");
    reveal_strlit("70b");
    assert("7b"@.len() == 2 && "13b"@[0] == '1' && "70b"@[0] == '7');
}

} // verus!
