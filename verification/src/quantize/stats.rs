//! Round-trip accuracy measurement.

use crate::float::arith;
use crate::float::arith::Parts;
use crate::float::formats;
use crate::float::formats::Format;
use crate::float::laws;
use crate::float::round;
use crate::float::{Binary16, Binary32, Binary64};
use crate::parallel;
use crate::quantize::fp16::{dequantize_fp16, quantize_fp16};
use crate::quantize::fp8;
use crate::quantize::fp8::{dequantize_fp8, quantize_fp8};
use crate::quantize::int4;
use crate::quantize::int4::{dequantize_int4, quantize_int4, Int4Packed, INT4_GROUP_SIZE};
use crate::quantize::method::QuantMethod;
use vstd::arithmetic::power2::*;
use vstd::prelude::*;

verus! {

/// Round-trip accuracy statistics.
#[derive(Debug, Clone)]
pub struct CompressionStats {
    pub method: QuantMethod,
    /// The mean of the squared errors.
    pub mse: Binary64,
    pub max_error: Binary64,
    pub mean_error: Binary64,
    pub num_elements: usize,
    pub original_bytes: usize,
    pub compressed_bytes: usize,
}

impl CompressionStats {
    pub fn compression_ratio(&self) -> (r: Binary64)
        ensures
            r == Binary64::of_integer(self.original_bytes as nat).quotient(
                Binary64::of_integer(self.compressed_bytes as nat),
            ),
            self.original_bytes == 0 && self.compressed_bytes == 0 ==> r.nan(),
            self.original_bytes > 0 && self.compressed_bytes == 0 ==> r.infinite()
                && !r.parts().neg,
            self.original_bytes <= 0x20_0000_0000_0000 && 0 < self.compressed_bytes
                <= 0x20_0000_0000_0000 ==> r.finite() && !r.parts().neg
                && Format::Double.is_nearest(
                r.parts().code as nat,
                self.original_bytes as nat * pow2(1074),
                self.compressed_bytes as nat,
            ),
    {
        proof {
            lemma_ratio(self.original_bytes as nat, self.compressed_bytes as nat);
        }
        Binary64::from_unsigned(self.original_bytes as u64).over(
            Binary64::from_unsigned(self.compressed_bytes as u64),
        )
    }
}

/// The numbers after a round trip through the method.
pub open spec fn reconstructed(data: Seq<Binary32>, method: QuantMethod) -> Seq<Binary32> {
    match method {
        QuantMethod::FP16 => data.map_values(|v: Binary32| v.narrowed().widened()),
        QuantMethod::FP8E4M3 => data.map_values(|v: Binary32| fp8::decoded(fp8::encoded(v))),
        QuantMethod::INT4 => Seq::new(
            data.len(),
            |i: int| int4::through_int4(data, INT4_GROUP_SIZE as nat, i),
        ),
    }
}

/// How many bytes `len` quantized numbers take.
pub open spec fn compressed_size(len: nat, method: QuantMethod) -> nat {
    match method {
        QuantMethod::FP16 => 2 * len,
        QuantMethod::FP8E4M3 => len,
        QuantMethod::INT4 => int4::byte_count(len) + 2 * parallel::chunk_count(
            len,
            INT4_GROUP_SIZE as nat,
        ),
    }
}

/// The absolute error, in binary64.
pub open spec fn error(original: Binary32, restored: Binary32) -> Binary64 {
    original.widened().difference(restored.widened()).magnitude()
}

/// The absolute errors, one for each number.
pub open spec fn errors(original: Seq<Binary32>, restored: Seq<Binary32>) -> Seq<Binary64> {
    Seq::new(original.len(), |i: int| error(original[i], restored[i]))
}

/// The sum of the numbers, added up from the first to the last.
pub open spec fn total(s: Seq<Binary64>) -> Binary64
    decreases s.len(),
{
    if s.len() == 0 {
        Binary64::of_integer(0)
    } else {
        total(s.drop_last()).sum(s.last())
    }
}

/// The largest of the numbers, none counting as 0 and NaN left out.
pub open spec fn largest(s: Seq<Binary64>) -> Binary64
    decreases s.len(),
{
    if s.len() == 0 {
        Binary64::of_integer(0)
    } else {
        let rest = largest(s.drop_last());
        if rest.below(s.last()) {
            s.last()
        } else {
            rest
        }
    }
}

/// The numbers, each times itself.
pub open spec fn squares(s: Seq<Binary64>) -> Seq<Binary64> {
    s.map_values(|e: Binary64| e.product(e))
}

impl CompressionStats {
    /// Whether these are the statistics of a round trip of `data`.
    pub open spec fn measures(self, data: Seq<Binary32>, method: QuantMethod) -> bool {
        let n = Binary64::of_integer(data.len());
        let e = errors(data, reconstructed(data, method));
        &&& self.method == method
        &&& self.num_elements == data.len()
        &&& self.original_bytes == 4 * data.len()
        &&& self.compressed_bytes == compressed_size(data.len(), method)
        &&& self.max_error == largest(e)
        &&& data.len() == 0 ==> self.mse == Binary64::of_integer(0) && self.mean_error
            == Binary64::of_integer(0)
        &&& data.len() > 0 ==> self.mse == total(squares(e)).quotient(n) && self.mean_error
            == total(e).quotient(n)
    }
}

/// The numbers after the round trip, and how many bytes they took in between.
fn round_trip(data: &[Binary32], method: QuantMethod) -> (r: (Vec<Binary32>, usize))
    requires
        4 * data@.len() <= usize::MAX,
    ensures
        r.0@ == reconstructed(data@, method),
        r.1 == compressed_size(data@.len(), method),
{
    match method {
        QuantMethod::FP16 => {
            let q = quantize_fp16(data);
            let bytes: usize = q.len() * 2;
            let restored = dequantize_fp16(q.as_slice());
            assert(restored@ =~= reconstructed(data@, method));
            (restored, bytes)
        },
        QuantMethod::FP8E4M3 => {
            let q = quantize_fp8(data);
            let bytes: usize = q.len();
            let restored = dequantize_fp8(q.as_slice());
            assert(restored@ =~= reconstructed(data@, method));
            (restored, bytes)
        },
        QuantMethod::INT4 => {
            let q: Int4Packed = quantize_int4(data);
            proof {
                int4::law_int4_round_trip(q, data@, INT4_GROUP_SIZE as nat);
                int4::law_int4_size(q, data@, INT4_GROUP_SIZE as nat);
            }
            let bytes: usize = q.size_bytes();
            (dequantize_int4(&q), bytes)
        },
    }
}

/// Measure round-trip accuracy for a given quantization method.
pub fn round_trip_stats(data: &[Binary32], method: QuantMethod) -> (r: CompressionStats)
    requires
        4 * data@.len() <= usize::MAX,
    ensures
        r.measures(data@, method),
{
    let ghost e = errors(data@, reconstructed(data@, method));
    if data.len() == 0 {
        assert(compressed_size(0, method) == 0);
        return CompressionStats {
            method,
            mse: Binary64::from_unsigned(0),
            max_error: Binary64::from_unsigned(0),
            mean_error: Binary64::from_unsigned(0),
            num_elements: 0,
            original_bytes: 0,
            compressed_bytes: 0,
        };
    }
    let original_bytes: usize = data.len() * 4;
    let (restored, compressed_bytes) = round_trip(data, method);
    let n: Binary64 = Binary64::from_unsigned(data.len() as u64);
    let mut sum_sq_err: Binary64 = Binary64::from_unsigned(0);
    let mut sum_abs_err: Binary64 = Binary64::from_unsigned(0);
    let mut max_err: Binary64 = Binary64::from_unsigned(0);
    for i in 0..data.len()
        invariant
            restored@ == reconstructed(data@, method),
            restored@.len() == data@.len(),
            e == errors(data@, restored@),
            sum_sq_err == total(squares(e.take(i as int))),
            sum_abs_err == total(e.take(i as int)),
            max_err == largest(e.take(i as int)),
    {
        let err: Binary64 = data[i].widen().minus(restored[i].widen()).abs();
        proof {
            let next = e.take(i + 1);
            assert(next.drop_last() =~= e.take(i as int));
            assert(squares(next).drop_last() =~= squares(e.take(i as int)));
        }
        sum_sq_err = sum_sq_err.plus(err.times(err));
        sum_abs_err = sum_abs_err.plus(err);
        if max_err.is_below(err) {
            max_err = err;
        }
    }
    assert(e.take(e.len() as int) =~= e);
    CompressionStats {
        method,
        mse: sum_sq_err.over(n),
        max_error: max_err,
        mean_error: sum_abs_err.over(n),
        num_elements: data.len(),
        original_bytes,
        compressed_bytes,
    }
}

/// No error lies above the largest one.
pub proof fn law_largest(s: Seq<Binary64>, i: int)
    requires
        0 <= i < s.len(),
    ensures
        !largest(s).below(s[i]),
        !largest(s).nan(),
{
    lemma_largest(s);
}

proof fn lemma_largest(s: Seq<Binary64>)
    ensures
        !largest(s).nan(),
        forall|i: int| 0 <= i < s.len() ==> !largest(s).below(#[trigger] s[i]),
    decreases s.len(),
{
    if s.len() == 0 {
        round::lemma_units_zero(Format::Double);
        formats::lemma_nearest_exact(Format::Double, 0, 1);
        assert(0 * pow2(1074) == 0);
    } else {
        let rest = s.drop_last();
        lemma_largest(rest);
        assert forall|i: int| 0 <= i < s.len() implies !largest(s).below(#[trigger] s[i]) by {
            if i < rest.len() {
                assert(rest[i] == s[i]);
            }
        }
    }
}

/// FP16 halves and FP8 quarters the size; INT4 takes 9 bytes for 16 numbers in
/// whole groups, and never more than 2 bytes and a half beyond that.
pub proof fn law_compressed_size(len: nat)
    ensures
        2 * compressed_size(len, QuantMethod::FP16) == 4 * len,
        4 * compressed_size(len, QuantMethod::FP8E4M3) == 4 * len,
        len % 32 == 0 ==> 16 * compressed_size(len, QuantMethod::INT4) == 9 * len,
        16 * compressed_size(len, QuantMethod::INT4) <= 9 * len + 40,
{
}

/// The measured compression ratio of FP16 is 2 and that of FP8 is 4, however
/// many numbers there are.
pub proof fn law_nominal_ratio(len: nat, method: QuantMethod)
    requires
        0 < len,
        4 * len <= usize::MAX,
        method == QuantMethod::FP16 || method == QuantMethod::FP8E4M3,
    ensures
        Binary64::of_integer(4 * len).quotient(
            Binary64::of_integer(compressed_size(len, method)),
        ) == Binary64::of_integer(method.ratio()),
{
    laws::law_doubled(len);
    laws::law_doubled(2 * len);
    assert(2 * (2 * len) == 4 * len);
    laws::lemma_multiple(
        Binary64::of_integer(4 * len),
        Binary64::of_integer(compressed_size(len, method)),
        method.ratio(),
    );
}

/// Zero as a number.
proof fn lemma_zero()
    ensures
        Binary64::of_integer(0).finite(),
        !Binary64::of_integer(0).parts().neg,
        Binary64::of_integer(0).parts().code == 0,
        Binary64::of_integer(0).units() == 0,
{
    let f = Format::Double;
    round::lemma_units_zero(f);
    formats::lemma_nearest_exact(f, 0, 1);
    assert(0 * pow2(1074) == 0 && 0 * 1 == 0);
    Binary64::of_integer(0).lemma_parts(arith::from_integer(f, 0));
}

/// The ratio of two numbers of bytes.
proof fn lemma_ratio(a: nat, b: nat)
    requires
        a <= u64::MAX,
    ensures
        ({
            let r = Binary64::of_integer(a).quotient(Binary64::of_integer(b));
            &&& a == 0 && b == 0 ==> r.nan()
            &&& a > 0 && b == 0 ==> r.infinite() && !r.parts().neg
            &&& a <= 0x20_0000_0000_0000 && 0 < b <= 0x20_0000_0000_0000 ==> r.finite()
                && !r.parts().neg && Format::Double.is_nearest(
                r.parts().code as nat,
                a * pow2(1074),
                b,
            )
        }),
{
    let x = Binary64::of_integer(a);
    let y = Binary64::of_integer(b);
    lemma_zero();
    x.quotient(y).lemma_parts(arith::quotient(Format::Double, x.parts(), y.parts()));
    if a > 0 {
        laws::law_doubled(a);
        round::lemma_units_zero(Format::Double);
    }
    if a <= 0x20_0000_0000_0000 && 0 < b <= 0x20_0000_0000_0000 {
        laws::law_quotient_of_whole_numbers(a, b);
    }
}

/// How far two numbers lie apart, in units of binary32.
pub open spec fn distance(a: Binary32, b: Binary32) -> nat {
    arith::magnitude(a.parts().value(Format::Single) - b.parts().value(Format::Single))
}

/// The error of a finite number is the binary64 number nearest to the distance,
/// of which `2^149` units make up 1. It is never negative.
pub proof fn law_error(a: Binary32, b: Binary32)
    requires
        a.finite(),
        b.finite(),
    ensures
        error(a, b).finite(),
        !error(a, b).parts().neg,
        Format::Double.is_nearest(
            error(a, b).parts().code as nat,
            distance(a, b) * pow2(925),
            1,
        ),
        error(a, b).units() <= pow2(1203),
        error(a, b).units() == 0 || error(a, b).units() >= pow2(925),
{
    let f = Format::Double;
    let g = Format::Single;
    let k = pow2(925);
    let d = distance(a, b);
    let x = a.widened();
    let y = b.widened();
    laws::law_widening_is_exact(g, f, a.parts());
    laws::law_widening_is_exact(g, f, b.parts());
    x.lemma_parts(arith::converted(g, f, a.parts()));
    y.lemma_parts(arith::converted(g, f, b.parts()));
    let va = a.parts().value(g);
    let vb = b.parts().value(g);
    let exact = x.parts().value(f) - y.parts().value(f);
    lemma_pow2_pos(925);
    assert(exact == (va - vb) * k) by {
        assert((va - vb) * k == va * k - vb * k) by (nonlinear_arith);
        assert((-(a.units() as int)) * k == -(a.units() * k)) by (nonlinear_arith);
        assert((-(b.units() as int)) * k == -(b.units() * k)) by (nonlinear_arith);
    }
    assert(arith::magnitude(exact) == d * k) by {
        assert((-(va - vb)) * k == -((va - vb) * k)) by (nonlinear_arith);
        assert(va - vb >= 0 ==> (va - vb) * k >= 0) by (nonlinear_arith);
        assert(va - vb < 0 ==> (va - vb) * k < 0) by (nonlinear_arith)
            requires
                k > 0,
        ;
    }
    // The bounds.
    round::lemma_format_powers(g);
    round::lemma_format_powers(f);
    lemma2_to64();
    let big = g.units(0x7F80_0000);
    formats::lemma_grid_join(pow2(23), 254, 23);
    assert(254 * pow2(23) + pow2(23) == 0x7F80_0000);
    lemma_pow2_unfold(24);
    lemma_pow2_adds(23, 254);
    assert(big == pow2(277));
    formats::lemma_units_increasing(g, a.parts().code as nat, 0x7F80_0000);
    formats::lemma_units_increasing(g, b.parts().code as nat, 0x7F80_0000);
    lemma_pow2_unfold(278);
    lemma_pow2_adds(278, 925);
    assert(d * k <= pow2(278) * k) by (nonlinear_arith)
        requires
            d <= pow2(278),
    ;
    let top = laws::lemma_representable(f, 1, 1203);
    let low = laws::lemma_representable(f, 1, 925);
    assert(1 * pow2(1203) == pow2(1203) && 1 * k == k);
    assert(f.units(top) * 1 == f.units(top) && f.units(low) * 1 == f.units(low));
    laws::lemma_bounded(f, d * k, 1, top);
    laws::law_nearest_exists(f, d * k, 1);
    round::lemma_units_zero(f);
    formats::lemma_nearest_exact(f, 0, 1);
    assert(0 * 1 == 0 && 0 * k == 0);
    let code = f.nearest(d * k, 1);
    if d > 0 {
        assert(d * k >= k) by (nonlinear_arith)
            requires
                d > 0,
        ;
        laws::law_nearest_monotone(f, k, d * k, 1);
        formats::lemma_nearest_exact(f, low, 1);
        if low < code {
            formats::lemma_units_increasing(f, low, code);
        }
    }
    let flipped = Parts { neg: !y.parts().neg, ..y.parts() };
    assert(flipped.value(f) == -y.parts().value(f));
    let sum = arith::sum(f, x.parts(), flipped);
    assert(sum.code == code);
    x.difference(y).lemma_parts(sum);
    error(a, b).lemma_parts(Parts { neg: false, ..sum });
}

/// The sum of whole numbers.
pub open spec fn whole_sum(s: Seq<nat>) -> nat
    decreases s.len(),
{
    if s.len() == 0 {
        0
    } else {
        whole_sum(s.drop_last()) + s.last()
    }
}

/// The numbers to the second power.
pub open spec fn second_powers(s: Seq<nat>) -> Seq<nat> {
    s.map_values(|n: nat| n * n)
}

/// The errors in units of binary64, of which `2^1074` make up 1.
pub open spec fn error_units(original: Seq<Binary32>, restored: Seq<Binary32>) -> Seq<nat> {
    Seq::new(original.len(), |i: int| error(original[i], restored[i]).units())
}

proof fn lemma_at_most_sum(s: Seq<nat>, i: int)
    requires
        0 <= i < s.len(),
    ensures
        s[i] <= whole_sum(s),
    decreases s.len(),
{
    if i < s.len() - 1 {
        lemma_at_most_sum(s.drop_last(), i);
        assert(s.drop_last()[i] == s[i]);
    }
}

/// Numbers that are multiples of one power of two add up without rounding, as
/// long as there are no more than `2^53` of it in all.
proof fn lemma_exact_total(s: Seq<Binary64>, n: Seq<nat>, t: nat)
    requires
        s.len() == n.len(),
        t <= 2000,
        whole_sum(n) <= 0x20_0000_0000_0000,
        forall|i: int|
            0 <= i < s.len() ==> (#[trigger] s[i]).finite() && !s[i].parts().neg && s[i].units()
                == n[i] * pow2(t),
    ensures
        total(s).finite(),
        !total(s).parts().neg,
        total(s).units() == whole_sum(n) * pow2(t),
    decreases s.len(),
{
    lemma_zero();
    if s.len() == 0 {
        assert(0 * pow2(t) == 0);
    } else {
        let f = Format::Double;
        let rest = s.drop_last();
        let m = n.drop_last();
        assert forall|i: int| 0 <= i < rest.len() implies (#[trigger] rest[i]).finite()
            && !rest[i].parts().neg && rest[i].units() == m[i] * pow2(t) by {
            assert(rest[i] == s[i]);
        }
        lemma_exact_total(rest, m, t);
        let a = total(rest);
        let b = s.last();
        let w = whole_sum(n);
        let x = whole_sum(m);
        let y = n.last();
        assert(s[s.len() - 1] == b);
        assert(w * pow2(t) == x * pow2(t) + y * pow2(t)) by (nonlinear_arith)
            requires
                w == x + y,
        ;
        let code = lemma_grid_number(w, t);
        formats::lemma_nearest_exact(f, code, 1);
        assert(f.units(code) * 1 == f.units(code));
        round::lemma_units_zero(f);
        laws::law_sum(a, b, 0);
        formats::lemma_nearest_is(f, a.sum(b).parts().code as nat, w * pow2(t), 1);
        a.sum(b).lemma_parts(arith::sum(f, a.parts(), b.parts()));
        assert(!a.sum(b).parts().neg);
    }
}

/// A whole number up to `2^53` times a power of two is a binary64 number.
proof fn lemma_grid_number(n: nat, t: nat) -> (code: nat)
    requires
        n <= 0x20_0000_0000_0000,
        t <= 2000,
    ensures
        code < Format::Double.infinity(),
        Format::Double.units(code) == n * pow2(t),
{
    let f = Format::Double;
    lemma2_to64();
    lemma2_to64_rest();
    round::lemma_format_powers(f);
    if n < 0x20_0000_0000_0000 {
        laws::lemma_representable(f, n, t)
    } else {
        lemma_pow2_unfold(t + 1);
        assert(0x10_0000_0000_0000 * (2 * pow2(t)) == n * pow2(t)) by (nonlinear_arith)
            requires
                n == 0x20_0000_0000_0000,
        ;
        laws::lemma_representable(f, 0x10_0000_0000_0000, t + 1)
    }
}

/// The mean of a total that is a number of units, over how many numbers there
/// are.
proof fn lemma_mean(a: Binary64, n: nat)
    requires
        a.finite(),
        !a.parts().neg,
        0 < n <= 0x20_0000_0000_0000,
    ensures
        ({
            let r = a.quotient(Binary64::of_integer(n));
            &&& r.finite()
            &&& !r.parts().neg
            &&& r.units() <= a.units()
            &&& Format::Double.is_nearest(r.parts().code as nat, a.units(), n)
        }),
{
    let f = Format::Double;
    let one = pow2(1074);
    let b = Binary64::of_integer(n);
    let r = a.quotient(b);
    lemma_pow2_pos(1074);
    laws::law_whole_numbers_are_exact(n);
    assert(n * one > 0) by (nonlinear_arith)
        requires
            n > 0,
            one > 0,
    ;
    laws::law_quotient(a, b, 0);
    let code = r.parts().code as nat;
    laws::lemma_common_factor(f, code, a.units(), n, one);
    formats::lemma_nearest_is(f, code, a.units(), n);
    assert(a.units() <= a.units() * n) by (nonlinear_arith)
        requires
            n > 0,
    ;
    laws::lemma_bounded(f, a.units(), n, a.parts().code as nat);
}

/// An error that is a multiple of a power of two, and its square.
proof fn lemma_exact_square(e: Binary64, n: nat, t: nat)
    requires
        e.finite(),
        e.units() == n * pow2(t),
        n * n <= 0x20_0000_0000_0000,
        537 <= t <= 1300,
    ensures
        e.product(e).finite(),
        !e.product(e).parts().neg,
        e.product(e).units() == (n * n) * pow2((2 * t - 1074) as nat),
{
    let f = Format::Double;
    let p = pow2(t);
    let k = (2 * t - 1074) as nat;
    let one = pow2(1074);
    lemma_pow2_pos(1074);
    lemma_pow2_adds(t, t);
    lemma_pow2_adds(k, 1074);
    assert((n * p) * (n * p) == ((n * n) * pow2(k)) * one) by (nonlinear_arith)
        requires
            p * p == pow2(k) * one,
    ;
    let code = lemma_grid_number(n * n, k);
    formats::lemma_nearest_exact(f, code, one);
    laws::law_product(e, e, 0);
    formats::lemma_nearest_is(f, e.product(e).parts().code as nat, (n * p) * (n * p), one);
}

/// The errors of data whose numbers move by multiples of a power of two.
proof fn lemma_exact_error(a: Binary32, b: Binary32, n: nat, t: nat)
    requires
        a.finite(),
        b.finite(),
        n <= 0x20_0000_0000_0000,
        t <= 2000,
        distance(a, b) * pow2(925) == n * pow2(t),
    ensures
        error(a, b).finite(),
        !error(a, b).parts().neg,
        error(a, b).units() == n * pow2(t),
{
    let f = Format::Double;
    law_error(a, b);
    let code = lemma_grid_number(n, t);
    formats::lemma_nearest_exact(f, code, 1);
    assert(f.units(code) * 1 == f.units(code));
    formats::lemma_nearest_is(f, error(a, b).parts().code as nat, n * pow2(t), 1);
}

/// The statistics speak of the data and the method that were asked for: 4 bytes
/// a number before, and after it 2 with FP16, 1 with FP8, and with INT4 half a
/// byte a number and 2 bytes for each 32, both rounded up. Without data, all the
/// errors are 0.
pub proof fn law_measured_sizes(r: CompressionStats, data: Seq<Binary32>, method: QuantMethod)
    requires
        r.measures(data, method),
    ensures
        r.method == method,
        r.num_elements == data.len(),
        r.original_bytes == 4 * data.len(),
        method == QuantMethod::FP16 ==> r.compressed_bytes == 2 * data.len(),
        method == QuantMethod::FP8E4M3 ==> r.compressed_bytes == data.len(),
        method == QuantMethod::INT4 ==> r.compressed_bytes == (data.len() + 1) / 2 + 2 * ((
        data.len() + 31) / 32),
        data.len() == 0 ==> {
            let zero = Parts { neg: false, code: 0 };
            r.mse.parts() == zero && r.max_error.parts() == zero && r.mean_error.parts() == zero
        },
{
    lemma_zero();
}

/// The largest error is the error of one of the numbers, or 0 if all are 0 or
/// NaN, and none of the numbers has a larger one.
pub proof fn law_measured_max(r: CompressionStats, data: Seq<Binary32>, method: QuantMethod)
    requires
        r.measures(data, method),
    ensures
        !r.max_error.nan(),
        forall|i: int|
            0 <= i < data.len() ==> !r.max_error.below(
                error(#[trigger] data[i], reconstructed(data, method)[i]),
            ),
        r.max_error.parts().code == 0 || exists|i: int|
            0 <= i < data.len() && r.max_error == error(
                #[trigger] data[i],
                reconstructed(data, method)[i],
            ),
{
    let e = errors(data, reconstructed(data, method));
    lemma_largest(e);
    lemma_largest_is_one(e);
    assert forall|i: int| 0 <= i < data.len() implies !r.max_error.below(
        error(#[trigger] data[i], reconstructed(data, method)[i]),
    ) by {
        assert(e[i] == error(data[i], reconstructed(data, method)[i]));
    }
    if r.max_error.parts().code != 0 {
        let i = choose|i: int| 0 <= i < e.len() && largest(e) == #[trigger] e[i];
        assert(r.max_error == error(data[i], reconstructed(data, method)[i]));
    }
}

proof fn lemma_largest_is_one(s: Seq<Binary64>)
    ensures
        largest(s).parts().code == 0 || exists|i: int|
            0 <= i < s.len() && largest(s) == #[trigger] s[i],
    decreases s.len(),
{
    lemma_zero();
    if s.len() > 0 {
        let rest = s.drop_last();
        lemma_largest_is_one(rest);
        if rest.len() > 0 && largest(s) == largest(rest) && largest(rest).parts().code != 0 {
            let i = choose|i: int| 0 <= i < rest.len() && largest(rest) == #[trigger] rest[i];
            assert(s[i] == rest[i]);
        }
        assert(s[s.len() - 1] == s.last());
    }
}

/// Of a single number, the mean squared error is the square of its error, which
/// is rounded once, and the other two errors are its error.
pub proof fn law_measured_single(r: CompressionStats, data: Seq<Binary32>, method: QuantMethod)
    requires
        r.measures(data, method),
        data.len() == 1,
        data[0].finite(),
        reconstructed(data, method)[0].finite(),
    ensures
        ({
            let e = error(data[0], reconstructed(data, method)[0]);
            &&& r.max_error == e
            &&& r.mean_error == e
            &&& r.mse.finite()
            &&& !r.mse.parts().neg
            &&& Format::Double.is_nearest(
                r.mse.parts().code as nat,
                e.units() * e.units(),
                pow2(1074),
            )
        }),
{
    let f = Format::Double;
    let restored = reconstructed(data, method);
    let e = error(data[0], restored[0]);
    let s = errors(data, restored);
    law_error(data[0], restored[0]);
    lemma_zero();
    round::lemma_units_zero(f);
    assert(s =~= seq![e]);
    assert(squares(s) =~= seq![e.product(e)]);
    // The totals.
    lemma_square(e);
    laws::law_product(e, e, 0);
    lemma_single_total(e);
    lemma_single_total(e.product(e));
    laws::law_whole_numbers_are_exact(1);
    // Over 1.
    lemma_over_one(e);
    lemma_over_one(e.product(e));
    // The largest.
    let zero = Binary64::of_integer(0);
    assert(s.drop_last() =~= Seq::empty());
    assert(largest(s.drop_last()) == zero);
    if e.parts().code == 0 {
        e.lemma_parts(e.parts());
        zero.lemma_parts(zero.parts());
    } else {
        formats::lemma_units_increasing(f, 0, e.parts().code as nat);
    }
}

proof fn lemma_single_total(a: Binary64)
    requires
        a.finite(),
        !a.parts().neg,
    ensures
        total(seq![a]) == a,
{
    let f = Format::Double;
    let zero = Binary64::of_integer(0);
    lemma_zero();
    round::lemma_units_zero(f);
    assert(seq![a].drop_last() =~= Seq::empty());
    assert(total(seq![a].drop_last()) == zero);
    formats::lemma_nearest_exact(f, a.parts().code as nat, 1);
    assert(a.units() * 1 == a.units());
    let sum = arith::sum(f, zero.parts(), a.parts());
    if a.parts().code > 0 {
        formats::lemma_units_increasing(f, 0, a.parts().code as nat);
    }
    assert(sum == a.parts());
    a.lemma_parts(sum);
}

proof fn lemma_over_one(a: Binary64)
    requires
        a.finite(),
        !a.parts().neg,
    ensures
        a.quotient(Binary64::of_integer(1)) == a,
{
    let f = Format::Double;
    let one = Binary64::of_integer(1);
    let u = pow2(1074);
    lemma_pow2_pos(1074);
    laws::law_whole_numbers_are_exact(1);
    assert(1 * u == u);
    round::lemma_units_zero(f);
    formats::lemma_nearest_exact(f, a.parts().code as nat, u);
    let q = arith::quotient(f, a.parts(), one.parts());
    assert(q == a.parts());
    a.lemma_parts(q);
}

/// The square of an error in the range of binary32, against the exact one.
proof fn lemma_square(e: Binary64)
    requires
        e.finite(),
        e.units() <= pow2(1203),
        e.units() == 0 || e.units() >= pow2(925),
    ensures
        ({
            let q = e.product(e);
            let exact = e.units() * e.units();
            &&& q.finite()
            &&& !q.parts().neg
            &&& q.units() <= pow2(1332)
            &&& q.units() == 0 || q.units() >= pow2(776)
            &&& 0x20_0000_0000_0000 * arith::magnitude(q.units() * pow2(1074) - exact) <= exact
        }),
{
    let f = Format::Double;
    let u = e.units();
    let q = e.product(e);
    let one = pow2(1074);
    let exact = u * u;
    lemma_pow2_pos(1074);
    lemma2_to64();
    lemma2_to64_rest();
    round::lemma_format_powers(f);
    round::lemma_units_zero(f);
    laws::law_product(e, e, 0);
    let code = q.parts().code as nat;
    formats::lemma_nearest_is(f, code, exact, one);
    // From above.
    lemma_pow2_adds(1203, 1203);
    lemma_pow2_adds(1332, 1074);
    let top = laws::lemma_representable(f, 1, 1332);
    assert(1 * pow2(1332) == pow2(1332));
    assert(exact <= pow2(1203) * pow2(1203)) by (nonlinear_arith)
        requires
            exact == u * u,
            u <= pow2(1203),
    ;
    laws::lemma_bounded(f, exact, one, top);
    if u == 0 {
        assert(exact == 0) by (nonlinear_arith)
            requires
                exact == u * u,
                u == 0,
        ;
        formats::lemma_nearest_exact(f, 0, one);
        assert(0 * one == 0);
    } else {
        // From below.
        lemma_pow2_adds(925, 925);
        lemma_pow2_adds(776, 1074);
        let low = laws::lemma_representable(f, 1, 776);
        assert(1 * pow2(776) == pow2(776));
        assert(exact >= pow2(925) * pow2(925)) by (nonlinear_arith)
            requires
                exact == u * u,
                u >= pow2(925),
        ;
        laws::law_nearest_monotone(f, pow2(776) * one, exact, one);
        formats::lemma_nearest_exact(f, low, one);
        if low < code {
            formats::lemma_units_increasing(f, low, code);
        }
        formats::lemma_grid_join(pow2(52), 0, 52);
        lemma_pow2_unfold(53);
        assert(0 * pow2(52) == 0 && pow2(52) * 1 == pow2(52));
        arith::lemma_pow2_order_le(52, 776);
        assert(pow2(52) * one <= pow2(776) * one) by (nonlinear_arith)
            requires
                pow2(52) <= pow2(776),
        ;
        laws::law_relative_error(f, exact, one, code);
    }
}

/// Where the numbers move by multiples of one power of two, the mean squared
/// error is the binary64 number nearest to the exact mean of the second powers,
/// as long as these add up to at most `2^53` of that power.
///
/// The errors are `n[i]` times `2^t` units of binary64, of which `2^1074` make up
/// 1, so that for whole numbers `t` is 1074.
pub proof fn law_mse(
    r: CompressionStats,
    data: Seq<Binary32>,
    method: QuantMethod,
    n: Seq<nat>,
    t: nat,
)
    requires
        r.measures(data, method),
        0 < data.len() <= 0x20_0000_0000_0000,
        n.len() == data.len(),
        537 <= t <= 1300,
        whole_sum(second_powers(n)) <= 0x20_0000_0000_0000,
        forall|i: int|
            0 <= i < data.len() ==> {
                let back = reconstructed(data, method)[i];
                (#[trigger] data[i]).finite() && back.finite() && distance(data[i], back) * pow2(
                    925,
                ) == n[i] * pow2(t)
            },
    ensures
        r.mse.finite(),
        !r.mse.parts().neg,
        Format::Double.is_nearest(
            r.mse.parts().code as nat,
            whole_sum(second_powers(n)) * pow2((2 * t - 1074) as nat),
            data.len(),
        ),
{
    let restored = reconstructed(data, method);
    let e = errors(data, restored);
    let k = (2 * t - 1074) as nat;
    let q = squares(e);
    let m = second_powers(n);
    assert forall|i: int| 0 <= i < q.len() implies (#[trigger] q[i]).finite()
        && !q[i].parts().neg && q[i].units() == m[i] * pow2(k) by {
        lemma_at_most_sum(m, i);
        assert(m[i] == n[i] * n[i]);
        assert(n[i] <= n[i] * n[i]) by (nonlinear_arith);
        assert(data[i].finite());
        lemma_exact_error(data[i], restored[i], n[i], t);
        lemma_exact_square(e[i], n[i], t);
    }
    lemma_exact_total(q, m, k);
    lemma_mean(total(q), data.len());
}

/// Where the numbers move by multiples of one power of two, the mean error is the
/// binary64 number nearest to the exact mean, as long as the errors add up to at
/// most `2^53` of that power.
pub proof fn law_mean_error(
    r: CompressionStats,
    data: Seq<Binary32>,
    method: QuantMethod,
    n: Seq<nat>,
    t: nat,
)
    requires
        r.measures(data, method),
        0 < data.len() <= 0x20_0000_0000_0000,
        n.len() == data.len(),
        t <= 1300,
        whole_sum(n) <= 0x20_0000_0000_0000,
        forall|i: int|
            0 <= i < data.len() ==> {
                let back = reconstructed(data, method)[i];
                (#[trigger] data[i]).finite() && back.finite() && distance(data[i], back) * pow2(
                    925,
                ) == n[i] * pow2(t)
            },
    ensures
        r.mean_error.finite(),
        !r.mean_error.parts().neg,
        Format::Double.is_nearest(
            r.mean_error.parts().code as nat,
            whole_sum(n) * pow2(t),
            data.len(),
        ),
{
    let restored = reconstructed(data, method);
    let e = errors(data, restored);
    assert forall|i: int| 0 <= i < e.len() implies (#[trigger] e[i]).finite()
        && !e[i].parts().neg && e[i].units() == n[i] * pow2(t) by {
        lemma_at_most_sum(n, i);
        assert(data[i].finite());
        lemma_exact_error(data[i], restored[i], n[i], t);
    }
    lemma_exact_total(e, n, t);
    lemma_mean(total(e), data.len());
}

/// A sum of numbers that are not negative is off by at most one part in `2^53`.
proof fn lemma_sum_error(a: Binary64, b: Binary64)
    requires
        a.finite(),
        b.finite(),
        !a.parts().neg,
        !b.parts().neg,
        a.units() + b.units() <= pow2(1901),
    ensures
        a.sum(b).finite(),
        !a.sum(b).parts().neg,
        0x20_0000_0000_0000 * arith::magnitude(a.sum(b).units() - (a.units() + b.units()))
            <= a.units() + b.units(),
{
    let f = Format::Double;
    let x = a.units() + b.units();
    let r = a.sum(b);
    lemma2_to64();
    lemma2_to64_rest();
    round::lemma_format_powers(f);
    round::lemma_units_zero(f);
    laws::law_sum(a, b, 0);
    r.lemma_parts(arith::sum(f, a.parts(), b.parts()));
    let code = r.parts().code as nat;
    formats::lemma_nearest_is(f, code, x, 1);
    let top = laws::lemma_representable(f, 1, 1901);
    assert(1 * pow2(1901) == pow2(1901) && f.units(top) * 1 == f.units(top));
    laws::lemma_bounded(f, x, 1, top);
    assert(!r.parts().neg);
    if x < 0x20_0000_0000_0000 {
        let c = laws::lemma_representable(f, x, 0);
        assert(x * pow2(0) == x && f.units(c) * 1 == f.units(c));
        formats::lemma_nearest_exact(f, c, 1);
    } else {
        formats::lemma_grid_join(pow2(52), 0, 52);
        lemma_pow2_unfold(53);
        assert(0 * pow2(52) == 0 && pow2(52) * 1 == pow2(52));
        assert(f.units(pow2(52)) * 1 == f.units(pow2(52)));
        laws::law_relative_error(f, x, 1, code);
        assert(r.units() * 1 == r.units());
    }
}

/// Adding up `k` numbers that are not negative costs at most `k` parts in `2^52`.
proof fn lemma_total_error(s: Seq<Binary64>, w: Seq<nat>)
    requires
        s.len() == w.len(),
        s.len() <= 0x8_0000_0000_0000,
        whole_sum(w) <= pow2(1900),
        forall|i: int|
            0 <= i < s.len() ==> (#[trigger] s[i]).finite() && !s[i].parts().neg && s[i].units()
                == w[i],
    ensures
        total(s).finite(),
        !total(s).parts().neg,
        0x10_0000_0000_0000 * arith::magnitude(total(s).units() - whole_sum(w)) <= s.len()
            * whole_sum(w),
    decreases s.len(),
{
    lemma_zero();
    if s.len() > 0 {
        let rest = s.drop_last();
        let v = w.drop_last();
        assert forall|i: int| 0 <= i < rest.len() implies (#[trigger] rest[i]).finite()
            && !rest[i].parts().neg && rest[i].units() == v[i] by {
            assert(rest[i] == s[i]);
        }
        lemma_total_error(rest, v);
        let a = total(rest);
        let b = s.last();
        assert(s[s.len() - 1] == b);
        let t = a.units() as int;
        let x = b.units() as int;
        let y = whole_sum(v) as int;
        let k = rest.len() as int;
        let big: int = 0x10_0000_0000_0000;
        assert(2 * (k * y) <= big * y) by (nonlinear_arith)
            requires
                2 * k <= big,
                y >= 0,
        ;
        assert(2 * t <= 3 * y);
        lemma_pow2_unfold(1901);
        lemma_sum_error(a, b);
        let z = a.sum(b).units() as int;
        assert((k + 1) * (y + x) == k * y + k * x + y + x) by (nonlinear_arith);
        assert(k * x >= 0) by (nonlinear_arith)
            requires
                k >= 0,
                x >= 0,
        ;
        assert(-(t + x) <= 2 * big * (z - (t + x)) <= t + x);
        assert(-(k * y) <= big * (t - y) <= k * y);
        assert(2 * big * (z - (y + x)) == 2 * big * (z - (t + x)) + 2 * (big * (t - y)));
    } else {
        assert(s.len() * whole_sum(w) == 0) by (nonlinear_arith)
            requires
                s.len() == 0,
        ;
    }
}

/// The sum of numbers that are all zero or at least `low`.
proof fn lemma_sum_range(s: Seq<nat>, low: nat, high: nat)
    requires
        forall|i: int| 0 <= i < s.len() ==> #[trigger] s[i] == 0 || low <= s[i],
        forall|i: int| 0 <= i < s.len() ==> #[trigger] s[i] <= high,
    ensures
        whole_sum(s) == 0 || whole_sum(s) >= low,
        whole_sum(s) <= s.len() * high,
    decreases s.len(),
{
    if s.len() > 0 {
        let rest = s.drop_last();
        assert forall|i: int| 0 <= i < rest.len() implies #[trigger] rest[i] == 0 || low
            <= rest[i] by {
            assert(rest[i] == s[i]);
        }
        assert forall|i: int| 0 <= i < rest.len() implies #[trigger] rest[i] <= high by {
            assert(rest[i] == s[i]);
        }
        lemma_sum_range(rest, low, high);
        assert(s[s.len() - 1] == s.last());
        assert(s.len() * high == rest.len() * high + high) by (nonlinear_arith)
            requires
                s.len() == rest.len() + 1,
        ;
    }
}

/// Squares that are each off by at most one part in `2^53` are so in all.
proof fn lemma_sum_of_squares(q: Seq<nat>, u: Seq<nat>, one: nat)
    requires
        q.len() == u.len(),
        forall|i: int|
            0 <= i < q.len() ==> 0x20_0000_0000_0000 * arith::magnitude(
                #[trigger] q[i] * one - u[i] * u[i],
            ) <= u[i] * u[i],
    ensures
        0x20_0000_0000_0000 * arith::magnitude(
            whole_sum(q) * one - whole_sum(second_powers(u)),
        ) <= whole_sum(second_powers(u)),
    decreases q.len(),
{
    if q.len() > 0 {
        let p = q.drop_last();
        let v = u.drop_last();
        assert forall|i: int| 0 <= i < p.len() implies 0x20_0000_0000_0000 * arith::magnitude(
            #[trigger] p[i] * one - v[i] * v[i],
        ) <= v[i] * v[i] by {
            assert(p[i] == q[i] && v[i] == u[i]);
        }
        lemma_sum_of_squares(p, v, one);
        assert(second_powers(u).drop_last() =~= second_powers(v));
        let x = q.last();
        let y = u.last();
        assert(q[q.len() - 1] == x && u[q.len() - 1] == y);
        assert(second_powers(u).last() == y * y);
        assert(whole_sum(q) * one == whole_sum(p) * one + x * one) by (nonlinear_arith)
            requires
                whole_sum(q) == whole_sum(p) + x,
        ;
    } else {
        assert(0 * one == 0);
    }
}

/// A mean is off by at most one part in `2^53` of what it is the mean of.
proof fn lemma_mean_error(a: Binary64, n: nat)
    requires
        a.finite(),
        !a.parts().neg,
        a.units() == 0 || a.units() >= pow2(700),
        0 < n <= 0x8_0000_0000_0000,
    ensures
        ({
            let r = a.quotient(Binary64::of_integer(n));
            &&& r.finite()
            &&& !r.parts().neg
            &&& 0x20_0000_0000_0000 * arith::magnitude(r.units() * n - a.units()) <= a.units()
        }),
{
    let f = Format::Double;
    lemma_mean(a, n);
    let r = a.quotient(Binary64::of_integer(n));
    let code = r.parts().code as nat;
    lemma2_to64();
    lemma2_to64_rest();
    round::lemma_format_powers(f);
    if a.units() > 0 {
        formats::lemma_grid_join(pow2(52), 0, 52);
        lemma_pow2_unfold(53);
        assert(0 * pow2(52) == 0 && pow2(52) * 1 == pow2(52));
        lemma_pow2_adds(52, 53);
        arith::lemma_pow2_order_le(105, 700);
        assert(a.units() >= pow2(52) * n) by (nonlinear_arith)
            requires
                a.units() >= pow2(52) * pow2(53),
                n <= pow2(53),
        ;
        laws::law_relative_error(f, a.units(), n, code);
    } else {
        assert(0 * n == 0);
        assert(r.units() == 0);
        assert(r.units() * n == 0) by (nonlinear_arith)
            requires
                r.units() == 0,
        ;
    }
}

/// A total of numbers that are zero or at least `low` is itself zero or no less
/// than half of that.
proof fn lemma_total_low(t: nat, w: nat, n: nat, low: nat)
    requires
        n <= 0x8_0000_0000_0000,
        0x10_0000_0000_0000 * arith::magnitude(t - w) <= n * w,
        w == 0 || w >= 2 * low,
    ensures
        t == 0 || t >= low,
        2 * t <= 3 * w,
        w > 0 && low > 0 ==> t > 0,
{
    assert(2 * (n * w) <= 0x10_0000_0000_0000 * w) by (nonlinear_arith)
        requires
            n <= 0x8_0000_0000_0000,
    ;
}

/// Of finite numbers that come back finite, however many up to `2^51`: the mean
/// squared error times their number is the sum of the second powers of the
/// errors, and the mean error times their number the sum of the errors, but for
/// rounding, which costs no more than one part in `2^52` for each number and two
/// beyond that.
pub proof fn law_means_are_close(r: CompressionStats, data: Seq<Binary32>, method: QuantMethod)
    requires
        r.measures(data, method),
        0 < data.len() <= 0x8_0000_0000_0000,
        forall|i: int|
            0 <= i < data.len() ==> (#[trigger] data[i]).finite() && reconstructed(
                data,
                method,
            )[i].finite(),
    ensures
        ({
            let n = data.len();
            let u = error_units(data, reconstructed(data, method));
            let second = whole_sum(second_powers(u));
            let first = whole_sum(u);
            &&& r.mse.finite() && !r.mse.parts().neg
            &&& r.mean_error.finite() && !r.mean_error.parts().neg
            &&& 0x10_0000_0000_0000 * arith::magnitude((r.mse.units() * n) * pow2(1074) - second)
                <= (n + 2) * second
            &&& 0x10_0000_0000_0000 * arith::magnitude(r.mean_error.units() * n - first) <= (n + 2)
                * first
        }),
{
    let n = data.len();
    let one = pow2(1074);
    let restored = reconstructed(data, method);
    let e = errors(data, restored);
    let q = squares(e);
    let u = error_units(data, restored);
    let w = Seq::new(n, |i: int| q[i].units());
    lemma_pow2_pos(1074);
    lemma_pow2_pos(700);
    lemma2_to64();
    lemma2_to64_rest();
    assert forall|i: int| 0 <= i < n implies {
        &&& (#[trigger] e[i]).finite()
        &&& !e[i].parts().neg
        &&& e[i].units() == u[i]
        &&& u[i] <= pow2(1203)
        &&& u[i] == 0 || pow2(925) <= u[i]
    } by {
        assert(data[i].finite());
        law_error(data[i], restored[i]);
    }
    assert forall|i: int| 0 <= i < n implies {
        &&& (#[trigger] q[i]).finite()
        &&& !q[i].parts().neg
        &&& q[i].units() == w[i]
        &&& w[i] <= pow2(1332)
        &&& w[i] == 0 || pow2(776) <= w[i]
        &&& 0x20_0000_0000_0000 * arith::magnitude(w[i] * one - u[i] * u[i]) <= u[i] * u[i]
    } by {
        assert(e[i].finite());
        lemma_square(e[i]);
    }
    assert forall|i: int| 0 <= i < u.len() implies #[trigger] u[i] == 0 || pow2(925) <= u[i] by {
        assert(e[i].finite());
    }
    assert forall|i: int| 0 <= i < u.len() implies #[trigger] u[i] <= pow2(1203) by {
        assert(e[i].finite());
    }
    assert forall|i: int| 0 <= i < w.len() implies #[trigger] w[i] == 0 || pow2(776) <= w[i] by {
        assert(q[i].finite());
    }
    assert forall|i: int| 0 <= i < w.len() implies #[trigger] w[i] <= pow2(1332) by {
        assert(q[i].finite());
    }
    assert forall|i: int| 0 <= i < w.len() implies 0x20_0000_0000_0000 * arith::magnitude(
        #[trigger] w[i] * one - u[i] * u[i],
    ) <= u[i] * u[i] by {
        assert(q[i].finite());
    }
    lemma_sum_range(u, pow2(925), pow2(1203));
    lemma_sum_range(w, pow2(776), pow2(1332));
    let first = whole_sum(u);
    let second = whole_sum(second_powers(u));
    let ws = whole_sum(w);
    lemma_pow2_adds(51, 1203);
    lemma_pow2_adds(51, 1332);
    arith::lemma_pow2_order_le(1254, 1900);
    arith::lemma_pow2_order_le(1383, 1900);
    assert(n * pow2(1203) <= pow2(51) * pow2(1203) && n * pow2(1332) <= pow2(51) * pow2(1332))
        by (nonlinear_arith)
        requires
            n <= pow2(51),
    ;
    lemma_total_error(e, u);
    lemma_total_error(q, w);
    lemma_sum_of_squares(w, u, one);
    lemma_pow2_unfold(701);
    arith::lemma_pow2_order_le(701, 776);
    arith::lemma_pow2_order_le(701, 925);
    let te = total(e).units();
    let tq = total(q).units();
    lemma_total_low(te, first, n, pow2(700));
    lemma_total_low(tq, ws, n, pow2(700));
    lemma_mean_error(total(e), n);
    lemma_mean_error(total(q), n);
    let big: int = 0x10_0000_0000_0000;
    // The mean error.
    let m = r.mean_error.units() * n;
    assert(-(te as int) <= 2 * big * (m - te) <= te);
    assert((n + 2) * first == n * first + 2 * first) by (nonlinear_arith);
    // The mean squared error.
    let s = r.mse.units() * n;
    lemma_mse_error(s as int, tq as int, ws as int, second as int, n as int, one as int);
}

/// The three roundings of a mean squared error together.
proof fn lemma_mse_error(s: int, t: int, w: int, d: int, n: int, one: int)
    requires
        one > 0,
        w >= 0,
        t >= 0,
        d >= 0,
        0 < n <= 0x8_0000_0000_0000,
        -t <= 0x20_0000_0000_0000 * (s - t) <= t,
        -(n * w) <= 0x10_0000_0000_0000 * (t - w) <= n * w,
        2 * t <= 3 * w,
        -d <= 0x20_0000_0000_0000 * (w * one - d) <= d,
    ensures
        -((n + 2) * d) <= 0x10_0000_0000_0000 * (s * one - d) <= (n + 2) * d,
{
    let big: int = 0x10_0000_0000_0000;
    let wo = w * one;
    let to = t * one;
    let so = s * one;
    let nw = n * w;
    assert(-to <= 2 * big * (so - to) <= to && -(nw * one) <= big * (to - wo) <= nw * one && 2 * to
        <= 3 * wo) by (nonlinear_arith)
        requires
            big == 0x10_0000_0000_0000,
            one > 0,
            -t <= 2 * big * (s - t) <= t,
            -nw <= big * (t - w) <= nw,
            2 * t <= 3 * w,
            to == t * one,
            so == s * one,
            wo == w * one,
    {
        assert((2 * big * (s - t)) * one == 2 * big * (so - to));
        assert((big * (t - w)) * one == big * (to - wo));
    }
    assert(nw * one == n * wo) by (nonlinear_arith)
        requires
            nw == n * w,
            wo == w * one,
    ;
    // `n * wo` against `n * d`.
    let x = wo - d;
    assert(n * wo == n * d + n * x) by (nonlinear_arith)
        requires
            x == wo - d,
    ;
    assert(4 * (n * x) <= d) by (nonlinear_arith)
        requires
            0x20_0000_0000_0000 * x <= d,
            0 < n <= 0x8_0000_0000_0000,
            d >= 0,
    ;
    assert((n + 2) * d == n * d + 2 * d) by (nonlinear_arith);
    assert(big * (so - d) == big * (so - to) + big * (to - wo) + big * (wo - d));
}

/// A NaN among the numbers makes their total NaN.
proof fn lemma_nan_total(s: Seq<Binary64>, i: int)
    requires
        0 <= i < s.len(),
        s[i].nan(),
    ensures
        total(s).nan(),
    decreases s.len(),
{
    let a = total(s.drop_last());
    let b = s.last();
    if i < s.len() - 1 {
        assert(s.drop_last()[i] == s[i]);
        lemma_nan_total(s.drop_last(), i);
    }
    a.sum(b).lemma_parts(arith::sum(Format::Double, a.parts(), b.parts()));
}

/// An error that is NaN makes both means NaN.
pub proof fn law_nan_errors(
    r: CompressionStats,
    data: Seq<Binary32>,
    method: QuantMethod,
    i: int,
)
    requires
        r.measures(data, method),
        0 <= i < data.len(),
        error(data[i], reconstructed(data, method)[i]).nan(),
    ensures
        r.mse.nan(),
        r.mean_error.nan(),
{
    let f = Format::Double;
    let e = errors(data, reconstructed(data, method));
    let q = squares(e);
    let n = Binary64::of_integer(data.len());
    e[i].product(e[i]).lemma_parts(arith::product(f, e[i].parts(), e[i].parts()));
    lemma_nan_total(e, i);
    lemma_nan_total(q, i);
    total(e).quotient(n).lemma_parts(arith::quotient(f, total(e).parts(), n.parts()));
    total(q).quotient(n).lemma_parts(arith::quotient(f, total(q).parts(), n.parts()));
}

/// Numbers that are neither NaN nor negative add up to such a number, which is
/// infinite if one of them is.
proof fn lemma_infinite_total(s: Seq<Binary64>)
    requires
        forall|i: int| 0 <= i < s.len() ==> !(#[trigger] s[i]).nan() && !s[i].parts().neg,
    ensures
        !total(s).nan(),
        !total(s).parts().neg,
        forall|i: int| 0 <= i < s.len() && (#[trigger] s[i]).infinite() ==> total(s).infinite(),
    decreases s.len(),
{
    lemma_zero();
    if s.len() > 0 {
        let f = Format::Double;
        let rest = s.drop_last();
        let a = total(rest);
        let b = s.last();
        assert(s[s.len() - 1] == b);
        assert forall|i: int| 0 <= i < rest.len() implies !(#[trigger] rest[i]).nan()
            && !rest[i].parts().neg by {
            assert(rest[i] == s[i]);
        }
        lemma_infinite_total(rest);
        round::lemma_units_zero(f);
        if a.finite() && b.finite() {
            laws::law_sum(a, b, 0);
        }
        a.sum(b).lemma_parts(arith::sum(f, a.parts(), b.parts()));
        assert forall|i: int| 0 <= i < s.len() && (#[trigger] s[i]).infinite() implies total(
            s,
        ).infinite() by {
            if i < rest.len() {
                assert(rest[i] == s[i]);
            }
        }
    }
}

/// An infinite error makes all three errors infinite, unless another is NaN.
pub proof fn law_infinite_errors(
    r: CompressionStats,
    data: Seq<Binary32>,
    method: QuantMethod,
    i: int,
)
    requires
        r.measures(data, method),
        0 <= i < data.len() <= u64::MAX,
        error(data[i], reconstructed(data, method)[i]).infinite(),
        forall|j: int|
            0 <= j < data.len() ==> !error(
                #[trigger] data[j],
                reconstructed(data, method)[j],
            ).nan(),
    ensures
        r.mse.infinite() && !r.mse.parts().neg,
        r.mean_error.infinite() && !r.mean_error.parts().neg,
        r.max_error.infinite() && !r.max_error.parts().neg,
{
    let f = Format::Double;
    let restored = reconstructed(data, method);
    let e = errors(data, restored);
    let q = squares(e);
    let n = Binary64::of_integer(data.len());
    laws::law_doubled(data.len());
    round::lemma_units_zero(f);
    assert forall|j: int| 0 <= j < e.len() implies !(#[trigger] e[j]).nan() && !e[j].parts().neg by {
        assert(data[j] == data[j]);
        let d = data[j].widened().difference(restored[j].widened());
        e[j].lemma_parts(Parts { neg: false, ..d.parts() });
        d.lemma_parts(d.parts());
    }
    assert forall|j: int| 0 <= j < q.len() implies !(#[trigger] q[j]).nan() && !q[j].parts().neg by {
        assert(!e[j].nan());
        if e[j].finite() {
            laws::law_product(e[j], e[j], 0);
        }
        q[j].lemma_parts(arith::product(f, e[j].parts(), e[j].parts()));
    }
    assert(e[i].infinite());
    q[i].lemma_parts(arith::product(f, e[i].parts(), e[i].parts()));
    assert(q[i].infinite());
    lemma_infinite_total(e);
    lemma_infinite_total(q);
    total(e).quotient(n).lemma_parts(arith::quotient(f, total(e).parts(), n.parts()));
    total(q).quotient(n).lemma_parts(arith::quotient(f, total(q).parts(), n.parts()));
    // The largest.
    law_measured_max(r, data, method);
    assert(!r.max_error.below(error(data[i], restored[i])));
    let m = r.max_error.parts().code as nat;
    if m < f.infinity() {
        formats::lemma_units_increasing(f, m, f.infinity());
    }
    if r.max_error.parts().code != 0 {
        let k = choose|k: int|
            0 <= k < data.len() && r.max_error == error(#[trigger] data[k], restored[k]);
        assert(!e[k].parts().neg);
    }
    formats::lemma_units_increasing(f, 0, f.infinity());
}

/// What is nearest to a number in the middle of the range, and to twice that.
proof fn lemma_twice(a: Binary64, b: Binary64, num: nat, den: nat)
    requires
        0 < den <= 0x20_0000_0000_0000,
        pow2(700) <= num <= pow2(1700),
        a.finite(),
        b.finite(),
        Format::Double.is_nearest(a.parts().code as nat, num, den),
        Format::Double.is_nearest(b.parts().code as nat, 2 * num, den),
    ensures
        b.units() == 2 * a.units(),
{
    let f = Format::Double;
    let p = pow2(52);
    let c = a.parts().code as nat;
    lemma2_to64();
    lemma2_to64_rest();
    round::lemma_format_powers(f);
    formats::lemma_nearest_is(f, c, num, den);
    formats::lemma_nearest_is(f, b.parts().code as nat, 2 * num, den);
    // Normal.
    formats::lemma_grid_join(p, 1, 52);
    lemma_pow2_unfold(53);
    let low = 1 * p + p;
    assert(pow2(1) == 2 && p * 2 == pow2(53));
    assert(formats::significand(low, 52) == p && formats::grid(low, 52) == 1);
    assert(f.units(low) == pow2(53));
    lemma_pow2_adds(53, 53);
    arith::lemma_pow2_order_le(106, 700);
    assert(f.units(low) * den <= num) by (nonlinear_arith)
        requires
            f.units(low) == pow2(53),
            den <= pow2(53),
            pow2(53) * pow2(53) <= num,
    ;
    laws::law_nearest_monotone(f, f.units(low) * den, num, den);
    formats::lemma_nearest_exact(f, low, den);
    // Far from infinity.
    formats::lemma_grid_join(p, 1999, 52);
    let high = 1999 * p + p;
    lemma_pow2_adds(52, 1999);
    arith::lemma_pow2_order_le(1700, 2051);
    assert(num <= f.units(high) * den) by (nonlinear_arith)
        requires
            num <= f.units(high),
            den > 0,
    ;
    laws::lemma_bounded(f, num, den, high);
    laws::lemma_doubled_code(c, num, den);
}

/// Twice the errors give twice the mean error and four times the mean squared
/// error.
pub proof fn law_twice_the_errors(
    r: CompressionStats,
    data: Seq<Binary32>,
    method: QuantMethod,
    s: CompressionStats,
    other: Seq<Binary32>,
    other_method: QuantMethod,
    n: Seq<nat>,
    t: nat,
)
    requires
        r.measures(data, method),
        s.measures(other, other_method),
        0 < data.len() <= 0x20_0000_0000_0000,
        n.len() == data.len() == other.len(),
        925 <= t <= 1250,
        whole_sum(n) <= 0x20_0000_0000_0000,
        whole_sum(second_powers(n)) <= 0x20_0000_0000_0000,
        forall|i: int|
            0 <= i < data.len() ==> {
                let back = reconstructed(data, method)[i];
                (#[trigger] data[i]).finite() && back.finite() && distance(data[i], back) * pow2(
                    925,
                ) == n[i] * pow2(t)
            },
        forall|i: int|
            0 <= i < data.len() ==> {
                let back = reconstructed(other, other_method)[i];
                (#[trigger] other[i]).finite() && back.finite() && distance(other[i], back)
                    == 2 * distance(data[i], reconstructed(data, method)[i])
            },
    ensures
        s.mean_error.units() == 2 * r.mean_error.units(),
        s.mse.units() == 4 * r.mse.units(),
{
    let f = Format::Double;
    let len = data.len();
    lemma_pow2_unfold(t + 1);
    assert forall|i: int| 0 <= i < len implies {
        let back = reconstructed(other, other_method)[i];
        (#[trigger] other[i]).finite() && back.finite() && distance(other[i], back) * pow2(925)
            == n[i] * pow2(t + 1)
    } by {
        let d = distance(data[i], reconstructed(data, method)[i]);
        assert(data[i].finite());
        assert((2 * d) * pow2(925) == n[i] * (2 * pow2(t))) by (nonlinear_arith)
            requires
                d * pow2(925) == n[i] * pow2(t),
        ;
    }
    law_mse(r, data, method, n, t);
    law_mse(s, other, other_method, n, t + 1);
    law_mean_error(r, data, method, n, t);
    law_mean_error(s, other, other_method, n, t + 1);
    let k = (2 * t - 1074) as nat;
    let a = whole_sum(n);
    let b = whole_sum(second_powers(n));
    assert((2 * (t + 1) - 1074) as nat == k + 2);
    lemma_pow2_unfold(k + 1);
    lemma_pow2_unfold(k + 2);
    assert(a * (2 * pow2(t)) == 2 * (a * pow2(t))) by (nonlinear_arith);
    assert(b * (2 * pow2(k)) == 2 * (b * pow2(k)) && b * (2 * (2 * pow2(k))) == 2 * (2 * (b * pow2(
        k,
    )))) by (nonlinear_arith);
    round::lemma_units_zero(f);
    lemma_in_range(a, t);
    lemma_in_range(b, k);
    lemma_in_range(b, k + 1);
    if a > 0 {
        lemma_twice(r.mean_error, s.mean_error, a * pow2(t), len);
    } else {
        lemma_nothing(r.mean_error, len);
        lemma_nothing(s.mean_error, len);
    }
    if b > 0 {
        let mid = f.nearest(2 * (b * pow2(k)), len);
        laws::law_nearest_exists(f, 2 * (b * pow2(k)), len);
        let m = Binary64::of(Parts { neg: false, code: mid as u64 });
        m.lemma_parts(Parts { neg: false, code: mid as u64 });
        lemma_finite_mid(b, k + 1, len);
        lemma_twice(r.mse, m, b * pow2(k), len);
        lemma_twice(m, s.mse, b * pow2(k + 1), len);
    } else {
        lemma_nothing(r.mse, len);
        lemma_nothing(s.mse, len);
    }
}

proof fn lemma_in_range(n: nat, t: nat)
    requires
        n <= 0x20_0000_0000_0000,
        700 <= t <= 1600,
    ensures
        n > 0 ==> pow2(700) <= n * pow2(t),
        n * pow2(t) <= pow2(1700),
        n == 0 ==> n * pow2(t) == 0,
{
    lemma2_to64_rest();
    arith::lemma_pow2_order_le(700, t);
    lemma_pow2_adds(53, t);
    arith::lemma_pow2_order_le(53 + t, 1700);
    assert((n > 0 ==> pow2(t) <= n * pow2(t)) && n * pow2(t) <= pow2(53) * pow2(t) && (n == 0 ==> n
        * pow2(t) == 0)) by (nonlinear_arith)
        requires
            n <= pow2(53),
    ;
}

proof fn lemma_finite_mid(n: nat, t: nat, den: nat)
    requires
        n <= 0x20_0000_0000_0000,
        t <= 1600,
        den > 0,
    ensures
        Format::Double.nearest(n * pow2(t), den) < Format::Double.infinity(),
{
    let code = lemma_grid_number(n, t);
    assert(n * pow2(t) <= (n * pow2(t)) * den) by (nonlinear_arith)
        requires
            den > 0,
    ;
    laws::lemma_bounded(Format::Double, n * pow2(t), den, code);
}

proof fn lemma_nothing(a: Binary64, den: nat)
    requires
        den > 0,
        Format::Double.is_nearest(a.parts().code as nat, 0, den),
    ensures
        a.units() == 0,
{
    let f = Format::Double;
    round::lemma_units_zero(f);
    formats::lemma_nearest_exact(f, 0, den);
    assert(0 * den == 0);
    formats::lemma_nearest_is(f, a.parts().code as nat, 0, den);
}

/// What is measured is what quantization and dequantization give, one after the
/// other: with FP16 number by number, with FP8 byte by byte, and with INT4 in
/// groups of 32.
pub proof fn law_measured_round_trip(
    data: Seq<Binary32>,
    halves: Seq<Binary16>,
    bytes: Seq<u8>,
    packed: Int4Packed,
    i: int,
)
    requires
        halves.len() == data.len(),
        bytes.len() == data.len(),
        forall|k: int| 0 <= k < data.len() ==> #[trigger] halves[k] == data[k].narrowed(),
        forall|k: int| 0 <= k < data.len() ==> #[trigger] bytes[k] == fp8::encoded(data[k]),
        packed.is_quantized(data, 32),
        0 <= i < data.len(),
    ensures
        reconstructed(data, QuantMethod::FP16).len() == data.len(),
        reconstructed(data, QuantMethod::FP16)[i] == halves[i].widened(),
        reconstructed(data, QuantMethod::FP8E4M3).len() == data.len(),
        reconstructed(data, QuantMethod::FP8E4M3)[i] == fp8::decoded(bytes[i]),
        reconstructed(data, QuantMethod::INT4) == packed.restored_numbers(),
        compressed_size(data.len(), QuantMethod::FP16) == 2 * halves.len(),
        compressed_size(data.len(), QuantMethod::FP8E4M3) == bytes.len(),
        compressed_size(data.len(), QuantMethod::INT4) == packed.data@.len() + 2
            * packed.scales@.len(),
{
    int4::law_int4_round_trip(packed, data, 32);
    int4::law_int4_size(packed, data, 32);
    assert(reconstructed(data, QuantMethod::INT4) =~= packed.restored_numbers());
}

/// Zeros at the end of the numbers add nothing to their total.
proof fn lemma_zero_tail(s: Seq<Binary64>, j: int)
    requires
        0 <= j <= s.len(),
        total(s.take(j)).finite(),
        !total(s.take(j)).parts().neg,
        forall|i: int|
            j <= i < s.len() ==> (#[trigger] s[i]).parts().code == 0 && !s[i].parts().neg,
    ensures
        total(s) == total(s.take(j)),
    decreases s.len(),
{
    if j == s.len() {
        assert(s.take(j) =~= s);
    } else {
        let f = Format::Double;
        let rest = s.drop_last();
        assert(rest.take(j) =~= s.take(j));
        assert forall|i: int| j <= i < rest.len() implies (#[trigger] rest[i]).parts().code == 0
            && !rest[i].parts().neg by {
            assert(rest[i] == s[i]);
        }
        lemma_zero_tail(rest, j);
        let a = total(rest);
        let b = s.last();
        assert(s[s.len() - 1] == b);
        round::lemma_units_zero(f);
        formats::lemma_nearest_exact(f, a.parts().code as nat, 1);
        assert(a.units() * 1 == a.units());
        if a.parts().code > 0 {
            formats::lemma_units_increasing(f, 0, a.parts().code as nat);
        }
        a.lemma_parts(arith::sum(f, a.parts(), b.parts()));
    }
}

/// The mean of a total in the middle of the range, over a power of two, is exact.
proof fn lemma_exact_mean(a: Binary64, k: nat)
    requires
        a.finite(),
        !a.parts().neg,
        k <= 51,
        a.units() == 0 || a.units() >= pow2(700),
        a.units() <= pow2(1902),
    ensures
        a.quotient(Binary64::of_integer(pow2(k))).units() * pow2(k) == a.units(),
{
    let f = Format::Double;
    let code = a.parts().code as nat;
    let m = formats::significand(code, 52);
    let t = formats::grid(code, 52);
    lemma2_to64_rest();
    lemma_pow2_pos(k);
    formats::lemma_grid_split(code, 52);
    if a.units() == 0 {
        assert(0 * pow2(53) == 0);
        laws::lemma_exact_quotient(a, 0, 53, k);
        assert(0 * pow2((53 - k) as nat) == 0);
        assert(0 * pow2(k) == 0);
    } else {
        if t < 53 {
            lemma_pow2_adds(53, t);
            arith::lemma_pow2_order_le(53 + t, 700);
            lemma_pow2_pos(t);
            assert(m * pow2(t) < pow2(53) * pow2(t)) by (nonlinear_arith)
                requires
                    m < pow2(53),
                    pow2(t) > 0,
            ;
        }
        if t >= 2000 {
            lemma_pow2_adds(52, t);
            lemma_pow2_strictly_increases(1902, 52 + t);
            assert(m * pow2(t) >= pow2(52) * pow2(t)) by (nonlinear_arith)
                requires
                    m >= pow2(52),
            ;
        }
        laws::lemma_exact_quotient(a, m, t, k);
        lemma_pow2_adds(k, (t - k) as nat);
        let x = pow2((t - k) as nat);
        assert((m * x) * pow2(k) == m * (pow2(k) * x)) by (nonlinear_arith);
    }
}

/// The range of the total of the first numbers.
proof fn lemma_total_range(s: Seq<Binary64>, low: nat, high: nat)
    requires
        s.len() <= 0x8_0000_0000_0000,
        pow2(701) <= low,
        high <= pow2(1400),
        forall|i: int|
            0 <= i < s.len() ==> (#[trigger] s[i]).finite() && !s[i].parts().neg && (s[i].units()
                == 0 || low <= s[i].units()) && s[i].units() <= high,
    ensures
        total(s).finite(),
        !total(s).parts().neg,
        total(s).units() == 0 || total(s).units() >= pow2(700),
        total(s).units() <= pow2(1901),
{
    let w = Seq::new(s.len(), |i: int| s[i].units());
    assert forall|i: int| 0 <= i < w.len() implies #[trigger] w[i] == 0 || low <= w[i] by {
        assert(s[i].finite());
    }
    assert forall|i: int| 0 <= i < w.len() implies #[trigger] w[i] <= high by {
        assert(s[i].finite());
    }
    lemma_sum_range(w, low, high);
    lemma2_to64_rest();
    lemma_pow2_adds(51, 1400);
    arith::lemma_pow2_order_le(1451, 1900);
    assert(s.len() * high <= pow2(51) * pow2(1400)) by (nonlinear_arith)
        requires
            s.len() <= pow2(51),
            high <= pow2(1400),
    ;
    lemma_total_error(s, w);
    lemma_pow2_unfold(701);
    lemma_pow2_unfold(1901);
    lemma_total_low(total(s).units(), whole_sum(w), s.len(), pow2(700));
}

/// The errors are added up one after the other, each time rounded once: where two
/// round trips of as many numbers differ only in one error, which is zero in the
/// first, and no error follows it, the total in the second is the binary64 number
/// nearest to the total in the first and the error, or its square. For a power of
/// two of numbers, the totals are the means times the number.
pub proof fn law_errors_add_up_in_order(
    r: CompressionStats,
    data: Seq<Binary32>,
    method: QuantMethod,
    s: CompressionStats,
    other: Seq<Binary32>,
    other_method: QuantMethod,
    k: nat,
    j: int,
)
    requires
        r.measures(data, method),
        s.measures(other, other_method),
        k <= 51,
        data.len() == pow2(k),
        other.len() == pow2(k),
        0 <= j < data.len(),
        forall|i: int|
            0 <= i < data.len() ==> (#[trigger] data[i]).finite() && reconstructed(
                data,
                method,
            )[i].finite(),
        forall|i: int|
            0 <= i < other.len() ==> (#[trigger] other[i]).finite() && reconstructed(
                other,
                other_method,
            )[i].finite(),
        forall|i: int|
            0 <= i < j ==> distance(#[trigger] data[i], reconstructed(data, method)[i]) == distance(
                other[i],
                reconstructed(other, other_method)[i],
            ),
        forall|i: int|
            j <= i < data.len() ==> distance(#[trigger] data[i], reconstructed(data, method)[i])
                == 0,
        forall|i: int|
            j < i < other.len() ==> distance(
                #[trigger] other[i],
                reconstructed(other, other_method)[i],
            ) == 0,
    ensures
        ({
            let f = Format::Double;
            let n = pow2(k);
            let e = error(other[j], reconstructed(other, other_method)[j]);
            let square = f.units(f.nearest(e.units() * e.units(), pow2(1074)));
            &&& s.mean_error.units() * n == f.units(
                f.nearest(r.mean_error.units() * n + e.units(), 1),
            )
            &&& s.mse.units() * n == f.units(f.nearest(r.mse.units() * n + square, 1))
        }),
{
    let f = Format::Double;
    let n = pow2(k);
    let a = errors(data, reconstructed(data, method));
    let b = errors(other, reconstructed(other, other_method));
    let p = squares(a);
    let q = squares(b);
    lemma2_to64_rest();
    lemma_pow2_pos(k);
    arith::lemma_pow2_order_le(k, 51);
    lemma_error_range(data, reconstructed(data, method));
    lemma_error_range(other, reconstructed(other, other_method));
    // The same in front, and nothing behind.
    assert forall|i: int| 0 <= i < j implies a[i] == b[i] by {
        assert(data[i].finite() && other[i].finite());
        lemma_same_error(
            data[i],
            reconstructed(data, method)[i],
            other[i],
            reconstructed(other, other_method)[i],
        );
    }
    assert forall|i: int| j <= i < a.len() implies (#[trigger] a[i]).parts().code == 0
        && !a[i].parts().neg by {
        assert(data[i].finite());
        lemma_no_error(data[i], reconstructed(data, method)[i]);
    }
    assert forall|i: int| j < i < b.len() implies (#[trigger] b[i]).parts().code == 0
        && !b[i].parts().neg by {
        assert(other[i].finite());
        lemma_no_error(other[i], reconstructed(other, other_method)[i]);
    }
    assert forall|i: int| j <= i < p.len() implies (#[trigger] p[i]).parts().code == 0
        && !p[i].parts().neg by {
        assert(a[i].parts().code == 0);
        lemma_zero_square(a[i]);
    }
    assert forall|i: int| j < i < q.len() implies (#[trigger] q[i]).parts().code == 0
        && !q[i].parts().neg by {
        assert(b[i].parts().code == 0);
        lemma_zero_square(b[i]);
    }
    assert(a.take(j) =~= b.take(j));
    assert(p.take(j) =~= q.take(j));
    lemma_one_more(a, b, j, pow2(925), pow2(1203));
    lemma_one_more(p, q, j, pow2(776), pow2(1332));
    arith::lemma_pow2_order_le(1901, 1902);
    lemma_exact_mean(total(a), k);
    lemma_exact_mean(total(b), k);
    lemma_exact_mean(total(p), k);
    lemma_exact_mean(total(q), k);
    let e = b[j];
    assert(other[j].finite());
    lemma_square(e);
    lemma_pow2_pos(1074);
    laws::law_product(e, e, 0);
    formats::lemma_nearest_is(
        f,
        e.product(e).parts().code as nat,
        e.units() * e.units(),
        pow2(1074),
    );
}

/// Numbers that agree up to `j`, of which the first ones have nothing from `j` on
/// and the others nothing behind it.
proof fn lemma_one_more(a: Seq<Binary64>, b: Seq<Binary64>, j: int, low: nat, high: nat)
    requires
        0 <= j < a.len(),
        a.len() == b.len() <= 0x8_0000_0000_0000,
        low == pow2(925) && high == pow2(1203) || low == pow2(776) && high == pow2(1332),
        a.take(j) == b.take(j),
        forall|i: int|
            0 <= i < b.len() ==> (#[trigger] b[i]).finite() && !b[i].parts().neg && (b[i].units()
                == 0 || low <= b[i].units()) && b[i].units() <= high,
        forall|i: int|
            j <= i < a.len() ==> (#[trigger] a[i]).parts().code == 0 && !a[i].parts().neg,
        forall|i: int| j < i < b.len() ==> (#[trigger] b[i]).parts().code == 0 && !b[i].parts().neg,
    ensures
        total(a).finite(),
        !total(a).parts().neg,
        total(b).finite(),
        !total(b).parts().neg,
        total(b).units() == Format::Double.units(
            Format::Double.nearest(total(a).units() + b[j].units(), 1),
        ),
        total(a).units() == 0 || total(a).units() >= pow2(700),
        total(b).units() == 0 || total(b).units() >= pow2(700),
        total(a).units() <= pow2(1901),
        total(b).units() <= pow2(1901),
{
    let f = Format::Double;
    let front = a.take(j);
    let next = b.take(j + 1);
    arith::lemma_pow2_order_le(701, 776);
    arith::lemma_pow2_order_le(701, 925);
    arith::lemma_pow2_order_le(1203, 1400);
    arith::lemma_pow2_order_le(1332, 1400);
    assert forall|i: int| 0 <= i < front.len() implies (#[trigger] front[i]).finite()
        && !front[i].parts().neg && (front[i].units() == 0 || low <= front[i].units())
        && front[i].units() <= high by {
        assert(front[i] == b.take(j)[i]);
        assert(front[i] == b[i]);
    }
    assert forall|i: int| 0 <= i < next.len() implies (#[trigger] next[i]).finite()
        && !next[i].parts().neg && (next[i].units() == 0 || low <= next[i].units())
        && next[i].units() <= high by {
        assert(next[i] == b[i]);
    }
    lemma_total_range(front, low, high);
    lemma_total_range(next, low, high);
    lemma_zero_tail(a, j);
    lemma_zero_tail(b, j + 1);
    assert(next.drop_last() =~= front);
    assert(next.last() == b[j]);
    laws::law_sum(total(front), b[j], 0);
    formats::lemma_nearest_is(
        f,
        total(next).parts().code as nat,
        total(front).units() + b[j].units(),
        1,
    );
}

/// The errors of finite numbers and their squares lie in the middle of the range.
proof fn lemma_error_range(data: Seq<Binary32>, restored: Seq<Binary32>)
    requires
        forall|i: int| 0 <= i < data.len() ==> (#[trigger] data[i]).finite() && restored[i].finite(),
    ensures
        ({
            let e = errors(data, restored);
            let q = squares(e);
            &&& forall|i: int|
                0 <= i < e.len() ==> (#[trigger] e[i]).finite() && !e[i].parts().neg && (
                e[i].units() == 0 || pow2(925) <= e[i].units()) && e[i].units() <= pow2(1203)
            &&& forall|i: int|
                0 <= i < q.len() ==> (#[trigger] q[i]).finite() && !q[i].parts().neg && (
                q[i].units() == 0 || pow2(776) <= q[i].units()) && q[i].units() <= pow2(1332)
        }),
{
    let e = errors(data, restored);
    let q = squares(e);
    assert forall|i: int| 0 <= i < e.len() implies (#[trigger] e[i]).finite() && !e[i].parts().neg
        && (e[i].units() == 0 || pow2(925) <= e[i].units()) && e[i].units() <= pow2(1203) by {
        assert(data[i].finite());
        law_error(data[i], restored[i]);
    }
    assert forall|i: int| 0 <= i < q.len() implies (#[trigger] q[i]).finite() && !q[i].parts().neg
        && (q[i].units() == 0 || pow2(776) <= q[i].units()) && q[i].units() <= pow2(1332) by {
        assert(e[i].finite());
        lemma_square(e[i]);
    }
}

/// Numbers that lie as far apart have the same error.
proof fn lemma_same_error(a: Binary32, b: Binary32, c: Binary32, d: Binary32)
    requires
        a.finite(),
        b.finite(),
        c.finite(),
        d.finite(),
        distance(a, b) == distance(c, d),
    ensures
        error(a, b) == error(c, d),
{
    let x = error(a, b);
    let y = error(c, d);
    law_error(a, b);
    law_error(c, d);
    formats::lemma_nearest_unique(
        Format::Double,
        x.parts().code as nat,
        y.parts().code as nat,
        distance(a, b) * pow2(925),
        1,
    );
    x.lemma_parts(x.parts());
    y.lemma_parts(y.parts());
}

proof fn lemma_no_error(a: Binary32, b: Binary32)
    requires
        a.finite(),
        b.finite(),
        distance(a, b) == 0,
    ensures
        error(a, b).parts().code == 0,
        !error(a, b).parts().neg,
{
    let f = Format::Double;
    law_error(a, b);
    round::lemma_units_zero(f);
    formats::lemma_nearest_exact(f, 0, 1);
    assert(0 * pow2(925) == 0 && 0 * 1 == 0);
    formats::lemma_nearest_is(f, error(a, b).parts().code as nat, 0, 1);
}

proof fn lemma_zero_square(e: Binary64)
    requires
        e.parts().code == 0,
    ensures
        e.product(e).parts().code == 0,
        !e.product(e).parts().neg,
{
    let f = Format::Double;
    round::lemma_units_zero(f);
    lemma_pow2_pos(1074);
    formats::lemma_nearest_exact(f, 0, pow2(1074));
    assert(0 * pow2(1074) == 0 && 0 * 0 == 0);
    laws::law_product(e, e, 0);
    formats::lemma_nearest_is(f, e.product(e).parts().code as nat, 0, pow2(1074));
}

} // verus!
