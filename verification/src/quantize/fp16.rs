//! Quantization to binary16.

use crate::float::arith;
use crate::float::formats;
use crate::float::formats::Format;
use crate::float::laws;
use crate::float::round;
use crate::float::{Binary16, Binary32};
use crate::parallel;
use crate::parallel::flat_map_chunks;
use vstd::arithmetic::power2::*;
use vstd::prelude::*;

verus! {

/// How many numbers a thread takes at a time.
pub const CHUNK: usize = 4096;

fn narrow_chunk(chunk: &[Binary32]) -> (r: Vec<Binary16>)
    ensures
        r@ == chunk@.map_values(|v: Binary32| v.narrowed()),
{
    let mut out: Vec<Binary16> = Vec::with_capacity(chunk.len());
    for i in 0..chunk.len()
        invariant
            out@ =~= chunk@.take(i as int).map_values(|v: Binary32| v.narrowed()),
    {
        out.push(chunk[i].narrow());
    }
    assert(chunk@.take(chunk@.len() as int) =~= chunk@);
    out
}

fn widen_chunk(chunk: &[Binary16]) -> (r: Vec<Binary32>)
    ensures
        r@ == chunk@.map_values(|v: Binary16| v.widened()),
{
    let mut out: Vec<Binary32> = Vec::with_capacity(chunk.len());
    for i in 0..chunk.len()
        invariant
            out@ =~= chunk@.take(i as int).map_values(|v: Binary16| v.widened()),
    {
        out.push(chunk[i].widen());
    }
    assert(chunk@.take(chunk@.len() as int) =~= chunk@);
    out
}

/// Quantize binary32 numbers to binary16, in parallel across chunks: each to
/// the nearest, a tie going to the even code.
pub fn quantize_fp16(data: &[Binary32]) -> (r: Vec<Binary16>)
    ensures
        r@ == data@.map_values(|v: Binary32| v.narrowed()),
        r@.len() == data@.len(),
{
    let r: Vec<Binary16> = flat_map_chunks(data, CHUNK, narrow_chunk);
    proof {
        parallel::lemma_flat_map(
            data@,
            CHUNK as nat,
            narrow_chunk,
            r@,
            |v: Binary32| v.narrowed(),
        );
    }
    r
}

/// Dequantize binary16 back to binary32, which holds every binary16 exactly.
pub fn dequantize_fp16(data: &[Binary16]) -> (r: Vec<Binary32>)
    ensures
        r@ == data@.map_values(|v: Binary16| v.widened()),
        r@.len() == data@.len(),
{
    let r: Vec<Binary32> = flat_map_chunks(data, CHUNK, widen_chunk);
    proof {
        parallel::lemma_flat_map(
            data@,
            CHUNK as nat,
            widen_chunk,
            r@,
            |v: Binary16| v.widened(),
        );
    }
    r
}

/// Quantizing what dequantization gave returns the same binary16, NaN aside.
pub proof fn law_fp16_round_trip(h: Binary16)
    requires
        !h.nan(),
    ensures
        h.widened().narrowed() == h,
{
    let p = h.parts();
    let wide = arith::converted(Format::Half, Format::Single, p);
    h.lemma_parts(p);
    laws::law_narrowing_undoes_widening(Format::Half, Format::Single, p);
    if h.finite() {
        laws::law_widening_is_exact(Format::Half, Format::Single, p);
    }
    h.widened().lemma_parts(wide);
}

/// A round trip through binary16 keeps the sign, and changes a number from
/// `2^-14` up to the largest binary16 by at most one part in 2048.
pub proof fn law_fp16_error(v: Binary32)
    requires
        v.finite(),
        v.units() >= pow2(135),
        v.narrowed().finite(),
    ensures
        v.narrowed().widened().finite(),
        v.narrowed().widened().parts().neg == v.parts().neg,
        2048 * arith::magnitude(v.narrowed().widened().units() - v.units()) <= v.units(),
{
    let p = v.parts();
    let h = arith::converted(Format::Single, Format::Half, p);
    let den = pow2(125);
    lemma_pow2_pos(125);
    lemma2_to64();
    assert(round::up(-125) == 1);
    assert(v.units() * 1 == v.units());
    laws::law_nearest_exists(Format::Half, v.units(), den);
    v.narrowed().lemma_parts(h);
    laws::law_widening_is_exact(Format::Half, Format::Single, h);
    v.narrowed().widened().lemma_parts(arith::converted(Format::Half, Format::Single, h));
    formats::lemma_grid_join(pow2(10), 0, 10);
    lemma_pow2_unfold(11);
    assert(0 * pow2(10) == 0);
    assert(pow2(10) * 1 == pow2(10));
    lemma_pow2_adds(10, 125);
    laws::law_relative_error(Format::Half, v.units(), den, h.code as nat);
}

/// Quantization keeps the sign and takes the binary16 number nearest to the
/// number, a tie going to the even code: no other magnitude of binary16 is
/// closer. `2^125` units of binary32 make up one of binary16, and infinity stands
/// here for the magnitude that would follow the largest.
pub proof fn law_fp16_closest(v: Binary32, other: nat)
    requires
        v.finite(),
        other <= Format::Half.infinity(),
    ensures
        v.narrowed().parts().neg == v.parts().neg,
        !v.narrowed().nan(),
        Format::Half.is_nearest(v.narrowed().parts().code as nat, v.units(), pow2(125)),
        arith::magnitude(v.narrowed().units() * pow2(125) - v.units()) <= arith::magnitude(
            Format::Half.units(other) * pow2(125) - v.units(),
        ),
{
    let h = arith::converted(Format::Single, Format::Half, v.parts());
    lemma_pow2_pos(125);
    lemma2_to64();
    assert(round::up(-125) == 1);
    assert(v.units() * 1 == v.units());
    laws::law_nearest_exists(Format::Half, v.units(), pow2(125));
    v.narrowed().lemma_parts(h);
    laws::law_nearest_is_closest(Format::Half, v.units(), pow2(125), h.code as nat, other);
}

/// Dequantization keeps the sign and the value of every finite number, infinity
/// and NaN; and quantization keeps infinity and NaN.
pub proof fn law_fp16_value(h: Binary16, v: Binary32)
    ensures
        h.widened().parts().neg == h.parts().neg,
        h.finite() ==> h.widened().finite() && h.widened().units() == h.units() * pow2(125),
        h.infinite() ==> h.widened().infinite(),
        h.nan() ==> h.widened().nan(),
        v.infinite() ==> v.narrowed().infinite() && v.narrowed().parts().neg == v.parts().neg,
        v.nan() ==> v.narrowed().nan(),
{
    let wide = arith::converted(Format::Half, Format::Single, h.parts());
    let narrow = arith::converted(Format::Single, Format::Half, v.parts());
    h.lemma_parts(h.parts());
    v.lemma_parts(v.parts());
    if h.finite() {
        laws::law_widening_is_exact(Format::Half, Format::Single, h.parts());
    }
    if h.nan() {
        laws::lemma_converted_nan(Format::Half, Format::Single, h.parts());
    }
    if v.nan() {
        laws::lemma_converted_nan(Format::Single, Format::Half, v.parts());
    }
    if v.infinite() {
        v.narrowed().lemma_parts(narrow);
    }
    if v.nan() {
        v.narrowed().lemma_parts(narrow);
    }
    h.widened().lemma_parts(wide);
}

} // verus!
