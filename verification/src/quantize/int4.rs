//! Quantization to 4-bit integers with a scale for each group.
//!
//! Each group of `group_size` numbers is quantized to integers in `-8..=7` with
//! a single binary16 scale. Two integers are packed into a byte, the first in
//! the low half, one after the other over all groups.

use crate::float::arith;
use crate::float::formats;
use crate::float::formats::Format;
use crate::float::laws;
use crate::float::round;
use crate::float::{Binary16, Binary32};
use crate::parallel;
use crate::parallel::map_indices;
use vstd::arithmetic::div_mod::*;
use vstd::arithmetic::mul::*;
use vstd::arithmetic::power2::*;
use vstd::prelude::*;
use vstd::slice::slice_subrange;

verus! {

/// Default group size for INT4 quantization.
pub const INT4_GROUP_SIZE: usize = 32;

/// Packed INT4 quantized data.
#[derive(Debug, Clone)]
pub struct Int4Packed {
    pub data: Vec<u8>,
    pub scales: Vec<Binary16>,
    pub group_size: usize,
    pub num_elements: usize,
}

/// The largest magnitude among the numbers, NaN left out; 0 if there is none.
pub open spec fn abs_max(group: Seq<Binary32>) -> Binary32
    decreases group.len(),
{
    if group.len() == 0 {
        Binary32::of_integer(0)
    } else {
        let rest = abs_max(group.drop_last());
        let last = group.last().magnitude();
        if rest.below(last) {
            last
        } else {
            rest
        }
    }
}

/// The scale of a group, which maps its largest magnitude to 7.
pub open spec fn scale_of(group: Seq<Binary32>) -> Binary16 {
    let max = abs_max(group);
    if max.parts().code == 0 {
        Binary32::of_integer(1).narrowed()
    } else {
        max.quotient(Binary32::of_integer(7)).narrowed()
    }
}

/// What numbers of a group with this scale are multiplied by.
pub open spec fn inverse(scale: Binary16) -> Binary32 {
    if scale.widened().parts().code == 0 {
        Binary32::of_integer(0)
    } else {
        Binary32::of_integer(1).quotient(scale.widened())
    }
}

/// The integer that a number becomes: rounded, halves going away from zero, and
/// kept within `-8..=7`; 0 for NaN.
pub open spec fn quantized(v: Binary32, scale: Binary16) -> int {
    let q = v.product(inverse(scale)).rounded(8);
    if q > 7 {
        7
    } else {
        q
    }
}

/// The four bits of an integer in `-8..=7`, in two's complement.
pub open spec fn nibble(q: int) -> int {
    if q < 0 {
        q + 16
    } else {
        q
    }
}

/// The integer of four bits.
pub open spec fn signed(nibble: int) -> int {
    if nibble < 8 {
        nibble
    } else {
        nibble - 16
    }
}

/// The number of four bits under a scale.
pub open spec fn restored(nibble: int, scale: Binary16) -> Binary32 {
    Binary32::of_signed(signed(nibble)).product(scale.widened())
}

/// How many bytes hold `len` integers.
pub open spec fn byte_count(len: nat) -> nat {
    (len + 1) as nat / 2
}

/// The integer that number `i` becomes, under the scale of its group.
pub open spec fn integer_at(data: Seq<Binary32>, size: nat, i: int) -> int {
    quantized(data[i], scale_of(parallel::chunk_of(data, size, i / size as int)))
}

/// The four bits of each number.
pub open spec fn nibbles(data: Seq<Binary32>, size: nat) -> Seq<u8> {
    Seq::new(data.len(), |i: int| nibble(integer_at(data, size, i)) as u8)
}

/// Four bits each, two to a byte, the first of them low.
pub open spec fn paired(s: Seq<u8>) -> Seq<u8> {
    Seq::new(
        byte_count(s.len()),
        |j: int|
            (s[2 * j] + 16 * (if 2 * j + 1 < s.len() {
                s[2 * j + 1] as int
            } else {
                0
            })) as u8,
    )
}

fn largest_magnitude(group: &[Binary32]) -> (r: Binary32)
    ensures
        r == abs_max(group@),
{
    let mut max: Binary32 = Binary32::from_unsigned(0);
    for i in 0..group.len()
        invariant
            max == abs_max(group@.take(i as int)),
    {
        let v: Binary32 = group[i].abs();
        assert(group@.take(i + 1).drop_last() =~= group@.take(i as int));
        if max.is_below(v) {
            max = v;
        }
    }
    assert(group@.take(group@.len() as int) =~= group@);
    max
}

fn group_scale(group: &[Binary32]) -> (r: Binary16)
    ensures
        r == scale_of(group@),
{
    let max: Binary32 = largest_magnitude(group);
    if max.to_parts().code == 0 {
        Binary32::from_unsigned(1).narrow()
    } else {
        max.over(Binary32::from_unsigned(7)).narrow()
    }
}

fn quantize_value(v: Binary32, inv: Binary32, Ghost(scale): Ghost<Binary16>) -> (r: i32)
    requires
        inv == inverse(scale),
    ensures
        r == quantized(v, scale),
        -8 <= r <= 7,
{
    let q: i32 = v.times(inv).round_to_integer(8);
    if q > 7 {
        7
    } else {
        q
    }
}

fn to_nibble(q: i32) -> (r: u8)
    requires
        -8 <= q <= 7,
    ensures
        r == nibble(q as int),
        r < 16,
{
    if q < 0 {
        (q + 16) as u8
    } else {
        q as u8
    }
}

/// The four bits of each number of a group.
fn group_nibbles(group: &[Binary32], scale: Binary16) -> (r: Vec<u8>)
    ensures
        r@ == group@.map_values(|v: Binary32| nibble(quantized(v, scale)) as u8),
{
    let wide: Binary32 = scale.widen();
    let inv: Binary32 = if wide.to_parts().code == 0 {
        Binary32::from_unsigned(0)
    } else {
        Binary32::from_unsigned(1).over(wide)
    };
    let mut out: Vec<u8> = Vec::with_capacity(group.len());
    for j in 0..group.len()
        invariant
            inv == inverse(scale),
            out@ =~= group@.take(j as int).map_values(
                |v: Binary32| nibble(quantized(v, scale)) as u8,
            ),
    {
        out.push(to_nibble(quantize_value(group[j], inv, Ghost(scale))));
    }
    assert(group@.take(group@.len() as int) =~= group@);
    out
}

/// Pack pairs into bytes.
fn pack(s: &Vec<u8>) -> (r: Vec<u8>)
    requires
        forall|i: int| 0 <= i < s@.len() ==> #[trigger] s@[i] < 16,
    ensures
        r@ == paired(s@),
{
    let n: usize = s.len();
    let count: usize = n / 2 + n % 2;
    let mut out: Vec<u8> = Vec::with_capacity(count);
    for j in 0..count
        invariant
            n == s@.len(),
            count == byte_count(n as nat),
            forall|i: int| 0 <= i < s@.len() ==> #[trigger] s@[i] < 16,
            out@ =~= paired(s@).take(j as int),
    {
        let lo: u8 = s[2 * j];
        let hi: u8 = if 2 * j + 1 < n {
            s[2 * j + 1]
        } else {
            0
        };
        out.push(lo + 16 * hi);
    }
    out
}

/// How many groups a slice has.
fn count_groups(len: usize, size: usize) -> (r: usize)
    requires
        size > 0,
    ensures
        r == parallel::chunk_count(len as nat, size as nat),
{
    if len == 0 {
        proof {
            lemma_basic_div((size - 1) as int, size as int);
        }
        0
    } else {
        proof {
            lemma_div_plus_one((len - 1) as int, size as int);
            assert((len - 1) / (size as int) <= len - 1) by {
                lemma_div_is_ordered_by_denominator((len - 1) as int, 1, size as int);
            }
        }
        (len - 1) / size + 1
    }
}

/// Group `g` of a slice.
fn group_at(data: &[Binary32], size: usize, g: usize) -> (r: &[Binary32])
    requires
        size > 0,
        g < parallel::chunk_count(data@.len(), size as nat),
    ensures
        r@ == parallel::chunk_of(data@, size as nat, g as int),
{
    let len: usize = data.len();
    proof {
        parallel::lemma_chunk_bounds(data@.len(), size as nat, g as nat);
        assert((g + 1) * size == g * size + size) by (nonlinear_arith);
    }
    let start: usize = g * size;
    let end: usize = if size < len - start {
        start + size
    } else {
        len
    };
    slice_subrange(data, start, end)
}

fn join(parts: &Vec<Vec<u8>>) -> (r: Vec<u8>)
    ensures
        r@ == parallel::joined(parts@),
{
    let mut out: Vec<u8> = Vec::new();
    for i in 0..parts.len()
        invariant
            out@ == parallel::joined(parts@.take(i as int)),
    {
        let ghost before = out@;
        let part: &Vec<u8> = &parts[i];
        for j in 0..part.len()
            invariant
                out@ == before + part@.take(j as int),
        {
            out.push(part[j]);
            assert(part@.take(j + 1) =~= part@.take(j as int).push(part@[j as int]));
        }
        assert(part@.take(part@.len() as int) =~= part@);
        assert(parts@.take(i + 1).drop_last() =~= parts@.take(i as int));
    }
    assert(parts@.take(parts@.len() as int) =~= parts@);
    out
}

/// Quantize to INT4 with a scale for each group of 32.
pub fn quantize_int4(data: &[Binary32]) -> (r: Int4Packed)
    ensures
        r.is_quantized(data@, INT4_GROUP_SIZE as nat),
{
    quantize_int4_grouped(data, INT4_GROUP_SIZE)
}

/// Quantize with configurable group size.
pub fn quantize_int4_grouped(data: &[Binary32], group_size: usize) -> (r: Int4Packed)
    requires
        group_size > 0,
    ensures
        r.is_quantized(data@, group_size as nat),
{
    let num_groups: usize = count_groups(data.len(), group_size);
    // The scales, in parallel across groups.
    let scale = |g: usize| -> (r: Binary16)
        requires
            g < num_groups,
        ensures
            r == scale_of(parallel::chunk_of(data@, group_size as nat, g as int)),
        { group_scale(group_at(data, group_size, g)) };
    let scales: Vec<Binary16> = map_indices(num_groups, scale);
    assert forall|g: int| 0 <= g < num_groups implies #[trigger] scales@[g] == scale_of(
        parallel::chunk_of(data@, group_size as nat, g),
    ) by {
        assert(call_ensures(scale, (g as usize,), scales@[(g as usize) as int]));
    }
    // The integers, in parallel across groups, then packed one after the other.
    let convert = |g: usize| -> (r: Vec<u8>)
        requires
            g < num_groups,
        ensures
            r@ == parallel::chunk_of(nibbles(data@, group_size as nat), group_size as nat, g as int),
        {
            let group: &[Binary32] = group_at(data, group_size, g);
            let r: Vec<u8> = group_nibbles(group, scales[g]);
            proof {
                lemma_group_nibbles(data@, group_size as nat, g as nat);
            }
            r
        };
    let groups: Vec<Vec<u8>> = map_indices(num_groups, convert);
    assert forall|g: int| 0 <= g < num_groups implies (#[trigger] groups@[g])@
        == parallel::chunk_of(nibbles(data@, group_size as nat), group_size as nat, g) by {
        assert(call_ensures(convert, (g as usize,), groups@[(g as usize) as int]));
    }
    proof {
        parallel::lemma_joined_chunks(
            nibbles(data@, group_size as nat),
            group_size as nat,
            groups@,
        );
        assert(scales@ =~= Seq::new(
            num_groups as nat,
            |g: int| scale_of(parallel::chunk_of(data@, group_size as nat, g)),
        ));
    }
    let all: Vec<u8> = join(&groups);
    proof {
        lemma_nibbles(data@, group_size as nat);
    }
    Int4Packed { data: pack(&all), scales, group_size, num_elements: data.len() }
}

/// Group `g` of the four bits is made of group `g` of the numbers.
proof fn lemma_group_nibbles(data: Seq<Binary32>, size: nat, g: nat)
    requires
        size > 0,
        g < parallel::chunk_count(data.len(), size),
    ensures
        ({
            let group = parallel::chunk_of(data, size, g as int);
            parallel::chunk_of(nibbles(data, size), size, g as int) == group.map_values(
                |v: Binary32| nibble(quantized(v, scale_of(group))) as u8,
            )
        }),
{
    let group = parallel::chunk_of(data, size, g as int);
    let a = parallel::chunk_of(nibbles(data, size), size, g as int);
    let b = group.map_values(|v: Binary32| nibble(quantized(v, scale_of(group))) as u8);
    parallel::lemma_chunk_bounds(data.len(), size, g);
    assert((g + 1) * size == g * size + size) by (nonlinear_arith);
    assert forall|j: int| 0 <= j < a.len() implies a[j] == b[j] by {
        lemma_fundamental_div_mod_converse((g * size + j) as int, size as int, g as int, j);
    }
    assert(a =~= b);
}

impl Int4Packed {
    /// Whether this is the data quantized in groups of `size`.
    pub open spec fn is_quantized(self, data: Seq<Binary32>, size: nat) -> bool {
        let count = parallel::chunk_count(data.len(), size);
        &&& self.num_elements == data.len()
        &&& self.group_size == size
        &&& self.scales@ == Seq::new(count, |g: int| scale_of(parallel::chunk_of(data, size, g)))
        &&& self.data@ == paired(nibbles(data, size))
    }

    /// How many numbers there are: as many as have a scale, and no more than the
    /// count that is given.
    pub open spec fn restored_len(self) -> nat {
        let scaled = self.scales@.len() * self.group_size;
        if scaled < self.num_elements {
            scaled as nat
        } else {
            self.num_elements as nat
        }
    }

    /// Whether every group that has a scale starts within the elements, and all
    /// of them have their bytes.
    pub open spec fn readable(self) -> bool {
        &&& forall|g: nat|
            g < self.scales@.len() ==> #[trigger] (g * self.group_size) <= self.num_elements
        &&& byte_count(self.restored_len()) <= self.data@.len()
    }

    /// The four bits of number `i`.
    pub open spec fn nibble_at(self, i: int) -> int {
        let byte = self.data@[i / 2];
        if i % 2 == 0 {
            (byte % 16) as int
        } else {
            (byte / 16) as int
        }
    }

    /// Number `i`, under the scale of its group.
    pub open spec fn restored_at(self, i: int) -> Binary32 {
        restored(self.nibble_at(i), self.scales@[i / self.group_size as int])
    }

    /// The numbers.
    pub open spec fn restored_numbers(self) -> Seq<Binary32> {
        Seq::new(self.restored_len(), |i: int| self.restored_at(i))
    }

    /// The size of the packed integers and of the scales.
    pub fn size_bytes(&self) -> (r: usize)
        requires
            self.data@.len() + self.scales@.len() * 2 <= usize::MAX,
        ensures
            r == self.data@.len() + self.scales@.len() * 2,
    {
        self.data.len() + self.scales.len() * 2
    }
}

/// The number of four bits under the widened scale.
fn restore(nibble: u8, wide: Binary32, Ghost(scale): Ghost<Binary16>) -> (r: Binary32)
    requires
        nibble < 16,
        wide == scale.widened(),
    ensures
        r == restored(nibble as int, scale),
{
    let q: i32 = if nibble < 8 {
        nibble as i32
    } else {
        nibble as i32 - 16
    };
    Binary32::from_signed(q).times(wide)
}

/// Dequantize INT4 packed data back to binary32.
pub fn dequantize_int4(packed: &Int4Packed) -> (r: Vec<Binary32>)
    requires
        packed.readable(),
    ensures
        r@ == packed.restored_numbers(),
        r@.len() <= packed.num_elements,
{
    let mut result: Vec<Binary32> = Vec::new();
    let count: usize = packed.scales.len();
    assert(0 * packed.group_size == 0);
    for g in 0..count
        invariant
            packed.readable(),
            count == packed.scales@.len(),
            result@.len() == (if g * packed.group_size < packed.num_elements {
                (g * packed.group_size) as int
            } else {
                packed.num_elements as int
            }),
            result@.len() <= packed.restored_len(),
            forall|i: int|
                0 <= i < result@.len() ==> #[trigger] result@[i] == packed.restored_at(i),
    {
        let wide: Binary32 = packed.scales[g].widen();
        assert(g as nat * packed.group_size <= packed.num_elements);
        let start: usize = g * packed.group_size;
        let left: usize = packed.num_elements - start;
        let end: usize = if packed.group_size < left {
            start + packed.group_size
        } else {
            packed.num_elements
        };
        proof {
            assert((g + 1) * packed.group_size == g * packed.group_size + packed.group_size)
                by (nonlinear_arith);
            assert((g + 1) * packed.group_size <= count * packed.group_size) by (nonlinear_arith)
                requires
                    g + 1 <= count,
            ;
        }
        for i in start..end
            invariant
                packed.readable(),
                g < count == packed.scales@.len(),
                start == g * packed.group_size,
                start <= end <= start + packed.group_size,
                end <= packed.restored_len(),
                wide == packed.scales@[g as int].widened(),
                result@.len() == i,
                forall|j: int|
                    0 <= j < result@.len() ==> #[trigger] result@[j] == packed.restored_at(j),
        {
            let byte: u8 = packed.data[i / 2];
            let bits: u8 = if i % 2 == 0 {
                byte % 16
            } else {
                byte / 16
            };
            proof {
                lemma_fundamental_div_mod_converse(
                    i as int,
                    packed.group_size as int,
                    g as int,
                    i - start,
                );
            }
            result.push(restore(bits, wide, Ghost(packed.scales@[g as int])));
        }
    }
    assert(result@ =~= packed.restored_numbers());
    result
}

/// What number `i` becomes through INT4: its integer times the scale of its
/// group.
pub open spec fn through_int4(data: Seq<Binary32>, size: nat, i: int) -> Binary32 {
    let scale = scale_of(parallel::chunk_of(data, size, i / size as int));
    Binary32::of_signed(integer_at(data, size, i)).product(scale.widened())
}

/// An integer in `-8..=7` survives its four bits.
proof fn lemma_nibble(q: int)
    requires
        -8 <= q <= 7,
    ensures
        0 <= nibble(q) < 16,
        signed(nibble(q)) == q,
{
}

/// The integer of every number is in `-8..=7`.
proof fn lemma_nibbles(data: Seq<Binary32>, size: nat)
    ensures
        forall|i: int|
            0 <= i < data.len() ==> 0 <= nibble(integer_at(data, size, i)) < 16
                && #[trigger] nibbles(data, size)[i] == nibble(integer_at(data, size, i)),
{
    assert forall|i: int| 0 <= i < data.len() implies 0 <= nibble(integer_at(data, size, i)) < 16
        && #[trigger] nibbles(data, size)[i] == nibble(integer_at(data, size, i)) by {
        lemma_nibble(integer_at(data, size, i));
    }
}

/// Both halves of a byte come back.
proof fn lemma_halves(s: Seq<u8>, i: int)
    requires
        forall|k: int| 0 <= k < s.len() ==> #[trigger] s[k] < 16,
        0 <= i < s.len(),
    ensures
        i / 2 < byte_count(s.len()),
        i % 2 == 0 ==> paired(s)[i / 2] % 16 == s[i],
        i % 2 == 1 ==> paired(s)[i / 2] / 16 == s[i],
{
    let j = i / 2;
    let lo = s[2 * j];
    assert(2 * j == i || 2 * j + 1 == i);
    if 2 * j + 1 < s.len() {
        let hi = s[2 * j + 1];
        assert(paired(s)[j] == lo + 16 * hi);
    } else {
        assert(paired(s)[j] == lo);
    }
}

/// The group of a number is one of the groups.
pub(crate) proof fn lemma_group_of(len: nat, size: nat, i: int)
    requires
        size > 0,
        0 <= i < len,
    ensures
        0 <= i / (size as int),
        (i / (size as int)) * size <= i < (i / (size as int) + 1) * size,
        i / (size as int) < parallel::chunk_count(len, size),
{
    let g = i / (size as int);
    lemma_fundamental_div_mod(i, size as int);
    lemma_mod_bound(i, size as int);
    lemma_div_pos_is_pos(i, size as int);
    assert(g * size == size * g && (g + 1) * size == size * g + size) by (nonlinear_arith);
    parallel::lemma_chunks_cover(len, size);
    let count = parallel::chunk_count(len, size);
    assert(g < count) by (nonlinear_arith)
        requires
            g * size < count * size,
    ;
}

/// Quantized data can be read back: as many numbers as there were, each one the
/// integer that was packed times the scale of its group.
pub proof fn law_int4_round_trip(p: Int4Packed, data: Seq<Binary32>, size: nat)
    requires
        size > 0,
        p.is_quantized(data, size),
    ensures
        p.readable(),
        p.restored_numbers() == Seq::new(data.len(), |i: int| through_int4(data, size, i)),
{
    let s = nibbles(data, size);
    let all = Seq::new(data.len(), |i: int| through_int4(data, size, i));
    assert forall|g: nat| g < p.scales@.len() implies #[trigger] (g * p.group_size)
        <= p.num_elements by {
        parallel::lemma_chunk_bounds(data.len(), size, g);
    }
    parallel::lemma_chunks_cover(data.len(), size);
    assert(p.restored_len() == data.len());
    lemma_nibbles(data, size);
    assert forall|i: int| 0 <= i < data.len() implies p.restored_numbers()[i] == all[i] by {
        lemma_group_of(data.len(), size, i);
        lemma_halves(s, i);
        assert(s[i] == nibble(integer_at(data, size, i)));
        lemma_nibble(integer_at(data, size, i));
    }
    assert(p.restored_numbers() =~= all);
}

/// Quantized data takes half a byte for each number, rounded up, and a scale for
/// each group, the last one possibly shorter.
pub proof fn law_int4_size(p: Int4Packed, data: Seq<Binary32>, size: nat)
    requires
        size > 0,
        p.is_quantized(data, size),
    ensures
        p.data@.len() == byte_count(data.len()),
        p.scales@.len() == parallel::chunk_count(data.len(), size),
{
}

/// The largest magnitude of a group is the magnitude of one of its numbers or
/// zero, is no NaN, and none of the numbers lies above it.
pub proof fn law_abs_max(group: Seq<Binary32>)
    ensures
        !abs_max(group).nan(),
        !abs_max(group).parts().neg,
        abs_max(group).parts().code == 0 || exists|i: int|
            0 <= i < group.len() && abs_max(group) == (#[trigger] group[i]).magnitude(),
        forall|i: int|
            0 <= i < group.len() ==> !abs_max(group).below((#[trigger] group[i]).magnitude()),
    decreases group.len(),
{
    if group.len() == 0 {
        round::lemma_units_zero(Format::Single);
        formats::lemma_nearest_exact(Format::Single, 0, 1);
        assert(0 * pow2(149) == 0);
    } else {
        let rest = group.drop_last();
        law_abs_max(rest);
        group.last().lemma_parts(group.last().parts());
        assert forall|i: int| 0 <= i < group.len() implies !abs_max(group).below(
            (#[trigger] group[i]).magnitude(),
        ) by {
            if i < rest.len() {
                assert(rest[i] == group[i]);
            }
        }
        if abs_max(rest).parts().code != 0 {
            let k = choose|i: int|
                0 <= i < rest.len() && abs_max(rest) == (#[trigger] rest[i]).magnitude();
            assert(group[k] == rest[k]);
        }
        assert(group.last() == group[group.len() - 1]);
    }
}

/// Zero is a whole number.
proof fn lemma_zero()
    ensures
        Binary32::of_integer(0).parts() == (arith::Parts { neg: false, code: 0 }),
        Binary32::of_signed(0).parts() == (arith::Parts { neg: false, code: 0 }),
{
    round::lemma_units_zero(Format::Single);
    formats::lemma_nearest_exact(Format::Single, 0, 1);
    assert(0 * pow2(149) == 0);
}

/// Zero times a finite number is zero.
proof fn lemma_zero_product(a: Binary32, b: Binary32)
    requires
        a.parts().code == 0,
        b.finite(),
    ensures
        a.product(b).parts().code == 0,
        b.product(a).parts().code == 0,
{
    let den = pow2(149);
    lemma_pow2_pos(149);
    round::lemma_units_zero(Format::Single);
    formats::lemma_nearest_exact(Format::Single, 0, den);
    assert(0 * den == 0 && 0 * b.units() == 0 && b.units() * 0 == 0);
}

/// A zero under a finite scale: its integer is 0, and so is what comes back.
pub(crate) proof fn lemma_zero_number(v: Binary32, scale: Binary16)
    requires
        v.parts().code == 0,
        scale.finite(),
    ensures
        quantized(v, scale) == 0,
        Binary32::of_signed(0).product(scale.widened()).parts().code == 0,
{
    let inv = inverse(scale);
    if inv.finite() {
        lemma_zero_product(v, inv);
        round::lemma_units_zero(Format::Single);
        lemma_pow2_pos(149);
        lemma_basic_div(pow2(149) as int, (2 * pow2(149)) as int);
    }
    lemma_zero();
    let p = scale.parts();
    laws::law_widening_is_exact(Format::Half, Format::Single, p);
    scale.widened().lemma_parts(arith::converted(Format::Half, Format::Single, p));
    lemma_zero_product(Binary32::of_signed(0), scale.widened());
}

/// The scale of a group of zeros is 1.
pub(crate) proof fn lemma_unit_scale()
    ensures
        Binary32::of_integer(1).narrowed().finite(),
{
    let f = Format::Single;
    let h = Format::Half;
    lemma2_to64();
    lemma_pow2_pos(125);
    lemma_pow2_adds(24, 125);
    let one = laws::lemma_representable(f, 1, 149);
    let half = laws::lemma_representable(h, 1, 24);
    formats::lemma_nearest_exact(f, one, 1);
    formats::lemma_nearest_exact(h, half, pow2(125));
    assert(1 * pow2(149) == pow2(149) && 1 * pow2(24) == pow2(24) && pow2(149) * 1 == pow2(149));
    let w = Binary32::of_integer(1);
    w.lemma_parts(arith::from_integer(f, 1));
    assert(round::up(-125) == 1);
    w.narrowed().lemma_parts(arith::converted(f, h, w.parts()));
}

/// A zero comes back as a zero, of either sign, when the scale of its group is
/// finite.
pub proof fn law_int4_preserves_zero(data: Seq<Binary32>, size: nat, i: int)
    requires
        size > 0,
        0 <= i < data.len(),
        data[i].parts().code == 0,
        scale_of(parallel::chunk_of(data, size, i / size as int)).finite(),
    ensures
        through_int4(data, size, i).parts().code == 0,
{
    lemma_zero_number(data[i], scale_of(parallel::chunk_of(data, size, i / size as int)));
}

/// A group of zeros comes back as zeros.
pub proof fn law_int4_preserves_zeros(data: Seq<Binary32>, size: nat, i: int)
    requires
        size > 0,
        0 <= i < data.len(),
        ({
            let group = parallel::chunk_of(data, size, i / size as int);
            forall|k: int| 0 <= k < group.len() ==> (#[trigger] group[k]).parts().code == 0
        }),
    ensures
        through_int4(data, size, i).parts().code == 0,
{
    let g = i / size as int;
    let group = parallel::chunk_of(data, size, g);
    lemma_group_of(data.len(), size, i);
    assert(group[i - g * size] == data[i]);
    law_abs_max(group);
    if abs_max(group).parts().code != 0 {
        let k = choose|k: int|
            0 <= k < group.len() && abs_max(group) == (#[trigger] group[k]).magnitude();
        group[k].lemma_parts(arith::Parts { neg: false, ..group[k].parts() });
    }
    lemma_unit_scale();
    law_int4_preserves_zero(data, size, i);
}

/// Where whole groups come first, the groups of both parts are the groups of
/// each.
proof fn lemma_whole_groups(a: Seq<Binary32>, b: Seq<Binary32>, size: nat)
    requires
        size > 0,
        a.len() % size == 0,
    ensures
        parallel::chunk_count(a.len(), size) == a.len() / size,
        parallel::chunk_count((a + b).len(), size) == a.len() / size + parallel::chunk_count(
            b.len(),
            size,
        ),
        forall|g: int|
            0 <= g < a.len() / size ==> #[trigger] parallel::chunk_of(a + b, size, g)
                == parallel::chunk_of(a, size, g),
        forall|g: int|
            0 <= g < parallel::chunk_count(b.len(), size) ==> parallel::chunk_of(
                a + b,
                size,
                a.len() / size + g,
            ) == #[trigger] parallel::chunk_of(b, size, g),
{
    let d = size as int;
    let k = (a.len() / size) as int;
    let t = a + b;
    lemma_fundamental_div_mod(a.len() as int, d);
    assert(d * k == k * d) by (nonlinear_arith);
    lemma_basic_div(d - 1, d);
    lemma_hoist_over_denominator(d - 1, k, size);
    lemma_hoist_over_denominator(b.len() + d - 1, k, size);
    assert forall|g: int| 0 <= g < k implies #[trigger] parallel::chunk_of(t, size, g)
        == parallel::chunk_of(a, size, g) by {
        assert((g + 1) * d <= k * d && 0 <= g * d <= (g + 1) * d) by (nonlinear_arith)
            requires
                0 <= g < k,
                d > 0,
        ;
        assert(parallel::chunk_of(t, size, g) =~= parallel::chunk_of(a, size, g));
    }
    assert forall|g: int| 0 <= g < parallel::chunk_count(b.len(), size) implies parallel::chunk_of(
        t,
        size,
        k + g,
    ) == #[trigger] parallel::chunk_of(b, size, g) by {
        parallel::lemma_chunk_bounds(b.len(), size, g as nat);
        assert((k + g) * d == k * d + g * d && (k + g + 1) * d == k * d + (g + 1) * d && 0 <= g * d
            <= (g + 1) * d) by (nonlinear_arith)
            requires
                0 <= g,
                d > 0,
        ;
        assert(parallel::chunk_of(t, size, k + g) =~= parallel::chunk_of(b, size, g));
    }
}

/// Groups do not affect one another: what follows whole groups leaves their
/// integers and scales as they are, and is quantized as if it stood alone. Where
/// the whole groups have an even number of integers, the bytes too are those of
/// the one part followed by those of the other.
pub proof fn law_int4_groups_are_independent(
    p: Int4Packed,
    first: Int4Packed,
    second: Int4Packed,
    a: Seq<Binary32>,
    b: Seq<Binary32>,
    size: nat,
)
    requires
        size > 0,
        a.len() % size == 0,
        p.is_quantized(a + b, size),
        first.is_quantized(a, size),
        second.is_quantized(b, size),
    ensures
        nibbles(a + b, size) == nibbles(a, size) + nibbles(b, size),
        p.scales@ == first.scales@ + second.scales@,
        a.len() % 2 == 0 ==> p.data@ == first.data@ + second.data@,
{
    let t = a + b;
    let k = (a.len() / size) as int;
    let d = size as int;
    lemma_whole_groups(a, b, size);
    lemma_fundamental_div_mod(a.len() as int, d);
    assert(d * k == k * d) by (nonlinear_arith);
    let scales = first.scales@ + second.scales@;
    assert forall|g: int| 0 <= g < p.scales@.len() implies p.scales@[g] == scales[g] by {
        if g < k {
            assert(parallel::chunk_of(t, size, g) == parallel::chunk_of(a, size, g));
        } else {
            assert(parallel::chunk_of(t, size, k + (g - k)) == parallel::chunk_of(b, size, g - k));
        }
    }
    assert(p.scales@ =~= scales);
    let both = nibbles(a, size) + nibbles(b, size);
    assert forall|i: int| 0 <= i < t.len() implies nibbles(t, size)[i] == both[i] by {
        if i < a.len() {
            lemma_group_of(a.len(), size, i);
            assert(parallel::chunk_of(t, size, i / d) == parallel::chunk_of(a, size, i / d));
        } else {
            let j = i - a.len();
            lemma_group_of(b.len(), size, j);
            assert(i / d == k + j / d) by {
                lemma_hoist_over_denominator(j, k, size);
            }
            assert(parallel::chunk_of(t, size, k + j / d) == parallel::chunk_of(b, size, j / d));
        }
    }
    assert(nibbles(t, size) =~= both);
    if a.len() % 2 == 0 {
        lemma_paired_parts(nibbles(a, size), nibbles(b, size));
    }
}

/// An even number of four bits fills its bytes.
proof fn lemma_paired_parts(s: Seq<u8>, r: Seq<u8>)
    requires
        s.len() % 2 == 0,
    ensures
        paired(s + r) == paired(s) + paired(r),
{
    let h = (s.len() / 2) as int;
    let a = paired(s + r);
    let b = paired(s) + paired(r);
    assert forall|j: int| 0 <= j < a.len() implies a[j] == b[j] by {
        if j >= h {
            assert((s + r)[2 * j] == r[2 * (j - h)]);
            if 2 * j + 1 < (s + r).len() {
                assert((s + r)[2 * j + 1] == r[2 * (j - h) + 1]);
            }
            assert(b[j] == paired(r)[j - h]);
        } else {
            assert(b[j] == paired(s)[j]);
        }
    }
    assert(a =~= b);
}

/// The four bits of a number in its byte.
pub(crate) proof fn lemma_layout(data: Seq<Binary32>, size: nat, i: int)
    requires
        0 <= i < data.len(),
    ensures
        ({
            let q = integer_at(data, size, i);
            let byte = paired(nibbles(data, size))[i / 2];
            &&& -8 <= q <= 7
            &&& i % 2 == 0 ==> byte % 16 == (q + 16) % 16
            &&& i % 2 == 1 ==> byte / 16 == (q + 16) % 16
            &&& i % 2 == 0 && i == data.len() - 1 ==> byte / 16 == 0
        }),
{
    lemma_nibbles(data, size);
    lemma_halves(nibbles(data, size), i);
    assert(nibbles(data, size)[i] < 16);
}

} // verus!
