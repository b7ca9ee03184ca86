//! Work handed out to threads, chunk by chunk or index by index.

use rayon::iter::{IntoParallelIterator, ParallelIterator};
use rayon::slice::ParallelSlice;
use vstd::arithmetic::div_mod::*;
use vstd::arithmetic::mul::*;
use vstd::prelude::*;

verus! {

/// How many chunks of at most `size` items a sequence of `len` items has.
pub open spec fn chunk_count(len: nat, size: nat) -> nat {
    (len + size - 1) as nat / size
}

/// Chunk `i` of a sequence: `size` items, or what is left.
pub open spec fn chunk_of<T>(s: Seq<T>, size: nat, i: int) -> Seq<T> {
    let start = i * size;
    let end = (i + 1) * size;
    s.subrange(
        start,
        if end < s.len() {
            end
        } else {
            s.len() as int
        },
    )
}

/// The parts one after the other.
pub open spec fn joined<U>(parts: Seq<Vec<U>>) -> Seq<U>
    decreases parts.len(),
{
    if parts.len() == 0 {
        Seq::empty()
    } else {
        joined(parts.drop_last()) + parts.last()@
    }
}

/// Whether `parts` holds what `work` returned for each chunk of `s`, in order.
pub open spec fn are_results<T, U, F: Fn(&[T]) -> Vec<U>>(
    s: Seq<T>,
    size: nat,
    work: F,
    parts: Seq<Vec<U>>,
) -> bool {
    &&& parts.len() == chunk_count(s.len(), size)
    &&& forall|i: int|
        0 <= i < parts.len() ==> exists|c: &[T]|
            c@ == chunk_of(s, size, i) && call_ensures(work, (c,), #[trigger] parts[i])
}

/// Whether `r` joins, in order, what `work` returned for each chunk of `s`.
pub open spec fn is_flat_map<T, U, F: Fn(&[T]) -> Vec<U>>(
    s: Seq<T>,
    size: nat,
    work: F,
    r: Seq<U>,
) -> bool {
    exists|parts: Seq<Vec<U>>| #[trigger] are_results(s, size, work, parts) && r == joined(parts)
}

/// Rayon's `par_chunks`, `flat_map` and `collect`: the slice is cut into chunks
/// of `size` items, the last one possibly shorter, `work` is run on each, and
/// what it returns is joined in the order of the chunks. `par_chunks` panics on
/// a size of 0.
#[verifier::external_body]
pub(crate) fn flat_map_chunks<T: Sync, U: Send, F: Fn(&[T]) -> Vec<U> + Sync + Send>(
    data: &[T],
    size: usize,
    work: F,
) -> (r: Vec<U>)
    requires
        size > 0,
        forall|c: &[T]| #[trigger] call_requires(work, (c,)),
    ensures
        is_flat_map(data@, size as nat, work, r@),
{
    data.par_chunks(size).flat_map(work).collect()
}

/// Rayon's `into_par_iter` on a range, `map` and `collect`: `work` is run on
/// each of `0..count`, and what it returns is kept in that order.
#[verifier::external_body]
pub(crate) fn map_indices<U: Send, F: Fn(usize) -> U + Sync + Send>(count: usize, work: F) -> (r:
    Vec<U>)
    requires
        forall|i: usize| i < count ==> #[trigger] call_requires(work, (i,)),
    ensures
        r@.len() == count,
        forall|i: usize| i < count ==> #[trigger] call_ensures(work, (i,), r@[i as int]),
{
    (0..count).into_par_iter().map(work).collect()
}

/// Each chunk starts within the sequence.
pub proof fn lemma_chunk_bounds(len: nat, size: nat, n: nat)
    requires
        size > 0,
        n < chunk_count(len, size),
    ensures
        n * size < len,
{
    let k = chunk_count(len, size);
    let x = (len + size - 1) as nat;
    lemma_fundamental_div_mod(x as int, size as int);
    lemma_mod_bound(x as int, size as int);
    assert(n * size <= (k - 1) * size) by (nonlinear_arith)
        requires
            n <= k - 1,
    ;
    assert((k - 1) * size == size * k - size) by (nonlinear_arith);
}

/// The chunks hold the whole sequence.
pub proof fn lemma_chunks_cover(len: nat, size: nat)
    requires
        size > 0,
    ensures
        chunk_count(len, size) * size >= len,
{
    let x = (len + size - 1) as nat;
    lemma_fundamental_div_mod(x as int, size as int);
    lemma_mod_bound(x as int, size as int);
    lemma_mul_is_commutative(size as int, chunk_count(len, size) as int);
}

/// When `work` maps each item of a chunk, the whole slice is mapped item by item.
pub proof fn lemma_flat_map<T, U, F: Fn(&[T]) -> Vec<U>>(
    s: Seq<T>,
    size: nat,
    work: F,
    r: Seq<U>,
    g: spec_fn(T) -> U,
)
    requires
        size > 0,
        is_flat_map(s, size, work, r),
        forall|c: &[T], p: Vec<U>| #[trigger]
            call_ensures(work, (c,), p) ==> p@ == c@.map_values(g),
    ensures
        r == s.map_values(g),
{
    let parts = choose|parts: Seq<Vec<U>>| #[trigger]
        are_results(s, size, work, parts) && r == joined(parts);
    lemma_joined_map(s, size, parts, g, parts.len());
}

/// The chunks of a sequence, joined, are the sequence.
pub proof fn lemma_joined_chunks<T>(s: Seq<T>, size: nat, parts: Seq<Vec<T>>)
    requires
        size > 0,
        parts.len() == chunk_count(s.len(), size),
        forall|i: int| 0 <= i < parts.len() ==> (#[trigger] parts[i])@ == chunk_of(s, size, i),
    ensures
        joined(parts) == s,
{
    let same = |x: T| x;
    assert forall|i: int| 0 <= i < parts.len() implies (#[trigger] parts[i])@ == chunk_of(
        s,
        size,
        i,
    ).map_values(same) by {
        assert(chunk_of(s, size, i).map_values(same) =~= chunk_of(s, size, i));
    }
    lemma_joined_map(s, size, parts, same, parts.len());
    assert(s.map_values(same) =~= s);
}

/// Mapping chunk by chunk is mapping item by item.
proof fn lemma_joined_map<T, U>(
    s: Seq<T>,
    size: nat,
    parts: Seq<Vec<U>>,
    g: spec_fn(T) -> U,
    n: nat,
)
    requires
        size > 0,
        n <= parts.len() == chunk_count(s.len(), size),
        forall|i: int|
            0 <= i < parts.len() ==> (#[trigger] parts[i])@ == chunk_of(s, size, i).map_values(g),
    ensures
        joined(parts.take(n as int)) == s.take(
            if n * size < s.len() {
                (n * size) as int
            } else {
                s.len() as int
            },
        ).map_values(g),
        n == parts.len() ==> joined(parts) == s.map_values(g),
    decreases n,
{
    if n == 0 {
        assert(parts.take(0) =~= Seq::empty());
        assert(0 * size == 0);
        assert(joined(parts.take(0)) =~= s.take(0).map_values(g));
    } else {
        let m = (n - 1) as nat;
        lemma_joined_map(s, size, parts, g, m);
        lemma_chunk_bounds(s.len(), size, m);
        assert(parts.take(n as int).drop_last() =~= parts.take(m as int));
        assert(parts.take(n as int).last() == parts[m as int]);
        assert((m + 1) * size == m * size + size) by (nonlinear_arith);
        let end = if n * size < s.len() {
            (n * size) as int
        } else {
            s.len() as int
        };
        assert(s.take((m * size) as int).map_values(g) + chunk_of(s, size, m as int).map_values(g)
            =~= s.take(end).map_values(g));
    }
    if n == parts.len() {
        assert(parts.take(n as int) =~= parts);
        lemma_chunks_cover(s.len(), size);
        assert(s.take(s.len() as int) =~= s);
    }
}

} // verus!
