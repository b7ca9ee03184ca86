//! Sorting of indices by integer keys.

use vstd::multiset::*;
use vstd::prelude::*;
use vstd::relations::*;
use vstd::seq_lib::*;
use vstd::slice::slice_subrange;

verus! {

/// The order of indices by key, and among indices with one key by themselves.
pub open spec fn by_key(keys: Seq<i128>) -> spec_fn(usize, usize) -> bool {
    |a: usize, b: usize|
        keys[a as int] < keys[b as int] || (keys[a as int] == keys[b as int] && a <= b)
}

pub proof fn lemma_by_key_is_total(keys: Seq<i128>)
    ensures
        total_ordering(by_key(keys)),
{
}

/// What is put at the end of sorted items, when none of them comes after it.
proof fn lemma_push(keys: Seq<i128>, s: Seq<usize>, x: usize)
    requires
        sorted_by(s, by_key(keys)),
        forall|k: int| 0 <= k < s.len() ==> #[trigger] by_key(keys)(s[k], x),
    ensures
        sorted_by(s.push(x), by_key(keys)),
        s.push(x).to_multiset() == s.to_multiset().insert(x),
{
    broadcast use group_to_multiset_ensures;

}

/// The items of two sorted lists as one.
fn merge(keys: &Vec<i128>, a: &Vec<usize>, b: &Vec<usize>) -> (r: Vec<usize>)
    requires
        forall|k: int| 0 <= k < a@.len() ==> #[trigger] a@[k] < keys@.len(),
        forall|k: int| 0 <= k < b@.len() ==> #[trigger] b@[k] < keys@.len(),
        sorted_by(a@, by_key(keys@)),
        sorted_by(b@, by_key(keys@)),
        a@.len() + b@.len() <= usize::MAX,
    ensures
        sorted_by(r@, by_key(keys@)),
        r@.to_multiset() == (a@ + b@).to_multiset(),
{
    let mut r: Vec<usize> = Vec::with_capacity(a.len() + b.len());
    let mut i: usize = 0;
    let mut j: usize = 0;
    proof {
        lemma_multiset_commutative(a@.take(0), b@.take(0));
        assert(r@ =~= a@.take(0) + b@.take(0));
    }
    while i < a.len() || j < b.len()
        invariant
            i <= a@.len(),
            j <= b@.len(),
            forall|k: int| 0 <= k < a@.len() ==> #[trigger] a@[k] < keys@.len(),
            forall|k: int| 0 <= k < b@.len() ==> #[trigger] b@[k] < keys@.len(),
            sorted_by(a@, by_key(keys@)),
            sorted_by(b@, by_key(keys@)),
            sorted_by(r@, by_key(keys@)),
            r@.to_multiset() == a@.take(i as int).to_multiset().add(
                b@.take(j as int).to_multiset(),
            ),
            forall|k: int, m: int|
                0 <= k < r@.len() && i <= m < a@.len() ==> #[trigger] by_key(keys@)(r@[k], a@[m]),
            forall|k: int, m: int|
                0 <= k < r@.len() && j <= m < b@.len() ==> #[trigger] by_key(keys@)(r@[k], b@[m]),
        decreases a@.len() - i + b@.len() - j,
    {
        let first: bool = if i == a.len() {
            false
        } else if j == b.len() {
            true
        } else {
            let ka: i128 = keys[a[i]];
            let kb: i128 = keys[b[j]];
            ka < kb || (ka == kb && a[i] <= b[j])
        };
        proof {
            broadcast use group_multiset_axioms;

            lemma_by_key_is_total(keys@);
            let ta = a@.take(i as int);
            let tb = b@.take(j as int);
            if first {
                let x = a@[i as int];
                lemma_push(keys@, r@, x);
                assert(a@.take(i + 1) =~= ta.push(x));
                to_multiset_build(ta, x);
                assert(ta.to_multiset().insert(x).add(tb.to_multiset())
                    =~= ta.to_multiset().add(tb.to_multiset()).insert(x));
                assert forall|m: int| j <= m < b@.len() implies #[trigger] by_key(keys@)(
                    x,
                    b@[m],
                ) by {
                    assert(m == j || by_key(keys@)(b@[j as int], b@[m]));
                }
            } else {
                let x = b@[j as int];
                lemma_push(keys@, r@, x);
                assert(b@.take(j + 1) =~= tb.push(x));
                to_multiset_build(tb, x);
                assert(ta.to_multiset().add(tb.to_multiset().insert(x))
                    =~= ta.to_multiset().add(tb.to_multiset()).insert(x));
                assert forall|m: int| i <= m < a@.len() implies #[trigger] by_key(keys@)(
                    x,
                    a@[m],
                ) by {
                    assert(m == i || by_key(keys@)(a@[i as int], a@[m]));
                }
            }
        }
        if first {
            r.push(a[i]);
            i = i + 1;
        } else {
            r.push(b[j]);
            j = j + 1;
        }
    }
    proof {
        assert(a@.take(i as int) =~= a@);
        assert(b@.take(j as int) =~= b@);
        lemma_multiset_commutative(a@, b@);
    }
    r
}

/// The items in the order of their keys, equal keys in the order of the indices.
pub fn sort_by_keys(keys: &Vec<i128>, items: &[usize]) -> (r: Vec<usize>)
    requires
        forall|k: int| 0 <= k < items@.len() ==> #[trigger] items@[k] < keys@.len(),
    ensures
        r@ == items@.sort_by(by_key(keys@)),
        sorted_by(r@, by_key(keys@)),
        r@.to_multiset() == items@.to_multiset(),
        r@.len() == items@.len(),
    decreases items@.len(),
{
    let n: usize = items.len();
    let r: Vec<usize>;
    if n <= 1 {
        let mut out: Vec<usize> = Vec::new();
        if n == 1 {
            out.push(items[0]);
        }
        assert(out@ =~= items@);
        r = out;
    } else {
        let mid: usize = n / 2;
        let left: &[usize] = slice_subrange(items, 0, mid);
        let right: &[usize] = slice_subrange(items, mid, n);
        let a: Vec<usize> = sort_by_keys(keys, left);
        let b: Vec<usize> = sort_by_keys(keys, right);
        proof {
            lemma_same_bound(left@, a@, keys@.len());
            lemma_same_bound(right@, b@, keys@.len());
            lemma_multiset_commutative(left@, right@);
            lemma_multiset_commutative(a@, b@);
            assert(left@ + right@ =~= items@);
        }
        r = merge(keys, &a, &b);
    }
    proof {
        lemma_by_key_is_total(keys@);
        items@.lemma_sort_by_ensures(by_key(keys@));
        lemma_sorted_unique(r@, items@.sort_by(by_key(keys@)), by_key(keys@));
        to_multiset_len(r@);
        to_multiset_len(items@);
    }
    r
}

/// A rearrangement keeps a bound on the items.
proof fn lemma_same_bound(s: Seq<usize>, r: Seq<usize>, bound: nat)
    requires
        s.to_multiset() == r.to_multiset(),
        forall|k: int| 0 <= k < s.len() ==> #[trigger] s[k] < bound,
    ensures
        forall|k: int| 0 <= k < r.len() ==> #[trigger] r[k] < bound,
{
    assert forall|k: int| 0 <= k < r.len() implies #[trigger] r[k] < bound by {
        to_multiset_contains(r, r[k]);
        to_multiset_contains(s, r[k]);
    }
}

} // verus!
