//! Which tokens to drop from a cache that has grown over its budget.

use crate::float::laws;
use crate::float::Binary64;
use crate::order;
use crate::order::sort_by_keys;
use rand::seq::SliceRandom;
use rand::thread_rng;
use vstd::multiset::*;
use vstd::prelude::*;
use vstd::relations::*;
use vstd::seq_lib::*;

verus! {

/// A token entry in the KV cache with metadata for eviction decisions.
#[derive(Debug, Clone)]
pub struct TokenEntry {
    pub position: usize,
    pub cumulative_attention: Binary64,
    /// How many steps since insertion.
    pub age: usize,
}

/// The indices `0..n`.
pub open spec fn indices(n: nat) -> Seq<usize> {
    Seq::new(n, |i: int| i as usize)
}

pub open spec fn positions(entries: Seq<TokenEntry>) -> Seq<i128> {
    entries.map_values(|e: TokenEntry| e.position as i128)
}

/// Integers that order the entries by attention, NaN aside.
pub open spec fn attentions(entries: Seq<TokenEntry>) -> Seq<i128> {
    entries.map_values(|e: TokenEntry| e.cumulative_attention.order_key() as i128)
}

/// The indices of the entries by position, those at one position in their order.
pub open spec fn by_position(entries: Seq<TokenEntry>) -> Seq<usize> {
    indices(entries.len()).sort_by(order::by_key(positions(entries)))
}

/// How many entries are protected.
pub open spec fn sink_len(entries: Seq<TokenEntry>, sink_count: nat) -> nat {
    if sink_count < entries.len() {
        sink_count
    } else {
        entries.len()
    }
}

/// The entries that are protected: the first ones by position.
pub open spec fn sinks(entries: Seq<TokenEntry>, sink_count: nat) -> Seq<usize> {
    by_position(entries).take(sink_len(entries, sink_count) as int)
}

/// The entries that can be evicted, in their order.
pub open spec fn candidates(entries: Seq<TokenEntry>, sink_count: nat) -> Seq<usize> {
    indices(entries.len()).filter(|i: usize| !sinks(entries, sink_count).contains(i))
}

/// How many entries go: as many as there are beyond the target, and no sink.
pub open spec fn evict_count(entries: Seq<TokenEntry>, sink_count: nat, target: nat) -> nat {
    let free = (entries.len() - sink_len(entries, sink_count)) as nat;
    if entries.len() <= target {
        0
    } else if entries.len() - target < free {
        (entries.len() - target) as nat
    } else {
        free
    }
}

/// Whether `r` names as many entries as have to go, each one once and no sink.
pub open spec fn is_choice(
    entries: Seq<TokenEntry>,
    sink_count: nat,
    target: nat,
    r: Seq<usize>,
) -> bool {
    &&& r.len() == evict_count(entries, sink_count, target)
    &&& r.no_duplicates()
    &&& forall|k: int|
        0 <= k < r.len() ==> candidates(entries, sink_count).contains(#[trigger] r[k])
}

/// Whether no attention among the entries that can be evicted is NaN.
pub open spec fn comparable(entries: Seq<TokenEntry>, sink_count: nat) -> bool {
    forall|k: int|
        0 <= k < candidates(entries, sink_count).len()
            ==> !entries[#[trigger] candidates(entries, sink_count)[k] as int].cumulative_attention.nan()
}

/// Whether, of the entries that can be evicted, none has less attention than
/// another. NaN is neither less nor more than anything.
pub open spec fn level(entries: Seq<TokenEntry>, sink_count: nat) -> bool {
    let c = candidates(entries, sink_count);
    forall|j: int, k: int|
        0 <= j < c.len() && 0 <= k < c.len() ==> !(#[trigger] entries[c[j] as int]).cumulative_attention.below(
            (#[trigger] entries[c[k] as int]).cumulative_attention,
        )
}

/// The entries that can be evicted, by attention, equal ones in their order.
pub open spec fn by_attention(entries: Seq<TokenEntry>, sink_count: nat) -> Seq<usize> {
    candidates(entries, sink_count).sort_by(order::by_key(attentions(entries)))
}

/// Result of an eviction decision: which token positions to evict.
pub trait TokenEviction {
    /// Whether the strategy may evict `r`.
    spec fn selects(&self, entries: Seq<TokenEntry>, target: nat, r: Seq<usize>) -> bool;

    /// The name of the strategy.
    spec fn label(&self) -> Seq<char>;

    /// Given the current cache state and a target size, return indices to evict.
    /// `entries` is the current set of cached tokens.
    /// `target_size` is how many tokens should remain after eviction.
    fn select_evictions(&self, entries: &[TokenEntry], target_size: usize) -> (r: Vec<usize>)
        ensures
            self.selects(entries@, target_size as nat, r@),
    ;

    /// Name of the strategy for display.
    fn name(&self) -> (r: &str)
        ensures
            r@ == self.label(),
    ;
}

/// Sorting the indices rearranges them.
proof fn lemma_by_position(entries: Seq<TokenEntry>)
    requires
        entries.len() <= usize::MAX,
    ensures
        sorted_by(by_position(entries), order::by_key(positions(entries))),
        by_position(entries).len() == entries.len(),
        by_position(entries).no_duplicates(),
        forall|k: int| 0 <= k < entries.len() ==> #[trigger] by_position(entries)[k] < entries.len(),
        forall|i: usize| i < entries.len() ==> #[trigger] by_position(entries).contains(i),
{
    let s = indices(entries.len());
    order::lemma_by_key_is_total(positions(entries));
    s.lemma_sort_by_ensures(order::by_key(positions(entries)));
    lemma_rearranged(s, by_position(entries));
    assert(s.no_duplicates());
    assert forall|i: usize| i < entries.len() implies #[trigger] by_position(entries).contains(i) by {
        assert(s[i as int] == i);
    }
    assert forall|k: int| 0 <= k < entries.len() implies #[trigger] by_position(entries)[k]
        < entries.len() by {
        assert(by_position(entries).contains(by_position(entries)[k]));
        assert(s.contains(by_position(entries)[k]));
    }
}

/// A rearrangement has the same length and the same items, and none twice if
/// there was none twice.
proof fn lemma_rearranged(s: Seq<usize>, r: Seq<usize>)
    requires
        s.to_multiset() == r.to_multiset(),
    ensures
        r.len() == s.len(),
        forall|x: usize| s.contains(x) <==> #[trigger] r.contains(x),
        s.no_duplicates() ==> r.no_duplicates(),
{
    to_multiset_len(s);
    to_multiset_len(r);
    assert forall|x: usize| s.contains(x) <==> #[trigger] r.contains(x) by {
        to_multiset_contains(s, x);
        to_multiset_contains(r, x);
    }
    if s.no_duplicates() {
        s.lemma_multiset_has_no_duplicates();
        r.lemma_multiset_has_no_duplicates_conv();
    }
}

fn order_by_position(entries: &[TokenEntry]) -> (r: Vec<usize>)
    ensures
        r@ == by_position(entries@),
{
    let mut keys: Vec<i128> = Vec::new();
    let mut items: Vec<usize> = Vec::new();
    for i in 0..entries.len()
        invariant
            keys@ =~= positions(entries@.take(i as int)),
            items@ =~= indices(i as nat),
    {
        keys.push(entries[i].position as i128);
        items.push(i);
    }
    assert(entries@.take(entries@.len() as int) =~= entries@);
    sort_by_keys(&keys, items.as_slice())
}

/// Filtered indices: which ones they are, and that they ascend.
pub(crate) proof fn lemma_filtered(n: nat, pred: spec_fn(usize) -> bool)
    requires
        n <= usize::MAX,
    ensures
        forall|i: usize| #[trigger]
            indices(n).filter(pred).contains(i) <==> i < n && pred(i),
        forall|j: int, k: int|
            0 <= j < k < indices(n).filter(pred).len() ==> indices(n).filter(pred)[j]
                < indices(n).filter(pred)[k],
    decreases n,
{
    reveal(Seq::filter);
    let s = indices(n);
    let f = s.filter(pred);
    if n > 0 {
        let m = (n - 1) as nat;
        lemma_filtered(m, pred);
        assert(s.drop_last() =~= indices(m));
        let rest = indices(m).filter(pred);
        assert forall|k: int| 0 <= k < rest.len() implies #[trigger] rest[k] < m by {
            assert(rest.contains(rest[k]));
        }
        assert forall|i: usize| #[trigger] f.contains(i) <==> i < n && pred(i) by {
            if f.contains(i) {
                let k = choose|k: int| 0 <= k < f.len() && f[k] == i;
                if k < rest.len() {
                    assert(rest[k] == i);
                    assert(rest.contains(i));
                }
            }
            if i < m && pred(i) {
                assert(rest.contains(i));
                let k = choose|k: int| 0 <= k < rest.len() && rest[k] == i;
                assert(f[k] == i);
            }
            if i == m && pred(i) {
                assert(f[f.len() - 1] == i);
            }
        }
    } else {
        assert(f =~= Seq::empty());
    }
}

/// The entries that are no sinks: which ones, how many, and none twice.
proof fn lemma_candidates(entries: Seq<TokenEntry>, sink_count: nat)
    requires
        entries.len() <= usize::MAX,
    ensures
        forall|i: usize| #[trigger]
            candidates(entries, sink_count).contains(i) <==> i < entries.len() && !sinks(
                entries,
                sink_count,
            ).contains(i),
        candidates(entries, sink_count).no_duplicates(),
        candidates(entries, sink_count).len() == entries.len() - sink_len(entries, sink_count),
        forall|k: int|
            sink_len(entries, sink_count) <= k < entries.len() ==> candidates(
                entries,
                sink_count,
            ).contains(#[trigger] by_position(entries)[k]),
{
    let all = by_position(entries);
    let first = sinks(entries, sink_count);
    let p = sink_len(entries, sink_count) as int;
    let c = candidates(entries, sink_count);
    lemma_filtered(entries.len(), |i: usize| !first.contains(i));
    lemma_by_position(entries);
    assert forall|k: int| p <= k < entries.len() implies c.contains(#[trigger] all[k]) by {
        if first.contains(all[k]) {
            let j = choose|j: int| 0 <= j < first.len() && first[j] == all[k];
            assert(all[j] == all[k]);
        }
    }
    let rest = all.skip(p);
    assert(c.to_set() =~= rest.to_set()) by {
        assert forall|i: usize| c.contains(i) implies rest.contains(i) by {
            assert(all.contains(i));
            let k = choose|k: int| 0 <= k < all.len() && all[k] == i;
            if k < p {
                assert(first[k] == i);
            }
            assert(rest[k - p] == i);
        }
        assert forall|i: usize| rest.contains(i) implies c.contains(i) by {
            let k = choose|k: int| 0 <= k < rest.len() && rest[k] == i;
            assert(all[k + p] == i);
        }
    }
    c.unique_seq_to_set();
    rest.unique_seq_to_set();
}

/// The indices below `n` that are not among `sinks`, in their order.
fn all_but(n: usize, sinks: &[usize]) -> (r: Vec<usize>)
    requires
        forall|k: int| 0 <= k < sinks@.len() ==> #[trigger] sinks@[k] < n,
    ensures
        r@ == indices(n as nat).filter(|i: usize| !sinks@.contains(i)),
{
    let mut protected: Vec<bool> = Vec::new();
    for i in 0..n
        invariant
            protected@.len() == i,
            forall|k: int| 0 <= k < i ==> !#[trigger] protected@[k],
    {
        protected.push(false);
    }
    for j in 0..sinks.len()
        invariant
            protected@.len() == n,
            forall|k: int| 0 <= k < sinks@.len() ==> #[trigger] sinks@[k] < n,
            forall|k: int|
                0 <= k < n ==> (#[trigger] protected@[k] <==> sinks@.take(j as int).contains(
                    k as usize,
                )),
    {
        proof {
            let before = sinks@.take(j as int);
            let after = sinks@.take(j + 1);
            let x = sinks@[j as int];
            assert(after =~= before.push(x));
            assert forall|i: usize| #[trigger] after.contains(i) <==> before.contains(i) || i == x by {
                assert(after[j as int] == x);
                if before.contains(i) {
                    let k = choose|k: int| 0 <= k < before.len() && before[k] == i;
                    assert(after[k] == i);
                }
            }
        }
        protected.set(sinks[j], true);
    }
    assert(sinks@.take(sinks@.len() as int) =~= sinks@);
    let ghost pred = |i: usize| !sinks@.contains(i);
    let mut r: Vec<usize> = Vec::new();
    assert(r@ =~= indices(0).filter(pred)) by {
        reveal(Seq::filter);
    }
    for i in 0..n
        invariant
            protected@.len() == n,
            forall|k: int|
                0 <= k < n ==> (#[trigger] protected@[k] <==> sinks@.contains(k as usize)),
            pred == (|i: usize| !sinks@.contains(i)),
            r@ == indices(i as nat).filter(pred),
    {
        proof {
            reveal(Seq::filter);
            assert(indices((i + 1) as nat).drop_last() =~= indices(i as nat));
            assert(indices((i + 1) as nat).last() == i);
        }
        if !protected[i] {
            r.push(i);
        }
    }
    r
}

/// How many entries to evict.
fn count_evictions(len: usize, protected: usize, target_size: usize) -> (r: usize)
    requires
        target_size < len,
        protected <= len,
    ensures
        r == (if len - target_size < len - protected {
            len - target_size
        } else {
            len - protected
        }),
{
    let to_evict: usize = len - target_size;
    let free: usize = len - protected;
    if to_evict < free {
        to_evict
    } else {
        free
    }
}

/// The items from `start` to `end`.
fn copy_range(items: &Vec<usize>, start: usize, end: usize) -> (r: Vec<usize>)
    requires
        start <= end <= items@.len(),
    ensures
        r@ == items@.subrange(start as int, end as int),
{
    let mut r: Vec<usize> = Vec::with_capacity(end - start);
    for i in start..end
        invariant
            start <= i <= end <= items@.len(),
            r@ =~= items@.subrange(start as int, i as int),
    {
        r.push(items[i]);
    }
    r
}

fn least(a: usize, b: usize) -> (r: usize)
    ensures
        r == (if a < b {
            a
        } else {
            b
        }),
{
    if a < b {
        a
    } else {
        b
    }
}

/// Keep the first `sink_count` tokens (attention sinks) and the most recent tokens
/// to fill the remaining budget.
pub struct SlidingWindow {
    pub sink_count: usize,
}

impl SlidingWindow {
    pub fn new(sink_count: usize) -> (r: Self)
        ensures
            r.sink_count == sink_count,
    {
        Self { sink_count }
    }
}

impl TokenEviction for SlidingWindow {
    /// The entries with the lowest positions that are no sinks, lowest first.
    open spec fn selects(&self, entries: Seq<TokenEntry>, target: nat, r: Seq<usize>) -> bool {
        let first = sink_len(entries, self.sink_count as nat);
        let count = evict_count(entries, self.sink_count as nat, target);
        r == by_position(entries).subrange(first as int, (first + count) as int)
    }

    open spec fn label(&self) -> Seq<char> {
        "Sliding Window"@
    }

    fn select_evictions(&self, entries: &[TokenEntry], target_size: usize) -> (r: Vec<usize>) {
        let len: usize = entries.len();
        proof {
            lemma_by_position(entries@);
        }
        if len <= target_size {
            let r: Vec<usize> = Vec::new();
            let ghost first = sink_len(entries@, self.sink_count as nat) as int;
            assert(r@ =~= by_position(entries@).subrange(first, first));
            return r;
        }
        let sorted: Vec<usize> = order_by_position(entries);
        let protected: usize = least(self.sink_count, len);
        let count: usize = count_evictions(len, protected, target_size);
        copy_range(&sorted, protected, protected + count)
    }

    fn name(&self) -> (r: &str) {
        "Sliding Window"
    }
}

/// The entries that can be evicted, in their order.
fn find_candidates(entries: &[TokenEntry], sink_count: usize) -> (r: Vec<usize>)
    ensures
        r@ == candidates(entries@, sink_count as nat),
{
    let len: usize = entries.len();
    let sorted: Vec<usize> = order_by_position(entries);
    proof {
        lemma_by_position(entries@);
    }
    let protected: Vec<usize> = copy_range(&sorted, 0, least(sink_count, len));
    assert(protected@ =~= sinks(entries@, sink_count as nat));
    all_but(len, protected.as_slice())
}

/// The first items of a rearrangement of the candidates are a choice.
proof fn lemma_choice(entries: Seq<TokenEntry>, sink_count: nat, target: nat, shuffled: Seq<usize>)
    requires
        entries.len() <= usize::MAX,
        shuffled.to_multiset() == candidates(entries, sink_count).to_multiset(),
    ensures
        evict_count(entries, sink_count, target) <= shuffled.len(),
        is_choice(
            entries,
            sink_count,
            target,
            shuffled.take(evict_count(entries, sink_count, target) as int),
        ),
{
    let c = candidates(entries, sink_count);
    let r = shuffled.take(evict_count(entries, sink_count, target) as int);
    lemma_candidates(entries, sink_count);
    lemma_rearranged(c, shuffled);
    assert forall|k: int| 0 <= k < r.len() implies c.contains(#[trigger] r[k]) by {
        assert(shuffled.contains(shuffled[k]));
    }
}

/// Whether the attention of one of these entries is NaN.
fn has_nan(entries: &[TokenEntry], items: &Vec<usize>) -> (r: bool)
    requires
        forall|k: int| 0 <= k < items@.len() ==> #[trigger] items@[k] < entries@.len(),
    ensures
        r <==> exists|k: int|
            0 <= k < items@.len() && entries@[#[trigger] items@[k] as int].cumulative_attention.nan(),
{
    for i in 0..items.len()
        invariant
            forall|k: int| 0 <= k < items@.len() ==> #[trigger] items@[k] < entries@.len(),
            forall|k: int|
                0 <= k < i ==> !entries@[#[trigger] items@[k] as int].cumulative_attention.nan(),
    {
        if entries[items[i]].cumulative_attention.is_nan() {
            assert(entries@[items@[i as int] as int].cumulative_attention.nan());
            return true;
        }
    }
    false
}

/// Without NaN, entries of which none has less attention than another are sorted
/// as they stand.
proof fn lemma_level(entries: Seq<TokenEntry>, sink_count: nat)
    requires
        entries.len() <= usize::MAX,
        comparable(entries, sink_count),
        level(entries, sink_count),
    ensures
        by_attention(entries, sink_count) == candidates(entries, sink_count),
{
    let c = candidates(entries, sink_count);
    let keys = attentions(entries);
    let key = order::by_key(keys);
    let first = sinks(entries, sink_count);
    lemma_candidates(entries, sink_count);
    lemma_filtered(entries.len(), |i: usize| !first.contains(i));
    order::lemma_by_key_is_total(keys);
    c.lemma_sort_by_ensures(key);
    assert forall|j: int, k: int| 0 <= j < k < c.len() implies #[trigger] key(c[j], c[k]) by {
        assert(c.contains(c[j]) && c.contains(c[k]));
        let a = entries[c[j] as int].cumulative_attention;
        let b = entries[c[k] as int].cumulative_attention;
        assert(!a.nan() && !b.nan());
        assert(!a.below(b) && !b.below(a));
        laws::law_order_key(a, b);
        laws::law_order_key(b, a);
        assert(c[j] < c[k]);
    }
    lemma_sorted_unique(by_attention(entries, sink_count), c, key);
}

/// Evict tokens with the lowest cumulative attention scores.
/// Always protects the first `sink_count` positions.
pub struct H2OEviction {
    pub sink_count: usize,
}

impl H2OEviction {
    pub fn new(sink_count: usize) -> (r: Self)
        ensures
            r.sink_count == sink_count,
    {
        Self { sink_count }
    }
}

impl TokenEviction for H2OEviction {
    /// The entries with the lowest attention that are no sinks, lowest first,
    /// and the first ones where none has less than another. Which of them go is
    /// left open where one attention is NaN and of two others one is less.
    open spec fn selects(&self, entries: Seq<TokenEntry>, target: nat, r: Seq<usize>) -> bool {
        let sink_count = self.sink_count as nat;
        &&& is_choice(entries, sink_count, target, r)
        &&& comparable(entries, sink_count) ==> r == by_attention(entries, sink_count).take(
            evict_count(entries, sink_count, target) as int,
        )
        &&& level(entries, sink_count) ==> r == candidates(entries, sink_count).take(
            evict_count(entries, sink_count, target) as int,
        )
    }

    open spec fn label(&self) -> Seq<char> {
        "H2O (Heavy Hitter Oracle)"@
    }

    fn select_evictions(&self, entries: &[TokenEntry], target_size: usize) -> (r: Vec<usize>) {
        let len: usize = entries.len();
        proof {
            let c = candidates(entries@, self.sink_count as nat);
            let key = order::by_key(attentions(entries@));
            order::lemma_by_key_is_total(attentions(entries@));
            c.lemma_sort_by_ensures(key);
            lemma_choice(
                entries@,
                self.sink_count as nat,
                target_size as nat,
                by_attention(entries@, self.sink_count as nat),
            );
        }
        if len <= target_size {
            let r: Vec<usize> = Vec::new();
            assert(r@ =~= by_attention(entries@, self.sink_count as nat).take(0));
            assert(r@ =~= candidates(entries@, self.sink_count as nat).take(0));
            return r;
        }
        let free: Vec<usize> = find_candidates(entries, self.sink_count);
        let protected: usize = least(self.sink_count, len);
        let count: usize = count_evictions(len, protected, target_size);
        proof {
            lemma_candidates(entries@, self.sink_count as nat);
            assert forall|k: int| 0 <= k < free@.len() implies #[trigger] free@[k] < len by {
                assert(free@.contains(free@[k]));
            }
        }
        if has_nan(entries, &free) {
            proof {
                lemma_choice(
                    entries@,
                    self.sink_count as nat,
                    target_size as nat,
                    candidates(entries@, self.sink_count as nat),
                );
            }
            return copy_range(&free, 0, count);
        }
        let mut keys: Vec<i128> = Vec::new();
        for i in 0..len
            invariant
                len == entries@.len(),
                keys@ =~= attentions(entries@.take(i as int)),
        {
            keys.push(entries[i].cumulative_attention.to_order_key());
        }
        assert(entries@.take(len as int) =~= entries@);
        let sorted: Vec<usize> = sort_by_keys(&keys, free.as_slice());
        proof {
            if level(entries@, self.sink_count as nat) {
                lemma_level(entries@, self.sink_count as nat);
            }
        }
        copy_range(&sorted, 0, count)
    }

    fn name(&self) -> (r: &str) {
        "H2O (Heavy Hitter Oracle)"
    }
}

/// Rand's `SliceRandom::shuffle` with `thread_rng`: the same items in some
/// order. The order depends on chance.
#[verifier::external_body]
fn shuffle(items: Vec<usize>) -> (r: Vec<usize>)
    ensures
        r@.to_multiset() == items@.to_multiset(),
{
    let mut items = items;
    items.shuffle(&mut thread_rng());
    items
}

/// Randomly evict tokens, always protecting sinks.
pub struct RandomEviction {
    pub sink_count: usize,
}

impl RandomEviction {
    pub fn new(sink_count: usize) -> (r: Self)
        ensures
            r.sink_count == sink_count,
    {
        Self { sink_count }
    }

    /// The evictions for a given order of the entries that can be evicted: the
    /// first ones.
    pub fn select_from(
        &self,
        entries: &[TokenEntry],
        target_size: usize,
        shuffled: &Vec<usize>,
    ) -> (r: Vec<usize>)
        requires
            shuffled@.to_multiset() == candidates(
                entries@,
                self.sink_count as nat,
            ).to_multiset(),
        ensures
            r@ == shuffled@.take(
                evict_count(entries@, self.sink_count as nat, target_size as nat) as int,
            ),
            self.selects(entries@, target_size as nat, r@),
    {
        let len: usize = entries.len();
        proof {
            lemma_choice(entries@, self.sink_count as nat, target_size as nat, shuffled@);
        }
        if len <= target_size {
            let r: Vec<usize> = Vec::new();
            assert(r@ =~= shuffled@.take(0));
            return r;
        }
        let protected: usize = least(self.sink_count, len);
        let count: usize = count_evictions(len, protected, target_size);
        copy_range(shuffled, 0, count)
    }
}

impl TokenEviction for RandomEviction {
    /// As many entries as have to go, whichever chance picks, and no sink.
    open spec fn selects(&self, entries: Seq<TokenEntry>, target: nat, r: Seq<usize>) -> bool {
        is_choice(entries, self.sink_count as nat, target, r)
    }

    open spec fn label(&self) -> Seq<char> {
        "Random"@
    }

    fn select_evictions(&self, entries: &[TokenEntry], target_size: usize) -> (r: Vec<usize>) {
        if entries.len() <= target_size {
            return Vec::new();
        }
        let shuffled: Vec<usize> = shuffle(find_candidates(entries, self.sink_count));
        self.select_from(entries, target_size, &shuffled)
    }

    fn name(&self) -> (r: &str) {
        "Random"
    }
}

/// Convenience enum wrapping all strategies for CLI dispatch.
pub enum EvictionStrategy {
    Sliding(SlidingWindow),
    H2O(H2OEviction),
    Random(RandomEviction),
}

impl EvictionStrategy {
    /// Whether the strategy may evict `r`.
    pub open spec fn selects(
        &self,
        entries: Seq<TokenEntry>,
        target: nat,
        r: Seq<usize>,
    ) -> bool {
        match self {
            EvictionStrategy::Sliding(s) => s.selects(entries, target, r),
            EvictionStrategy::H2O(h) => h.selects(entries, target, r),
            EvictionStrategy::Random(x) => x.selects(entries, target, r),
        }
    }

    /// The name of the strategy.
    pub open spec fn label(&self) -> Seq<char> {
        match self {
            EvictionStrategy::Sliding(s) => s.label(),
            EvictionStrategy::H2O(h) => h.label(),
            EvictionStrategy::Random(x) => x.label(),
        }
    }

    /// The strategy that is wrapped.
    pub fn as_eviction(&self) -> (r: &dyn TokenEviction)
        ensures
            forall|entries: Seq<TokenEntry>, target: nat, s: Seq<usize>| #[trigger]
                r.selects(entries, target, s) == self.selects(entries, target, s),
            r.label() == self.label(),
    {
        match self {
            EvictionStrategy::Sliding(s) => {
                return s;
            },
            EvictionStrategy::H2O(h) => {
                return h;
            },
            EvictionStrategy::Random(x) => {
                return x;
            },
        };
    }
}

/// Whatever a strategy evicts is a choice: as many entries as have to go, each
/// one once and no sink.
pub proof fn law_evictions_are_a_choice(
    strategy: EvictionStrategy,
    entries: Seq<TokenEntry>,
    target: nat,
    r: Seq<usize>,
)
    requires
        entries.len() <= usize::MAX,
        strategy.selects(entries, target, r),
    ensures
        is_choice(
            entries,
            match strategy {
                EvictionStrategy::Sliding(s) => s.sink_count,
                EvictionStrategy::H2O(h) => h.sink_count,
                EvictionStrategy::Random(x) => x.sink_count,
            } as nat,
            target,
            r,
        ),
{
    if let EvictionStrategy::Sliding(s) = strategy {
        let sink_count = s.sink_count as nat;
        let all = by_position(entries);
        let p = sink_len(entries, sink_count) as int;
        lemma_by_position(entries);
        lemma_candidates(entries, sink_count);
        assert forall|k: int| 0 <= k < r.len() implies candidates(entries, sink_count).contains(
            #[trigger] r[k],
        ) by {
            assert(r[k] == all[p + k]);
        }
    }
}

/// No sink is evicted, and no sink lies at a higher position than an entry that
/// can be evicted.
pub proof fn law_sinks_are_protected(
    entries: Seq<TokenEntry>,
    sink_count: nat,
    target: nat,
    r: Seq<usize>,
    sink: usize,
    evicted: usize,
)
    requires
        entries.len() <= usize::MAX,
        is_choice(entries, sink_count, target, r),
        sinks(entries, sink_count).contains(sink),
        r.contains(evicted),
    ensures
        !r.contains(sink),
        evicted < entries.len(),
        sink < entries.len(),
        entries[sink as int].position <= entries[evicted as int].position,
{
    let all = by_position(entries);
    let first = sinks(entries, sink_count);
    lemma_by_position(entries);
    lemma_candidates(entries, sink_count);
    if r.contains(sink) {
        let k = choose|k: int| 0 <= k < r.len() && r[k] == sink;
        assert(candidates(entries, sink_count).contains(r[k]));
    }
    let k = choose|k: int| 0 <= k < r.len() && r[k] == evicted;
    assert(candidates(entries, sink_count).contains(r[k]));
    assert(all.contains(evicted));
    let a = choose|a: int| 0 <= a < first.len() && first[a] == sink;
    let b = choose|b: int| 0 <= b < all.len() && all[b] == evicted;
    assert(all[a] == sink);
    if b < first.len() {
        assert(first[b] == evicted);
    }
    assert(order::by_key(positions(entries))(all[a], all[b]));
}

/// Nothing is evicted while the entries do not exceed the target.
pub proof fn law_under_budget(
    entries: Seq<TokenEntry>,
    sink_count: nat,
    target: nat,
    r: Seq<usize>,
)
    requires
        is_choice(entries, sink_count, target, r),
        entries.len() <= target,
    ensures
        r.len() == 0,
{
}

/// After eviction as many entries remain as the target says, or the sinks if
/// there are more of them.
pub proof fn law_target_is_met(
    entries: Seq<TokenEntry>,
    sink_count: nat,
    target: nat,
    r: Seq<usize>,
)
    requires
        is_choice(entries, sink_count, target, r),
        entries.len() > target,
    ensures
        sink_len(entries, sink_count) <= target ==> entries.len() - r.len() == target,
        sink_len(entries, sink_count) > target ==> entries.len() - r.len() == sink_len(
            entries,
            sink_count,
        ),
{
}

/// The sliding window evicts from the lowest position up: what it keeps beside
/// the sinks lies no lower than what it evicts.
pub proof fn law_sliding_window_keeps_the_latest(
    window: SlidingWindow,
    entries: Seq<TokenEntry>,
    target: nat,
    r: Seq<usize>,
    evicted: usize,
    kept: usize,
)
    requires
        entries.len() <= usize::MAX,
        window.selects(entries, target, r),
        r.contains(evicted),
        candidates(entries, window.sink_count as nat).contains(kept),
        !r.contains(kept),
    ensures
        entries[evicted as int].position <= entries[kept as int].position,
{
    let all = by_position(entries);
    let sink_count = window.sink_count as nat;
    let p = sink_len(entries, sink_count) as int;
    lemma_by_position(entries);
    lemma_candidates(entries, sink_count);
    let k = choose|k: int| 0 <= k < r.len() && r[k] == evicted;
    assert(all[p + k] == evicted);
    assert(all[p + k] < entries.len());
    assert(all.contains(kept));
    let b = choose|b: int| 0 <= b < all.len() && all[b] == kept;
    if b < p {
        assert(sinks(entries, sink_count)[b] == kept);
    }
    if b < p + r.len() {
        assert(r[b - p] == kept);
    }
    assert(order::by_key(positions(entries))(all[p + k], all[b]));
}

/// H2O evicts from the lowest attention up: what it keeps beside the sinks has
/// no less attention than what it evicts.
pub proof fn law_h2o_keeps_the_heavy_hitters(
    h2o: H2OEviction,
    entries: Seq<TokenEntry>,
    target: nat,
    r: Seq<usize>,
    evicted: usize,
    kept: usize,
)
    requires
        entries.len() <= usize::MAX,
        h2o.selects(entries, target, r),
        comparable(entries, h2o.sink_count as nat),
        r.contains(evicted),
        candidates(entries, h2o.sink_count as nat).contains(kept),
        !r.contains(kept),
    ensures
        !entries[kept as int].cumulative_attention.below(
            entries[evicted as int].cumulative_attention,
        ),
{
    let sink_count = h2o.sink_count as nat;
    let c = candidates(entries, sink_count);
    let sorted = by_attention(entries, sink_count);
    let keys = attentions(entries);
    order::lemma_by_key_is_total(keys);
    c.lemma_sort_by_ensures(order::by_key(keys));
    lemma_rearranged(c, sorted);
    lemma_candidates(entries, sink_count);
    let k = choose|k: int| 0 <= k < r.len() && r[k] == evicted;
    assert(c.contains(r[k]));
    assert(sorted.contains(kept));
    let b = choose|b: int| 0 <= b < sorted.len() && sorted[b] == kept;
    lemma_choice(entries, sink_count, target, sorted);
    if b < r.len() {
        assert(r[b] == kept);
    }
    assert(sorted[k] == evicted);
    assert(order::by_key(keys)(sorted[k], sorted[b]));
    let i = choose|i: int| 0 <= i < c.len() && c[i] == evicted;
    let j = choose|j: int| 0 <= j < c.len() && c[j] == kept;
    assert(!entries[c[i] as int].cumulative_attention.nan());
    assert(!entries[c[j] as int].cumulative_attention.nan());
    laws::law_order_key(
        entries[kept as int].cumulative_attention,
        entries[evicted as int].cumulative_attention,
    );
}

/// The entries that come before entry `i`: those at lower positions, and at its
/// own position those with lower indices.
pub open spec fn earlier(entries: Seq<TokenEntry>, i: usize) -> Set<usize> {
    Set::new(
        |j: usize|
            j < entries.len() && (entries[j as int].position < entries[i as int].position || (
            entries[j as int].position == entries[i as int].position && j < i)),
    )
}

/// Of the entries that at least `sink_count` others come before, those that have
/// less attention than entry `i`, or no more and a lower index.
pub open spec fn lighter(entries: Seq<TokenEntry>, sink_count: nat, i: usize) -> Set<usize> {
    Set::new(
        |j: usize|
            {
                let a = entries[j as int].cumulative_attention;
                let b = entries[i as int].cumulative_attention;
                &&& j < entries.len()
                &&& earlier(entries, j).len() >= sink_count
                &&& a.below(b) || (!b.below(a) && j < i)
            },
    )
}

/// In the order of the positions, as many entries come before an entry as its
/// place says.
proof fn lemma_place(entries: Seq<TokenEntry>, b: int)
    requires
        entries.len() <= usize::MAX,
        0 <= b < entries.len(),
    ensures
        earlier(entries, by_position(entries)[b]).finite(),
        earlier(entries, by_position(entries)[b]).len() == b,
{
    let all = by_position(entries);
    let key = order::by_key(positions(entries));
    let i = all[b];
    let front = all.take(b);
    lemma_by_position(entries);
    assert forall|j: usize| earlier(entries, i).contains(j) <==> front.to_set().contains(j) by {
        if earlier(entries, i).contains(j) {
            assert(all.contains(j));
            let c = choose|c: int| 0 <= c < all.len() && all[c] == j;
            if c > b {
                assert(key(all[b], all[c]));
            }
            assert(front[c] == j);
        }
        if front.contains(j) {
            let c = choose|c: int| 0 <= c < front.len() && front[c] == j;
            assert(all[c] == j);
            assert(all[c] < entries.len() && all[b] < entries.len());
            assert(key(all[c], all[b]));
        }
    }
    assert(earlier(entries, i) =~= front.to_set());
    front.unique_seq_to_set();
}

/// An entry can be evicted if and only if at least as many entries come before
/// it as are to be protected.
proof fn lemma_free(entries: Seq<TokenEntry>, sink_count: nat, i: usize)
    requires
        entries.len() <= usize::MAX,
        i < entries.len(),
    ensures
        candidates(entries, sink_count).contains(i) <==> earlier(entries, i).len() >= sink_count,
        earlier(entries, i).len() < entries.len(),
{
    let all = by_position(entries);
    let first = sinks(entries, sink_count);
    lemma_by_position(entries);
    lemma_candidates(entries, sink_count);
    assert(all.contains(i));
    let b = choose|b: int| 0 <= b < all.len() && all[b] == i;
    lemma_place(entries, b);
    if b < first.len() {
        assert(first[b] == i);
    }
    if first.contains(i) {
        let c = choose|c: int| 0 <= c < first.len() && first[c] == i;
        assert(all[c] == i);
    }
}

/// Whatever the strategy, as many entries go as exceed the target, but none of
/// the first `sink_count` by position: each of those that go is another one, and
/// has at least `sink_count` entries before it.
pub proof fn law_as_many_sinks_as_asked(
    strategy: EvictionStrategy,
    entries: Seq<TokenEntry>,
    target: nat,
    r: Seq<usize>,
)
    requires
        entries.len() <= usize::MAX,
        strategy.selects(entries, target, r),
    ensures
        ({
            let sink_count = match strategy {
                EvictionStrategy::Sliding(s) => s.sink_count,
                EvictionStrategy::H2O(h) => h.sink_count,
                EvictionStrategy::Random(x) => x.sink_count,
            };
            &&& entries.len() <= target || entries.len() <= sink_count ==> r.len() == 0
            &&& sink_count <= target < entries.len() ==> r.len() == entries.len() - target
            &&& target <= sink_count < entries.len() ==> r.len() == entries.len() - sink_count
            &&& forall|m: int, n: int| 0 <= m < n < r.len() ==> r[m] != r[n]
            &&& forall|m: int|
                0 <= m < r.len() ==> #[trigger] r[m] < entries.len() && earlier(
                    entries,
                    r[m],
                ).len() >= sink_count
            &&& forall|i: usize|
                i < entries.len() && #[trigger] earlier(entries, i).len() < sink_count
                    ==> !r.contains(i)
        }),
{
    let sink_count = match strategy {
        EvictionStrategy::Sliding(s) => s.sink_count,
        EvictionStrategy::H2O(h) => h.sink_count,
        EvictionStrategy::Random(x) => x.sink_count,
    } as nat;
    law_evictions_are_a_choice(strategy, entries, target, r);
    lemma_candidates(entries, sink_count);
    assert forall|m: int| 0 <= m < r.len() implies #[trigger] r[m] < entries.len() && earlier(
        entries,
        r[m],
    ).len() >= sink_count by {
        assert(candidates(entries, sink_count).contains(r[m]));
        lemma_free(entries, sink_count, r[m]);
    }
}

/// Of any number of entries, exactly as many are protected as was asked for, or
/// all of them if there are fewer: that many have fewer than `sink_count`
/// entries before them.
pub proof fn law_number_of_sinks(entries: Seq<TokenEntry>, sink_count: nat)
    requires
        entries.len() <= usize::MAX,
    ensures
        ({
            let protected = Set::new(
                |i: usize| i < entries.len() && earlier(entries, i).len() < sink_count,
            );
            &&& protected == sinks(entries, sink_count).to_set()
            &&& protected.finite()
            &&& sink_count <= entries.len() ==> protected.len() == sink_count
            &&& sink_count >= entries.len() ==> protected.len() == entries.len()
        }),
{
    let protected = Set::new(
        |i: usize| i < entries.len() && earlier(entries, i).len() < sink_count,
    );
    let all = by_position(entries);
    let first = sinks(entries, sink_count);
    lemma_by_position(entries);
    lemma_candidates(entries, sink_count);
    assert forall|i: usize| protected.contains(i) <==> first.to_set().contains(i) by {
        if i < entries.len() {
            lemma_free(entries, sink_count, i);
        } else if first.contains(i) {
            let c = choose|c: int| 0 <= c < first.len() && first[c] == i;
            assert(all[c] < entries.len());
        }
    }
    assert(protected =~= first.to_set());
    first.unique_seq_to_set();
}

/// The sliding window evicts the entries that follow the sinks, one after the
/// other: before the first of them come `sink_count` entries, and before each
/// next one, one more.
pub proof fn law_sliding_window_takes_the_next(
    window: SlidingWindow,
    entries: Seq<TokenEntry>,
    target: nat,
    r: Seq<usize>,
    m: int,
)
    requires
        entries.len() <= usize::MAX,
        window.selects(entries, target, r) || EvictionStrategy::Sliding(window).selects(
            entries,
            target,
            r,
        ),
        0 <= m < r.len(),
    ensures
        r[m] < entries.len(),
        earlier(entries, r[m]).len() == window.sink_count + m,
{
    let p = sink_len(entries, window.sink_count as nat) as int;
    lemma_by_position(entries);
    assert(r[m] == by_position(entries)[p + m]);
    lemma_place(entries, p + m);
}

/// H2O evicts the entries with the least attention, one after the other: of
/// those that are no sinks, none is lighter than the first one that goes, and
/// one more is lighter than each next one. No attention among them may be NaN,
/// unless none is less than another.
pub proof fn law_h2o_takes_the_lightest(
    h2o: H2OEviction,
    entries: Seq<TokenEntry>,
    target: nat,
    r: Seq<usize>,
    m: int,
)
    requires
        entries.len() <= usize::MAX,
        h2o.selects(entries, target, r) || EvictionStrategy::H2O(h2o).selects(entries, target, r),
        ({
            ||| forall|i: usize|
                i < entries.len() && #[trigger] earlier(entries, i).len() >= h2o.sink_count
                    ==> !entries[i as int].cumulative_attention.nan()
            ||| forall|i: usize, j: usize|
                i < entries.len() && j < entries.len() && #[trigger] earlier(entries, i).len()
                    >= h2o.sink_count && #[trigger] earlier(entries, j).len() >= h2o.sink_count
                    ==> !entries[i as int].cumulative_attention.below(
                    entries[j as int].cumulative_attention,
                )
        }),
        0 <= m < r.len(),
    ensures
        r[m] < entries.len(),
        lighter(entries, h2o.sink_count as nat, r[m]).finite(),
        lighter(entries, h2o.sink_count as nat, r[m]).len() == m,
{
    let k = h2o.sink_count as nat;
    let c = candidates(entries, k);
    let first = sinks(entries, k);
    let keys = attentions(entries);
    let key = order::by_key(keys);
    lemma_candidates(entries, k);
    lemma_filtered(entries.len(), |i: usize| !first.contains(i));
    assert forall|j: int| 0 <= j < c.len() implies #[trigger] c[j] < entries.len() && earlier(
        entries,
        c[j],
    ).len() >= k by {
        assert(c.contains(c[j]));
        lemma_free(entries, k, c[j]);
    }
    if comparable(entries, k) {
        let sorted = by_attention(entries, k);
        order::lemma_by_key_is_total(keys);
        c.lemma_sort_by_ensures(key);
        lemma_rearranged(c, sorted);
        lemma_choice(entries, k, target, sorted);
        assert(c.contains(r[m]));
        let front = sorted.take(m);
        let i = r[m];
        assert(sorted[m] == i);
        assert forall|j: usize|
            lighter(entries, k, i).contains(j) <==> front.to_set().contains(j) by {
            if j < entries.len() {
                lemma_free(entries, k, j);
            }
            if c.contains(j) {
                let x = choose|x: int| 0 <= x < c.len() && c[x] == j;
                let y = choose|y: int| 0 <= y < c.len() && c[y] == i;
                assert(!entries[c[x] as int].cumulative_attention.nan());
                assert(!entries[c[y] as int].cumulative_attention.nan());
                let a = entries[j as int].cumulative_attention;
                let b = entries[i as int].cumulative_attention;
                laws::law_order_key(a, b);
                laws::law_order_key(b, a);
                assert(sorted.contains(j));
                let z = choose|z: int| 0 <= z < sorted.len() && sorted[z] == j;
                if z < m {
                    assert(front[z] == j);
                    assert(key(sorted[z], sorted[m]));
                } else if z > m {
                    assert(key(sorted[m], sorted[z]));
                    if front.contains(j) {
                        let w = choose|w: int| 0 <= w < front.len() && front[w] == j;
                        assert(sorted[w] == j);
                    }
                } else if front.contains(j) {
                    let w = choose|w: int| 0 <= w < front.len() && front[w] == j;
                    assert(sorted[w] == j);
                }
            } else if front.contains(j) {
                let w = choose|w: int| 0 <= w < front.len() && front[w] == j;
                assert(sorted[w] == j);
                assert(sorted.contains(j));
            }
        }
        assert(lighter(entries, k, i) =~= front.to_set());
        front.unique_seq_to_set();
    } else {
        assert(level(entries, k));
        let front = c.take(m);
        let i = r[m];
        assert(c[m] == i);
        assert forall|j: usize|
            lighter(entries, k, i).contains(j) <==> front.to_set().contains(j) by {
            if j < entries.len() {
                lemma_free(entries, k, j);
            }
            if c.contains(j) {
                let x = choose|x: int| 0 <= x < c.len() && c[x] == j;
                assert(earlier(entries, c[x]).len() >= k && earlier(entries, c[m]).len() >= k);
                if x < m {
                    assert(front[x] == j);
                }
            }
            if front.contains(j) {
                let x = choose|x: int| 0 <= x < front.len() && front[x] == j;
                assert(c[x] == j);
            }
        }
        assert(lighter(entries, k, i) =~= front.to_set());
        front.unique_seq_to_set();
    }
}

} // verus!
