use kv_squeeze::eviction::TokenEntry;
use kv_squeeze::float::Binary64;
use kv_squeeze::{EvictionStrategy, H2OEviction, RandomEviction, SlidingWindow, TokenEviction};

fn double(v: f64) -> Binary64 {
    Binary64 { bits: v.to_bits() }
}

fn make_entries(n: usize) -> Vec<TokenEntry> {
    (0..n)
        .map(|i| TokenEntry {
            position: i,
            cumulative_attention: double((i as f64 + 1.0) * 0.1), // higher position = more attention
            age: n - i,
        })
        .collect()
}

fn entry(position: usize, attention: f64) -> TokenEntry {
    TokenEntry {
        position,
        cumulative_attention: double(attention),
        age: 0,
    }
}

#[test]
fn sliding_window_protects_sinks() {
    let entries = make_entries(10);
    let sw = SlidingWindow::new(2);
    let evicted = sw.select_evictions(&entries, 5);
    // Should evict 5 tokens, none from positions 0 or 1
    assert_eq!(evicted.len(), 5);
    for &idx in &evicted {
        assert!(
            entries[idx].position >= 2,
            "Evicted sink at position {}",
            entries[idx].position
        );
    }
}

#[test]
fn sliding_window_no_eviction_if_under_budget() {
    let entries = make_entries(5);
    let sw = SlidingWindow::new(2);
    let evicted = sw.select_evictions(&entries, 10);
    assert!(evicted.is_empty());
}

#[test]
fn h2o_evicts_lowest_attention() {
    let entries = make_entries(10);
    let h2o = H2OEviction::new(2);
    let evicted = h2o.select_evictions(&entries, 5);
    assert_eq!(evicted.len(), 5);

    // None should be sinks (positions 0, 1)
    for &idx in &evicted {
        assert!(entries[idx].position >= 2);
    }

    // Evicted should be the lowest-attention non-sink tokens (positions 2, 3, 4, 5, 6)
    let mut evicted_positions: Vec<usize> =
        evicted.iter().map(|&i| entries[i].position).collect();
    evicted_positions.sort();
    assert_eq!(evicted_positions, vec![2, 3, 4, 5, 6]);
}

#[test]
fn random_eviction_protects_sinks() {
    let entries = make_entries(20);
    let re = RandomEviction::new(3);
    let evicted = re.select_evictions(&entries, 10);
    assert_eq!(evicted.len(), 10);
    for &idx in &evicted {
        assert!(
            entries[idx].position >= 3,
            "Random evicted sink at position {}",
            entries[idx].position
        );
    }
}

#[test]
fn random_eviction_correct_count() {
    let entries = make_entries(100);
    let re = RandomEviction::new(4);
    let evicted = re.select_evictions(&entries, 50);
    assert_eq!(evicted.len(), 50);
}

#[test]
fn sliding_window_takes_positions_and_not_indices() {
    let entries = vec![
        entry(50, 1.0),
        entry(10, 1.0),
        entry(40, 1.0),
        entry(20, 1.0),
        entry(30, 1.0),
    ];
    let evicted = SlidingWindow::new(1).select_evictions(&entries, 2);
    assert_eq!(evicted, vec![3, 4, 2]);
}

#[test]
fn sliding_window_keeps_the_order_at_one_position() {
    let entries = vec![entry(7, 1.0), entry(3, 1.0), entry(7, 2.0), entry(3, 2.0)];
    let evicted = SlidingWindow::new(0).select_evictions(&entries, 0);
    assert_eq!(evicted, vec![1, 3, 0, 2]);
}

#[test]
fn sinks_stay_when_the_target_is_smaller() {
    let entries = make_entries(6);
    assert_eq!(SlidingWindow::new(4).select_evictions(&entries, 1), vec![4, 5]);
    assert_eq!(H2OEviction::new(4).select_evictions(&entries, 1), vec![4, 5]);
    assert_eq!(RandomEviction::new(4).select_evictions(&entries, 1).len(), 2);
    assert!(SlidingWindow::new(9).select_evictions(&entries, 1).is_empty());
    assert!(H2OEviction::new(9).select_evictions(&entries, 1).is_empty());
    assert!(RandomEviction::new(9).select_evictions(&entries, 1).is_empty());
}

#[test]
fn h2o_goes_by_attention_then_index() {
    let entries = vec![
        entry(0, -1.0),
        entry(1, 0.5),
        entry(2, -3.0),
        entry(3, 0.0),
        entry(4, -0.0),
        entry(5, f64::INFINITY),
        entry(6, 1e-300),
        entry(7, 0.5),
    ];
    let evicted = H2OEviction::new(1).select_evictions(&entries, 1);
    assert_eq!(evicted, vec![2, 3, 4, 6, 1, 7, 5]);
}

#[test]
fn h2o_with_nan_still_protects_sinks() {
    let mut entries = make_entries(9);
    entries[5].cumulative_attention = double(f64::NAN);
    let mut evicted = H2OEviction::new(3).select_evictions(&entries, 2);
    evicted.sort();
    assert_eq!(evicted, vec![3, 4, 5, 6, 7, 8]);
}

#[test]
fn h2o_keeps_the_order_where_nothing_is_less() {
    // NaN is neither less nor more than anything.
    let entries = vec![entry(0, f64::NAN), entry(1, 1.0)];
    assert_eq!(H2OEviction::new(0).select_evictions(&entries, 1), vec![0]);
    let entries = vec![entry(0, 1.0), entry(1, f64::NAN)];
    assert_eq!(H2OEviction::new(0).select_evictions(&entries, 1), vec![0]);
    let entries = vec![
        entry(9, f64::NAN),
        entry(8, 2.0),
        entry(0, -5.0),
        entry(7, -f64::NAN),
        entry(6, 2.0),
    ];
    assert_eq!(H2OEviction::new(1).select_evictions(&entries, 2), vec![0, 1, 3]);
    let entries = vec![entry(0, -0.0), entry(1, 0.0), entry(2, -0.0)];
    assert_eq!(H2OEviction::new(0).select_evictions(&entries, 1), vec![0, 1]);
}

#[test]
fn random_eviction_is_a_choice_of_distinct_entries() {
    let entries = make_entries(30);
    for _ in 0..20 {
        let mut evicted = RandomEviction::new(5).select_evictions(&entries, 10);
        assert_eq!(evicted.len(), 20);
        evicted.sort();
        evicted.dedup();
        assert_eq!(evicted.len(), 20);
        assert!(evicted.iter().all(|&i| (5..30).contains(&i)));
    }
}

#[test]
fn random_eviction_shuffles() {
    // One order out of 40! in each of three trials: not all of them ascend.
    let entries = make_entries(40);
    let ascending: Vec<usize> = (0..40).collect();
    let orders: Vec<Vec<usize>> = (0..3)
        .map(|_| RandomEviction::new(0).select_evictions(&entries, 0))
        .collect();
    assert!(orders.iter().any(|o| *o != ascending));
}

#[test]
fn random_eviction_from_a_given_order() {
    let entries = make_entries(6);
    let strategy = RandomEviction::new(2);
    let order = vec![4, 2, 5, 3];
    assert_eq!(strategy.select_from(&entries, 3, &order), vec![4, 2, 5]);
    assert!(strategy.select_from(&entries, 6, &order).is_empty());
}

#[test]
fn strategies_by_name() {
    assert_eq!(SlidingWindow::new(1).name(), "Sliding Window");
    assert_eq!(H2OEviction::new(1).name(), "H2O (Heavy Hitter Oracle)");
    assert_eq!(RandomEviction::new(1).name(), "Random");
}

#[test]
fn the_enum_hands_out_what_it_wraps() {
    let entries = make_entries(5);
    let sliding = EvictionStrategy::Sliding(SlidingWindow::new(1));
    let h2o = EvictionStrategy::H2O(H2OEviction::new(1));
    let random = EvictionStrategy::Random(RandomEviction::new(1));
    assert_eq!(sliding.as_eviction().name(), "Sliding Window");
    assert_eq!(h2o.as_eviction().name(), "H2O (Heavy Hitter Oracle)");
    assert_eq!(random.as_eviction().name(), "Random");
    assert_eq!(sliding.as_eviction().select_evictions(&entries, 3), vec![1, 2]);
    assert_eq!(h2o.as_eviction().select_evictions(&entries, 3), vec![1, 2]);
    assert_eq!(random.as_eviction().select_evictions(&entries, 3).len(), 2);
}

#[test]
fn large_caches_are_sorted() {
    let n = 5000;
    let entries: Vec<TokenEntry> = (0..n)
        .map(|i| entry((i * 7919) % n, ((i * 104729) % n) as f64))
        .collect();
    let evicted = SlidingWindow::new(10).select_evictions(&entries, 100);
    let positions: Vec<usize> = evicted.iter().map(|&i| entries[i].position).collect();
    assert_eq!(positions, (10..4910).collect::<Vec<usize>>());
    let evicted = H2OEviction::new(0).select_evictions(&entries, 0);
    let mut last = -1.0;
    for &i in &evicted {
        let a = f64::from_bits(entries[i].cumulative_attention.bits);
        assert!(a >= last);
        last = a;
    }
}
