use sim::address::{low_mask, parse_address};
use sim::cache::{Cache, EvictedBlock};
use sim::hierarchy::CacheHierarchy;

#[test]
fn parse_address_reconstructs_original_address() {
    for address in (0u64..(1u64 << 20)).step_by(997) {
        for s in 0usize..6 {
            for b in 0usize..6 {
                let (tag, set_index, block_offset) = parse_address(address, s, b);
                let reconstructed = (tag << (s + b)) | ((set_index as u64) << b) | block_offset;
                assert_eq!(reconstructed, address);
            }
        }
    }
}

#[test]
fn set_index_is_within_range() {
    for address in (0u64..1_000_000).step_by(331) {
        for s in 0usize..6 {
            for b in 0usize..6 {
                let (_tag, set_index, offset) = parse_address(address, s, b);
                assert!(set_index < (1usize << s));
                assert!(offset < (1u64 << b));
            }
        }
    }
}

#[test]
fn parse_address_wide_fields() {
    let (tag, set_index, offset) = parse_address(u64::MAX, 20, 43);
    assert_eq!(tag, 1);
    assert_eq!(set_index, (1usize << 20) - 1);
    assert_eq!(offset, (1u64 << 43) - 1);
    assert_eq!(low_mask(63), u64::MAX >> 1);
}

#[test]
fn access_counts_one_hit_or_miss() {
    let mut cache = Cache::new(1, 2, 2);
    let addresses = [0u64, 4, 8, 0, 16, 32, 4, 64, 0, 8];
    for (n, a) in addresses.iter().enumerate() {
        cache.access(*a);
        assert_eq!(cache.hits + cache.misses, n as u64 + 1);
        assert!(cache.evictions <= cache.misses);
        assert_eq!(cache.time, n as u64 + 1);
    }
}

#[test]
fn accessed_block_is_then_present() {
    let mut cache = Cache::new(2, 2, 1);
    for a in [0u64, 0x13, 0x40, 0x7f, 0x13] {
        cache.access(a);
        assert!(cache.probe(a));
        // any address of the same block is present too
        assert!(cache.probe(a ^ 0x3));
    }
}

#[test]
fn eviction_takes_least_recently_used_line() {
    let mut cache = Cache::new(0, 0, 3);
    assert_eq!(cache.insert_block(1), None);
    assert_eq!(cache.insert_block(2), None);
    assert_eq!(cache.insert_block(3), None);
    assert!(cache.probe(1));
    assert!(cache.probe(2));
    // line of 3 is now the least recently used
    assert_eq!(cache.insert_block(4), Some(EvictedBlock { address: 3 }));
    assert!(!cache.probe(3));
    assert!(cache.probe(4));
    assert_eq!(cache.sets[0].lines[2].tag, 4);
}

#[test]
fn evicted_address_has_set_and_tag() {
    let mut cache = Cache::new(2, 3, 1);
    // tag 5, set 2, offset 7
    let first = (5u64 << 5) | (2 << 3) | 7;
    let second = (9u64 << 5) | (2 << 3) | 1;
    assert_eq!(cache.insert_block(first), None);
    assert_eq!(cache.insert_block(second), Some(EvictedBlock { address: (5u64 << 5) | (2 << 3) }));
}

#[test]
fn remove_block_drops_only_that_block() {
    let mut cache = Cache::new(0, 0, 2);
    cache.access(1);
    cache.access(2);
    assert!(cache.remove_block(1));
    assert!(!cache.remove_block(1));
    assert!(!cache.probe(1));
    assert!(cache.probe(2));
    // removal frees the line: the next block takes it without an eviction
    cache.access(3);
    assert_eq!(cache.evictions, 0);
}

#[test]
fn probe_miss_changes_nothing() {
    let mut cache = Cache::new(1, 1, 1);
    assert!(!cache.probe(0x10));
    assert_eq!(cache.time, 0);
    cache.access(0x10);
    assert!(cache.probe(0x11));
    assert_eq!(cache.time, 2);
    assert_eq!(cache.hits, 0);
}

#[test]
fn hierarchy_stays_exclusive() {
    let mut h = CacheHierarchy::new(1, 2, 1, 0, 2, 2);
    let addresses = [0u64, 4, 8, 12, 0, 16, 4, 20, 8, 0, 24, 12];
    for a in addresses {
        h.access(a);
        assert!(h.l1.probe(a));
        assert!(!h.l2.probe(a));
        for x in (0u64..32).step_by(4) {
            assert!(!(h.l1.probe(x) && h.l2.probe(x)), "block {x} at both levels");
        }
    }
}

#[test]
fn hierarchy_demotes_l1_victim() {
    let mut h = CacheHierarchy::new(0, 0, 1, 0, 0, 4);
    h.access(5);
    h.access(6);
    assert!(h.l2.probe(5));
    assert!(!h.l1.probe(5));
    assert_eq!(h.hits + h.misses, 2);
    assert_eq!(h.evictions, 0);
}

#[test]
fn victim_of_predicts_eviction() {
    let mut cache = Cache::new(1, 0, 2);
    assert!(cache.has_line_for(7));
    assert_eq!(cache.victim_of(1), None);
    cache.access(1);
    cache.access(3);
    // the block is present: nothing leaves
    assert_eq!(cache.victim_of(3), None);
    // set 1 is full: the older block 1 would leave
    assert_eq!(cache.victim_of(5), Some(EvictedBlock { address: 1 }));
    cache.access(5);
    assert!(!cache.probe(1));
    assert!(!Cache::new(1, 0, 0).has_line_for(7));
}

fn valid_lines(cache: &Cache) -> u64 {
    cache.sets.iter().map(|set| set.lines.iter().filter(|l| l.valid).count() as u64).sum()
}

#[test]
fn low_mask_full_width() {
    assert_eq!(low_mask(64), u64::MAX);
    assert_eq!(low_mask(0), 0);
}

#[test]
fn valid_lines_are_misses_minus_evictions() {
    let mut cache = Cache::new(1, 1, 2);
    for a in [0u64, 2, 4, 6, 8, 0, 10, 2, 12, 4] {
        cache.access(a);
        assert_eq!(valid_lines(&cache), cache.misses - cache.evictions);
    }
}

#[test]
fn hierarchy_valid_lines_are_misses_minus_evictions() {
    let mut h = CacheHierarchy::new(0, 1, 1, 1, 1, 1);
    for a in [0u64, 2, 4, 6, 0, 8, 2, 10, 4, 0] {
        h.access(a);
        assert_eq!(valid_lines(&h.l1) + valid_lines(&h.l2), h.misses - h.evictions);
    }
}

#[test]
fn hierarchy_eviction_is_a_block_leaving_both_levels() {
    let mut h = CacheHierarchy::new(0, 0, 1, 0, 0, 1);
    h.access(1);
    h.access(2);
    assert_eq!(h.evictions, 0);
    // 3 enters L1, 2 moves to L2, 1 leaves the hierarchy
    h.access(3);
    assert_eq!(h.evictions, 1);
    assert!(!h.l1.probe(1) && !h.l2.probe(1));
    assert!(h.l1.probe(3));
    assert!(h.l2.probe(2));
}

#[test]
fn remove_undoes_insert() {
    let mut cache = Cache::new(1, 1, 2);
    cache.access(0);
    cache.access(6);
    assert_eq!(cache.insert_block(8), None);
    assert!(cache.remove_block(8));
    assert!(!cache.probe(8));
    assert!(cache.probe(0));
    assert!(cache.probe(6));
}

#[test]
fn probe_between_accesses_keeps_counts() {
    let mut h = CacheHierarchy::new(0, 0, 1, 0, 0, 2);
    h.access(1);
    h.access(2);
    assert!(h.l2.probe(1));
    assert!(h.l1.probe(2));
    h.access(3);
    let v = valid_lines(&h.l1) + valid_lines(&h.l2);
    assert_eq!(v, h.misses - h.evictions);
}
