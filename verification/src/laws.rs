//! What the caches promise across calls: the invariants that every access
//! keeps, how the counts move, which blocks a cache holds after an access,
//! least-recently-used replacement, and the exclusive hierarchy.
use vstd::prelude::*;

verus! {

use crate::cache::{
    CacheModel, initial_model, has_free, lru_index, is_least_recent, same_shape,
    lemma_same_blocks_contains, empty_line,
};
use crate::hierarchy::HierarchyModel;

/// A freshly built cache satisfies the invariant when its address fields fit
/// in 64 bits, never holds two copies of a block, and holds nothing.
pub proof fn law_new_cache_is_empty(s: nat, b: nat, e: nat, x: u64)
    requires
        s + b < 64,
        s < usize::BITS,
    ensures
        initial_model(s, b, e).wf(),
        initial_model(s, b, e).distinct_tags(),
        e > 0 ==> initial_model(s, b, e).has_lines(),
        !initial_model(s, b, e).contains(x),
        initial_model(s, b, e).valid_lines() == 0,
{
    let m = initial_model(s, b, e);
    crate::cache::lemma_address_parts_bounded(x, s, b);
    assert(forall|i: int, j: int| 0 <= i < m.sets.len() && 0 <= j < m.sets[i].len() ==> #[trigger] m.sets[i][j] == empty_line());
    crate::cache::lemma_valid_total_empty(m.sets);
}

/// Every miss fills a line and every eviction empties one: an access keeps
/// valid lines plus evictions minus misses as it was.
pub proof fn law_access_valid_lines(m: CacheModel, a: u64)
    requires
        m.can_access(a),
    ensures
        m.access(a).valid_lines() + m.access(a).evictions - m.access(a).misses == m.valid_lines()
            + m.evictions - m.misses,
{
    m.lemma_probe(a);
    m.lemma_valid_lines(a);
}

/// An access keeps the cache invariant, the shape of every set (so every set
/// keeps its lines), and the absence of duplicate blocks.
pub proof fn law_access_keeps_invariants(m: CacheModel, a: u64)
    requires
        m.can_access(a),
    ensures
        m.access(a).wf(),
        same_shape(m, m.access(a)),
        m.has_lines() ==> m.access(a).has_lines(),
        m.distinct_tags() ==> m.access(a).distinct_tags(),
{
    m.lemma_probe(a);
    if m.distinct_tags() {
        m.lemma_distinct_kept(a);
    }
    if !m.contains(a) {
        m.lemma_insert(a);
    }
    let post = m.access(a);
    if m.has_lines() {
        assert forall|i: int| 0 <= i < post.sets.len() implies (#[trigger] post.sets[i]).len() > 0 by {
            assert(m.sets[i].len() > 0);
        }
    }
}

/// Every access counts exactly one hit or one miss: a hit exactly when the
/// block was present. An eviction is counted exactly when a miss finds its
/// set full, and the clock moves on by one.
pub proof fn law_access_counts(m: CacheModel, a: u64)
    requires
        m.can_access(a),
    ensures
        m.access(a).hits + m.access(a).misses == m.hits + m.misses + 1,
        m.access(a).hits == m.hits + 1 <==> m.contains(a),
        m.access(a).evictions == m.evictions + if !m.contains(a) && !has_free(m.lines_for(a)) {
            1int
        } else {
            0int
        },
        m.access(a).time == m.time + 1,
{
    m.lemma_probe(a);
    if !m.contains(a) {
        m.lemma_insert(a);
    }
}

/// After an access the cache holds the accessed block, keeps every block it
/// held before except the one pushed out, and holds nothing else.
pub proof fn law_access_contents(m: CacheModel, a: u64, x: u64)
    requires
        m.can_access(a),
        m.distinct_tags(),
    ensures
        m.access(a).contains(x) <==> (m.block(x) == m.block(a) || (m.contains(x) && !(m.victim(a) matches Some(v) && m.block(v.address) == m.block(x)))),
{
    m.lemma_probe(a);
    lemma_same_blocks_contains(m, m.probe(a).0, x);
    if m.contains(a) {
        if m.block(x) == m.block(a) {
            m.lemma_contains_by_block(x, a);
        }
    } else {
        m.lemma_insert_contents(a, x);
    }
}

/// Placing the block of `a` puts it in the cache.
pub proof fn lemma_insert_holds(m: CacheModel, a: u64)
    requires
        m.wf(),
        m.time < u64::MAX,
        m.lines_for(a).len() > 0,
    ensures
        m.insert(a).0.contains(a),
{
    m.lemma_insert(a);
    crate::cache::lemma_address_parts_bounded(a, m.s, m.b);
    let lines = m.lines_for(a);
    let post = m.insert(a).0;
    let i = m.set_of(a);
    let j = if has_free(lines) {
        let j0 = choose|j: int| 0 <= j < lines.len() && !(#[trigger] lines[j]).valid;
        CacheModel::lemma_first_free_exists(lines, j0);
        crate::cache::free_index(lines)
    } else {
        CacheModel::lemma_least_recent_exists(lines);
        lru_index(lines)
    };
    assert(crate::cache::holds(post.sets[i][j], m.tag(a)));
}

/// Accessing the same block twice in a row (the same address, or another in
/// its block): the second access is a hit. Beyond the first access, it needs
/// room in the clock and the hit count that the first access left.
pub proof fn law_repeated_access_hits(m: CacheModel, a: u64, a2: u64)
    requires
        m.can_access(a),
        m.block(a2) == m.block(a),
        m.access(a).time < u64::MAX,
        m.access(a).hits < u64::MAX,
    ensures
        m.access(a).contains(a2),
        m.access(a).access(a2).hits == m.access(a).hits + 1,
        m.access(a).access(a2).misses == m.access(a).misses,
        m.access(a).access(a2).evictions == m.access(a).evictions,
{
    law_access_keeps_invariants(m, a);
    law_access_counts(m, a);
    m.lemma_probe(a);
    if m.contains(a) {
        lemma_same_blocks_contains(m, m.probe(a).0, a);
    } else {
        lemma_insert_holds(m, a);
    }
    let m1 = m.access(a);
    m1.lemma_contains_by_block(a, a2);
    m1.lemma_probe(a2);
}

/// Least-recently-used replacement: when a missing block arrives at a full
/// set, the line replaced is the one used longest ago; its block is reported
/// and leaves the cache, the new block takes its line, and every other line
/// stays as it was.
pub proof fn law_eviction_is_least_recent(m: CacheModel, a: u64)
    requires
        m.can_access(a),
        m.distinct_tags(),
        !m.contains(a),
        !has_free(m.lines_for(a)),
    ensures
        ({
            let i = m.set_of(a);
            let j = lru_index(m.lines_for(a));
            &&& is_least_recent(m.lines_for(a), j)
            &&& m.victim(a) == Some(crate::cache::EvictedBlock { address: m.block_address(i, j) })
            &&& !m.access(a).contains(m.block_address(i, j))
            &&& m.access(a).contains(a)
            &&& m.access(a).sets[i][j].tag == m.tag(a)
            &&& forall|k: int| 0 <= k < m.sets[i].len() && k != j ==> m.access(a).sets[i][k] == #[trigger] m.sets[i][k]
            &&& forall|p: int| 0 <= p < m.sets.len() && p != i ==> m.access(a).sets[p] == #[trigger] m.sets[p]
        }),
{
    let i = m.set_of(a);
    let lines = m.lines_for(a);
    let j = lru_index(lines);
    CacheModel::lemma_least_recent_exists(lines);
    crate::cache::lemma_address_parts_bounded(a, m.s, m.b);
    m.lemma_block_address(i, j);
    let v = m.block_address(i, j);
    law_access_contents(m, a, v);
    law_access_contents(m, a, a);
    m.lemma_block_key(v, a);
}

/// A probe, such as one made between accesses, changes no block, no count
/// and no number of valid lines: only the clock and a timestamp move.
pub proof fn law_probe_keeps_blocks(m: CacheModel, a: u64, x: u64)
    requires
        m.wf(),
        m.contains(a) ==> m.time < u64::MAX,
    ensures
        m.probe(a).0.contains(x) == m.contains(x),
        m.probe(a).0.valid_lines() == m.valid_lines(),
        m.probe(a).0.hits == m.hits,
        m.probe(a).0.misses == m.misses,
        m.probe(a).0.evictions == m.evictions,
        m.probe(a).0.wf(),
{
    m.lemma_probe(a);
    lemma_same_blocks_contains(m, m.probe(a).0, x);
    if m.contains(a) {
        m.lemma_valid_lines(a);
    }
}

/// Removing a block just placed in a free line undoes the placing: the block
/// is found and removed, and the cache holds exactly the blocks it held
/// before.
pub proof fn law_remove_undoes_insert(m: CacheModel, a: u64, x: u64)
    requires
        m.wf(),
        m.distinct_tags(),
        m.time < u64::MAX,
        m.lines_for(a).len() > 0,
        !m.contains(a),
        m.insert(a).1 is None,
    ensures
        m.insert(a).0.remove(a).1,
        m.insert(a).0.remove(a).0.contains(x) == m.contains(x),
{
    m.lemma_insert(a);
    m.lemma_distinct_kept(a);
    lemma_insert_holds(m, a);
    let m1 = m.insert(a).0;
    m1.lemma_remove(a);
    m.lemma_insert_contents(a, x);
    m1.lemma_remove_contents(a, x);
    if m.block(x) == m.block(a) {
        m.lemma_contains_by_block(x, a);
    }
}

/// The state after a whole trace of accesses, one after the other.
pub open spec fn run(m: CacheModel, trace: Seq<u64>) -> CacheModel
    decreases trace.len(),
{
    if trace.len() == 0 {
        m
    } else {
        run(m.access(trace[0]), trace.drop_first())
    }
}

/// Over a whole trace, hits and misses together count the accesses, every
/// eviction belongs to a miss, and the invariant holds throughout.
pub proof fn law_run_counts(m: CacheModel, trace: Seq<u64>)
    requires
        m.wf(),
        m.has_lines(),
        m.time + trace.len() < u64::MAX,
        m.hits + trace.len() < u64::MAX,
        m.misses + trace.len() < u64::MAX,
        m.evictions + trace.len() < u64::MAX,
    ensures
        run(m, trace).wf(),
        run(m, trace).has_lines(),
        run(m, trace).hits + run(m, trace).misses == m.hits + m.misses + trace.len(),
        run(m, trace).evictions - m.evictions <= run(m, trace).misses - m.misses,
        run(m, trace).time == m.time + trace.len(),
        run(m, trace).valid_lines() + run(m, trace).evictions - run(m, trace).misses == m.valid_lines()
            + m.evictions - m.misses,
        m.distinct_tags() ==> run(m, trace).distinct_tags(),
    decreases trace.len(),
{
    if trace.len() > 0 {
        let a = trace[0];
        crate::cache::lemma_address_parts_bounded(a, m.s, m.b);
        assert(m.lines_for(a).len() > 0);
        law_access_keeps_invariants(m, a);
        law_access_counts(m, a);
        law_access_valid_lines(m, a);
        law_run_counts(m.access(a), trace.drop_first());
    }
}

/// From a new cache, a run leaves as many valid lines as misses that did not
/// evict: valid lines = misses - evictions, so evictions never exceed misses.
pub proof fn law_new_cache_run(s: nat, b: nat, e: nat, trace: Seq<u64>)
    requires
        s + b < 64,
        s < usize::BITS,
        e > 0,
        trace.len() < u64::MAX,
    ensures
        run(initial_model(s, b, e), trace).valid_lines() == run(initial_model(s, b, e), trace).misses
            - run(initial_model(s, b, e), trace).evictions,
        run(initial_model(s, b, e), trace).hits + run(initial_model(s, b, e), trace).misses == trace.len(),
        run(initial_model(s, b, e), trace).distinct_tags(),
{
    law_new_cache_is_empty(s, b, e, 0);
    law_run_counts(initial_model(s, b, e), trace);
}

/// Every hierarchy access counts exactly one hit or one miss: a hit exactly
/// when the block was at either level. A hierarchy eviction is counted at
/// most once, and only when a block left L1.
pub proof fn law_hierarchy_counts(h: HierarchyModel, a: u64)
    requires
        h.can_access(a),
    ensures
        h.access(a).hits + h.access(a).misses == h.hits + h.misses + 1,
        h.access(a).hits == h.hits + 1 <==> (h.l1.contains(a) || h.l2.contains(a)),
        h.evictions <= h.access(a).evictions <= h.evictions + 1,
        h.access(a).evictions == h.evictions + 1 ==> h.l1_victim(a) is Some,
{
    h.lemma_access_basics(a);
}

/// Blocks of the same size at both levels make block identity one thing.
proof fn lemma_block_shared(h: HierarchyModel, x: u64, y: u64)
    requires
        h.wf(),
        h.l1.b == h.l2.b,
        h.l1.block(x) == h.l1.block(y),
    ensures
        h.l1.contains(x) == h.l1.contains(y),
        h.l2.contains(x) == h.l2.contains(y),
        h.l2.block(x) == h.l2.block(y),
{
    h.l1.lemma_contains_by_block(x, y);
    h.l2.lemma_contains_by_block(x, y);
}

/// The miss path of an exclusive hierarchy, once L2 no longer holds the
/// accessed block: placing it in L1 and demoting what L1 lets go keeps the
/// hierarchy exclusive and free of duplicates.
proof fn lemma_fill_exclusive(h: HierarchyModel, l2: CacheModel, a: u64)
    requires
        h.consistent(),
        l2.wf(),
        l2.distinct_tags(),
        same_shape(h.l2, l2),
        l2.time < u64::MAX,
        h.l1.time < u64::MAX,
        h.l1.lines_for(a).len() > 0,
        h.l1_victim(a) matches Some(v) ==> h.l2.lines_for(v.address).len() > 0,
        !h.l1.contains(a),
        !l2.contains(a),
        forall|x: u64| #[trigger] l2.contains(x) ==> h.l2.contains(x),
    ensures
        ({
            let post = h.fill(h.l1, l2, a);
            &&& post.consistent()
            &&& post.l1.contains(a)
            &&& !post.l2.contains(a)
            &&& (h.l1_victim(a) matches Some(v) ==> post.l2.contains(v.address) && !post.l1.contains(v.address))
            &&& (h.demotion_victim(l2, a) matches Some(w) ==> l2.contains(w.address))
            &&& post.evictions == if h.demotion_victim(l2, a) is Some {
                (h.evictions + 1) as u64
            } else {
                h.evictions
            }
            &&& forall|x: u64| #[trigger] post.holds(x) == (h.l1.block(x) == h.l1.block(a) || ((h.l1.contains(x)
                || l2.contains(x)) && !(h.demotion_victim(l2, a) matches Some(w) && h.l1.block(w.address)
                == h.l1.block(x))))
        }),
{
    let l1 = h.l1;
    let post = h.fill(l1, l2, a);
    l1.lemma_insert(a);
    l1.lemma_distinct_kept(a);
    let l1i = l1.insert(a).0;
    assert forall|x: u64| #[trigger] l1i.contains(x) == (l1.block(x) == l1.block(a) || (l1.contains(x) && !(l1.insert(a).1 matches Some(v) && l1.block(v.address) == l1.block(x)))) by {
        l1.lemma_insert_contents(a, x);
    }
    assert(l1i.contains(a));
    match l1.insert(a).1 {
        Some(v) => {
            let va = v.address;
            crate::cache::lemma_same_shape_lines(h.l2, l2, va);
            // the demoted block was in L1, so not in L2
            let i = l1.set_of(a);
            let lines = l1.lines_for(a);
            crate::cache::lemma_address_parts_bounded(a, l1.s, l1.b);
            if has_free(lines) {
                let j0 = choose|j: int| 0 <= j < lines.len() && !(#[trigger] lines[j]).valid;
                CacheModel::lemma_first_free_exists(lines, j0);
            }
            CacheModel::lemma_least_recent_exists(lines);
            let j = lru_index(lines);
            l1.lemma_block_address(i, j);
            assert(l1.contains(va));
            assert(!h.l2.contains(va));
            assert(!l2.contains(va));
            l2.lemma_insert(va);
            l2.lemma_distinct_kept(va);
            let l2i = l2.insert(va).0;
            assert forall|x: u64| #[trigger] l2i.contains(x) == (l2.block(x) == l2.block(va) || (l2.contains(x) && !(l2.insert(va).1 matches Some(w) && l2.block(w.address) == l2.block(x)))) by {
                l2.lemma_insert_contents(va, x);
            }
            assert(post.l1 == l1i);
            assert(post.l2 == l2i);
            if l1.block(va) == l1.block(a) {
                lemma_block_shared(h, va, a);
                assert(false);
            }
            assert forall|x: u64| !(#[trigger] post.l1.contains(x) && post.l2.contains(x)) by {
                if l1i.contains(x) && l2i.contains(x) {
                    if l1.block(x) == l1.block(a) {
                        lemma_block_shared(h, x, a);
                        if l2.block(x) == l2.block(va) {
                            assert(false);
                        } else {
                            l2.lemma_contains_by_block(x, a);
                        }
                    } else {
                        assert(l1.contains(x));
                        if l2.block(x) == l2.block(va) {
                            assert(false);
                        } else {
                            assert(l2.contains(x));
                            assert(h.l2.contains(x));
                        }
                    }
                }
            }
            assert(l2.block(a) != l2.block(va));
            assert(!l2i.contains(a));
            assert(l2i.contains(va));
            assert(!l1i.contains(va));
            if let Some(w) = l2.insert(va).1 {
                let lines2 = l2.lines_for(va);
                crate::cache::lemma_address_parts_bounded(va, l2.s, l2.b);
                CacheModel::lemma_least_recent_exists(lines2);
                l2.lemma_block_address(l2.set_of(va), lru_index(lines2));
                assert(l2.contains(w.address));
                assert(h.l2.contains(w.address));
            }
            assert forall|x: u64| #[trigger] post.holds(x) == (h.l1.block(x) == h.l1.block(a) || ((h.l1.contains(x)
                || l2.contains(x)) && !(h.demotion_victim(l2, a) matches Some(w) && h.l1.block(w.address)
                == h.l1.block(x)))) by {
                if l1.block(x) != l1.block(a) {
                    if l2.block(x) == l2.block(va) {
                        lemma_block_shared(h, x, va);
                    }
                    if let Some(w) = l2.insert(va).1 {
                        if l1.block(w.address) == l1.block(x) {
                            lemma_block_shared(h, w.address, x);
                            l2.lemma_contains_by_block(w.address, x);
                            assert(!h.l1.contains(w.address));
                        }
                    }
                }
            }
        },
        None => {
            assert(post.l1 == l1i);
            assert(post.l2 == l2);
            assert forall|x: u64| #[trigger] post.holds(x) == (h.l1.block(x) == h.l1.block(a) || (h.l1.contains(x)
                || l2.contains(x))) by {
                if l1.block(x) == l1.block(a) {
                    lemma_block_shared(h, x, a);
                }
            }
            assert forall|x: u64| !(#[trigger] post.l1.contains(x) && post.l2.contains(x)) by {
                if l1i.contains(x) && l2.contains(x) {
                    if l1.block(x) == l1.block(a) {
                        lemma_block_shared(h, x, a);
                        l2.lemma_contains_by_block(x, a);
                    } else {
                        assert(h.l2.contains(x));
                    }
                }
            }
        },
    }
}

/// The hierarchy stays exclusive: when both levels use blocks of one size,
/// hold no duplicates and share no block, an access keeps all of that. After
/// it the accessed block is in L1 and not in L2 (a hit in L2 promotes it), and
/// a block that L1 let go has been demoted to L2.
pub proof fn law_hierarchy_stays_exclusive(h: HierarchyModel, a: u64)
    requires
        h.can_place(a),
        h.consistent(),
    ensures
        h.access(a).consistent(),
        h.access(a).l1.contains(a),
        !h.access(a).l2.contains(a),
        h.l1_victim(a) matches Some(v) ==> h.access(a).l2.contains(v.address)
            && !h.access(a).l1.contains(v.address),
{
    h.l1.lemma_probe(a);
    h.l2.lemma_probe(a);
    h.l1.lemma_distinct_kept(a);
    h.l2.lemma_distinct_kept(a);
    let l1p = h.l1.probe(a).0;
    let l2p = h.l2.probe(a).0;
    assert forall|x: u64| #[trigger] l2p.contains(x) == h.l2.contains(x) by {
        lemma_same_blocks_contains(h.l2, l2p, x);
    }
    if h.l1.contains(a) {
        assert forall|x: u64| #[trigger] l1p.contains(x) == h.l1.contains(x) by {
            lemma_same_blocks_contains(h.l1, l1p, x);
        }
        assert(h.access(a).l1 == l1p);
        assert(h.access(a).l2 == h.l2);
    } else if h.l2.contains(a) {
        l2p.lemma_remove(a);
        l2p.lemma_distinct_kept(a);
        let l2r = l2p.remove(a).0;
        assert forall|x: u64| #[trigger] l2r.contains(x) == (l2p.contains(x) && l2p.block(x) != l2p.block(a)) by {
            l2p.lemma_remove_contents(a, x);
        }
        let hh = HierarchyModel { hits: (h.hits + 1) as u64, ..h };
        lemma_fill_exclusive(hh, l2r, a);
        assert(h.access(a) == hh.fill(hh.l1, l2r, a));
    } else {
        let hh = HierarchyModel { misses: (h.misses + 1) as u64, ..h };
        lemma_fill_exclusive(hh, l2p, a);
        assert(h.access(a) == hh.fill(hh.l1, l2p, a));
    }
}

/// Hierarchy evictions count blocks that leave the hierarchy: in an
/// exclusive hierarchy an access keeps every block it held and adds the
/// accessed one, except for at most one block pushed out of L2, which is then
/// at neither level; the eviction count goes up by one exactly when that
/// happens.
pub proof fn law_hierarchy_eviction_accounting(h: HierarchyModel, a: u64)
    requires
        h.can_access(a),
        h.consistent(),
    ensures
        h.access(a).evictions == if h.hierarchy_victim(a) is Some {
            h.evictions + 1
        } else {
            h.evictions as int
        },
        forall|x: u64| #[trigger] h.access(a).holds(x) == (h.l1.block(x) == h.l1.block(a) || (h.holds(x)
            && !(h.hierarchy_victim(a) matches Some(w) && h.l1.block(w.address) == h.l1.block(x)))),
        h.hierarchy_victim(a) matches Some(w) ==> h.holds(w.address) && !h.access(a).holds(w.address),
        (h.access(a).evictions == h.evictions + 1) == exists|x: u64| h.holds(x) && !#[trigger] h.access(a).holds(x),
{
    h.l1.lemma_probe(a);
    h.l2.lemma_probe(a);
    h.l1.lemma_distinct_kept(a);
    h.l2.lemma_distinct_kept(a);
    let l1p = h.l1.probe(a).0;
    let l2p = h.l2.probe(a).0;
    let post = h.access(a);
    assert forall|x: u64| #[trigger] l2p.contains(x) == h.l2.contains(x) by {
        lemma_same_blocks_contains(h.l2, l2p, x);
    }
    if h.l1.contains(a) {
        assert forall|x: u64| #[trigger] l1p.contains(x) == h.l1.contains(x) by {
            lemma_same_blocks_contains(h.l1, l1p, x);
        }
        assert(post.l1 == l1p);
        assert(post.l2 == h.l2);
        assert forall|x: u64| #[trigger] post.holds(x) == (h.l1.block(x) == h.l1.block(a) || h.holds(x)) by {
            if h.l1.block(x) == h.l1.block(a) {
                h.l1.lemma_contains_by_block(x, a);
            }
        }
        assert(!exists|x: u64| h.holds(x) && !#[trigger] post.holds(x));
    } else {
        let l2 = h.receiving_l2(a);
        let hh = if h.l2.contains(a) {
            HierarchyModel { hits: (h.hits + 1) as u64, ..h }
        } else {
            HierarchyModel { misses: (h.misses + 1) as u64, ..h }
        };
        if h.l2.contains(a) {
            l2p.lemma_remove(a);
            l2p.lemma_distinct_kept(a);
            assert forall|x: u64| #[trigger] l2.contains(x) == (l2p.contains(x) && l2p.block(x) != l2p.block(a)) by {
                l2p.lemma_remove_contents(a, x);
            }
        } else {
            assert(l2 == l2p);
        }
        lemma_fill_exclusive(hh, l2, a);
        assert(post == hh.fill(hh.l1, l2, a));
        assert(h.hierarchy_victim(a) == hh.demotion_victim(l2, a));
        assert forall|x: u64| #[trigger] post.holds(x) == (h.l1.block(x) == h.l1.block(a) || (h.holds(x)
            && !(h.hierarchy_victim(a) matches Some(w) && h.l1.block(w.address) == h.l1.block(x)))) by {
            assert(post.holds(x) == (h.l1.block(x) == h.l1.block(a) || ((h.l1.contains(x) || l2.contains(x))
                && !(hh.demotion_victim(l2, a) matches Some(w) && h.l1.block(w.address) == h.l1.block(x)))));
        }
        match h.hierarchy_victim(a) {
            Some(w) => {
                assert(l2.contains(w.address));
                assert(h.l2.contains(w.address));
                if h.l1.block(w.address) == h.l1.block(a) {
                    l2.lemma_contains_by_block(w.address, a);
                    assert(false);
                }
                assert(!post.holds(w.address));
                assert(h.holds(w.address) && !post.holds(w.address));
            },
            None => {
                assert(!exists|x: u64| h.holds(x) && !#[trigger] post.holds(x));
            },
        }
    }
}

/// Every miss brings one block into the hierarchy and every counted eviction
/// takes one out: an access keeps the valid lines of both levels plus
/// evictions minus misses as it was.
pub proof fn law_hierarchy_valid_lines(h: HierarchyModel, a: u64)
    requires
        h.can_access(a),
    ensures
        h.access(a).valid_lines() + h.access(a).evictions - h.access(a).misses == h.valid_lines()
            + h.evictions - h.misses,
{
    let l2p = h.l2.probe(a).0;
    h.l1.lemma_probe(a);
    h.l2.lemma_probe(a);
    h.l1.lemma_valid_lines(a);
    h.l2.lemma_valid_lines(a);
    lemma_same_blocks_contains(h.l2, l2p, a);
    if !h.l1.contains(a) {
        h.l1.lemma_insert(a);
        let l2 = h.receiving_l2(a);
        l2p.lemma_remove(a);
        if h.l2.contains(a) {
            l2p.lemma_valid_lines(a);
        }
        if let Some(v) = h.l1.insert(a).1 {
            crate::cache::lemma_same_shape_lines(h.l2, l2p, v.address);
            crate::cache::lemma_same_shape_lines(l2p, l2p.remove(a).0, v.address);
            l2.lemma_valid_lines(v.address);
        }
    }
}

/// Every set of a cache of the same shape has a line when every set of the
/// first has one.
pub proof fn lemma_has_lines_kept(m1: CacheModel, m2: CacheModel)
    requires
        m1.has_lines(),
        same_shape(m1, m2),
    ensures
        m2.has_lines(),
{
    assert forall|i: int| 0 <= i < m2.sets.len() implies (#[trigger] m2.sets[i]).len() > 0 by {
        assert(m1.sets[i].len() > 0);
    }
}

/// The state of a hierarchy after a whole trace of accesses.
pub open spec fn hierarchy_run(h: HierarchyModel, trace: Seq<u64>) -> HierarchyModel
    decreases trace.len(),
{
    if trace.len() == 0 {
        h
    } else {
        hierarchy_run(h.access(trace[0]), trace.drop_first())
    }
}

/// Over a whole trace of a hierarchy whose sets all have lines: hits and
/// misses together count the accesses, valid lines of both levels plus
/// evictions minus misses stay as they were, and an exclusive hierarchy stays
/// exclusive.
pub proof fn law_hierarchy_run(h: HierarchyModel, trace: Seq<u64>)
    requires
        h.wf(),
        h.l1.has_lines(),
        h.l2.has_lines(),
        h.l1.time + trace.len() < u64::MAX,
        h.l2.time + 2 * trace.len() + 1 < u64::MAX,
        h.hits + trace.len() < u64::MAX,
        h.misses + trace.len() < u64::MAX,
        h.evictions + trace.len() < u64::MAX,
    ensures
        hierarchy_run(h, trace).wf(),
        hierarchy_run(h, trace).hits + hierarchy_run(h, trace).misses == h.hits + h.misses + trace.len(),
        hierarchy_run(h, trace).valid_lines() + hierarchy_run(h, trace).evictions
            - hierarchy_run(h, trace).misses == h.valid_lines() + h.evictions - h.misses,
        h.consistent() ==> hierarchy_run(h, trace).consistent(),
    decreases trace.len(),
{
    if trace.len() > 0 {
        let a = trace[0];
        crate::cache::lemma_address_parts_bounded(a, h.l1.s, h.l1.b);
        assert(h.l1.lines_for(a).len() > 0);
        if let Some(v) = h.l1_victim(a) {
            crate::cache::lemma_address_parts_bounded(v.address, h.l2.s, h.l2.b);
            assert(h.l2.lines_for(v.address).len() > 0);
        }
        assert(h.can_access(a));
        h.lemma_access_basics(a);
        law_hierarchy_valid_lines(h, a);
        if h.consistent() {
            law_hierarchy_stays_exclusive(h, a);
        }
        lemma_has_lines_kept(h.l1, h.access(a).l1);
        lemma_has_lines_kept(h.l2, h.access(a).l2);
        law_hierarchy_run(h.access(a), trace.drop_first());
    }
}

/// From a new hierarchy whose levels use blocks of one size, a run keeps the
/// hierarchy exclusive and leaves as many valid lines at both levels together
/// as misses minus evictions, so evictions never exceed misses.
pub proof fn law_new_hierarchy_run(
    l1_s: nat,
    l1_b: nat,
    l1_e: nat,
    l2_s: nat,
    l2_e: nat,
    trace: Seq<u64>,
)
    requires
        l1_s + l1_b < 64,
        l2_s + l1_b < 64,
        l1_s < usize::BITS,
        l2_s < usize::BITS,
        l1_e > 0,
        l2_e > 0,
        2 * trace.len() + 1 < u64::MAX,
    ensures
        ({
            let h = HierarchyModel {
                l1: initial_model(l1_s, l1_b, l1_e),
                l2: initial_model(l2_s, l1_b, l2_e),
                hits: 0,
                misses: 0,
                evictions: 0,
            };
            let r = hierarchy_run(h, trace);
            &&& r.consistent()
            &&& r.hits + r.misses == trace.len()
            &&& r.valid_lines() == r.misses - r.evictions
        }),
{
    let h = HierarchyModel {
        l1: initial_model(l1_s, l1_b, l1_e),
        l2: initial_model(l2_s, l1_b, l2_e),
        hits: 0,
        misses: 0,
        evictions: 0,
    };
    law_new_cache_is_empty(l1_s, l1_b, l1_e, 0);
    law_new_cache_is_empty(l2_s, l1_b, l2_e, 0);
    assert forall|x: u64| !(#[trigger] h.l1.contains(x) && h.l2.contains(x)) by {
        law_new_cache_is_empty(l1_s, l1_b, l1_e, x);
    }
    law_hierarchy_run(h, trace);
}

} // verus!
