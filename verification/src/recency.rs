//! Least-recently-used bookkeeping: every use of a line stamps it with the
//! cache's clock, so the line just used is the most recently used one of its
//! set.
use vstd::prelude::*;

verus! {

use crate::cache::{
    CacheModel, initial_model, empty_line, holds, has_free, free_index, lru_index, holding_index,
    lemma_address_parts_bounded,
};
use crate::hierarchy::HierarchyModel;

/// A new cache's clock is ahead of every line.
pub proof fn law_new_cache_clock_ahead(s: nat, b: nat, e: nat)
    ensures
        initial_model(s, b, e).clock_ahead(),
{
    let m = initial_model(s, b, e);
    assert forall|i: int, j: int| 0 <= i < m.sets.len() && 0 <= j < m.sets[i].len() implies
        (#[trigger] m.sets[i][j]).last_used <= m.time by {
        assert(m.sets[i][j] == empty_line());
    }
}

/// Stamping line `j` of the set of `a` with the next clock value, for the
/// block of `a`, makes that line the most recently used of its set, and keeps
/// the clock ahead of every line.
proof fn lemma_stamp_most_recent(m: CacheModel, a: u64, j: int)
    requires
        m.wf(),
        m.clock_ahead(),
        m.time < u64::MAX,
        0 <= j < m.lines_for(a).len(),
    ensures
        m.stamp(a, j, true, m.tag(a)).most_recent_holds(a),
        m.stamp(a, j, true, m.tag(a)).clock_ahead(),
        m.stamp(a, j, true, m.tag(a)).time == m.time + 1,
{
    lemma_address_parts_bounded(a, m.s, m.b);
    let post = m.stamp(a, j, true, m.tag(a));
    let i = m.set_of(a);
    let lines = post.lines_for(a);
    assert(holds(lines[j], post.tag(a)));
    assert forall|k: int| 0 <= k < lines.len() && k != j implies (#[trigger] lines[k]).last_used < post.time by {
        assert(lines[k] == m.sets[i][k]);
    }
    assert forall|p: int, q: int| 0 <= p < post.sets.len() && 0 <= q < post.sets[p].len() implies
        (#[trigger] post.sets[p][q]).last_used <= post.time by {
        if p != i || q != j {
            assert(post.sets[p][q] == m.sets[p][q]);
        }
    }
}

/// A probe that finds the block stamps its line with the next clock value:
/// that line becomes the most recently used of its set. A probe that misses
/// changes nothing. Either way the clock stays ahead of every line.
pub proof fn law_probe_hit_most_recent(m: CacheModel, a: u64)
    requires
        m.wf(),
        m.clock_ahead(),
        m.contains(a) ==> m.time < u64::MAX,
    ensures
        m.probe(a).0.clock_ahead(),
        m.contains(a) ==> m.probe(a).0.time == m.time + 1 && m.probe(a).0.most_recent_holds(a),
        !m.contains(a) ==> m.probe(a).0 == m,
{
    if m.contains(a) {
        m.lemma_probe(a);
        let lines = m.lines_for(a);
        let j0 = choose|j: int| 0 <= j < lines.len() && holds(#[trigger] lines[j], m.tag(a));
        m.lemma_first_holding_exists(a, j0);
        lemma_stamp_most_recent(m, a, holding_index(lines, m.tag(a)));
    }
}

/// Placing a block stamps its line with the next clock value, whether the
/// line was free or held the least recently used block: the placed block's
/// line becomes the most recently used of its set.
pub proof fn law_insert_most_recent(m: CacheModel, a: u64)
    requires
        m.wf(),
        m.clock_ahead(),
        m.time < u64::MAX,
        m.lines_for(a).len() > 0,
    ensures
        m.insert(a).0.time == m.time + 1,
        m.insert(a).0.most_recent_holds(a),
        m.insert(a).0.clock_ahead(),
{
    let lines = m.lines_for(a);
    lemma_address_parts_bounded(a, m.s, m.b);
    if has_free(lines) {
        let j0 = choose|j: int| 0 <= j < lines.len() && !(#[trigger] lines[j]).valid;
        CacheModel::lemma_first_free_exists(lines, j0);
        lemma_stamp_most_recent(m, a, free_index(lines));
    } else {
        CacheModel::lemma_least_recent_exists(lines);
        lemma_stamp_most_recent(m, a, lru_index(lines));
    }
}

/// Recency depends only on the geometry, the lines and the clock.
proof fn lemma_most_recent_same(m1: CacheModel, m2: CacheModel, a: u64)
    requires
        m1.s == m2.s,
        m1.b == m2.b,
        m1.sets == m2.sets,
        m1.time == m2.time,
        m1.most_recent_holds(a),
    ensures
        m2.most_recent_holds(a),
{
    let lines = m1.lines_for(a);
    let j = choose|j: int|
        0 <= j < lines.len() && holds(#[trigger] lines[j], m1.tag(a)) && lines[j].last_used == m1.time
            && forall|k: int| 0 <= k < lines.len() && k != j ==> (#[trigger] lines[k]).last_used < m1.time;
    assert(m2.lines_for(a) == lines);
    assert(holds(m2.lines_for(a)[j], m2.tag(a)));
}

/// After any access the accessed block's line is the most recently used of
/// its set, stamped with the clock, which moved on by one.
pub proof fn law_access_most_recent(m: CacheModel, a: u64)
    requires
        m.can_access(a),
        m.clock_ahead(),
    ensures
        m.access(a).time == m.time + 1,
        m.access(a).most_recent_holds(a),
        m.access(a).clock_ahead(),
{
    law_probe_hit_most_recent(m, a);
    if !m.contains(a) {
        law_insert_most_recent(m, a);
        lemma_most_recent_same(m.insert(a).0, m.access(a), a);
    } else {
        lemma_most_recent_same(m.probe(a).0, m.access(a), a);
    }
}

/// Removing a block keeps the clock ahead of every line.
pub proof fn law_remove_clock_ahead(m: CacheModel, a: u64)
    requires
        m.wf(),
        m.clock_ahead(),
    ensures
        m.remove(a).0.clock_ahead(),
{
    let post = m.remove(a).0;
    lemma_address_parts_bounded(a, m.s, m.b);
    if m.contains(a) {
        let lines = m.lines_for(a);
        let j0 = choose|j: int| 0 <= j < lines.len() && holds(#[trigger] lines[j], m.tag(a));
        m.lemma_first_holding_exists(a, j0);
        let i = m.set_of(a);
        let j = holding_index(lines, m.tag(a));
        assert forall|p: int, q: int| 0 <= p < post.sets.len() && 0 <= q < post.sets[p].len() implies
            (#[trigger] post.sets[p][q]).last_used <= post.time by {
            if p != i || q != j {
                assert(post.sets[p][q] == m.sets[p][q]);
            }
        }
    }
}

/// In a hierarchy, an access whose block is in L1 stamps that block's line
/// with the next L1 clock value, making it the most recently used line of its
/// L1 set; any access leaves the accessed block in the most recently used
/// line of its L1 set, and keeps both clocks ahead of their lines.
pub proof fn law_hierarchy_access_most_recent(h: HierarchyModel, a: u64)
    requires
        h.can_access(a),
        h.l1.clock_ahead(),
        h.l2.clock_ahead(),
    ensures
        h.access(a).l1.time == h.l1.time + 1,
        h.access(a).l1.most_recent_holds(a),
        h.access(a).l1.clock_ahead(),
        h.access(a).l2.clock_ahead(),
        h.l1.contains(a) ==> h.access(a).l2 == h.l2,
{
    law_probe_hit_most_recent(h.l1, a);
    if !h.l1.contains(a) {
        law_insert_most_recent(h.l1, a);
        law_probe_hit_most_recent(h.l2, a);
        h.l2.lemma_probe(a);
        let l2p = h.l2.probe(a).0;
        crate::cache::lemma_same_blocks_contains(h.l2, l2p, a);
        law_remove_clock_ahead(l2p, a);
        l2p.lemma_remove(a);
        let l2 = h.receiving_l2(a);
        if let Some(v) = h.l1.insert(a).1 {
            crate::cache::lemma_same_shape_lines(h.l2, l2p, v.address);
            crate::cache::lemma_same_shape_lines(l2p, l2p.remove(a).0, v.address);
            law_insert_most_recent(l2, v.address);
        }
        lemma_most_recent_same(h.l1.insert(a).0, h.access(a).l1, a);
    } else {
        lemma_most_recent_same(h.l1.probe(a).0, h.access(a).l1, a);
    }
}

} // verus!
