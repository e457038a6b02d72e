//! A two-level exclusive cache hierarchy built from two single-level caches.
use vstd::prelude::*;

verus! {

use crate::cache::{
    Cache, CacheModel, EvictedBlock, initial_model, same_shape, lemma_same_blocks_contains,
    lemma_same_shape_lines,
};

/// The whole state of a hierarchy, as the contracts see it.
pub struct HierarchyModel {
    pub l1: CacheModel,
    pub l2: CacheModel,
    pub hits: u64,
    pub misses: u64,
    pub evictions: u64,
}

impl HierarchyModel {
    /// Both levels satisfy the cache invariant.
    pub open spec fn wf(self) -> bool {
        self.l1.wf() && self.l2.wf()
    }

    /// No block sits in both levels.
    pub open spec fn exclusive(self) -> bool {
        forall|x: u64| !(#[trigger] self.l1.contains(x) && self.l2.contains(x))
    }

    /// The invariant of an exclusive hierarchy: both levels well formed, with
    /// no duplicate block in either, blocks of one size at both levels, and no
    /// block at both levels.
    pub open spec fn consistent(self) -> bool {
        &&& self.wf()
        &&& self.l1.distinct_tags()
        &&& self.l2.distinct_tags()
        &&& self.l1.b == self.l2.b
        &&& self.exclusive()
    }

    /// How many lines of the two levels hold a block.
    pub open spec fn valid_lines(self) -> nat {
        self.l1.valid_lines() + self.l2.valid_lines()
    }

    /// Whether the block of `x` is at either level.
    pub open spec fn holds(self, x: u64) -> bool {
        self.l1.contains(x) || self.l2.contains(x)
    }

    /// L2 as it is when an L1 miss demotes a block into it: after its probe,
    /// and without the accessed block when that was an L2 hit.
    pub open spec fn receiving_l2(self, address: u64) -> CacheModel {
        let (l2_probed, l2_hit) = self.l2.probe(address);
        if l2_hit {
            l2_probed.remove(address).0
        } else {
            l2_probed
        }
    }

    /// The block that leaves `l2` when the block pushed out of L1 by placing
    /// `address` is demoted into it, if any.
    pub open spec fn demotion_victim(self, l2: CacheModel, address: u64) -> Option<EvictedBlock> {
        match self.l1.insert(address).1 {
            Some(v) => l2.insert(v.address).1,
            None => None,
        }
    }

    /// The block that an access to `address` pushes out of the hierarchy
    /// altogether, if any.
    pub open spec fn hierarchy_victim(self, address: u64) -> Option<EvictedBlock> {
        if self.l1.contains(address) {
            None
        } else {
            self.demotion_victim(self.receiving_l2(address), address)
        }
    }

    /// The block that an access to `address` pushes out of L1, if any: none on
    /// an L1 hit, else whatever placing the block in L1 evicts.
    pub open spec fn l1_victim(self, address: u64) -> Option<EvictedBlock> {
        if self.l1.contains(address) {
            None
        } else {
            self.l1.insert(address).1
        }
    }

    /// The conditions under which an access to `address` can place its
    /// blocks: the levels are well formed, the set of `address` in L1 has a
    /// line, and so does the L2 set of whatever block leaves L1, and the
    /// clocks have room.
    pub open spec fn can_place(self, address: u64) -> bool {
        &&& self.wf()
        &&& self.l1.lines_for(address).len() > 0
        &&& (self.l1_victim(address) matches Some(v) ==> self.l2.lines_for(v.address).len() > 0)
        &&& self.l1.time < u64::MAX
        &&& self.l2.time < u64::MAX - 1
    }

    /// The conditions under which an access to `address` can run: its blocks
    /// can be placed and no count is at its limit.
    pub open spec fn can_access(self, address: u64) -> bool {
        &&& self.can_place(address)
        &&& self.hits < u64::MAX
        &&& self.misses < u64::MAX
        &&& self.evictions < u64::MAX
    }

    /// Placing the block of `address` in L1 and demoting whatever it pushes
    /// out into L2, counting a hierarchy eviction when that pushes a block out
    /// of L2.
    pub open spec fn fill(self, l1: CacheModel, l2: CacheModel, address: u64) -> HierarchyModel {
        let (l1_placed, victim) = l1.insert(address);
        match victim {
            Some(v) => {
                let (l2_placed, l2_victim) = l2.insert(v.address);
                HierarchyModel {
                    l1: l1_placed,
                    l2: l2_placed,
                    evictions: if l2_victim is Some { (self.evictions + 1) as u64 } else { self.evictions },
                    ..self
                }
            },
            None => HierarchyModel { l1: l1_placed, l2, ..self },
        }
    }

    /// One access: an L1 hit; or an L2 hit, which moves the block from L2 to
    /// L1; or a miss in both, which fetches the block into L1.
    pub open spec fn access(self, address: u64) -> HierarchyModel {
        let (l1_probed, l1_hit) = self.l1.probe(address);
        if l1_hit {
            HierarchyModel { l1: l1_probed, hits: (self.hits + 1) as u64, ..self }
        } else {
            let (l2_probed, l2_hit) = self.l2.probe(address);
            if l2_hit {
                let (l2_removed, _) = l2_probed.remove(address);
                HierarchyModel { hits: (self.hits + 1) as u64, ..self }.fill(
                    l1_probed,
                    l2_removed,
                    address,
                )
            } else {
                HierarchyModel { misses: (self.misses + 1) as u64, ..self }.fill(
                    l1_probed,
                    l2_probed,
                    address,
                )
            }
        }
    }
}

impl HierarchyModel {
    /// What every access does, whatever the state of the levels: both levels
    /// stay well formed and keep their shape, the accessed block ends up in
    /// L1, one hit or miss is counted, at most one eviction, and the clocks
    /// move on by at most one (L1) and two (L2).
    pub proof fn lemma_access_basics(self, a: u64)
        requires
            self.can_access(a),
        ensures
            self.access(a).wf(),
            same_shape(self.l1, self.access(a).l1),
            same_shape(self.l2, self.access(a).l2),
            self.access(a).l1.contains(a),
            self.access(a).hits + self.access(a).misses == self.hits + self.misses + 1,
            self.access(a).hits == self.hits + 1 <==> (self.l1.contains(a) || self.l2.contains(a)),
            self.evictions <= self.access(a).evictions <= self.evictions + 1,
            self.access(a).evictions == self.evictions + 1 ==> self.l1_victim(a) is Some,
            self.l1.time <= self.access(a).l1.time <= self.l1.time + 1,
            self.l2.time <= self.access(a).l2.time <= self.l2.time + 2,
    {
        let l1 = self.l1;
        let l2 = self.l2;
        l1.lemma_probe(a);
        l2.lemma_probe(a);
        lemma_same_blocks_contains(l1, l1.probe(a).0, a);
        lemma_same_blocks_contains(l2, l2.probe(a).0, a);
        if !l1.contains(a) {
            l1.lemma_insert(a);
            crate::laws::lemma_insert_holds(l1, a);
            let l2p = l2.probe(a).0;
            l2p.lemma_remove(a);
            let l2m = if l2.contains(a) { l2p.remove(a).0 } else { l2p };
            if let Some(v) = l1.insert(a).1 {
                lemma_same_shape_lines(l2, l2p, v.address);
                lemma_same_shape_lines(l2p, l2m, v.address);
                l2m.lemma_insert(v.address);
            }
        }
    }
}

/// A two-level exclusive hierarchy: a block sits in L1 or in L2, not both.
/// Hits count blocks found at either level, misses those found at neither,
/// and evictions the blocks that leave L2 and so the hierarchy.
pub struct CacheHierarchy {
    pub l1: Cache,
    pub l2: Cache,
    pub hits: u64,
    pub misses: u64,
    pub evictions: u64,
}

impl View for CacheHierarchy {
    type V = HierarchyModel;

    open spec fn view(&self) -> HierarchyModel {
        HierarchyModel {
            l1: self.l1@,
            l2: self.l2@,
            hits: self.hits,
            misses: self.misses,
            evictions: self.evictions,
        }
    }
}

impl CacheHierarchy {
    /// A hierarchy of two empty caches, its counts at zero.
    pub fn new(
        l1_s: usize,
        l1_b: usize,
        l1_e: usize,
        l2_s: usize,
        l2_b: usize,
        l2_e: usize,
    ) -> (hierarchy: Self)
        requires
            l1_s < usize::BITS,
            l2_s < usize::BITS,
        ensures
            hierarchy@ == (HierarchyModel {
                l1: initial_model(l1_s as nat, l1_b as nat, l1_e as nat),
                l2: initial_model(l2_s as nat, l2_b as nat, l2_e as nat),
                hits: 0,
                misses: 0,
                evictions: 0,
            }),
    {
        CacheHierarchy {
            l1: Cache::new(l1_s, l1_b, l1_e),
            l2: Cache::new(l2_s, l2_b, l2_e),
            hits: 0,
            misses: 0,
            evictions: 0,
        }
    }

    /// Places the block of `address` in L1 and demotes the block that this
    /// pushes out, if any, to L2, counting an eviction if L2 must then let a
    /// block go.
    fn fill(&mut self, address: u64)
        requires
            old(self)@.wf(),
            old(self)@.l1.lines_for(address).len() > 0,
            old(self)@.l1.insert(address).1 matches Some(v) ==> old(self)@.l2.lines_for(
                v.address,
            ).len() > 0,
            old(self).l1.time < u64::MAX,
            old(self).l2.time < u64::MAX,
            old(self).evictions < u64::MAX,
        ensures
            final(self)@ == old(self)@.fill(old(self)@.l1, old(self)@.l2, address),
    {
        if let Some(evicted_from_l1) = self.l1.insert_block(address) {
            if self.l2.insert_block(evicted_from_l1.address).is_some() {
                self.evictions = self.evictions + 1;
            }
        }
    }

    /// Simulates one access to the exclusive L1/L2 hierarchy.
    ///
    /// L1 is checked first. On an L1 miss L2 is checked; an L2 hit promotes the
    /// block to L1 and removes it from L2. A miss in both fetches the block into
    /// L1. Whatever L1 pushes out is demoted to L2, and a block pushed out of
    /// L2 counts as one hierarchy eviction.
    pub fn access(&mut self, address: u64)
        requires
            old(self)@.can_access(address),
        ensures
            final(self)@ == old(self)@.access(address),
    {
        if self.l1.probe(address) {
            self.hits = self.hits + 1;
            return;
        }
        proof {
            old(self)@.l1.lemma_probe(address);
            old(self)@.l2.lemma_probe(address);
            crate::cache::lemma_same_blocks_contains(old(self)@.l2, old(self)@.l2.probe(address).0, address);
        }
        if self.l2.probe(address) {
            self.hits = self.hits + 1;
            let removed = self.l2.remove_block(address);
            assert(removed);
            proof {
                let l2_probed = old(self)@.l2.probe(address).0;
                l2_probed.lemma_remove(address);
                if let Some(v) = old(self)@.l1.insert(address).1 {
                    crate::cache::lemma_same_shape_lines(old(self)@.l2, l2_probed, v.address);
                    crate::cache::lemma_same_shape_lines(l2_probed, l2_probed.remove(address).0, v.address);
                }
            }
            self.fill(address);
            return;
        }
        self.misses = self.misses + 1;
        self.fill(address);
    }
}

} // verus!
