//! A single-level set-associative cache with least-recently-used replacement.
use vstd::prelude::*;

verus! {

use vstd::arithmetic::power2::pow2;
use crate::address::{
    tag_of, set_index_of, join_address, block_of, parse_address, lemma_block_address_bits,
    lemma_join_split, lemma_same_block,
};

/// One line of a cache set.
#[derive(Clone, Copy)]
pub struct CacheLine {
    pub valid: bool,
    pub tag: u64,
    /// Timestamp of the last use, for LRU replacement.
    pub last_used: u64,
}

/// The line that a fresh set is filled with.
pub open spec fn empty_line() -> CacheLine {
    CacheLine { valid: false, tag: 0, last_used: 0 }
}

impl CacheLine {
    /// An invalid line with zero tag and timestamp.
    pub fn empty() -> (line: Self)
        ensures
            line == empty_line(),
    {
        CacheLine { valid: false, tag: 0, last_used: 0 }
    }
}

/// One set of a cache: its lines.
pub struct CacheSet {
    pub lines: Vec<CacheLine>,
}

impl CacheSet {
    /// A set of `e` empty lines.
    pub fn new(e: usize) -> (set: Self)
        ensures
            set.lines@ == Seq::new(e as nat, |i: int| empty_line()),
    {
        let mut lines: Vec<CacheLine> = Vec::new();
        let mut i: usize = 0;
        while i < e
            invariant
                i <= e,
                lines@ == Seq::new(i as nat, |k: int| empty_line()),
            decreases e - i,
        {
            lines.push(CacheLine::empty());
            i = i + 1;
            assert(lines@ =~= Seq::new(i as nat, |k: int| empty_line()));
        }
        CacheSet { lines }
    }

    /// The first line that holds tag `tag`, if any.
    pub fn find_tag(&self, tag: u64) -> (found: Option<usize>)
        ensures
            match found {
                Some(j) => is_first_holding(self.lines@, tag, j as int),
                None => !holds_tag(self.lines@, tag),
            },
    {
        let mut j: usize = 0;
        while j < self.lines.len()
            invariant
                j <= self.lines@.len(),
                forall|k: int| 0 <= k < j ==> !holds(#[trigger] self.lines@[k], tag),
            decreases self.lines@.len() - j,
        {
            let line = self.lines[j];
            if line.valid && line.tag == tag {
                return Some(j);
            }
            j = j + 1;
        }
        None
    }

    /// The first invalid line, if any.
    pub fn find_free(&self) -> (found: Option<usize>)
        ensures
            match found {
                Some(j) => is_first_free(self.lines@, j as int),
                None => !has_free(self.lines@),
            },
    {
        let mut j: usize = 0;
        while j < self.lines.len()
            invariant
                j <= self.lines@.len(),
                forall|k: int| 0 <= k < j ==> (#[trigger] self.lines@[k]).valid,
            decreases self.lines@.len() - j,
        {
            if !self.lines[j].valid {
                return Some(j);
            }
            j = j + 1;
        }
        None
    }

    /// The least recently used line: the first of those with the smallest
    /// timestamp.
    pub fn find_least_recent(&self) -> (j: usize)
        requires
            self.lines@.len() > 0,
        ensures
            is_least_recent(self.lines@, j as int),
    {
        let mut lru_idx: usize = 0;
        let mut lru_time: u64 = self.lines[0].last_used;
        let mut i: usize = 1;
        while i < self.lines.len()
            invariant
                1 <= i <= self.lines@.len(),
                lru_idx < i,
                lru_time == self.lines@[lru_idx as int].last_used,
                forall|k: int| 0 <= k < i ==> lru_time <= (#[trigger] self.lines@[k]).last_used,
                forall|k: int| 0 <= k < lru_idx ==> (#[trigger] self.lines@[k]).last_used > lru_time,
            decreases self.lines@.len() - i,
        {
            if self.lines[i].last_used < lru_time {
                lru_time = self.lines[i].last_used;
                lru_idx = i;
            }
            i = i + 1;
        }
        lru_idx
    }
}

/// A block that left a cache to make room for another, by its address
/// (tag and set index, block offset zero).
#[derive(Debug, Clone, Copy, PartialEq, Eq, Structural)]
pub struct EvictedBlock {
    pub address: u64,
}

/// Whether `line` holds the block with tag `tag`.
pub open spec fn holds(line: CacheLine, tag: u64) -> bool {
    line.valid && line.tag == tag
}

/// Whether some line of `lines` holds the block with tag `tag`.
pub open spec fn holds_tag(lines: Seq<CacheLine>, tag: u64) -> bool {
    exists|j: int| 0 <= j < lines.len() && holds(#[trigger] lines[j], tag)
}

/// `j` is the first line of `lines` that holds tag `tag`.
pub open spec fn is_first_holding(lines: Seq<CacheLine>, tag: u64, j: int) -> bool {
    &&& 0 <= j < lines.len()
    &&& holds(lines[j], tag)
    &&& forall|k: int| 0 <= k < j ==> !holds(#[trigger] lines[k], tag)
}

/// The first line of `lines` that holds tag `tag` (meaningful when one does).
pub open spec fn holding_index(lines: Seq<CacheLine>, tag: u64) -> int {
    choose|j: int| is_first_holding(lines, tag, j)
}

/// Whether some line of `lines` is invalid.
pub open spec fn has_free(lines: Seq<CacheLine>) -> bool {
    exists|j: int| 0 <= j < lines.len() && !(#[trigger] lines[j]).valid
}

/// `j` is the first invalid line of `lines`.
pub open spec fn is_first_free(lines: Seq<CacheLine>, j: int) -> bool {
    &&& 0 <= j < lines.len()
    &&& !lines[j].valid
    &&& forall|k: int| 0 <= k < j ==> (#[trigger] lines[k]).valid
}

/// The first invalid line of `lines` (meaningful when there is one).
pub open spec fn free_index(lines: Seq<CacheLine>) -> int {
    choose|j: int| is_first_free(lines, j)
}

/// `j` is the least recently used line of `lines`: no line was used before it,
/// and every line before it was used later.
pub open spec fn is_least_recent(lines: Seq<CacheLine>, j: int) -> bool {
    &&& 0 <= j < lines.len()
    &&& forall|k: int| 0 <= k < lines.len() ==> lines[j].last_used <= (#[trigger] lines[k]).last_used
    &&& forall|k: int| 0 <= k < j ==> (#[trigger] lines[k]).last_used > lines[j].last_used
}

/// The least recently used line of `lines` (meaningful when there is a line).
pub open spec fn lru_index(lines: Seq<CacheLine>) -> int {
    choose|j: int| is_least_recent(lines, j)
}

/// There is only one first line holding a tag.
pub proof fn lemma_first_holding_unique(lines: Seq<CacheLine>, tag: u64, j: int)
    requires
        is_first_holding(lines, tag, j),
    ensures
        holding_index(lines, tag) == j,
{
    let c = holding_index(lines, tag);
    assert(is_first_holding(lines, tag, c));
    if c < j {
        assert(!holds(lines[c], tag));
    } else if c > j {
        assert(!holds(lines[j], tag));
    }
}

/// There is only one first invalid line.
pub proof fn lemma_first_free_unique(lines: Seq<CacheLine>, j: int)
    requires
        is_first_free(lines, j),
    ensures
        free_index(lines) == j,
{
    let c = free_index(lines);
    assert(is_first_free(lines, c));
    if c < j {
        assert(lines[c].valid);
    } else if c > j {
        assert(lines[j].valid);
    }
}

/// There is only one least recently used line.
pub proof fn lemma_least_recent_unique(lines: Seq<CacheLine>, j: int)
    requires
        is_least_recent(lines, j),
    ensures
        lru_index(lines) == j,
{
    let c = lru_index(lines);
    assert(is_least_recent(lines, c));
    if c < j {
        assert(lines[c].last_used > lines[j].last_used);
        assert(lines[j].last_used <= lines[c].last_used);
    } else if c > j {
        assert(lines[j].last_used > lines[c].last_used);
        assert(lines[c].last_used <= lines[j].last_used);
    }
}

/// The whole state of a cache, as the contracts see it.
pub struct CacheModel {
    pub s: nat,
    pub b: nat,
    pub sets: Seq<Seq<CacheLine>>,
    pub time: u64,
    pub hits: u64,
    pub misses: u64,
    pub evictions: u64,
}

/// The cache that `Cache::new(s, b, e)` builds.
pub open spec fn initial_model(s: nat, b: nat, e: nat) -> CacheModel {
    CacheModel {
        s,
        b,
        sets: Seq::new(pow2(s), |i: int| Seq::new(e, |k: int| empty_line())),
        time: 0,
        hits: 0,
        misses: 0,
        evictions: 0,
    }
}

impl CacheModel {
    /// The tag of `address` in this cache.
    pub open spec fn tag(self, address: u64) -> u64 {
        tag_of(address as nat, self.s, self.b) as u64
    }

    /// The set that `address` maps to.
    pub open spec fn set_of(self, address: u64) -> int {
        set_index_of(address as nat, self.s, self.b) as int
    }

    /// The lines of the set that `address` maps to.
    pub open spec fn lines_for(self, address: u64) -> Seq<CacheLine> {
        self.sets[self.set_of(address)]
    }

    /// Whether the block of `address` is in the cache.
    pub open spec fn contains(self, address: u64) -> bool {
        holds_tag(self.lines_for(address), self.tag(address))
    }

    /// The invariant of a usable cache: the address fields fit in 64 bits,
    /// there are `2^s` sets, and every valid line holds a tag that an address
    /// can have.
    pub open spec fn wf(self) -> bool {
        &&& self.s + self.b < 64
        &&& self.s < usize::BITS
        &&& self.sets.len() == pow2(self.s)
        &&& forall|i: int, j: int|
            0 <= i < self.sets.len() && 0 <= j < self.sets[i].len() && (#[trigger] self.sets[i][j]).valid
                ==> self.sets[i][j].tag < pow2((64 - self.s - self.b) as nat)
    }

    /// Every set has at least one line, so that a block can always be placed.
    pub open spec fn has_lines(self) -> bool {
        forall|i: int| 0 <= i < self.sets.len() ==> (#[trigger] self.sets[i]).len() > 0
    }

    /// No line was used later than the cache's clock says.
    pub open spec fn clock_ahead(self) -> bool {
        forall|i: int, j: int|
            0 <= i < self.sets.len() && 0 <= j < self.sets[i].len() ==> (#[trigger] self.sets[i][j]).last_used
                <= self.time
    }

    /// The line that holds the block of `address` is the most recently used
    /// line of its set: it is stamped with the clock, and every other line of
    /// the set with an earlier time.
    pub open spec fn most_recent_holds(self, address: u64) -> bool {
        let lines = self.lines_for(address);
        exists|j: int|
            0 <= j < lines.len() && holds(#[trigger] lines[j], self.tag(address)) && lines[j].last_used
                == self.time && forall|k: int|
                0 <= k < lines.len() && k != j ==> (#[trigger] lines[k]).last_used < self.time
    }

    /// No set holds the same tag in two valid lines.
    pub open spec fn distinct_tags(self) -> bool {
        forall|i: int, j: int, k: int|
            0 <= i < self.sets.len() && 0 <= j < self.sets[i].len() && 0 <= k < self.sets[i].len()
                && j != k && (#[trigger] self.sets[i][j]).valid && (#[trigger] self.sets[i][k]).valid
                ==> self.sets[i][j].tag != self.sets[i][k].tag
    }

    /// Replace line `j` of the set of `address`, advancing the clock by one
    /// and stamping the new line with the new time.
    pub open spec fn stamp(self, address: u64, j: int, valid: bool, tag: u64) -> CacheModel {
        let t = (self.time + 1) as u64;
        let i = self.set_of(address);
        CacheModel {
            sets: self.sets.update(i, self.sets[i].update(j, CacheLine { valid, tag, last_used: t })),
            time: t,
            ..self
        }
    }

    /// Looking `address` up: on a hit, the first line holding its block is
    /// stamped with the next time; on a miss nothing changes.
    pub open spec fn probe(self, address: u64) -> (CacheModel, bool) {
        let lines = self.lines_for(address);
        let tag = self.tag(address);
        if holds_tag(lines, tag) {
            let j = holding_index(lines, tag);
            (self.stamp(address, j, true, tag), true)
        } else {
            (self, false)
        }
    }

    /// The address of the block in line `j` of set `i`.
    pub open spec fn block_address(self, i: int, j: int) -> u64 {
        join_address(self.sets[i][j].tag as nat, i as nat, 0, self.s, self.b) as u64
    }

    /// Placing the block of `address`: into the first invalid line of its set
    /// if there is one, else over the least recently used line, whose block is
    /// then returned.
    pub open spec fn insert(self, address: u64) -> (CacheModel, Option<EvictedBlock>) {
        let lines = self.lines_for(address);
        let tag = self.tag(address);
        if has_free(lines) {
            (self.stamp(address, free_index(lines), true, tag), None)
        } else {
            let j = lru_index(lines);
            (
                self.stamp(address, j, true, tag),
                Some(EvictedBlock { address: self.block_address(self.set_of(address), j) }),
            )
        }
    }

    /// Dropping the block of `address`: the first line holding it becomes
    /// invalid, keeping its tag and timestamp.
    pub open spec fn remove(self, address: u64) -> (CacheModel, bool) {
        let lines = self.lines_for(address);
        let tag = self.tag(address);
        let i = self.set_of(address);
        if holds_tag(lines, tag) {
            let j = holding_index(lines, tag);
            (
                CacheModel {
                    sets: self.sets.update(i, lines.update(j, CacheLine { valid: false, ..lines[j] })),
                    ..self
                },
                true,
            )
        } else {
            (self, false)
        }
    }

    /// The block that an access to `address` pushes out, if any: none on a
    /// hit, else whatever placing the block evicts.
    pub open spec fn victim(self, address: u64) -> Option<EvictedBlock> {
        if self.contains(address) {
            None
        } else {
            self.insert(address).1
        }
    }

    /// The conditions under which an access to `address` can run: the cache
    /// is well formed, the set of `address` has a line, and neither the clock
    /// nor a count is at its limit.
    pub open spec fn can_access(self, address: u64) -> bool {
        &&& self.wf()
        &&& self.lines_for(address).len() > 0
        &&& self.time < u64::MAX
        &&& self.hits < u64::MAX
        &&& self.misses < u64::MAX
        &&& self.evictions < u64::MAX
    }

    /// One access: a hit if the block is present, else a miss that places the
    /// block, and an eviction if placing it pushed another block out.
    pub open spec fn access(self, address: u64) -> CacheModel {
        let (probed, hit) = self.probe(address);
        if hit {
            CacheModel { hits: (probed.hits + 1) as u64, ..probed }
        } else {
            let (placed, evicted) = probed.insert(address);
            CacheModel {
                misses: (placed.misses + 1) as u64,
                evictions: if evicted is Some { (placed.evictions + 1) as u64 } else { placed.evictions },
                ..placed
            }
        }
    }
}

/// The tag of an address fits the tag bound of the invariant, and its set
/// index names one of the `2^s` sets.
pub proof fn lemma_address_parts_bounded(address: u64, s: nat, b: nat)
    requires
        s + b < 64,
    ensures
        tag_of(address as nat, s, b) < pow2((64 - s - b) as nat),
        tag_of(address as nat, s, b) <= address,
        set_index_of(address as nat, s, b) < pow2(s),
{
    let k: nat = s + b;
    let rest: nat = (64 - s - b) as nat;
    vstd::arithmetic::power2::lemma_pow2_pos(k);
    vstd::arithmetic::power2::lemma_pow2_pos(s);
    vstd::arithmetic::power2::lemma_pow2_adds(rest, k);
    vstd::arithmetic::power2::lemma2_to64();
    assert(rest + k == 64);
    crate::address::lemma_split_join(address as nat, s, b);
    let t = tag_of(address as nat, s, b);
    let a: nat = address as nat;
    vstd::arithmetic::div_mod::lemma_fundamental_div_mod(address as int, pow2(k) as int);
    vstd::arithmetic::div_mod::lemma_mod_bound(address as int, pow2(k) as int);
    assert(t < pow2(rest)) by (nonlinear_arith)
        requires
            a < pow2(64),
            pow2(64) == pow2(rest) * pow2(k),
            a == pow2(k) * t + a % pow2(k),
            a % pow2(k) >= 0,
            pow2(k) > 0,
    ;
    assert(t <= a) by (nonlinear_arith)
        requires
            a == pow2(k) * t + a % pow2(k),
            a % pow2(k) >= 0,
            pow2(k) > 0,
            t >= 0,
    ;
}

/// Two cache states with the same geometry and the same number of lines in
/// each set.
pub open spec fn same_shape(m1: CacheModel, m2: CacheModel) -> bool {
    &&& m1.s == m2.s
    &&& m1.b == m2.b
    &&& m1.sets.len() == m2.sets.len()
    &&& forall|i: int| 0 <= i < m1.sets.len() ==> (#[trigger] m1.sets[i]).len() == m2.sets[i].len()
}

/// Two cache states of the same shape that hold the same blocks in the same
/// lines: they differ at most in timestamps and counts.
pub open spec fn same_blocks(m1: CacheModel, m2: CacheModel) -> bool {
    &&& same_shape(m1, m2)
    &&& forall|i: int, j: int|
        0 <= i < m1.sets.len() && 0 <= j < m1.sets[i].len() ==> {
            &&& (#[trigger] m1.sets[i][j]).valid == m2.sets[i][j].valid
            &&& m1.sets[i][j].tag == m2.sets[i][j].tag
        }
}

/// States of the same shape give every address a set of the same size.
pub proof fn lemma_same_shape_lines(m1: CacheModel, m2: CacheModel, address: u64)
    requires
        m1.wf(),
        same_shape(m1, m2),
    ensures
        m1.lines_for(address).len() == m2.lines_for(address).len(),
{
    lemma_address_parts_bounded(address, m1.s, m1.b);
}

/// States with the same blocks contain the same addresses.
pub proof fn lemma_same_blocks_contains(m1: CacheModel, m2: CacheModel, address: u64)
    requires
        m1.wf(),
        same_blocks(m1, m2),
    ensures
        m1.contains(address) == m2.contains(address),
{
    lemma_address_parts_bounded(address, m1.s, m1.b);
    let i = m1.set_of(address);
    let tag = m1.tag(address);
    if m1.contains(address) {
        let j = choose|j: int| 0 <= j < m1.sets[i].len() && holds(m1.sets[i][j], tag);
        assert(holds(m2.sets[i][j], tag));
    }
    if m2.contains(address) {
        let j = choose|j: int| 0 <= j < m2.sets[i].len() && holds(m2.sets[i][j], tag);
        assert(holds(m1.sets[i][j], tag));
    }
}

impl CacheModel {
    /// What a probe keeps: the invariant, the blocks, the counts; the clock
    /// moves on exactly on a hit, and a hit means the block was there.
    pub proof fn lemma_probe(self, address: u64)
        requires
            self.wf(),
            self.contains(address) ==> self.time < u64::MAX,
        ensures
            self.probe(address).0.wf(),
            same_blocks(self, self.probe(address).0),
            self.probe(address).1 == self.contains(address),
            self.probe(address).0.time == if self.contains(address) { self.time + 1 } else { self.time as int },
            self.probe(address).0.hits == self.hits,
            self.probe(address).0.misses == self.misses,
            self.probe(address).0.evictions == self.evictions,
    {
        lemma_address_parts_bounded(address, self.s, self.b);
        if self.contains(address) {
            let lines = self.lines_for(address);
            let tag = self.tag(address);
            let j0 = choose|j: int| 0 <= j < lines.len() && holds(lines[j], tag);
            self.lemma_first_holding_exists(address, j0);
        }
    }

    /// What removing keeps: the invariant, the shape, the clock and the
    /// counts; it reports whether the block was there.
    pub proof fn lemma_remove(self, address: u64)
        requires
            self.wf(),
        ensures
            self.remove(address).0.wf(),
            same_shape(self, self.remove(address).0),
            self.remove(address).1 == self.contains(address),
            self.remove(address).0.time == self.time,
            self.remove(address).0.hits == self.hits,
            self.remove(address).0.misses == self.misses,
            self.remove(address).0.evictions == self.evictions,
    {
        lemma_address_parts_bounded(address, self.s, self.b);
        if self.contains(address) {
            let lines = self.lines_for(address);
            let tag = self.tag(address);
            let j0 = choose|j: int| 0 <= j < lines.len() && holds(lines[j], tag);
            self.lemma_first_holding_exists(address, j0);
        }
    }

    /// What placing a block keeps: the invariant and the shape; the clock moves
    /// on by one and the counts stay.
    pub proof fn lemma_insert(self, address: u64)
        requires
            self.wf(),
            self.time < u64::MAX,
            self.lines_for(address).len() > 0,
        ensures
            self.insert(address).0.wf(),
            same_shape(self, self.insert(address).0),
            self.insert(address).0.time == self.time + 1,
            self.insert(address).0.hits == self.hits,
            self.insert(address).0.misses == self.misses,
            self.insert(address).0.evictions == self.evictions,
    {
        lemma_address_parts_bounded(address, self.s, self.b);
        let lines = self.lines_for(address);
        if has_free(lines) {
            let j0 = choose|j: int| 0 <= j < lines.len() && !(#[trigger] lines[j]).valid;
            Self::lemma_first_free_exists(lines, j0);
        } else {
            Self::lemma_least_recent_exists(lines);
        }
    }

    /// A non-empty set has a least recently used line.
    pub proof fn lemma_least_recent_exists(lines: Seq<CacheLine>)
        requires
            lines.len() > 0,
        ensures
            is_least_recent(lines, lru_index(lines)),
        decreases lines.len(),
    {
        if lines.len() == 1 {
            assert(is_least_recent(lines, 0));
        } else {
            let front = lines.drop_last();
            Self::lemma_least_recent_exists(front);
            let j = lru_index(front);
            assert(forall|k: int| 0 <= k < front.len() ==> front[k] == lines[k]);
            let last = lines.len() - 1;
            if lines[last].last_used < lines[j].last_used {
                assert(is_least_recent(lines, last));
            } else {
                assert(is_least_recent(lines, j));
            }
        }
    }

    /// The block number of `address` in this cache.
    pub open spec fn block(self, address: u64) -> nat {
        block_of(address as nat, self.b)
    }

    /// Set and tag together identify the block.
    pub proof fn lemma_block_key(self, x: u64, y: u64)
        requires
            self.wf(),
        ensures
            (self.set_of(x) == self.set_of(y) && self.tag(x) == self.tag(y)) <==> self.block(x)
                == self.block(y),
            0 <= self.set_of(x) < self.sets.len(),
    {
        lemma_address_parts_bounded(x, self.s, self.b);
        lemma_address_parts_bounded(y, self.s, self.b);
        lemma_same_block(x as nat, y as nat, self.s, self.b);
    }

    /// The address that eviction reports for line `j` of set `i` lies in set
    /// `i` and carries the tag of that line.
    pub proof fn lemma_block_address(self, i: int, j: int)
        requires
            self.wf(),
            0 <= i < self.sets.len(),
            0 <= j < self.sets[i].len(),
            self.sets[i][j].valid,
        ensures
            self.set_of(self.block_address(i, j)) == i,
            self.tag(self.block_address(i, j)) == self.sets[i][j].tag,
            self.contains(self.block_address(i, j)),
    {
        let tag = self.sets[i][j].tag;
        vstd::arithmetic::power2::lemma_pow2_pos(self.b);
        vstd::bits::lemma_u64_pow2_no_overflow(self.s);
        lemma_block_address_bits(tag, i as u64, self.s as u64, self.b as u64);
        lemma_join_split(tag as nat, i as nat, 0, self.s, self.b);
        let v = self.block_address(i, j);
        assert(holds(self.lines_for(v)[j], self.tag(v)));
    }

    /// Which blocks a cache holds after placing the block of `a`: that block,
    /// and every block it held before except the one pushed out.
    pub proof fn lemma_insert_contents(self, a: u64, x: u64)
        requires
            self.wf(),
            self.distinct_tags(),
            self.time < u64::MAX,
            self.lines_for(a).len() > 0,
        ensures
            self.insert(a).0.contains(x) <==> (self.block(x) == self.block(a) || (self.contains(x)
                && !(self.insert(a).1 matches Some(v) && self.block(v.address) == self.block(x)))),
    {
        self.lemma_insert(a);
        self.lemma_block_key(x, a);
        let i = self.set_of(a);
        let lines = self.lines_for(a);
        let ta = self.tag(a);
        let tx = self.tag(x);
        let post = self.insert(a).0;
        let j = if has_free(lines) {
            let j0 = choose|j: int| 0 <= j < lines.len() && !(#[trigger] lines[j]).valid;
            Self::lemma_first_free_exists(lines, j0);
            free_index(lines)
        } else {
            Self::lemma_least_recent_exists(lines);
            lru_index(lines)
        };
        assert(post.sets[i] == lines.update(j, CacheLine { valid: true, tag: ta, last_used: post.time }));
        if !has_free(lines) {
            assert(lines[j].valid);
            self.lemma_block_address(i, j);
            let v = self.block_address(i, j);
            self.lemma_block_key(v, x);
        }
        if self.set_of(x) != i {
            assert(post.sets[self.set_of(x)] == self.sets[self.set_of(x)]);
        } else if tx == ta {
            assert(holds(post.lines_for(x)[j], tx));
        } else {
            let nl = post.sets[i];
            if post.contains(x) {
                let k = choose|k: int| 0 <= k < nl.len() && holds(#[trigger] nl[k], tx);
                assert(k != j);
                assert(holds(lines[k], tx));
                if !has_free(lines) {
                    if lines[j].tag == tx {
                        assert(false);
                    }
                }
            }
            if self.contains(x) && !(self.insert(a).1 matches Some(v) && self.block(v.address) == self.block(x)) {
                let k = choose|k: int| 0 <= k < lines.len() && holds(#[trigger] lines[k], tx);
                assert(k != j);
                assert(holds(nl[k], tx));
            }
        }
    }

    /// Which blocks a cache holds after removing the block of `a`: all it held
    /// before but that one.
    pub proof fn lemma_remove_contents(self, a: u64, x: u64)
        requires
            self.wf(),
            self.distinct_tags(),
        ensures
            self.remove(a).0.contains(x) <==> (self.contains(x) && self.block(x) != self.block(a)),
    {
        self.lemma_remove(a);
        self.lemma_block_key(x, a);
        let i = self.set_of(a);
        let lines = self.lines_for(a);
        let ta = self.tag(a);
        let tx = self.tag(x);
        let post = self.remove(a).0;
        if self.contains(a) {
            let j0 = choose|j: int| 0 <= j < lines.len() && holds(#[trigger] lines[j], ta);
            self.lemma_first_holding_exists(a, j0);
            let j = holding_index(lines, ta);
            let nl = post.sets[i];
            assert(nl == lines.update(j, CacheLine { valid: false, ..lines[j] }));
            if self.set_of(x) != i {
                assert(post.sets[self.set_of(x)] == self.sets[self.set_of(x)]);
            } else if tx == ta {
                if post.contains(x) {
                    let k = choose|k: int| 0 <= k < nl.len() && holds(#[trigger] nl[k], tx);
                    assert(k != j);
                    assert(holds(lines[k], tx));
                    assert(false);
                }
            } else {
                if post.contains(x) {
                    let k = choose|k: int| 0 <= k < nl.len() && holds(#[trigger] nl[k], tx);
                    assert(holds(lines[k], tx));
                }
                if self.contains(x) {
                    let k = choose|k: int| 0 <= k < lines.len() && holds(#[trigger] lines[k], tx);
                    assert(k != j);
                    assert(holds(nl[k], tx));
                }
            }
        }
    }

    /// Probing and removing never put a tag twice into a set, and neither
    /// does placing a block that the cache does not hold yet.
    pub proof fn lemma_distinct_kept(self, a: u64)
        requires
            self.wf(),
            self.distinct_tags(),
            self.time < u64::MAX,
        ensures
            self.probe(a).0.distinct_tags(),
            self.remove(a).0.distinct_tags(),
            self.lines_for(a).len() > 0 && !self.contains(a) ==> self.insert(a).0.distinct_tags(),
    {
        self.lemma_probe(a);
        self.lemma_remove(a);
        lemma_address_parts_bounded(a, self.s, self.b);
        let i = self.set_of(a);
        let lines = self.lines_for(a);
        let ta = self.tag(a);
        if self.contains(a) {
            let j0 = choose|j: int| 0 <= j < lines.len() && holds(#[trigger] lines[j], ta);
            self.lemma_first_holding_exists(a, j0);
        }
        if lines.len() > 0 && !self.contains(a) {
            self.lemma_insert(a);
            let post = self.insert(a).0;
            let j = if has_free(lines) {
                let j0 = choose|j: int| 0 <= j < lines.len() && !(#[trigger] lines[j]).valid;
                Self::lemma_first_free_exists(lines, j0);
                free_index(lines)
            } else {
                Self::lemma_least_recent_exists(lines);
                lru_index(lines)
            };
            let nl = post.sets[i];
            assert(nl == lines.update(j, CacheLine { valid: true, tag: ta, last_used: post.time }));
            assert forall|p: int, q: int, r: int|
                0 <= p < post.sets.len() && 0 <= q < post.sets[p].len() && 0 <= r < post.sets[p].len()
                    && q != r && (#[trigger] post.sets[p][q]).valid && (#[trigger] post.sets[p][r]).valid
                implies post.sets[p][q].tag != post.sets[p][r].tag by {
                if p == i {
                    if q == j {
                        assert(!holds(lines[r], ta));
                    } else if r == j {
                        assert(!holds(lines[q], ta));
                    } else {
                        assert(self.sets[p][q] == post.sets[p][q]);
                        assert(self.sets[p][r] == post.sets[p][r]);
                    }
                } else {
                    assert(self.sets[p] == post.sets[p]);
                }
            }
        }
    }

    /// Addresses in the same block are held or not held together.
    pub proof fn lemma_contains_by_block(self, x: u64, y: u64)
        requires
            self.wf(),
            self.block(x) == self.block(y),
        ensures
            self.contains(x) == self.contains(y),
    {
        self.lemma_block_key(x, y);
    }

    /// When some line holds the block of `address`, a first such line exists.
    pub proof fn lemma_first_holding_exists(self, address: u64, j0: int)
        requires
            0 <= j0 < self.lines_for(address).len(),
            holds(self.lines_for(address)[j0], self.tag(address)),
        ensures
            is_first_holding(self.lines_for(address), self.tag(address), holding_index(self.lines_for(address), self.tag(address))),
        decreases j0,
    {
        let lines = self.lines_for(address);
        let tag = self.tag(address);
        if forall|k: int| 0 <= k < j0 ==> !holds(#[trigger] lines[k], tag) {
            assert(is_first_holding(lines, tag, j0));
        } else {
            let k = choose|k: int| 0 <= k < j0 && holds(#[trigger] lines[k], tag);
            self.lemma_first_holding_exists(address, k);
        }
    }

    /// When some line is invalid, a first such line exists.
    pub proof fn lemma_first_free_exists(lines: Seq<CacheLine>, j0: int)
        requires
            0 <= j0 < lines.len(),
            !lines[j0].valid,
        ensures
            is_first_free(lines, free_index(lines)),
        decreases j0,
    {
        if forall|k: int| 0 <= k < j0 ==> (#[trigger] lines[k]).valid {
            assert(is_first_free(lines, j0));
        } else {
            let k = choose|k: int| 0 <= k < j0 && !(#[trigger] lines[k]).valid;
            Self::lemma_first_free_exists(lines, k);
        }
    }
}

/// How many lines of `lines` are valid.
pub open spec fn valid_in(lines: Seq<CacheLine>) -> nat
    decreases lines.len(),
{
    if lines.len() == 0 {
        0
    } else {
        valid_in(lines.drop_last()) + if lines.last().valid { 1nat } else { 0nat }
    }
}

/// How many lines of all of `sets` are valid.
pub open spec fn valid_total(sets: Seq<Seq<CacheLine>>) -> nat
    decreases sets.len(),
{
    if sets.len() == 0 {
        0
    } else {
        valid_total(sets.drop_last()) + valid_in(sets.last())
    }
}

/// Replacing one line changes the count of valid lines by the difference in
/// validity.
pub proof fn lemma_valid_in_update(lines: Seq<CacheLine>, j: int, line: CacheLine)
    requires
        0 <= j < lines.len(),
    ensures
        valid_in(lines.update(j, line)) + (if lines[j].valid { 1int } else { 0int }) == valid_in(lines)
            + (if line.valid { 1int } else { 0int }),
    decreases lines.len(),
{
    let u = lines.update(j, line);
    if j == lines.len() - 1 {
        assert(u.drop_last() =~= lines.drop_last());
    } else {
        assert(u.drop_last() =~= lines.drop_last().update(j, line));
        lemma_valid_in_update(lines.drop_last(), j, line);
    }
}

/// Replacing one set changes the count of valid lines by the difference in
/// the counts of the two sets.
pub proof fn lemma_valid_total_update(sets: Seq<Seq<CacheLine>>, i: int, set: Seq<CacheLine>)
    requires
        0 <= i < sets.len(),
    ensures
        valid_total(sets.update(i, set)) + valid_in(sets[i]) == valid_total(sets) + valid_in(set),
    decreases sets.len(),
{
    let u = sets.update(i, set);
    if i == sets.len() - 1 {
        assert(u.drop_last() =~= sets.drop_last());
    } else {
        assert(u.drop_last() =~= sets.drop_last().update(i, set));
        lemma_valid_total_update(sets.drop_last(), i, set);
    }
}

/// Sets without a valid line count none.
pub proof fn lemma_valid_total_empty(sets: Seq<Seq<CacheLine>>)
    requires
        forall|i: int, j: int| 0 <= i < sets.len() && 0 <= j < sets[i].len() ==> !(#[trigger] sets[i][j]).valid,
    ensures
        valid_total(sets) == 0,
    decreases sets.len(),
{
    if sets.len() > 0 {
        lemma_valid_total_empty(sets.drop_last());
        lemma_valid_in_empty(sets.last());
    }
}

/// A set without a valid line counts none.
pub proof fn lemma_valid_in_empty(lines: Seq<CacheLine>)
    requires
        forall|j: int| 0 <= j < lines.len() ==> !(#[trigger] lines[j]).valid,
    ensures
        valid_in(lines) == 0,
    decreases lines.len(),
{
    if lines.len() > 0 {
        lemma_valid_in_empty(lines.drop_last());
    }
}

impl CacheModel {
    /// How many lines of the cache hold a block.
    pub open spec fn valid_lines(self) -> nat {
        valid_total(self.sets)
    }

    /// Replacing line `j` of set `i` changes the count of valid lines by the
    /// difference in validity.
    pub proof fn lemma_replace_line(self, i: int, j: int, line: CacheLine)
        requires
            0 <= i < self.sets.len(),
            0 <= j < self.sets[i].len(),
        ensures
            valid_total(self.sets.update(i, self.sets[i].update(j, line))) + (if self.sets[i][j].valid {
                1int
            } else {
                0int
            }) == self.valid_lines() + (if line.valid { 1int } else { 0int }),
    {
        lemma_valid_in_update(self.sets[i], j, line);
        lemma_valid_total_update(self.sets, i, self.sets[i].update(j, line));
    }

    /// A probe keeps the count of valid lines; placing a block adds one
    /// exactly when no block is pushed out; removing a held block takes one
    /// away.
    pub proof fn lemma_valid_lines(self, a: u64)
        requires
            self.wf(),
            self.time < u64::MAX,
        ensures
            self.probe(a).0.valid_lines() == self.valid_lines(),
            self.lines_for(a).len() > 0 ==> self.insert(a).0.valid_lines() == self.valid_lines() + if self.insert(
                a,
            ).1 is Some {
                0nat
            } else {
                1nat
            },
            self.remove(a).0.valid_lines() + (if self.contains(a) { 1int } else { 0int }) == self.valid_lines(),
    {
        lemma_address_parts_bounded(a, self.s, self.b);
        let i = self.set_of(a);
        let lines = self.lines_for(a);
        let tag = self.tag(a);
        if self.contains(a) {
            let j0 = choose|j: int| 0 <= j < lines.len() && holds(#[trigger] lines[j], tag);
            self.lemma_first_holding_exists(a, j0);
            let j = holding_index(lines, tag);
            self.lemma_replace_line(i, j, CacheLine { last_used: (self.time + 1) as u64, ..lines[j] });
            assert(self.probe(a).0.sets =~= self.sets.update(i, lines.update(j, CacheLine { last_used: (self.time + 1) as u64, ..lines[j] })));
            self.lemma_replace_line(i, j, CacheLine { valid: false, ..lines[j] });
        }
        if lines.len() > 0 {
            let j = if has_free(lines) {
                let j0 = choose|j: int| 0 <= j < lines.len() && !(#[trigger] lines[j]).valid;
                Self::lemma_first_free_exists(lines, j0);
                free_index(lines)
            } else {
                Self::lemma_least_recent_exists(lines);
                lru_index(lines)
            };
            self.lemma_replace_line(i, j, CacheLine { valid: true, tag, last_used: (self.time + 1) as u64 });
        }
    }
}

/// A single-level cache of `2^s` sets of `e` lines, for `2^b`-byte blocks,
/// with its clock and its hit, miss and eviction counts.
pub struct Cache {
    pub s: usize,
    pub b: usize,
    pub sets: Vec<CacheSet>,
    pub time: u64,
    pub hits: u64,
    pub misses: u64,
    pub evictions: u64,
}

impl View for Cache {
    type V = CacheModel;

    open spec fn view(&self) -> CacheModel {
        CacheModel {
            s: self.s as nat,
            b: self.b as nat,
            sets: self.sets@.map_values(|set: CacheSet| set.lines@),
            time: self.time,
            hits: self.hits,
            misses: self.misses,
            evictions: self.evictions,
        }
    }
}

impl Cache {
    /// A cache of `2^s` sets of `e` empty lines with `2^b`-byte blocks, its
    /// clock and counts at zero.
    pub fn new(s: usize, b: usize, e: usize) -> (cache: Self)
        requires
            s < usize::BITS,
        ensures
            cache@ == initial_model(s as nat, b as nat, e as nat),
            cache.s == s,
            cache.b == b,
    {
        proof {
            vstd::bits::lemma_usize_pow2_no_overflow(s as nat);
            vstd::bits::lemma_usize_shl_is_mul(1, s);
        }
        let num_sets: usize = 1usize << s;
        let mut sets: Vec<CacheSet> = Vec::new();
        let mut i: usize = 0;
        while i < num_sets
            invariant
                i <= num_sets,
                num_sets == pow2(s as nat),
                sets@.len() == i,
                forall|k: int| 0 <= k < i ==> (#[trigger] sets@[k]).lines@ == Seq::new(e as nat, |m: int| empty_line()),
            decreases num_sets - i,
        {
            sets.push(CacheSet::new(e));
            i = i + 1;
        }
        let cache = Cache { s, b, sets, time: 0, hits: 0, misses: 0, evictions: 0 };
        assert(cache@.sets =~= initial_model(s as nat, b as nat, e as nat).sets);
        cache
    }

    /// Looks `address` up. On a hit, advances the clock and stamps the line
    /// that holds the block with it, for LRU ordering.
    pub fn probe(&mut self, address: u64) -> (hit: bool)
        requires
            old(self)@.wf(),
            old(self)@.contains(address) ==> old(self).time < u64::MAX,
        ensures
            (final(self)@, hit) == old(self)@.probe(address),
            hit == old(self)@.contains(address),
            final(self).s == old(self).s,
            final(self).b == old(self).b,
    {
        let (tag, set_index, _block_offset) = parse_address(address, self.s, self.b);
        match self.sets[set_index].find_tag(tag) {
            Some(j) => {
                proof {
                    lemma_first_holding_unique(old(self)@.lines_for(address), tag, j as int);
                }
                self.time = self.time + 1;
                self.sets[set_index].lines[j].last_used = self.time;
                assert(self@.sets =~= old(self)@.probe(address).0.sets);
                true
            },
            None => false,
        }
    }

    /// Places the block of `address` in its set: into the first invalid line
    /// if there is one (returning `None`), else over the least recently used
    /// line, whose block is returned.
    pub fn insert_block(&mut self, address: u64) -> (evicted: Option<EvictedBlock>)
        requires
            old(self)@.wf(),
            old(self).time < u64::MAX,
            old(self)@.lines_for(address).len() > 0,
        ensures
            (final(self)@, evicted) == old(self)@.insert(address),
            final(self).s == old(self).s,
            final(self).b == old(self).b,
    {
        let s_bits = self.s;
        let b_bits = self.b;
        let (tag, set_index, _block_offset) = parse_address(address, s_bits, b_bits);
        match self.sets[set_index].find_free() {
            Some(j) => {
                proof {
                    lemma_first_free_unique(old(self)@.lines_for(address), j as int);
                }
                self.time = self.time + 1;
                self.sets[set_index].lines[j] = CacheLine { valid: true, tag, last_used: self.time };
                assert(self@.sets =~= old(self)@.insert(address).0.sets);
                None
            },
            None => {
                let lru_idx = self.sets[set_index].find_least_recent();
                proof {
                    lemma_least_recent_unique(old(self)@.lines_for(address), lru_idx as int);
                }
                let evicted_tag: u64 = self.sets[set_index].lines[lru_idx].tag;
                proof {
                    assert(old(self)@.sets[set_index as int][lru_idx as int].valid);
                    lemma_block_address_bits(evicted_tag, set_index as u64, s_bits as u64, b_bits as u64);
                }
                let evicted_address: u64 = (evicted_tag << ((s_bits + b_bits) as u64))
                    | ((set_index as u64) << (b_bits as u64));
                self.time = self.time + 1;
                self.sets[set_index].lines[lru_idx] = CacheLine { valid: true, tag, last_used: self.time };
                assert(self@.sets =~= old(self)@.insert(address).0.sets);
                Some(EvictedBlock { address: evicted_address })
            },
        }
    }

    /// The block that an access to `address` would push out, if any: none
    /// when the block is present or its set has an invalid line, else the
    /// block of the least recently used line.
    pub fn victim_of(&self, address: u64) -> (victim: Option<EvictedBlock>)
        requires
            self@.wf(),
            self@.lines_for(address).len() > 0,
        ensures
            victim == self@.victim(address),
    {
        let s_bits = self.s;
        let b_bits = self.b;
        let (tag, set_index, _block_offset) = parse_address(address, s_bits, b_bits);
        let set = &self.sets[set_index];
        if set.find_tag(tag).is_some() {
            return None;
        }
        match set.find_free() {
            Some(_) => None,
            None => {
                let lru_idx = set.find_least_recent();
                proof {
                    lemma_least_recent_unique(self@.lines_for(address), lru_idx as int);
                }
                let evicted_tag: u64 = set.lines[lru_idx].tag;
                proof {
                    assert(self@.sets[set_index as int][lru_idx as int].valid);
                    lemma_block_address_bits(evicted_tag, set_index as u64, s_bits as u64, b_bits as u64);
                }
                Some(EvictedBlock {
                    address: (evicted_tag << ((s_bits + b_bits) as u64)) | ((set_index as u64) << (b_bits as u64)),
                })
            },
        }
    }

    /// Whether the set of `address` has a line.
    pub fn has_line_for(&self, address: u64) -> (has: bool)
        requires
            self@.wf(),
        ensures
            has == (self@.lines_for(address).len() > 0),
    {
        let (_tag, set_index, _block_offset) = parse_address(address, self.s, self.b);
        self.sets[set_index].lines.len() > 0
    }

    /// Drops the block of `address` if it is present: the first line that
    /// holds it becomes invalid. Returns whether the block was found.
    pub fn remove_block(&mut self, address: u64) -> (removed: bool)
        requires
            old(self)@.wf(),
        ensures
            (final(self)@, removed) == old(self)@.remove(address),
            removed == old(self)@.contains(address),
            final(self).s == old(self).s,
            final(self).b == old(self).b,
    {
        let (tag, set_index, _block_offset) = parse_address(address, self.s, self.b);
        match self.sets[set_index].find_tag(tag) {
            Some(j) => {
                proof {
                    lemma_first_holding_unique(old(self)@.lines_for(address), tag, j as int);
                }
                self.sets[set_index].lines[j].valid = false;
                assert(self@.sets =~= old(self)@.remove(address).0.sets);
                true
            },
            None => false,
        }
    }

    /// Simulates one access to `address` with LRU replacement: a hit if the
    /// block is present, else a miss that places the block, counting an
    /// eviction when another block had to leave.
    pub fn access(&mut self, address: u64)
        requires
            old(self)@.can_access(address),
        ensures
            final(self)@ == old(self)@.access(address),
            final(self).s == old(self).s,
            final(self).b == old(self).b,
    {
        if self.probe(address) {
            self.hits = self.hits + 1;
            return;
        }
        self.misses = self.misses + 1;
        if self.insert_block(address).is_some() {
            self.evictions = self.evictions + 1;
        }
    }
}

} // verus!
