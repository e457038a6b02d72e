//! The memory-trace format and how its records drive a cache or a hierarchy.
//!
//! A trace line is an operation letter and an address in hexadecimal, with an
//! optional size after a comma: `L 10,1`. `I` lines are ignored, `L` and `S`
//! access the address once, `M` (a load then a store) twice, and other
//! letters not at all.
use vstd::prelude::*;

verus! {

use crate::text::{
    chars_of, skip_whitespace, drop_trailing_whitespace, trim, trim_start, parse_unsigned,
    parse_unsigned_spec,
};
use crate::cache::{Cache, CacheModel};
use crate::hierarchy::{CacheHierarchy, HierarchyModel};
use crate::options::texts_of;

/// What a trace line says: nothing to do, or an operation on an address.
#[derive(Debug, Clone, Copy, PartialEq, Eq, Structural)]
pub enum TraceRecord {
    Skip,
    Operation { op: char, address: u64 },
}

/// Why a trace line cannot be read.
#[derive(Debug, Clone, Copy, PartialEq, Eq, Structural)]
pub enum TraceError {
    InvalidHexAddress,
}

/// How long the first comma-separated field of `s` is.
pub open spec fn field_len(s: Seq<char>) -> nat
    decreases s.len(),
{
    if s.len() == 0 || s[0] == ',' {
        0
    } else {
        1 + field_len(s.drop_first())
    }
}

/// The text before the first comma of `s` (all of `s` when there is none).
pub open spec fn first_field(s: Seq<char>) -> Seq<char> {
    s.take(field_len(s) as int)
}

/// `s` without any number of leading `0x` prefixes.
pub open spec fn strip_hex_prefix(s: Seq<char>) -> Seq<char>
    decreases s.len(),
{
    if s.len() >= 2 && s[0] == '0' && s[1] == 'x' {
        strip_hex_prefix(s.subrange(2, s.len() as int))
    } else {
        s
    }
}

/// Lines that can be read: blank, an `I` line, or one whose operation letter
/// is a single byte of text.
pub open spec fn trace_line_readable(line: Seq<char>) -> bool {
    let t = trim_start(line);
    t.len() == 0 || t[0] == 'I' || (t[0] as u32) < 0x80
}

/// The address text of a line whose leading whitespace is gone: after the
/// operation letter, trimmed, up to the first comma, trimmed again, without
/// `0x` prefixes.
pub open spec fn address_text(t: Seq<char>) -> Seq<char> {
    strip_hex_prefix(trim(first_field(trim(t.drop_first()))))
}

/// What a trace line says. Blank lines and `I` lines say nothing; any other
/// line gives its operation letter and its address, read in hexadecimal.
pub open spec fn trace_record(line: Seq<char>) -> Result<TraceRecord, TraceError> {
    let t = trim_start(line);
    if t.len() == 0 || t[0] == 'I' {
        Ok(TraceRecord::Skip)
    } else {
        match parse_unsigned_spec(address_text(t), 16, u64::MAX as nat) {
            Ok(a) => Ok(TraceRecord::Operation { op: t[0], address: a as u64 }),
            Err(_) => Err(TraceError::InvalidHexAddress),
        }
    }
}

/// Reads one line of a trace.
pub fn parse_trace_line(line: &str) -> (record: Result<TraceRecord, TraceError>)
    requires
        trace_line_readable(line@),
    ensures
        record == trace_record(line@),
{
    let chars = chars_of(line);
    let n = chars.len();
    let start = skip_whitespace(&chars, 0, n);
    assert(chars@.subrange(0, n as int) =~= line@);
    let ghost t = chars@.subrange(start as int, n as int);
    if start == n {
        return Ok(TraceRecord::Skip);
    }
    let op = chars[start];
    assert(t[0] == op);
    if op == 'I' {
        return Ok(TraceRecord::Skip);
    }
    // the rest of the line, trimmed
    let rest_lo = skip_whitespace(&chars, start + 1, n);
    let rest_hi = drop_trailing_whitespace(&chars, rest_lo, n);
    assert(t.drop_first() =~= chars@.subrange(start + 1, n as int));
    let ghost rest = chars@.subrange(rest_lo as int, rest_hi as int);
    assert(rest == trim(t.drop_first()));
    // up to the first comma
    let mut field_hi: usize = rest_lo;
    while field_hi < rest_hi && chars[field_hi] != ','
        invariant
            rest_lo <= field_hi <= rest_hi <= n == chars@.len(),
            rest == chars@.subrange(rest_lo as int, rest_hi as int),
            field_len(rest) == (field_hi - rest_lo) + field_len(chars@.subrange(field_hi as int, rest_hi as int)),
        decreases rest_hi - field_hi,
    {
        assert(chars@.subrange(field_hi as int, rest_hi as int).drop_first() =~= chars@.subrange(field_hi + 1, rest_hi as int));
        field_hi = field_hi + 1;
    }
    assert(rest.take(field_len(rest) as int) =~= chars@.subrange(rest_lo as int, field_hi as int));
    // the field, trimmed
    let f_lo = skip_whitespace(&chars, rest_lo, field_hi);
    let f_hi = drop_trailing_whitespace(&chars, f_lo, field_hi);
    let ghost field = chars@.subrange(f_lo as int, f_hi as int);
    assert(field == trim(first_field(rest)));
    // without 0x prefixes
    let mut h_lo: usize = f_lo;
    while f_hi - h_lo >= 2 && chars[h_lo] == '0' && chars[h_lo + 1] == 'x'
        invariant
            f_lo <= h_lo <= f_hi <= n == chars@.len(),
            strip_hex_prefix(field) == strip_hex_prefix(chars@.subrange(h_lo as int, f_hi as int)),
        decreases f_hi - h_lo,
    {
        assert(chars@.subrange(h_lo as int, f_hi as int).subrange(2, f_hi - h_lo) =~= chars@.subrange(h_lo + 2, f_hi as int));
        h_lo = h_lo + 2;
    }
    assert(strip_hex_prefix(field) == chars@.subrange(h_lo as int, f_hi as int));
    match parse_unsigned(&chars, h_lo, f_hi, 16, u64::MAX) {
        Ok(address) => Ok(TraceRecord::Operation { op, address }),
        Err(_) => Err(TraceError::InvalidHexAddress),
    }
}

/// Whether operation letter `op` reads or writes memory once: a load or a
/// store.
pub open spec fn is_single_access(op: char) -> bool {
    op == 'L' || op == 'S'
}

/// Whether operation letter `op` is a modify: a load and then a store.
pub open spec fn is_modify(op: char) -> bool {
    op == 'M'
}

/// A cache after one trace record: a load or a store accesses the address
/// once, a modify twice, anything else leaves the cache as it was.
pub open spec fn cache_after(m: CacheModel, record: TraceRecord) -> CacheModel {
    match record {
        TraceRecord::Skip => m,
        TraceRecord::Operation { op, address } => if is_single_access(op) {
            m.access(address)
        } else if is_modify(op) {
            m.access(address).access(address)
        } else {
            m
        },
    }
}

/// When a cache can take a trace record: its accesses can run, with room in
/// the clock and the counts for two accesses in a modify.
pub open spec fn cache_can_take(m: CacheModel, record: TraceRecord) -> bool {
    match record {
        TraceRecord::Skip => true,
        TraceRecord::Operation { op, address } => if is_single_access(op) {
            m.can_access(address)
        } else if is_modify(op) {
            &&& m.can_access(address)
            &&& m.time < u64::MAX - 1
            &&& m.hits < u64::MAX - 1
            &&& m.misses < u64::MAX - 1
            &&& m.evictions < u64::MAX - 1
        } else {
            true
        },
    }
}

/// A hierarchy after one trace record, as for a single cache.
pub open spec fn hierarchy_after(h: HierarchyModel, record: TraceRecord) -> HierarchyModel {
    match record {
        TraceRecord::Skip => h,
        TraceRecord::Operation { op, address } => if is_single_access(op) {
            h.access(address)
        } else if is_modify(op) {
            h.access(address).access(address)
        } else {
            h
        },
    }
}

/// When a hierarchy can take a trace record, as for a single cache.
pub open spec fn hierarchy_can_take(h: HierarchyModel, record: TraceRecord) -> bool {
    match record {
        TraceRecord::Skip => true,
        TraceRecord::Operation { op, address } => if is_single_access(op) {
            h.can_access(address)
        } else if is_modify(op) {
            &&& h.can_access(address)
            &&& h.l1.time < u64::MAX - 1
            &&& h.l2.time < u64::MAX - 3
            &&& h.hits < u64::MAX - 1
            &&& h.misses < u64::MAX - 1
            &&& h.evictions < u64::MAX - 1
        } else {
            true
        },
    }
}

impl Cache {
    /// Whether this cache can take `record`: exactly when `apply_record`
    /// may be called with it.
    pub fn can_take(&self, record: TraceRecord) -> (ok: bool)
        requires
            self@.wf(),
        ensures
            ok == cache_can_take(self@, record),
    {
        match record {
            TraceRecord::Skip => true,
            TraceRecord::Operation { op, address } => {
                if op == 'L' || op == 'S' {
                    self.has_line_for(address) && self.time < u64::MAX && self.hits < u64::MAX
                        && self.misses < u64::MAX && self.evictions < u64::MAX
                } else if op == 'M' {
                    self.has_line_for(address) && self.time < u64::MAX - 1 && self.hits < u64::MAX - 1
                        && self.misses < u64::MAX - 1 && self.evictions < u64::MAX - 1
                } else {
                    true
                }
            },
        }
    }

    /// Applies one trace record: a load or store accesses its address once, a
    /// modify twice; other records change nothing.
    pub fn apply_record(&mut self, record: TraceRecord)
        requires
            cache_can_take(old(self)@, record),
        ensures
            final(self)@ == cache_after(old(self)@, record),
    {
        match record {
            TraceRecord::Skip => {},
            TraceRecord::Operation { op, address } => {
                if op == 'L' || op == 'S' {
                    self.access(address);
                } else if op == 'M' {
                    proof {
                        let m = old(self)@;
                        crate::laws::law_access_keeps_invariants(m, address);
                        crate::laws::law_access_counts(m, address);
                        crate::cache::lemma_same_shape_lines(m, m.access(address), address);
                    }
                    self.access(address);
                    self.access(address);
                }
            },
        }
    }
}

impl CacheHierarchy {
    /// Whether an access to `address` can run: exactly `can_access`.
    fn can_access_now(&self, address: u64) -> (ok: bool)
        requires
            self@.wf(),
        ensures
            ok == self@.can_access(address),
    {
        if !self.l1.has_line_for(address) {
            return false;
        }
        let room = match self.l1.victim_of(address) {
            Some(v) => self.l2.has_line_for(v.address),
            None => true,
        };
        room && self.l1.time < u64::MAX && self.l2.time < u64::MAX - 1 && self.hits < u64::MAX
            && self.misses < u64::MAX && self.evictions < u64::MAX
    }

    /// Whether this hierarchy can take `record`: exactly when
    /// `apply_record` may be called with it.
    pub fn can_take(&self, record: TraceRecord) -> (ok: bool)
        requires
            self@.wf(),
        ensures
            ok == hierarchy_can_take(self@, record),
    {
        match record {
            TraceRecord::Skip => true,
            TraceRecord::Operation { op, address } => {
                if op == 'L' || op == 'S' {
                    self.can_access_now(address)
                } else if op == 'M' {
                    self.can_access_now(address) && self.l1.time < u64::MAX - 1 && self.l2.time < u64::MAX - 3
                        && self.hits < u64::MAX - 1 && self.misses < u64::MAX - 1 && self.evictions < u64::MAX - 1
                } else {
                    true
                }
            },
        }
    }

    /// Applies one trace record: a load or store accesses its address once, a
    /// modify twice; other records change nothing.
    pub fn apply_record(&mut self, record: TraceRecord)
        requires
            hierarchy_can_take(old(self)@, record),
        ensures
            final(self)@ == hierarchy_after(old(self)@, record),
    {
        match record {
            TraceRecord::Skip => {},
            TraceRecord::Operation { op, address } => {
                if op == 'L' || op == 'S' {
                    self.access(address);
                } else if op == 'M' {
                    proof {
                        let h = old(self)@;
                        h.lemma_access_basics(address);
                        crate::cache::lemma_same_shape_lines(h.l1, h.access(address).l1, address);
                    }
                    self.access(address);
                    self.access(address);
                }
            },
        }
    }
}

/// Every line of a trace can be read.
pub open spec fn lines_readable(lines: Seq<Seq<char>>) -> bool {
    forall|k: int| 0 <= k < lines.len() ==> trace_line_readable(#[trigger] lines[k])
}

/// A cache after the lines of a trace, one after the other, up to the first
/// line that cannot be read, whose error ends the run.
pub open spec fn cache_after_lines(m: CacheModel, lines: Seq<Seq<char>>) -> (CacheModel, Result<(), TraceError>)
    decreases lines.len(),
{
    if lines.len() == 0 {
        (m, Ok(()))
    } else {
        match trace_record(lines[0]) {
            Err(e) => (m, Err(e)),
            Ok(record) => cache_after_lines(cache_after(m, record), lines.drop_first()),
        }
    }
}

/// A hierarchy after the lines of a trace, as for a single cache.
pub open spec fn hierarchy_after_lines(h: HierarchyModel, lines: Seq<Seq<char>>) -> (HierarchyModel, Result<(), TraceError>)
    decreases lines.len(),
{
    if lines.len() == 0 {
        (h, Ok(()))
    } else {
        match trace_record(lines[0]) {
            Err(e) => (h, Err(e)),
            Ok(record) => hierarchy_after_lines(hierarchy_after(h, record), lines.drop_first()),
        }
    }
}

/// Whether a cache can run the lines of a trace: each line up to the first
/// one that cannot be read can be read, and each record in turn can be taken
/// by the cache as the earlier records left it.
pub open spec fn cache_can_run_lines(m: CacheModel, lines: Seq<Seq<char>>) -> bool
    decreases lines.len(),
{
    lines.len() == 0 || (trace_line_readable(lines[0]) && match trace_record(lines[0]) {
        Err(_) => true,
        Ok(record) => cache_can_take(m, record) && cache_can_run_lines(
            cache_after(m, record),
            lines.drop_first(),
        ),
    })
}

/// Whether a hierarchy can run the lines of a trace, as for a single cache.
pub open spec fn hierarchy_can_run_lines(h: HierarchyModel, lines: Seq<Seq<char>>) -> bool
    decreases lines.len(),
{
    lines.len() == 0 || (trace_line_readable(lines[0]) && match trace_record(lines[0]) {
        Err(_) => true,
        Ok(record) => hierarchy_can_take(h, record) && hierarchy_can_run_lines(
            hierarchy_after(h, record),
            lines.drop_first(),
        ),
    })
}

/// A well-formed cache whose sets all have lines, and whose clock and counts
/// have room for two accesses per line, can run any trace whose lines can all
/// be read.
pub proof fn law_cache_can_run_lines(m: CacheModel, lines: Seq<Seq<char>>)
    requires
        m.wf(),
        m.has_lines(),
        lines_readable(lines),
        m.time + 2 * lines.len() < u64::MAX - 1,
        m.hits + 2 * lines.len() < u64::MAX - 1,
        m.misses + 2 * lines.len() < u64::MAX - 1,
        m.evictions + 2 * lines.len() < u64::MAX - 1,
    ensures
        cache_can_run_lines(m, lines),
    decreases lines.len(),
{
    if lines.len() > 0 {
        assert(trace_line_readable(lines[0]));
        if let Ok(record) = trace_record(lines[0]) {
            lemma_cache_takes(m, record);
            let rest = lines.drop_first();
            assert forall|k: int| 0 <= k < rest.len() implies trace_line_readable(#[trigger] rest[k]) by {
                assert(rest[k] == lines[k + 1]);
            }
            law_cache_can_run_lines(cache_after(m, record), rest);
        }
    }
}

/// A well-formed hierarchy whose sets all have lines, with room for two
/// accesses per line, can run any trace whose lines can all be read.
pub proof fn law_hierarchy_can_run_lines(h: HierarchyModel, lines: Seq<Seq<char>>)
    requires
        h.wf(),
        h.l1.has_lines(),
        h.l2.has_lines(),
        lines_readable(lines),
        h.l1.time + 2 * lines.len() < u64::MAX - 1,
        h.l2.time + 4 * lines.len() < u64::MAX - 3,
        h.hits + 2 * lines.len() < u64::MAX - 1,
        h.misses + 2 * lines.len() < u64::MAX - 1,
        h.evictions + 2 * lines.len() < u64::MAX - 1,
    ensures
        hierarchy_can_run_lines(h, lines),
    decreases lines.len(),
{
    if lines.len() > 0 {
        assert(trace_line_readable(lines[0]));
        if let Ok(record) = trace_record(lines[0]) {
            lemma_hierarchy_takes(h, record);
            let rest = lines.drop_first();
            assert forall|k: int| 0 <= k < rest.len() implies trace_line_readable(#[trigger] rest[k]) by {
                assert(rest[k] == lines[k + 1]);
            }
            law_hierarchy_can_run_lines(hierarchy_after(h, record), rest);
        }
    }
}

/// A cache whose sets all have lines and whose clock and counts have room
/// for two more accesses can take any record, and afterwards still has all
/// of that but the room for those two accesses.
proof fn lemma_cache_takes(m: CacheModel, record: TraceRecord)
    requires
        m.wf(),
        m.has_lines(),
        m.time < u64::MAX - 2,
        m.hits < u64::MAX - 2,
        m.misses < u64::MAX - 2,
        m.evictions < u64::MAX - 2,
    ensures
        cache_can_take(m, record),
        cache_after(m, record).wf(),
        cache_after(m, record).has_lines(),
        cache_after(m, record).time <= m.time + 2,
        cache_after(m, record).hits <= m.hits + 2,
        cache_after(m, record).misses <= m.misses + 2,
        cache_after(m, record).evictions <= m.evictions + 2,
{
    if let TraceRecord::Operation { op, address } = record {
        crate::cache::lemma_address_parts_bounded(address, m.s, m.b);
        assert(m.lines_for(address).len() > 0);
        crate::laws::law_access_keeps_invariants(m, address);
        crate::laws::law_access_counts(m, address);
        let m1 = m.access(address);
        crate::cache::lemma_same_shape_lines(m, m1, address);
        crate::laws::law_access_keeps_invariants(m1, address);
        crate::laws::law_access_counts(m1, address);
    }
}

/// The same for a hierarchy: room for two accesses at each level.
proof fn lemma_hierarchy_takes(h: HierarchyModel, record: TraceRecord)
    requires
        h.wf(),
        h.l1.has_lines(),
        h.l2.has_lines(),
        h.l1.time < u64::MAX - 2,
        h.l2.time < u64::MAX - 4,
        h.hits < u64::MAX - 2,
        h.misses < u64::MAX - 2,
        h.evictions < u64::MAX - 2,
    ensures
        hierarchy_can_take(h, record),
        hierarchy_after(h, record).wf(),
        hierarchy_after(h, record).l1.has_lines(),
        hierarchy_after(h, record).l2.has_lines(),
        hierarchy_after(h, record).l1.time <= h.l1.time + 2,
        hierarchy_after(h, record).l2.time <= h.l2.time + 4,
        hierarchy_after(h, record).hits <= h.hits + 2,
        hierarchy_after(h, record).misses <= h.misses + 2,
        hierarchy_after(h, record).evictions <= h.evictions + 2,
{
    if let TraceRecord::Operation { op, address } = record {
        lemma_hierarchy_access_ready(h, address);
        h.lemma_access_basics(address);
        let h1 = h.access(address);
        crate::laws::lemma_has_lines_kept(h.l1, h1.l1);
        crate::laws::lemma_has_lines_kept(h.l2, h1.l2);
        if is_modify(op) {
            lemma_hierarchy_access_ready(h1, address);
            h1.lemma_access_basics(address);
            crate::laws::lemma_has_lines_kept(h1.l1, h1.access(address).l1);
            crate::laws::lemma_has_lines_kept(h1.l2, h1.access(address).l2);
        }
    }
}

/// A hierarchy whose sets all have lines can place any block.
proof fn lemma_hierarchy_access_ready(h: HierarchyModel, a: u64)
    requires
        h.wf(),
        h.l1.has_lines(),
        h.l2.has_lines(),
    ensures
        h.l1.lines_for(a).len() > 0,
        h.l1_victim(a) matches Some(v) ==> h.l2.lines_for(v.address).len() > 0,
{
    crate::cache::lemma_address_parts_bounded(a, h.l1.s, h.l1.b);
    if let Some(v) = h.l1_victim(a) {
        crate::cache::lemma_address_parts_bounded(v.address, h.l2.s, h.l2.b);
    }
}

impl Cache {
    /// Runs the lines of a trace one after the other, stopping at the first
    /// line that cannot be read and returning its error.
    pub fn run_trace_lines(&mut self, lines: &[String]) -> (result: Result<(), TraceError>)
        requires
            cache_can_run_lines(old(self)@, texts_of(lines@)),
        ensures
            (final(self)@, result) == cache_after_lines(old(self)@, texts_of(lines@)),
    {
        let ghost all = texts_of(lines@);
        assert(all.skip(0) =~= all);
        let mut i: usize = 0;
        while i < lines.len()
            invariant
                0 <= i <= lines@.len(),
                all == texts_of(lines@),
                cache_after_lines(old(self)@, all) == cache_after_lines(self@, all.skip(i as int)),
                cache_can_run_lines(self@, all.skip(i as int)),
            decreases lines@.len() - i,
        {
            let ghost rest = all.skip(i as int);
            assert(rest[0] == lines@[i as int]@);
            assert(rest.drop_first() =~= all.skip(i + 1));
            assert(trace_line_readable(all[i as int]));
            match parse_trace_line(lines[i].as_str()) {
                Err(e) => {
                    return Err(e);
                },
                Ok(record) => {
                    self.apply_record(record);
                },
            }
            i = i + 1;
        }
        assert(all.skip(i as int).len() == 0);
        Ok(())
    }
}

impl CacheHierarchy {
    /// Runs the lines of a trace one after the other, stopping at the first
    /// line that cannot be read and returning its error.
    pub fn run_trace_lines(&mut self, lines: &[String]) -> (result: Result<(), TraceError>)
        requires
            hierarchy_can_run_lines(old(self)@, texts_of(lines@)),
        ensures
            (final(self)@, result) == hierarchy_after_lines(old(self)@, texts_of(lines@)),
    {
        let ghost all = texts_of(lines@);
        assert(all.skip(0) =~= all);
        let mut i: usize = 0;
        while i < lines.len()
            invariant
                0 <= i <= lines@.len(),
                all == texts_of(lines@),
                hierarchy_after_lines(old(self)@, all) == hierarchy_after_lines(self@, all.skip(i as int)),
                hierarchy_can_run_lines(self@, all.skip(i as int)),
            decreases lines@.len() - i,
        {
            let ghost rest = all.skip(i as int);
            assert(rest[0] == lines@[i as int]@);
            assert(rest.drop_first() =~= all.skip(i + 1));
            assert(trace_line_readable(all[i as int]));
            match parse_trace_line(lines[i].as_str()) {
                Err(e) => {
                    return Err(e);
                },
                Ok(record) => {
                    self.apply_record(record);
                },
            }
            i = i + 1;
        }
        assert(all.skip(i as int).len() == 0);
        Ok(())
    }
}

} // verus!
