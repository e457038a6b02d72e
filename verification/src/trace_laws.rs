//! What the trace format and trace runs promise: blank and `I` lines change
//! nothing and do not end a run, a bad line ends it and keeps what came
//! before, runs of consecutive pieces compose, and an address field of hex
//! digits reads as its base-16 value.
use vstd::prelude::*;

verus! {

use crate::text::{is_whitespace, trim_start, trim_end, trim, digit_value, read_digits, parse_unsigned_spec};
use crate::trace::{
    TraceRecord, TraceError, trace_record, cache_after_lines, hierarchy_after_lines, field_len,
    first_field, strip_hex_prefix,
};
use crate::cache::CacheModel;
use crate::hierarchy::HierarchyModel;

/// A line that is blank, or whose first character after leading whitespace
/// is `I`.
pub open spec fn is_skipped_line(line: Seq<char>) -> bool {
    trim_start(line).len() == 0 || trim_start(line)[0] == 'I'
}

/// A blank line or an `I` line changes nothing and does not end a run: the
/// run goes on with the next line, for a cache and for a hierarchy.
pub proof fn law_skipped_line(m: CacheModel, h: HierarchyModel, line: Seq<char>, rest: Seq<Seq<char>>)
    requires
        is_skipped_line(line),
    ensures
        cache_after_lines(m, seq![line] + rest) == cache_after_lines(m, rest),
        hierarchy_after_lines(h, seq![line] + rest) == hierarchy_after_lines(h, rest),
{
    let lines = seq![line] + rest;
    assert(lines[0] == line);
    assert(lines.drop_first() =~= rest);
    assert(trace_record(line) == Ok::<TraceRecord, TraceError>(TraceRecord::Skip));
}

/// A line that cannot be read ends the run with its error, keeping the cache
/// or hierarchy as the earlier lines left it.
pub proof fn law_bad_line_ends_run(m: CacheModel, h: HierarchyModel, line: Seq<char>, rest: Seq<Seq<char>>)
    requires
        trace_record(line) is Err,
    ensures
        cache_after_lines(m, seq![line] + rest) == (m, Err::<(), TraceError>(trace_record(line)->Err_0)),
        hierarchy_after_lines(h, seq![line] + rest) == (h, Err::<(), TraceError>(trace_record(line)->Err_0)),
{
    let lines = seq![line] + rest;
    assert(lines[0] == line);
}

/// Running two pieces of a trace one after the other is running them joined:
/// the second piece starts from where the first left off, unless the first
/// ended with an error, which then ends the whole run.
pub proof fn law_runs_compose(m: CacheModel, first: Seq<Seq<char>>, second: Seq<Seq<char>>)
    ensures
        cache_after_lines(m, first + second) == match cache_after_lines(m, first) {
            (m1, Ok(())) => cache_after_lines(m1, second),
            (m1, Err(e)) => (m1, Err(e)),
        },
    decreases first.len(),
{
    if first.len() == 0 {
        assert(first + second =~= second);
    } else {
        let joined = first + second;
        assert(joined[0] == first[0]);
        assert(joined.drop_first() =~= first.drop_first() + second);
        if let Ok(record) = trace_record(first[0]) {
            law_runs_compose(crate::trace::cache_after(m, record), first.drop_first(), second);
        }
    }
}

/// The same for a hierarchy.
pub proof fn law_hierarchy_runs_compose(h: HierarchyModel, first: Seq<Seq<char>>, second: Seq<Seq<char>>)
    ensures
        hierarchy_after_lines(h, first + second) == match hierarchy_after_lines(h, first) {
            (h1, Ok(())) => hierarchy_after_lines(h1, second),
            (h1, Err(e)) => (h1, Err(e)),
        },
    decreases first.len(),
{
    if first.len() == 0 {
        assert(first + second =~= second);
    } else {
        let joined = first + second;
        assert(joined[0] == first[0]);
        assert(joined.drop_first() =~= first.drop_first() + second);
        if let Ok(record) = trace_record(first[0]) {
            law_hierarchy_runs_compose(crate::trace::hierarchy_after(h, record), first.drop_first(), second);
        }
    }
}

/// A hexadecimal digit: `0`-`9`, `a`-`f` or `A`-`F`.
pub open spec fn is_hex_digit(c: char) -> bool {
    ('0' <= c && c <= '9') || ('a' <= c && c <= 'f') || ('A' <= c && c <= 'F')
}

/// The value of a hexadecimal digit.
pub open spec fn hex_digit_value(c: char) -> nat {
    if '0' <= c && c <= '9' {
        (c as u32 - '0' as u32) as nat
    } else if 'a' <= c && c <= 'f' {
        (c as u32 - 'a' as u32 + 10) as nat
    } else {
        (c as u32 - 'A' as u32 + 10) as nat
    }
}

/// The positional base-16 value of a string of hexadecimal digits.
pub open spec fn hex_value(digits: Seq<char>) -> nat
    decreases digits.len(),
{
    if digits.len() == 0 {
        0
    } else {
        hex_value(digits.drop_last()) * 16 + hex_digit_value(digits.last())
    }
}

/// Whitespace only.
pub open spec fn all_whitespace(s: Seq<char>) -> bool {
    forall|k: int| 0 <= k < s.len() ==> is_whitespace(#[trigger] s[k])
}

/// Leading whitespace is what trimming at the start removes.
proof fn lemma_trim_start_after_whitespace(ws: Seq<char>, rest: Seq<char>)
    requires
        all_whitespace(ws),
        rest.len() > 0,
        !is_whitespace(rest[0]),
    ensures
        trim_start(ws + rest) == rest,
    decreases ws.len(),
{
    if ws.len() == 0 {
        assert(ws + rest =~= rest);
    } else {
        assert((ws + rest).drop_first() =~= ws.drop_first() + rest);
        lemma_trim_start_after_whitespace(ws.drop_first(), rest);
    }
}

/// Trimming at the end keeps a prefix, and keeps every position up to the
/// last character that is not whitespace.
proof fn lemma_trim_end_prefix(s: Seq<char>, k: int)
    requires
        0 <= k < s.len(),
        !is_whitespace(s[k]),
    ensures
        k < trim_end(s).len() <= s.len(),
        trim_end(s) == s.take(trim_end(s).len() as int),
    decreases s.len(),
{
    if is_whitespace(s.last()) {
        assert(k < s.len() - 1);
        lemma_trim_end_prefix(s.drop_last(), k);
        let t = trim_end(s.drop_last());
        assert(s.drop_last().take(t.len() as int) =~= s.take(t.len() as int));
    } else {
        assert(s.take(s.len() as int) =~= s);
    }
}

/// A run of characters without a comma, then a comma: the first field is
/// that run.
proof fn lemma_field_before_comma(p: Seq<char>, q: Seq<char>)
    requires
        forall|k: int| 0 <= k < p.len() ==> #[trigger] p[k] != ',',
    ensures
        field_len(p + seq![','] + q) == p.len(),
    decreases p.len(),
{
    let s = p + seq![','] + q;
    if p.len() == 0 {
        assert(s[0] == ',');
    } else {
        assert(s.drop_first() =~= p.drop_first() + seq![','] + q);
        lemma_field_before_comma(p.drop_first(), q);
    }
}

/// Reading hex digits whose value fits gives their positional value.
proof fn lemma_read_hex(digits: Seq<char>)
    requires
        forall|k: int| 0 <= k < digits.len() ==> is_hex_digit(#[trigger] digits[k]),
        hex_value(digits) <= u64::MAX,
    ensures
        read_digits(digits, 16, u64::MAX as nat) == Ok::<nat, crate::text::NumberError>(hex_value(digits)),
    decreases digits.len(),
{
    if digits.len() > 0 {
        let front = digits.drop_last();
        assert(forall|k: int| 0 <= k < front.len() ==> front[k] == digits[k]);
        assert(hex_value(front) <= hex_value(digits));
        lemma_read_hex(front);
        let c = digits.last();
        assert(is_hex_digit(digits[digits.len() - 1]));
        assert(digit_value(c, 16) == Some(hex_digit_value(c)));
    }
}

/// An address field of hex digits reads as its positional base-16 value:
/// on a line of optional leading whitespace, an operation letter, a space,
/// the digits, a comma and anything after it, the record is that operation
/// on that address. No prefix but a literal `0x` is dropped, so a leading `0`
/// changes nothing.
pub proof fn law_hex_address(ws: Seq<char>, op: char, digits: Seq<char>, tail: Seq<char>)
    requires
        all_whitespace(ws),
        !is_whitespace(op),
        op != 'I',
        digits.len() > 0,
        forall|k: int| 0 <= k < digits.len() ==> is_hex_digit(#[trigger] digits[k]),
        hex_value(digits) <= u64::MAX,
    ensures
        trace_record(ws + seq![op, ' '] + digits + seq![','] + tail) == Ok::<TraceRecord, TraceError>(
            TraceRecord::Operation { op, address: hex_value(digits) as u64 },
        ),
{
    let body = seq![op, ' '] + digits + seq![','] + tail;
    let line = ws + seq![op, ' '] + digits + seq![','] + tail;
    assert(line =~= ws + body);
    lemma_trim_start_after_whitespace(ws, body);
    let t = trim_start(line);
    assert(t == body);
    let r = t.drop_first();
    let x = digits + seq![','] + tail;
    assert(r =~= seq![' '] + x);
    assert(is_whitespace(r[0]));
    assert(r.drop_first() =~= x);
    assert(x[0] == digits[0]);
    assert(!is_whitespace(x[0]));
    assert(trim_start(x) == x);
    assert(trim_start(r) == x);
    let d = digits.len() as int;
    assert(x[d] == ',');
    lemma_trim_end_prefix(x, d);
    let y = trim(r);
    assert(y == trim_end(x));
    assert(y.len() > d);
    assert(y == x.take(y.len() as int));
    assert forall|k: int| 0 <= k < d implies y[k] == digits[k] by {
        assert(y[k] == x[k]);
    }
    assert(y[d] == ',');
    let q = y.subrange(d + 1, y.len() as int);
    assert(y =~= digits + seq![','] + q);
    lemma_field_before_comma(digits, q);
    assert(first_field(y) =~= digits);
    assert(!is_whitespace(digits[0]));
    assert(trim_start(digits) == digits);
    assert(!is_whitespace(digits.last()));
    assert(trim_end(digits) == digits);
    assert(trim(first_field(y)) == digits);
    assert(digits.len() < 2 || digits[1] != 'x');
    assert(strip_hex_prefix(digits) == digits);
    lemma_read_hex(digits);
    assert(parse_unsigned_spec(digits, 16, u64::MAX as nat) == Ok::<nat, crate::text::NumberError>(hex_value(digits)));
}

/// Text without a comma is one whole field.
proof fn lemma_field_without_comma(p: Seq<char>)
    requires
        forall|k: int| 0 <= k < p.len() ==> #[trigger] p[k] != ',',
    ensures
        field_len(p) == p.len(),
    decreases p.len(),
{
    if p.len() > 0 {
        assert(forall|k: int| 0 <= k < p.drop_first().len() ==> p.drop_first()[k] == p[k + 1]);
        lemma_field_without_comma(p.drop_first());
    }
}

/// The same without a size: a line of optional leading whitespace, an
/// operation letter, a space and hex digits is that operation on the digits'
/// base-16 value.
pub proof fn law_hex_address_alone(ws: Seq<char>, op: char, digits: Seq<char>)
    requires
        all_whitespace(ws),
        !is_whitespace(op),
        op != 'I',
        digits.len() > 0,
        forall|k: int| 0 <= k < digits.len() ==> is_hex_digit(#[trigger] digits[k]),
        hex_value(digits) <= u64::MAX,
    ensures
        trace_record(ws + seq![op, ' '] + digits) == Ok::<TraceRecord, TraceError>(
            TraceRecord::Operation { op, address: hex_value(digits) as u64 },
        ),
{
    let body = seq![op, ' '] + digits;
    let line = ws + seq![op, ' '] + digits;
    assert(line =~= ws + body);
    lemma_trim_start_after_whitespace(ws, body);
    let t = trim_start(line);
    assert(t == body);
    let r = t.drop_first();
    assert(r =~= seq![' '] + digits);
    assert(is_whitespace(r[0]));
    assert(r.drop_first() =~= digits);
    assert(!is_whitespace(digits[0]));
    assert(trim_start(digits) == digits);
    assert(trim_start(r) == digits);
    assert(!is_whitespace(digits.last()));
    assert(trim_end(digits) == digits);
    assert(trim(r) == digits);
    lemma_field_without_comma(digits);
    assert(first_field(digits) =~= digits);
    assert(trim(first_field(trim(r))) == digits);
    assert(digits.len() < 2 || digits[1] != 'x');
    assert(strip_hex_prefix(digits) == digits);
    lemma_read_hex(digits);
}

/// A modify is a load followed by a store, and a load and a store of the same
/// address do the same: a line `M a` runs as a line `L a` followed by a line
/// `S a`, and `L a` runs as `S a`, for a cache and for a hierarchy.
pub proof fn law_modify_is_load_then_store(
    m: CacheModel,
    h: HierarchyModel,
    modify: Seq<char>,
    load: Seq<char>,
    store: Seq<char>,
    rest: Seq<Seq<char>>,
)
    requires
        trace_record(modify) matches Ok(TraceRecord::Operation { op, address }) && op == 'M'
            && trace_record(load) == Ok::<TraceRecord, TraceError>(TraceRecord::Operation { op: 'L', address })
            && trace_record(store) == Ok::<TraceRecord, TraceError>(TraceRecord::Operation { op: 'S', address }),
    ensures
        cache_after_lines(m, seq![modify] + rest) == cache_after_lines(m, seq![load, store] + rest),
        cache_after_lines(m, seq![load] + rest) == cache_after_lines(m, seq![store] + rest),
        hierarchy_after_lines(h, seq![modify] + rest) == hierarchy_after_lines(h, seq![load, store] + rest),
        hierarchy_after_lines(h, seq![load] + rest) == hierarchy_after_lines(h, seq![store] + rest),
{
    let one = seq![modify] + rest;
    let two = seq![load, store] + rest;
    assert(one[0] == modify);
    assert(one.drop_first() =~= rest);
    assert(two[0] == load);
    assert(two.drop_first() =~= seq![store] + rest);
    assert((seq![store] + rest)[0] == store);
    assert((seq![store] + rest).drop_first() =~= rest);
    assert((seq![load] + rest)[0] == load);
    assert((seq![load] + rest).drop_first() =~= rest);
    if let Ok(TraceRecord::Operation { op, address }) = trace_record(modify) {
        let a = address;
        assert(cache_after_lines(m, one) == cache_after_lines(m.access(a).access(a), rest));
        assert(cache_after_lines(m.access(a), seq![store] + rest) == cache_after_lines(
            m.access(a).access(a),
            rest,
        ));
        assert(cache_after_lines(m, two) == cache_after_lines(m.access(a), seq![store] + rest));
        assert(cache_after_lines(m, seq![load] + rest) == cache_after_lines(m.access(a), rest));
        assert(cache_after_lines(m, seq![store] + rest) == cache_after_lines(m.access(a), rest));
        assert(hierarchy_after_lines(h, one) == hierarchy_after_lines(h.access(a).access(a), rest));
        assert(hierarchy_after_lines(h.access(a), seq![store] + rest) == hierarchy_after_lines(
            h.access(a).access(a),
            rest,
        ));
        assert(hierarchy_after_lines(h, two) == hierarchy_after_lines(h.access(a), seq![store] + rest));
        assert(hierarchy_after_lines(h, seq![load] + rest) == hierarchy_after_lines(h.access(a), rest));
        assert(hierarchy_after_lines(h, seq![store] + rest) == hierarchy_after_lines(h.access(a), rest));
    }
}

} // verus!
