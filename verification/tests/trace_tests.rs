use sim::cache::Cache;
use sim::hierarchy::CacheHierarchy;
use sim::trace::{parse_trace_line, TraceError, TraceRecord};

fn run_lines(cache: &mut Cache, trace: &str) -> Result<(), TraceError> {
    for line in trace.lines() {
        let record = parse_trace_line(line)?;
        cache.apply_record(record);
    }
    Ok(())
}

fn run_lines_hierarchy(h: &mut CacheHierarchy, trace: &str) -> Result<(), TraceError> {
    for line in trace.lines() {
        let record = parse_trace_line(line)?;
        h.apply_record(record);
    }
    Ok(())
}

#[test]
fn trace_load_store_modify_and_ignore() {
    let trace = "\
  I 0400d7,8
  L 10,1
  S 10,1
  M 20,1
  ";
    let mut cache = Cache::new(1, 1, 1);
    run_lines(&mut cache, trace).expect("trace should run");
    assert_eq!(cache.hits, 2);
    assert_eq!(cache.misses, 2);
    assert_eq!(cache.evictions, 1);
}

#[test]
fn trace_conflicting_blocks_evict() {
    let mut cache = Cache::new(1, 1, 1);
    run_lines(&mut cache, "  L 0,1\n  L 4,1\n").expect("trace should run");
    assert_eq!(cache.hits, 0);
    assert_eq!(cache.misses, 2);
    assert_eq!(cache.evictions, 1);
}

#[test]
fn trace_blank_lines_and_leading_spaces() {
    let mut cache = Cache::new(1, 1, 1);
    run_lines(&mut cache, "\n  \n  L 10,1\n  L 10,1\n  ").expect("trace should run");
    assert_eq!(cache.hits, 1);
    assert_eq!(cache.misses, 1);
    assert_eq!(cache.evictions, 0);
}

#[test]
fn trace_hex_prefix() {
    let mut cache = Cache::new(1, 1, 1);
    run_lines(&mut cache, "  L 0x10,1\n  L 0x10,1\n").expect("trace should run");
    assert_eq!(cache.hits, 1);
    assert_eq!(cache.misses, 1);
    assert_eq!(cache.evictions, 0);
}

#[test]
fn trace_repeated_modify() {
    let mut cache = Cache::new(1, 1, 1);
    run_lines(&mut cache, "  M 10,1\n  M 10,1\n").expect("trace should run");
    assert_eq!(cache.hits, 3);
    assert_eq!(cache.misses, 1);
    assert_eq!(cache.evictions, 0);
}

#[test]
fn trace_line_records() {
    assert_eq!(parse_trace_line(""), Ok(TraceRecord::Skip));
    assert_eq!(parse_trace_line("   \t "), Ok(TraceRecord::Skip));
    assert_eq!(parse_trace_line(" I 0400d7,8"), Ok(TraceRecord::Skip));
    assert_eq!(parse_trace_line("I zz"), Ok(TraceRecord::Skip));
    assert_eq!(
        parse_trace_line(" L 7ff000388,8"),
        Ok(TraceRecord::Operation { op: 'L', address: 0x7ff000388 })
    );
    assert_eq!(
        parse_trace_line("S  0xAbC , 4"),
        Ok(TraceRecord::Operation { op: 'S', address: 0xabc })
    );
    assert_eq!(
        parse_trace_line("M 0x0x1f"),
        Ok(TraceRecord::Operation { op: 'M', address: 0x1f })
    );
    assert_eq!(
        parse_trace_line("L +10"),
        Ok(TraceRecord::Operation { op: 'L', address: 0x10 })
    );
    assert_eq!(
        parse_trace_line("\u{3000}L\u{a0}ffffffffffffffff,1"),
        Ok(TraceRecord::Operation { op: 'L', address: u64::MAX })
    );
    assert_eq!(
        parse_trace_line("X 20"),
        Ok(TraceRecord::Operation { op: 'X', address: 0x20 })
    );
}

#[test]
fn trace_line_errors() {
    assert_eq!(parse_trace_line("L"), Err(TraceError::InvalidHexAddress));
    assert_eq!(parse_trace_line("L ,1"), Err(TraceError::InvalidHexAddress));
    assert_eq!(parse_trace_line("L 0x"), Err(TraceError::InvalidHexAddress));
    assert_eq!(parse_trace_line("L 1g"), Err(TraceError::InvalidHexAddress));
    assert_eq!(parse_trace_line("L -1"), Err(TraceError::InvalidHexAddress));
    assert_eq!(parse_trace_line("L +"), Err(TraceError::InvalidHexAddress));
    assert_eq!(parse_trace_line("L 10000000000000000"), Err(TraceError::InvalidHexAddress));
    assert_eq!(parse_trace_line("X zz"), Err(TraceError::InvalidHexAddress));
}

#[test]
fn trace_unknown_operation_changes_nothing() {
    let mut cache = Cache::new(1, 1, 1);
    run_lines(&mut cache, "X 10\nQ 20,1\n").expect("trace should run");
    assert_eq!(cache.hits, 0);
    assert_eq!(cache.misses, 0);
    assert_eq!(cache.evictions, 0);
    assert_eq!(cache.time, 0);
}

#[test]
fn trace_stops_at_bad_line() {
    let mut cache = Cache::new(1, 1, 1);
    let result = run_lines(&mut cache, "L 10\nL zz\nL 20\n");
    assert_eq!(result, Err(TraceError::InvalidHexAddress));
    assert_eq!(cache.misses, 1);
}

#[test]
fn trace_hierarchy_counts() {
    let mut h = CacheHierarchy::new(0, 0, 1, 0, 0, 1);
    run_lines_hierarchy(&mut h, "L 1\nS 2\nM 3\nL 1\n").expect("trace should run");
    // 1 miss; 2 miss (1 to L2); 3 miss (2 to L2, 1 leaves) then hit; 1 miss
    assert_eq!(h.hits, 1);
    assert_eq!(h.misses, 4);
    assert_eq!(h.evictions, 2);
}

#[test]
fn cache_can_take_records() {
    let cache = Cache::new(1, 1, 1);
    assert!(cache.can_take(TraceRecord::Skip));
    assert!(cache.can_take(TraceRecord::Operation { op: 'L', address: 3 }));
    assert!(cache.can_take(TraceRecord::Operation { op: 'M', address: 3 }));
    let empty = Cache::new(1, 1, 0);
    assert!(!empty.can_take(TraceRecord::Operation { op: 'S', address: 3 }));
    assert!(empty.can_take(TraceRecord::Operation { op: 'X', address: 3 }));
    let mut full = Cache::new(1, 1, 1);
    full.hits = u64::MAX - 1;
    assert!(full.can_take(TraceRecord::Operation { op: 'L', address: 3 }));
    assert!(!full.can_take(TraceRecord::Operation { op: 'M', address: 3 }));
}

#[test]
fn hierarchy_can_take_records() {
    let h = CacheHierarchy::new(0, 0, 1, 0, 0, 0);
    // the first access fills an empty L1 line: L2 is not needed
    assert!(h.can_take(TraceRecord::Operation { op: 'L', address: 1 }));
    let mut h = h;
    h.access(1);
    // now the L1 line must go to L2, which has no line
    assert!(!h.can_take(TraceRecord::Operation { op: 'L', address: 2 }));
    // an L1 hit needs no L2 line
    assert!(h.can_take(TraceRecord::Operation { op: 'M', address: 1 }));
    let no_l1 = CacheHierarchy::new(0, 0, 0, 0, 0, 1);
    assert!(!no_l1.can_take(TraceRecord::Operation { op: 'L', address: 1 }));
}

fn owned(lines: &[&str]) -> Vec<String> {
    lines.iter().map(|l| l.to_string()).collect()
}

#[test]
fn run_trace_lines_whole_trace() {
    let mut cache = Cache::new(1, 1, 1);
    let lines = owned(&[" I 0400d7,8", " L 10,1", " S 10,1", " M 20,1"]);
    assert_eq!(cache.run_trace_lines(&lines), Ok(()));
    assert_eq!((cache.hits, cache.misses, cache.evictions), (2, 2, 1));
}

#[test]
fn run_trace_lines_stops_at_bad_line() {
    let mut cache = Cache::new(1, 1, 1);
    let lines = owned(&["L 10", "L zz", "L 20"]);
    assert_eq!(cache.run_trace_lines(&lines), Err(TraceError::InvalidHexAddress));
    assert_eq!((cache.hits, cache.misses), (0, 1));
    let mut h = CacheHierarchy::new(0, 0, 1, 0, 0, 1);
    assert_eq!(h.run_trace_lines(&owned(&["L 1", "S 2", "M 3", "L 1"])), Ok(()));
    assert_eq!((h.hits, h.misses, h.evictions), (1, 4, 2));
    assert_eq!(h.run_trace_lines(&owned(&["L x"])), Err(TraceError::InvalidHexAddress));
}

#[test]
fn run_trace_lines_without_accesses_needs_no_lines() {
    let mut empty = Cache::new(1, 1, 0);
    assert_eq!(empty.run_trace_lines(&owned(&["", "I 10,1", "X 20"])), Ok(()));
    assert_eq!(empty.run_trace_lines(&owned(&["I 10", "L zz"])), Err(TraceError::InvalidHexAddress));
    let mut wide = Cache::new(4, 60, 1);
    assert_eq!(wide.run_trace_lines(&owned(&["  ", "Q 1"])), Ok(()));
    assert_eq!(wide.time, 0);
    let mut h = CacheHierarchy::new(0, 0, 0, 0, 0, 0);
    assert_eq!(h.run_trace_lines(&owned(&["I 1", "", "Z 2"])), Ok(()));
    assert_eq!(h.run_trace_lines(&owned(&["L -"])), Err(TraceError::InvalidHexAddress));
}
