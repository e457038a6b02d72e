# sim: a verified cache memory simulator

A set-associative cache with least-recently-used replacement, an exclusive
two-level hierarchy built from two such caches, the memory-trace format that
drives them, and the command-line configuration, written in Verus.

- `src/address.rs`: splitting an address into tag, set index and block offset.
- `src/cache.rs`: the single-level cache, its model (`CacheModel`) and the
  facts about probing, placing and removing blocks.
- `src/hierarchy.rs`: the two-level hierarchy and its model.
- `src/laws.rs`: what holds across calls: invariants kept by every access,
  hit/miss/eviction counting, cache contents after an access, LRU
  replacement, and exclusivity of the hierarchy.
- `src/text.rs`, `src/trace.rs`: whitespace, unsigned integers, trace lines.
- `src/options.rs`, `src/config.rs`: the command line, read through `getopts`.
- `app/main.rs`: the program: arguments, the trace file, the printed counts.

Usage:

```
sim -s <s> -E <E> -b <b> -t <tracefile>
sim --multi -s <s> -E <E> -b <b> --l2-s <s> --l2-E <E> --l2-b <b> -t <tracefile>
```

It prints `hits:<n> misses:<n> evictions:<n>`.
