# cache_sim

A step-by-step simulator of a write-back, write-allocate, N-way set-associative cache
with random replacement, driven by `lw/lh/lb/sw/sh/sb/nop` instructions.

- `src/cache.rs`: the cache (lines, address split, loads, stores, block transfer to and
  from memory, write-back of dirty lines, random placement of fetched blocks).
- `src/controller.rs`: the controller's state machine (COMPARE_TAG, WRITE_BACK, ALLOCATE,
  IDLE), its counters, and the events each request produces.
- `src/instruction.rs`: reading instructions from text.
- `src/laws.rs`: properties that relate several operations.
- `src/coherence.rs`: what the cache and memory together hold as the program sees it, and
  the proof that a request loses no data: a store writes exactly its bytes and a load reads
  the bytes last written, whatever ways are replaced.
- `app/main.rs`: the interactive program: reads the input file and commands, prints the
  events, the statistics and the cache dump.
