# cache_model

A direct-mapped, write-back, write-allocate cache in front of a byte-addressed
mock memory, verified with Verus.

- `src/cache/addr.rs` — splitting an address into tag, index and offset, and
  the laws that the split is a bijection with line base plus offset.
- `src/cache/bytes.rs` — little-endian values, masked word stores and their laws.
- `src/cache/line.rs` — one cache line: hit test, reads, masked writes, fills.
- `src/cache/memory.rs` — the line-granular mock memory.
- `src/cache/mod.rs` — the cache: request handling (addresses cut to
  `addr_width` bits; unaligned requests refused with the cache unchanged), miss handling,
  write-back, and the exact outcome of every access (`access_outcome`).
- `src/cache/coherence.rs` — the processor's view of memory through the cache
  and the laws that accesses keep it: reads leave it unchanged, writes store
  exactly the masked bytes, and a read after a write returns the written word.
