# pool_alloc

The bookkeeping of a pool allocator, written in Rust and verified with Verus.

Small requests for memory are served from pools. A pool is a region of memory that is cut into
equal blocks, with one bit for each block that tells whether it is in use. A pool that is full gets
another one chained behind it. Requests that are too large for the pools (more than 4032 bytes on a
64-bit machine, a page and more on a 32-bit one), or with an alignment that no pool has, go to the
page allocator.

- `src/` is the library. It works on addresses: it decides where memory is taken from and where it
  goes back to, and asks its caller for what only a page allocator can do. Each function states in
  its contract what it returns and changes. `src/laws.rs` proves what holds across calls: memory
  that is handed out is large and aligned enough and never overlaps other memory in use, giving it
  back at once restores the pools, and it can be given back in any later state, with any size from
  the one asked for up to the one handed out, which frees exactly its own blocks.
- `app/` puts the library to work on real memory, behind a lock. It gets regions, fills memory
  with zeros, and gives up the regions of the first default pool when the allocator is dropped;
  those of the other pools stay taken.
- `tests/` runs the library against a small stand-in for the memory of a machine.

The library takes `&mut self` wherever it changes something, so callers that share an allocator
between threads keep it behind a lock. While one of them fetches the region for a pool, the pool is
marked as locked and the lock itself can be let go.
