//! The bookkeeping of a pool allocator.
//!
//! Small requests for memory are served from pools: regions of memory that are cut into equal
//! blocks, with a bitmap that tells which blocks are in use. The library decides where memory is
//! taken from and where it goes back to; it works on addresses and never touches the memory. What
//! only a page allocator can do, getting a region or giving one up, it asks its caller for, step
//! by step.
//!
//! - [`block_size`]: block sizes, and the sizes of pools made of such blocks.
//! - [`bits`] and [`arena`]: machine words as rows of bits, and the bitmap of a pool.
//! - [`layout`]: sizes and alignments of requests.
//! - [`chain`] and [`pool`]: what a chain of pools is, and the operations on one.
//! - [`size_class`]: the default pools, and which of them serves which request.
//! - [`alloc_view`] and [`pooled_alloc`]: what the allocator is, and the operations on it.
//! - [`laws`]: what holds of the allocator across calls.
//! - [`guarantees`]: what callers can rely on, said in bytes, addresses and blocks alone.
pub mod alloc_view;
pub mod arena;
pub mod bits;
pub mod block_size;
pub mod chain;
pub mod guarantees;
pub mod laws;
pub mod layout;
pub mod pool;
pub mod pooled_alloc;
pub mod size_class;

pub use block_size::{BlockSize, MIN_POOL_SIZE, POOL_SCALE, SMALLEST_POOL};
pub use layout::Layout;
