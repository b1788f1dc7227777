//! What the pools of an allocator are, and how a request changes them.
use vstd::prelude::*;

use crate::block_size::{BlockSize, SMALLEST_POOL};
use crate::chain::{PoolView, PAGE_SIZE};

verus! {

/// The largest record that room can be set aside for in the regions of all default pools.
#[verifier::nonlinear]
pub const MAX_RECORD_SIZE: usize = SMALLEST_POOL * (SMALLEST_POOL - 2);

/// Whether room can be set aside for a record of `record` bytes in the regions of all default
/// pools: the head of each region takes less than a bitmap word of blocks.
pub open spec fn record_fits(record: int) -> bool {
    &&& 0 <= record
    &&& forall|c: int|
        0 <= c < crate::size_class::class_count() ==> #[trigger] crate::chain::header_slots(
            crate::size_class::class_block(c),
            record,
        ) < usize::BITS
}

/// The pools of an allocator.
pub struct AllocView {
    /// The size of the record that room is set aside for at the head of each region.
    pub record: int,
    /// For each default pool its chain, which is empty until the pool has been set up.
    pub chains: Seq<Seq<PoolView>>,
    /// For each default pool whether someone is setting it up.
    pub locked: Seq<bool>,
}

impl AllocView {
    /// The allocator without any pool.
    pub open spec fn empty(record: int) -> Self {
        AllocView {
            record,
            chains: Seq::new(crate::size_class::class_count() as nat, |c: int| Seq::empty()),
            locked: Seq::new(crate::size_class::class_count() as nat, |c: int| false),
        }
    }

    /// The allocator with another chain for one of its pools.
    pub open spec fn with_chain(self, class: int, chain: Seq<PoolView>) -> Self {
        AllocView { chains: self.chains.update(class, chain), ..self }
    }

    /// The allocator with one of its pools locked, or unlocked.
    pub open spec fn with_lock(self, class: int, locked: bool) -> Self {
        AllocView { locked: self.locked.update(class, locked), ..self }
    }

    /// Whether a pool has been set up.
    pub open spec fn ready(self, class: int) -> bool {
        self.chains[class].len() > 0
    }

    /// There is room for the record in every region, a chain and a lock for each default pool, each
    /// chain is as it should be, and no two regions share an address.
    pub open spec fn valid(self) -> bool {
        &&& record_fits(self.record)
        &&& self.chains.len() == crate::size_class::class_count()
        &&& self.locked.len() == crate::size_class::class_count()
        &&& forall|c: int| 0 <= c < self.chains.len() ==> #[trigger] self.chain_ok(c)
        &&& forall|c: int, d: int|
            0 <= c < d < self.chains.len() ==> chains_apart(
                #[trigger] self.chains[c],
                #[trigger] self.chains[d],
            )
    }

    /// The chain of a pool has the blocks that it should have; a pool that is being set up is
    /// not there yet.
    pub open spec fn chain_ok(self, class: int) -> bool {
        &&& self.ready(class) ==> {
            &&& crate::chain::chain_valid(self.chains[class])
            &&& self.chains[class][0].block == crate::size_class::class_block(class)
            &&& self.chains[class][0].record == self.record
        }
        &&& self.locked[class] ==> !self.ready(class)
    }

    /// Whether a region for blocks of `block` bytes can be taken over.
    pub open spec fn region_free(self, base: int, block: int) -> bool {
        &&& crate::chain::region_valid(base, block)
        &&& forall|c: int|
            0 <= c < self.chains.len() ==> crate::chain::region_joins(
                base,
                block,
                #[trigger] self.chains[c],
            )
    }

    /// Whether a pool holds the block at `ptr`.
    pub open spec fn holds(self, class: int, ptr: int) -> bool {
        &&& self.ready(class)
        &&& ptr % crate::size_class::class_block(class) == 0
        &&& crate::chain::chain_find(self.chains[class], ptr) is Some
    }

    /// The first pool from `from` on that holds the block at `ptr`.
    pub open spec fn holder(self, from: int, ptr: int) -> Option<int>
        decreases self.chains.len() - from,
    {
        if from >= self.chains.len() {
            None
        } else if self.holds(from, ptr) {
            Some(from)
        } else {
            self.holder(from + 1, ptr)
        }
    }

    /// The pool that memory of alignment `align` at `ptr` belongs to, whatever its size.
    pub open spec fn owner(self, ptr: int, align: int) -> Option<int> {
        self.holder(crate::size_class::align_class(align), ptr)
    }

    /// The pools whose regions are given up with the allocator, in that order: those of the first
    /// default pool, from the end of its chain on.
    pub open spec fn given_up(self) -> Seq<PoolView> {
        self.chains[0].reverse()
    }

    /// Whether memory of `size` bytes and alignment `align` at `ptr` can be given back: where it
    /// belongs to a pool, it lies behind the header and spans no more than a bitmap word.
    pub open spec fn may_free(self, ptr: int, size: int, align: int) -> bool {
        self.owner(ptr, align) matches Some(c) ==> {
            let pool = self.chains[c][crate::chain::chain_find(self.chains[c], ptr)->0];
            &&& pool.address(pool.header()) <= ptr
            &&& crate::block_size::ceil_quotient(size, pool.block) <= usize::BITS
        }
    }

    /// Whether the memory of `len` bytes at `addr` is the run of `n` blocks from `at` on of pool
    /// `k` of a chain, all in use.
    pub open spec fn is_run(self, c: int, k: int, at: int, n: int, addr: int, len: int) -> bool {
        &&& 0 <= c < self.chains.len()
        &&& 0 <= k < self.chains[c].len()
        &&& self.chains[c][k].header() <= at
        &&& 0 < n
        &&& at + n <= self.chains[c][k].used.len()
        &&& addr == self.chains[c][k].address(at)
        &&& len == n * self.chains[c][k].block
        &&& forall|i: int| at <= i < at + n ==> #[trigger] self.chains[c][k].used[i]
    }

    /// Whether memory that was handed out for a request is still out: all its blocks are in use,
    /// and they lie in one bitmap word behind the header of their pool.
    pub open spec fn lends(self, loan: Loan) -> bool {
        &&& vstd::arithmetic::power2::is_pow2(loan.align)
        &&& 0 < loan.align <= PAGE_SIZE
        &&& 0 < loan.size
        &&& loan.class() < crate::size_class::class_count()
        &&& self.is_run(loan.class(), loan.pool, loan.at, loan.count(), loan.addr, loan.len())
        &&& loan.at % (usize::BITS as int) + loan.count() <= usize::BITS
    }

    /// The allocator after memory of `size` bytes and alignment `align` at `ptr` has been given
    /// back.
    pub open spec fn freed(self, ptr: int, size: int, align: int) -> Self {
        match self.owner(ptr, align) {
            Some(c) => {
                let k = crate::chain::chain_find(self.chains[c], ptr)->0;
                let pool = self.chains[c][k];
                let count = crate::block_size::ceil_quotient(size, pool.block);
                self.with_chain(c, self.chains[c].update(k, pool.freed(ptr, count)))
            },
            None => self,
        }
    }
}

/// Memory that a pool has handed out: what was asked for, and where it was taken from.
pub struct Loan {
    /// The address of the memory.
    pub addr: int,
    /// The size that was asked for.
    pub size: int,
    /// The alignment that was asked for.
    pub align: int,
    /// Which pool of the chain the memory lies in.
    pub pool: int,
    /// Which block of that pool is the first.
    pub at: int,
}

impl Loan {
    /// The size with the padding.
    pub open spec fn padded(self) -> int {
        crate::block_size::ceil_multiple(self.size, self.align)
    }

    /// The default pool whose chain the memory lies in.
    pub open spec fn class(self) -> int {
        crate::size_class::request_class(self.padded(), self.align)
    }

    /// The number of blocks.
    pub open spec fn count(self) -> int {
        block_count(self.padded(), self.class())
    }

    /// The number of bytes.
    pub open spec fn len(self) -> int {
        block_bytes(self.padded(), self.class())
    }

    /// Whether the memory of two loans lies apart.
    pub open spec fn apart(self, other: Self) -> bool {
        self.addr + self.len() <= other.addr || other.addr + other.len() <= self.addr
    }
}

/// No two pools of two chains share an address.
pub open spec fn chains_apart(a: Seq<PoolView>, b: Seq<PoolView>) -> bool {
    forall|i: int, j: int|
        0 <= i < a.len() && 0 <= j < b.len() ==> (#[trigger] a[i]).apart(#[trigger] b[j])
}

/// How many bytes of a pool a request of `size` bytes takes.
pub open spec fn block_bytes(size: int, class: int) -> int {
    crate::block_size::ceil_multiple(size, crate::size_class::class_block(class))
}

/// How many blocks of a pool a request of `size` bytes takes.
pub open spec fn block_count(size: int, class: int) -> int {
    crate::block_size::ceil_quotient(size, crate::size_class::class_block(class))
}

/// Which records room can be set aside for: those up to the largest.
pub proof fn law_record_fits(record: int)
    ensures
        record_fits(record) <==> 0 <= record <= MAX_RECORD_SIZE,
{
    crate::size_class::lemma_class_blocks();
    crate::block_size::lemma_pool_constants();
    assert(SMALLEST_POOL * (SMALLEST_POOL - 2) == MAX_RECORD_SIZE);
    if usize::BITS == 32 {
        assert(MAX_RECORD_SIZE == 32 * 30);
    } else {
        assert(MAX_RECORD_SIZE == 64 * 62);
    }
    if record_fits(record) {
        let b = crate::size_class::class_block(0);
        assert(crate::chain::header_slots(b, record) < usize::BITS);
        assert(b * crate::block_size::POOL_SCALE <= crate::block_size::MIN_POOL_SIZE);
    }
    if 0 <= record <= MAX_RECORD_SIZE {
        assert forall|c: int|
            0 <= c < crate::size_class::class_count() implies #[trigger] crate::chain::header_slots(
            crate::size_class::class_block(c),
            record,
        ) < usize::BITS by {
            let b = crate::size_class::class_block(c);
            if usize::BITS == 32 {
                assert(b == 32 || b == 128 || b == 512 || b == 2048);
                assert(b * crate::block_size::POOL_SCALE == b * 128);
            } else {
                assert(b == 64 || b == 256 || b == 1024);
                assert(b * crate::block_size::POOL_SCALE == b * 256);
            }
            let pool = BlockSize::pool_size(b);
            assert(0 <= pool / b <= 8 * usize::BITS) by (nonlinear_arith)
                requires
                    0 <= pool <= (8 * usize::BITS) * b,
                    b > 0,
            ;
            let size = crate::chain::bitmap_bytes(b) + record;
            let slots = crate::chain::header_slots(b, record);
            crate::block_size::lemma_ceil_multiple(size, b);
            assert(slots < usize::BITS) by (nonlinear_arith)
                requires
                    slots * b < size + b,
                    size <= (usize::BITS - 1) * b,
                    b > 0,
            ;
        }
    }
}

/// A request that a pool serves takes at most four blocks.
pub proof fn lemma_block_count(size: int, align: int)
    requires
        0 < size,
        crate::size_class::request_class(size, align) < crate::size_class::class_count(),
    ensures
        ({
            let c = crate::size_class::request_class(size, align);
            &&& 0 <= c
            &&& 0 < block_count(size, c) <= 4
            &&& block_bytes(size, c) == block_count(size, c) * crate::size_class::class_block(c)
            &&& size <= block_bytes(size, c) <= BlockSize::pool_size(
                crate::size_class::class_block(c),
            )
            &&& size + crate::size_class::class_block(c) <= 8192
        }),
{
    crate::size_class::lemma_class_blocks();
    crate::block_size::lemma_pool_constants();
    let c = crate::size_class::request_class(size, align);
    let b = crate::size_class::class_block(c);
    if usize::BITS == 32 {
        assert(b == 32 || b == 128 || b == 512 || b == 2048);
        assert(b * crate::block_size::POOL_SCALE == b * 128);
    } else {
        assert(b == 64 || b == 256 || b == 1024);
        assert(b * crate::block_size::POOL_SCALE == b * 256);
    }
}

/// The allocator stays in order when one of its chains is replaced by one that fits.
pub proof fn lemma_with_chain(state: AllocView, class: int, chain: Seq<PoolView>)
    requires
        state.valid(),
        0 <= class < state.chains.len(),
        !state.locked[class],
        crate::chain::chain_valid(chain),
        chain[0].block == crate::size_class::class_block(class),
        chain[0].record == state.record,
        forall|c: int|
            0 <= c < state.chains.len() && c != class ==> chains_apart(
                chain,
                #[trigger] state.chains[c],
            ),
    ensures
        state.with_chain(class, chain).valid(),
{
    let post = state.with_chain(class, chain);
    assert forall|c: int| 0 <= c < post.chains.len() implies #[trigger] post.chain_ok(c) by {
        assert(state.chain_ok(c));
    }
    assert forall|c: int, d: int| 0 <= c < d < post.chains.len() implies chains_apart(
        #[trigger] post.chains[c],
        #[trigger] post.chains[d],
    ) by {
        assert(chains_apart(state.chains[c], state.chains[d]));
        if c == class {
            assert(chains_apart(chain, state.chains[d]));
        } else if d == class {
            assert(chains_apart(chain, state.chains[c]));
            assert forall|i: int, j: int|
                0 <= i < state.chains[c].len() && 0 <= j < chain.len() implies (
            #[trigger] state.chains[c][i]).apart(#[trigger] chain[j]) by {
                assert(chain[j].apart(state.chains[c][i]));
            }
        }
    }
}

/// The chains of an allocator lie apart, whichever is named first.
pub proof fn lemma_chains_apart(state: AllocView, c: int, d: int)
    requires
        state.valid(),
        0 <= c < state.chains.len(),
        0 <= d < state.chains.len(),
        c != d,
    ensures
        chains_apart(state.chains[c], state.chains[d]),
{
    if d < c {
        assert(chains_apart(state.chains[d], state.chains[c]));
        assert forall|i: int, j: int|
            0 <= i < state.chains[c].len() && 0 <= j < state.chains[d].len() implies (
        #[trigger] state.chains[c][i]).apart(#[trigger] state.chains[d][j]) by {
            assert(state.chains[d][j].apart(state.chains[c][i]));
        }
    }
}

/// The allocator stays in order when the blocks in use of one pool change.
pub proof fn lemma_update_pool(state: AllocView, class: int, k: int, pool: PoolView)
    requires
        state.valid(),
        0 <= class < state.chains.len(),
        0 <= k < state.chains[class].len(),
        pool.valid(),
        pool.base == state.chains[class][k].base,
        pool.block == state.chains[class][k].block,
        pool.record == state.chains[class][k].record,
    ensures
        state.with_chain(class, state.chains[class].update(k, pool)).valid(),
{
    let chain = state.chains[class].update(k, pool);
    assert(state.chain_ok(class));
    crate::chain::lemma_chain_update(state.chains[class], k, pool);
    assert forall|c: int| 0 <= c < state.chains.len() && c != class implies chains_apart(
        chain,
        #[trigger] state.chains[c],
    ) by {
        lemma_chains_apart(state, class, c);
        assert forall|i: int, j: int|
            0 <= i < chain.len() && 0 <= j < state.chains[c].len() implies (
        #[trigger] chain[i]).apart(#[trigger] state.chains[c][j]) by {
            assert(state.chains[class][i].apart(state.chains[c][j]));
        }
    }
    lemma_with_chain(state, class, chain);
}

/// The allocator stays in order when a region joins one of its chains.
pub proof fn lemma_add_region(state: AllocView, class: int, base: int)
    requires
        state.valid(),
        0 <= class < state.chains.len(),
        !state.locked[class],
        state.region_free(base, crate::size_class::class_block(class)),
    ensures
        ({
            let v = PoolView::fresh(base, crate::size_class::class_block(class), state.record);
            &&& v.valid()
            &&& state.with_chain(class, state.chains[class].push(v)).valid()
        }),
{
    let block = crate::size_class::class_block(class);
    let v = PoolView::fresh(base, block, state.record);
    let chain = state.chains[class].push(v);
    crate::size_class::lemma_class_valid(class);
    crate::chain::lemma_fresh(base, block, state.record);
    assert(state.chain_ok(class));
    assert(crate::chain::region_joins(base, block, state.chains[class]));
    if state.ready(class) {
        crate::chain::lemma_chain_push(state.chains[class], base);
    }
    assert forall|c: int| 0 <= c < state.chains.len() && c != class implies chains_apart(
        chain,
        #[trigger] state.chains[c],
    ) by {
        lemma_chains_apart(state, class, c);
        assert(crate::chain::region_joins(base, block, state.chains[c]));
        assert forall|i: int, j: int|
            0 <= i < chain.len() && 0 <= j < state.chains[c].len() implies (
        #[trigger] chain[i]).apart(#[trigger] state.chains[c][j]) by {
            if i < state.chains[class].len() {
                assert(state.chains[class][i].apart(state.chains[c][j]));
            } else {
                assert(crate::chain::region_apart(base, block, state.chains[c][j]));
            }
        }
    }
    lemma_with_chain(state, class, chain);
}

/// What the first pool that holds a block is: the only one.
pub proof fn lemma_holder(state: AllocView, from: int, ptr: int, class: int)
    requires
        state.valid(),
        0 <= from <= class < state.chains.len(),
        state.holds(class, ptr),
    ensures
        state.holder(from, ptr) == Some(class),
    decreases class - from,
{
    if from < class {
        if state.holds(from, ptr) {
            crate::chain::lemma_chain_find(state.chains[from], ptr);
            crate::chain::lemma_chain_find(state.chains[class], ptr);
            let i = crate::chain::chain_find(state.chains[from], ptr)->0;
            let j = crate::chain::chain_find(state.chains[class], ptr)->0;
            assert(chains_apart(state.chains[from], state.chains[class]));
            assert(state.chains[from][i].apart(state.chains[class][j]));
        }
        lemma_holder(state, from + 1, ptr, class);
    }
}

/// When no pool holds a block.
pub proof fn lemma_no_holder(state: AllocView, from: int, ptr: int)
    requires
        forall|c: int| from <= c < state.chains.len() ==> !#[trigger] state.holds(c, ptr),
    ensures
        state.holder(from, ptr) is None,
    decreases state.chains.len() - from,
{
    if from < state.chains.len() {
        lemma_no_holder(state, from + 1, ptr);
    }
}

/// What is known of the pool that a block belongs to.
pub proof fn lemma_owner(state: AllocView, ptr: int, align: int)
    requires
        state.valid(),
        0 < align,
    ensures
        state.owner(ptr, align) matches Some(c) ==> {
            &&& 0 <= c < state.chains.len()
            &&& crate::size_class::align_class(align) <= c
            &&& state.holds(c, ptr)
            &&& state.chain_ok(c)
            &&& crate::chain::chain_find(state.chains[c], ptr) matches Some(k) && {
                &&& 0 <= k < state.chains[c].len()
                &&& state.chains[c][k].contains(ptr)
                &&& state.chains[c][k].valid()
                &&& state.chains[c][k].block == crate::size_class::class_block(c)
                &&& !state.locked[c]
            }
        },
{
    let from = crate::size_class::align_class(align);
    lemma_holder_holds(state, from, ptr);
    if let Some(c) = state.owner(ptr, align) {
        assert(state.chain_ok(c));
        crate::chain::lemma_chain_find(state.chains[c], ptr);
        let k = crate::chain::chain_find(state.chains[c], ptr)->0;
        assert(state.chains[c][k].valid());
    }
}

proof fn lemma_holder_holds(state: AllocView, from: int, ptr: int)
    requires
        0 <= from,
    ensures
        state.holder(from, ptr) matches Some(c) ==> from <= c < state.chains.len() && state.holds(
            c,
            ptr,
        ),
    decreases state.chains.len() - from,
{
    if from < state.chains.len() && !state.holds(from, ptr) {
        lemma_holder_holds(state, from + 1, ptr);
    }
}

} // verus!
