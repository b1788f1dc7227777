//! An allocator that serves small requests from a series of pools.
use vstd::prelude::*;

use crate::alloc_view::AllocView;
use crate::chain::{PoolView, PAGE_SIZE};
use crate::layout::Layout;
use crate::pool::{AllocError, Attempt, Pool, Region};
use crate::size_class::{
    class_of_align, class_of_request, class_to_search, default_pool_count, default_pool_size,
    pool_block_len,
};

verus! {

/// What has to be done before a pool can be used.
#[derive(Copy, Clone, Debug)]
pub enum InitStep {
    /// Nothing: the pool is there.
    Ready,
    /// Wait: someone else is setting it up.
    Busy,
    /// Get a zeroed region with this layout, and hand it to `complete_init`. The pool is locked
    /// until then.
    Allocate(Layout),
}

/// What has to be done next for a request for memory.
#[derive(Copy, Clone, Debug)]
pub enum AllocStep {
    /// Nothing: the memory is `len` bytes at `addr`. It is to be filled with zeros first where
    /// `zero` says so.
    Done { addr: usize, len: usize, zero: bool },
    /// Nothing: there is no such memory.
    Failed,
    /// Wait, and ask again.
    Busy,
    /// Get a zeroed region with this layout, hand it to `complete_init`, and ask again.
    Init { class: usize, layout: Layout },
    /// Get a zeroed region with this layout, hand it to `grow`, and ask again.
    Grow { class: usize, layout: Layout },
    /// Ask the page allocator for zeroed memory with this layout, and answer what it answers.
    Forward(Layout),
}

/// What has to be done next to give memory back.
#[derive(Copy, Clone, Debug)]
pub enum DeallocStep {
    /// Nothing.
    Done,
    /// Give the memory back to the page allocator, with this layout.
    Forward(Layout),
}

/// How memory is moved to a place of another size: obtain memory for `layout`, copy `copy` bytes,
/// give the old memory back.
#[derive(Copy, Clone, Debug)]
pub struct Move {
    /// The layout of the new memory.
    pub layout: Layout,
    /// The number of bytes to copy.
    pub copy: usize,
}

impl AllocStep {
    /// Whether this is the answer to a request for `size` bytes with alignment `align`, made in
    /// state `pre`, and `post` is the state that it leads to.
    pub open spec fn answers(
        self,
        pre: AllocView,
        post: AllocView,
        size: int,
        align: int,
        zero: bool,
    ) -> bool {
        let padded = crate::block_size::ceil_multiple(size, align);
        let class = crate::size_class::request_class(padded, align);
        let count = crate::alloc_view::block_count(padded, class);
        if size == 0 {
            &&& self == AllocStep::Done { addr: align as usize, len: 0, zero: false }
            &&& post == pre
        } else if align > PAGE_SIZE {
            self is Failed && post == pre
        } else if class >= crate::size_class::class_count() {
            &&& post == pre
            &&& self matches AllocStep::Forward(layout) && layout.bytes() == padded
                && layout.alignment() == align
        } else if !pre.ready(class) && pre.locked[class] {
            self is Busy && post == pre
        } else if !pre.ready(class) {
            &&& post == pre.with_lock(class, true)
            &&& self matches AllocStep::Init { class: c, layout } && c == class
                && is_pool_layout(layout, class)
        } else {
            match crate::chain::chain_place(pre.chains[class], count) {
                Some((k, at)) => {
                    let pool = pre.chains[class][k];
                    &&& post == pre.with_chain(
                        class,
                        pre.chains[class].update(k, pool.with_run(at, at + count, true)),
                    )
                    &&& self matches AllocStep::Done { addr, len, zero: z } && addr
                        == pool.address(at) && len == crate::alloc_view::block_bytes(padded, class)
                        && z == zero
                },
                None => {
                    &&& post == pre
                    &&& self matches AllocStep::Grow { class: c, layout } && c == class
                        && is_pool_layout(layout, class)
                },
            }
        }
    }
}

impl InitStep {
    /// Whether this is the answer to someone who needs one of the default pools in state `pre`, and
    /// `post` is the state that it leads to.
    pub open spec fn answers(self, pre: AllocView, post: AllocView, class: int) -> bool {
        if pre.ready(class) {
            self is Ready && post == pre
        } else if pre.locked[class] {
            self is Busy && post == pre
        } else {
            &&& self matches InitStep::Allocate(layout) && is_pool_layout(layout, class)
            &&& post == pre.with_lock(class, true)
        }
    }
}

impl DeallocStep {
    /// Whether this is the answer to someone who gives back memory at `ptr` in state `pre`, and
    /// `post` is the state that it leads to.
    pub open spec fn answers(
        self,
        pre: AllocView,
        post: AllocView,
        ptr: int,
        layout: Layout,
    ) -> bool {
        if layout.bytes() == 0 {
            self is Done && post == pre
        } else if pre.owner(ptr, layout.alignment()) is Some {
            &&& self is Done
            &&& post == pre.freed(ptr, layout.bytes(), layout.alignment())
        } else {
            self == DeallocStep::Forward(layout) && post == pre
        }
    }
}

impl Move {
    /// Whether this moves memory with layout `layout` to a place of `new_size` bytes.
    pub open spec fn moves(self, layout: Layout, new_size: int) -> bool {
        &&& self.layout.bytes() == new_size
        &&& self.layout.alignment() == layout.alignment()
        &&& self.copy == if new_size < layout.bytes() {
            new_size
        } else {
            layout.bytes()
        }
    }
}

/// Whether `post` is the state `pre` after a locked pool has been set up in the region at hand and
/// unlocked. Without a region it is only unlocked, and `ok` is false.
pub open spec fn init_completed(
    pre: AllocView,
    post: AllocView,
    class: int,
    region: Option<usize>,
    ok: bool,
) -> bool {
    match region {
        Some(base) => {
            &&& ok
            &&& post == pre.with_lock(class, false).with_chain(
                class,
                seq![
                    PoolView::fresh(
                        base as int,
                        crate::size_class::class_block(class),
                        pre.record,
                    ),
                ],
            )
        },
        None => !ok && post == pre.with_lock(class, false),
    }
}

/// Whether `post` is the state `pre` after a pool has got the region at hand. Without a region it
/// stays as it is, and `ok` is false.
pub open spec fn chain_grown(
    pre: AllocView,
    post: AllocView,
    class: int,
    region: Option<usize>,
    ok: bool,
) -> bool {
    match region {
        Some(base) => {
            &&& ok
            &&& post == pre.with_chain(
                class,
                pre.chains[class].push(
                    PoolView::fresh(
                        base as int,
                        crate::size_class::class_block(class),
                        pre.record,
                    ),
                ),
            )
        },
        None => !ok && post == pre,
    }
}

/// Whether a layout is that of a region for a default pool.
pub open spec fn is_pool_layout(layout: Layout, class: int) -> bool {
    &&& layout.bytes() == crate::block_size::BlockSize::pool_size(
        crate::size_class::class_block(class),
    )
    &&& layout.alignment() == PAGE_SIZE
}

/// An allocator that serves small requests from a series of pools, and hands the others on to a
/// page allocator.
#[derive(Debug)]
pub struct PooledAlloc {
    record_size: usize,
    pool_init_tracker: usize,
    pools: Vec<Option<Pool>>,
}

impl View for PooledAlloc {
    type V = AllocView;

    /// The pools and their locks.
    closed spec fn view(&self) -> AllocView {
        AllocView {
            record: self.record_size as int,
            chains: Seq::new(self.pools@.len(), |c: int| Self::chain_of(self.pools@[c])),
            locked: Seq::new(
                self.pools@.len(),
                |c: int| crate::bits::bit(self.pool_init_tracker, 8 + c),
            ),
        }
    }
}

impl PooledAlloc {
    spec fn chain_of(pool: Option<Pool>) -> Seq<PoolView> {
        match pool {
            Some(pool) => pool@,
            None => Seq::empty(),
        }
    }

    /// The low bits of the tracker tell which pools are there, those from the eighth on which ones
    /// are locked.
    pub closed spec fn wf(&self) -> bool {
        &&& self@.valid()
        &&& forall|c: int|
            0 <= c < self.pools@.len() ==> match #[trigger] self.pools@[c] {
                Some(pool) => pool.wf() && pool@.len() > 0,
                None => true,
            }
        &&& forall|c: int|
            0 <= c < self.pools@.len() ==> (#[trigger] crate::bits::bit(self.pool_init_tracker, c)
                <==> self.pools@[c] is Some)
    }

    /// What the state of an allocator keeps.
    pub proof fn lemma_wf(&self)
        requires
            self.wf(),
        ensures
            self@.valid(),
    {
    }

    /// An allocator without any pool. In the regions of its pools room is set aside for a record of
    /// `record_size` bytes.
    pub fn new(record_size: usize) -> (r: Self)
        requires
            crate::alloc_view::record_fits(record_size as int),
        ensures
            r.wf(),
            r@ == AllocView::empty(record_size as int),
    {
        let mut pools: Vec<Option<Pool>> = Vec::new();
        let count = default_pool_count();
        let mut i: usize = 0;
        while i < count
            invariant
                i <= count,
                pools@.len() == i,
                forall|c: int| 0 <= c < i ==> pools@[c] is None,
            decreases count - i,
        {
            pools.push(None);
            i = i + 1;
        }
        let r = PooledAlloc { record_size, pool_init_tracker: 0, pools };
        proof {
            assert forall|c: int| !#[trigger] crate::bits::bit(0, c) by {
                crate::bits::lemma_bit_zero(c);
            }
            assert(r@.chains =~= AllocView::empty(record_size as int).chains);
            assert(r@.locked =~= AllocView::empty(record_size as int).locked);
        }
        r
    }

    /// The chain of one of the default pools, if it has been set up.
    pub fn pool(&self, class: usize) -> (r: Option<&Pool>)
        requires
            self.wf(),
            class < self@.chains.len(),
        ensures
            r is Some <==> self@.ready(class as int),
            r matches Some(pool) ==> pool.wf() && pool@ == self@.chains[class as int],
    {
        let init: usize = 1usize << class;
        proof {
            lemma_test_bit(self.pool_init_tracker, class as u32);
        }
        if self.pool_init_tracker & init != 0 {
            self.pools[class].as_ref()
        } else {
            None
        }
    }

    /// Whether a region at `base` can be taken over for one of the default pools: it starts a page
    /// and shares no address with another region.
    pub fn region_is_free(&self, class: usize, base: usize) -> (r: bool)
        requires
            self.wf(),
            class < self@.chains.len(),
        ensures
            r == self@.region_free(base as int, crate::size_class::class_block(class as int)),
    {
        let ghost block = crate::size_class::class_block(class as int);
        let size: usize = pool_block_len(class).expected_pool_size();
        if base == 0 || base % PAGE_SIZE != 0 || base > usize::MAX - size {
            return false;
        }
        let mut i: usize = 0;
        while i < self.pools.len()
            invariant
                self.wf(),
                i <= self.pools.len(),
                self@.chains.len() == self.pools@.len(),
                block == crate::size_class::class_block(class as int),
                size == crate::block_size::BlockSize::pool_size(block),
                base + size <= usize::MAX,
                crate::chain::region_valid(base as int, block),
                forall|c: int|
                    0 <= c < i ==> crate::chain::region_joins(
                        base as int,
                        block,
                        #[trigger] self@.chains[c],
                    ),
            decreases self.pools.len() - i,
        {
            if let Some(pool) = self.pool(i) {
                if !pool.lies_apart(base, size) {
                    proof {
                        let k = choose|k: int|
                            0 <= k < pool@.len() && !(base + size <= (#[trigger] pool@[k]).base
                                || pool@[k].end() <= base);
                        assert(!crate::chain::region_apart(
                            base as int,
                            block,
                            self@.chains[i as int][k],
                        ));
                    }
                    return false;
                }
                assert forall|k: int|
                    0 <= k < self@.chains[i as int].len() implies crate::chain::region_apart(
                    base as int,
                    block,
                    #[trigger] self@.chains[i as int][k],
                ) by {
                    assert(pool@[k] == self@.chains[i as int][k]);
                }
            }
            i = i + 1;
        }
        true
    }

    /// Whether memory at `ptr` can be given back with this layout.
    pub fn may_deallocate(&self, ptr: usize, layout: Layout) -> (r: bool)
        requires
            self.wf(),
        ensures
            r == self@.may_free(ptr as int, layout.bytes(), layout.alignment()),
    {
        let size = layout.size();
        match self.find_pool_for_alloc(ptr, size, layout.align()) {
            Some((class, pool)) => {
                proof {
                    crate::alloc_view::lemma_owner(self@, ptr as int, layout.alignment());
                    crate::size_class::lemma_class_blocks();
                }
                pool.first_block() <= ptr && pool.block_len().div_ceil_to(size)
                    <= usize::BITS as usize
            },
            None => true,
        }
    }

    /// Sees to it that a pool is there, or says what is missing.
    pub fn init_pool(&mut self, class: usize) -> (r: InitStep)
        requires
            old(self).wf(),
            class < old(self)@.chains.len(),
        ensures
            final(self).wf(),
            r.answers(old(self)@, final(self)@, class as int),
    {
        let init: usize = 1usize << class;
        let locked: usize = 0x100usize << class;
        let ghost tracker = self.pool_init_tracker;
        proof {
            lemma_test_bit(tracker, class as u32);
            lemma_lock_bit(class);
            lemma_test_bit(tracker, (8 + class) as u32);
        }
        if self.pool_init_tracker & init != 0 {
            return InitStep::Ready;
        }
        let v: usize = self.pool_init_tracker;
        self.pool_init_tracker = v | locked;
        proof {
            assert forall|i: int| 0 <= i < usize::BITS implies #[trigger] crate::bits::bit(
                self.pool_init_tracker,
                i,
            ) == (crate::bits::bit(tracker, i) || i == 8 + class) by {
                crate::bits::lemma_bit_or(v, locked, i);
                crate::bits::lemma_only_bit(locked, (8 + class) as u32, i);
            }
            assert(self@.chains =~= old(self)@.chains);
        }
        if v & locked != 0 {
            assert(self@.locked =~= old(self)@.locked);
            return InitStep::Busy;
        }
        proof {
            assert(self@.locked =~= old(self)@.locked.update(class as int, true));
            let pre = old(self)@;
            assert forall|c: int| 0 <= c < self@.chains.len() implies #[trigger] self@.chain_ok(
                c,
            ) by {
                assert(pre.chain_ok(c));
            }
        }
        InitStep::Allocate(Pool::layout_for_pool(pool_block_len(class)))
    }

    /// Sets a locked pool up in the region that was obtained for it, if one was, and unlocks it.
    pub fn complete_init(&mut self, class: usize, region: Option<usize>) -> (r: Result<
        (),
        AllocError,
    >)
        requires
            old(self).wf(),
            class < old(self)@.chains.len(),
            old(self)@.locked[class as int],
            region matches Some(base) ==> old(self)@.region_free(
                base as int,
                crate::size_class::class_block(class as int),
            ),
        ensures
            final(self).wf(),
            init_completed(old(self)@, final(self)@, class as int, region, r is Ok),
    {
        let init: usize = 1usize << class;
        let locked: usize = 0x100usize << class;
        let ghost pre = self@;
        let ghost tracker = self.pool_init_tracker;
        let ghost unlocked = pre.with_lock(class as int, false);
        proof {
            lemma_lock_bit(class);
            assert(pre.chain_ok(class as int));
            assert forall|c: int| 0 <= c < unlocked.chains.len() implies #[trigger] unlocked.chain_ok(
                c,
            ) by {
                assert(pre.chain_ok(c));
            }
        }
        match Pool::allocate_pool(pool_block_len(class), self.record_size, region) {
            Err(e) => {
                self.pool_init_tracker = self.pool_init_tracker & !locked;
                proof {
                    assert forall|i: int| 0 <= i < usize::BITS implies #[trigger] crate::bits::bit(
                        self.pool_init_tracker,
                        i,
                    ) == (crate::bits::bit(tracker, i) && i != 8 + class) by {
                        crate::bits::lemma_bit_not(locked, i);
                        crate::bits::lemma_bit_and(tracker, !locked, i);
                        crate::bits::lemma_only_bit(locked, (8 + class) as u32, i);
                    }
                    assert(self@.locked =~= unlocked.locked);
                    assert(self@.chains =~= unlocked.chains);
                }
                Err(e)
            },
            Ok(pool) => {
                self.pools.set(class, Some(pool));
                self.pool_init_tracker = self.pool_init_tracker ^ (init | locked);
                proof {
                    assert forall|i: int| 0 <= i < usize::BITS implies #[trigger] crate::bits::bit(
                        self.pool_init_tracker,
                        i,
                    ) == (crate::bits::bit(tracker, i) != (i == class || i == 8 + class)) by {
                        lemma_bit_xor(tracker, init | locked, i);
                        crate::bits::lemma_bit_or(init, locked, i);
                        crate::bits::lemma_only_bit(locked, (8 + class) as u32, i);
                        crate::bits::lemma_only_bit(init, class as u32, i);
                    }
                    let base = region->0 as int;
                    let v = PoolView::fresh(
                        base,
                        crate::size_class::class_block(class as int),
                        pre.record,
                    );
                    assert(pre.chains[class as int] =~= Seq::empty());
                    assert(pre.chains[class as int].push(v) =~= seq![v]);
                    let post = unlocked.with_chain(class as int, seq![v]);
                    assert(self@.locked =~= post.locked);
                    assert(self@.chains =~= post.chains);
                    assert(unlocked.region_free(base, crate::size_class::class_block(class as int)));
                    crate::alloc_view::lemma_add_region(unlocked, class as int, base);
                }
                Ok(())
            },
        }
    }

    /// Adds a pool to the chain of one of the default pools, in the region that was obtained for
    /// it, if one was.
    pub fn grow(&mut self, class: usize, region: Option<usize>) -> (r: Result<(), AllocError>)
        requires
            old(self).wf(),
            class < old(self)@.chains.len(),
            old(self)@.ready(class as int),
            region matches Some(base) ==> old(self)@.region_free(
                base as int,
                crate::size_class::class_block(class as int),
            ),
        ensures
            final(self).wf(),
            chain_grown(old(self)@, final(self)@, class as int, region, r is Ok),
    {
        let ghost pre = self@;
        proof {
            assert(pre.chain_ok(class as int));
            if let Some(base) = region {
                crate::alloc_view::lemma_add_region(pre, class as int, base as int);
                assert(crate::chain::region_joins(
                    base as int,
                    crate::size_class::class_block(class as int),
                    pre.chains[class as int],
                ));
            }
        }
        let r: Result<(), AllocError> = match &mut self.pools[class] {
            Some(pool) => pool.extend(region),
            None => Err(AllocError),
        };
        proof {
            let post = match region {
                Some(base) => pre.with_chain(
                    class as int,
                    pre.chains[class as int].push(
                        PoolView::fresh(
                            base as int,
                            crate::size_class::class_block(class as int),
                            pre.record,
                        ),
                    ),
                ),
                None => pre,
            };
            assert(self@.locked =~= post.locked);
            assert(self@.chains =~= post.chains);
        }
        r
    }

    /// Finds the pool that memory of `size` bytes with alignment `align` at `ptr` belongs to.
    ///
    /// The search starts at the pool that fits the size best, which is the last one for a page and
    /// more, goes on to the pools with smaller blocks as far as they are aligned enough, and ends
    /// with those with larger blocks.
    pub fn find_pool_for_alloc(&self, ptr: usize, size: usize, align: usize) -> (r: Option<
        (usize, &Pool),
    >)
        requires
            self.wf(),
            vstd::arithmetic::power2::is_pow2(align as int),
        ensures
            match r {
                Some((class, pool)) => {
                    &&& self@.owner(ptr as int, align as int) == Some(class as int)
                    &&& pool.wf()
                    &&& pool@ == self@.chains[class as int].skip(
                        crate::chain::chain_find(self@.chains[class as int], ptr as int)->0,
                    )
                },
                None => self@.owner(ptr as int, align as int) is None,
            },
    {
        let count = default_pool_count();
        let min_pool = class_of_align(align);
        proof {
            crate::size_class::lemma_class_blocks();
        }
        if min_pool == count {
            return None;
        }
        let mut expected_pool = class_to_search(size);
        if expected_pool == count {
            expected_pool = count - 1;
        }
        if expected_pool < min_pool {
            expected_pool = min_pool;
        }
        let mut check_pool: usize = expected_pool;
        let ghost mut seen: Set<int> = Set::empty();
        loop
            invariant
                self.wf(),
                count == crate::size_class::class_count(),
                self@.chains.len() == count,
                min_pool == crate::size_class::align_class(align as int),
                min_pool <= check_pool < count,
                min_pool <= expected_pool < count,
                forall|c: int|
                    #![trigger seen.contains(c)]
                    seen.contains(c) <==> min_pool <= c < count && (if check_pool
                        <= expected_pool {
                        check_pool < c <= expected_pool
                    } else {
                        c <= expected_pool || c > check_pool
                    }),
                forall|c: int| seen.contains(c) ==> !#[trigger] self@.holds(c, ptr as int),
            decreases
                    if check_pool <= expected_pool {
                        check_pool + count
                    } else {
                        check_pool as int
                    },
        {
            proof {
                assert(self@.chain_ok(check_pool as int));
            }
            if let Some(pool) = self.pool(check_pool) {
                if let Some(found) = pool.find_alloc_for(ptr) {
                    proof {
                        crate::alloc_view::lemma_holder(
                            self@,
                            min_pool as int,
                            ptr as int,
                            check_pool as int,
                        );
                    }
                    return Some((check_pool, found));
                }
            }
            proof {
                assert(!self@.holds(check_pool as int, ptr as int));
                seen = seen.insert(check_pool as int);
            }
            if check_pool == min_pool {
                check_pool = count - 1;
            } else {
                check_pool = check_pool - 1;
            }
            if check_pool == expected_pool {
                proof {
                    assert forall|c: int|
                        min_pool <= c < self@.chains.len() implies !#[trigger] self@.holds(
                        c,
                        ptr as int,
                    ) by {
                        assert(seen.contains(c));
                    }
                    crate::alloc_view::lemma_no_holder(self@, min_pool as int, ptr as int);
                }
                return None;
            }
        }
    }

    /// Serves a request for memory, or says what has to be done first.
    fn serve(&mut self, layout: Layout, zero: bool) -> (r: AllocStep)
        requires
            old(self).wf(),
        ensures
            final(self).wf(),
            r.answers(old(self)@, final(self)@, layout.bytes(), layout.alignment(), zero),
            Layout::valid(layout.bytes(), layout.alignment()),
    {
        if layout.size() == 0 {
            return AllocStep::Done { addr: layout.align(), len: 0, zero: false };
        }
        if layout.align() > PAGE_SIZE {
            return AllocStep::Failed;
        }
        let padded = layout.pad_to_align();
        let size = padded.size();
        let class = class_of_request(size, padded.align());
        let block_len = match default_pool_size(class) {
            Some(block_len) => block_len,
            None => {
                return AllocStep::Forward(padded);
            },
        };
        let ghost pre = self@;
        proof {
            crate::block_size::lemma_ceil_multiple(layout.bytes(), layout.alignment());
            crate::alloc_view::lemma_block_count(size as int, layout.alignment());
            assert(pre.chain_ok(class as int));
        }
        match self.init_pool(class) {
            InitStep::Ready => {},
            InitStep::Busy => {
                return AllocStep::Busy;
            },
            InitStep::Allocate(layout) => {
                return AllocStep::Init { class, layout };
            },
        }
        let total_size = block_len.ceil_to(size);
        let count: usize = total_size / block_len;
        proof {
            let n = crate::alloc_view::block_count(size as int, class as int);
            vstd::arithmetic::div_mod::lemma_div_multiples_vanish(n, block_len.value());
            vstd::arithmetic::mul::lemma_mul_is_commutative(n, block_len.value());
            crate::chain::lemma_chain_place(pre.chains[class as int], count as int);
        }
        let attempt: Attempt = match &mut self.pools[class] {
            Some(pool) => pool.try_allocate(count),
            None => Attempt::Null,
        };
        proof {
            assert(self@.locked =~= pre.locked);
            if let Some((k, at)) = crate::chain::chain_place(
                pre.chains[class as int],
                count as int,
            ) {
                let v = pre.chains[class as int][k].with_run(at, at + count, true);
                let post = pre.with_chain(
                    class as int,
                    pre.chains[class as int].update(k, v),
                );
                crate::alloc_view::lemma_update_pool(pre, class as int, k, v);
                assert(self@.chains =~= post.chains);
            } else {
                assert(self@.chains =~= pre.chains);
            }
        }
        match attempt {
            Attempt::Null => AllocStep::Failed,
            Attempt::Block(addr) => AllocStep::Done { addr, len: total_size, zero },
            Attempt::Full => AllocStep::Grow { class, layout: Pool::layout_for_pool(block_len) },
        }
    }

    /// Serves a request for memory, or says what has to be done first.
    pub fn allocate(&mut self, layout: Layout) -> (r: AllocStep)
        requires
            old(self).wf(),
        ensures
            final(self).wf(),
            r.answers(old(self)@, final(self)@, layout.bytes(), layout.alignment(), false),
            r is Failed <==> layout.bytes() > 0 && layout.alignment() > 4096,
            r matches AllocStep::Done { addr, len, zero } ==> addr as int % layout.alignment() == 0
                && layout.bytes() <= len && !zero,
            r matches AllocStep::Forward(l) ==> layout.bytes() <= l.bytes() && l.alignment()
                == layout.alignment(),
    {
        let r = self.serve(layout, false);
        proof {
            lemma_answer(old(self)@, self@, layout, false, r);
        }
        r
    }

    /// Serves a request for zeroed memory, or says what has to be done first.
    pub fn allocate_zeroed(&mut self, layout: Layout) -> (r: AllocStep)
        requires
            old(self).wf(),
        ensures
            final(self).wf(),
            r.answers(old(self)@, final(self)@, layout.bytes(), layout.alignment(), true),
            r is Failed <==> layout.bytes() > 0 && layout.alignment() > 4096,
            r matches AllocStep::Done { addr, len, zero } ==> addr as int % layout.alignment() == 0
                && layout.bytes() <= len && (layout.bytes() > 0 ==> zero),
            r matches AllocStep::Forward(l) ==> layout.bytes() <= l.bytes() && l.alignment()
                == layout.alignment(),
    {
        let r = self.serve(layout, true);
        proof {
            lemma_answer(old(self)@, self@, layout, true, r);
        }
        r
    }

    /// Takes memory back into the pool that it belongs to, or says that it belongs to the page
    /// allocator.
    pub fn deallocate(&mut self, ptr: usize, layout: Layout) -> (r: DeallocStep)
        requires
            old(self).wf(),
            layout.bytes() > 0 ==> old(self)@.may_free(
                ptr as int,
                layout.bytes(),
                layout.alignment(),
            ),
        ensures
            final(self).wf(),
            r.answers(old(self)@, final(self)@, ptr as int, layout),
    {
        let size = layout.size();
        if size == 0 {
            return DeallocStep::Done;
        }
        let ghost pre = self@;
        let found: Option<(usize, usize)> = match self.find_pool_for_alloc(
            ptr,
            size,
            layout.align(),
        ) {
            Some((class, pool)) => {
                proof {
                    crate::alloc_view::lemma_owner(pre, ptr as int, layout.alignment());
                    crate::size_class::lemma_class_valid(class as int);
                    crate::size_class::lemma_class_blocks();
                }
                Some((class, pool.block_len().div_ceil_to(size)))
            },
            None => None,
        };
        match found {
            Some((class, chunks)) => {
                let ghost k = crate::chain::chain_find(pre.chains[class as int], ptr as int)->0;
                let ghost v = pre.chains[class as int][k].freed(ptr as int, chunks as int);
                proof {
                    crate::alloc_view::lemma_owner(pre, ptr as int, layout.alignment());
                    crate::chain::lemma_freed(
                        pre.chains[class as int][k],
                        ptr as int,
                        chunks as int,
                    );
                    crate::alloc_view::lemma_update_pool(pre, class as int, k, v);
                }
                match &mut self.pools[class] {
                    Some(pool) => {
                        pool.release(ptr, chunks);
                    },
                    None => {},
                }
                proof {
                    let post = pre.freed(ptr as int, size as int, layout.alignment());
                    assert(self@.locked =~= post.locked);
                    assert(self@.chains =~= post.chains);
                }
                DeallocStep::Done
            },
            None => DeallocStep::Forward(layout),
        }
    }

    /// How memory with layout `layout` is moved when its size becomes `new_size`.
    pub fn realloc(layout: Layout, new_size: usize) -> (r: Move)
        requires
            Layout::valid(new_size as int, layout.alignment()),
        ensures
            r.moves(layout, new_size as int),
    {
        let new_layout = Layout::from_size_align_unchecked(new_size, layout.align());
        let copy: usize = if new_size < layout.size() {
            new_size
        } else {
            layout.size()
        };
        Move { layout: new_layout, copy }
    }

    /// The regions that are given up with the allocator, in that order: those of the first default
    /// pool, from the end of its chain on. The regions of the other pools are never given up.
    pub fn regions_to_give_up(&self) -> (r: Vec<Region>)
        requires
            self.wf(),
        ensures
            r@.len() == self@.given_up().len(),
            forall|i: int|
                0 <= i < r@.len() ==> (#[trigger] r@[i]).is_of(self@.given_up()[i]),
    {
        match self.pool(0) {
            Some(pool) => pool.regions(),
            None => Vec::new(),
        }
    }
}

/// What every answer to a request keeps to.
proof fn lemma_answer(pre: AllocView, post: AllocView, layout: Layout, zero: bool, r: AllocStep)
    requires
        pre.valid(),
        Layout::valid(layout.bytes(), layout.alignment()),
        r.answers(pre, post, layout.bytes(), layout.alignment(), zero),
    ensures
        r is Failed <==> layout.bytes() > 0 && layout.alignment() > 4096,
        r matches AllocStep::Done { addr, len, zero: z } ==> addr as int % layout.alignment() == 0
            && layout.bytes() <= len && z == (zero && layout.bytes() > 0),
        r matches AllocStep::Forward(l) ==> layout.bytes() <= l.bytes() && l.alignment()
            == layout.alignment(),
{
    let size = layout.bytes();
    let align = layout.alignment();
    if size == 0 {
        assert(align % align == 0) by {
            vstd::arithmetic::div_mod::lemma_mod_self_0(align);
        }
        assert(align <= usize::MAX);
    } else {
        crate::guarantees::law_failing_requests(pre, post, size, align, zero, r);
        crate::guarantees::law_forwarded_request(pre, post, size, align, zero, r);
        if r is Done {
            crate::laws::law_memory_fits(pre, post, size, align, zero, r);
        }
    }
}

/// The bit that locks a pool.
proof fn lemma_lock_bit(class: usize)
    requires
        class < 4,
    ensures
        0x100usize << class == 1usize << ((8 + class) as u32),
{
    let k: u32 = (8 + class) as u32;
    assert(0x100usize << class == 1usize << k) by (bit_vector)
        requires
            class < 4,
            k == 8 + class,
    ;
}

/// Bits of a symmetric difference of two words.
proof fn lemma_bit_xor(v: usize, w: usize, i: int)
    requires
        0 <= i < usize::BITS,
    ensures
        crate::bits::bit(v ^ w, i) == (crate::bits::bit(v, i) != crate::bits::bit(w, i)),
{
    let j = i as usize;
    assert(((v ^ w) >> j) & 1usize == 1usize <==> ((v >> j) & 1usize == 1usize) != ((w >> j)
        & 1usize == 1usize)) by (bit_vector);
}

/// Testing a word for a single bit.
proof fn lemma_test_bit(w: usize, k: u32)
    requires
        k < usize::BITS,
    ensures
        w & (1usize << k) != 0 <==> crate::bits::bit(w, k as int),
{
    assert(w & (1usize << k) != 0usize <==> (w >> (k as usize)) & 1usize == 1usize) by (bit_vector)
        requires
            k < usize::BITS,
    ;
}

} // verus!
