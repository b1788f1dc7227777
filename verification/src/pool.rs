//! Pools: memory regions cut into equal blocks, chained one behind the other.
use vstd::prelude::*;

use crate::arena::Arena;
use crate::block_size::BlockSize;
use crate::chain::{PoolView, PAGE_SIZE};
use crate::layout::Layout;

verus! {

/// No memory could be had.
#[derive(Copy, Clone, Debug, PartialEq, Eq)]
pub struct AllocError;

/// What came of an attempt to take blocks of a chain of pools.
#[derive(Copy, Clone, Debug, PartialEq, Eq)]
pub enum Attempt {
    /// The request is larger than a whole pool: there is no such memory.
    Null,
    /// The address of the blocks.
    Block(usize),
    /// No pool of the chain has room: the chain must get another pool first.
    Full,
}

impl Attempt {
    /// Whether this is the answer to a request for `count` blocks of the chain `pre`, and `post` is
    /// the chain that it leads to.
    pub open spec fn answers(self, pre: Seq<PoolView>, post: Seq<PoolView>, count: int) -> bool {
        if count * pre[0].block > pre[0].size() {
            self is Null && post == pre
        } else {
            match crate::chain::chain_place(pre, count) {
                Some((k, at)) => {
                    &&& self matches Attempt::Block(p) && p == pre[k].address(at)
                    &&& post == pre.update(k, pre[k].with_run(at, at + count, true))
                },
                None => self is Full && post == pre,
            }
        }
    }
}

/// A region of memory that was obtained for a pool.
#[derive(Copy, Clone, Debug)]
pub struct Region {
    /// The address of the region.
    pub base: usize,
    /// The layout with which it was asked for.
    pub layout: Layout,
}

impl Region {
    /// Whether this is the region of a pool.
    pub open spec fn is_of(self, pool: PoolView) -> bool {
        &&& self.base == pool.base
        &&& self.layout.bytes() == pool.size()
        &&& self.layout.alignment() == PAGE_SIZE
    }
}

/// A chain of pools with blocks of one size.
#[derive(Debug)]
pub struct Pool {
    base: usize,
    total_size: usize,
    next_ptr: usize,
    block_len_bits: u32,
    record_size: usize,
    arena: Arena,
    next: Option<Box<Pool>>,
}

impl View for Pool {
    type V = Seq<PoolView>;

    /// The pools of the chain, this one first.
    closed spec fn view(&self) -> Seq<PoolView> {
        self.chain()
    }
}

impl Pool {
    spec fn head(&self) -> PoolView {
        PoolView {
            base: self.base as int,
            block: vstd::arithmetic::power2::pow2(self.block_len_bits as nat) as int,
            record: self.record_size as int,
            used: self.arena@,
        }
    }

    spec fn tail(&self) -> Seq<PoolView>
        decreases self, 0nat,
    {
        match self.next {
            Some(next) => next.chain(),
            None => Seq::empty(),
        }
    }

    spec fn chain(&self) -> Seq<PoolView>
        decreases self, 1nat,
    {
        seq![self.head()] + self.tail()
    }

    /// The stored numbers agree with what they stand for.
    spec fn fields_ok(&self) -> bool
        decreases self,
    {
        &&& self.total_size == self.head().size()
        &&& self.next_ptr == self.head().address(self.head().header())
        &&& match self.next {
            Some(next) => next.fields_ok(),
            None => true,
        }
    }

    /// The pools of the chain are alike, lie apart, and have their headers in use.
    pub closed spec fn wf(&self) -> bool {
        &&& self.fields_ok()
        &&& crate::chain::chain_valid(self@)
    }

    /// The memory that a pool with blocks of size `block_len` asks for.
    pub fn layout_for_pool(block_len: BlockSize) -> (r: Layout)
        ensures
            r.bytes() == BlockSize::pool_size(block_len.value()),
            r.alignment() == PAGE_SIZE,
    {
        let block = block_len.get();
        let asize = block_len.expected_pool_size();
        let align: usize = PAGE_SIZE;
        proof {
            crate::chain::lemma_geometry(block as int);
            vstd::arithmetic::power2::lemma2_to64();
            vstd::arithmetic::power2::lemma_pow2(12);
            vstd::arithmetic::power2::is_pow2_equiv(4096);
        }
        Layout::from_size_align_unchecked(asize, align)
    }

    /// Sets up a pool in a zeroed region laid out as `layout_for_pool` says, or reports that there
    /// was none.
    ///
    /// Room is set aside at the head of the region for a record of `record_size` bytes and a bitmap.
    pub fn allocate_pool(
        block_len: BlockSize,
        record_size: usize,
        region: Option<usize>,
    ) -> (r: Result<Self, AllocError>)
        requires
            region matches Some(base) ==> {
                &&& crate::chain::region_valid(base as int, block_len.value())
                &&& crate::chain::header_slots(block_len.value(), record_size as int) < usize::BITS
            },
        ensures
            r matches Ok(pool) ==> pool.wf(),
            crate::chain::set_up(
                match r {
                    Ok(pool) => Some(pool@),
                    Err(_) => None,
                },
                block_len.value(),
                record_size as int,
                region,
            ),
    {
        let base: usize = match region {
            Some(base) => base,
            None => {
                return Err(AllocError);
            },
        };
        let block_len_bits = block_len.ilog2();
        let layout = Self::layout_for_pool(block_len);
        let asize = layout.size();
        let block = block_len.get();
        let bsize: usize = asize / block;
        let arena_size: usize = bsize / 8;
        proof {
            crate::chain::lemma_geometry(block as int);
            crate::chain::lemma_header_fits(block as int, record_size as int);
        }
        let aligned_start = block_len.ceil_to(arena_size + record_size);
        let next_ptr: usize = base + aligned_start;
        proof {
            vstd::bits::lemma_usize_shr_is_div(aligned_start, block_len_bits as usize);
            vstd::arithmetic::div_mod::lemma_div_multiples_vanish(
                crate::chain::header_slots(block as int, record_size as int),
                block as int,
            );
            vstd::arithmetic::mul::lemma_mul_is_commutative(
                crate::chain::header_slots(block as int, record_size as int),
                block as int,
            );
        }
        let len: usize = aligned_start >> block_len_bits;
        let mut arena = Arena::new(bsize / usize::BITS as usize);
        proof {
            vstd::arithmetic::div_mod::lemma_fundamental_div_mod(bsize as int, usize::BITS as int);
            vstd::arithmetic::mul::lemma_mul_is_commutative(
                usize::BITS as int,
                bsize as int / usize::BITS as int,
            );
        }
        arena.mark(0, len as u32);
        let this = Pool {
            base,
            total_size: asize,
            next_ptr,
            block_len_bits,
            record_size,
            arena,
            next: None,
        };
        proof {
            let want = PoolView::fresh(base as int, block as int, record_size as int);
            assert(this.arena@ =~= want.used);
            assert(this@ =~= seq![want]);
        }
        Ok(this)
    }

    /// The chain consists of this pool and the pools behind it.
    proof fn lemma_view(&self)
        ensures
            self@.len() == 1 + self.tail().len(),
            self@[0] == self.head(),
            self@.drop_first() == self.tail(),
            self.next matches Some(next) ==> self.tail() == next@,
            self.next is None ==> self@ == seq![self.head()],
    {
        assert(self@.drop_first() =~= self.tail());
        assert(self.next is None ==> self@ =~= seq![self.head()]);
    }

    /// What a chain of pools keeps.
    pub proof fn lemma_wf(&self)
        requires
            self.wf(),
        ensures
            crate::chain::chain_valid(self@),
    {
    }

    /// The pools behind this one are a chain of their own.
    proof fn lemma_tail_wf(&self)
        requires
            self.wf(),
        ensures
            self.next matches Some(next) ==> next.wf(),
    {
        self.lemma_view();
        if let Some(next) = self.next {
            next.lemma_view();
            crate::chain::lemma_chain_tail(self@);
        }
    }

    /// The size of the blocks.
    pub fn block_len(&self) -> (r: BlockSize)
        requires
            self.wf(),
        ensures
            r.value() == self@[0].block,
    {
        BlockSize::new_unchecked(self.block())
    }

    /// The size of a block in bytes.
    fn block(&self) -> (r: usize)
        requires
            self.wf(),
        ensures
            r == self@[0].block,
            r == self.head().block,
            BlockSize::valid(r as int),
            self.block_len_bits < usize::BITS,
            1usize << self.block_len_bits == r,
    {
        proof {
            self.lemma_view();
            crate::chain::lemma_small_exponent(self.block_len_bits);
            crate::bits::lemma_shl_one(self.block_len_bits);
        }
        1usize << self.block_len_bits
    }

    /// The pool behind this one.
    pub fn next_pool(&self) -> (r: Option<&Self>)
        requires
            self.wf(),
        ensures
            match r {
                Some(next) => {
                    &&& self@.len() > 1
                    &&& next.wf()
                    &&& next@ == self@.drop_first()
                },
                None => self@.len() == 1,
            },
    {
        proof {
            self.lemma_view();
            self.lemma_tail_wf();
        }
        match &self.next {
            Some(next) => {
                proof {
                    next.lemma_view();
                }
                Some(&**next)
            },
            None => None,
        }
    }

    /// Counts the blocks in use in this pool and those behind it.
    pub fn count_allocated(&self) -> (r: usize)
        requires
            self.wf(),
        ensures
            r == crate::chain::chain_used(self@),
        decreases self,
    {
        proof {
            self.lemma_view();
            self.lemma_tail_wf();
            crate::chain::lemma_chain_used_bound(self@);
            crate::chain::lemma_geometry(self@[0].block);
            assert(self@[0].valid());
            vstd::arithmetic::div_mod::lemma_div_is_ordered_by_denominator(
                self@[0].size(),
                1,
                self@[0].block,
            );
        }
        let val = self.arena.count();
        let rest: usize = match &self.next {
            Some(next) => next.count_allocated(),
            None => {
                assert(crate::chain::chain_used(self.tail()) == 0);
                0
            },
        };
        val + rest
    }

    /// The first pool from this one on whose region holds the block at `ptr`.
    pub fn find_alloc_for(&self, ptr: usize) -> (r: Option<&Self>)
        requires
            self.wf(),
        ensures
            match r {
                Some(pool) => {
                    &&& ptr as int % self@[0].block == 0
                    &&& crate::chain::chain_find(self@, ptr as int) is Some
                    &&& pool.wf()
                    &&& pool@ == self@.skip(crate::chain::chain_find(self@, ptr as int)->0)
                },
                None => ptr as int % self@[0].block != 0 || crate::chain::chain_find(self@, ptr as int) is None,
            },
        decreases self, 1nat,
    {
        let block = self.block();
        if ptr % block != 0 {
            return None;
        }
        self.find_alloc_for_impl(ptr)
    }

    fn find_alloc_for_impl(&self, ptr: usize) -> (r: Option<&Self>)
        requires
            self.wf(),
            ptr as int % self@[0].block == 0,
        ensures
            match r {
                Some(pool) => {
                    &&& crate::chain::chain_find(self@, ptr as int) is Some
                    &&& pool.wf()
                    &&& pool@ == self@.skip(crate::chain::chain_find(self@, ptr as int)->0)
                },
                None => crate::chain::chain_find(self@, ptr as int) is None,
            },
        decreases self, 0nat,
    {
        proof {
            self.lemma_view();
            self.lemma_tail_wf();
            assert(self@[0].valid());
            assert(self@.skip(0) =~= self@);
        }
        if self.base <= ptr && ptr < self.base + self.total_size {
            return Some(self);
        }
        match &self.next {
            Some(next) => {
                proof {
                    next.lemma_view();
                    assert(self@[1] == next@[0]);
                    if let Some(k) = crate::chain::chain_find(next@, ptr as int) {
                        crate::chain::lemma_chain_find(next@, ptr as int);
                        assert(self@.skip(k + 1) =~= next@.skip(k));
                    }
                }
                next.find_alloc_for(ptr)
            },
            None => {
                assert(self@.drop_first() =~= Seq::empty());
                None
            },
        }
    }
}

impl Pool {
    /// The address of the first block behind the header.
    pub fn first_block(&self) -> (r: usize)
        requires
            self.wf(),
        ensures
            r == self@[0].address(self@[0].header()),
    {
        proof {
            self.lemma_view();
        }
        self.next_ptr
    }

    /// Whether the `size` bytes at `base` lie apart from every region of the chain.
    pub fn lies_apart(&self, base: usize, size: usize) -> (r: bool)
        requires
            self.wf(),
            base + size <= usize::MAX,
        ensures
            r <==> forall|i: int|
                0 <= i < self@.len() ==> base + size <= (#[trigger] self@[i]).base || self@[i].end()
                    <= base,
        decreases self,
    {
        proof {
            self.lemma_view();
            self.lemma_tail_wf();
            assert(self@[0].valid());
        }
        let here: bool = base + size <= self.base || self.base + self.total_size <= base;
        let rest: bool = match &self.next {
            Some(next) => {
                proof {
                    assert forall|i: int| 0 <= i < next@.len() implies #[trigger] next@[i]
                        == self@[i + 1] by {}
                }
                next.lies_apart(base, size)
            },
            None => true,
        };
        assert forall|i: int| here && rest && 0 <= i < self@.len() implies base + size <= (
        #[trigger] self@[i]).base || self@[i].end() <= base by {
            if i > 0 {
                assert(self@[i] == self.tail()[i - 1]);
            }
        }
        proof {
            let tail = self.tail();
            if !rest {
                let i = choose|i: int|
                    0 <= i < tail.len() && !(base + size <= (#[trigger] tail[i]).base
                        || tail[i].end() <= base);
                assert(self@[i + 1] == tail[i]);
            }
        }
        here && rest
    }

    /// Takes `count` blocks of this very pool.
    fn take_here(&mut self, count: u32) -> (r: Option<usize>)
        requires
            old(self).wf(),
            count <= usize::BITS,
        ensures
            *final(self) == (Pool { arena: final(self).arena, ..*old(self) }),
            match old(self).head().place(count as int) {
                Some(at) => {
                    &&& r matches Some(p) && p == old(self).head().address(at)
                    &&& final(self).head() == old(self).head().with_run(at, at + count, true)
                },
                None => r is None && final(self).head() == old(self).head(),
            },
    {
        let block = self.block();
        let ghost head = self.head();
        proof {
            self.lemma_view();
            assert(self@[0].valid());
            crate::chain::lemma_geometry(head.block);
            crate::chain::lemma_header_fits(head.block, head.record);
            vstd::arithmetic::div_mod::lemma_div_is_ordered_by_denominator(
                head.size(),
                1,
                head.block,
            );
            vstd::arithmetic::div_mod::lemma_div_multiples_vanish(head.header(), head.block);
            vstd::arithmetic::mul::lemma_mul_is_commutative(head.header(), head.block);
            vstd::bits::lemma_usize_shr_is_div(
                (self.next_ptr - self.base) as usize,
                self.block_len_bits as usize,
            );
            crate::arena::lemma_least_fit(head.used, head.header(), count as int);
            crate::arena::lemma_least_fit(head.used, 0, count as int);
        }
        let start: usize = (self.next_ptr - self.base) >> self.block_len_bits;
        let found: Option<usize> = match self.arena.find_run(start, count) {
            Some(at) => Some(at),
            None => self.arena.find_run(0, count),
        };
        match found {
            Some(at) => {
                proof {
                    crate::arena::lemma_run_end(at as int, count as int);
                    assert(at * block <= head.size()) by (nonlinear_arith)
                        requires
                            at <= head.size() / head.block,
                            head.size() / head.block * head.block == head.size(),
                            block == head.block,
                            block > 0,
                    ;
                    vstd::bits::lemma_usize_shl_is_mul(at, self.block_len_bits as usize);
                }
                self.arena.mark(at, count);
                let offset: usize = at << self.block_len_bits;
                Some(self.base + offset)
            },
            None => None,
        }
    }

    /// Takes `count` blocks of the first pool of the chain that has room for them.
    fn take(&mut self, count: u32) -> (r: Option<usize>)
        requires
            old(self).wf(),
            count <= usize::BITS,
        ensures
            final(self).wf(),
            match crate::chain::chain_place(old(self)@, count as int) {
                Some((k, at)) => {
                    &&& r matches Some(p) && p == old(self)@[k].address(at)
                    &&& final(self)@ == old(self)@.update(
                        k,
                        old(self)@[k].with_run(at, at + count, true),
                    )
                },
                None => r is None && final(self)@ == old(self)@,
            },
        decreases *old(self),
    {
        proof {
            self.lemma_view();
            self.lemma_tail_wf();
            assert(self@[0].valid());
            crate::chain::lemma_place(self@[0], count as int);
        }
        let here = self.take_here(count);
        if here.is_some() {
            proof {
                self.lemma_view();
                let at = old(self).head().place(count as int)->0;
                let v = old(self)@[0].with_run(at, at + count, true);
                assert(self@ =~= old(self)@.update(0, v));
                crate::chain::lemma_chain_update(old(self)@, 0, v);
            }
            return here;
        }
        let ghost mid = *self;
        let r: Option<usize> = match &mut self.next {
            Some(next) => next.take(count),
            None => None,
        };
        proof {
            mid.lemma_view();
            self.lemma_view();
            if let Some(next) = mid.next {
                crate::chain::lemma_chain_place(next@, count as int);
                if let Some((k, at)) = crate::chain::chain_place(next@, count as int) {
                    let v = next@[k].with_run(at, at + count, true);
                    assert(old(self)@[k + 1] == next@[k]);
                    assert(self@ =~= old(self)@.update(k + 1, v));
                    crate::chain::lemma_chain_update(old(self)@, k + 1, v);
                } else {
                    assert(self@ =~= old(self)@);
                }
            } else {
                assert(crate::chain::chain_place(mid.tail(), count as int) is None);
                assert(self@ =~= old(self)@);
            }
        }
        r
    }

    /// Takes `count` adjacent blocks of the first pool of the chain that has room for them.
    ///
    /// In each pool the blocks are those of the lowest place behind the header, unless only an
    /// earlier place is free, and their bits lie in one word of the bitmap.
    pub fn try_allocate(&mut self, count: usize) -> (r: Attempt)
        requires
            old(self).wf(),
            count <= usize::BITS || count * old(self)@[0].block > old(self)@[0].size(),
        ensures
            final(self).wf(),
            r.answers(old(self)@, final(self)@, count as int),
    {
        let block = self.block();
        proof {
            self.lemma_view();
            assert(self@[0].valid());
        }
        let too_large: bool = match count.checked_mul(block) {
            Some(bytes) => bytes > self.total_size,
            None => true,
        };
        if too_large {
            return Attempt::Null;
        }
        match self.take(count as u32) {
            Some(ptr) => Attempt::Block(ptr),
            None => Attempt::Full,
        }
    }

    /// The pool behind this one. Where there is none yet, it is set up in a zeroed region that lies
    /// apart from this one, or it is reported that there was no region; where there is one, the
    /// region is not looked at.
    pub fn allocate_next(&mut self, region: Option<usize>) -> (r: Result<&Self, AllocError>)
        requires
            old(self).wf(),
            old(self)@.len() == 1 ==> (region matches Some(base) ==> crate::chain::region_joins(
                base as int,
                old(self)@[0].block,
                old(self)@,
            )),
        ensures
            final(self).wf(),
            crate::chain::next_provided(old(self)@, final(self)@, region, r is Ok),
            r matches Ok(next) ==> next.wf() && next@ == final(self)@.drop_first(),
    {
        proof {
            self.lemma_view();
            assert(self@[0].valid());
        }
        if self.next.is_none() {
            let block_len = self.block_len();
            match Self::allocate_pool(block_len, self.record_size, region) {
                Ok(pool) => {
                    self.next = Some(Box::new(pool));
                },
                Err(e) => {
                    return Err(e);
                },
            }
            proof {
                self.lemma_view();
                let v = PoolView::fresh(region->0 as int, old(self)@[0].block, old(self)@[0].record);
                assert(self@ =~= old(self)@.push(v));
                crate::chain::lemma_chain_push(old(self)@, region->0 as int);
            }
        }
        match self.next_pool() {
            Some(next) => Ok(next),
            None => Err(AllocError),
        }
    }

    /// Sets up one more pool at the end of the chain, in a zeroed region that lies apart from the
    /// others, or reports that there was none.
    pub fn extend(&mut self, region: Option<usize>) -> (r: Result<(), AllocError>)
        requires
            old(self).wf(),
            region matches Some(base) ==> crate::chain::region_joins(
                base as int,
                old(self)@[0].block,
                old(self)@,
            ),
        ensures
            final(self).wf(),
            crate::chain::extended(old(self)@, final(self)@, region, r is Ok),
        decreases *old(self),
    {
        proof {
            self.lemma_view();
            self.lemma_tail_wf();
            assert(self@[0].valid());
        }
        if self.next.is_none() {
            return match self.allocate_next(region) {
                Ok(_) => Ok(()),
                Err(e) => Err(e),
            };
        }
        let ghost mid = *self;
        let r: Result<(), AllocError> = match &mut self.next {
            Some(next) => {
                proof {
                    next.lemma_view();
                    assert(mid@[1] == next@[0]);
                    if let Some(base) = region {
                        assert forall|i: int|
                            0 <= i < next@.len() implies crate::chain::region_apart(
                            base as int,
                            next@[0].block,
                            #[trigger] next@[i],
                        ) by {
                            assert(mid@[i + 1] == next@[i]);
                        }
                    }
                }
                next.extend(region)
            },
            None => Err(AllocError),
        };
        proof {
            self.lemma_view();
            if let Some(base) = region {
                let v = PoolView::fresh(base as int, old(self)@[0].block, old(self)@[0].record);
                assert(self@ =~= old(self)@.push(v));
                crate::chain::lemma_chain_push(old(self)@, base as int);
            } else {
                assert(self@ =~= old(self)@);
            }
        }
        r
    }

    /// Gives back `count` adjacent blocks of this very pool, the first of them at `ptr`.
    pub fn mark_deallocated(&mut self, ptr: usize, count: usize)
        requires
            old(self).wf(),
            count <= usize::BITS,
            old(self)@[0].address(old(self)@[0].header()) <= ptr < old(self)@[0].end(),
        ensures
            final(self).wf(),
            final(self)@ == old(self)@.update(0, old(self)@[0].freed(ptr as int, count as int)),
            crate::chain::released(old(self)@, final(self)@, ptr as int, count as int),
    {
        let block = self.block();
        proof {
            self.lemma_view();
            assert(self@[0].valid());
            vstd::bits::lemma_usize_shr_is_div(
                (ptr - self.base) as usize,
                self.block_len_bits as usize,
            );
            crate::chain::lemma_freed(self@[0], ptr as int, count as int);
        }
        let slot: usize = (ptr - self.base) >> self.block_len_bits;
        self.arena.clear(slot, count as u32);
        proof {
            self.lemma_view();
            let v = old(self)@[0].freed(ptr as int, count as int);
            assert(self@ =~= old(self)@.update(0, v));
            crate::chain::lemma_chain_update(old(self)@, 0, v);
        }
    }

    /// Gives back `count` adjacent blocks of the pool of the chain that holds `ptr`.
    pub fn release(&mut self, ptr: usize, count: usize)
        requires
            old(self).wf(),
            count <= usize::BITS,
            crate::chain::chain_find(old(self)@, ptr as int) matches Some(k)
                && old(self)@[k].address(old(self)@[k].header()) <= ptr,
        ensures
            final(self).wf(),
            crate::chain::released(old(self)@, final(self)@, ptr as int, count as int),
        decreases *old(self),
    {
        proof {
            self.lemma_view();
            self.lemma_tail_wf();
            assert(self@[0].valid());
            crate::chain::lemma_chain_find(self@, ptr as int);
        }
        if self.base <= ptr && ptr < self.base + self.total_size {
            self.mark_deallocated(ptr, count);
            return ;
        }
        let ghost mid = *self;
        match &mut self.next {
            Some(next) => {
                proof {
                    next.lemma_view();
                    crate::chain::lemma_chain_find(next@, ptr as int);
                    let k = crate::chain::chain_find(next@, ptr as int)->0;
                    assert(mid@[k + 1] == next@[k]);
                    assert(mid@[k + 1].valid());
                    crate::chain::lemma_freed(next@[k], ptr as int, count as int);
                    crate::chain::lemma_chain_update(
                        mid@,
                        k + 1,
                        next@[k].freed(ptr as int, count as int),
                    );
                }
                next.release(ptr, count);
            },
            None => {
                assert(crate::chain::chain_find(mid.tail(), ptr as int) is None);
            },
        }
        proof {
            self.lemma_view();
            let k = crate::chain::chain_find(old(self)@, ptr as int)->0;
            assert(self@ =~= old(self)@.update(
                k,
                old(self)@[k].freed(ptr as int, count as int),
            ));
        }
    }

    /// The regions of the chain in the order in which they are to be given up: the last one first.
    pub fn regions(&self) -> (r: Vec<Region>)
        requires
            self.wf(),
        ensures
            r@.len() == self@.len(),
            forall|i: int|
                0 <= i < r@.len() ==> (#[trigger] r@[i]).is_of(self@[self@.len() - 1 - i]),
        decreases self,
    {
        proof {
            self.lemma_view();
            self.lemma_tail_wf();
            assert(self@[0].valid());
        }
        let layout = Self::layout_for_pool(self.block_len());
        let mut regions: Vec<Region> = match &self.next {
            Some(next) => {
                proof {
                    next.lemma_view();
                    assert(self@[1] == next@[0]);
                }
                next.regions()
            },
            None => Vec::new(),
        };
        let ghost before = regions@;
        regions.push(Region { base: self.base, layout });
        assert forall|i: int| 0 <= i < regions@.len() implies (#[trigger] regions@[i]).is_of(
            self@[self@.len() - 1 - i],
        ) by {
            if i < before.len() {
                assert(regions@[i] == before[i]);
                assert(self@[self@.len() - 1 - i] == self.tail()[self.tail().len() - 1 - i]);
            }
        }
        regions
    }
}

} // verus!
