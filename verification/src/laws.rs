//! What holds of the allocator across calls.
use vstd::prelude::*;

use crate::alloc_view::{AllocView, Loan};
use crate::block_size::{BlockSize, MIN_POOL_SIZE, POOL_SCALE};
use crate::chain::{PoolView, PAGE_SIZE};
use crate::pooled_alloc::AllocStep;

verus! {

/// A pool has at least the least pool size, and at least as many blocks as the pool scale.
pub proof fn law_pool_size(block: int)
    requires
        BlockSize::valid(block),
    ensures
        BlockSize::pool_size(block) >= MIN_POOL_SIZE,
        BlockSize::pool_size(block) / block >= POOL_SCALE,
{
    crate::chain::lemma_geometry(block);
}

/// The blocks that a chain gives out lie behind the header of one pool and in its region, at a
/// multiple of the block size from its start.
pub proof fn law_blocks_lie_in_region(chain: Seq<PoolView>, count: int)
    requires
        crate::chain::chain_valid(chain),
        0 < count,
    ensures
        crate::chain::chain_place(chain, count) matches Some((k, at)) ==> {
            let pool = chain[k];
            &&& 0 <= k < chain.len()
            &&& pool.address(pool.header()) <= pool.address(at)
            &&& pool.address(at) + count * pool.block <= pool.end()
        },
{
    crate::chain::lemma_chain_place(chain, count);
    if let Some((k, at)) = crate::chain::chain_place(chain, count) {
        let pool = chain[k];
        assert(pool.valid());
        lemma_slot_range(pool, at, count);
        assert(pool.header() * pool.block <= at * pool.block) by (nonlinear_arith)
            requires
                pool.header() <= at,
                pool.block > 0,
        ;
    }
}

/// A run of blocks of a pool lies in its region.
proof fn lemma_slot_range(pool: PoolView, at: int, count: int)
    requires
        pool.valid(),
        0 <= at,
        0 <= count,
        at + count <= pool.used.len(),
    ensures
        pool.base <= pool.address(at),
        pool.address(at) + count * pool.block == pool.address(at + count),
        pool.address(at + count) <= pool.end(),
        pool.slot_of(pool.address(at)) == at,
{
    crate::chain::lemma_geometry(pool.block);
    let n = pool.size() / pool.block;
    let b = pool.block;
    assert(at * b + count * b == (at + count) * b) by (nonlinear_arith);
    assert((at + count) * b <= n * b && 0 <= at * b) by (nonlinear_arith)
        requires
            0 <= at,
            at + count <= n,
            b > 0,
    ;
    vstd::arithmetic::div_mod::lemma_div_multiples_vanish(at, b);
    vstd::arithmetic::mul::lemma_mul_is_commutative(at, b);
}

/// The blocks that a chain gives out overlap no block that is in use.
pub proof fn law_blocks_were_free(chain: Seq<PoolView>, count: int, i: int, slot: int)
    requires
        crate::chain::chain_valid(chain),
        0 < count,
        0 <= i < chain.len(),
        0 <= slot < chain[i].used.len(),
        chain[i].used[slot],
    ensures
        crate::chain::chain_place(chain, count) matches Some((k, at)) ==> {
            ||| chain[k].address(at) + count * chain[k].block <= chain[i].address(slot)
            ||| chain[i].address(slot) + chain[i].block <= chain[k].address(at)
        },
{
    crate::chain::lemma_chain_place(chain, count);
    if let Some((k, at)) = crate::chain::chain_place(chain, count) {
        assert(chain[i].valid());
        assert(chain[k].valid());
        lemma_slot_range(chain[k], at, count);
        lemma_slot_range(chain[i], slot, 1);
        if i < k {
            assert(chain[i].apart(chain[k]));
        } else if k < i {
            assert(chain[k].apart(chain[i]));
        } else {
            let b = chain[k].block;
            assert(slot < at || at + count <= slot);
            assert((slot + 1) * b <= at * b || (at + count) * b <= slot * b) by (nonlinear_arith)
                requires
                    slot + 1 <= at || at + count <= slot,
                    b > 0,
            ;
        }
    }
}

/// Giving back the blocks that a chain has given out finds them in the pool that they were taken
/// from, and leaves the chain as it was before.
pub proof fn law_release_undoes_take(chain: Seq<PoolView>, count: int)
    requires
        crate::chain::chain_valid(chain),
        0 < count,
    ensures
        crate::chain::chain_place(chain, count) matches Some((k, at)) ==> {
            let ptr = chain[k].address(at);
            let taken = chain.update(k, chain[k].with_run(at, at + count, true));
            &&& crate::chain::chain_find(taken, ptr) == Some(k)
            &&& taken[k].address(taken[k].header()) <= ptr
            &&& taken.update(k, taken[k].freed(ptr, count)) == chain
        },
{
    crate::chain::lemma_chain_place(chain, count);
    if let Some((k, at)) = crate::chain::chain_place(chain, count) {
        law_blocks_lie_in_region(chain, count);
        let pool = chain[k];
        assert(pool.valid());
        let ptr = pool.address(at);
        let v = pool.with_run(at, at + count, true);
        let taken = chain.update(k, v);
        crate::chain::lemma_chain_update(chain, k, v);
        lemma_slot_range(pool, at, count);
        assert(count * pool.block > 0) by (nonlinear_arith)
            requires
                count > 0,
                pool.block > 0,
        ;
        lemma_find_unique(taken, ptr, k);
        crate::arena::lemma_run_end(at, count);
        assert(v.freed(ptr, count).used =~= pool.used);
        assert(taken.update(k, taken[k].freed(ptr, count)) =~= chain);
    }
}

/// In a chain, only one region holds an address.
proof fn lemma_find_unique(chain: Seq<PoolView>, ptr: int, k: int)
    requires
        crate::chain::chain_valid(chain),
        0 <= k < chain.len(),
        chain[k].contains(ptr),
    ensures
        crate::chain::chain_find(chain, ptr) == Some(k),
{
    crate::chain::lemma_chain_find(chain, ptr);
    if let Some(i) = crate::chain::chain_find(chain, ptr) {
        if i < k {
            assert(chain[i].apart(chain[k]));
        } else if k < i {
            assert(chain[k].apart(chain[i]));
        }
    }
}

/// The number of used slots after a free run has been marked.
proof fn lemma_count_run(used: Seq<bool>, at: int, count: int)
    requires
        0 <= at,
        0 <= count,
        at + count <= used.len(),
        forall|i: int| at <= i < at + count ==> !#[trigger] used[i],
    ensures
        crate::arena::used_count(crate::arena::with_run(used, at, at + count, true))
            == crate::arena::used_count(used) + count,
    decreases used.len(),
{
    let marked = crate::arena::with_run(used, at, at + count, true);
    if used.len() == 0 {
        assert(marked =~= used);
    } else {
        let n = used.len() - 1;
        let shorter = used.drop_last();
        if at + count <= n {
            lemma_count_run(shorter, at, count);
            assert(marked.drop_last() =~= crate::arena::with_run(
                shorter,
                at,
                at + count,
                true,
            ));
        } else if count > 0 {
            lemma_count_run(shorter, at, count - 1);
            assert(marked.drop_last() =~= crate::arena::with_run(
                shorter,
                at,
                at + count - 1,
                true,
            ));
        } else {
            assert(marked =~= used);
        }
    }
}

/// The number of used blocks of a chain after one pool of it has changed.
proof fn lemma_count_update(chain: Seq<PoolView>, k: int, pool: PoolView)
    requires
        0 <= k < chain.len(),
    ensures
        crate::chain::chain_used(chain.update(k, pool)) + crate::arena::used_count(chain[k].used)
            == crate::chain::chain_used(chain) + crate::arena::used_count(pool.used),
    decreases chain.len(),
{
    let t = chain.drop_first();
    if k == 0 {
        assert(chain.update(0, pool).drop_first() =~= t);
    } else {
        lemma_count_update(t, k - 1, pool);
        assert(chain.update(k, pool).drop_first() =~= t.update(k - 1, pool));
        assert(t[k - 1] == chain[k]);
    }
}

/// Giving out blocks raises the number of blocks in use by as many.
pub proof fn law_count_after_take(chain: Seq<PoolView>, count: int)
    requires
        crate::chain::chain_valid(chain),
        0 <= count,
    ensures
        crate::chain::chain_place(chain, count) matches Some((k, at)) ==> {
            let taken = chain.update(k, chain[k].with_run(at, at + count, true));
            crate::chain::chain_used(taken) == crate::chain::chain_used(chain) + count
        },
{
    crate::chain::lemma_chain_place(chain, count);
    if let Some((k, at)) = crate::chain::chain_place(chain, count) {
        lemma_count_run(chain[k].used, at, count);
        lemma_count_update(chain, k, chain[k].with_run(at, at + count, true));
    }
}

/// A fresh pool has its header in use and nothing else.
pub proof fn law_count_of_fresh_pool(base: int, block: int, record: int)
    requires
        BlockSize::valid(block),
        0 <= record,
        crate::chain::header_slots(block, record) < usize::BITS,
    ensures
        crate::chain::chain_used(seq![PoolView::fresh(base, block, record)])
            == crate::chain::header_slots(block, record),
{
    crate::chain::lemma_geometry(block);
    crate::chain::lemma_header_fits(block, record);
    let pool = PoolView::fresh(base, block, record);
    let blank: Seq<bool> = Seq::new(pool.used.len(), |i: int| false);
    let h = crate::chain::header_slots(block, record);
    lemma_count_run(blank, 0, h);
    assert(crate::arena::with_run(blank, 0, h, true) =~= pool.used);
    lemma_count_blank(blank);
    let chain = seq![pool];
    assert(chain.drop_first() =~= Seq::empty());
    assert(crate::chain::chain_used(chain.drop_first()) == 0);
}

proof fn lemma_count_blank(used: Seq<bool>)
    requires
        forall|i: int| 0 <= i < used.len() ==> !#[trigger] used[i],
    ensures
        crate::arena::used_count(used) == 0,
    decreases used.len(),
{
    if used.len() > 0 {
        lemma_count_blank(used.drop_last());
    }
}

/// A fresh pool has room for any number of blocks that a bitmap word can hold.
pub proof fn law_fresh_pool_has_room(base: int, block: int, record: int, count: int)
    requires
        BlockSize::valid(block),
        0 <= record,
        crate::chain::header_slots(block, record) < usize::BITS,
        0 <= count <= usize::BITS,
    ensures
        PoolView::fresh(base, block, record).place(count) is Some,
{
    crate::chain::lemma_geometry(block);
    crate::chain::lemma_header_fits(block, record);
    let pool = PoolView::fresh(base, block, record);
    let second = usize::BITS as int;
    vstd::arithmetic::div_mod::lemma_fundamental_div_mod_converse(second, second, 1, 0);
    assert(crate::arena::fits(pool.used, second, count));
    crate::arena::lemma_least_fit(pool.used, pool.header(), count);
}

/// A chain without room has room once a fresh pool has joined it, and the blocks then come from
/// that pool.
pub proof fn law_grown_chain_has_room(chain: Seq<PoolView>, base: int, count: int)
    requires
        crate::chain::chain_valid(chain),
        crate::chain::region_joins(base, chain[0].block, chain),
        0 <= count <= usize::BITS,
        crate::chain::chain_place(chain, count) is None,
    ensures
        crate::chain::chain_place(
            chain.push(PoolView::fresh(base, chain[0].block, chain[0].record)),
            count,
        ) matches Some((k, at)) && k == chain.len(),
{
    let pool = PoolView::fresh(base, chain[0].block, chain[0].record);
    assert(chain[0].valid());
    law_fresh_pool_has_room(base, chain[0].block, chain[0].record, count);
    crate::chain::lemma_chain_place(chain, count);
    crate::chain::lemma_chain_push(chain, base);
    crate::chain::lemma_chain_place(chain.push(pool), count);
    if let Some((k, at)) = crate::chain::chain_place(chain.push(pool), count) {
        if k < chain.len() {
            assert(chain.push(pool)[k] == chain[k]);
            assert(chain[k].place(count) is None);
        }
    } else {
        assert(chain.push(pool)[chain.len() as int].place(count) is None);
    }
}

/// Giving back blocks that are in use lowers the number of blocks in use by as many.
pub proof fn law_count_after_release(chain: Seq<PoolView>, k: int, at: int, count: int)
    requires
        crate::chain::chain_valid(chain),
        0 <= k < chain.len(),
        0 <= at < chain[k].used.len(),
        0 <= count,
        at % (usize::BITS as int) + count <= usize::BITS,
        at + count <= chain[k].used.len(),
        forall|i: int| at <= i < at + count ==> #[trigger] chain[k].used[i],
    ensures
        ({
            let left = chain.update(k, chain[k].freed(chain[k].address(at), count));
            crate::chain::chain_used(left) + count == crate::chain::chain_used(chain)
        }),
{
    let pool = chain[k];
    assert(pool.valid());
    lemma_slot_range(pool, at, count);
    crate::arena::lemma_run_end(at, count);
    let freed = pool.freed(pool.address(at), count);
    lemma_count_run(freed.used, at, count);
    assert(crate::arena::with_run(freed.used, at, at + count, true) =~= pool.used);
    lemma_count_update(chain, k, freed);
}

/// Powers of two divide each other in order.
proof fn lemma_pow2_divides(a: int, b: int)
    requires
        vstd::arithmetic::power2::is_pow2(a),
        vstd::arithmetic::power2::is_pow2(b),
        0 < a <= b <= usize::MAX,
    ensures
        b % a == 0,
{
    let j = crate::bits::lemma_exponent(a as usize);
    let k = crate::bits::lemma_exponent(b as usize);
    if k < j {
        vstd::arithmetic::power2::lemma_pow2_strictly_increases(k as nat, j as nat);
    }
    let q = vstd::arithmetic::power2::pow2((k - j) as nat) as int;
    vstd::arithmetic::power2::lemma_pow2_adds(j as nat, (k - j) as nat);
    vstd::arithmetic::mul::lemma_mul_is_commutative(a, q);
    vstd::arithmetic::div_mod::lemma_mod_multiples_basic(q, a);
}

/// The number of blocks that hold a request is the same before and after padding.
proof fn lemma_padded_count(size: int, align: int, block: int)
    requires
        0 <= size,
        0 < align,
        0 < block,
        block % align == 0,
    ensures
        crate::block_size::ceil_quotient(
            crate::block_size::ceil_multiple(size, align),
            block,
        ) == crate::block_size::ceil_quotient(size, block),
{
    let w = crate::block_size::ceil_multiple(size, align);
    let p = crate::block_size::ceil_quotient(size, align);
    let q = crate::block_size::ceil_quotient(size, block);
    let m = block / align;
    crate::block_size::lemma_ceil_multiple(size, align);
    crate::block_size::lemma_ceil_multiple(size, block);
    vstd::arithmetic::div_mod::lemma_fundamental_div_mod(block, align);
    assert(q * block == (q * m) * align) by (nonlinear_arith)
        requires
            block == align * m,
    ;
    assert(p <= q * m) by (nonlinear_arith)
        requires
            p * align < size + align,
            size <= (q * m) * align,
            align > 0,
    ;
    assert(w <= q * block) by (nonlinear_arith)
        requires
            w == p * align,
            q * block == (q * m) * align,
            p <= q * m,
            align > 0,
    ;
    assert(q * block - block < w);
    vstd::arithmetic::div_mod::lemma_fundamental_div_mod_converse(
        w + block - 1,
        block,
        q,
        w + block - 1 - q * block,
    );
}

/// Sizes that fill the same blocks take the same number of blocks.
proof fn lemma_same_count(least: int, size: int, block: int)
    requires
        0 < block,
        0 <= least <= size <= crate::block_size::ceil_multiple(least, block),
    ensures
        crate::block_size::ceil_quotient(size, block) == crate::block_size::ceil_quotient(
            least,
            block,
        ),
{
    let n = crate::block_size::ceil_quotient(least, block);
    crate::block_size::lemma_ceil_multiple(least, block);
    vstd::arithmetic::div_mod::lemma_fundamental_div_mod_converse(
        size + block - 1,
        block,
        n,
        size + block - 1 - n * block,
    );
}

/// The pool that serves a padded request has blocks that are aligned enough.
pub proof fn lemma_served_align(size: int, align: int)
    requires
        vstd::arithmetic::power2::is_pow2(align),
        0 < align <= PAGE_SIZE,
        0 < size,
        ({
            let padded = crate::block_size::ceil_multiple(size, align);
            crate::size_class::request_class(padded, align) < crate::size_class::class_count()
        }),
    ensures
        ({
            let padded = crate::block_size::ceil_multiple(size, align);
            let c = crate::size_class::request_class(padded, align);
            let block = crate::size_class::class_block(c);
            &&& 0 <= c
            &&& size <= padded < PAGE_SIZE
            &&& 0 < align <= block
            &&& block % align == 0
            &&& PAGE_SIZE as int % block == 0
            &&& 0 <= crate::size_class::align_class(align) <= c
            &&& crate::alloc_view::block_count(padded, c) == crate::block_size::ceil_quotient(
                size,
                block,
            )
        }),
{
    let padded = crate::block_size::ceil_multiple(size, align);
    let c = crate::size_class::request_class(padded, align);
    let block = crate::size_class::class_block(c);
    crate::block_size::lemma_ceil_multiple(size, align);
    let n = crate::block_size::ceil_quotient(size, align);
    assert(align <= padded) by (nonlinear_arith)
        requires
            padded == n * align,
            padded > 0,
            align > 0,
    ;
    crate::size_class::lemma_class_blocks();
    crate::size_class::lemma_class_valid(c);
    lemma_pow2_divides(align, block);
    lemma_padded_count(size, align, block);
    vstd::arithmetic::power2::lemma2_to64();
    vstd::arithmetic::power2::lemma_pow2(12);
    vstd::arithmetic::power2::is_pow2_equiv(4096);
    lemma_pow2_divides(block, 4096);
}

/// What is known where a request was served from a pool.
proof fn lemma_served(
    pre: AllocView,
    post: AllocView,
    size: int,
    align: int,
    zero: bool,
    r: AllocStep,
) -> (s: (int, int, int, int))
    requires
        pre.valid(),
        vstd::arithmetic::power2::is_pow2(align),
        0 < align,
        0 < size,
        r is Done,
        r.answers(pre, post, size, align, zero),
    ensures
        ({
            let (c, k, at, n) = s;
            let pool = pre.chains[c][k];
            &&& c == crate::size_class::request_class(
                crate::block_size::ceil_multiple(size, align),
                align,
            )
            &&& 0 <= c < pre.chains.len()
            &&& 0 <= k < pre.chains[c].len()
            &&& pre.chain_ok(c)
            &&& n == crate::block_size::ceil_quotient(size, crate::size_class::class_block(c))
            &&& 0 < n <= 4
            &&& crate::chain::chain_place(pre.chains[c], n) == Some((k, at))
            &&& pool.valid()
            &&& pool.block == crate::size_class::class_block(c)
            &&& pool.header() <= at
            &&& crate::arena::fits(pool.used, at, n)
            &&& post == pre.with_chain(
                c,
                pre.chains[c].update(k, pool.with_run(at, at + n, true)),
            )
            &&& post.valid()
            &&& r->addr == pool.address(at)
            &&& r->len == n * pool.block
        }),
{
    let padded = crate::block_size::ceil_multiple(size, align);
    let c = crate::size_class::request_class(padded, align);
    let n = crate::alloc_view::block_count(padded, c);
    lemma_served_align(size, align);
    crate::alloc_view::lemma_block_count(padded, align);
    assert(pre.chain_ok(c));
    crate::chain::lemma_chain_place(pre.chains[c], n);
    let (k, at) = crate::chain::chain_place(pre.chains[c], n)->0;
    assert(pre.chains[c][k].block == pre.chains[c][0].block);
    crate::alloc_view::lemma_update_pool(
        pre,
        c,
        k,
        pre.chains[c][k].with_run(at, at + n, true),
    );
    (c, k, at, n)
}

/// Memory from a pool is as large and as aligned as was asked for, and is lent from then on.
pub proof fn law_memory_fits(
    pre: AllocView,
    post: AllocView,
    size: int,
    align: int,
    zero: bool,
    r: AllocStep,
) -> (loan: Loan)
    requires
        pre.valid(),
        vstd::arithmetic::power2::is_pow2(align),
        0 < align,
        0 < size,
        r is Done,
        r.answers(pre, post, size, align, zero),
    ensures
        size <= r->len,
        r->addr > 0,
        r->addr as int % align == 0,
        r->zero == zero,
        post.valid(),
        post.lends(loan),
        loan.addr == r->addr,
        loan.size == size,
        loan.align == align,
        loan.len() == r->len,
{
    let (c, k, at, n) = lemma_served(pre, post, size, align, zero, r);
    let pool = pre.chains[c][k];
    let block = pool.block;
    lemma_served_align(size, align);
    lemma_slot_range(pool, at, n);
    crate::block_size::lemma_ceil_multiple(size, block);
    lemma_multiple_of_block(pool, at, align);
    let loan = Loan { addr: r->addr as int, size, align, pool: k, at };
    assert(post.is_run(c, k, at, n, r->addr as int, r->len as int));
    loan
}

/// The address of a block is a multiple of what divides both the page size and the block size.
pub proof fn lemma_multiple_of_block(pool: PoolView, at: int, unit: int)
    requires
        pool.valid(),
        0 < unit,
        pool.block % unit == 0,
        PAGE_SIZE as int % pool.block == 0,
    ensures
        pool.address(at) % unit == 0,
{
    let q = pool.base / PAGE_SIZE as int;
    let p = PAGE_SIZE as int / pool.block;
    let m = pool.block / unit;
    vstd::arithmetic::div_mod::lemma_fundamental_div_mod(pool.base, PAGE_SIZE as int);
    vstd::arithmetic::div_mod::lemma_fundamental_div_mod(PAGE_SIZE as int, pool.block);
    vstd::arithmetic::div_mod::lemma_fundamental_div_mod(pool.block, unit);
    let page = PAGE_SIZE as int;
    assert(pool.address(at) == ((q * p + at) * m) * unit) by (nonlinear_arith)
        requires
            pool.address(at) == pool.base + at * pool.block,
            pool.base == page * q,
            page == pool.block * p,
            pool.block == unit * m,
    ;
    vstd::arithmetic::div_mod::lemma_mod_multiples_basic((q * p + at) * m, unit);
}

/// Memory from a pool overlaps no memory that was lent before, and that memory stays lent.
pub proof fn law_memory_lies_apart(
    pre: AllocView,
    post: AllocView,
    size: int,
    align: int,
    zero: bool,
    r: AllocStep,
    loan: Loan,
)
    requires
        pre.valid(),
        vstd::arithmetic::power2::is_pow2(align),
        0 < align,
        0 < size,
        r is Done,
        r.answers(pre, post, size, align, zero),
        pre.lends(loan),
    ensures
        r->addr + r->len <= loan.addr || loan.addr + loan.len() <= r->addr,
        post.lends(loan),
{
    let (c, k, at, n) = lemma_served(pre, post, size, align, zero, r);
    let (d, j, from, m) = (loan.class(), loan.pool, loan.at, loan.count());
    assert(pre.chain_ok(d));
    let here = pre.chains[c][k];
    let there = pre.chains[d][j];
    assert(there.valid());
    lemma_slot_range(here, at, n);
    lemma_slot_range(there, from, m);
    crate::chain::lemma_header_fits(there.block, there.record);
    assert(post.is_run(d, j, from, m, loan.addr, loan.len()));
    if c != d {
        crate::alloc_view::lemma_chains_apart(pre, c, d);
        assert(here.apart(there));
    } else if k < j {
        assert(here.apart(there));
    } else if j < k {
        assert(there.apart(here));
    } else {
        if at < from + m && from < at + n {
            let both = if at < from {
                from
            } else {
                at
            };
            assert(here.used[both]);
            assert(false);
        }
        assert((at + n) * here.block <= from * here.block || (from + m) * here.block <= at
            * here.block) by (nonlinear_arith)
            requires
                at + n <= from || from + m <= at,
                here.block > 0,
        ;
    }
}

/// Memory from a pool belongs to that pool, can be given back with any size from the one that was
/// asked for up to the one that was handed out, and leaves the pools as they were before when it
/// is.
pub proof fn law_deallocate_undoes_allocate(
    pre: AllocView,
    post: AllocView,
    size: int,
    align: int,
    zero: bool,
    r: AllocStep,
    given: int,
)
    requires
        pre.valid(),
        vstd::arithmetic::power2::is_pow2(align),
        0 < align,
        0 < size,
        r is Done,
        r.answers(pre, post, size, align, zero),
        size <= given <= r->len,
    ensures
        post.owner(r->addr as int, align) == Some(
            crate::size_class::request_class(
                crate::block_size::ceil_multiple(size, align),
                align,
            ),
        ),
        post.may_free(r->addr as int, given, align),
        post.freed(r->addr as int, given, align) == pre,
{
    let (c, k, at, n) = lemma_served(pre, post, size, align, zero, r);
    let addr = r->addr as int;
    lemma_served_align(size, align);
    lemma_same_count(size, given, pre.chains[c][k].block);
    law_release_undoes_take(pre.chains[c], n);
    assert(pre.chains[c][k].block % pre.chains[c][k].block == 0);
    lemma_multiple_of_block(pre.chains[c][k], at, pre.chains[c][k].block);
    assert(post.holds(c, addr));
    crate::alloc_view::lemma_holder(post, crate::size_class::align_class(align), addr, c);
    assert(post.freed(addr, given, align).chains =~= pre.chains);
}

/// Memory that a request was forwarded for belongs to no pool, since it lies outside of all
/// regions, and so goes back to the page allocator. The layout is the same both times where the
/// size is a multiple of the alignment.
pub proof fn law_forwarded_memory_goes_back(
    pre: AllocView,
    post: AllocView,
    size: int,
    align: int,
    zero: bool,
    r: AllocStep,
    later: AllocView,
    addr: int,
)
    requires
        pre.valid(),
        vstd::arithmetic::power2::is_pow2(align),
        0 < align,
        0 < size,
        r is Forward,
        r.answers(pre, post, size, align, zero),
        later.valid(),
        forall|c: int, k: int|
            0 <= c < later.chains.len() && 0 <= k < later.chains[c].len()
                ==> !(#[trigger] later.chains[c][k]).contains(addr),
    ensures
        later.owner(addr, align) is None,
        later.may_free(addr, size, align),
        r->Forward_0.alignment() == align,
        size % align == 0 ==> r->Forward_0.bytes() == size,
{
    crate::alloc_view::lemma_owner(later, addr, align);
    if size % align == 0 {
        let q = size / align;
        vstd::arithmetic::div_mod::lemma_fundamental_div_mod(size, align);
        vstd::arithmetic::mul::lemma_mul_is_commutative(align, q);
        assert(size + align - 1 == q * align + (align - 1));
        vstd::arithmetic::div_mod::lemma_fundamental_div_mod_converse(
            size + align - 1,
            align,
            q,
            align - 1,
        );
    }
}

/// Lent memory stays lent when other memory is given back.
pub proof fn law_deallocate_keeps_other_memory(
    state: AllocView,
    ptr: int,
    size: int,
    align: int,
    loan: Loan,
)
    requires
        state.valid(),
        0 < align,
        0 < size,
        state.may_free(ptr, size, align),
        state.lends(loan),
        state.owner(ptr, align) matches Some(c) ==> {
            ||| ptr + crate::alloc_view::block_bytes(size, c) <= loan.addr
            ||| loan.addr + loan.len() <= ptr
        },
    ensures
        state.freed(ptr, size, align).lends(loan),
{
    let post = state.freed(ptr, size, align);
    let (d, j, from, m) = (loan.class(), loan.pool, loan.at, loan.count());
    if let Some(c) = state.owner(ptr, align) {
        crate::alloc_view::lemma_owner(state, ptr, align);
        let k = crate::chain::chain_find(state.chains[c], ptr)->0;
        let pool = state.chains[c][k];
        let count = crate::block_size::ceil_quotient(size, pool.block);
        let at = pool.slot_of(ptr);
        if c == d && k == j {
            lemma_slot_range(pool, from, m);
            vstd::arithmetic::div_mod::lemma_fundamental_div_mod(ptr - pool.base, pool.block);
            lemma_block_multiple(state, c, k, ptr);
            assert(at + count <= from || from + m <= at) by (nonlinear_arith)
                requires
                    ptr - pool.base == pool.block * at,
                    ptr + count * pool.block <= pool.base + from * pool.block || pool.base + (from
                        + m) * pool.block <= ptr,
                    pool.block > 0,
            ;
        }
    }
    assert(post.is_run(d, j, from, m, loan.addr, loan.len()));
}

/// Lent memory belongs to the pool that it was taken from, in every later state in which it is
/// still out. It can be given back with any size from the one that was asked for up to the one that
/// was handed out, and exactly its blocks go free then.
pub proof fn law_lent_memory_goes_back(state: AllocView, loan: Loan, size: int)
    requires
        state.valid(),
        state.lends(loan),
        loan.size <= size <= loan.len(),
    ensures
        state.owner(loan.addr, loan.align) == Some(loan.class()),
        state.may_free(loan.addr, size, loan.align),
        ({
            let c = loan.class();
            let chain = state.chains[c];
            let left = chain.update(
                loan.pool,
                chain[loan.pool].with_run(loan.at, loan.at + loan.count(), false),
            );
            &&& state.freed(loan.addr, size, loan.align) == state.with_chain(c, left)
            &&& crate::chain::chain_used(left) + loan.count() == crate::chain::chain_used(chain)
        }),
{
    let (c, k, at, n) = (loan.class(), loan.pool, loan.at, loan.count());
    assert(state.chain_ok(c));
    let chain = state.chains[c];
    let pool = chain[k];
    assert(pool.valid());
    assert(pool.block == chain[0].block);
    lemma_served_align(loan.size, loan.align);
    crate::alloc_view::lemma_block_count(loan.padded(), loan.align);
    lemma_same_count(loan.size, size, pool.block);
    crate::chain::lemma_header_fits(pool.block, pool.record);
    lemma_slot_range(pool, at, n);
    assert(n * pool.block > 0) by (nonlinear_arith)
        requires
            n > 0,
            pool.block > 0,
    ;
    assert(pool.header() * pool.block <= at * pool.block) by (nonlinear_arith)
        requires
            pool.header() <= at,
            pool.block > 0,
    ;
    lemma_find_unique(chain, loan.addr, k);
    assert(pool.block % pool.block == 0);
    lemma_multiple_of_block(pool, at, pool.block);
    assert(state.holds(c, loan.addr));
    crate::alloc_view::lemma_holder(
        state,
        crate::size_class::align_class(loan.align),
        loan.addr,
        c,
    );
    crate::arena::lemma_run_end(at, n);
    law_count_after_release(chain, k, at, n);
}

/// Lent memory stays lent when other lent memory is given back.
pub proof fn law_other_loans_stay(state: AllocView, gone: Loan, kept: Loan, size: int)
    requires
        state.valid(),
        state.lends(gone),
        state.lends(kept),
        gone.apart(kept),
        gone.size <= size <= gone.len(),
    ensures
        state.freed(gone.addr, size, gone.align).lends(kept),
{
    law_lent_memory_goes_back(state, gone, size);
    lemma_served_align(gone.size, gone.align);
    crate::size_class::lemma_class_valid(gone.class());
    lemma_same_count(gone.size, size, crate::size_class::class_block(gone.class()));
    law_deallocate_keeps_other_memory(state, gone.addr, size, gone.align, kept);
}

/// An address of a default pool that is a multiple of the block size starts a block.
proof fn lemma_block_multiple(state: AllocView, c: int, k: int, ptr: int)
    requires
        state.valid(),
        0 <= c < state.chains.len(),
        0 <= k < state.chains[c].len(),
        ptr % crate::size_class::class_block(c) == 0,
        state.chains[c][k].contains(ptr),
    ensures
        (ptr - state.chains[c][k].base) % state.chains[c][k].block == 0,
{
    assert(state.chain_ok(c));
    let pool = state.chains[c][k];
    assert(pool.valid());
    crate::size_class::lemma_class_blocks();
    crate::size_class::lemma_class_valid(c);
    assert(pool.block == state.chains[c][0].block);
    vstd::arithmetic::power2::lemma2_to64();
    vstd::arithmetic::power2::lemma_pow2(12);
    vstd::arithmetic::power2::is_pow2_equiv(4096);
    lemma_pow2_divides(pool.block, 4096);
    assert(pool.block % pool.block == 0);
    lemma_multiple_of_block(pool, 0, pool.block);
    assert(pool.address(0) == pool.base);
    vstd::arithmetic::div_mod::lemma_sub_mod_noop(ptr, pool.base, pool.block);
    vstd::arithmetic::div_mod::lemma_small_mod(0, pool.block as nat);
}

/// Lent memory stays lent when a region joins a chain.
pub proof fn law_new_region_keeps_memory(
    state: AllocView,
    class: int,
    pool: PoolView,
    loan: Loan,
)
    requires
        0 <= class < state.chains.len(),
        state.lends(loan),
    ensures
        state.with_chain(class, state.chains[class].push(pool)).lends(loan),
{
    let post = state.with_chain(class, state.chains[class].push(pool));
    lemma_run_kept(state, post, loan);
}

/// Lent memory stays lent when the first region of a locked pool is taken over.
pub proof fn law_first_region_keeps_memory(
    state: AllocView,
    class: int,
    pool: PoolView,
    loan: Loan,
)
    requires
        state.valid(),
        0 <= class < state.chains.len(),
        state.locked[class],
        state.lends(loan),
    ensures
        state.with_lock(class, false).with_chain(class, seq![pool]).lends(loan),
{
    let post = state.with_lock(class, false).with_chain(class, seq![pool]);
    assert(state.chain_ok(class));
    lemma_run_kept(state, post, loan);
}

/// Lent memory stays lent when a pool is locked or unlocked.
pub proof fn law_lock_keeps_memory(state: AllocView, class: int, locked: bool, loan: Loan)
    requires
        state.lends(loan),
    ensures
        state.with_lock(class, locked).lends(loan),
{
    lemma_run_kept(state, state.with_lock(class, locked), loan);
}

/// Memory stays lent as long as the pool that it lies in does not change.
proof fn lemma_run_kept(pre: AllocView, post: AllocView, loan: Loan)
    requires
        pre.lends(loan),
        post.chains.len() == pre.chains.len(),
        loan.pool < post.chains[loan.class()].len(),
        post.chains[loan.class()][loan.pool] == pre.chains[loan.class()][loan.pool],
    ensures
        post.lends(loan),
{
    assert(post.is_run(
        loan.class(),
        loan.pool,
        loan.at,
        loan.count(),
        loan.addr,
        loan.len(),
    ));
}

/// Lent memory stays lent whatever a request is answered.
pub proof fn law_request_keeps_memory(
    pre: AllocView,
    post: AllocView,
    size: int,
    align: int,
    zero: bool,
    r: AllocStep,
    loan: Loan,
)
    requires
        pre.valid(),
        vstd::arithmetic::power2::is_pow2(align),
        0 < align,
        0 <= size,
        r.answers(pre, post, size, align, zero),
        pre.lends(loan),
    ensures
        post.lends(loan),
{
    if size > 0 && r is Done {
        law_memory_lies_apart(pre, post, size, align, zero, r, loan);
    } else {
        assert(post.chains == pre.chains);
        lemma_run_kept(pre, post, loan);
    }
}

/// While a pool is being set up, requests leave it locked and without blocks, and nobody else is
/// told to set it up.
pub proof fn law_lock_excludes_others(
    pre: AllocView,
    post: AllocView,
    size: int,
    align: int,
    zero: bool,
    r: AllocStep,
    class: int,
)
    requires
        pre.valid(),
        vstd::arithmetic::power2::is_pow2(align),
        0 < align,
        0 <= size,
        r.answers(pre, post, size, align, zero),
        0 <= class < pre.chains.len(),
        pre.locked[class],
    ensures
        post.locked[class],
        !post.ready(class),
        r matches AllocStep::Init { class: c, layout } ==> c != class,
        r matches AllocStep::Grow { class: c, layout } ==> c != class,
{
    assert(pre.chain_ok(class));
    if size > 0 && align <= PAGE_SIZE {
        let padded = crate::block_size::ceil_multiple(size, align);
        let c = crate::size_class::request_class(padded, align);
        if c < crate::size_class::class_count() {
            lemma_served_align(size, align);
        }
    }
}

/// A request that waits for a pool to be set up is served once a region has been found for it.
pub proof fn law_served_after_init(
    pre: AllocView,
    post: AllocView,
    last: AllocView,
    size: int,
    align: int,
    zero: bool,
    first: AllocStep,
    second: AllocStep,
    base: int,
)
    requires
        pre.valid(),
        vstd::arithmetic::power2::is_pow2(align),
        0 < align,
        0 < size,
        first matches AllocStep::Init { class, layout } && {
            &&& first.answers(pre, post, size, align, zero)
            &&& post.region_free(base, crate::size_class::class_block(class as int))
            &&& second.answers(
                post.with_lock(class as int, false).with_chain(
                    class as int,
                    seq![
                        PoolView::fresh(
                            base,
                            crate::size_class::class_block(class as int),
                            post.record,
                        ),
                    ],
                ),
                last,
                size,
                align,
                zero,
            )
        },
    ensures
        second is Done,
{
    let c = first->Init_class as int;
    let padded = crate::block_size::ceil_multiple(size, align);
    let block = crate::size_class::class_block(c);
    lemma_served_align(size, align);
    crate::alloc_view::lemma_block_count(padded, align);
    let n = crate::alloc_view::block_count(padded, c);
    crate::size_class::lemma_class_valid(c);
    let pool = PoolView::fresh(base, block, post.record);
    law_fresh_pool_has_room(base, block, post.record, n);
    let chain = seq![pool];
    assert(chain[0] == pool);
    assert(crate::chain::chain_place(chain, n) is Some);
}

/// A request that waits for a chain to grow is served once a region has been found for it.
pub proof fn law_served_after_grow(
    pre: AllocView,
    post: AllocView,
    last: AllocView,
    size: int,
    align: int,
    zero: bool,
    first: AllocStep,
    second: AllocStep,
    base: int,
)
    requires
        pre.valid(),
        vstd::arithmetic::power2::is_pow2(align),
        0 < align,
        0 < size,
        first matches AllocStep::Grow { class, layout } && {
            &&& first.answers(pre, post, size, align, zero)
            &&& post.region_free(base, crate::size_class::class_block(class as int))
            &&& second.answers(
                post.with_chain(
                    class as int,
                    post.chains[class as int].push(
                        PoolView::fresh(
                            base,
                            crate::size_class::class_block(class as int),
                            post.record,
                        ),
                    ),
                ),
                last,
                size,
                align,
                zero,
            )
        },
    ensures
        second is Done,
{
    let c = first->Grow_class as int;
    let padded = crate::block_size::ceil_multiple(size, align);
    lemma_served_align(size, align);
    crate::alloc_view::lemma_block_count(padded, align);
    let n = crate::alloc_view::block_count(padded, c);
    assert(pre.chain_ok(c));
    assert(crate::chain::region_joins(
        base,
        crate::size_class::class_block(c),
        pre.chains[c],
    ));
    law_grown_chain_has_room(pre.chains[c], base, n);
}

/// When no region can be found for a pool that was to be set up, the pools and locks are as they
/// were before the request.
pub proof fn law_failed_init_changes_nothing(
    pre: AllocView,
    post: AllocView,
    size: int,
    align: int,
    zero: bool,
    r: AllocStep,
)
    requires
        pre.valid(),
        vstd::arithmetic::power2::is_pow2(align),
        0 < align,
        0 < size,
        r is Init,
        r.answers(pre, post, size, align, zero),
    ensures
        post.with_lock(r->Init_class as int, false) == pre,
{
    let c = r->Init_class as int;
    lemma_served_align(size, align);
    assert(post.with_lock(c, false).locked =~= pre.locked);
}

/// The regions of the first default pool are given up, none of them twice, and no other region is.
pub proof fn law_regions_given_up_once(state: AllocView)
    requires
        state.valid(),
    ensures
        forall|k: int|
            0 <= k < state.chains[0].len() ==> state.given_up().contains(
                #[trigger] state.chains[0][k],
            ),
        forall|i: int, j: int|
            0 <= i < j < state.given_up().len() ==> (#[trigger] state.given_up()[i]).apart(
                #[trigger] state.given_up()[j],
            ),
        forall|i: int, c: int, k: int|
            0 <= i < state.given_up().len() && 0 < c < state.chains.len() && 0 <= k
                < state.chains[c].len() ==> (#[trigger] state.given_up()[i]).apart(
                #[trigger] state.chains[c][k],
            ),
{
    let first = state.chains[0];
    let order = state.given_up();
    assert(state.chain_ok(0));
    assert forall|k: int| 0 <= k < first.len() implies order.contains(#[trigger] first[k]) by {
        assert(order[first.len() - 1 - k] == first[k]);
    }
    assert forall|i: int, j: int| 0 <= i < j < order.len() implies (#[trigger] order[i]).apart(
        #[trigger] order[j],
    ) by {
        assert(first[first.len() - 1 - j].apart(first[first.len() - 1 - i]));
    }
    assert forall|i: int, c: int, k: int|
        0 <= i < order.len() && 0 < c < state.chains.len() && 0 <= k
            < state.chains[c].len() implies (#[trigger] order[i]).apart(
        #[trigger] state.chains[c][k],
    ) by {
        assert(crate::alloc_view::chains_apart(state.chains[0], state.chains[c]));
        assert(first[first.len() - 1 - i].apart(state.chains[c][k]));
    }
}

} // verus!
