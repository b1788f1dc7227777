//! What callers can rely on, said in bytes, addresses and blocks alone.
use vstd::prelude::*;

use crate::alloc_view::AllocView;
use crate::block_size::BlockSize;
use crate::chain::PoolView;
use crate::layout::Layout;
use crate::pool::{Attempt, Region};
use crate::pooled_alloc::{AllocStep, DeallocStep, InitStep, Move};

verus! {

/// A number of pieces holds a value, and one piece less does not.
pub proof fn law_rounding_up(value: int, unit: int)
    requires
        0 < unit,
        0 <= value,
    ensures
        (crate::block_size::ceil_quotient(value, unit) - 1) * unit < value,
        value <= crate::block_size::ceil_quotient(value, unit) * unit,
        crate::block_size::ceil_multiple(value, unit) == crate::block_size::ceil_quotient(
            value,
            unit,
        ) * unit,
{
    let q = crate::block_size::ceil_quotient(value, unit);
    crate::block_size::lemma_ceil_multiple(value, unit);
    assert((q - 1) * unit == q * unit - unit) by (nonlinear_arith);
}

/// There is only one number of pieces that holds a value and is not too large.
proof fn lemma_pieces(value: int, unit: int, n: int)
    requires
        0 < unit,
        0 <= value,
        (n - 1) * unit < value <= n * unit,
    ensures
        n == crate::block_size::ceil_quotient(value, unit),
        n * unit == crate::block_size::ceil_multiple(value, unit),
{
    law_rounding_up(value, unit);
    let q = crate::block_size::ceil_quotient(value, unit);
    assert(n == q) by (nonlinear_arith)
        requires
            (n - 1) * unit < value <= n * unit,
            (q - 1) * unit < value <= q * unit,
            unit > 0,
    ;
}

/// There is only one multiple that is at least a value and not too large.
proof fn lemma_multiple(value: int, unit: int, m: int)
    requires
        0 < unit,
        0 <= value,
        value <= m < value + unit,
        m % unit == 0,
    ensures
        m == crate::block_size::ceil_multiple(value, unit),
        m / unit == crate::block_size::ceil_quotient(value, unit),
{
    let n = m / unit;
    vstd::arithmetic::div_mod::lemma_fundamental_div_mod(m, unit);
    vstd::arithmetic::mul::lemma_mul_is_commutative(n, unit);
    assert((n - 1) * unit == n * unit - unit) by (nonlinear_arith);
    lemma_pieces(value, unit, n);
}

/// The block sizes are the powers of two of which 4096 can be addressed.
pub proof fn law_block_sizes(value: int)
    ensures
        BlockSize::valid(value) <==> {
            &&& 0 < value
            &&& vstd::arithmetic::power2::is_pow2(value)
            &&& 4096 * value <= isize::MAX
        },
{
}

/// The sizes and alignments of layouts are those where the alignment is a power of two, and the size
/// can be rounded up to it without leaving the addresses.
pub proof fn law_layouts(size: int, align: int)
    requires
        0 <= size,
        0 < align,
    ensures
        Layout::valid(size, align) <==> vstd::arithmetic::power2::is_pow2(align) && size + (align
            - 1) <= isize::MAX,
{
}

/// Dividing by a block size leaves less than a block.
pub proof fn law_whole_blocks(bytes: usize, block: BlockSize, blocks: usize)
    requires
        BlockSize::valid(block.value()),
        blocks == vstd::std_specs::ops::DivSpec::div_spec(bytes, block),
    ensures
        blocks * block.value() <= bytes < (blocks + 1) * block.value(),
{
    let q = bytes as int / block.value();
    vstd::arithmetic::div_mod::lemma_fundamental_div_mod(bytes as int, block.value());
    vstd::arithmetic::mul::lemma_mul_is_commutative(block.value(), q);
    vstd::arithmetic::div_mod::lemma_div_pos_is_pos(bytes as int, block.value());
    vstd::arithmetic::div_mod::lemma_div_is_ordered_by_denominator(
        bytes as int,
        1,
        block.value(),
    );
    assert((q + 1) * block.value() == q * block.value() + block.value()) by (nonlinear_arith);
}

/// A region has room for four blocks for each bit of a machine word, and for eight squares of
/// that width in bytes, and is no larger than one of the two demands.
pub proof fn law_region_size(block: int)
    requires
        BlockSize::valid(block),
    ensures
        BlockSize::pool_size(block) >= 4 * usize::BITS * block,
        BlockSize::pool_size(block) >= 8 * usize::BITS * usize::BITS,
        BlockSize::pool_size(block) == 4 * usize::BITS * block || BlockSize::pool_size(block) == 8
            * usize::BITS * usize::BITS,
{
    crate::block_size::lemma_pool_constants();
    vstd::arithmetic::mul::lemma_mul_is_commutative(
        block,
        crate::block_size::POOL_SCALE as int,
    );
    if usize::BITS == 32 {
        assert(8 * usize::BITS * usize::BITS == 8192);
        assert(4 * usize::BITS * block == 128 * block);
    } else {
        assert(8 * usize::BITS * usize::BITS == 32768);
        assert(4 * usize::BITS * block == 256 * block);
    }
}

/// The default pools.
pub proof fn law_default_pools()
    ensures
        usize::BITS == 32 || usize::BITS == 64,
        usize::BITS == 32 ==> {
            &&& crate::size_class::class_count() == 4
            &&& crate::size_class::class_block(0) == 32
            &&& crate::size_class::class_block(1) == 128
            &&& crate::size_class::class_block(2) == 512
            &&& crate::size_class::class_block(3) == 2048
        },
        usize::BITS == 64 ==> {
            &&& crate::size_class::class_count() == 3
            &&& crate::size_class::class_block(0) == 64
            &&& crate::size_class::class_block(1) == 256
            &&& crate::size_class::class_block(2) == 1024
        },
{
    crate::block_size::lemma_pool_constants();
    crate::size_class::lemma_class_blocks();
}

/// The blocks at the head of a region hold the record and one bit for each block, and one block
/// less does not.
pub proof fn law_header_size(block: int, record: int)
    requires
        BlockSize::valid(block),
        0 <= record,
    ensures
        ({
            let header = crate::chain::header_slots(block, record);
            let bits = BlockSize::pool_size(block) / block;
            &&& (header - 1) * block < record + bits / 8
            &&& record + bits / 8 <= header * block
        }),
{
    crate::chain::lemma_geometry(block);
    law_rounding_up(crate::chain::bitmap_bytes(block) + record, block);
}

/// A block lies in the header where it starts before the end of the record and the bitmap.
proof fn lemma_in_header(block: int, record: int, i: int)
    requires
        BlockSize::valid(block),
        0 <= record,
    ensures
        i < crate::chain::header_slots(block, record) <==> i * block < record
            + BlockSize::pool_size(block) / block / 8,
{
    law_header_size(block, record);
    let h = crate::chain::header_slots(block, record);
    let n = record + BlockSize::pool_size(block) / block / 8;
    assert(i < h <==> i * block < n) by (nonlinear_arith)
        requires
            (h - 1) * block < n <= h * block,
            block > 0,
    ;
}

/// A fresh pool is cut into blocks to the last byte. The blocks that the record and the bitmap
/// reach into are in use, and no others.
pub proof fn law_fresh_pool(base: int, block: int, record: int)
    requires
        BlockSize::valid(block),
        0 <= record,
    ensures
        ({
            let pool = PoolView::fresh(base, block, record);
            let bits = pool.used.len();
            &&& pool.base == base && pool.block == block && pool.record == record
            &&& bits * block >= 4 * usize::BITS * block
            &&& bits * block >= 8 * usize::BITS * usize::BITS
            &&& bits * block == 4 * usize::BITS * block || bits * block == 8 * usize::BITS
                * usize::BITS
            &&& forall|i: int|
                0 <= i < bits ==> (#[trigger] pool.used[i] <==> i * block < record + bits as int
                    / 8)
        }),
{
    let pool = PoolView::fresh(base, block, record);
    crate::chain::lemma_geometry(block);
    law_region_size(block);
    assert forall|i: int| 0 <= i < pool.used.len() implies (#[trigger] pool.used[i] <==> i * block
        < record + pool.used.len() as int / 8) by {
        lemma_in_header(block, record, i);
    }
}

/// The region of a pool starts a page, can be addressed to its end, and is cut into blocks to the
/// last byte. No block that the record or the bitmap reaches into is ever free.
pub proof fn law_pool(pool: PoolView)
    requires
        pool.valid(),
    ensures
        0 < pool.base,
        pool.base % 4096 == 0,
        0 < pool.block,
        vstd::arithmetic::power2::is_pow2(pool.block),
        0 <= pool.record,
        pool.used.len() * pool.block >= 4 * usize::BITS * pool.block,
        pool.used.len() * pool.block >= 8 * usize::BITS * usize::BITS,
        pool.used.len() * pool.block == 4 * usize::BITS * pool.block || pool.used.len() * pool.block
            == 8 * usize::BITS * usize::BITS,
        pool.base + pool.used.len() * pool.block <= usize::MAX,
        pool.used.len() as int % (usize::BITS as int) == 0,
        forall|i: int| #[trigger] pool.address(i) == pool.base + i * pool.block,
        forall|i: int|
            0 <= i < pool.used.len() && i * pool.block < pool.record + pool.used.len() as int / 8
                ==> #[trigger] pool.used[i],
{
    crate::chain::lemma_geometry(pool.block);
    law_region_size(pool.block);
    assert forall|i: int|
        0 <= i < pool.used.len() && i * pool.block < pool.record + pool.used.len() as int
            / 8 implies #[trigger] pool.used[i] by {
        lemma_in_header(pool.block, pool.record, i);
    }
}

/// The blocks that a chain gives out are those of the lowest place of its first pool with room: as
/// many adjacent free blocks, whose bits lie in one machine word. Where a chain gives out none, it
/// has no such place.
pub proof fn law_first_place(chain: Seq<PoolView>, count: int)
    requires
        crate::chain::chain_valid(chain),
        0 < count,
    ensures
        match crate::chain::chain_place(chain, count) {
            Some((k, at)) => {
                &&& 0 <= k < chain.len()
                &&& 0 <= at
                &&& at % (usize::BITS as int) + count <= usize::BITS
                &&& at + count <= chain[k].used.len()
                &&& forall|i: int| at <= i < at + count ==> !#[trigger] chain[k].used[i]
                &&& forall|j: int, q: int|
                    (0 <= j < k || j == k && q < at) && 0 <= q && q % (usize::BITS as int) + count
                        <= usize::BITS && q + count <= chain[j].used.len()
                            && !#[trigger] chain[j].used[q] ==> exists|i: int|
                        q < i < q + count && #[trigger] chain[j].used[i]
            },
            None => forall|j: int, q: int|
                0 <= j < chain.len() && 0 <= q && q % (usize::BITS as int) + count <= usize::BITS
                    && q + count <= chain[j].used.len()
                        && !#[trigger] chain[j].used[q] ==> exists|i: int|
                    q < i < q + count && #[trigger] chain[j].used[i],
        },
{
    crate::chain::lemma_chain_place(chain, count);
    let found = crate::chain::chain_place(chain, count);
    assert forall|j: int, q: int|
        0 <= j < chain.len() && (found matches Some((k, at)) ==> j < k || j == k && q < at) && 0
            <= q && q % (usize::BITS as int) + count <= usize::BITS && q + count
            <= chain[j].used.len() && !#[trigger] chain[j].used[q] implies exists|i: int|
        q < i < q + count && #[trigger] chain[j].used[i] by {
        let pool = chain[j];
        assert(pool.valid());
        crate::chain::lemma_header_fits(pool.block, pool.record);
        crate::arena::lemma_least_fit(pool.used, pool.header(), count);
        crate::arena::lemma_least_fit(pool.used, 0, count);
        if q < pool.header() {
            assert(pool.used[q]);
        } else {
            assert(!crate::arena::fits(pool.used, q, count));
        }
    }
}

/// What is true of a pool before and after blocks of it have been given out.
proof fn lemma_taken(pool: PoolView, at: int, count: int)
    requires
        pool.valid(),
        0 <= at,
        0 < count,
        at + count <= pool.used.len(),
        forall|i: int| at <= i < at + count ==> !#[trigger] pool.used[i],
    ensures
        pool.address(at) == pool.base + at * pool.block,
        pool.record + pool.used.len() as int / 8 <= at * pool.block,
        (at + count) * pool.block <= pool.used.len() * pool.block,
        ({
            let post = pool.with_run(at, at + count, true);
            &&& post.base == pool.base && post.block == pool.block && post.record == pool.record
            &&& post.used.len() == pool.used.len()
            &&& forall|i: int|
                0 <= i < pool.used.len() ==> #[trigger] post.used[i] == (pool.used[i] || at <= i
                    < at + count)
        }),
{
    law_pool(pool);
    assert(!pool.used[at]);
    vstd::arithmetic::mul::lemma_mul_inequality(
        at + count,
        pool.used.len() as int,
        pool.block,
    );
}

/// What comes of an attempt to take blocks. None is made for more blocks than a pool has. Else the
/// blocks come from the lowest place of the first pool with room, behind the record and the bitmap;
/// they were free, and are in use from then on, as the only ones that change. The chain is full only
/// where no pool of it has room.
pub proof fn law_attempt(
    pre: Seq<PoolView>,
    post: Seq<PoolView>,
    count: int,
    r: Attempt,
) -> (s: (int, int))
    requires
        crate::chain::chain_valid(pre),
        0 < count,
        r.answers(pre, post, count),
    ensures
        r is Null <==> count > pre[0].used.len(),
        r !is Block ==> post == pre,
        r is Full ==> forall|j: int, q: int|
            0 <= j < pre.len() && 0 <= q && q % (usize::BITS as int) + count <= usize::BITS && q
                + count <= pre[j].used.len() && !#[trigger] pre[j].used[q] ==> exists|i: int|
                q < i < q + count && #[trigger] pre[j].used[i],
        r matches Attempt::Block(ptr) ==> {
            let (k, at) = s;
            &&& 0 <= k < pre.len()
            &&& 0 <= at
            &&& at % (usize::BITS as int) + count <= usize::BITS
            &&& at + count <= pre[k].used.len()
            &&& ptr == pre[k].base + at * pre[k].block
            &&& ptr >= pre[k].base + pre[k].record + pre[k].used.len() as int / 8
            &&& forall|i: int| at <= i < at + count ==> !#[trigger] pre[k].used[i]
            &&& forall|j: int, q: int|
                (0 <= j < k || j == k && q < at) && 0 <= q && q % (usize::BITS as int) + count
                    <= usize::BITS && q + count <= pre[j].used.len()
                        && !#[trigger] pre[j].used[q] ==> exists|i: int|
                    q < i < q + count && #[trigger] pre[j].used[i]
            &&& post.len() == pre.len()
            &&& forall|j: int| 0 <= j < pre.len() && j != k ==> #[trigger] post[j] == pre[j]
            &&& post[k].base == pre[k].base
            &&& post[k].block == pre[k].block
            &&& post[k].record == pre[k].record
            &&& post[k].used.len() == pre[k].used.len()
            &&& forall|i: int|
                0 <= i < pre[k].used.len() ==> #[trigger] post[k].used[i] == (pre[k].used[i] || at
                    <= i < at + count)
        },
{
    let head = pre[0];
    assert(head.valid());
    crate::chain::lemma_geometry(head.block);
    let n = head.used.len() as int;
    assert(count * head.block > n * head.block <==> count > n) by (nonlinear_arith)
        requires
            head.block > 0,
    ;
    law_first_place(pre, count);
    if let Some((k, at)) = crate::chain::chain_place(pre, count) {
        assert(pre[k].valid());
        lemma_taken(pre[k], at, count);
        (k, at)
    } else {
        (0, 0)
    }
}

/// An attempt to take no block at all points at the first block behind the record and the bitmap,
/// and changes nothing.
pub proof fn law_attempt_at_nothing(pre: Seq<PoolView>, post: Seq<PoolView>, r: Attempt)
    requires
        crate::chain::chain_valid(pre),
        r.answers(pre, post, 0),
    ensures
        post == pre,
        r matches Attempt::Block(ptr) && {
            let offset = ptr - pre[0].base;
            let end = pre[0].record + pre[0].used.len() as int / 8;
            offset % pre[0].block == 0 && end <= offset < end + pre[0].block
        },
{
    let head = pre[0];
    assert(head.valid());
    crate::chain::lemma_geometry(head.block);
    crate::chain::lemma_header_fits(head.block, head.record);
    law_header_size(head.block, head.record);
    let h = head.header();
    assert(crate::arena::least_fit(head.used, h, 0) == Some(h)) by {
        assert(h % (usize::BITS as int) < usize::BITS);
        assert(crate::arena::fits(head.used, h, 0));
    }
    assert(0 * head.block == 0);
    assert(head.with_run(h, h, true).used =~= head.used);
    assert(pre.update(0, head) =~= pre);
    vstd::arithmetic::div_mod::lemma_mod_multiples_basic(h, head.block);
    assert((h - 1) * head.block == h * head.block - head.block) by (nonlinear_arith);
}

/// An address is looked up in the pool whose region it lies in.
pub proof fn law_find(chain: Seq<PoolView>, ptr: int)
    requires
        crate::chain::chain_valid(chain),
    ensures
        match crate::chain::chain_find(chain, ptr) {
            Some(k) => {
                &&& 0 <= k < chain.len()
                &&& chain[k].base <= ptr < chain[k].base + chain[k].used.len() * chain[k].block
            },
            None => forall|k: int|
                0 <= k < chain.len() ==> ptr < (#[trigger] chain[k]).base || chain[k].base
                    + chain[k].used.len() * chain[k].block <= ptr,
        },
{
    crate::chain::lemma_chain_find(chain, ptr);
    assert forall|k: int| 0 <= k < chain.len() implies chain[k].end() == (#[trigger] chain[k]).base
        + chain[k].used.len() * chain[k].block by {
        assert(chain[k].valid());
        crate::chain::lemma_geometry(chain[k].block);
    }
}

/// Where an address lies in the region of a pool of a chain, it is looked up there.
proof fn lemma_find_at(chain: Seq<PoolView>, ptr: int, k: int)
    requires
        crate::chain::chain_valid(chain),
        0 <= k < chain.len(),
        chain[k].base <= ptr < chain[k].base + chain[k].used.len() * chain[k].block,
    ensures
        crate::chain::chain_find(chain, ptr) == Some(k),
{
    law_find(chain, ptr);
    assert forall|i: int| 0 <= i < chain.len() implies chain[i].end() == (#[trigger] chain[i]).base
        + chain[i].used.len() * chain[i].block by {
        assert(chain[i].valid());
        crate::chain::lemma_geometry(chain[i].block);
    }
    if let Some(i) = crate::chain::chain_find(chain, ptr) {
        if i < k {
            assert(chain[i].apart(chain[k]));
        } else if k < i {
            assert(chain[k].apart(chain[i]));
        }
    }
}

/// Writing a run of blocks sets those of them whose bits lie in the machine word of the first one,
/// and no others.
pub proof fn law_write_run(used: Seq<bool>, at: int, count: int, value: bool)
    requires
        0 <= at,
    ensures
        ({
            let to = crate::arena::run_end(at, count);
            let post = crate::arena::with_run(used, at, to, value);
            &&& post.len() == used.len()
            &&& forall|i: int|
                0 <= i < used.len() ==> #[trigger] post[i] == if at <= i < at + count && i / (
                usize::BITS as int) == at / (usize::BITS as int) {
                    value
                } else {
                    used[i]
                }
        }),
{
    let w = usize::BITS as int;
    let post = crate::arena::with_run(used, at, crate::arena::run_end(at, count), value);
    assert forall|i: int| 0 <= i < used.len() implies #[trigger] post[i] == if at <= i < at + count
        && i / w == at / w {
        value
    } else {
        used[i]
    } by {
        vstd::arithmetic::div_mod::lemma_fundamental_div_mod(i, w);
        vstd::arithmetic::div_mod::lemma_fundamental_div_mod(at, w);
        let p = i / w;
        let q = at / w;
        assert(at <= i ==> (i < (q + 1) * w <==> p == q)) by (nonlinear_arith)
            requires
                i == w * p + i % w,
                at == w * q + at % w,
                0 <= i % w < w,
                0 <= at % w < w,
                w > 0,
        ;
    }
}

/// The place that is found in a bitmap is the lowest one from `from` on at which as many adjacent
/// blocks are free, with their bits in one machine word. Where none is found, there is none.
pub proof fn law_lowest_place(used: Seq<bool>, from: int, count: int)
    requires
        0 <= from,
        0 <= count,
        used.len() as int % (usize::BITS as int) == 0,
    ensures
        count == 0 && from < used.len() ==> crate::arena::least_fit(used, from, count) == Some(from),
        count > 0 ==> match crate::arena::least_fit(used, from, count) {
            Some(at) => {
                &&& from <= at
                &&& at % (usize::BITS as int) + count <= usize::BITS
                &&& at + count <= used.len()
                &&& forall|i: int| at <= i < at + count ==> !#[trigger] used[i]
                &&& forall|q: int|
                    from <= q < at && q % (usize::BITS as int) + count <= usize::BITS && q + count
                        <= used.len() && !#[trigger] used[q] ==> exists|i: int|
                        q < i < q + count && #[trigger] used[i]
            },
            None => forall|q: int|
                from <= q && q % (usize::BITS as int) + count <= usize::BITS && q + count
                    <= used.len() && !#[trigger] used[q] ==> exists|i: int|
                    q < i < q + count && #[trigger] used[i],
        },
{
    crate::arena::lemma_least_fit(used, from, count);
    let found = crate::arena::least_fit(used, from, count);
    if count == 0 && from < used.len() {
        assert(crate::arena::fits(used, from, 0));
    }
    assert forall|q: int|
        0 < count && from <= q && (found matches Some(at) ==> q < at) && q % (usize::BITS as int)
            + count <= usize::BITS && q + count <= used.len()
            && !#[trigger] used[q] implies exists|i: int|
        q < i < q + count && #[trigger] used[i] by {
        assert(!crate::arena::fits(used, q, count));
    }
}

/// What giving back blocks does to a pool.
proof fn lemma_given_back(pool: PoolView, ptr: int, at: int, count: int)
    requires
        pool.valid(),
        0 <= at < pool.used.len(),
        pool.base + at * pool.block <= ptr < pool.base + (at + 1) * pool.block,
    ensures
        ({
            let post = pool.freed(ptr, count);
            &&& post.base == pool.base && post.block == pool.block && post.record == pool.record
            &&& post.used.len() == pool.used.len()
            &&& forall|i: int|
                0 <= i < pool.used.len() ==> #[trigger] post.used[i] == (pool.used[i] && !(at <= i
                    < at + count && i / (usize::BITS as int) == at / (usize::BITS as int)))
        }),
{
    let b = pool.block;
    assert((at + 1) * b == at * b + b) by (nonlinear_arith);
    vstd::arithmetic::div_mod::lemma_fundamental_div_mod_converse(
        ptr - pool.base,
        b,
        at,
        ptr - pool.base - at * b,
    );
    law_write_run(pool.used, at, count, false);
}

/// Giving back blocks frees them as far as their bits lie in the machine word of the first one, in
/// the pool whose region they lie in, and changes nothing else.
pub proof fn law_release(
    pre: Seq<PoolView>,
    post: Seq<PoolView>,
    ptr: int,
    count: int,
    k: int,
    at: int,
)
    requires
        crate::chain::chain_valid(pre),
        0 <= k < pre.len(),
        0 <= at < pre[k].used.len(),
        pre[k].base + at * pre[k].block <= ptr < pre[k].base + (at + 1) * pre[k].block,
        crate::chain::released(pre, post, ptr, count),
    ensures
        post.len() == pre.len(),
        forall|j: int| 0 <= j < pre.len() && j != k ==> #[trigger] post[j] == pre[j],
        post[k].base == pre[k].base,
        post[k].block == pre[k].block,
        post[k].record == pre[k].record,
        post[k].used.len() == pre[k].used.len(),
        forall|i: int|
            0 <= i < pre[k].used.len() ==> #[trigger] post[k].used[i] == (pre[k].used[i] && !(at
                <= i < at + count && i / (usize::BITS as int) == at / (usize::BITS as int))),
{
    let pool = pre[k];
    assert(pool.valid());
    lemma_given_back(pool, ptr, at, count);
    assert(0 <= at * pool.block && (at + 1) * pool.block <= pool.used.len() * pool.block)
        by (nonlinear_arith)
        requires
            0 <= at < pool.used.len(),
            pool.block > 0,
    ;
    lemma_find_at(pre, ptr, k);
}

/// A pool is set up wherever there is a region: it is cut into blocks to the last byte, with those in
/// use that the record and the bitmap reach into.
pub proof fn law_set_up(
    chain: Option<Seq<PoolView>>,
    block: int,
    record: int,
    region: Option<usize>,
)
    requires
        BlockSize::valid(block),
        0 <= record,
        crate::chain::set_up(chain, block, record, region),
    ensures
        chain is Some <==> region is Some,
        chain matches Some(pools) ==> {
            let bits = pools[0].used.len();
            &&& pools.len() == 1
            &&& pools[0].base == region->0
            &&& pools[0].block == block
            &&& pools[0].record == record
            &&& bits * block >= 4 * usize::BITS * block
            &&& bits * block >= 8 * usize::BITS * usize::BITS
            &&& bits * block == 4 * usize::BITS * block || bits * block == 8 * usize::BITS
                * usize::BITS
            &&& forall|i: int|
                0 <= i < bits ==> (#[trigger] pools[0].used[i] <==> i * block < record + bits as int
                    / 8)
        },
{
    if let Some(base) = region {
        law_fresh_pool(base as int, block, record);
    }
}

/// Which regions can join a chain: those that start a page, can be addressed to their end, and share
/// no address with the region of a pool of the chain.
pub proof fn law_joining_regions(base: int, block: int, bytes: int, chain: Seq<PoolView>)
    requires
        BlockSize::valid(block),
        bytes >= 4 * usize::BITS * block,
        bytes >= 8 * usize::BITS * usize::BITS,
        bytes == 4 * usize::BITS * block || bytes == 8 * usize::BITS * usize::BITS,
        forall|k: int| 0 <= k < chain.len() ==> (#[trigger] chain[k]).valid(),
    ensures
        crate::chain::region_valid(base, block) <==> 0 < base && base % 4096 == 0 && base + bytes
            <= usize::MAX,
        crate::chain::region_joins(base, block, chain) <==> {
            &&& 0 < base
            &&& base % 4096 == 0
            &&& base + bytes <= usize::MAX
            &&& forall|k: int|
                0 <= k < chain.len() ==> base + bytes <= (#[trigger] chain[k]).base || chain[k].base
                    + chain[k].used.len() * chain[k].block <= base
        },
{
    law_region_size(block);
    assert(bytes == BlockSize::pool_size(block));
    assert forall|k: int|
        0 <= k < chain.len() implies crate::chain::region_apart(base, block, #[trigger] chain[k])
        == (base + bytes <= chain[k].base || chain[k].base + chain[k].used.len() * chain[k].block
        <= base) by {
        assert(chain[k].valid());
        crate::chain::lemma_geometry(chain[k].block);
    }
}

/// A chain gets one more pool wherever there is a region, however long it is: a fresh one like
/// those before it, at its end. Without a region it stays as it is.
pub proof fn law_extend(
    pre: Seq<PoolView>,
    post: Seq<PoolView>,
    region: Option<usize>,
    ok: bool,
)
    requires
        crate::chain::chain_valid(pre),
        crate::chain::extended(pre, post, region, ok),
    ensures
        ok <==> region is Some,
        region is None ==> post == pre,
        region matches Some(base) ==> {
            let last = post[pre.len() as int];
            let bits = last.used.len();
            &&& post.len() == pre.len() + 1
            &&& forall|j: int| 0 <= j < pre.len() ==> #[trigger] post[j] == pre[j]
            &&& last.base == base
            &&& last.block == pre[0].block
            &&& last.record == pre[0].record
            &&& bits == pre[0].used.len()
            &&& forall|i: int|
                0 <= i < bits ==> (#[trigger] last.used[i] <==> i * last.block < last.record
                    + bits as int / 8)
        },
{
    assert(pre[0].valid());
    if let Some(base) = region {
        law_fresh_pool(base as int, pre[0].block, pre[0].record);
    }
}

/// A second pool is set up once: where there is one, it stays as it is and no region is needed.
pub proof fn law_next_pool(
    pre: Seq<PoolView>,
    post: Seq<PoolView>,
    region: Option<usize>,
    ok: bool,
)
    requires
        crate::chain::chain_valid(pre),
        crate::chain::next_provided(pre, post, region, ok),
    ensures
        pre.len() > 1 ==> ok && post == pre,
        pre.len() == 1 ==> crate::chain::extended(pre, post, region, ok),
        ok ==> post.len() >= 2,
{
}

/// The blocks in use are counted one by one.
pub proof fn law_count(used: Seq<bool>)
    ensures
        Set::<int>::new(|i: int| 0 <= i < used.len() && used[i]).finite(),
        crate::arena::used_count(used) == Set::<int>::new(
            |i: int| 0 <= i < used.len() && used[i],
        ).len(),
    decreases used.len(),
{
    let all = Set::<int>::new(|i: int| 0 <= i < used.len() && used[i]);
    if used.len() == 0 {
        assert(all =~= Set::empty());
    } else {
        let shorter = used.drop_last();
        let before = Set::<int>::new(|i: int| 0 <= i < shorter.len() && shorter[i]);
        law_count(shorter);
        if used.last() {
            assert(all =~= before.insert(used.len() - 1));
        } else {
            assert(all =~= before);
        }
    }
}

/// The blocks in use of a chain are those of all its pools.
pub proof fn law_count_of_chain(chain: Seq<PoolView>, pool: PoolView)
    ensures
        crate::chain::chain_used(Seq::empty()) == 0,
        crate::chain::chain_used(chain.push(pool)) == crate::chain::chain_used(chain)
            + crate::arena::used_count(pool.used),
    decreases chain.len(),
{
    let longer = chain.push(pool);
    if chain.len() == 0 {
        assert(longer.drop_first() =~= chain);
    } else {
        law_count_of_chain(chain.drop_first(), pool);
        assert(longer.drop_first() =~= chain.drop_first().push(pool));
    }
}

/// The regions that are given up are those of the chain's pools, to their last byte.
pub proof fn law_region(region: Region, pool: PoolView)
    requires
        pool.valid(),
        region.is_of(pool),
    ensures
        region.base == pool.base,
        region.layout.bytes() == pool.used.len() * pool.block,
        region.layout.alignment() == 4096,
{
    crate::chain::lemma_geometry(pool.block);
}

/// A power of two below 4096 is at most 2048.
proof fn lemma_half_page(align: int)
    requires
        vstd::arithmetic::power2::is_pow2(align),
        0 < align < 4096,
    ensures
        align <= 2048,
{
    let k = crate::bits::lemma_exponent(align as usize);
    vstd::arithmetic::power2::lemma2_to64();
    if k > 11 {
        if k > 12 {
            vstd::arithmetic::power2::lemma_pow2_strictly_increases(12, k as nat);
        }
        assert(false);
    }
    if k < 11 {
        vstd::arithmetic::power2::lemma_pow2_strictly_increases(k as nat, 11);
    }
}

/// The pool for a size: the last one whose blocks are no larger than the size rounded up to the
/// smallest blocks, and none for a page and more.
pub proof fn law_pool_for_size(size: int, words: int)
    requires
        0 < size,
        size <= words < size + usize::BITS,
        words % (usize::BITS as int) == 0,
    ensures
        ({
            let class = crate::size_class::size_class(size);
            &&& size >= 4096 ==> class == crate::size_class::class_count()
            &&& size < 4096 ==> 0 <= class && crate::size_class::class_block(class) <= words < 4
                * crate::size_class::class_block(class)
        }),
{
    law_default_pools();
    crate::size_class::lemma_class_blocks();
    lemma_multiple(size, usize::BITS as int, words);
    let pieces = words / (usize::BITS as int);
    vstd::arithmetic::div_mod::lemma_fundamental_div_mod(words, usize::BITS as int);
    if usize::BITS == 32 {
        assert(words == 32 * pieces);
    } else {
        assert(words == 64 * pieces);
    }
}

/// The first pool that is aligned enough: the blocks of every pool before it are too small.
pub proof fn law_pool_for_alignment(align: int, class: int)
    requires
        0 < align,
        0 <= class < crate::size_class::class_count(),
    ensures
        0 <= crate::size_class::align_class(align) <= crate::size_class::class_count(),
        crate::size_class::align_class(align) <= class <==> align
            <= crate::size_class::class_block(class),
{
    law_default_pools();
    crate::size_class::lemma_class_blocks();
}

/// The pool that memory is looked for first in: the last one whose blocks are no larger.
pub proof fn law_pool_to_search(size: int)
    requires
        0 <= size,
    ensures
        ({
            let class = crate::size_class::search_class(size);
            &&& size >= 4096 ==> class == crate::size_class::class_count()
            &&& size < usize::BITS ==> class == 0
            &&& usize::BITS <= size < 4096 ==> 0 <= class < crate::size_class::class_count()
                && crate::size_class::class_block(class) <= size < 4
                * crate::size_class::class_block(class)
        }),
{
    law_default_pools();
    crate::size_class::lemma_class_blocks();
}

/// The pool that serves a request, and the size of its blocks.
#[verifier::spinoff_prover]
proof fn lemma_pool_for_request(size: int, align: int, padded: int, words: int) -> (s: (int, int))
    requires
        vstd::arithmetic::power2::is_pow2(align),
        0 < align <= 4096,
        0 < size,
        size <= padded < size + align,
        padded % align == 0,
        padded <= words < padded + usize::BITS,
        words % (usize::BITS as int) == 0,
    ensures
        ({
            let (class, block) = s;
            &&& padded == crate::block_size::ceil_multiple(size, align)
            &&& class == crate::size_class::request_class(padded, align)
            &&& block == crate::size_class::class_block(class)
            &&& class >= crate::size_class::class_count() <==> padded >= 4096 || usize::BITS == 64
                && (padded > 4032 || align > 1024)
            &&& class < crate::size_class::class_count() ==> {
                &&& class == 0 && block == usize::BITS || class == 1 && block == 4 * usize::BITS
                    || class == 2 && block == 16 * usize::BITS || class == 3 && block == 64
                    * usize::BITS && usize::BITS == 32
                &&& align <= block
                &&& block <= words < 4 * block || words < block <= 4 * words && block < 4 * align
            }
        }),
{
    law_default_pools();
    crate::size_class::lemma_class_blocks();
    lemma_multiple(size, align, padded);
    vstd::arithmetic::div_mod::lemma_fundamental_div_mod(padded, align);
    let n = padded / align;
    assert(align <= padded) by (nonlinear_arith)
        requires
            padded == align * n,
            padded > 0,
            align > 0,
    ;
    if align < 4096 {
        lemma_half_page(align);
    }
    law_pool_for_size(padded, words);
    lemma_multiple(padded, usize::BITS as int, words);
    let pieces = words / (usize::BITS as int);
    vstd::arithmetic::div_mod::lemma_fundamental_div_mod(words, usize::BITS as int);
    if usize::BITS == 32 {
        assert(words == 32 * pieces);
    } else {
        assert(words == 64 * pieces);
    }
    let class = crate::size_class::request_class(padded, align);
    (class, crate::size_class::class_block(class))
}

/// A request for nothing is answered with an aligned address at once, and changes nothing.
pub proof fn law_request_for_nothing(
    pre: AllocView,
    post: AllocView,
    align: int,
    zero: bool,
    r: AllocStep,
)
    requires
        0 < align <= usize::MAX,
        r.answers(pre, post, 0, align, zero),
    ensures
        r matches AllocStep::Done { addr, len, zero: z } && addr == align && len == 0 && !z,
        post == pre,
{
}

/// A request fails where its alignment exceeds a page, and nowhere else: neither for its size, nor
/// for what is in use, nor for wanting zeros.
pub proof fn law_failing_requests(
    pre: AllocView,
    post: AllocView,
    size: int,
    align: int,
    zero: bool,
    r: AllocStep,
)
    requires
        0 < align,
        0 < size,
        r.answers(pre, post, size, align, zero),
    ensures
        r is Failed <==> align > 4096,
        r is Failed ==> post == pre,
{
}

/// Where memory is asked of the page allocator, it is as much as was asked for at least, and no more
/// than it takes to reach a multiple of the alignment. The pools stay as they are.
pub proof fn law_forwarded_request(
    pre: AllocView,
    post: AllocView,
    size: int,
    align: int,
    zero: bool,
    r: AllocStep,
)
    requires
        0 < align,
        0 < size,
        r.answers(pre, post, size, align, zero),
    ensures
        r matches AllocStep::Forward(layout) ==> {
            &&& size <= layout.bytes() < size + align
            &&& layout.bytes() % align == 0
            &&& layout.alignment() == align
            &&& post == pre
        },
{
    crate::block_size::lemma_ceil_multiple(size, align);
}

/// Which requests are for the page allocator: those of a page and more once they are padded, and
/// with 64 bits those of more than 63 of the smallest blocks or an alignment of more than 1024, for
/// zeroed memory as for other memory.
pub proof fn law_which_requests_are_forwarded(
    pre: AllocView,
    post: AllocView,
    size: int,
    align: int,
    zero: bool,
    r: AllocStep,
    padded: int,
)
    requires
        vstd::arithmetic::power2::is_pow2(align),
        0 < align <= 4096,
        0 < size,
        size <= padded < size + align,
        padded % align == 0,
        r.answers(pre, post, size, align, zero),
    ensures
        r is Forward <==> padded >= 4096 || usize::BITS == 64 && (padded > 4032 || align > 1024),
{
    crate::block_size::lemma_ceil_multiple(padded, usize::BITS as int);
    let words = crate::block_size::ceil_multiple(padded, usize::BITS as int);
    lemma_pool_for_request(size, align, padded, words);
}

/// Zeroed memory is had where other memory is, and at the same place. Only the zeros are extra.
pub proof fn law_zeroed_requests(
    pre: AllocView,
    post: AllocView,
    other: AllocView,
    size: int,
    align: int,
    r: AllocStep,
    s: AllocStep,
)
    requires
        0 < size,
        r.answers(pre, post, size, align, true),
        s.answers(pre, other, size, align, false),
    ensures
        post == other,
        r is Done <==> s is Done,
        r is Failed <==> s is Failed,
        r is Busy <==> s is Busy,
        r is Init <==> s is Init,
        r is Grow <==> s is Grow,
        r is Forward <==> s is Forward,
        r matches AllocStep::Done { addr, len, zero } ==> {
            &&& zero
            &&& s matches AllocStep::Done { addr: a, len: l, zero: z } && a == addr && l == len && !z
        },
{
}

/// What a request comes to that is not for the page allocator.
///
/// It is served by the last default pool whose blocks are no larger than the request, padded and
/// rounded up to the smallest blocks, or by the next one where those are not aligned enough. While
/// that pool is set up by someone else the request waits. Where nobody does, the pool is to be set
/// up, and is locked. Where it is there, the blocks come from the lowest place of its first region
/// with room: as many as hold the request, free until then, behind the record and the bitmap; they
/// are in use from then on, and nothing else changes. Where no region has room, however many there
/// are, the pool is to get another one.
#[verifier::spinoff_prover]
pub proof fn law_request(
    pre: AllocView,
    post: AllocView,
    size: int,
    align: int,
    zero: bool,
    r: AllocStep,
    padded: int,
    words: int,
) -> (s: (int, int, int, int, int))
    requires
        pre.valid(),
        vstd::arithmetic::power2::is_pow2(align),
        0 < align <= 4096,
        0 < size,
        size <= padded < size + align,
        padded % align == 0,
        padded <= words < padded + usize::BITS,
        words % (usize::BITS as int) == 0,
        padded < 4096,
        usize::BITS == 64 ==> padded <= 4032 && align <= 1024,
        r.answers(pre, post, size, align, zero),
    ensures
        ({
            let (class, block, count, k, at) = s;
            let chain = pre.chains[class];
            let left = post.chains[class];
            &&& class == 0 && block == usize::BITS || class == 1 && block == 4 * usize::BITS || class
                == 2 && block == 16 * usize::BITS || class == 3 && block == 64 * usize::BITS
                && usize::BITS == 32
            &&& align <= block
            &&& block <= words < 4 * block || words < block <= 4 * words && block < 4 * align
            &&& 0 < count && (count - 1) * block < size <= count * block
            &&& r is Busy <==> chain.len() == 0 && pre.locked[class]
            &&& r is Init <==> chain.len() == 0 && !pre.locked[class]
            &&& r is Done || r is Grow <==> chain.len() > 0
            &&& r is Busy || r is Grow ==> post == pre
            &&& post.record == pre.record
            &&& r !is Done ==> post.chains == pre.chains
            &&& r !is Init ==> post.locked == pre.locked
            &&& r matches AllocStep::Init { class: c, layout } ==> {
                &&& c == class
                &&& post.locked == pre.locked.update(class, true)
                &&& layout.bytes() >= 4 * usize::BITS * block
                &&& layout.bytes() >= 8 * usize::BITS * usize::BITS
                &&& layout.bytes() == 4 * usize::BITS * block || layout.bytes() == 8 * usize::BITS
                    * usize::BITS
                &&& layout.alignment() == 4096
            }
            &&& r matches AllocStep::Grow { class: c, layout } ==> {
                &&& c == class
                &&& layout.bytes() == chain[0].used.len() * block
                &&& layout.alignment() == 4096
                &&& forall|j: int, q: int|
                    0 <= j < chain.len() && 0 <= q && q % (usize::BITS as int) + count
                        <= usize::BITS && q + count <= chain[j].used.len()
                        && !#[trigger] chain[j].used[q] ==> exists|i: int|
                        q < i < q + count && #[trigger] chain[j].used[i]
            }
            &&& r matches AllocStep::Done { addr, len, zero: z } ==> {
                &&& z == zero
                &&& len == count * block
                &&& 0 <= k < chain.len()
                &&& chain[k].block == block
                &&& addr == chain[k].base + at * block
                &&& addr >= chain[k].base + chain[k].record + chain[k].used.len() as int / 8
                &&& addr as int % align == 0
                &&& 0 <= at
                &&& at % (usize::BITS as int) + count <= usize::BITS
                &&& at + count <= chain[k].used.len()
                &&& forall|i: int| at <= i < at + count ==> !#[trigger] chain[k].used[i]
                &&& forall|j: int, q: int|
                    (0 <= j < k || j == k && q < at) && 0 <= q && q % (usize::BITS as int) + count
                        <= usize::BITS && q + count <= chain[j].used.len()
                        && !#[trigger] chain[j].used[q] ==> exists|i: int|
                        q < i < q + count && #[trigger] chain[j].used[i]
                &&& post.chains.len() == pre.chains.len()
                &&& forall|c: int|
                    0 <= c < pre.chains.len() && c != class ==> #[trigger] post.chains[c]
                        == pre.chains[c]
                &&& left.len() == chain.len()
                &&& forall|j: int| 0 <= j < chain.len() && j != k ==> #[trigger] left[j] == chain[j]
                &&& left[k].base == chain[k].base
                &&& left[k].block == chain[k].block
                &&& left[k].record == chain[k].record
                &&& left[k].used.len() == chain[k].used.len()
                &&& forall|i: int|
                    0 <= i < chain[k].used.len() ==> #[trigger] left[k].used[i] == (chain[k].used[i]
                        || at <= i < at + count)
            }
        }),
{
    let (class, block) = lemma_pool_for_request(size, align, padded, words);
    crate::laws::lemma_served_align(size, align);
    crate::size_class::lemma_class_valid(class);
    law_region_size(block);
    let count = crate::block_size::ceil_quotient(size, block);
    law_rounding_up(size, block);
    assert(count > 0) by (nonlinear_arith)
        requires
            size <= count * block,
            size > 0,
            block > 0,
    ;
    let chain = pre.chains[class];
    assert(pre.chain_ok(class));
    if chain.len() > 0 {
        law_first_place(chain, count);
        assert(chain[0].valid());
        crate::chain::lemma_geometry(block);
    }
    if r is Done {
        let (k, at) = crate::chain::chain_place(chain, count)->0;
        assert(chain[k].valid());
        assert(chain[k].block == chain[0].block);
        lemma_taken(chain[k], at, count);
        crate::laws::lemma_multiple_of_block(chain[k], at, align);
        (class, block, count, k, at)
    } else {
        (class, block, count, 0, 0)
    }
}

/// What someone is told who needs a default pool: that it is there; that someone else is setting it
/// up; or else to set it up, with a region of which size. Only the last locks the pool, and nothing
/// else changes.
pub proof fn law_init(pre: AllocView, post: AllocView, class: int, r: InitStep)
    requires
        pre.valid(),
        0 <= class < pre.chains.len(),
        r.answers(pre, post, class),
    ensures
        r is Ready <==> pre.chains[class].len() > 0,
        r is Busy <==> pre.chains[class].len() == 0 && pre.locked[class],
        post.record == pre.record,
        post.chains == pre.chains,
        r !is Allocate ==> post.locked == pre.locked,
        r matches InitStep::Allocate(layout) ==> {
            let block = crate::size_class::class_block(class);
            &&& post.locked == pre.locked.update(class, true)
            &&& layout.bytes() >= 4 * usize::BITS * block
            &&& layout.bytes() >= 8 * usize::BITS * usize::BITS
            &&& layout.bytes() == 4 * usize::BITS * block || layout.bytes() == 8 * usize::BITS
                * usize::BITS
            &&& layout.alignment() == 4096
        },
{
    crate::size_class::lemma_class_valid(class);
    law_region_size(crate::size_class::class_block(class));
}

/// A locked pool is unlocked whether a region came or not. Where one came, the pool consists of it
/// from then on, cut into the blocks of that pool to the last byte, with those in use that the
/// record and the bitmap reach into. Nothing else changes, and the allocator stays in order.
pub proof fn law_init_completed(
    pre: AllocView,
    post: AllocView,
    class: int,
    region: Option<usize>,
    ok: bool,
)
    requires
        pre.valid(),
        0 <= class < pre.chains.len(),
        pre.locked[class],
        region matches Some(base) ==> pre.region_free(
            base as int,
            crate::size_class::class_block(class),
        ),
        crate::pooled_alloc::init_completed(pre, post, class, region, ok),
    ensures
        post.valid(),
        ok <==> region is Some,
        post.record == pre.record,
        post.locked == pre.locked.update(class, false),
        post.chains.len() == pre.chains.len(),
        forall|c: int|
            0 <= c < pre.chains.len() && c != class ==> #[trigger] post.chains[c] == pre.chains[c],
        region is None ==> post.chains[class] == pre.chains[class],
        region matches Some(base) ==> {
            let pool = post.chains[class][0];
            let bits = pool.used.len();
            &&& post.chains[class].len() == 1
            &&& pool.base == base
            &&& pool.block == crate::size_class::class_block(class)
            &&& pool.record == pre.record
            &&& bits * pool.block >= 4 * usize::BITS * pool.block
            &&& bits * pool.block >= 8 * usize::BITS * usize::BITS
            &&& bits * pool.block == 4 * usize::BITS * pool.block || bits * pool.block == 8
                * usize::BITS * usize::BITS
            &&& forall|i: int|
                0 <= i < bits ==> (#[trigger] pool.used[i] <==> i * pool.block < pool.record
                    + bits as int / 8)
        },
{
    let open = pre.with_lock(class, false);
    assert(pre.chain_ok(class));
    assert forall|c: int| 0 <= c < open.chains.len() implies #[trigger] open.chain_ok(c) by {
        assert(pre.chain_ok(c));
    }
    assert(open.valid());
    if let Some(base) = region {
        let block = crate::size_class::class_block(class);
        crate::size_class::lemma_class_valid(class);
        law_fresh_pool(base as int, block, pre.record);
        assert forall|c: int|
            0 <= c < open.chains.len() implies crate::chain::region_joins(
            base as int,
            block,
            #[trigger] open.chains[c],
        ) by {
            assert(open.chains[c] == pre.chains[c]);
        }
        crate::alloc_view::lemma_add_region(open, class, base as int);
        assert(open.chains[class].push(PoolView::fresh(base as int, block, pre.record)) =~= seq![
            PoolView::fresh(base as int, block, pre.record),
        ]);
    }
}

/// A pool gets another region wherever one came, however many it has: at the end of its chain, cut
/// up like the others, with those blocks in use that the record and the bitmap reach into. Nothing
/// else changes, and the allocator stays in order.
pub proof fn law_growth(
    pre: AllocView,
    post: AllocView,
    class: int,
    region: Option<usize>,
    ok: bool,
)
    requires
        pre.valid(),
        0 <= class < pre.chains.len(),
        pre.chains[class].len() > 0,
        region matches Some(base) ==> pre.region_free(
            base as int,
            crate::size_class::class_block(class),
        ),
        crate::pooled_alloc::chain_grown(pre, post, class, region, ok),
    ensures
        post.valid(),
        ok <==> region is Some,
        region is None ==> post == pre,
        post.record == pre.record,
        post.locked == pre.locked,
        post.chains.len() == pre.chains.len(),
        forall|c: int|
            0 <= c < pre.chains.len() && c != class ==> #[trigger] post.chains[c] == pre.chains[c],
        region matches Some(base) ==> {
            let chain = pre.chains[class];
            let longer = post.chains[class];
            let last = longer[chain.len() as int];
            let bits = last.used.len();
            &&& longer.len() == chain.len() + 1
            &&& forall|j: int| 0 <= j < chain.len() ==> #[trigger] longer[j] == chain[j]
            &&& last.base == base
            &&& last.block == chain[0].block
            &&& last.record == chain[0].record
            &&& bits == chain[0].used.len()
            &&& forall|i: int|
                0 <= i < bits ==> (#[trigger] last.used[i] <==> i * last.block < last.record
                    + bits as int / 8)
        },
{
    assert(pre.chain_ok(class));
    assert(pre.chains[class][0].valid());
    if let Some(base) = region {
        law_fresh_pool(base as int, crate::size_class::class_block(class), pre.record);
        crate::alloc_view::lemma_add_region(pre, class, base as int);
    }
}

/// Which regions a pool can take over: those that start a page, can be addressed to their end, and
/// share no address with the region of any pool.
pub proof fn law_free_regions(state: AllocView, class: int, base: int, bytes: int)
    requires
        state.valid(),
        0 <= class < state.chains.len(),
        ({
            let block = crate::size_class::class_block(class);
            &&& bytes >= 4 * usize::BITS * block
            &&& bytes >= 8 * usize::BITS * usize::BITS
            &&& bytes == 4 * usize::BITS * block || bytes == 8 * usize::BITS * usize::BITS
        }),
    ensures
        state.region_free(base, crate::size_class::class_block(class)) <==> {
            &&& 0 < base
            &&& base % 4096 == 0
            &&& base + bytes <= usize::MAX
            &&& forall|c: int, k: int|
                0 <= c < state.chains.len() && 0 <= k < state.chains[c].len() ==> {
                    let pool = #[trigger] state.chains[c][k];
                    base + bytes <= pool.base || pool.base + pool.used.len() * pool.block <= base
                }
        },
{
    let block = crate::size_class::class_block(class);
    crate::size_class::lemma_class_valid(class);
    law_region_size(block);
    assert(bytes == BlockSize::pool_size(block));
    assert forall|c: int, k: int|
        0 <= c < state.chains.len() && 0 <= k < state.chains[c].len() implies (
    #[trigger] state.chains[c][k]).end() == state.chains[c][k].base + state.chains[c][k].used.len()
        * state.chains[c][k].block by {
        assert(state.chain_ok(c));
        assert(state.chains[c][k].valid());
        crate::chain::lemma_geometry(state.chains[c][k].block);
    }
    if state.region_free(base, block) {
        assert forall|c: int, k: int|
            0 <= c < state.chains.len() && 0 <= k < state.chains[c].len() implies {
            let pool = #[trigger] state.chains[c][k];
            base + bytes <= pool.base || pool.base + pool.used.len() * pool.block <= base
        } by {
            assert(crate::chain::region_joins(base, block, state.chains[c]));
            assert(crate::chain::region_apart(base, block, state.chains[c][k]));
        }
    }
    if crate::chain::region_valid(base, block) && forall|c: int, k: int|
        0 <= c < state.chains.len() && 0 <= k < state.chains[c].len() ==> {
            let pool = #[trigger] state.chains[c][k];
            base + bytes <= pool.base || pool.base + pool.used.len() * pool.block <= base
        } {
        assert forall|c: int|
            0 <= c < state.chains.len() implies crate::chain::region_joins(
            base,
            block,
            #[trigger] state.chains[c],
        ) by {
            assert forall|k: int|
                0 <= k < state.chains[c].len() implies crate::chain::region_apart(
                base,
                block,
                #[trigger] state.chains[c][k],
            ) by {
                let pool = state.chains[c][k];
                assert(pool.end() == pool.base + pool.used.len() * pool.block);
            }
        }
    }
}

/// A new allocator has no region and no lock. It can be had for any record that leaves a block of
/// the first machine word of blocks.
pub proof fn law_new(record: int)
    ensures
        crate::alloc_view::record_fits(record) <==> 0 <= record <= usize::BITS * (usize::BITS - 2),
        ({
            let state = AllocView::empty(record);
            &&& state.record == record
            &&& state.chains.len() == crate::size_class::class_count()
            &&& state.locked.len() == crate::size_class::class_count()
            &&& forall|c: int| 0 <= c < state.chains.len() ==> #[trigger] state.chains[c].len() == 0
            &&& forall|c: int| 0 <= c < state.locked.len() ==> !#[trigger] state.locked[c]
            &&& 0 <= record <= usize::BITS * (usize::BITS - 2) ==> state.valid()
        }),
{
    crate::block_size::lemma_pool_constants();
    crate::alloc_view::law_record_fits(record);
    let max = crate::alloc_view::MAX_RECORD_SIZE;
    assert(max == usize::BITS * (usize::BITS - 2)) by {
        assert(max == crate::block_size::SMALLEST_POOL * (crate::block_size::SMALLEST_POOL - 2));
        if usize::BITS == 32 {
            assert(usize::BITS * (usize::BITS - 2) == 32 * 30);
        } else {
            assert(usize::BITS * (usize::BITS - 2) == 64 * 62);
        }
    }
}

/// What is known of a pool of an allocator.
proof fn lemma_pool_of(state: AllocView, c: int, k: int)
    requires
        state.valid(),
        0 <= c < state.chains.len(),
        0 <= k < state.chains[c].len(),
    ensures
        state.chains[c][k].valid(),
        state.chains[c][k].block == crate::size_class::class_block(c),
        crate::chain::chain_valid(state.chains[c]),
        4096int % state.chains[c][k].block == 0,
        state.chains[c][k].block <= 2048,
{
    assert(state.chain_ok(c));
    assert(state.chains[c][k].valid());
    assert(state.chains[c][k].block == state.chains[c][0].block);
    law_default_pools();
    let b = crate::size_class::class_block(c);
    if usize::BITS == 32 {
        assert(b == 32 || b == 128 || b == 512 || b == 2048);
    } else {
        assert(b == 64 || b == 256 || b == 1024);
    }
    assert(4096int % 32 == 0 && 4096int % 64 == 0 && 4096int % 128 == 0 && 4096int % 256 == 0);
    assert(4096int % 512 == 0 && 4096int % 1024 == 0 && 4096int % 2048 == 0);
    assert(4096int % b == 0);
}

/// Memory that starts with a block of a pool belongs to it, whatever its size, where the blocks are
/// as aligned as the memory.
pub proof fn law_owner(state: AllocView, ptr: int, align: int, c: int, k: int, at: int)
    requires
        state.valid(),
        0 < align,
        0 <= c < state.chains.len(),
        0 <= k < state.chains[c].len(),
        0 <= at < state.chains[c][k].used.len(),
        ptr == state.chains[c][k].base + at * state.chains[c][k].block,
        align <= state.chains[c][k].block,
    ensures
        state.owner(ptr, align) == Some(c),
        crate::chain::chain_find(state.chains[c], ptr) == Some(k),
{
    lemma_pool_of(state, c, k);
    let pool = state.chains[c][k];
    assert(pool.block % pool.block == 0);
    crate::laws::lemma_multiple_of_block(pool, at, pool.block);
    assert(0 <= at * pool.block < pool.used.len() * pool.block) by (nonlinear_arith)
        requires
            0 <= at < pool.used.len(),
            pool.block > 0,
    ;
    lemma_find_at(state.chains[c], ptr, k);
    assert(state.holds(c, ptr));
    law_pool_for_alignment(align, c);
    crate::alloc_view::lemma_holder(state, crate::size_class::align_class(align), ptr, c);
}

/// Memory that does not start with a block of any pool, or only with blocks that are less aligned
/// than the memory, belongs to none.
pub proof fn law_no_owner(state: AllocView, ptr: int, align: int)
    requires
        state.valid(),
        0 < align,
        forall|c: int, k: int|
            0 <= c < state.chains.len() && 0 <= k < state.chains[c].len() ==> {
                let pool = #[trigger] state.chains[c][k];
                ||| ptr < pool.base
                ||| pool.base + pool.used.len() * pool.block <= ptr
                ||| ptr % pool.block != 0
                ||| pool.block < align
            },
    ensures
        state.owner(ptr, align) is None,
{
    let from = crate::size_class::align_class(align);
    assert forall|c: int| from <= c < state.chains.len() implies !#[trigger] state.holds(c, ptr) by {
        if state.holds(c, ptr) {
            law_pool_for_alignment(align, 0);
            law_pool_for_alignment(align, c);
            assert(state.chain_ok(c));
            law_find(state.chains[c], ptr);
            let k = crate::chain::chain_find(state.chains[c], ptr)->0;
            lemma_pool_of(state, c, k);
        }
    }
    crate::alloc_view::lemma_no_holder(state, from, ptr);
}

/// What can be given back: of a pool, blocks behind the record and the bitmap, as many as a machine
/// word has bits at most.
pub proof fn law_what_can_be_given_back(
    state: AllocView,
    ptr: int,
    size: int,
    align: int,
    c: int,
    k: int,
    at: int,
    count: int,
)
    requires
        state.valid(),
        0 < align,
        0 < size,
        0 <= c < state.chains.len(),
        0 <= k < state.chains[c].len(),
        0 <= at < state.chains[c][k].used.len(),
        ptr == state.chains[c][k].base + at * state.chains[c][k].block,
        align <= state.chains[c][k].block,
        (count - 1) * state.chains[c][k].block < size <= count * state.chains[c][k].block,
    ensures
        state.may_free(ptr, size, align) <==> {
            let pool = state.chains[c][k];
            &&& at * pool.block >= pool.record + pool.used.len() as int / 8
            &&& count <= usize::BITS
        },
{
    law_owner(state, ptr, align, c, k, at);
    lemma_pool_of(state, c, k);
    let pool = state.chains[c][k];
    crate::chain::lemma_geometry(pool.block);
    lemma_pieces(size, pool.block, count);
    lemma_in_header(pool.block, pool.record, at);
    let h = pool.header();
    assert(h * pool.block <= at * pool.block <==> h <= at) by (nonlinear_arith)
        requires
            pool.block > 0,
    ;
}

/// Memory that starts with a block of a pool goes back to it. As many blocks as hold the memory go
/// free, as far as their bits lie in the machine word of the first one, and nothing else changes.
pub proof fn law_give_back_to_pool(
    pre: AllocView,
    post: AllocView,
    ptr: int,
    layout: Layout,
    r: DeallocStep,
    c: int,
    k: int,
    at: int,
    count: int,
)
    requires
        pre.valid(),
        0 < layout.alignment(),
        0 < layout.bytes(),
        0 <= c < pre.chains.len(),
        0 <= k < pre.chains[c].len(),
        0 <= at < pre.chains[c][k].used.len(),
        ptr == pre.chains[c][k].base + at * pre.chains[c][k].block,
        layout.alignment() <= pre.chains[c][k].block,
        (count - 1) * pre.chains[c][k].block < layout.bytes() <= count * pre.chains[c][k].block,
        r.answers(pre, post, ptr, layout),
    ensures
        r is Done,
        post.record == pre.record,
        post.locked == pre.locked,
        post.chains.len() == pre.chains.len(),
        forall|d: int|
            0 <= d < pre.chains.len() && d != c ==> #[trigger] post.chains[d] == pre.chains[d],
        ({
            let chain = pre.chains[c];
            let left = post.chains[c];
            &&& left.len() == chain.len()
            &&& forall|j: int| 0 <= j < chain.len() && j != k ==> #[trigger] left[j] == chain[j]
            &&& left[k].base == chain[k].base
            &&& left[k].block == chain[k].block
            &&& left[k].record == chain[k].record
            &&& left[k].used.len() == chain[k].used.len()
            &&& forall|i: int|
                0 <= i < chain[k].used.len() ==> #[trigger] left[k].used[i] == (chain[k].used[i]
                    && !(at <= i < at + count && i / (usize::BITS as int) == at
                    / (usize::BITS as int)))
        }),
{
    law_owner(pre, ptr, layout.alignment(), c, k, at);
    lemma_pool_of(pre, c, k);
    let pool = pre.chains[c][k];
    lemma_pieces(layout.bytes(), pool.block, count);
    assert((at + 1) * pool.block == at * pool.block + pool.block) by (nonlinear_arith);
    lemma_given_back(pool, ptr, at, count);
}

/// Memory of no size is given back by doing nothing. Other memory that does not start with a block
/// of any pool goes back to the page allocator, as it came, and the pools stay as they are.
pub proof fn law_give_back_elsewhere(
    pre: AllocView,
    post: AllocView,
    ptr: int,
    layout: Layout,
    r: DeallocStep,
)
    requires
        pre.valid(),
        0 < layout.alignment(),
        r.answers(pre, post, ptr, layout),
    ensures
        layout.bytes() == 0 ==> r is Done && post == pre,
        layout.bytes() != 0 && (forall|c: int, k: int|
            0 <= c < pre.chains.len() && 0 <= k < pre.chains[c].len() ==> {
                let pool = #[trigger] pre.chains[c][k];
                ||| ptr < pool.base
                ||| pool.base + pool.used.len() * pool.block <= ptr
                ||| ptr % pool.block != 0
                ||| pool.block < layout.alignment()
            }) ==> r == DeallocStep::Forward(layout) && post == pre,
{
    if layout.bytes() != 0 && (forall|c: int, k: int|
        0 <= c < pre.chains.len() && 0 <= k < pre.chains[c].len() ==> {
            let pool = #[trigger] pre.chains[c][k];
            ||| ptr < pool.base
            ||| pool.base + pool.used.len() * pool.block <= ptr
            ||| ptr % pool.block != 0
            ||| pool.block < layout.alignment()
        }) {
        law_no_owner(pre, ptr, layout.alignment());
    }
}

/// Memory is moved to a place of the new size and the old alignment, and keeps all the bytes that
/// both places have.
pub proof fn law_move(step: Move, layout: Layout, new_size: int)
    requires
        step.moves(layout, new_size),
    ensures
        step.layout.bytes() == new_size,
        step.layout.alignment() == layout.alignment(),
        step.copy <= new_size,
        step.copy <= layout.bytes(),
        step.copy == new_size || step.copy == layout.bytes(),
{
}

/// The regions of the first default pool are given up from the end of its chain on.
pub proof fn law_order_of_giving_up(state: AllocView)
    ensures
        state.given_up().len() == state.chains[0].len(),
        forall|i: int|
            0 <= i < state.given_up().len() ==> #[trigger] state.given_up()[i]
                == state.chains[0][state.chains[0].len() - 1 - i],
{
}

/// A bit of a word is a binary place of its value.
pub proof fn law_bit(w: usize, i: int)
    requires
        0 <= i < usize::BITS,
    ensures
        crate::bits::bit(w, i) <==> (w as int / vstd::arithmetic::power2::pow2(i as nat) as int) % 2
            == 1,
{
    let j = i as usize;
    vstd::bits::lemma_usize_shr_is_div(w, j);
    let v: usize = w >> j;
    assert(v & 1usize == v % 2usize) by (bit_vector);
}

/// The set bits of a word are counted one by one.
pub proof fn law_ones(w: usize, n: int)
    requires
        0 <= n,
    ensures
        Set::<int>::new(|i: int| 0 <= i < n && crate::bits::bit(w, i)).finite(),
        crate::bits::ones_below(w, n) == Set::<int>::new(
            |i: int| 0 <= i < n && crate::bits::bit(w, i),
        ).len(),
    decreases n,
{
    let all = Set::<int>::new(|i: int| 0 <= i < n && crate::bits::bit(w, i));
    if n == 0 {
        assert(all =~= Set::empty());
    } else {
        let before = Set::<int>::new(|i: int| 0 <= i < n - 1 && crate::bits::bit(w, i));
        law_ones(w, n - 1);
        if crate::bits::bit(w, n - 1) {
            assert(all =~= before.insert(n - 1));
        } else {
            assert(all =~= before);
        }
    }
}

} // verus!
