//! What a chain of pools is, and facts about it.
use vstd::prelude::*;

use crate::block_size::{BlockSize, MIN_POOL_SIZE, POOL_SCALE};

verus! {

/// The alignment of every region that a pool takes over.
pub const PAGE_SIZE: usize = 4096;

/// The number of bytes of the bitmap of a pool.
pub open spec fn bitmap_bytes(block: int) -> int {
    BlockSize::pool_size(block) / block / 8
}

/// The number of blocks at the head of a region that are set aside, never to be handed out: as many
/// as a record of `record` bytes and a bitmap would fill.
pub open spec fn header_slots(block: int, record: int) -> int {
    crate::block_size::ceil_quotient(bitmap_bytes(block) + record, block)
}

/// What a pool is: where its region lies, how it is cut up, and which blocks are in use.
pub struct PoolView {
    /// The address of the region.
    pub base: int,
    /// The size of a block.
    pub block: int,
    /// The size of the record that room is set aside for at the head of the region.
    pub record: int,
    /// For each block whether it is in use.
    pub used: Seq<bool>,
}

impl PoolView {
    /// A pool of which only the header is in use.
    pub open spec fn fresh(base: int, block: int, record: int) -> Self {
        PoolView {
            base,
            block,
            record,
            used: Seq::new(
                (BlockSize::pool_size(block) / block) as nat,
                |i: int| i < header_slots(block, record),
            ),
        }
    }

    /// The size of the region.
    pub open spec fn size(self) -> int {
        BlockSize::pool_size(self.block)
    }

    /// The address behind the region.
    pub open spec fn end(self) -> int {
        self.base + self.size()
    }

    /// The number of blocks at the head that are never handed out.
    pub open spec fn header(self) -> int {
        header_slots(self.block, self.record)
    }

    /// The address of a block.
    pub open spec fn address(self, slot: int) -> int {
        self.base + slot * self.block
    }

    /// The block that an address lies in.
    pub open spec fn slot_of(self, ptr: int) -> int {
        (ptr - self.base) / self.block
    }

    /// Whether an address lies in the region.
    pub open spec fn contains(self, ptr: int) -> bool {
        self.base <= ptr < self.end()
    }

    /// Whether two pools lie apart.
    pub open spec fn apart(self, other: Self) -> bool {
        self.end() <= other.base || other.end() <= self.base
    }

    /// Where `count` blocks are taken from: the lowest place behind the header at which they fit,
    /// else the lowest place of all.
    pub open spec fn place(self, count: int) -> Option<int> {
        match crate::arena::least_fit(self.used, self.header(), count) {
            Some(at) => Some(at),
            None => crate::arena::least_fit(self.used, 0, count),
        }
    }

    /// The pool with the blocks `from..to` in use, or free.
    pub open spec fn with_run(self, from: int, to: int, value: bool) -> Self {
        PoolView { used: crate::arena::with_run(self.used, from, to, value), ..self }
    }

    /// The pool after the blocks of a run that starts at `ptr` have been given back, as far as
    /// they lie in the bitmap word of the first one.
    pub open spec fn freed(self, ptr: int, count: int) -> Self {
        let at = self.slot_of(ptr);
        self.with_run(at, crate::arena::run_end(at, count), false)
    }

    /// The pool is cut up as its block size demands, and its header is in use.
    pub open spec fn valid(self) -> bool {
        &&& BlockSize::valid(self.block)
        &&& 0 <= self.record
        &&& self.header() < usize::BITS
        &&& region_valid(self.base, self.block)
        &&& self.used.len() == self.size() / self.block
        &&& forall|i: int| 0 <= i < self.header() ==> #[trigger] self.used[i]
    }
}

/// The regions that a pool with blocks of `block` bytes can take over.
pub open spec fn region_valid(base: int, block: int) -> bool {
    &&& 0 < base
    &&& base % PAGE_SIZE as int == 0
    &&& base + BlockSize::pool_size(block) <= usize::MAX
}

/// Whether a region for blocks of `block` bytes at `base` lies apart from a pool.
pub open spec fn region_apart(base: int, block: int, pool: PoolView) -> bool {
    base + BlockSize::pool_size(block) <= pool.base || pool.end() <= base
}

/// Whether a region for blocks of `block` bytes at `base` can join a chain.
pub open spec fn region_joins(base: int, block: int, chain: Seq<PoolView>) -> bool {
    &&& region_valid(base, block)
    &&& forall|i: int| 0 <= i < chain.len() ==> region_apart(base, block, #[trigger] chain[i])
}

/// The pools of a chain are alike and lie apart.
pub open spec fn chain_valid(chain: Seq<PoolView>) -> bool {
    &&& chain.len() > 0
    &&& forall|i: int| 0 <= i < chain.len() ==> (#[trigger] chain[i]).valid()
    &&& forall|i: int|
        0 <= i < chain.len() ==> (#[trigger] chain[i]).block == chain[0].block && chain[i].record
            == chain[0].record
    &&& forall|i: int, j: int|
        0 <= i < j < chain.len() ==> (#[trigger] chain[i]).apart(#[trigger] chain[j])
}

/// The first pool of a chain whose region holds an address.
pub open spec fn chain_find(chain: Seq<PoolView>, ptr: int) -> Option<int>
    decreases chain.len(),
{
    if chain.len() == 0 {
        None
    } else if chain[0].contains(ptr) {
        Some(0int)
    } else {
        match chain_find(chain.drop_first(), ptr) {
            Some(k) => Some(k + 1),
            None => None,
        }
    }
}

/// The first pool of a chain that has room for `count` blocks, and the place in it.
pub open spec fn chain_place(chain: Seq<PoolView>, count: int) -> Option<(int, int)>
    decreases chain.len(),
{
    if chain.len() == 0 {
        None
    } else {
        match chain[0].place(count) {
            Some(at) => Some((0int, at)),
            None => match chain_place(chain.drop_first(), count) {
                Some((k, at)) => Some((k + 1, at)),
                None => None,
            },
        }
    }
}

/// The number of blocks of a chain that are in use.
pub open spec fn chain_used(chain: Seq<PoolView>) -> nat
    decreases chain.len(),
{
    if chain.len() == 0 {
        0
    } else {
        crate::arena::used_count(chain[0].used) + chain_used(chain.drop_first())
    }
}

/// Whether a chain is what comes of setting a pool up in the region at hand: nothing where there is
/// none.
pub open spec fn set_up(
    chain: Option<Seq<PoolView>>,
    block: int,
    record: int,
    region: Option<usize>,
) -> bool {
    match region {
        Some(base) => chain == Some(seq![PoolView::fresh(base as int, block, record)]),
        None => chain is None,
    }
}

/// Whether `post` is the chain `pre` with one more pool at its end, in the region at hand. Without
/// a region it stays as it is, and `ok` is false.
pub open spec fn extended(
    pre: Seq<PoolView>,
    post: Seq<PoolView>,
    region: Option<usize>,
    ok: bool,
) -> bool {
    match region {
        Some(base) => {
            &&& ok
            &&& post == pre.push(PoolView::fresh(base as int, pre[0].block, pre[0].record))
        },
        None => !ok && post == pre,
    }
}

/// Whether `post` is the chain `pre` with a second pool: as it is where it has one, else extended.
pub open spec fn next_provided(
    pre: Seq<PoolView>,
    post: Seq<PoolView>,
    region: Option<usize>,
    ok: bool,
) -> bool {
    if pre.len() > 1 {
        ok && post == pre
    } else {
        extended(pre, post, region, ok)
    }
}

/// Whether `post` is the chain `pre` after `count` blocks have been given back, the first of them
/// at `ptr`.
pub open spec fn released(
    pre: Seq<PoolView>,
    post: Seq<PoolView>,
    ptr: int,
    count: int,
) -> bool {
    let k = chain_find(pre, ptr)->0;
    post == pre.update(k, pre[k].freed(ptr, count))
}

/// How a region of blocks of a valid size is cut up.
pub proof fn lemma_geometry(block: int)
    requires
        BlockSize::valid(block),
    ensures
        BlockSize::pool_size(block) / block * block == BlockSize::pool_size(block),
        BlockSize::pool_size(block) / block >= 4 * usize::BITS,
        (BlockSize::pool_size(block) / block) % (usize::BITS as int) == 0,
        block <= BlockSize::pool_size(block),
        BlockSize::pool_size(block) <= isize::MAX / 16,
{
    let k = crate::bits::lemma_exponent(block as usize);
    let size = BlockSize::pool_size(block);
    crate::block_size::lemma_pool_constants();
    vstd::arithmetic::power2::lemma2_to64();
    if usize::BITS == 32 {
        assert(block * POOL_SCALE == block * 128);
        assert(size == if block < 64 { 8192 } else { block * 128 });
    } else {
        assert(block * POOL_SCALE == block * 256);
        assert(size == if block < 128 { 32768 } else { block * 256 });
    }
    if block < 128 {
        if k >= 7 {
            if k > 7 {
                vstd::arithmetic::power2::lemma_pow2_strictly_increases(7, k as nat);
            }
            assert(false);
        }
        assert(block == 1 || block == 2 || block == 4 || block == 8 || block == 16 || block == 32
            || block == 64);
    } else {
        vstd::arithmetic::div_mod::lemma_div_multiples_vanish(POOL_SCALE as int, block);
        vstd::arithmetic::mul::lemma_mul_is_commutative(POOL_SCALE as int, block);
    }
}

/// The exponent of a block size is below the width of a word.
pub proof fn lemma_small_exponent(k: u32)
    requires
        BlockSize::valid(vstd::arithmetic::power2::pow2(k as nat) as int),
    ensures
        k < usize::BITS,
{
    vstd::layout::unsigned_int_max_values();
    if k > usize::BITS {
        vstd::arithmetic::power2::lemma_pow2_strictly_increases(usize::BITS as nat, k as nat);
    }
}

/// A chain without its first pool is a chain.
pub proof fn lemma_chain_tail(chain: Seq<PoolView>)
    requires
        chain_valid(chain),
        chain.len() > 1,
    ensures
        chain_valid(chain.drop_first()),
{
    let t = chain.drop_first();
    assert forall|i: int| 0 <= i < t.len() implies (#[trigger] t[i]).valid() && t[i].block
        == t[0].block && t[i].record == t[0].record by {
        assert(t[i] == chain[i + 1]);
        assert(t[0] == chain[1]);
    }
    assert forall|i: int, j: int| 0 <= i < j < t.len() implies (#[trigger] t[i]).apart(
        #[trigger] t[j],
    ) by {
        assert(chain[i + 1].apart(chain[j + 1]));
    }
}

/// What the first pool that holds an address is.
pub proof fn lemma_chain_find(chain: Seq<PoolView>, ptr: int)
    ensures
        match chain_find(chain, ptr) {
            Some(k) => {
                &&& 0 <= k < chain.len()
                &&& chain[k].contains(ptr)
                &&& forall|i: int| 0 <= i < k ==> !(#[trigger] chain[i]).contains(ptr)
            },
            None => forall|i: int| 0 <= i < chain.len() ==> !(#[trigger] chain[i]).contains(ptr),
        },
    decreases chain.len(),
{
    if chain.len() > 0 && !chain[0].contains(ptr) {
        let t = chain.drop_first();
        lemma_chain_find(t, ptr);
        assert forall|i: int|
            0 < i < chain.len() && (chain_find(t, ptr) matches Some(k) ==> i
                <= k) implies !(#[trigger] chain[i]).contains(ptr) by {
            assert(chain[i] == t[i - 1]);
        }
    }
}

/// The addresses of the regions of a chain.
spec fn footprint(chain: Seq<PoolView>) -> Set<int>
    decreases chain.len(),
{
    if chain.len() == 0 {
        Set::empty()
    } else {
        vstd::set_lib::set_int_range(chain[0].base, chain[0].end()).union(
            footprint(chain.drop_first()),
        )
    }
}

proof fn lemma_footprint_contains(chain: Seq<PoolView>, a: int)
    ensures
        footprint(chain).contains(a) <==> exists|i: int|
            0 <= i < chain.len() && (#[trigger] chain[i]).contains(a),
    decreases chain.len(),
{
    if chain.len() > 0 {
        let t = chain.drop_first();
        lemma_footprint_contains(t, a);
        if exists|i: int| 0 <= i < t.len() && (#[trigger] t[i]).contains(a) {
            let i = choose|i: int| 0 <= i < t.len() && (#[trigger] t[i]).contains(a);
            assert(chain[i + 1].contains(a));
        }
        if exists|i: int| 0 <= i < chain.len() && (#[trigger] chain[i]).contains(a) {
            let i = choose|i: int| 0 <= i < chain.len() && (#[trigger] chain[i]).contains(a);
            if i > 0 {
                assert(t[i - 1].contains(a));
            }
        }
    }
}

proof fn lemma_used_count_bound(used: Seq<bool>)
    ensures
        crate::arena::used_count(used) <= used.len(),
    decreases used.len(),
{
    if used.len() > 0 {
        lemma_used_count_bound(used.drop_last());
    }
}

/// A chain has no more blocks in use than it has addresses.
proof fn lemma_chain_used_footprint(chain: Seq<PoolView>)
    requires
        chain_valid(chain),
    ensures
        footprint(chain).finite(),
        chain_used(chain) <= footprint(chain).len(),
    decreases chain.len(),
{
    let h = chain[0];
    let t = chain.drop_first();
    let here = vstd::set_lib::set_int_range(h.base, h.end());
    assert(h.valid());
    lemma_geometry(h.block);
    vstd::set_lib::lemma_int_range(h.base, h.end());
    lemma_used_count_bound(h.used);
    vstd::arithmetic::div_mod::lemma_div_is_ordered_by_denominator(h.size(), 1, h.block);
    if chain.len() > 1 {
        lemma_chain_tail(chain);
        lemma_chain_used_footprint(t);
        assert forall|a: int| here.contains(a) implies !footprint(t).contains(a) by {
            lemma_footprint_contains(t, a);
            if footprint(t).contains(a) {
                let i = choose|i: int| 0 <= i < t.len() && (#[trigger] t[i]).contains(a);
                assert(chain[0].apart(chain[i + 1]));
            }
        }
        assert(here.disjoint(footprint(t)));
        vstd::set_lib::lemma_set_disjoint_lens(here, footprint(t));
    } else {
        assert(t =~= Seq::empty());
        assert(chain_used(t) == 0);
        assert(here.union(footprint(t)) =~= here);
    }
}

/// The number of blocks in use fits in a machine word.
pub proof fn lemma_chain_used_bound(chain: Seq<PoolView>)
    requires
        chain_valid(chain),
    ensures
        chain_used(chain) <= usize::MAX,
{
    lemma_chain_used_footprint(chain);
    let all = vstd::set_lib::set_int_range(0, usize::MAX as int);
    vstd::set_lib::lemma_int_range(0, usize::MAX as int);
    assert forall|a: int| footprint(chain).contains(a) implies all.contains(a) by {
        lemma_footprint_contains(chain, a);
        let i = choose|i: int| 0 <= i < chain.len() && (#[trigger] chain[i]).contains(a);
        assert(chain[i].valid());
    }
    vstd::set_lib::lemma_len_subset(footprint(chain), all);
}

/// The header of a pool lies in its region.
pub proof fn lemma_header_fits(block: int, record: int)
    requires
        BlockSize::valid(block),
        0 <= record,
        header_slots(block, record) < usize::BITS,
    ensures
        0 <= header_slots(block, record),
        bitmap_bytes(block) + record + block - 1 <= usize::MAX,
        header_slots(block, record) * block <= BlockSize::pool_size(block),
        header_slots(block, record) * block >= record,
{
    lemma_geometry(block);
    let size = BlockSize::pool_size(block);
    let n = bitmap_bytes(block) + record;
    let h = header_slots(block, record);
    vstd::arithmetic::div_mod::lemma_div_pos_is_pos(size, block);
    vstd::arithmetic::div_mod::lemma_div_pos_is_pos(n + block - 1, block);
    vstd::arithmetic::div_mod::lemma_fundamental_div_mod(n + block - 1, block);
    assert(h * block == block * h) by (nonlinear_arith);
    assert(h * block <= (size / block) * block) by (nonlinear_arith)
        requires
            h <= size / block,
            block > 0,
    ;
}

/// Where a pool takes blocks from, they are free and lie in one bitmap word.
pub proof fn lemma_place(pool: PoolView, count: int)
    requires
        pool.valid(),
        0 <= count,
    ensures
        pool.place(count) matches Some(at) ==> {
            &&& crate::arena::fits(pool.used, at, count)
            &&& count > 0 ==> pool.header() <= at
            &&& pool.with_run(at, at + count, true).valid()
        },
{
    lemma_geometry(pool.block);
    lemma_header_fits(pool.block, pool.record);
    crate::arena::lemma_least_fit(pool.used, pool.header(), count);
    crate::arena::lemma_least_fit(pool.used, 0, count);
    if let Some(at) = pool.place(count) {
        if 0 <= at < pool.header() && count > 0 {
            assert(pool.used[at]);
        }
    }
}

/// What the first pool with room is.
pub proof fn lemma_chain_place(chain: Seq<PoolView>, count: int)
    requires
        forall|i: int| 0 <= i < chain.len() ==> (#[trigger] chain[i]).valid(),
        0 <= count,
    ensures
        match chain_place(chain, count) {
            Some((k, at)) => {
                &&& 0 <= k < chain.len()
                &&& chain[k].place(count) == Some(at)
                &&& crate::arena::fits(chain[k].used, at, count)
                &&& count > 0 ==> chain[k].header() <= at
                &&& chain[k].with_run(at, at + count, true).valid()
                &&& forall|i: int| 0 <= i < k ==> (#[trigger] chain[i]).place(count) is None
            },
            None => forall|i: int| 0 <= i < chain.len() ==> (#[trigger] chain[i]).place(count) is None,
        },
    decreases chain.len(),
{
    if chain.len() > 0 {
        assert(chain[0].valid());
        lemma_place(chain[0], count);
        if chain[0].place(count) is None {
            let t = chain.drop_first();
            assert forall|i: int| 0 <= i < t.len() implies (#[trigger] t[i]).valid() by {
                assert(t[i] == chain[i + 1]);
            }
            lemma_chain_place(t, count);
            assert forall|i: int|
                0 < i < chain.len() && (chain_place(t, count) matches Some((k, at)) ==> i
                    <= k) implies (#[trigger] chain[i]).place(count) is None by {
                assert(chain[i] == t[i - 1]);
            }
        }
    }
}

/// A chain stays a chain when the blocks in use of one pool change.
pub proof fn lemma_chain_update(chain: Seq<PoolView>, k: int, pool: PoolView)
    requires
        chain_valid(chain),
        0 <= k < chain.len(),
        pool.valid(),
        pool.base == chain[k].base,
        pool.block == chain[k].block,
        pool.record == chain[k].record,
    ensures
        chain_valid(chain.update(k, pool)),
{
    let c = chain.update(k, pool);
    assert forall|i: int| 0 <= i < c.len() implies (#[trigger] c[i]).valid() && c[i].block
        == c[0].block && c[i].record == c[0].record by {
        assert(chain[i].valid());
        assert(chain[i].block == chain[0].block);
        assert(chain[k].block == chain[0].block);
    }
    assert forall|i: int, j: int| 0 <= i < j < c.len() implies (#[trigger] c[i]).apart(
        #[trigger] c[j],
    ) by {
        assert(chain[i].apart(chain[j]));
    }
}

/// A fresh pool is cut up as its block size demands.
pub proof fn lemma_fresh(base: int, block: int, record: int)
    requires
        BlockSize::valid(block),
        0 <= record,
        header_slots(block, record) < usize::BITS,
        region_valid(base, block),
    ensures
        PoolView::fresh(base, block, record).valid(),
{
    lemma_geometry(block);
    lemma_header_fits(block, record);
}

/// A chain stays a chain when a fresh pool joins it.
pub proof fn lemma_chain_push(chain: Seq<PoolView>, base: int)
    requires
        chain_valid(chain),
        region_joins(base, chain[0].block, chain),
    ensures
        chain_valid(chain.push(PoolView::fresh(base, chain[0].block, chain[0].record))),
{
    assert(chain[0].valid());
    let v = PoolView::fresh(base, chain[0].block, chain[0].record);
    lemma_fresh(base, chain[0].block, chain[0].record);
    let c = chain.push(v);
    assert forall|i: int| 0 <= i < c.len() implies (#[trigger] c[i]).valid() && c[i].block
        == c[0].block && c[i].record == c[0].record by {
        if i < chain.len() {
            assert(chain[i].valid());
            assert(chain[i].block == chain[0].block);
        }
    }
    assert forall|i: int, j: int| 0 <= i < j < c.len() implies (#[trigger] c[i]).apart(
        #[trigger] c[j],
    ) by {
        if j < chain.len() {
            assert(chain[i].apart(chain[j]));
        } else {
            assert(region_apart(base, chain[0].block, chain[i]));
        }
    }
}

/// Giving back blocks behind the header keeps a pool cut up as before.
pub proof fn lemma_freed(pool: PoolView, ptr: int, count: int)
    requires
        pool.valid(),
        pool.address(pool.header()) <= ptr < pool.end(),
    ensures
        pool.header() <= pool.slot_of(ptr) < pool.used.len(),
        pool.freed(ptr, count).valid(),
{
    lemma_geometry(pool.block);
    let n = pool.size() / pool.block;
    let d = ptr - pool.base;
    let q = pool.slot_of(ptr);
    vstd::arithmetic::div_mod::lemma_fundamental_div_mod(d, pool.block);
    assert(pool.header() <= q && q < n) by (nonlinear_arith)
        requires
            pool.header() * pool.block <= d,
            d < n * pool.block,
            d == pool.block * q + d % pool.block,
            0 <= d % pool.block < pool.block,
    ;
}

} // verus!
