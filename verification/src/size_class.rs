//! The default pools, and which of them serves which request.
use vstd::prelude::*;

use crate::bits::{ilog2, trailing_zeros};
use crate::block_size::{BlockSize, SMALLEST_POOL};
use crate::chain::PAGE_SIZE;

verus! {

/// The number of default pools.
pub open spec fn class_count() -> int {
    if usize::BITS == 32 {
        4
    } else {
        3
    }
}

/// The block size of a default pool: four times that of the one before it.
pub open spec fn class_block(class: int) -> int {
    SMALLEST_POOL * vstd::arithmetic::power2::pow2((2 * class) as nat)
}

/// The pool that serves requests of `size` bytes: the last one whose blocks are no larger than
/// the size rounded up to the smallest blocks. Requests of a page and more are for no pool.
pub open spec fn size_class(size: int) -> int {
    let pieces = crate::block_size::ceil_quotient(size, SMALLEST_POOL as int);
    if size >= PAGE_SIZE {
        class_count()
    } else if pieces < 4 {
        0
    } else if pieces < 16 {
        1
    } else if pieces < 64 {
        2
    } else {
        3
    }
}

/// The pool that serves requests of `size` bytes with alignment `align`: the next one where the
/// blocks of the pool for that size are not aligned enough.
pub open spec fn request_class(size: int, align: int) -> int {
    let class = size_class(size);
    if class_block(class) < align {
        class + 1
    } else {
        class
    }
}

/// The pool in which the blocks of a request of `size` bytes are looked for first: the last one
/// whose blocks are no larger than the request.
pub open spec fn search_class(size: int) -> int {
    if size >= PAGE_SIZE {
        class_count()
    } else if size < class_block(1) {
        0
    } else if size < class_block(2) {
        1
    } else if size < class_block(3) {
        2
    } else {
        3
    }
}

/// The first pool whose blocks have alignment `align`, if there is one.
pub open spec fn align_class(align: int) -> int {
    if align <= class_block(0) {
        0
    } else if align <= class_block(1) {
        1
    } else if align <= class_block(2) {
        2
    } else if align <= class_block(3) && class_count() > 3 {
        3
    } else {
        class_count()
    }
}

/// The block sizes of the default pools.
pub proof fn lemma_class_blocks()
    ensures
        class_block(0) == SMALLEST_POOL,
        class_block(1) == 4 * SMALLEST_POOL,
        class_block(2) == 16 * SMALLEST_POOL,
        class_block(3) == 64 * SMALLEST_POOL,
        class_block(4) == 256 * SMALLEST_POOL,
{
    vstd::arithmetic::power2::lemma2_to64();
}

/// The number of default pools.
pub fn default_pool_count() -> (r: usize)
    ensures
        r == class_count(),
{
    if usize::BITS == 32 {
        4
    } else {
        3
    }
}

/// The block size of a default pool.
pub fn pool_block_len(class: usize) -> (r: BlockSize)
    requires
        class < class_count(),
    ensures
        r.value() == class_block(class as int),
{
    let block: usize = SMALLEST_POOL << (2 * class);
    proof {
        lemma_class_blocks();
        lemma_class_valid(class as int);
        vstd::bits::lemma_usize_shl_is_mul(SMALLEST_POOL, (2 * class) as usize);
    }
    BlockSize::new_unchecked(block)
}

/// The block size of a default pool, if there are that many.
pub fn default_pool_size(class: usize) -> (r: Option<BlockSize>)
    ensures
        r is Some <==> class < class_count(),
        r matches Some(block) ==> block.value() == class_block(class as int),
{
    if class < default_pool_count() {
        Some(pool_block_len(class))
    } else {
        None
    }
}

/// The block size of each default pool is a valid one.
pub proof fn lemma_class_valid(class: int)
    requires
        0 <= class <= class_count(),
    ensures
        BlockSize::valid(class_block(class)),
{
    lemma_class_blocks();
    let e: nat = if usize::BITS == 32 {
        (5 + 2 * class) as nat
    } else {
        (6 + 2 * class) as nat
    };
    vstd::arithmetic::power2::lemma2_to64();
    assert(vstd::arithmetic::power2::pow2(e) == class_block(class));
    vstd::arithmetic::power2::lemma_pow2(e);
    vstd::arithmetic::power2::is_pow2_equiv(class_block(class));
}

/// The width of a machine word is a power of two.
proof fn lemma_smallest_exponent()
    ensures
        vstd::arithmetic::power2::is_pow2(SMALLEST_POOL as int),
{
    lemma_class_blocks();
    lemma_class_valid(0);
}

/// The binary logarithm of a number below the thirteenth power of two, by comparison.
proof fn lemma_log_bounds(n: int, log: u32)
    requires
        0 < n <= PAGE_SIZE,
        vstd::arithmetic::power2::pow2(log as nat) <= n < vstd::arithmetic::power2::pow2(
            (log + 1) as nat,
        ),
    ensures
        log <= 12,
        log == if n < 2 {
            0int
        } else if n < 4 {
            1
        } else if n < 8 {
            2
        } else if n < 16 {
            3
        } else if n < 32 {
            4
        } else if n < 64 {
            5
        } else if n < 128 {
            6
        } else if n < 256 {
            7
        } else if n < 512 {
            8
        } else if n < 1024 {
            9
        } else if n < 2048 {
            10
        } else if n < 4096 {
            11
        } else {
            12
        },
{
    vstd::arithmetic::power2::lemma2_to64();
    if log > 12 {
        vstd::arithmetic::power2::lemma_pow2_strictly_increases(12, log as nat);
    }
}

/// The pool for requests of `size` bytes.
pub fn class_of_size(size: usize) -> (r: usize)
    ensures
        r == size_class(size as int),
{
    if size <= SMALLEST_POOL {
        0
    } else if size >= PAGE_SIZE {
        default_pool_count()
    } else {
        let pieces: usize = (size + (SMALLEST_POOL - 1)) / SMALLEST_POOL;
        let log = ilog2(pieces);
        proof {
            lemma_log_bounds(pieces as int, log);
            assert(log >> 1 == log / 2) by (bit_vector);
        }
        (log >> 1) as usize
    }
}

/// The pool for requests of `size` bytes with alignment `align`.
pub fn class_of_request(size: usize, align: usize) -> (r: usize)
    requires
        align <= PAGE_SIZE,
    ensures
        r == request_class(size as int, align as int),
{
    let class = class_of_size(size);
    proof {
        lemma_class_blocks();
        assert(class << 1 == 2 * class) by (bit_vector)
            requires
                class <= 4,
        ;
        crate::bits::lemma_shl_one((2 * class) as u32);
        vstd::arithmetic::mul::lemma_mul_is_commutative(
            vstd::arithmetic::power2::pow2((2 * class) as nat) as int,
            SMALLEST_POOL as int,
        );
    }
    let block: usize = (1usize << (class << 1)) * SMALLEST_POOL;
    if block < align {
        class + 1
    } else {
        class
    }
}

/// The first pool whose blocks have alignment `align`.
pub fn class_of_align(align: usize) -> (r: usize)
    requires
        vstd::arithmetic::power2::is_pow2(align as int),
    ensures
        r == align_class(align as int),
{
    proof {
        lemma_class_blocks();
    }
    if align < SMALLEST_POOL {
        0
    } else if align >= PAGE_SIZE {
        default_pool_count()
    } else {
        let a = trailing_zeros(align);
        let b = trailing_zeros(SMALLEST_POOL);
        proof {
            let k = crate::bits::lemma_exponent(align);
            crate::bits::lemma_only_bit(align, k, 0);
            crate::bits::lemma_only_bit(align, k, a as int);
            lemma_smallest_exponent();
            let j = crate::bits::lemma_exponent(SMALLEST_POOL);
            crate::bits::lemma_only_bit(SMALLEST_POOL, j, 0);
            crate::bits::lemma_only_bit(SMALLEST_POOL, j, b as int);
            vstd::arithmetic::power2::lemma2_to64();
            vstd::arithmetic::power2::lemma_pow2_unfold((k + 1) as nat);
            vstd::arithmetic::power2::lemma_pow2_unfold((j + 1) as nat);
            lemma_log_bounds(align as int, k);
            lemma_log_bounds(SMALLEST_POOL as int, j);
            let d: u32 = (a - b + 1) as u32;
            assert(d >> 1 == d / 2) by (bit_vector);
        }
        ((a - b + 1) >> 1) as usize
    }
}

/// The pool in which the blocks of a request of `size` bytes are looked for first.
pub fn class_to_search(size: usize) -> (r: usize)
    ensures
        r == search_class(size as int),
{
    proof {
        lemma_class_blocks();
    }
    if size < SMALLEST_POOL {
        0
    } else if size >= PAGE_SIZE {
        default_pool_count()
    } else {
        let a = ilog2(size);
        let b = ilog2(SMALLEST_POOL);
        proof {
            lemma_log_bounds(size as int, a);
            lemma_log_bounds(SMALLEST_POOL as int, b);
            let d: u32 = (a - b) as u32;
            assert(d >> 1 == d / 2) by (bit_vector);
        }
        ((a - b) >> 1) as usize
    }
}

} // verus!
