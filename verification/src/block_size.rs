//! Block sizes, and the sizes of the pools made of such blocks.
use vstd::prelude::*;

use core::ops::Div;
use vstd::std_specs::ops::DivSpecImpl;

verus! {

/// The block size of the smallest default pool: the width of a machine word in bits.
pub const SMALLEST_POOL: usize = usize::BITS as usize;

/// The smallest total size (in bytes) a single pool will take on.
///
/// A power of two that is at least 4096.
#[verifier::nonlinear]
pub const MIN_POOL_SIZE: usize = SMALLEST_POOL * SMALLEST_POOL * 8;

/// The minimum number of blocks that are obtained at a time.
///
/// Never exceeds 4096.
pub const POOL_SCALE: usize = (usize::BITS as usize) * 4;

/// The values of the two constants for either width of a machine word.
pub proof fn lemma_pool_constants()
    ensures
        usize::BITS == 32 || usize::BITS == 64,
        usize::BITS == 32 ==> MIN_POOL_SIZE == 8192 && POOL_SCALE == 128,
        usize::BITS == 64 ==> MIN_POOL_SIZE == 32768 && POOL_SCALE == 256,
{
    assert(SMALLEST_POOL * SMALLEST_POOL * 8 == MIN_POOL_SIZE);
    if usize::BITS == 32 {
        assert(SMALLEST_POOL * SMALLEST_POOL == 32 * 32);
    } else {
        assert(SMALLEST_POOL * SMALLEST_POOL == 64 * 64);
    }
}

/// The least pool size is a power of two and at least 4096.
pub proof fn law_min_pool_size()
    ensures
        vstd::arithmetic::power2::is_pow2(MIN_POOL_SIZE as int),
        MIN_POOL_SIZE >= 4096,
{
    lemma_pool_constants();
    vstd::arithmetic::power2::lemma2_to64();
    vstd::arithmetic::power2::is_pow2_equiv(MIN_POOL_SIZE as int);
    vstd::arithmetic::power2::lemma_pow2(13);
    vstd::arithmetic::power2::lemma_pow2(15);
}

/// The pool scale never exceeds 4096.
pub proof fn law_pool_scale()
    ensures
        POOL_SCALE <= 4096,
{
}

/// The least multiple of `unit` that is at least `value`.
pub open spec fn ceil_multiple(value: int, unit: int) -> int {
    ceil_quotient(value, unit) * unit
}

/// The least number of pieces of size `unit` that hold `value`.
pub open spec fn ceil_quotient(value: int, unit: int) -> int {
    (value + unit - 1) / unit
}

/// Rounding up reaches the value and goes less than one unit beyond it.
pub proof fn lemma_ceil_multiple(value: int, unit: int)
    requires
        unit > 0,
        value >= 0,
    ensures
        value <= ceil_multiple(value, unit) < value + unit,
        ceil_multiple(value, unit) % unit == 0,
        0 <= ceil_quotient(value, unit),
{
    let n = value + unit - 1;
    vstd::arithmetic::div_mod::lemma_fundamental_div_mod(n, unit);
    vstd::arithmetic::div_mod::lemma_div_pos_is_pos(n, unit);
    vstd::arithmetic::mul::lemma_mul_is_commutative(unit, n / unit);
    vstd::arithmetic::div_mod::lemma_mod_multiples_basic(n / unit, unit);
}

/// The least multiple of the power of two `unit` that is at least `val`.
#[inline(always)]
pub fn round_up(val: usize, unit: usize) -> (r: usize)
    requires
        vstd::arithmetic::power2::is_pow2(unit as int),
        val + unit - 1 <= usize::MAX,
    ensures
        r == ceil_multiple(val as int, unit as int),
        val <= r < val + unit,
        r as int % unit as int == 0,
{
    proof {
        let k = crate::bits::lemma_exponent(unit);
        vstd::arithmetic::power2::lemma_pow2_pos(k as nat);
        let low: usize = (unit - 1) as usize;
        let x: usize = (val + low) as usize;
        vstd::bits::lemma_usize_low_bits_mask_is_mod(x, k as nat);
        assert(x & low == x % unit);
        assert(x & !low == x - (x & low)) by (bit_vector);
        vstd::arithmetic::div_mod::lemma_fundamental_div_mod(x as int, unit as int);
        vstd::arithmetic::mul::lemma_mul_is_commutative(unit as int, x as int / unit as int);
        vstd::arithmetic::div_mod::lemma_mod_multiples_basic(x as int / unit as int, unit as int);
    }
    let low: usize = unit - 1;
    (val + low) & !low
}

/// The size of a block: a power of two of at most `isize::MAX >> 12` bytes.
#[derive(Copy, Clone, Debug, Hash, PartialEq, Eq, Structural)]
pub struct BlockSize(usize);

impl BlockSize {
    /// The size in bytes.
    pub closed spec fn value(self) -> int {
        self.0 as int
    }

    /// The sizes a block may have.
    pub open spec fn valid(value: int) -> bool {
        &&& vstd::arithmetic::power2::is_pow2(value)
        &&& 0 < value <= isize::MAX as int / 4096
    }

    /// Every block size is valid.
    #[verifier::type_invariant]
    pub closed spec fn wf(self) -> bool {
        Self::valid(self.value())
    }

    /// Block sizes of equal value are equal.
    pub proof fn lemma_equal(self, other: Self)
        ensures
            self == other <==> self.value() == other.value(),
    {
    }

    /// The size of a pool with blocks of `block` bytes.
    pub open spec fn pool_size(block: int) -> int {
        if block * POOL_SCALE < MIN_POOL_SIZE {
            MIN_POOL_SIZE as int
        } else {
            block * POOL_SCALE
        }
    }

    /// Makes a block size of a value known to be valid.
    #[inline(always)]
    pub fn new_unchecked(val: usize) -> (r: Self)
        requires
            Self::valid(val as int),
        ensures
            r.value() == val,
    {
        BlockSize(val)
    }

    /// A power of two is a valid block size when it has at least 13 binary places above it.
    proof fn lemma_valid_exponent(k: u32)
        requires
            k < usize::BITS,
        ensures
            Self::valid(vstd::arithmetic::power2::pow2(k as nat) as int) <==> k + 13 < usize::BITS,
    {
        let m = (usize::BITS - 13) as nat;
        vstd::layout::signed_int_min_max_values();
        vstd::arithmetic::power2::lemma_pow2_adds(m, 12);
        vstd::arithmetic::power2::lemma2_to64();
        vstd::arithmetic::power2::lemma_pow2_pos(k as nat);
        vstd::arithmetic::power2::lemma_pow2(k as nat);
        vstd::arithmetic::power2::is_pow2_equiv(vstd::arithmetic::power2::pow2(k as nat) as int);
        if k < m {
            vstd::arithmetic::power2::lemma_pow2_strictly_increases(k as nat, m);
        } else if m < k {
            vstd::arithmetic::power2::lemma_pow2_strictly_increases(m, k as nat);
        }
    }

    /// Makes a block size of `val`, if it is a valid one.
    pub fn new(val: usize) -> (r: Option<Self>)
        ensures
            r is Some <==> Self::valid(val as int),
            r matches Some(b) ==> b.value() == val,
    {
        proof {
            if vstd::arithmetic::power2::is_pow2(val as int) {
                let k = crate::bits::lemma_exponent(val);
                vstd::arithmetic::power2::lemma_pow2_pos(k as nat);
                Self::lemma_valid_exponent(k);
                assert(val << 13 != 0usize <==> k + 13 < usize::BITS) by (bit_vector)
                    requires
                        val == 1usize << k,
                        k < usize::BITS,
                ;
            }
        }
        if crate::bits::is_power_of_two(val) && (val << 13) != 0 {
            Some(Self::new_unchecked(val))
        } else {
            None
        }
    }

    /// The expected size of a pool with this block size, including metadata.
    #[inline(always)]
    pub fn expected_pool_size(self) -> (r: usize)
        ensures
            r == Self::pool_size(self.value()),
    {
        proof {
            use_type_invariant(self);
            assert(self.value() * POOL_SCALE <= self.value() * 4096) by (nonlinear_arith)
                requires
                    POOL_SCALE <= 4096,
                    self.value() >= 0,
            ;
        }
        let val: usize = self.get() * POOL_SCALE;
        if val < MIN_POOL_SIZE {
            MIN_POOL_SIZE
        } else {
            val
        }
    }

    /// The size in bytes.
    #[inline(always)]
    pub fn get(self) -> (r: usize)
        ensures
            r == self.value(),
            Self::valid(r as int),
    {
        proof {
            use_type_invariant(self);
        }
        self.0
    }

    /// The binary logarithm of the size.
    #[inline(always)]
    pub fn ilog2(self) -> (r: u32)
        ensures
            vstd::arithmetic::power2::pow2(r as nat) == self.value(),
            r + 13 < usize::BITS,
    {
        let w = self.get();
        let r = crate::bits::trailing_zeros(w);
        proof {
            let k = crate::bits::lemma_exponent(w);
            crate::bits::lemma_only_bit(w, k, 0);
            crate::bits::lemma_only_bit(w, k, r as int);
            Self::lemma_valid_exponent(k);
        }
        r
    }

    /// The least multiple of the block size that is at least `val`.
    #[inline(always)]
    pub fn ceil_to(self, val: usize) -> (r: usize)
        requires
            val + self.value() - 1 <= usize::MAX,
        ensures
            r == ceil_multiple(val as int, self.value()),
            val <= r < val + self.value(),
            r as int % self.value() == 0,
    {
        round_up(val, self.get())
    }

    /// The least number of blocks that hold `val` bytes.
    #[inline(always)]
    pub fn div_ceil_to(self, val: usize) -> (r: usize)
        requires
            val + self.value() - 1 <= usize::MAX,
        ensures
            r == ceil_quotient(val as int, self.value()),
    {
        let block = self.get();
        let shift = self.ilog2();
        proof {
            vstd::bits::lemma_usize_shr_is_div((val + (block - 1)) as usize, shift as usize);
        }
        (val + (block - 1)) >> shift
    }
}

/// A size divided by a block size is the number of whole blocks in it.
impl Div<BlockSize> for usize {
    type Output = usize;

    #[inline(always)]
    fn div(self, rhs: BlockSize) -> (r: usize) {
        let shift = rhs.ilog2();
        proof {
            vstd::bits::lemma_usize_shr_is_div(self, shift as usize);
        }
        self >> shift
    }
}

impl DivSpecImpl<BlockSize> for usize {
    open spec fn obeys_div_spec() -> bool {
        true
    }

    open spec fn div_req(self, rhs: BlockSize) -> bool {
        true
    }

    open spec fn div_spec(self, rhs: BlockSize) -> usize {
        (self as int / rhs.value()) as usize
    }
}

} // verus!
