//! Sizes and alignments of memory requests.
use vstd::prelude::*;

use crate::block_size::round_up;

verus! {

/// The size and the alignment of a piece of memory.
///
/// The alignment is a power of two, and the size rounded up to it is at most `isize::MAX`.
#[derive(Copy, Clone, Debug)]
pub struct Layout {
    size: usize,
    align: usize,
}

impl Layout {
    /// The size in bytes.
    pub closed spec fn bytes(self) -> int {
        self.size as int
    }

    /// The alignment in bytes.
    pub closed spec fn alignment(self) -> int {
        self.align as int
    }

    /// The pairs of size and alignment that make a layout.
    pub open spec fn valid(size: int, align: int) -> bool {
        &&& vstd::arithmetic::power2::is_pow2(align)
        &&& 0 < align
        &&& 0 <= size <= isize::MAX - (align - 1)
    }

    /// Every layout is valid.
    #[verifier::type_invariant]
    pub closed spec fn wf(self) -> bool {
        Self::valid(self.bytes(), self.alignment())
    }

    /// Makes a layout, if `size` and `align` are valid.
    pub fn from_size_align(size: usize, align: usize) -> (r: Option<Self>)
        ensures
            r is Some <==> Self::valid(size as int, align as int),
            r matches Some(l) ==> l.bytes() == size && l.alignment() == align,
    {
        if crate::bits::is_power_of_two(align) && align - 1 <= isize::MAX as usize && size
            <= isize::MAX as usize - (align - 1) {
            Some(Layout { size, align })
        } else {
            None
        }
    }

    /// Makes a layout of values known to be valid.
    pub fn from_size_align_unchecked(size: usize, align: usize) -> (r: Self)
        requires
            Self::valid(size as int, align as int),
        ensures
            r.bytes() == size,
            r.alignment() == align,
    {
        Layout { size, align }
    }

    /// The size in bytes.
    pub fn size(&self) -> (r: usize)
        ensures
            r == self.bytes(),
            Self::valid(self.bytes(), self.alignment()),
    {
        proof {
            use_type_invariant(self);
        }
        self.size
    }

    /// The alignment in bytes.
    pub fn align(&self) -> (r: usize)
        ensures
            r == self.alignment(),
            Self::valid(self.bytes(), self.alignment()),
    {
        proof {
            use_type_invariant(self);
        }
        self.align
    }

    /// The layout whose size is rounded up to the alignment.
    pub fn pad_to_align(&self) -> (r: Self)
        ensures
            r.bytes() == crate::block_size::ceil_multiple(self.bytes(), self.alignment()),
            r.alignment() == self.alignment(),
    {
        proof {
            use_type_invariant(self);
            Self::lemma_padded_valid(self.size, self.align);
        }
        Layout { size: round_up(self.size, self.align), align: self.align }
    }

    /// Padding keeps a layout valid.
    proof fn lemma_padded_valid(size: usize, align: usize)
        requires
            Self::valid(size as int, align as int),
        ensures
            Self::valid(
                crate::block_size::ceil_multiple(size as int, align as int),
                align as int,
            ),
    {
        let k = crate::bits::lemma_exponent(align);
        let top = (usize::BITS - 1) as nat;
        vstd::layout::signed_int_min_max_values();
        if k > top {
            vstd::arithmetic::power2::lemma_pow2_strictly_increases(top, k as nat);
        }
        let a = align as int;
        let n = vstd::arithmetic::power2::pow2((top - k) as nat) as int;
        vstd::arithmetic::power2::lemma_pow2_adds(k as nat, (top - k) as nat);
        vstd::arithmetic::power2::lemma_pow2_pos((top - k) as nat);
        assert(a * n == isize::MAX + 1);
        let q = (size + a - 1) / a;
        vstd::arithmetic::div_mod::lemma_fundamental_div_mod(size + a - 1, a);
        assert(0 <= q * a <= (n - 1) * a) by (nonlinear_arith)
            requires
                size + a - 1 == a * q + (size + a - 1) % a,
                0 <= (size + a - 1) % a < a,
                0 <= size,
                size + a - 1 < a * n,
                a > 0,
                n > 0,
        ;
        assert((n - 1) * a == a * n - a) by (nonlinear_arith);
    }
}

} // verus!
