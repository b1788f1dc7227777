//! Single machine words read as rows of bits.
use vstd::prelude::*;

verus! {

/// Bit `i` of the word `w`, counted from the least significant one.
pub open spec fn bit(w: usize, i: int) -> bool {
    (w >> (i as usize)) & 1usize == 1usize
}

/// The number of zero bits below the lowest set bit of `w`; the width of a word when `w` is zero.
pub fn trailing_zeros(w: usize) -> (r: u32)
    ensures
        r <= usize::BITS,
        r == usize::BITS <==> w == 0,
        r < usize::BITS ==> bit(w, r as int),
        forall|j: int| 0 <= j < r ==> !#[trigger] bit(w, j),
{
    if w == 0 {
        assert forall|j: int| 0 <= j < usize::BITS implies !#[trigger] bit(w, j) by {
            let i = j as usize;
            assert((0usize >> i) & 1usize == 0usize) by (bit_vector);
        }
        return usize::BITS;
    }
    let r = (w as u64).trailing_zeros();
    proof {
        vstd::std_specs::bits::axiom_u64_trailing_zeros(w as u64);
        let t = r as u64;
        assert(t < usize::BITS) by (bit_vector)
            requires
                ((w as u64) >> t) & 1u64 == 1u64,
                t < 64,
        ;
        assert forall|j: int| 0 <= j < r implies !#[trigger] bit(w, j) by {
            assert(((w as u64) >> (j as u64)) & 1u64 == 0u64);
        }
    }
    r
}

/// The number of set bits below the lowest zero bit of `w`; the width of a word when all are set.
pub fn trailing_ones(w: usize) -> (r: u32)
    ensures
        r <= usize::BITS,
        r == usize::BITS <==> w == !0usize,
        r < usize::BITS ==> !bit(w, r as int),
        forall|j: int| 0 <= j < r ==> #[trigger] bit(w, j),
{
    let r = trailing_zeros(!w);
    proof {
        assert(!w == 0usize <==> w == !0usize) by (bit_vector);
        assert forall|j: int| 0 <= j < usize::BITS implies bit(w, j) == !#[trigger] bit(!w, j) by {
            lemma_bit_not(w, j);
        }
        assert forall|j: int| 0 <= j < r implies #[trigger] bit(w, j) by {
            assert(!bit(!w, j));
        }
    }
    r
}

/// The word whose set bits are `start..start + count`, cut off at the width of a word.
pub fn run_mask(count: u32, start: u32) -> (mask: usize)
    requires
        count <= usize::BITS,
        start < usize::BITS,
    ensures
        forall|i: int|
            0 <= i < usize::BITS ==> (#[trigger] bit(mask, i) <==> start <= i < start + count),
{
    let low: usize = if count == usize::BITS {
        !0usize
    } else {
        !(!0usize << count)
    };
    let mask: usize = low << start;
    proof {
        assert forall|i: int| 0 <= i < usize::BITS implies (#[trigger] bit(mask, i) <==> start <= i
            < start + count) by {
            let j = i as usize;
            let c = count as usize;
            let s = start as usize;
            assert((mask >> j) & 1usize == 1usize <==> s <= j && j < s + c) by (bit_vector)
                requires
                    mask == low << s,
                    c < usize::BITS ==> low == !(!0usize << c),
                    c >= usize::BITS ==> low == !0usize,
                    c <= usize::BITS,
                    s < usize::BITS,
                    j < usize::BITS,
            ;
        }
    }
    mask
}

/// The number of the first `n` bits of `w` that are set.
pub open spec fn ones_below(w: usize, n: int) -> int
    decreases n,
{
    if n <= 0 {
        0
    } else {
        ones_below(w, n - 1) + if bit(w, n - 1) { 1int } else { 0int }
    }
}

/// The number of set bits of `w`.
pub fn count_ones(w: usize) -> (r: u32)
    ensures
        r == ones_below(w, usize::BITS as int),
        r <= usize::BITS,
{
    let mut r: u32 = 0;
    let mut i: u32 = 0;
    while i < usize::BITS
        invariant
            i <= usize::BITS,
            r == ones_below(w, i as int),
            r <= i,
        decreases usize::BITS - i,
    {
        if (w >> (i as usize)) & 1usize == 1usize {
            r = r + 1;
        }
        i = i + 1;
    }
    r
}

/// The place of the highest set bit of `w`.
pub fn ilog2(w: usize) -> (r: u32)
    requires
        w > 0,
    ensures
        r < usize::BITS,
        vstd::arithmetic::power2::pow2(r as nat) <= w < vstd::arithmetic::power2::pow2(
            (r + 1) as nat,
        ),
{
    let mut x: usize = w;
    let mut r: u32 = 0;
    proof {
        vstd::arithmetic::power2::lemma2_to64();
        vstd::layout::unsigned_int_max_values();
    }
    while x > 1
        invariant
            x >= 1,
            r < usize::BITS,
            vstd::arithmetic::power2::pow2(r as nat) * x <= w < vstd::arithmetic::power2::pow2(
                r as nat,
            ) * (x + 1),
            w < vstd::arithmetic::power2::pow2(usize::BITS as nat),
        decreases x,
    {
        proof {
            let p = vstd::arithmetic::power2::pow2(r as nat) as int;
            let y = x as int / 2;
            vstd::arithmetic::power2::lemma_pow2_unfold((r + 1) as nat);
            assert((2 * p) * y <= w && w < (2 * p) * (y + 1)) by (nonlinear_arith)
                requires
                    p * x <= w < p * (x + 1),
                    x == 2 * y || x == 2 * y + 1,
                    p >= 0,
            ;
            if r + 1 == usize::BITS {
                assert((2 * p) * y >= 2 * p) by (nonlinear_arith)
                    requires
                        y >= 1,
                        p >= 0,
                ;
                assert(false);
            }
        }
        x = x / 2;
        r = r + 1;
    }
    proof {
        let p = vstd::arithmetic::power2::pow2(r as nat) as int;
        vstd::arithmetic::power2::lemma_pow2_unfold((r + 1) as nat);
        assert(p * x == p && p * (x + 1) == 2 * p) by (nonlinear_arith)
            requires
                x == 1,
        ;
    }
    r
}

/// Whether exactly one bit of `w` is set.
pub fn is_power_of_two(w: usize) -> (r: bool)
    ensures
        r == vstd::arithmetic::power2::is_pow2(w as int),
        r ==> w > 0,
{
    proof {
        reveal(vstd::arithmetic::power2::is_pow2);
    }
    if w == 0 {
        return false;
    }
    proof {
        lemma_single_bit_is_pow2(w);
    }
    w & (w - 1) == 0
}

proof fn lemma_single_bit_is_pow2(w: usize)
    requires
        w != 0,
    ensures
        (w & (w - 1) as usize == 0) == vstd::arithmetic::power2::is_pow2(w as int),
    decreases w,
{
    reveal(vstd::arithmetic::power2::is_pow2);
    if w == 1 {
        assert(1usize & 0usize == 0usize) by (bit_vector);
    } else {
        let h: usize = w / 2;
        let w1: usize = (w - 1) as usize;
        let h1: usize = (h - 1) as usize;
        assert((w & w1 == 0usize) <==> (w % 2usize == 0usize && h & h1 == 0usize)) by (bit_vector)
            requires
                w > 1usize,
                h == w / 2usize,
                w1 == w - 1,
                h1 == h - 1,
        ;
        lemma_single_bit_is_pow2(h);
    }
}

/// A one shifted left by `k` places is the `k`-th power of two.
pub proof fn lemma_shl_one(k: u32)
    requires
        k < usize::BITS,
    ensures
        1usize << k == vstd::arithmetic::power2::pow2(k as nat),
        vstd::arithmetic::power2::pow2(k as nat) <= usize::MAX,
{
    vstd::layout::unsigned_int_max_values();
    vstd::arithmetic::power2::lemma_pow2_strictly_increases(k as nat, usize::BITS as nat);
    vstd::bits::lemma_usize_shl_is_mul(1, k as usize);
}

/// The place of the only set bit of a power of two.
pub proof fn lemma_exponent(w: usize) -> (k: u32)
    requires
        vstd::arithmetic::power2::is_pow2(w as int),
    ensures
        k < usize::BITS,
        vstd::arithmetic::power2::pow2(k as nat) == w,
        1usize << k == w,
{
    vstd::arithmetic::power2::is_pow2_equiv(w as int);
    let e: nat = choose|i: nat| vstd::arithmetic::power::pow(2, i) == w;
    assert(vstd::arithmetic::power2::pow2(e) == w);
    vstd::layout::unsigned_int_max_values();
    if e >= usize::BITS {
        if e > usize::BITS {
            vstd::arithmetic::power2::lemma_pow2_strictly_increases(usize::BITS as nat, e);
        }
        assert(false);
    }
    lemma_shl_one(e as u32);
    e as u32
}

/// A power of two has no other set bit than the one at its exponent.
pub proof fn lemma_only_bit(w: usize, k: u32, i: int)
    requires
        k < usize::BITS,
        w == 1usize << k,
        0 <= i < usize::BITS,
    ensures
        bit(w, i) == (i == k),
        w != 0,
{
    let j = i as usize;
    assert((w >> j) & 1usize == 1usize <==> j == k) by (bit_vector)
        requires
            w == 1usize << k,
            k < usize::BITS,
            j < usize::BITS,
    ;
    assert(w != 0usize) by (bit_vector)
        requires
            w == 1usize << k,
            k < usize::BITS,
    ;
}

/// Complementing a word complements each bit.
pub proof fn lemma_bit_not(w: usize, i: int)
    requires
        0 <= i < usize::BITS,
    ensures
        bit(!w, i) == !bit(w, i),
{
    let j = i as usize;
    assert(((!w) >> j) & 1usize == 1usize <==> !((w >> j) & 1usize == 1usize)) by (bit_vector)
        requires
            j < usize::BITS,
    ;
}

/// Bits of a union of two words.
pub proof fn lemma_bit_or(v: usize, w: usize, i: int)
    requires
        0 <= i < usize::BITS,
    ensures
        bit(v | w, i) == (bit(v, i) || bit(w, i)),
{
    let j = i as usize;
    assert(((v | w) >> j) & 1usize == 1usize <==> ((v >> j) & 1usize == 1usize || (w >> j) & 1usize
        == 1usize)) by (bit_vector);
}

/// Bits of an intersection of two words.
pub proof fn lemma_bit_and(v: usize, w: usize, i: int)
    requires
        0 <= i < usize::BITS,
    ensures
        bit(v & w, i) == (bit(v, i) && bit(w, i)),
{
    let j = i as usize;
    assert(((v & w) >> j) & 1usize == 1usize <==> ((v >> j) & 1usize == 1usize && (w >> j) & 1usize
        == 1usize)) by (bit_vector);
}

/// Shifting right moves bit `s + i` to place `i`.
pub proof fn lemma_bit_shr(w: usize, s: u32, i: int)
    requires
        s < usize::BITS,
        0 <= i < usize::BITS,
    ensures
        bit(w >> s, i) == (s + i < usize::BITS && bit(w, s + i)),
{
    let j = i as usize;
    let t = s as usize;
    let k = (s + i) as usize;
    assert(((w >> t) >> j) & 1usize == 1usize <==> (k < usize::BITS && (w >> k) & 1usize == 1usize))
        by (bit_vector)
        requires
            t < usize::BITS,
            j < usize::BITS,
            k == t + j,
    ;
}

/// The bits of the zero word.
pub proof fn lemma_bit_zero(i: int)
    ensures
        !bit(0, i),
{
    let j = i as usize;
    assert((0usize >> j) & 1usize == 0usize) by (bit_vector);
}

} // verus!
