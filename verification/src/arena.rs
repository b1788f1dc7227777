//! The bitmap of a pool: one bit for each block, packed in machine words.
use vstd::prelude::*;

use crate::bits::{count_ones, run_mask, trailing_ones, trailing_zeros};

verus! {

/// Whether the `count` slots from `at` on are free and lie in one word of the bitmap.
pub open spec fn fits(used: Seq<bool>, at: int, count: int) -> bool {
    &&& 0 <= at < used.len()
    &&& at % (usize::BITS as int) + count <= usize::BITS
    &&& at + count <= used.len()
    &&& forall|i: int| at <= i < at + count ==> !#[trigger] used[i]
}

/// The lowest place from `from` on at which `count` slots fit.
pub open spec fn least_fit(used: Seq<bool>, from: int, count: int) -> Option<int>
    decreases used.len() - from,
{
    if from >= used.len() {
        None
    } else if fits(used, from, count) {
        Some(from)
    } else {
        least_fit(used, from + 1, count)
    }
}

/// `used` with the slots `from..to` set to `value`.
pub open spec fn with_run(used: Seq<bool>, from: int, to: int, value: bool) -> Seq<bool> {
    Seq::new(
        used.len(),
        |i: int|
            if from <= i < to {
                value
            } else {
                used[i]
            },
    )
}

/// The end of a run of `count` slots from `at` on, cut off where the word of `at` ends.
pub open spec fn run_end(at: int, count: int) -> int {
    let word_end = (at / (usize::BITS as int) + 1) * usize::BITS;
    if at + count <= word_end {
        at + count
    } else {
        word_end
    }
}

/// The number of used slots.
pub open spec fn used_count(used: Seq<bool>) -> nat
    decreases used.len(),
{
    if used.len() == 0 {
        0
    } else {
        used_count(used.drop_last()) + if used.last() {
            1nat
        } else {
            0nat
        }
    }
}

/// Slot `j` of word `o` is slot `o * BITS + j` of the bitmap.
proof fn lemma_slot_of_word(o: int, j: int)
    requires
        0 <= o,
        0 <= j < usize::BITS,
    ensures
        (o * usize::BITS + j) / (usize::BITS as int) == o,
        (o * usize::BITS + j) % (usize::BITS as int) == j,
{
    vstd::arithmetic::div_mod::lemma_fundamental_div_mod_converse(
        o * usize::BITS + j,
        usize::BITS as int,
        o,
        j,
    );
}

/// Every slot lies at one place of one word.
proof fn lemma_word_of_slot(i: int, words: int)
    requires
        0 <= i,
    ensures
        i == (i / (usize::BITS as int)) * usize::BITS + i % (usize::BITS as int),
        0 <= i % (usize::BITS as int) < usize::BITS,
        0 <= i / (usize::BITS as int),
        i < words * usize::BITS <==> i / (usize::BITS as int) < words,
{
    let b = usize::BITS as int;
    vstd::arithmetic::div_mod::lemma_fundamental_div_mod(i, b);
    vstd::arithmetic::mul::lemma_mul_is_commutative(b, i / b);
    vstd::arithmetic::div_mod::lemma_div_pos_is_pos(i, b);
    let q = i / b;
    let r = i % b;
    assert(q * b + r < words * b <==> q < words) by (nonlinear_arith)
        requires
            0 <= r < b,
            b > 0,
    ;
}

proof fn lemma_least_fit_some(used: Seq<bool>, from: int, count: int, at: int)
    requires
        0 <= from <= at,
        fits(used, at, count),
        forall|q: int| from <= q < at ==> !fits(used, q, count),
    ensures
        least_fit(used, from, count) == Some(at),
    decreases at - from,
{
    if from < at {
        lemma_least_fit_some(used, from + 1, count, at);
    }
}

proof fn lemma_least_fit_none(used: Seq<bool>, from: int, count: int)
    requires
        0 <= from,
        forall|q: int| from <= q < used.len() ==> !fits(used, q, count),
    ensures
        least_fit(used, from, count) is None,
    decreases used.len() - from,
{
    if from < used.len() {
        lemma_least_fit_none(used, from + 1, count);
    }
}

/// What the lowest fitting place is.
pub proof fn lemma_least_fit(used: Seq<bool>, from: int, count: int)
    requires
        0 <= from,
    ensures
        match least_fit(used, from, count) {
            Some(at) => {
                &&& from <= at
                &&& fits(used, at, count)
                &&& forall|q: int| from <= q < at ==> !fits(used, q, count)
            },
            None => forall|q: int| from <= q < used.len() ==> !fits(used, q, count),
        },
    decreases used.len() - from,
{
    if from < used.len() && !fits(used, from, count) {
        lemma_least_fit(used, from + 1, count);
    }
}

/// A run that lies in one word is not cut off.
pub proof fn lemma_run_end(at: int, count: int)
    requires
        0 <= at,
        at % (usize::BITS as int) + count <= usize::BITS,
    ensures
        run_end(at, count) == at + count,
{
    lemma_word_of_slot(at, 0);
    assert((at / (usize::BITS as int) + 1) * usize::BITS == (at / (usize::BITS as int))
        * usize::BITS + usize::BITS) by (nonlinear_arith);
}

/// What a word of the bitmap says about a run that is to start at one of its places.
#[derive(Copy, Clone, Debug, PartialEq, Eq)]
pub enum WordScan {
    /// The run fits there.
    Fits,
    /// It does not, nor at any place before this one.
    Skip(u32),
}

/// Whether the slots of a run that starts at place `at` of a word are all free.
pub open spec fn free_in_word(slab: usize, at: int, count: int) -> bool {
    forall|i: int| at <= i < at + count ==> !#[trigger] crate::bits::bit(slab, i)
}

/// Looks at one word of a bitmap, for a run of `count` slots that is to start at place
/// `start_pos` of it or later.
pub fn scan_word(slab: usize, start_pos: u32, count: u32) -> (r: WordScan)
    requires
        start_pos + count <= usize::BITS,
        start_pos < usize::BITS,
    ensures
        match r {
            WordScan::Fits => free_in_word(slab, start_pos as int, count as int),
            WordScan::Skip(next) => {
                &&& start_pos < next <= usize::BITS
                &&& 0 < count
                &&& forall|p: int|
                    start_pos <= p < next ==> !#[trigger] free_in_word(slab, p, count as int)
            },
        },
{
    let shifted: usize = slab >> start_pos;
    let zeros = trailing_zeros(shifted);
    if zeros >= count {
        assert forall|i: int| start_pos <= i < start_pos + count implies !#[trigger] crate::bits::bit(
            slab,
            i,
        ) by {
            crate::bits::lemma_bit_shr(slab, start_pos, i - start_pos);
            assert(!crate::bits::bit(shifted, i - start_pos));
        }
        return WordScan::Fits;
    }
    proof {
        crate::bits::lemma_bit_shr(slab, start_pos, zeros as int);
    }
    let gap: u32 = start_pos + zeros;
    let rest: usize = slab >> gap;
    let ones = trailing_ones(rest);
    proof {
        assert forall|j: int| 0 <= j < ones implies gap + j < usize::BITS
            && #[trigger] crate::bits::bit(slab, gap + j) by {
            crate::bits::lemma_bit_shr(slab, gap, j);
            assert(crate::bits::bit(rest, j));
        }
        if ones == 0 {
            crate::bits::lemma_bit_shr(slab, gap, 0);
            assert(false);
        }
        assert(crate::bits::bit(slab, gap + (ones - 1)));
        assert forall|p: int| start_pos <= p < gap + ones implies !#[trigger] free_in_word(
            slab,
            p,
            count as int,
        ) by {
            if p >= gap {
                assert(crate::bits::bit(slab, gap + (p - gap)));
            } else {
                assert(crate::bits::bit(slab, gap as int));
            }
        }
    }
    WordScan::Skip(gap + ones)
}

/// The bitmap of a pool. A set bit marks a block that is in use.
#[derive(Debug)]
pub struct Arena {
    words: Vec<usize>,
}

impl View for Arena {
    type V = Seq<bool>;

    /// Which slots are in use.
    closed spec fn view(&self) -> Seq<bool> {
        Seq::new(
            (self.words.len() * usize::BITS) as nat,
            |i: int|
                crate::bits::bit(
                    self.words[i / (usize::BITS as int)],
                    i % (usize::BITS as int),
                ),
        )
    }
}

impl Arena {
    /// A bitmap of `words` machine words with every slot free.
    pub fn new(words: usize) -> (r: Self)
        ensures
            r@ == Seq::new((words * usize::BITS) as nat, |i: int| false),
    {
        let mut v: Vec<usize> = Vec::new();
        let mut i: usize = 0;
        while i < words
            invariant
                i <= words,
                v.len() == i,
                forall|k: int| 0 <= k < i ==> v[k] == 0,
            decreases words - i,
        {
            v.push(0);
            i = i + 1;
        }
        let r = Arena { words: v };
        assert forall|s: int| 0 <= s < words * usize::BITS implies r@[s] == false by {
            lemma_word_of_slot(s, words as int);
            crate::bits::lemma_bit_zero(s % (usize::BITS as int));
        }
        assert(r@ =~= Seq::new((words * usize::BITS) as nat, |i: int| false));
        r
    }

    /// Bit `j` of word `o` is slot `o * BITS + j`.
    proof fn lemma_word_bit(&self, o: int, j: int)
        requires
            0 <= o < self.words.len(),
            0 <= j < usize::BITS,
        ensures
            0 <= o * usize::BITS + j < self@.len(),
            self@[o * usize::BITS + j] == crate::bits::bit(self.words[o], j),
    {
        lemma_slot_of_word(o, j);
        lemma_word_of_slot(o * usize::BITS + j, self.words.len() as int);
    }

    /// Where a run fits in the bitmap, as one word tells it.
    proof fn lemma_fits_in_word(&self, o: int, p: int, count: int)
        requires
            0 <= o < self.words.len(),
            0 <= p < usize::BITS,
            0 <= count,
        ensures
            o * usize::BITS + p < self@.len(),
            fits(self@, o * usize::BITS + p, count) <==> p + count <= usize::BITS && free_in_word(
                self.words[o],
                p,
                count,
            ),
    {
        let at = o * usize::BITS + p;
        lemma_slot_of_word(o, p);
        self.lemma_word_bit(o, p);
        if p + count <= usize::BITS {
            assert(at + count <= self@.len()) by (nonlinear_arith)
                requires
                    at == o * usize::BITS + p,
                    p + count <= usize::BITS,
                    o < self.words.len(),
                    self@.len() == self.words.len() * usize::BITS,
            ;
            assert forall|i: int| p <= i < p + count implies #[trigger] crate::bits::bit(
                self.words[o],
                i,
            ) == self@[at + (i - p)] by {
                self.lemma_word_bit(o, i);
            }
            if free_in_word(self.words[o], p, count) {
                assert forall|i: int| at <= i < at + count implies !#[trigger] self@[i] by {
                    assert(crate::bits::bit(self.words[o], p + (i - at)) == self@[at + (i - at)]);
                }
            }
        }
    }

    /// Finds the lowest place from `from` on at which `count` slots fit.
    pub fn find_run(&self, from: usize, count: u32) -> (r: Option<usize>)
        requires
            self@.len() <= usize::MAX,
            from < self@.len(),
            count <= usize::BITS,
        ensures
            match r {
                Some(at) => least_fit(self@, from as int, count as int) == Some(at as int),
                None => least_fit(self@, from as int, count as int) is None,
            },
    {
        let len = self.words.len();
        let mut offset: usize = from / usize::BITS as usize;
        let mut start_pos: u32 = (from % usize::BITS as usize) as u32;
        proof {
            lemma_word_of_slot(from as int, len as int);
        }
        loop
            invariant
                len == self.words.len(),
                self@.len() == len * usize::BITS,
                self@.len() <= usize::MAX,
                count <= usize::BITS,
                offset <= len,
                start_pos <= usize::BITS,
                start_pos == usize::BITS ==> count > 0,
                offset == len ==> start_pos == 0,
                from <= offset * usize::BITS + start_pos,
                forall|q: int|
                    from <= q < offset * usize::BITS + start_pos ==> !fits(
                        self@,
                        q,
                        count as int,
                    ),
            decreases len - offset, usize::BITS - start_pos,
        {
            let ghost cur: int = offset * usize::BITS + start_pos;
            if offset >= len {
                proof {
                    lemma_least_fit_none(self@, from as int, count as int);
                }
                return None;
            }
            if start_pos + count > usize::BITS {
                assert forall|q: int|
                    from <= q < (offset + 1) * usize::BITS implies !fits(
                    self@,
                    q,
                    count as int,
                ) by {
                    if q >= cur {
                        let j = q - offset * usize::BITS;
                        assert((offset + 1) * usize::BITS == offset * usize::BITS + usize::BITS)
                            by (nonlinear_arith);
                        lemma_slot_of_word(offset as int, j);
                    }
                }
                offset = offset + 1;
                start_pos = 0;
                continue ;
            }
            let slab: usize = self.words[offset];
            proof {
                self.lemma_fits_in_word(offset as int, start_pos as int, count as int);
            }
            match scan_word(slab, start_pos, count) {
                WordScan::Fits => {
                    proof {
                        lemma_least_fit_some(self@, from as int, count as int, cur);
                    }
                    return Some(offset * usize::BITS as usize + start_pos as usize);
                },
                WordScan::Skip(next) => {
                    assert forall|q: int|
                        from <= q < offset * usize::BITS + next implies !fits(
                        self@,
                        q,
                        count as int,
                    ) by {
                        if q >= cur {
                            let p = q - offset * usize::BITS;
                            self.lemma_fits_in_word(offset as int, p, count as int);
                            assert(!free_in_word(slab, p, count as int));
                        }
                    }
                    start_pos = next;
                },
            }
        }
    }

    /// Sets the slots of a run, as far as they lie in the word of its first slot, to `value`.
    fn write_run(&mut self, at: usize, count: u32, value: bool)
        requires
            at < old(self)@.len(),
            count <= usize::BITS,
        ensures
            final(self)@ == with_run(
                old(self)@,
                at as int,
                run_end(at as int, count as int),
                value,
            ),
    {
        let offset: usize = at / usize::BITS as usize;
        let start_pos: u32 = (at % usize::BITS as usize) as u32;
        proof {
            lemma_word_of_slot(at as int, self.words.len() as int);
        }
        let mask = run_mask(count, start_pos);
        let slab: usize = self.words[offset];
        let word: usize = if value {
            slab | mask
        } else {
            slab & !mask
        };
        self.words.set(offset, word);
        proof {
            let to = run_end(at as int, count as int);
            let want = with_run(old(self)@, at as int, to, value);
            assert((offset + 1) * usize::BITS == offset * usize::BITS + usize::BITS)
                by (nonlinear_arith);
            assert forall|i: int| 0 <= i < want.len() implies self@[i] == want[i] by {
                let o = i / (usize::BITS as int);
                let j = i % (usize::BITS as int);
                lemma_word_of_slot(i, self.words.len() as int);
                lemma_word_of_slot(i, offset as int);
                lemma_word_of_slot(i, offset + 1);
                if o == offset {
                    crate::bits::lemma_bit_or(slab, mask, j);
                    crate::bits::lemma_bit_not(mask, j);
                    crate::bits::lemma_bit_and(slab, !mask, j);
                    assert(crate::bits::bit(mask, j) <==> start_pos <= j < start_pos + count);
                }
            }
            assert(self@ =~= want);
        }
    }

    /// Marks a run of slots as in use, as far as they lie in the word of its first slot.
    pub fn mark(&mut self, at: usize, count: u32)
        requires
            at < old(self)@.len(),
            count <= usize::BITS,
        ensures
            final(self)@ == with_run(
                old(self)@,
                at as int,
                run_end(at as int, count as int),
                true,
            ),
    {
        self.write_run(at, count, true);
    }

    /// Marks a run of slots as free, as far as they lie in the word of its first slot.
    pub fn clear(&mut self, at: usize, count: u32)
        requires
            at < old(self)@.len(),
            count <= usize::BITS,
        ensures
            final(self)@ == with_run(
                old(self)@,
                at as int,
                run_end(at as int, count as int),
                false,
            ),
    {
        self.write_run(at, count, false);
    }

    /// Counting the slots of a word after those before it.
    proof fn lemma_count_word(&self, o: int, n: int)
        requires
            0 <= o < self.words.len(),
            0 <= n <= usize::BITS,
        ensures
            o * usize::BITS + n <= self@.len(),
            used_count(self@.take(o * usize::BITS + n)) == used_count(self@.take(o * usize::BITS))
                + crate::bits::ones_below(self.words[o], n),
        decreases n,
    {
        if n == 0 {
            self.lemma_word_bit(o, 0);
        } else {
            self.lemma_count_word(o, n - 1);
            self.lemma_word_bit(o, n - 1);
            let s = self@.take(o * usize::BITS + n);
            assert(s.drop_last() =~= self@.take(o * usize::BITS + n - 1));
        }
    }

    /// The number of slots in use.
    pub fn count(&self) -> (r: usize)
        requires
            self@.len() <= usize::MAX,
        ensures
            r == used_count(self@),
            r <= self@.len(),
    {
        let mut val: usize = 0;
        let mut i: usize = 0;
        while i < self.words.len()
            invariant
                i <= self.words.len(),
                self@.len() == self.words.len() * usize::BITS,
                self@.len() <= usize::MAX,
                val == used_count(self@.take(i * usize::BITS)),
                val <= i * usize::BITS,
            decreases self.words.len() - i,
        {
            proof {
                self.lemma_count_word(i as int, usize::BITS as int);
                assert((i + 1) * usize::BITS == i * usize::BITS + usize::BITS)
                    by (nonlinear_arith);
                assert((i + 1) * usize::BITS <= self.words.len() * usize::BITS)
                    by (nonlinear_arith)
                    requires
                        i + 1 <= self.words.len(),
                ;
            }
            val = val + count_ones(self.words[i]) as usize;
            i = i + 1;
        }
        assert(self@.take(i * usize::BITS) =~= self@);
        val
    }
}

} // verus!
