use vstd::arithmetic::div_mod::lemma_fundamental_div_mod;
use vstd::arithmetic::div_mod::lemma_mod_bound;
use vstd::prelude::*;

use crate::popcount::bit_count64;
use crate::popcount::spec_popcount;

verus! {

/// A fixed-capacity set of bits packed into 64-bit words, least-significant
/// bit first: bit `i` lives in word `i / 64` at offset `i % 64`.
///
/// The logical length is fixed at construction. The final word may hold up
/// to 63 padding bits past the logical length; `count` includes them and
/// `flip_all` complements them, while indices reaching into a word that was
/// never allocated are a silent no-op for the mutators and read as `false`
/// for `test`.
pub struct BitSet {
    bits: Vec<u64>,
    nbits: usize,
}

/// Number of words needed to hold `n` bits.
pub open spec fn spec_blocks(n: nat) -> nat {
    if n % 64 == 0 {
        n / 64
    } else {
        n / 64 + 1
    }
}

/// Whether bit `off` of word `w` is 1.
pub open spec fn nth_bit(w: u64, off: u64) -> bool {
    (w >> off) & 1u64 == 1u64
}

/// Word `w` with bit `off` set to 1 (`v == true`) or cleared to 0.
pub open spec fn word_set(w: u64, off: u64, v: bool) -> u64 {
    if v {
        w | (1u64 << off)
    } else {
        w & !(1u64 << off)
    }
}

/// Word `w` with bit `off` inverted.
pub open spec fn word_flip(w: u64, off: u64) -> u64 {
    if nth_bit(w, off) {
        w & !(1u64 << off)
    } else {
        w | (1u64 << off)
    }
}

/// The words after writing `v` at bit `i`: the word holding bit `i` is
/// updated, any other index leaves the words unchanged.
pub open spec fn spec_set_bit(ws: Seq<u64>, i: int, v: bool) -> Seq<u64> {
    if 0 <= i && i / 64 < ws.len() {
        ws.update(i / 64, word_set(ws[i / 64], (i % 64) as u64, v))
    } else {
        ws
    }
}

/// The words after inverting bit `i`: the word holding bit `i` is updated,
/// any other index leaves the words unchanged.
pub open spec fn spec_flip_bit(ws: Seq<u64>, i: int) -> Seq<u64> {
    if 0 <= i && i / 64 < ws.len() {
        ws.update(i / 64, word_flip(ws[i / 64], (i % 64) as u64))
    } else {
        ws
    }
}

/// Every word complemented.
pub open spec fn spec_flip_all(ws: Seq<u64>) -> Seq<u64> {
    Seq::new(ws.len(), |k: int| !ws[k])
}

/// Whether some word is nonzero, i.e. some bit of the sequence is 1.
pub open spec fn spec_any(ws: Seq<u64>) -> bool {
    exists|k: int| 0 <= k < ws.len() && ws[k] != 0u64
}

/// Total 1-bits in the first `n` words.
pub open spec fn spec_count_upto(ws: Seq<u64>, n: int) -> nat
    decreases n,
{
    if n <= 0 {
        0
    } else {
        spec_count_upto(ws, n - 1) + spec_popcount(ws[n - 1])
    }
}

/// Total 1-bits across all words, padding included.
pub open spec fn spec_count(ws: Seq<u64>) -> nat {
    spec_count_upto(ws, ws.len() as int)
}

proof fn lemma_word_set(w: u64, off: u64, v: bool, j: u64)
    by (bit_vector)
    requires
        off < 64,
        j < 64,
    ensures
        j == off ==> nth_bit(word_set(w, off, v), j) == v,
        j != off ==> nth_bit(word_set(w, off, v), j) == nth_bit(w, j),
{
}

proof fn lemma_word_flip(w: u64, off: u64, j: u64)
    by (bit_vector)
    requires
        off < 64,
        j < 64,
    ensures
        j == off ==> nth_bit(word_flip(w, off), j) == !nth_bit(w, off),
        j != off ==> nth_bit(word_flip(w, off), j) == nth_bit(w, j),
{
}

proof fn lemma_word_not(w: u64, j: u64)
    by (bit_vector)
    requires
        j < 64,
    ensures
        nth_bit(!w, j) == !nth_bit(w, j),
{
}

proof fn lemma_word_flip_involution(w: u64, off: u64)
    by (bit_vector)
    requires
        off < 64,
    ensures
        word_flip(word_flip(w, off), off) == w,
{
}

/// For a nonnegative bit index, its word index and offset recompose to it,
/// and the word index is below `len` exactly when the bit index is below
/// `64 * len`.
proof fn lemma_bit_index(i: int, len: int)
    requires
        0 <= i,
    ensures
        i == 64 * (i / 64) + i % 64,
        0 <= i % 64 < 64,
        (i / 64 < len) <==> (i < 64 * len),
{
    lemma_fundamental_div_mod(i, 64);
    lemma_mod_bound(i, 64);
}

/// Two distinct bit indices in the same word have distinct offsets.
proof fn lemma_distinct_offsets(i: int, j: int)
    requires
        0 <= i,
        0 <= j,
        i != j,
        i / 64 == j / 64,
    ensures
        i % 64 != j % 64,
{
    lemma_fundamental_div_mod(i, 64);
    lemma_fundamental_div_mod(j, 64);
}

/// A sequence of all-zero words has no 1-bit: its population count is zero,
/// no word is nonzero, and every bit in range reads 0. This is what `reset`
/// leaves behind and what `with_capacity` starts from.
pub proof fn lemma_zero_words(ws: Seq<u64>)
    requires
        forall|k: int| 0 <= k < ws.len() ==> ws[k] == 0u64,
    ensures
        spec_count(ws) == 0,
        !spec_any(ws),
        forall|k: int, off: u64| 0 <= k < ws.len() && off < 64 ==> !nth_bit(ws[k], off),
{
    lemma_count_upto_zero(ws, ws.len() as int);
    assert forall|k: int, off: u64| 0 <= k < ws.len() && off < 64 implies !nth_bit(
        ws[k],
        off,
    ) by {
        assert(!nth_bit(0u64, off)) by (bit_vector)
            requires
                off < 64,
        ;
    }
}

proof fn lemma_count_upto_zero(ws: Seq<u64>, n: int)
    requires
        n <= ws.len(),
        forall|k: int| 0 <= k < n ==> ws[k] == 0u64,
    ensures
        spec_count_upto(ws, n) == 0,
    decreases n,
{
    if n > 0 {
        lemma_count_upto_zero(ws, n - 1);
        assert(spec_popcount(0u64) == 0);
    }
}

/// Inverting the same bit twice leaves the words as they were: `flip` is an
/// involution, at any index, in range or not.
pub proof fn lemma_flip_bit_involution(ws: Seq<u64>, i: int)
    ensures
        spec_flip_bit(spec_flip_bit(ws, i), i) == ws,
{
    if 0 <= i && i / 64 < ws.len() {
        lemma_bit_index(i, ws.len() as int);
        let b = i / 64;
        let off = (i % 64) as u64;
        lemma_word_flip_involution(ws[b], off);
        assert(spec_flip_bit(spec_flip_bit(ws, i), i) =~= ws);
    }
}

/// Complementing every word twice restores every word, padding bits
/// included: `flip_all` is an involution.
pub proof fn lemma_flip_all_involution(ws: Seq<u64>)
    ensures
        spec_flip_all(spec_flip_all(ws)) == ws,
{
    assert forall|k: int| 0 <= k < ws.len() implies !(!ws[k]) == ws[k] by {
        let w = ws[k];
        assert(!(!w) == w) by (bit_vector);
    }
    assert(spec_flip_all(spec_flip_all(ws)) =~= ws);
}

impl BitSet {
    /// The packed words, including any padding bits past the logical length.
    pub closed spec fn words(&self) -> Seq<u64> {
        self.bits@
    }

    /// The logical bit count requested at construction.
    pub closed spec fn spec_size(&self) -> nat {
        self.nbits as nat
    }

    /// The word count matches the logical length.
    pub open spec fn wf(&self) -> bool {
        self.words().len() == spec_blocks(self.spec_size())
    }

    /// Whether bit index `i` falls inside the allocated words.
    pub open spec fn in_range(&self, i: int) -> bool {
        0 <= i < 64 * self.words().len()
    }

    /// The value of bit `i` of the allocated words.
    pub open spec fn spec_test(&self, i: int) -> bool
        recommends
            self.in_range(i),
    {
        nth_bit(self.words()[i / 64], (i % 64) as u64)
    }

    fn blocks(&self) -> (r: usize)
        ensures
            r == spec_blocks(self.spec_size()),
    {
        if self.nbits % 64 == 0 {
            self.nbits / 64
        } else {
            self.nbits / 64 + 1
        }
    }

    /// Create an empty bitset holding zero bits and no words.
    pub fn new() -> (r: Self)
        ensures
            r.wf(),
            r.spec_size() == 0,
            r.words() == Seq::<u64>::empty(),
    {
        Self::default()
    }

    /// Create a bitset of `nbits` logical bits, every word zero.
    pub fn with_capacity(nbits: usize) -> (r: Self)
        ensures
            r.wf(),
            r.spec_size() == nbits,
            forall|k: int| 0 <= k < r.words().len() ==> r.words()[k] == 0u64,
    {
        let mut bitset = BitSet { bits: Vec::new(), nbits };
        let n = bitset.blocks();
        let mut i: usize = 0;
        while i < n
            invariant
                i <= n,
                bitset.nbits == nbits,
                bitset.bits@.len() == i,
                forall|k: int| 0 <= k < i ==> bitset.bits@[k] == 0u64,
            decreases n - i,
        {
            bitset.bits.push(0);
            i = i + 1;
        }
        bitset
    }

    /// Create a bitset of 64 logical bits whose single word is `v`.
    pub fn from_u64(v: u64) -> (r: Self)
        ensures
            r.wf(),
            r.spec_size() == 64,
            r.words() == seq![v],
    {
        let mut bits: Vec<u64> = Vec::new();
        bits.push(v);
        let r = BitSet { bits, nbits: 64 };
        proof {
            assert(r.words() =~= seq![v]);
        }
        r
    }

    /// Create a bitset whose words are copied from `vec`, with logical
    /// length `64 * vec.len()`. The length product must fit in `usize`.
    pub fn from_vec64(vec: &Vec<u64>) -> (r: Self)
        requires
            64 * vec@.len() <= usize::MAX,
        ensures
            r.wf(),
            r.spec_size() == 64 * vec@.len(),
            r.words() == vec@,
    {
        let mut bits: Vec<u64> = Vec::new();
        let mut i: usize = 0;
        while i < vec.len()
            invariant
                i <= vec@.len(),
                64 * vec@.len() <= usize::MAX,
                bits@.len() == i,
                forall|k: int| 0 <= k < i ==> bits@[k] == vec@[k],
            decreases vec@.len() - i,
        {
            bits.push(vec[i]);
            i = i + 1;
        }
        let r = BitSet { bits, nbits: vec.len() * 64 };
        proof {
            assert(r.words() =~= vec@);
        }
        r
    }

    /// The logical bit count, as requested at construction.
    pub fn size(&self) -> (r: usize)
        ensures
            r == self.spec_size(),
    {
        self.nbits
    }

    /// Total number of 1-bits across all words, padding bits past the
    /// logical length included. The word count is bounded so that the
    /// running `u64` total cannot overflow.
    pub fn count(&self) -> (r: u64)
        requires
            self.wf(),
            64 * self.words().len() <= u64::MAX,
        ensures
            r == spec_count(self.words()),
    {
        let n = self.blocks();
        let mut sum: u64 = 0;
        let mut i: usize = 0;
        while i < n
            invariant
                self.wf(),
                n == self.words().len(),
                64 * self.words().len() <= u64::MAX,
                i <= n,
                sum == spec_count_upto(self.words(), i as int),
                sum <= 64 * i,
            decreases n - i,
        {
            let c = bit_count64(self.bits[i]);
            sum = sum + c;
            i = i + 1;
        }
        sum
    }

    /// Whether bit `bit_idx` is 1. An index beyond the allocated words
    /// reads as `false`, mirroring the silent no-op of the mutators.
    pub fn test(&self, bit_idx: usize) -> (r: bool)
        ensures
            r == (self.in_range(bit_idx as int) && self.spec_test(bit_idx as int)),
    {
        let block_idx = bit_idx / 64;
        let mod_bit_idx = (bit_idx % 64) as u64;
        proof {
            lemma_bit_index(bit_idx as int, self.words().len() as int);
        }
        if block_idx < self.bits.len() {
            let n = self.bits[block_idx];
            (n >> mod_bit_idx) & 1 == 1
        } else {
            false
        }
    }

    /// Whether at least one bit of any word is 1, padding included.
    pub fn any(&self) -> (r: bool)
        requires
            self.wf(),
        ensures
            r == spec_any(self.words()),
    {
        let n = self.blocks();
        let mut i: usize = 0;
        while i < n
            invariant
                self.wf(),
                n == self.words().len(),
                i <= n,
                forall|k: int| 0 <= k < i ==> self.words()[k] == 0u64,
            decreases n - i,
        {
            if self.bits[i] != 0 {
                return true;
            }
            i = i + 1;
        }
        false
    }

    /// Whether every bit of every word is 0: the negation of `any`.
    pub fn none(&self) -> (r: bool)
        requires
            self.wf(),
        ensures
            r == !spec_any(self.words()),
    {
        !self.any()
    }

    /// Write `v` at bit `bit_idx`. An index beyond the allocated words is a
    /// silent no-op; every other bit keeps its value.
    pub fn set(&mut self, bit_idx: usize, v: bool)
        requires
            old(self).wf(),
        ensures
            final(self).wf(),
            final(self).spec_size() == old(self).spec_size(),
            final(self).words() == spec_set_bit(old(self).words(), bit_idx as int, v),
            final(self).words().len() == old(self).words().len(),
            old(self).in_range(bit_idx as int) ==> final(self).spec_test(bit_idx as int) == v,
            forall|j: int|
                old(self).in_range(j) && j != bit_idx ==> final(self).spec_test(j) == old(
                    self,
                ).spec_test(j),
            !old(self).in_range(bit_idx as int) ==> final(self).words() == old(self).words(),
    {
        let block_idx = bit_idx / 64;
        let mod_bit_idx = (bit_idx % 64) as u64;
        proof {
            lemma_bit_index(bit_idx as int, self.words().len() as int);
        }
        if block_idx < self.bits.len() {
            let w = self.bits[block_idx];
            let nw = if v {
                w | (1u64 << mod_bit_idx)
            } else {
                w & !(1u64 << mod_bit_idx)
            };
            self.bits.set(block_idx, nw);
            proof {
                assert forall|j: u64| j < 64 && j != mod_bit_idx implies nth_bit(nw, j) == nth_bit(
                    w,
                    j,
                ) by {
                    lemma_word_set(w, mod_bit_idx, v, j);
                }
                self.lemma_one_word_written(*old(self), bit_idx as int, nw);
                lemma_word_set(w, mod_bit_idx, v, mod_bit_idx);
            }
        }
    }

    /// Invert the bit at `bit_idx`. An index beyond the allocated words is
    /// a silent no-op; every other bit keeps its value.
    pub fn flip(&mut self, bit_idx: usize)
        requires
            old(self).wf(),
        ensures
            final(self).wf(),
            final(self).spec_size() == old(self).spec_size(),
            final(self).words() == spec_flip_bit(old(self).words(), bit_idx as int),
            final(self).words().len() == old(self).words().len(),
            old(self).in_range(bit_idx as int) ==> final(self).spec_test(bit_idx as int) == !old(
                self,
            ).spec_test(bit_idx as int),
            forall|j: int|
                old(self).in_range(j) && j != bit_idx ==> final(self).spec_test(j) == old(
                    self,
                ).spec_test(j),
            !old(self).in_range(bit_idx as int) ==> final(self).words() == old(self).words(),
    {
        let block_idx = bit_idx / 64;
        let mod_bit_idx = (bit_idx % 64) as u64;
        proof {
            lemma_bit_index(bit_idx as int, self.words().len() as int);
        }
        if block_idx < self.bits.len() {
            let w = self.bits[block_idx];
            let nw = if (w >> mod_bit_idx) & 1 == 1 {
                w & !(1u64 << mod_bit_idx)
            } else {
                w | (1u64 << mod_bit_idx)
            };
            self.bits.set(block_idx, nw);
            proof {
                assert forall|j: u64| j < 64 && j != mod_bit_idx implies nth_bit(nw, j) == nth_bit(
                    w,
                    j,
                ) by {
                    lemma_word_flip(w, mod_bit_idx, j);
                }
                self.lemma_one_word_written(*old(self), bit_idx as int, nw);
                lemma_word_flip(w, mod_bit_idx, mod_bit_idx);
            }
        }
    }

    /// After writing word `i / 64` of `prev` with a new word `nw` that
    /// agrees with the old one on every offset but `i % 64`, every bit
    /// other than `i` is unchanged.
    proof fn lemma_one_word_written(&self, prev: Self, i: int, nw: u64)
        requires
            0 <= i,
            i / 64 < prev.words().len(),
            self.words() == prev.words().update(i / 64, nw),
            forall|j: u64|
                j < 64 && j != (i % 64) as u64 ==> nth_bit(nw, j) == nth_bit(
                    prev.words()[i / 64],
                    j,
                ),
        ensures
            forall|j: int|
                prev.in_range(j) && j != i ==> self.spec_test(j) == prev.spec_test(j),
    {
        assert forall|j: int| prev.in_range(j) && j != i implies self.spec_test(j)
            == prev.spec_test(j) by {
            lemma_bit_index(j, prev.words().len() as int);
            if j / 64 == i / 64 {
                lemma_distinct_offsets(j, i);
            }
        }
    }

    /// Zero every word, padding bits included.
    pub fn reset(&mut self)
        requires
            old(self).wf(),
        ensures
            final(self).wf(),
            final(self).spec_size() == old(self).spec_size(),
            final(self).words().len() == old(self).words().len(),
            forall|k: int| 0 <= k < final(self).words().len() ==> final(self).words()[k] == 0u64,
    {
        let n = self.blocks();
        let mut i: usize = 0;
        while i < n
            invariant
                self.wf(),
                self.spec_size() == old(self).spec_size(),
                n == self.words().len(),
                self.words().len() == old(self).words().len(),
                i <= n,
                forall|k: int| 0 <= k < i ==> self.words()[k] == 0u64,
            decreases n - i,
        {
            self.bits.set(i, 0);
            i = i + 1;
        }
    }

    /// Complement every word, padding bits included: each bit in range of
    /// the allocated words is inverted.
    pub fn flip_all(&mut self)
        requires
            old(self).wf(),
        ensures
            final(self).wf(),
            final(self).spec_size() == old(self).spec_size(),
            final(self).words() == spec_flip_all(old(self).words()),
            final(self).words().len() == old(self).words().len(),
            forall|j: int|
                old(self).in_range(j) ==> final(self).spec_test(j) == !old(self).spec_test(j),
    {
        let n = self.blocks();
        let mut i: usize = 0;
        while i < n
            invariant
                self.wf(),
                self.spec_size() == old(self).spec_size(),
                n == self.words().len(),
                self.words().len() == old(self).words().len(),
                i <= n,
                forall|k: int| 0 <= k < i ==> self.words()[k] == !old(self).words()[k],
                forall|k: int| i <= k < n ==> self.words()[k] == old(self).words()[k],
            decreases n - i,
        {
            let w = self.bits[i];
            self.bits.set(i, !w);
            i = i + 1;
        }
        proof {
            assert(self.words() =~= spec_flip_all(old(self).words()));
            assert forall|j: int| old(self).in_range(j) implies self.spec_test(j) == !old(
                self,
            ).spec_test(j) by {
                lemma_bit_index(j, old(self).words().len() as int);
                lemma_word_not(old(self).words()[j / 64], (j % 64) as u64);
            }
        }
    }
}

impl Default for BitSet {
    /// An empty bitset holding zero bits and no words.
    fn default() -> (r: Self)
        ensures
            r.wf(),
            r.spec_size() == 0,
            r.words() == Seq::<u64>::empty(),
    {
        let r = BitSet { bits: Vec::new(), nbits: 0 };
        proof {
            assert(r.words() =~= Seq::<u64>::empty());
        }
        r
    }
}

} // verus!
