//! A fixed-capacity bit set over `usize` indices, stored one bit per index in
//! 64-bit words.
//!
//! The mathematical model of a [`Bitset`] is the set of indices whose bit is
//! set, together with the capacity.

use vstd::prelude::*;
use vstd::std_specs::bits::*;

verus! {

/// Bit `b` of the word `w`.
pub open spec fn bit(w: u64, b: int) -> bool {
    (w >> (b as u64)) & 1 == 1
}

proof fn lemma_bit_set(w: u64, i: u64, c: u64)
    by (bit_vector)
    requires
        i < 64,
        c < 64,
    ensures
        ((w | (1u64 << i)) >> c) & 1 == 1 <==> (((w >> c) & 1 == 1) || i == c),
        ((w & !(1u64 << i)) >> c) & 1 == 1 <==> (((w >> c) & 1 == 1) && i != c),
        (w & (1u64 << i) != 0) <==> ((w >> i) & 1 == 1),
{
}

proof fn lemma_bit_ops(a: u64, b: u64, k: u64, c: u64)
    by (bit_vector)
    requires
        c < 64,
    ensures
        ((a | b) >> c) & 1 == 1 <==> (((a >> c) & 1 == 1) || ((b >> c) & 1 == 1)),
        ((a | (b & !k)) >> c) & 1 == 1 <==> (((a >> c) & 1 == 1) || (((b >> c) & 1 == 1) && !((k
            >> c) & 1 == 1))),
        ((a ^ b) >> c) & 1 == 1 <==> ((a >> c) & 1 == 1) != ((b >> c) & 1 == 1),
        (0u64 >> c) & 1 != 1,
{
}

proof fn lemma_xor_zero(a: u64, b: u64)
    by (bit_vector)
    ensures
        a ^ b == 0 ==> a == b,
{
}

proof fn lemma_drop_lowest(w: u64, t: u64, c: u64)
    by (bit_vector)
    requires
        t < 64,
        c < 64,
        (w >> t) & 1 == 1,
        t > 0 ==> (w << ((64 - t) as u64)) == 0,
    ensures
        ((w & ((w - 1) as u64)) >> c) & 1 == 1 <==> (((w >> c) & 1 == 1) && c != t),
        c < t ==> (w >> c) & 1 == 0,
{
}

/// Two words with the same bits are equal.
proof fn lemma_word_ext(a: u64, b: u64)
    requires
        forall|c: int| 0 <= c < 64 ==> bit(a, c) == bit(b, c),
    ensures
        a == b,
{
    if a != b {
        lemma_xor_zero(a, b);
        let x = a ^ b;
        axiom_u64_trailing_zeros(x);
        let t = u64_trailing_zeros(x) as u64;
        lemma_bit_ops(a, b, 0, t);
        assert(bit(a, t as int) == bit(b, t as int));
        assert(false);
    }
}

/// The positions `base + b` of the set bits `b` of the word `w`.
pub open spec fn bits_at(w: u64, base: int) -> Set<int> {
    Set::new(|i: int| base <= i < base + 64 && bit(w, i - base))
}

/// Clearing the lowest set bit of a nonzero word removes exactly its lowest
/// position.
proof fn lemma_clear_lowest(w: u64, base: int)
    requires
        w != 0,
    ensures
        u64_trailing_zeros(w) < 64,
        bits_at(w, base).contains(base + u64_trailing_zeros(w)),
        forall|i: int|
            bits_at(w, base).contains(i) ==> base + u64_trailing_zeros(w) <= i,
        bits_at(w & ((w - 1) as u64), base) =~= bits_at(w, base).remove(
            base + u64_trailing_zeros(w),
        ),
{
    axiom_u64_trailing_zeros(w);
    let t = u64_trailing_zeros(w) as u64;
    assert forall|c: int| 0 <= c < 64 implies {
        &&& #[trigger] bit(w & ((w - 1) as u64), c) <==> (bit(w, c) && c != t)
        &&& c < t ==> !bit(w, c)
    } by {
        lemma_drop_lowest(w, t, c as u64);
    }
    assert forall|i: int| bits_at(w, base).contains(i) implies base + t <= i by {
        assert(bit(w & ((w - 1) as u64), i - base) == bit(w & ((w - 1) as u64), i - base));
    }
}

proof fn lemma_no_bits(base: int)
    ensures
        bits_at(0, base) =~= Set::<int>::empty(),
{
    assert forall|c: int| 0 <= c < 64 implies !bit(0, c) by {
        lemma_bit_ops(0, 0, 0, c as u64);
    }
}

proof fn lemma_bits_at_finite(w: u64, base: int)
    ensures
        bits_at(w, base).finite(),
        bits_at(w, base).len() <= 64,
{
    let r = vstd::set_lib::set_int_range(base, base + 64);
    vstd::set_lib::lemma_int_range(base, base + 64);
    vstd::set_lib::lemma_len_subset(bits_at(w, base), r);
}

/// The number of set bits of `w`.
fn popcount(w: u64) -> (n: usize)
    ensures
        n == bits_at(w, 0).len(),
{
    let mut rest: u64 = w;
    let mut n: usize = 0;
    proof {
        lemma_bits_at_finite(w, 0);
    }
    while rest != 0
        invariant
            bits_at(rest, 0).finite(),
            n + bits_at(rest, 0).len() == bits_at(w, 0).len(),
            bits_at(w, 0).len() <= 64,
        decreases bits_at(rest, 0).len(),
    {
        proof {
            lemma_clear_lowest(rest, 0);
            assert(bits_at(rest, 0).len() > 0);
        }
        rest = rest & (rest - 1);
        n = n + 1;
    }
    proof {
        lemma_no_bits(0);
    }
    n
}

/// A bit set storing membership for indices in `0..capacity`.
///
/// The capacity is fixed at construction.  Operations that combine two bit
/// sets require both to have the same capacity.
#[derive(Debug, Eq)]
pub struct Bitset {
    words: Vec<u64>,
    capacity: usize,
}

/// The number of 64-bit words that hold `capacity` bits.
pub open spec fn words_for(capacity: nat) -> nat {
    ((capacity + 63) / 64) as nat
}

impl View for Bitset {
    type V = Set<int>;

    /// The indices contained in the set.
    closed spec fn view(&self) -> Set<int> {
        Set::new(|i: int| 0 <= i < self.words.len() * 64 && bit(self.words@[i / 64], i % 64))
    }
}

impl Bitset {
    /// The exclusive upper bound on indices.
    pub closed spec fn cap(&self) -> nat {
        self.capacity as nat
    }

    /// The words that store the bits.
    pub closed spec fn word_seq(&self) -> Seq<u64> {
        self.words@
    }

    /// Enough words for the capacity, and no bit at or above the capacity.
    pub closed spec fn wf(&self) -> bool {
        &&& self.words.len() == words_for(self.capacity as nat)
        &&& forall|i: int| self@.contains(i) ==> 0 <= i < self.capacity
    }

    /// Every member of a well-formed set is below its capacity.
    pub proof fn lemma_members_below_cap(&self)
        requires
            self.wf(),
        ensures
            self@.finite(),
            self@.len() <= self.cap(),
            forall|i: int| self@.contains(i) ==> 0 <= i < self.cap(),
    {
        let r = vstd::set_lib::set_int_range(0, self.capacity as int);
        vstd::set_lib::lemma_int_range(0, self.capacity as int);
        assert(self@.subset_of(r));
        vstd::set_lib::lemma_len_subset(self@, r);
    }

    /// Comparison of capacity and words is comparison of capacity and members.
    pub proof fn lemma_eq_is_set_equality(&self, other: &Bitset)
        requires
            self.wf(),
            other.wf(),
            self.cap() == other.cap(),
        ensures
            self.word_seq() == other.word_seq() <==> self@ == other@,
    {
        if self@ == other@ {
            assert forall|w: int| 0 <= w < self.words.len() implies self.words@[w]
                == other.words@[w] by {
                assert forall|c: int| 0 <= c < 64 implies bit(self.words@[w], c) == bit(
                    other.words@[w],
                    c,
                ) by {
                    let i = w * 64 + c;
                    assert(i / 64 == w && i % 64 == c);
                    assert(self@.contains(i) == other@.contains(i));
                }
                lemma_word_ext(self.words@[w], other.words@[w]);
            }
            assert(self.words@ =~= other.words@);
        }
        if self.words@ == other.words@ {
            assert(self@ =~= other@);
        }
    }

    /// Creates an empty bit set for indices in `0..capacity`.
    pub fn new(capacity: usize) -> (result: Self)
        ensures
            result.wf(),
            result.cap() == capacity,
            result@ == Set::<int>::empty(),
    {
        let num_words: usize = capacity / 64 + if capacity % 64 == 0 {
            0
        } else {
            1
        };
        let words: Vec<u64> = vec![0u64; num_words];
        let result = Bitset { words, capacity };
        proof {
            assert forall|i: int| !result@.contains(i) by {
                if 0 <= i < words.len() * 64 {
                    lemma_bit_ops(0, 0, 0, (i % 64) as u64);
                }
            }
            assert(result@ =~= Set::empty());
        }
        result
    }

    /// The word that holds bit `i`, and the mask of `i` within it.
    fn locate(&self, i: usize) -> (r: (usize, u64))
        requires
            self.wf(),
            i < self.cap(),
        ensures
            r.0 == i / 64,
            r.0 < self.word_seq().len(),
            r.1 == 1u64 << ((i % 64) as u64),
    {
        (i / 64, 1u64 << ((i % 64) as u64))
    }

    /// Inserts `i`.  Returns `true` if it was not a member before.
    pub fn insert(&mut self, i: usize) -> (added: bool)
        requires
            old(self).wf(),
            i < old(self).cap(),
        ensures
            final(self).wf(),
            final(self).cap() == old(self).cap(),
            final(self)@ == old(self)@.insert(i as int),
            added == !old(self)@.contains(i as int),
    {
        let (w, mask) = self.locate(i);
        let word: u64 = self.words[w];
        let was_set = word & mask != 0;
        let ghost before = *self;
        self.words.set(w, word | mask);
        proof {
            let b = (i % 64) as u64;
            lemma_bit_set(word, b, b);
            assert forall|j: int| 0 <= j < self.words.len() * 64 implies (self@.contains(j) <==> (
            before@.contains(j) || j == i)) by {
                if j / 64 == i / 64 {
                    lemma_bit_set(word, b, (j % 64) as u64);
                }
            }
            assert(self@ =~= before@.insert(i as int));
        }
        !was_set
    }

    /// Removes `i`.  Returns `true` if it was a member before.
    pub fn remove(&mut self, i: usize) -> (removed: bool)
        requires
            old(self).wf(),
            i < old(self).cap(),
        ensures
            final(self).wf(),
            final(self).cap() == old(self).cap(),
            final(self)@ == old(self)@.remove(i as int),
            removed == old(self)@.contains(i as int),
    {
        let (w, mask) = self.locate(i);
        let word: u64 = self.words[w];
        let was_set = word & mask != 0;
        let ghost before = *self;
        self.words.set(w, word & !mask);
        proof {
            let b = (i % 64) as u64;
            lemma_bit_set(word, b, b);
            assert forall|j: int| 0 <= j < self.words.len() * 64 implies (self@.contains(j) <==> (
            before@.contains(j) && j != i)) by {
                if j / 64 == i / 64 {
                    lemma_bit_set(word, b, (j % 64) as u64);
                }
            }
            assert(self@ =~= before@.remove(i as int));
        }
        was_set
    }

    /// Whether `i` is a member.  Indices at or above the capacity never are.
    pub fn contains(&self, i: usize) -> (present: bool)
        requires
            self.wf(),
        ensures
            present == self@.contains(i as int),
    {
        if i >= self.capacity {
            return false;
        }
        let (w, mask) = self.locate(i);
        proof {
            let b = (i % 64) as u64;
            lemma_bit_set(self.words@[w as int], b, b);
        }
        self.words[w] & mask != 0
    }

    /// Removes all members.
    pub fn clear(&mut self)
        requires
            old(self).wf(),
        ensures
            final(self).wf(),
            final(self).cap() == old(self).cap(),
            final(self)@ == Set::<int>::empty(),
    {
        let n: usize = self.words.len();
        let ghost cap = self.capacity;
        let mut k: usize = 0;
        while k < n
            invariant
                k <= n,
                n == self.words.len(),
                self.capacity == cap,
                forall|j: int| 0 <= j < k ==> self.words@[j] == 0,
            decreases n - k,
        {
            self.words.set(k, 0);
            k = k + 1;
        }
        proof {
            assert forall|i: int| !self@.contains(i) by {
                if 0 <= i < self.words.len() * 64 {
                    lemma_bit_ops(0, 0, 0, (i % 64) as u64);
                }
            }
            assert(self@ =~= Set::empty());
        }
    }

    /// The members stored in the first `k` words.
    spec fn prefix(&self, k: int) -> Set<int> {
        Set::new(|i: int| self@.contains(i) && i < k * 64)
    }

    proof fn lemma_prefix_step(&self, k: int)
        requires
            0 <= k < self.words.len(),
            self.prefix(k).finite(),
        ensures
            self.prefix(k + 1).finite(),
            self.prefix(k + 1).len() == self.prefix(k).len() + bits_at(self.words@[k], 0).len(),
    {
        let w = self.words@[k];
        let shift = |i: int| i + k * 64;
        let low = bits_at(w, 0);
        let high = bits_at(w, k * 64);
        lemma_bits_at_finite(w, 0);
        lemma_bits_at_finite(w, k * 64);
        assert(low.map(shift) =~= high) by {
            assert forall|i: int| high.contains(i) implies low.map(shift).contains(i) by {
                assert(low.contains(i - k * 64) && shift(i - k * 64) == i);
            }
        }
        vstd::set_lib::lemma_map_size(low, high, shift);
        assert(self.prefix(k + 1) =~= self.prefix(k) + high);
        assert(self.prefix(k).disjoint(high));
        vstd::set_lib::lemma_set_disjoint_lens(self.prefix(k), high);
    }

    /// The number of members.
    pub fn len(&self) -> (n: usize)
        requires
            self.wf(),
        ensures
            n == self@.len(),
    {
        let count: usize = self.words.len();
        let mut k: usize = 0;
        let mut n: usize = 0;
        proof {
            assert(self.prefix(0) =~= Set::empty());
            assert(self.prefix(count as int) =~= self@);
            self.lemma_members_below_cap();
        }
        while k < count
            invariant
                k <= count,
                count == self.words.len(),
                self.prefix(k as int).finite(),
                n == self.prefix(k as int).len(),
                self.wf(),
                self@.finite(),
                self@.len() <= self.capacity,
            decreases count - k,
        {
            proof {
                self.lemma_prefix_step(k as int);
                vstd::set_lib::lemma_len_subset(self.prefix(k + 1), self@);
            }
            n = n + popcount(self.words[k]);
            k = k + 1;
        }
        proof {
            assert(self.prefix(count as int) =~= self@);
        }
        n
    }

    /// Whether the set has no members.
    pub fn is_empty(&self) -> (empty: bool)
        requires
            self.wf(),
        ensures
            empty == (self@ == Set::<int>::empty()),
    {
        let count: usize = self.words.len();
        let mut k: usize = 0;
        while k < count
            invariant
                k <= count,
                count == self.words.len(),
                forall|j: int| 0 <= j < k ==> self.words@[j] == 0,
            decreases count - k,
        {
            if self.words[k] != 0 {
                proof {
                    let w = self.words@[k as int];
                    lemma_clear_lowest(w, 0);
                    let t = u64_trailing_zeros(w) as int;
                    assert((k * 64 + t) / 64 == k && (k * 64 + t) % 64 == t);
                    assert(self@.contains(k * 64 + t));
                }
                return false;
            }
            k = k + 1;
        }
        proof {
            assert forall|i: int| !self@.contains(i) by {
                if 0 <= i < self.words.len() * 64 {
                    lemma_bit_ops(0, 0, 0, (i % 64) as u64);
                }
            }
            assert(self@ =~= Set::empty());
        }
        true
    }

    /// Computes `self := self ∪ other`.  Returns `true` if `self` changed.
    pub fn union_with(&mut self, other: &Self) -> (changed: bool)
        requires
            old(self).wf(),
            other.wf(),
            old(self).cap() == other.cap(),
        ensures
            final(self).wf(),
            final(self).cap() == old(self).cap(),
            final(self)@ == old(self)@ + other@,
            changed == (final(self)@ != old(self)@),
    {
        let n: usize = self.words.len();
        let ghost before = *self;
        let mut changed = false;
        let mut k: usize = 0;
        while k < n
            invariant
                k <= n,
                n == self.words.len(),
                n == before.words.len(),
                n == other.words.len(),
                self.capacity == before.capacity,
                forall|j: int| 0 <= j < k ==> self.words@[j] == before.words@[j] | other.words@[j],
                forall|j: int| k <= j < n ==> self.words@[j] == before.words@[j],
                !changed ==> (forall|j: int| 0 <= j < n ==> self.words@[j] == before.words@[j]),
                changed ==> (exists|j: int|
                    0 <= j < k && before.words@[j] | other.words@[j] != before.words@[j]),
            decreases n - k,
        {
            let a: u64 = self.words[k];
            let joined: u64 = a | other.words[k];
            if joined != a {
                changed = true;
                assert(before.words@[k as int] | other.words@[k as int] != before.words@[k as int]);
                self.words.set(k, joined);
            }
            k = k + 1;
        }
        proof {
            assert forall|i: int|
                self@.contains(i) <==> (before@.contains(i) || other@.contains(i)) by {
                if 0 <= i < n * 64 {
                    lemma_bit_ops(before.words@[i / 64], other.words@[i / 64], 0, (i % 64) as u64);
                }
            }
            assert(self@ =~= before@ + other@);
            assert(self.wf());
            self.lemma_eq_is_set_equality(&before);
            if !changed {
                assert(self.words@ =~= before.words@);
            }
        }
        changed
    }

    /// Sets `self := gen ∪ (out ∖ kill)`, the transfer function of backward
    /// liveness.  Returns `true` if `self` changed.
    pub fn assign_transfer(&mut self, gen: &Self, kill: &Self, out: &Self) -> (changed: bool)
        requires
            old(self).wf(),
            gen.wf(),
            kill.wf(),
            out.wf(),
            old(self).cap() == gen.cap(),
            old(self).cap() == kill.cap(),
            old(self).cap() == out.cap(),
        ensures
            final(self).wf(),
            final(self).cap() == old(self).cap(),
            final(self)@ == gen@ + (out@ - kill@),
            changed == (final(self)@ != old(self)@),
    {
        let n: usize = self.words.len();
        let ghost before = *self;
        let mut changed = false;
        let mut k: usize = 0;
        while k < n
            invariant
                k <= n,
                n == self.words.len(),
                n == before.words.len(),
                n == gen.words.len(),
                n == kill.words.len(),
                n == out.words.len(),
                self.capacity == before.capacity,
                forall|j: int|
                    #![trigger self.words@[j]]
                    0 <= j < k ==> self.words@[j] == gen.words@[j] | (out.words@[j]
                        & !kill.words@[j]),
                forall|j: int| k <= j < n ==> self.words@[j] == before.words@[j],
                !changed ==> (forall|j: int| 0 <= j < n ==> self.words@[j] == before.words@[j]),
                changed ==> (exists|j: int|
                    0 <= j < k && #[trigger] self.words@[j] != before.words@[j]),
            decreases n - k,
        {
            let updated: u64 = gen.words[k] | (out.words[k] & !kill.words[k]);
            if updated != self.words[k] {
                changed = true;
                self.words.set(k, updated);
                assert(self.words@[k as int] != before.words@[k as int]);
            }
            k = k + 1;
        }
        proof {
            assert forall|i: int|
                self@.contains(i) <==> (gen@.contains(i) || (out@.contains(i) && !kill@.contains(
                    i,
                ))) by {
                if 0 <= i < n * 64 {
                    lemma_bit_ops(
                        gen.words@[i / 64],
                        out.words@[i / 64],
                        kill.words@[i / 64],
                        (i % 64) as u64,
                    );
                }
            }
            assert(self@ =~= gen@ + (out@ - kill@));
            assert(self.wf());
            self.lemma_eq_is_set_equality(&before);
            if !changed {
                assert(self.words@ =~= before.words@);
            }
        }
        changed
    }

    /// An iterator over the members in ascending order.
    pub fn iter(&self) -> (it: Iter<'_>)
        requires
            self.wf(),
        ensures
            it.wf(),
            it.remaining() == self@,
    {
        let current: u64 = if self.words.len() > 0 {
            self.words[0]
        } else {
            0
        };
        let it = Iter { words: &self.words, word_idx: 0, current };
        proof {
            assert(self.words.len() * 64 <= self.capacity + 63);
            assert forall|i: int| it.remaining().contains(i) == self@.contains(i) by {
                if self.words.len() == 0 {
                    lemma_no_bits(0);
                    assert(!bits_at(0, 0).contains(i));
                }
            }
            assert(it.remaining() =~= self@);
        }
        it
    }
}

impl Clone for Bitset {
    fn clone(&self) -> (copy: Self)
        ensures
            copy.cap() == self.cap(),
            copy.word_seq() == self.word_seq(),
            copy@ == self@,
            copy.wf() == self.wf(),
    {
        let words: Vec<u64> = self.words.clone();
        assert(words@ =~= self.words@);
        let copy = Bitset { words, capacity: self.capacity };
        assert(copy@ =~= self@);
        copy
    }
}

impl PartialEq for Bitset {
    fn eq(&self, other: &Self) -> (same: bool) {
        if self.capacity != other.capacity || self.words.len() != other.words.len() {
            return false;
        }
        let n: usize = self.words.len();
        let mut k: usize = 0;
        while k < n
            invariant
                k <= n,
                n == self.words.len(),
                n == other.words.len(),
                forall|j: int| 0 <= j < k ==> self.words@[j] == other.words@[j],
            decreases n - k,
        {
            if self.words[k] != other.words[k] {
                return false;
            }
            k = k + 1;
        }
        assert(self.words@ =~= other.words@);
        true
    }
}

impl vstd::std_specs::cmp::PartialEqSpecImpl for Bitset {
    open spec fn obeys_eq_spec() -> bool {
        true
    }

    open spec fn eq_spec(&self, other: &Self) -> bool {
        self.cap() == other.cap() && self.word_seq() == other.word_seq()
    }
}

/// Ascending iterator over the members of a [`Bitset`].
pub struct Iter<'a> {
    words: &'a Vec<u64>,
    word_idx: usize,
    current: u64,
}

impl<'a> Iter<'a> {
    /// The members not yet handed out.
    pub closed spec fn remaining(&self) -> Set<int> {
        bits_at(self.current, self.word_idx * 64) + Set::new(
            |i: int|
                (self.word_idx + 1) * 64 <= i < self.words.len() * 64 && bit(
                    self.words@[i / 64],
                    i % 64,
                ),
        )
    }

    /// The position is within the words, and every member fits in `usize`.
    pub closed spec fn wf(&self) -> bool {
        &&& self.words.len() <= usize::MAX / 64 + 1
        &&& self.word_idx < self.words.len() || self.current == 0
        &&& self.word_idx <= self.words.len()
        &&& forall|i: int| self.remaining().contains(i) ==> 0 <= i <= usize::MAX
    }

    /// Hands out the least member that remains.
    pub fn next(&mut self) -> (item: Option<usize>)
        requires
            old(self).wf(),
        ensures
            final(self).wf(),
            match item {
                Some(i) => {
                    &&& old(self).remaining().contains(i as int)
                    &&& forall|j: int| old(self).remaining().contains(j) ==> i <= j
                    &&& final(self).remaining() == old(self).remaining().remove(i as int)
                },
                None => {
                    &&& old(self).remaining() == Set::<int>::empty()
                    &&& final(self).remaining() == Set::<int>::empty()
                },
            },
    {
        let ghost all = self.remaining();
        loop
            invariant
                self.wf(),
                self.remaining() == all,
                all == old(self).remaining(),
            decreases self.words.len() - self.word_idx,
        {
            if self.current != 0 {
                let ghost base = self.word_idx * 64;
                let ghost cur = self.current;
                proof {
                    lemma_clear_lowest(self.current, base);
                    assert(self.remaining().contains(base + u64_trailing_zeros(self.current)));
                }
                let b: usize = self.current.trailing_zeros() as usize;
                self.current = self.current & (self.current - 1);
                proof {
                    assert(bits_at(self.current, base) =~= bits_at(cur, base).remove(base + b));
                    assert(self.remaining() =~= all.remove(base + b));
                    assert forall|j: int| all.contains(j) implies base + b <= j by {}
                }
                return Some(self.word_idx * 64 + b);
            }
            proof {
                lemma_no_bits(self.word_idx * 64);
            }
            if self.word_idx + 1 >= self.words.len() {
                assert(all =~= Set::empty());
                return None;
            }
            self.word_idx = self.word_idx + 1;
            self.current = self.words[self.word_idx];
            proof {
                assert forall|i: int| self.remaining().contains(i) == all.contains(i) by {}
                assert(self.remaining() =~= all);
            }
        }
    }

    /// All remaining members, in ascending order.
    pub fn collect(self) -> (items: Vec<usize>)
        requires
            self.wf(),
        ensures
            forall|a: int, b: int| 0 <= a < b < items.len() ==> items[a] < items[b],
            forall|i: int|
                #![auto]
                self.remaining().contains(i) <==> exists|k: int|
                    0 <= k < items.len() && items[k] == i,
    {
        let mut it = self;
        let mut items: Vec<usize> = Vec::new();
        let ghost all = it.remaining();
        let ghost start = it;
        proof {
            it.lemma_remaining_finite();
        }
        loop
            invariant
                it.wf(),
                it.remaining().finite(),
                all == self.remaining(),
                forall|a: int, b: int| 0 <= a < b < items.len() ==> items[a] < items[b],
                forall|k: int| 0 <= k < items.len() ==> all.contains(#[trigger] items[k] as int),
                forall|k: int, i: int|
                    0 <= k < items.len() && #[trigger] it.remaining().contains(i)
                        ==> #[trigger] items[k] < i,
                forall|i: int|
                    #![trigger all.contains(i)]
                    all.contains(i) ==> it.remaining().contains(i) || exists|k: int|
                        0 <= k < items.len() && items[k] == i,
                forall|i: int| it.remaining().contains(i) ==> all.contains(i),
            decreases it.remaining().len(),
        {
            let ghost before = it.remaining();
            let ghost prior = items@;
            match it.next() {
                None => {
                    return items;
                },
                Some(i) => {
                    items.push(i);
                    proof {
                        assert forall|j: int| all.contains(j) implies it.remaining().contains(j)
                            || exists|k: int| 0 <= k < items.len() && items[k] == j by {
                            if j == i {
                                assert(items[items.len() - 1] == j);
                            } else if !before.contains(j) {
                                let k = choose|k: int| 0 <= k < prior.len() && prior[k] == j;
                                assert(items[k] == j);
                            }
                        }
                    }
                },
            }
        }
    }

    proof fn lemma_remaining_finite(&self)
        requires
            self.wf(),
        ensures
            self.remaining().finite(),
    {
        let r = vstd::set_lib::set_int_range(0, usize::MAX + 1);
        vstd::set_lib::lemma_int_range(0, usize::MAX + 1);
        assert(self.remaining().subset_of(r));
        vstd::set_lib::lemma_len_subset(self.remaining(), r);
    }
}

/// `items` lists the members of `s` in ascending order.
pub open spec fn lists(items: Seq<usize>, s: Set<int>) -> bool {
    &&& forall|a: int, b: int| 0 <= a < b < items.len() ==> items[a] < items[b]
    &&& forall|k: int| 0 <= k < items.len() ==> s.contains(#[trigger] items[k] as int)
    &&& forall|i: int|
        #[trigger] s.contains(i) ==> exists|k: int| 0 <= k < items.len() && items[k] == i
}

/// The members of a set in ascending order.
pub fn members(set: &Bitset) -> (items: Vec<usize>)
    requires
        set.wf(),
    ensures
        lists(items@, set@),
{
    let items = set.iter().collect();
    assert forall|k: int| 0 <= k < items.len() implies set@.contains(
        #[trigger] items@[k] as int,
    ) by {
        assert(items[k] == items@[k]);
    }
    items
}

} // verus!
