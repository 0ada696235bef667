//! Fixed-capacity bit vector with a cached population count and an
//! O(words) subset test.

use vstd::prelude::*;
use vstd::set_lib::lemma_len_subset;
use vstd::set_lib::set_int_range;
use vstd::set_lib::lemma_int_range;
use vstd::arithmetic::div_mod::lemma_fundamental_div_mod;
use vstd::assert_by_contradiction;

verus! {

/// True iff bit `j` of word `w` is set.
pub open spec fn bit64(w: u64, j: u64) -> bool {
    (w >> j) & 1u64 == 1u64
}

/// A set of indices below a fixed capacity, packed into 64-bit words.
/// The abstract value is the set of indices whose bits are set.
pub struct BitSet {
    words: Vec<u64>,
    count: usize,
}

impl View for BitSet {
    type V = Set<int>;

    closed spec fn view(&self) -> Set<int> {
        Set::new(
            |i: int|
                0 <= i && i / 64 < self.words@.len() && bit64(
                    self.words@[i / 64],
                    (i % 64) as u64,
                ),
        )
    }
}

proof fn lemma_zero_word_has_no_bits()
    by (bit_vector)
    ensures
        forall|j: u64| !(#[trigger] bit64(0u64, j)),
{
}

/// Bit `k` of `w | (1 << j)` is bit `k` of `w`, or the new bit `j`.
proof fn lemma_or_single_bit(w: u64, j: u64, k: u64)
    by (bit_vector)
    requires
        j < 64,
        k < 64,
    ensures
        bit64(w | (1u64 << j), k) == (bit64(w, k) || k == j),
{
}

impl BitSet {
    /// Number of indices the packed words can hold.
    pub closed spec fn spec_capacity(&self) -> int {
        self.words@.len() * 64int
    }

    /// The cached population count agrees with the abstract set, and the
    /// capacity fits the machine.
    pub closed spec fn wf(&self) -> bool {
        &&& self@.finite()
        &&& self.count == self@.len()
        &&& self.words@.len() * 64 < usize::MAX
    }

    /// The cardinality of a well-formed set is machine-representable.
    pub proof fn lemma_card_lt_max(&self)
        requires
            self.wf(),
        ensures
            self@.len() < usize::MAX,
    {
        self.lemma_view_bounds();
    }

    /// Every member of the abstract set lies below the capacity, which is
    /// itself machine-representable; the set is finite and no larger than
    /// the capacity.
    pub proof fn lemma_view_bounds(&self)
        ensures
            self@.finite(),
            self@.len() <= self.spec_capacity(),
            forall|i: int| self@.contains(i) ==> 0 <= i < self.spec_capacity(),
    {
        let cap = self.spec_capacity();
        assert forall|i: int| self@.contains(i) implies 0 <= i < cap by {
            lemma_fundamental_div_mod(i, 64);
        }
        assert(self@.subset_of(set_int_range(0, cap)));
        lemma_int_range(0, cap);
        lemma_len_subset(self@, set_int_range(0, cap));
    }

    /// An empty set able to hold indices `0..nbits`.
    pub fn new(nbits: usize) -> (r: BitSet)
        requires
            nbits <= usize::MAX - 128,
        ensures
            r.wf(),
            r@ == Set::<int>::empty(),
            r.spec_capacity() >= nbits,
    {
        let nwords = nbits / 64 + 1;
        let mut words: Vec<u64> = Vec::new();
        for k in 0..nwords
            invariant
                words@.len() == k,
                forall|m: int| 0 <= m < k ==> words@[m] == 0u64,
        {
            words.push(0u64);
        }
        let r = BitSet { words, count: 0 };
        proof {
            lemma_zero_word_has_no_bits();
            assert(r@ =~= Set::<int>::empty());
            assert(r.spec_capacity() >= nbits) by (nonlinear_arith)
                requires
                    r.words@.len() == nbits / 64 + 1,
            {
                lemma_fundamental_div_mod(nbits as int, 64);
            }
            assert(r.words@.len() * 64 < usize::MAX) by (nonlinear_arith)
                requires
                    r.words@.len() == nbits / 64 + 1,
                    nbits <= usize::MAX - 128,
            {
                lemma_fundamental_div_mod(nbits as int, 64);
            }
        }
        r
    }

    /// Set bit `index`. The population count follows the true bit
    /// population: marking an index that is already present changes nothing.
    pub fn mark(&mut self, index: usize)
        requires
            old(self).wf(),
            index < old(self).spec_capacity(),
        ensures
            final(self).wf(),
            final(self)@ == old(self)@.insert(index as int),
            final(self).spec_capacity() == old(self).spec_capacity(),
    {
        proof {
            self.lemma_view_bounds();
            assert(index / 64 < self.words@.len() && (index % 64) < 64) by (nonlinear_arith)
                requires
                    index < self.words@.len() * 64,
            {
                lemma_fundamental_div_mod(index as int, 64);
            }
        }
        let which = index / 64;
        let j = (index % 64) as u64;
        let w = self.words[which];
        if (w >> j) & 1u64 != 1u64 {
            self.words.set(which, w | (1u64 << j));
            proof {
                assert forall|i: int| self@.contains(i) <==> old(self)@.insert(
                    index as int,
                ).contains(i) by {
                    lemma_fundamental_div_mod(i, 64);
                    lemma_fundamental_div_mod(index as int, 64);
                    if 0 <= i && i / 64 < self.words@.len() {
                        if i / 64 == which {
                            lemma_or_single_bit(w, j, (i % 64) as u64);
                        }
                    }
                }
                assert(self@ =~= old(self)@.insert(index as int));
                assert(!old(self)@.contains(index as int));
                vstd::set::axiom_set_insert_len(old(self)@, index as int);
            }
            self.count = self.count + 1;
        } else {
            proof {
                assert(old(self)@.contains(index as int)) by {
                    lemma_fundamental_div_mod(index as int, 64);
                }
                assert(self@ =~= old(self)@.insert(index as int));
            }
        }
    }

    /// The cached population count: the number of indices present.
    pub fn count(&self) -> (r: usize)
        requires
            self.wf(),
        ensures
            r == self@.len(),
    {
        self.count
    }

    /// True iff every index present in `self` is present in `other`.
    /// Sets of different capacities compare by their abstract contents.
    pub fn is_subset(&self, other: &BitSet) -> (r: bool)
        ensures
            r == self@.subset_of(other@),
    {
        let n = self.words.len();
        for k in 0..n
            invariant
                n == self.words@.len(),
                forall|m: int, j: u64|
                    0 <= m < k && j < 64 && #[trigger] bit64(self.words@[m], j) ==> m
                        < other.words@.len() && bit64(other.words@[m], j),
        {
            let w = self.words[k];
            let ow = if k < other.words.len() {
                other.words[k]
            } else {
                0u64
            };
            if w & ow != w {
                proof {
                    lemma_word_not_subset(w, ow);
                    let j = choose|j: u64| j < 64 && bit64(w, j) && !bit64(ow, j);
                    let i = k * 64 + j;
                    assert(i / 64 == k && i % 64 == j) by (nonlinear_arith)
                        requires
                            i == k * 64 + j,
                            j < 64,
                    ;
                    assert(self@.contains(i as int));
                    if k < other.words@.len() {
                        assert(!other@.contains(i as int));
                    } else {
                        lemma_zero_word_has_no_bits();
                        assert(!other@.contains(i as int));
                    }
                }
                return false;
            }
            proof {
                assert forall|j: u64| j < 64 && #[trigger] bit64(w, j) implies k
                    < other.words@.len() && bit64(ow, j) by {
                    lemma_word_subset_bits(w, ow, j);
                    lemma_zero_word_has_no_bits();
                }
            }
        }
        proof {
            assert forall|i: int| self@.contains(i) implies other@.contains(i) by {
                lemma_fundamental_div_mod(i, 64);
            }
        }
        true
    }
}

/// If `a & b == a`, every bit of `a` is a bit of `b`.
proof fn lemma_word_subset_bits(a: u64, b: u64, j: u64)
    by (bit_vector)
    requires
        a & b == a,
        j < 64,
        bit64(a, j),
    ensures
        bit64(b, j),
{
}

/// Low `j` bits of `a & b` and of `a` agree whenever every lower bit of `a`
/// is a bit of `b`; taken to `j == 64` this gives `a & b == a`.
proof fn lemma_mask_induct(a: u64, b: u64, j: u64)
    requires
        j <= 64,
        forall|k: u64| k < j && #[trigger] bit64(a, k) ==> bit64(b, k),
    ensures
        j < 64 ==> (a & b) & ((1u64 << j) - 1) as u64 == a & ((1u64 << j) - 1) as u64,
        j == 64 ==> a & b == a,
    decreases j,
{
    if j == 0 {
        assert((a & b) & ((1u64 << 0) - 1) as u64 == a & ((1u64 << 0) - 1) as u64) by (bit_vector);
    } else {
        let i = (j - 1) as u64;
        lemma_mask_induct(a, b, i);
        assert(bit64(a, i) ==> bit64(b, i));
        if j < 64 {
            assert((a & b) & ((1u64 << j) - 1) as u64 == a & ((1u64 << j) - 1) as u64)
                by (bit_vector)
                requires
                    j < 64,
                    i == j - 1,
                    (a & b) & ((1u64 << i) - 1) as u64 == a & ((1u64 << i) - 1) as u64,
                    bit64(a, i) ==> bit64(b, i),
            ;
        } else {
            assert(a & b == a) by (bit_vector)
                requires
                    i == 63u64,
                    (a & b) & ((1u64 << i) - 1) as u64 == a & ((1u64 << i) - 1) as u64,
                    bit64(a, i) ==> bit64(b, i),
            ;
        }
    }
}

/// If `a & b != a`, some bit of `a` is missing from `b`.
proof fn lemma_word_not_subset(a: u64, b: u64)
    requires
        a & b != a,
    ensures
        exists|j: u64| j < 64 && bit64(a, j) && !bit64(b, j),
{
    assert_by_contradiction!(exists|j: u64| j < 64 && bit64(a, j) && !bit64(b, j), {
        assert(forall|k: u64| k < 64 && #[trigger] bit64(a, k) ==> bit64(b, k));
        lemma_mask_induct(a, b, 64);
    });
}

} // verus!
