//! A set of integers below a fixed capacity, one bit per member.
//!
//! The pattern-database build uses it to avoid re-expanding an already
//! visited reduced state; it is scoped to one build run and not
//! persisted.

use vstd::prelude::*;

verus! {

/// A set of integers in [0, capacity), backed by one bit per member.
pub struct BitSet {
    words: Vec<u64>,
}

/// Whether bit `i` is set in the backing words.
pub open spec fn bit_at(words: Seq<u64>, i: int) -> bool {
    (words[i / 64] >> ((i % 64) as u64)) & 1 == 1
}

impl BitSet {
    /// The members of the set.
    pub closed spec fn view(&self) -> Set<int> {
        Set::new(|i: int| 0 <= i < self.spec_capacity() && bit_at(self.words@, i))
    }

    /// How many integers the set can hold: 64 for each backing word.
    pub closed spec fn spec_capacity(&self) -> int {
        self.words@.len() as int * 64
    }

    /// An empty set able to hold the integers below `capacity`.
    pub fn new(capacity: u64) -> (r: Self)
        requires
            capacity <= 0x10_0000_0000,
        ensures
            r@ =~= Set::<int>::empty(),
            r.spec_capacity() >= capacity,
    {
        let num_words = capacity / 64 + if capacity % 64 == 0 {
            0u64
        } else {
            1u64
        };
        let words: Vec<u64> = vec![0u64; num_words as usize];
        let r = BitSet { words };
        proof {
            assert forall|i: int| !r@.contains(i) by {
                if 0 <= i < r.spec_capacity() {
                    let w = r.words@[i / 64];
                    let sh = (i % 64) as u64;
                    assert((0u64 >> sh) & 1 == 0) by (bit_vector);
                }
            }
            vstd::arithmetic::div_mod::lemma_fundamental_div_mod(capacity as int, 64);
            vstd::arithmetic::mul::lemma_mul_is_distributive_add_other_way(
                64,
                capacity as int / 64,
                1,
            );
            vstd::arithmetic::mul::lemma_mul_is_commutative(capacity as int / 64, 64);
            vstd::arithmetic::mul::lemma_mul_is_commutative(r.words@.len() as int, 64);
        }
        r
    }

    /// Inserts `v`, reporting whether it was new: `true` exactly when `v`
    /// was not yet a member. `v` must lie below the capacity.
    pub fn insert_unchecked(&mut self, v: u64) -> (is_new: bool)
        requires
            v < old(self).spec_capacity(),
        ensures
            is_new == !old(self)@.contains(v as int),
            final(self)@ =~= old(self)@.insert(v as int),
            final(self).spec_capacity() == old(self).spec_capacity(),
    {
        let n = self.words.len();
        proof {
            // v / 64 indexes inside the backing words
            vstd::arithmetic::mul::lemma_mul_is_commutative(n as int, 64);
            vstd::arithmetic::div_mod::lemma_multiply_divide_lt(v as int, 64, n as int);
        }
        let idx = (v / 64) as usize;
        let bit_num = v % 64;
        let mask: u64 = 1u64 << bit_num;
        let word = self.words[idx];
        let ghost words0 = self.words@;
        if (word & mask) != 0 {
            proof {
                lemma_bit_test(word, bit_num);
                assert(idx as int == v as int / 64);
                assert(bit_num as int == (v as int) % 64);
                assert(word == words0[v as int / 64]);
                assert(bit_at(words0, v as int) == ((word >> bit_num) & 1 == 1));
                assert(old(self)@.contains(v as int));
            }
            false
        } else {
            self.words[idx] = word | mask;
            proof {
                lemma_bit_test(word, bit_num);
                assert(!old(self)@.contains(v as int));
                assert forall|i: int|
                    final(self)@.contains(i) <==> old(self)@.insert(v as int).contains(i) by {
                    if 0 <= i < self.spec_capacity() {
                        lemma_bit_set_other(word, bit_num, (i % 64) as u64);
                        if i / 64 != idx {
                            assert(self.words@[i / 64] == words0[i / 64]);
                        } else if i != v {
                            assert((i % 64) as u64 != bit_num) by {
                                vstd::arithmetic::div_mod::lemma_fundamental_div_mod(
                                    i as int,
                                    64,
                                );
                                vstd::arithmetic::div_mod::lemma_fundamental_div_mod(
                                    v as int,
                                    64,
                                );
                            }
                        }
                    }
                }
            }
            true
        }
    }
}

/// Testing the freshly OR-ed bit reads back set; other bits of the word
/// keep their value.
proof fn lemma_bit_set_other(w: u64, b: u64, j: u64)
    by (bit_vector)
    requires
        b < 64,
        j < 64,
    ensures
        ((w | (1u64 << b)) >> b) & 1 == 1,
        j != b ==> ((w | (1u64 << b)) >> j) & 1 == (w >> j) & 1,
{
}

/// A bit is set exactly when masking it out is nonzero.
proof fn lemma_bit_test(w: u64, b: u64)
    by (bit_vector)
    requires
        b < 64,
    ensures
        (w & (1u64 << b)) != 0 <==> (w >> b) & 1 == 1,
{
}

} // verus!
