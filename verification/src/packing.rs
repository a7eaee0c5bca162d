//! Base-25 packing of cell tuples.
//!
//! An ordered tuple of K cell indices (each in [0, 25)) is encoded
//! bijectively into one integer, as K base-25 digits. The 6-tile packing
//! indexes the pattern-database table; the 7-component packing (the 6
//! tiles plus the gap cell) deduplicates visited states during the
//! database build.

use vstd::prelude::*;

verus! {

/// Powers of 25, the weights of the packing digits.
pub open spec fn pow25(k: nat) -> nat
    decreases k,
{
    if k == 0 {
        1
    } else {
        25 * pow25((k - 1) as nat)
    }
}

/// The value of a digit sequence in base 25, least-significant first.
pub open spec fn base25(digits: Seq<int>) -> int
    decreases digits.len(),
{
    if digits.len() == 0 {
        0
    } else {
        digits[0] + 25 * base25(digits.drop_first())
    }
}

/// A value of in-range digits lies below the weight of the next digit.
pub proof fn lemma_base25_bound(digits: Seq<int>)
    requires
        forall|j: int| 0 <= j < digits.len() ==> 0 <= #[trigger] digits[j] < 25,
    ensures
        0 <= base25(digits) < pow25(digits.len()),
    decreases digits.len(),
{
    if digits.len() > 0 {
        lemma_base25_bound(digits.drop_first());
    }
}

/// Writing digit `k` of a zeroed slot adds exactly its weighted value.
pub proof fn lemma_base25_update(digits: Seq<int>, k: int, c: int)
    requires
        0 <= k < digits.len(),
        digits[k] == 0,
    ensures
        base25(digits.update(k, c)) == base25(digits) + c * pow25(k as nat),
    decreases k,
{
    let u = digits.update(k, c);
    if k == 0 {
        assert(u.drop_first() =~= digits.drop_first());
        vstd::arithmetic::mul::lemma_mul_basics(c);
    } else {
        assert(u[0] == digits[0]);
        assert(u.drop_first() =~= digits.drop_first().update(k - 1, c));
        lemma_base25_update(digits.drop_first(), k - 1, c);
        assert(pow25(k as nat) == 25 * pow25((k - 1) as nat));
        let pk1 = pow25((k - 1) as nat) as int;
        vstd::arithmetic::mul::lemma_mul_is_associative(c, 25, pk1);
        vstd::arithmetic::mul::lemma_mul_is_associative(25, c, pk1);
        vstd::arithmetic::mul::lemma_mul_is_commutative(c, 25);
        vstd::arithmetic::mul::lemma_mul_is_distributive_add(
            25,
            base25(digits.drop_first()),
            c * pk1,
        );
    }
}

/// Packs 6 cell indices into a `u32` as 6 base-25 digits (all values lie
/// below 25^6 = 244,140,625).
#[derive(Clone, Copy, Debug)]
pub struct Pattern6Packing {
    value: u32,
}

impl View for Pattern6Packing {
    type V = int;

    closed spec fn view(&self) -> int {
        self.value as int
    }
}

impl Pattern6Packing {
    /// The empty packing: all six digits zero.
    pub fn new() -> (r: Self)
        ensures
            r@ == 0,
    {
        Pattern6Packing { value: 0 }
    }

    /// Writes cell index `cell` into digit `pattern_tile_idx`, which must
    /// not have been set before (the digit is still zero, so adding the
    /// weighted value is exactly writing the digit).
    pub fn set_tile_unchecked(&mut self, pattern_tile_idx: u8, cell: crate::cells::PuzzleCell)
        requires
            pattern_tile_idx < 6,
            0 <= cell@ < 25,
            old(self)@ + cell@ * pow25(pattern_tile_idx as nat) < pow25(6),
        ensures
            final(self)@ == old(self)@ + cell@ * pow25(pattern_tile_idx as nat),
    {
        let w = pow25_u32(pattern_tile_idx);
        let c = cell.value();
        proof {
            lemma_pow25_values();
            vstd::arithmetic::mul::lemma_mul_upper_bound(w as int, 9765625, c as int, 24);
            vstd::arithmetic::mul::lemma_mul_is_commutative(w as int, c as int);
            vstd::arithmetic::mul::lemma_mul_nonnegative(w as int, c as int);
        }
        self.value = self.value + w * (c as u32);
    }

    /// The packed value, below 25^6.
    pub fn value(&self) -> (r: u32)
        ensures
            r as int == self@,
    {
        self.value
    }
}

/// Packs 7 cell indices into a `u64` as 7 base-25 digits (all values lie
/// below 25^7 = 6,103,515,625).
#[derive(Clone, Copy, Debug)]
pub struct Pattern7Packing {
    value: u64,
}

impl View for Pattern7Packing {
    type V = int;

    closed spec fn view(&self) -> int {
        self.value as int
    }
}

impl Pattern7Packing {
    /// Writes cell index `cell` into digit `pattern_tile_idx`, which must
    /// not have been set before.
    pub fn set_tile_unchecked(&mut self, pattern_tile_idx: u8, cell: crate::cells::PuzzleCell)
        requires
            pattern_tile_idx < 7,
            0 <= cell@ < 25,
            old(self)@ + cell@ * pow25(pattern_tile_idx as nat) < pow25(7),
        ensures
            final(self)@ == old(self)@ + cell@ * pow25(pattern_tile_idx as nat),
    {
        let w = pow25_u32(pattern_tile_idx) as u64;
        let c = cell.value();
        proof {
            lemma_pow25_values();
            vstd::arithmetic::mul::lemma_mul_upper_bound(w as int, 244140625, c as int, 24);
            vstd::arithmetic::mul::lemma_mul_is_commutative(w as int, c as int);
            vstd::arithmetic::mul::lemma_mul_nonnegative(w as int, c as int);
        }
        self.value = self.value + w * (c as u64);
    }

    /// Extends a 6-tile packing by the gap cell as the seventh digit.
    pub fn from_u32(v: Pattern6Packing, cell: crate::cells::PuzzleCell) -> (r: Self)
        requires
            0 <= v@ < pow25(6),
            0 <= cell@ < 25,
        ensures
            r@ == v@ + cell@ * pow25(6),
    {
        proof {
            lemma_pow25_values();
            vstd::arithmetic::mul::lemma_mul_inequality(cell@, 24, pow25(6) as int);
        }
        let mut out = Pattern7Packing { value: v.value() as u64 };
        out.set_tile_unchecked(6, cell);
        out
    }

    /// The packed value, below 25^7.
    pub fn value(&self) -> (r: u64)
        ensures
            r as int == self@,
    {
        self.value
    }
}

/// The concrete values of the seven powers of 25 in use.
pub proof fn lemma_pow25_values()
    ensures
        pow25(0) == 1,
        pow25(1) == 25,
        pow25(2) == 625,
        pow25(3) == 15625,
        pow25(4) == 390625,
        pow25(5) == 9765625,
        pow25(6) == 244140625,
        pow25(7) == 6103515625,
{
    assert(pow25(0) == 1);
    assert(pow25(1) == 25);
    assert(pow25(2) == 625);
    assert(pow25(3) == 15625);
    assert(pow25(4) == 390625);
    assert(pow25(5) == 9765625);
    assert(pow25(6) == 244140625);
    assert(pow25(7) == 6103515625);
}

/// The power of 25 with exponent `k`, computed directly.
fn pow25_u32(k: u8) -> (r: u32)
    requires
        k < 7,
    ensures
        r as int == pow25(k as nat),
        r <= 244140625,
        k < 6 ==> r <= 9765625,
{
    proof {
        lemma_pow25_values();
    }
    if k == 0 {
        1
    } else if k == 1 {
        25
    } else if k == 2 {
        625
    } else if k == 3 {
        15625
    } else if k == 4 {
        390625
    } else if k == 5 {
        9765625
    } else {
        244140625
    }
}

} // verus!
