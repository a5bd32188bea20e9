//! A set of cells packed into one machine word.

use core::ops::{BitAnd, BitAndAssign, BitOr, BitOrAssign, Not};
use crate::index::CellIdx;
use vstd::prelude::*;

verus! {

/// The number of cells that one [`CellBitmap`] can hold.
pub const CAPACITY: usize = 64;

/// Whether bit `i` of `bits` is set. No bit exists outside `0..64`.
pub open spec fn has_bit(bits: u64, i: int) -> bool {
    0 <= i < 64 && (bits >> (i as u64)) & 1 == 1
}

/// A set of cell indices below 64, one bit per cell.
#[derive(Debug, Clone, Copy, PartialEq, Eq, Structural)]
pub struct CellBitmap {
    pub bits: u64,
}

impl View for CellBitmap {
    type V = Set<int>;

    /// The cells whose bit is set.
    open spec fn view(&self) -> Set<int> {
        Set::new(|c: int| has_bit(self.bits, c))
    }
}

/// Every cell index that a bitmap can hold.
pub open spec fn all_cells() -> Set<int> {
    Set::new(|c: int| 0 <= c < 64)
}

/// The cell indices strictly below `n`.
pub open spec fn cells_below(n: int) -> Set<int> {
    Set::new(|c: int| 0 <= c < n)
}

proof fn lemma_zero_has_no_bit(j: u64)
    by (bit_vector)
    requires
        j < 64,
    ensures
        (0u64 >> j) & 1 != 1,
{
}

proof fn lemma_bit_after_set(bits: u64, i: u64, j: u64)
    by (bit_vector)
    requires
        i < 64,
        j < 64,
    ensures
        ((bits | (1u64 << i)) >> j) & 1 == 1 <==> (j == i || (bits >> j) & 1 == 1),
{
}

proof fn lemma_bit_after_unset(bits: u64, i: u64, j: u64)
    by (bit_vector)
    requires
        i < 64,
        j < 64,
    ensures
        ((bits & !(1u64 << i)) >> j) & 1 == 1 <==> (j != i && (bits >> j) & 1 == 1),
{
}

proof fn lemma_bit_of_single(i: u64, j: u64)
    by (bit_vector)
    requires
        i < 64,
        j < 64,
    ensures
        ((1u64 << i) >> j) & 1 == 1 <==> j == i,
{
}

proof fn lemma_bit_of_not(bits: u64, j: u64)
    by (bit_vector)
    requires
        j < 64,
    ensures
        ((!bits) >> j) & 1 == 1 <==> (bits >> j) & 1 != 1,
{
}

proof fn lemma_bit_of_or(a: u64, b: u64, j: u64)
    by (bit_vector)
    requires
        j < 64,
    ensures
        ((a | b) >> j) & 1 == 1 <==> ((a >> j) & 1 == 1 || (b >> j) & 1 == 1),
{
}

proof fn lemma_bit_of_and(a: u64, b: u64, j: u64)
    by (bit_vector)
    requires
        j < 64,
    ensures
        ((a & b) >> j) & 1 == 1 <==> ((a >> j) & 1 == 1 && (b >> j) & 1 == 1),
{
}

proof fn lemma_bits_below(i: u64, j: u64)
    by (bit_vector)
    requires
        i < 64,
        j < 64,
    ensures
        ((((1u64 << i) - 1) as u64) >> j) & 1 == 1 <==> j < i,
{
}

proof fn lemma_bit_of_xor(a: u64, b: u64, j: u64)
    by (bit_vector)
    requires
        j < 64,
    ensures
        ((a ^ b) >> j) & 1 == 1 <==> (((a >> j) & 1 == 1) != ((b >> j) & 1 == 1)),
{
}

proof fn lemma_xor_zero(a: u64, b: u64)
    by (bit_vector)
    requires
        a ^ b == 0,
    ensures
        a == b,
{
}

/// Two bitmaps that hold the same cells are the same word.
pub proof fn lemma_view_determines_bits(a: CellBitmap, b: CellBitmap)
    requires
        a@ == b@,
    ensures
        a == b,
{
    let x = a.bits ^ b.bits;
    if x != 0 {
        vstd::std_specs::bits::axiom_u64_trailing_zeros(x);
        let t = vstd::std_specs::bits::u64_trailing_zeros(x) as u64;
        lemma_bit_of_xor(a.bits, b.bits, t);
        assert(has_bit(a.bits, t as int) != has_bit(b.bits, t as int));
        assert(a@.contains(t as int) == has_bit(a.bits, t as int));
        assert(b@.contains(t as int) == has_bit(b.bits, t as int));
    } else {
        lemma_xor_zero(a.bits, b.bits);
    }
}

impl CellBitmap {
    /// The set without any cell.
    pub fn empty() -> (r: Self)
        ensures
            r.bits == 0,
            r@ == Set::<int>::empty(),
    {
        let r = Self::from_bits(0);
        proof {
            assert forall|c: int| !has_bit(0u64, c) by {
                if 0 <= c < 64 {
                    lemma_zero_has_no_bit(c as u64);
                }
            }
            assert(r@ =~= Set::<int>::empty());
        }
        r
    }

    /// The set whose cells are the set bits of `bits`.
    pub fn from_bits(bits: u64) -> (r: Self)
        ensures
            r.bits == bits,
    {
        Self { bits }
    }

    /// The set that holds `cell` and nothing else.
    pub fn singleton(cell: CellIdx) -> (r: Self)
        requires
            cell.raw < 64,
        ensures
            r@ == set![cell.raw as int],
    {
        let cell = cell.index();
        let r = Self::from_bits(1u64 << (cell as u64));
        proof {
            assert forall|c: int| has_bit(r.bits, c) <==> c == cell as int by {
                if 0 <= c < 64 {
                    lemma_bit_of_single(cell as u64, c as u64);
                }
            }
            assert(r@ =~= set![cell as int]);
        }
        r
    }

    /// The set of all cells strictly below `cell`.
    pub fn below(cell: CellIdx) -> (r: Self)
        requires
            cell.raw < 64,
        ensures
            r@ == cells_below(cell.raw as int),
    {
        let cell = cell.index();
        let one: u64 = 1u64 << (cell as u64);
        proof {
            assert(1u64 << (cell as u64) >= 1) by (bit_vector)
                requires
                    (cell as u64) < 64,
            ;
        }
        let r = Self::from_bits(one - 1);
        proof {
            assert forall|c: int| has_bit(r.bits, c) <==> 0 <= c < cell as int by {
                if 0 <= c < 64 {
                    lemma_bits_below(cell as u64, c as u64);
                }
            }
            assert(r@ =~= cells_below(cell as int));
        }
        r
    }

    /// Whether `cell` is in the set.
    pub fn get(self, cell: CellIdx) -> (b: bool)
        requires
            cell.raw < 64,
        ensures
            b == self@.contains(cell.raw as int),
    {
        let cell = cell.index();
        proof {
            let bits = self.bits;
            let i = cell as u64;
            assert((bits & (1u64 << i) != 0) <==> ((bits >> i) & 1 == 1)) by (bit_vector)
                requires
                    i < 64,
            ;
        }
        self.bits & (1u64 << (cell as u64)) != 0
    }

    /// Puts `cell` into the set.
    pub fn set(&mut self, cell: CellIdx)
        requires
            cell.raw < 64,
        ensures
            final(self)@ == old(self)@.insert(cell.raw as int),
    {
        let cell = cell.index();
        let ghost before = self.bits;
        self.bits |= 1u64 << (cell as u64);
        proof {
            assert forall|c: int| #[trigger]
                self@.contains(c) <==> old(self)@.insert(cell as int).contains(c) by {
                if 0 <= c < 64 {
                    lemma_bit_after_set(before, cell as u64, c as u64);
                }
            }
            assert(self@ =~= old(self)@.insert(cell as int));
        }
    }

    /// Takes `cell` out of the set.
    pub fn unset(&mut self, cell: CellIdx)
        requires
            cell.raw < 64,
        ensures
            final(self)@ == old(self)@.remove(cell.raw as int),
    {
        let cell = cell.index();
        let ghost before = self.bits;
        self.bits &= !(1u64 << (cell as u64));
        proof {
            assert forall|c: int| #[trigger]
                self@.contains(c) <==> old(self)@.remove(cell as int).contains(c) by {
                if 0 <= c < 64 {
                    lemma_bit_after_unset(before, cell as u64, c as u64);
                }
            }
            assert(self@ =~= old(self)@.remove(cell as int));
        }
    }

    /// The lowest cell of the set, or 64 where the set is empty.
    pub fn lowest_true_bit(self) -> (lowest: CellIdx)
        ensures
            self@ == Set::<int>::empty() <==> lowest.raw == 64,
            lowest.raw <= 64,
            lowest.raw < 64 ==> self@.contains(lowest.raw as int),
            forall|c: int| self@.contains(c) ==> lowest.raw <= c,
    {
        let r = self.bits.trailing_zeros() as usize;
        proof {
            vstd::std_specs::bits::axiom_u64_trailing_zeros(self.bits);
            if self.bits == 0 {
                assert forall|c: int| !has_bit(0u64, c) by {
                    if 0 <= c < 64 {
                        lemma_zero_has_no_bit(c as u64);
                    }
                }
                assert(self@ =~= Set::<int>::empty());
            } else {
                assert(has_bit(self.bits, r as int));
                assert(self@.contains(r as int));
            }
            assert forall|c: int| self@.contains(c) implies r <= c by {
                if c < r {
                    let j = c as u64;
                    assert((self.bits >> j) & 1u64 == 0u64);
                }
            }
        }
        CellIdx::new(r)
    }

    /// Whether the set holds no cell.
    pub fn is_empty(self) -> (b: bool)
        ensures
            b == (self@ == Set::<int>::empty()),
    {
        proof {
            if self.bits == 0 {
                assert forall|c: int| !has_bit(0u64, c) by {
                    if 0 <= c < 64 {
                        lemma_zero_has_no_bit(c as u64);
                    }
                }
                assert(self@ =~= Set::<int>::empty());
            } else {
                vstd::std_specs::bits::axiom_u64_trailing_zeros(self.bits);
                let t = vstd::std_specs::bits::u64_trailing_zeros(self.bits);
                assert(has_bit(self.bits, t as int));
                assert(self@.contains(t as int));
            }
        }
        self.bits == 0
    }
}

impl core::ops::Not for CellBitmap {
    type Output = Self;

    /// Every cell that a bitmap can hold and `self` does not.
    fn not(self) -> (r: Self)
        ensures
            r@ == all_cells().difference(self@),
    {
        let r = CellBitmap::from_bits(!self.bits);
        proof {
            assert forall|c: int| #[trigger]
                r@.contains(c) <==> all_cells().difference(self@).contains(c) by {
                if 0 <= c < 64 {
                    lemma_bit_of_not(self.bits, c as u64);
                }
            }
            assert(r@ =~= all_cells().difference(self@));
        }
        r
    }
}

impl vstd::std_specs::ops::NotSpecImpl for CellBitmap {
    open spec fn obeys_not_spec() -> bool {
        true
    }

    open spec fn not_req(self) -> bool {
        true
    }

    open spec fn not_spec(self) -> Self {
        CellBitmap { bits: !self.bits }
    }
}

impl core::ops::BitOr for CellBitmap {
    type Output = Self;

    /// The cells of either set.
    fn bitor(self, rhs: Self) -> (r: Self)
        ensures
            r@ == self@.union(rhs@),
    {
        let r = CellBitmap::from_bits(self.bits | rhs.bits);
        proof {
            assert forall|c: int| #[trigger]
                r@.contains(c) <==> self@.union(rhs@).contains(c) by {
                if 0 <= c < 64 {
                    lemma_bit_of_or(self.bits, rhs.bits, c as u64);
                }
            }
            assert(r@ =~= self@.union(rhs@));
        }
        r
    }
}

impl vstd::std_specs::ops::BitOrSpecImpl for CellBitmap {
    open spec fn obeys_bitor_spec() -> bool {
        true
    }

    open spec fn bitor_req(self, rhs: Self) -> bool {
        true
    }

    open spec fn bitor_spec(self, rhs: Self) -> Self {
        CellBitmap { bits: self.bits | rhs.bits }
    }
}

impl core::ops::BitAnd for CellBitmap {
    type Output = Self;

    /// The cells of both sets.
    fn bitand(self, rhs: Self) -> (r: Self)
        ensures
            r@ == self@.intersect(rhs@),
    {
        let r = CellBitmap::from_bits(self.bits & rhs.bits);
        proof {
            assert forall|c: int| #[trigger]
                r@.contains(c) <==> self@.intersect(rhs@).contains(c) by {
                if 0 <= c < 64 {
                    lemma_bit_of_and(self.bits, rhs.bits, c as u64);
                }
            }
            assert(r@ =~= self@.intersect(rhs@));
        }
        r
    }
}

impl vstd::std_specs::ops::BitAndSpecImpl for CellBitmap {
    open spec fn obeys_bitand_spec() -> bool {
        true
    }

    open spec fn bitand_req(self, rhs: Self) -> bool {
        true
    }

    open spec fn bitand_spec(self, rhs: Self) -> Self {
        CellBitmap { bits: self.bits & rhs.bits }
    }
}

impl core::ops::BitOrAssign for CellBitmap {
    /// Adds the cells of `rhs`.
    fn bitor_assign(&mut self, rhs: Self)
        ensures
            final(self)@ == old(self)@.union(rhs@),
    {
        let r = self.bitor(rhs);
        *self = r;
    }
}

impl core::ops::BitAndAssign for CellBitmap {
    /// Keeps the cells that `rhs` holds too.
    fn bitand_assign(&mut self, rhs: Self)
        ensures
            final(self)@ == old(self)@.intersect(rhs@),
    {
        let r = self.bitand(rhs);
        *self = r;
    }
}

} // verus!
