//! Fixed 81-cell bit set over the Sudoku grid, row-major.

use vstd::prelude::*;

verus! {

/// Bit field of Sudoku cells, row-major: bit `9 * row + col` is the cell at
/// `(row, col)`. Bits at positions 81 and above are always zero.
#[derive(Clone, Copy, Debug, Eq, Hash, PartialEq, Structural)]
pub struct Pattern(pub u128);

/// Does bit `i` of `a` hold?
pub open spec fn u128_bit(a: u128, i: u128) -> bool {
    (a >> i) & 1 == 1
}

impl Pattern {
    /// All bits at position 81 and above are zero.
    pub open spec fn wf(self) -> bool {
        self.0 <= 0x1_ffff_ffff_ffff_ffff_ffffu128
    }

    /// Is the cell at row-major index `idx` in the pattern?
    pub open spec fn sp_has(self, idx: int) -> bool {
        0 <= idx < 81 && u128_bit(self.0, idx as u128)
    }

    /// Every cell of `self` is a cell of `other`.
    pub open spec fn sp_subset(self, other: Pattern) -> bool {
        forall|i: int| 0 <= i < 81 ==> (self.sp_has(i) ==> other.sp_has(i))
    }

    /// No cell is shared between `self` and `other`.
    pub open spec fn sp_disjoint(self, other: Pattern) -> bool {
        forall|i: int| 0 <= i < 81 ==> !(self.sp_has(i) && other.sp_has(i))
    }

    /// The pattern with no cells.
    pub fn empty() -> (r: Pattern)
        ensures
            r.wf(),
            forall|i: int| !r.sp_has(i),
    {
        proof {
            bv_zero();
        }
        Pattern(0)
    }

    /// The pattern holding all 81 cells.
    pub fn full() -> (r: Pattern)
        ensures
            r.wf(),
            forall|i: int| 0 <= i < 81 ==> r.sp_has(i),
    {
        proof {
            bv_full();
            assert forall|i: int| 0 <= i < 81 implies Pattern(
                0x1_ffff_ffff_ffff_ffff_ffffu128,
            ).sp_has(i) by {
                assert(u128_bit(0x1_ffff_ffff_ffff_ffff_ffffu128, i as u128));
            };
        }
        Pattern(0x1_ffff_ffff_ffff_ffff_ffffu128)
    }

    /// Does the pattern contain the cell?
    pub fn has(self, row: usize, col: usize) -> (r: bool)
        requires
            row < 9,
            col < 9,
        ensures
            r == self.sp_has(9 * row + col),
    {
        let idx = 9 * row + col;
        (self.0 >> (idx as u128)) & 1 == 1
    }

    /// Remove the cell, returning true if it was previously in the pattern.
    pub fn remove(&mut self, row: usize, col: usize) -> (was: bool)
        requires
            row < 9,
            col < 9,
        ensures
            was == old(self).sp_has(9 * row + col),
            forall|i: int|
                0 <= i < 81 ==> #[trigger] final (self).sp_has(i) == (old(self).sp_has(i) && i != 9
                    * row + col),
            old(self).wf() ==> final (self).wf(),
            !old(self).sp_has(9 * row + col) ==> final (self).0 == old(self).0,
    {
        let idx = 9 * row + col;
        let was = (self.0 >> (idx as u128)) & 1 == 1;
        proof {
            bv_clear(self.0, idx as u128);
        }
        self.0 = self.0 & !(1u128 << (idx as u128));
        was
    }

    /// New pattern also containing the given cell.
    #[must_use]
    pub fn with(self, row: usize, col: usize) -> (r: Pattern)
        requires
            row < 9,
            col < 9,
        ensures
            forall|i: int|
                0 <= i < 81 ==> #[trigger] r.sp_has(i) == (self.sp_has(i) || i == 9 * row + col),
            self.wf() ==> r.wf(),
    {
        let idx = 9 * row + col;
        proof {
            bv_set(self.0, idx as u128);
        }
        Pattern(self.0 | (1u128 << (idx as u128)))
    }

    /// Is every cell of `self` also a cell of `other`?
    pub fn is_subset(self, other: Pattern) -> (r: bool)
        requires
            self.wf(),
        ensures
            r == self.sp_subset(other),
    {
        let r = (self.0 & other.0) == self.0;
        proof {
            if r {
                bv_subset_elim(self.0, other.0);
                assert forall|i: int| 0 <= i < 81 && self.sp_has(i) implies other.sp_has(i) by {
                    assert(u128_bit(other.0, i as u128));
                };
            } else if self.sp_subset(other) {
                assert forall|i: u128| i < 81 && u128_bit(self.0, i) implies u128_bit(
                    other.0,
                    i,
                ) by {
                    assert(self.sp_has(i as int));
                };
                bv_subset_intro(self.0, other.0);
            }
        }
        r
    }

    /// Do `self` and `other` share a cell?
    pub fn intersects(self, other: Pattern) -> (r: bool)
        requires
            self.wf(),
        ensures
            r == !self.sp_disjoint(other),
    {
        let r = (self.0 & other.0) != 0;
        proof {
            if !r {
                bv_disjoint_elim(self.0, other.0);
                assert forall|i: int| 0 <= i < 81 implies !(self.sp_has(i) && other.sp_has(i)) by {
                    assert(!(u128_bit(self.0, i as u128) && u128_bit(other.0, i as u128)));
                };
            } else if self.sp_disjoint(other) {
                assert forall|i: u128| i < 81 implies !(u128_bit(self.0, i) && u128_bit(
                    other.0,
                    i,
                )) by {
                    assert(!(self.sp_has(i as int) && other.sp_has(i as int)));
                };
                bv_disjoint_intro(self.0, other.0);
            }
        }
        r
    }

    /// Cell-wise intersection.
    pub fn and(self, other: Pattern) -> (r: Pattern)
        ensures
            forall|i: int|
                0 <= i < 81 ==> #[trigger] r.sp_has(i) == (self.sp_has(i) && other.sp_has(i)),
            self.wf() ==> r.wf(),
    {
        proof {
            bv_and(self.0, other.0);
        }
        Pattern(self.0 & other.0)
    }

    /// Cell-wise union.
    pub fn or(self, other: Pattern) -> (r: Pattern)
        ensures
            forall|i: int|
                0 <= i < 81 ==> #[trigger] r.sp_has(i) == (self.sp_has(i) || other.sp_has(i)),
            self.wf() && other.wf() ==> r.wf(),
    {
        proof {
            bv_or(self.0, other.0);
        }
        Pattern(self.0 | other.0)
    }

    /// Cell-wise complement within the 81-cell universe.
    pub fn complement(self) -> (r: Pattern)
        requires
            self.wf(),
        ensures
            forall|i: int| 0 <= i < 81 ==> #[trigger] r.sp_has(i) == !self.sp_has(i),
            r.wf(),
    {
        proof {
            bv_not(self.0);
        }
        Pattern(self.0 ^ 0x1_ffff_ffff_ffff_ffff_ffffu128)
    }
}

/// Index of the 3x3 box holding cell `(r, c)`, row-major.
pub open spec fn box_of(r: int, c: int) -> int {
    3 * (r / 3) + c / 3
}

/// Row-major cell index of slot `k` of box `b`.
pub open spec fn box_cell(b: int, k: int) -> int {
    9 * (3 * (b / 3) + k / 3) + (3 * (b % 3) + k % 3)
}

/// How many cells of row `r` are in the pattern.
pub open spec fn row_cnt(p: Pattern, r: int) -> nat {
    crate::counting::count(|c: int| p.sp_has(9 * r + c), 0, 9)
}

/// How many cells of column `c` are in the pattern.
pub open spec fn col_cnt(p: Pattern, c: int) -> nat {
    crate::counting::count(|r: int| p.sp_has(9 * r + c), 0, 9)
}

/// How many cells of box `b` are in the pattern.
pub open spec fn box_cnt(p: Pattern, b: int) -> nat {
    crate::counting::count(|k: int| p.sp_has(box_cell(b, k)), 0, 9)
}

/// A legal single-digit layout: one cell in every row, column and box.
pub open spec fn legal(p: Pattern) -> bool {
    &&& p.wf()
    &&& forall|r: int| 0 <= r < 9 ==> row_cnt(p, r) == 1
    &&& forall|c: int| 0 <= c < 9 ==> col_cnt(p, c) == 1
    &&& forall|b: int| 0 <= b < 9 ==> box_cnt(p, b) == 1
}

/// Patterns agreeing on all 81 cells are equal: the bits above the universe
/// are zero on both sides.
pub proof fn lemma_pattern_ext(a: Pattern, b: Pattern)
    requires
        a.wf(),
        b.wf(),
        forall|i: int| 0 <= i < 81 ==> a.sp_has(i) == b.sp_has(i),
    ensures
        a == b,
{
    assert forall|i: u128| i < 81 implies (u128_bit(a.0, i) ==> u128_bit(b.0, i)) by {
        assert(a.sp_has(i as int) == b.sp_has(i as int));
    };
    assert forall|i: u128| i < 81 implies (u128_bit(b.0, i) ==> u128_bit(a.0, i)) by {
        assert(a.sp_has(i as int) == b.sp_has(i as int));
    };
    bv_subset_intro(a.0, b.0);
    bv_subset_intro(b.0, a.0);
    let x = a.0;
    let y = b.0;
    assert(x == y) by (bit_vector)
        requires
            x & y == x,
            y & x == y,
    ;
}

/// Cells `(r, c)` and `(r2, c2)` are distinct and share a row, a column or a
/// box: an elimination at one constrains the other.
pub open spec fn peer(r: int, c: int, r2: int, c2: int) -> bool {
    &&& 0 <= r2 < 9
    &&& 0 <= c2 < 9
    &&& !(r2 == r && c2 == c)
    &&& (r2 == r || c2 == c || box_of(r2, c2) == box_of(r, c))
}

/// Cell `(r, c)` is slot `3 * (r % 3) + c % 3` of box `box_of(r, c)`, and of
/// no other box slot.
pub proof fn lemma_box_correspondence(r: int, c: int)
    requires
        0 <= r < 9,
        0 <= c < 9,
    ensures
        0 <= box_of(r, c) < 9,
        0 <= 3 * (r % 3) + c % 3 < 9,
        box_cell(box_of(r, c), 3 * (r % 3) + c % 3) == 9 * r + c,
        forall|b: int, k: int|
            0 <= b < 9 && 0 <= k < 9 && (b != box_of(r, c) || k != 3 * (r % 3) + c % 3)
                ==> #[trigger] box_cell(b, k) != 9 * r + c,
{
    assert forall|b: int, k: int|
        0 <= b < 9 && 0 <= k < 9 && (b != box_of(r, c) || k != 3 * (r % 3) + c % 3) implies #[trigger] box_cell(
        b,
        k,
    ) != 9 * r + c by {
        let rr = 3 * (b / 3) + k / 3;
        let cc = 3 * (b % 3) + k % 3;
        assert(box_cell(b, k) == 9 * rr + cc);
        if box_cell(b, k) == 9 * r + c {
            assert(0 <= cc < 9);
            assert(rr == r && cc == c);
            assert(b == 3 * (b / 3) + b % 3);
            assert(k == 3 * (k / 3) + k % 3);
        }
    };
}

proof fn bv_zero()
    by (bit_vector)
    ensures
        forall|i: u128| !(#[trigger] u128_bit(0u128, i)),
{
}

proof fn bv_full()
    by (bit_vector)
    ensures
        forall|i: u128| i < 81 ==> #[trigger] u128_bit(0x1_ffff_ffff_ffff_ffff_ffffu128, i),
{
}

proof fn bv_and(a: u128, b: u128)
    by (bit_vector)
    ensures
        forall|i: u128|
            i < 81 ==> #[trigger] u128_bit(a & b, i) == (u128_bit(a, i) && u128_bit(b, i)),
        a <= 0x1_ffff_ffff_ffff_ffff_ffffu128 ==> (a & b) <= 0x1_ffff_ffff_ffff_ffff_ffffu128,
{
}

proof fn bv_or(a: u128, b: u128)
    by (bit_vector)
    ensures
        forall|i: u128|
            i < 81 ==> #[trigger] u128_bit(a | b, i) == (u128_bit(a, i) || u128_bit(b, i)),
        a <= 0x1_ffff_ffff_ffff_ffff_ffffu128 && b <= 0x1_ffff_ffff_ffff_ffff_ffffu128 ==> (a | b)
            <= 0x1_ffff_ffff_ffff_ffff_ffffu128,
{
}

proof fn bv_not(a: u128)
    by (bit_vector)
    requires
        a <= 0x1_ffff_ffff_ffff_ffff_ffffu128,
    ensures
        forall|i: u128|
            i < 81 ==> #[trigger] u128_bit(a ^ 0x1_ffff_ffff_ffff_ffff_ffffu128, i) == !u128_bit(
                a,
                i,
            ),
        (a ^ 0x1_ffff_ffff_ffff_ffff_ffffu128) <= 0x1_ffff_ffff_ffff_ffff_ffffu128,
{
}

proof fn bv_set(a: u128, k: u128)
    by (bit_vector)
    requires
        k < 81,
    ensures
        forall|i: u128|
            i < 81 ==> #[trigger] u128_bit(a | (1u128 << k), i) == (u128_bit(a, i) || i == k),
        a <= 0x1_ffff_ffff_ffff_ffff_ffffu128 ==> (a | (1u128 << k))
            <= 0x1_ffff_ffff_ffff_ffff_ffffu128,
{
}

proof fn bv_clear(a: u128, k: u128)
    by (bit_vector)
    requires
        k < 81,
    ensures
        forall|i: u128|
            i < 81 ==> #[trigger] u128_bit(a & !(1u128 << k), i) == (u128_bit(a, i) && i != k),
        a <= 0x1_ffff_ffff_ffff_ffff_ffffu128 ==> (a & !(1u128 << k))
            <= 0x1_ffff_ffff_ffff_ffff_ffffu128,
        !u128_bit(a, k) ==> (a & !(1u128 << k)) == a,
{
}

proof fn bv_subset_elim(a: u128, b: u128)
    by (bit_vector)
    requires
        (a & b) == a,
    ensures
        forall|i: u128| i < 81 ==> (#[trigger] u128_bit(a, i) ==> u128_bit(b, i)),
{
}

/// A value below `2^n` with no set bit below `n` is zero.
proof fn lemma_low_bits_zero(x: u128, n: u128)
    requires
        n <= 81,
        x < (1u128 << n),
        forall|i: u128| i < n ==> !(#[trigger] u128_bit(x, i)),
    ensures
        x == 0,
    decreases n,
{
    if n == 0 {
        assert(x == 0) by (bit_vector)
            requires
                x < (1u128 << 0u128),
        ;
    } else {
        let m: u128 = (n - 1) as u128;
        assert(!u128_bit(x, m));
        assert(x < (1u128 << m)) by (bit_vector)
            requires
                1 <= n <= 81,
                m == n - 1,
                x < (1u128 << n),
                !u128_bit(x, m),
        ;
        lemma_low_bits_zero(x, m);
    }
}

proof fn bv_subset_intro(a: u128, b: u128)
    requires
        a <= 0x1_ffff_ffff_ffff_ffff_ffffu128,
        forall|i: u128| i < 81 ==> (#[trigger] u128_bit(a, i) ==> u128_bit(b, i)),
    ensures
        (a & b) == a,
{
    assert forall|i: u128| i < 81 implies !(#[trigger] u128_bit(a & !b, i)) by {
        assert(u128_bit(a & !b, i) == (u128_bit(a, i) && !u128_bit(b, i))) by (bit_vector);
    };
    assert((a & !b) < (1u128 << 81)) by (bit_vector)
        requires
            a <= 0x1_ffff_ffff_ffff_ffff_ffffu128,
    ;
    lemma_low_bits_zero(a & !b, 81);
    assert((a & !b) == 0 ==> (a & b) == a) by (bit_vector);
}

proof fn bv_disjoint_elim(a: u128, b: u128)
    by (bit_vector)
    requires
        (a & b) == 0,
    ensures
        forall|i: u128| i < 81 ==> !(#[trigger] u128_bit(a, i) && u128_bit(b, i)),
{
}

proof fn bv_disjoint_intro(a: u128, b: u128)
    requires
        a <= 0x1_ffff_ffff_ffff_ffff_ffffu128,
        forall|i: u128| i < 81 ==> !(#[trigger] u128_bit(a, i) && u128_bit(b, i)),
    ensures
        (a & b) == 0,
{
    assert forall|i: u128| i < 81 implies !(#[trigger] u128_bit(a & b, i)) by {
        assert(u128_bit(a & b, i) == (u128_bit(a, i) && u128_bit(b, i))) by (bit_vector);
    };
    assert((a & b) < (1u128 << 81)) by (bit_vector)
        requires
            a <= 0x1_ffff_ffff_ffff_ffff_ffffu128,
    ;
    lemma_low_bits_zero(a & b, 81);
}

} // verus!
