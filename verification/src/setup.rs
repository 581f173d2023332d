//! Constraint-propagation engine.
//!
//! One candidate [`Pattern`] per digit, and four counter tables: per cell the
//! number of possible digits, and per row, column and box the number of cells
//! where each digit is still possible. A worklist of pending eliminations is
//! drained to a fixed point; any counter falling to zero is a contradiction.

use vstd::prelude::*;

use crate::counting::count;
use crate::counting::lemma_count_agree;
use crate::counting::lemma_count_drop;
use crate::counting::lemma_count_full;
use crate::counting::lemma_count_ge2;
use crate::counting::lemma_count_all_at;
use crate::counting::lemma_count_pos;
use crate::counting::lemma_count_zero;
use crate::pattern::box_cnt;
use crate::pattern::box_of;
use crate::pattern::col_cnt;
use crate::pattern::lemma_box_correspondence;
use crate::pattern::peer;
use crate::pattern::row_cnt;
use crate::pattern::Pattern;
use crate::template::Catalog;
use crate::template::Solution;
use crate::template::Template;

verus! {

/// Prepared form of a puzzle, holding what basic Sudoku logic can still allow.
pub struct Possibilities {
    /// Candidate [`Pattern`] for each digit: where that digit is still possible.
    pub patterns: [Pattern; 9],
    /// Queue of `(row, col, digit)` eliminations still to apply.
    pub work_queue: Vec<(u8, u8, u8)>,
    /// Per cell `9 * row + col`: number of digits still possible there.
    pub cell_constraints: [u8; 81],
    /// Per `9 * row + digit`: number of cells of the row where the digit fits.
    pub row_constraints: [u8; 81],
    /// Per `9 * col + digit`: number of cells of the column where the digit fits.
    pub col_constraints: [u8; 81],
    /// Per `9 * box + digit`: number of cells of the box where the digit fits.
    pub box_constraints: [u8; 81],
}

/// Error returned when preparing a puzzle runs into a contradiction.
#[derive(Clone, Copy, Debug)]
pub struct ImpossiblePuzzle;

/// Number of digits still possible in cell `(r, c)`.
pub open spec fn cell_cnt(pats: Seq<Pattern>, r: int, c: int) -> nat {
    count(|d: int| pats[d].sp_has(9 * r + c), 0, 9)
}

/// Cells a digit still occupies, over the whole grid.
pub open spec fn pat_cells(p: Pattern) -> nat {
    count(|i: int| p.sp_has(i), 0, 81)
}

/// Total candidate count over digits `d` and later: the drain measure.
pub open spec fn total_cnt(pats: Seq<Pattern>, d: int) -> nat
    decreases 9 - d,
{
    if d < 0 || d >= 9 {
        0
    } else {
        pat_cells(pats[d]) + total_cnt(pats, d + 1)
    }
}

/// Replacing digit `d0`'s pattern by one with one cell fewer lowers the total
/// by one; patterns of other digits are unchanged.
proof fn lemma_total_drop(p1: Seq<Pattern>, p2: Seq<Pattern>, d0: int, d: int)
    requires
        0 <= d <= 9,
        0 <= d0 < 9,
        forall|dd: int| 0 <= dd < 9 && dd != d0 ==> p2[dd] == p1[dd],
        pat_cells(p2[d0]) + 1 == pat_cells(p1[d0]),
    ensures
        d <= d0 ==> total_cnt(p2, d) + 1 == total_cnt(p1, d),
        d > d0 ==> total_cnt(p2, d) == total_cnt(p1, d),
    decreases 9 - d,
{
    if d < 9 {
        lemma_total_drop(p1, p2, d0, d + 1);
    }
}

impl Possibilities {
    /// Every digit's pattern stays inside the 81-cell universe.
    pub open spec fn patterns_wf(self) -> bool {
        forall|d: int| 0 <= d < 9 ==> (#[trigger] self.patterns@[d]).wf()
    }

    /// Each tracked counter equals the live count from the patterns.
    pub open spec fn counts_ok(self) -> bool {
        &&& forall|r: int, c: int|
            0 <= r < 9 && 0 <= c < 9 ==> self.cell_constraints@[9 * r + c] == #[trigger] cell_cnt(
                self.patterns@,
                r,
                c,
            )
        &&& forall|r: int, d: int|
            0 <= r < 9 && 0 <= d < 9 ==> self.row_constraints@[9 * r + d] == #[trigger] row_cnt(
                self.patterns@[d],
                r,
            )
        &&& forall|c: int, d: int|
            0 <= c < 9 && 0 <= d < 9 ==> self.col_constraints@[9 * c + d] == #[trigger] col_cnt(
                self.patterns@[d],
                c,
            )
        &&& forall|b: int, d: int|
            0 <= b < 9 && 0 <= d < 9 ==> self.box_constraints@[9 * b + d] == #[trigger] box_cnt(
                self.patterns@[d],
                b,
            )
    }

    /// No constraint has run out: every live count is at least one.
    pub open spec fn pos_ok(self) -> bool {
        &&& forall|r: int, c: int|
            0 <= r < 9 && 0 <= c < 9 ==> #[trigger] cell_cnt(self.patterns@, r, c) >= 1
        &&& forall|r: int, d: int|
            0 <= r < 9 && 0 <= d < 9 ==> #[trigger] row_cnt(self.patterns@[d], r) >= 1
        &&& forall|c: int, d: int|
            0 <= c < 9 && 0 <= d < 9 ==> #[trigger] col_cnt(self.patterns@[d], c) >= 1
        &&& forall|b: int, d: int|
            0 <= b < 9 && 0 <= d < 9 ==> #[trigger] box_cnt(self.patterns@[d], b) >= 1
    }

    /// Every queued elimination names a real row, column and digit.
    pub open spec fn queue_ok(self) -> bool {
        forall|k: int|
            0 <= k < self.work_queue@.len() ==> ((#[trigger] self.work_queue@[k]).0 < 9
                && self.work_queue@[k].1 < 9 && self.work_queue@[k].2 < 9)
    }

    /// The engine's invariant between operations.
    pub open spec fn inv(self) -> bool {
        self.patterns_wf() && self.counts_ok() && self.pos_ok() && self.queue_ok()
    }

    /// Every singleton constraint has pushed its cascading eliminations:
    /// whenever a cell holds one digit, or a row, column or box holds one
    /// place for a digit, the forced eliminations are either already applied,
    /// still queued, or are the single elimination `(xr, xc, xd)` in flight.
    pub open spec fn cascades_pending_but(self, xr: int, xc: int, xd: int) -> bool {
        &&& forall|r: int, c: int, d: int, r2: int, c2: int|
            0 <= r < 9 && 0 <= c < 9 && 0 <= d < 9 && #[trigger] self.patterns@[d].sp_has(9 * r + c)
                && cell_cnt(self.patterns@, r, c) == 1 && #[trigger] peer(r, c, r2, c2) ==> (
            !self.patterns@[d].sp_has(9 * r2 + c2) || in_queue(
                self.work_queue@,
                (r2 as u8, c2 as u8, d as u8),
            ) || (r2 == xr && c2 == xc && d == xd))
        &&& forall|r: int, c: int, d: int, d2: int|
            0 <= r < 9 && 0 <= c < 9 && 0 <= d < 9 && 0 <= d2 < 9 && d2 != d
                && #[trigger] self.patterns@[d].sp_has(9 * r + c) && row_cnt(self.patterns@[d], r)
                == 1 ==> (!(#[trigger] self.patterns@[d2].sp_has(9 * r + c)) || in_queue(
                self.work_queue@,
                (r as u8, c as u8, d2 as u8),
            ) || (r == xr && c == xc && d2 == xd))
        &&& forall|r: int, c: int, d: int, d2: int|
            0 <= r < 9 && 0 <= c < 9 && 0 <= d < 9 && 0 <= d2 < 9 && d2 != d
                && #[trigger] self.patterns@[d].sp_has(9 * r + c) && col_cnt(self.patterns@[d], c)
                == 1 ==> (!(#[trigger] self.patterns@[d2].sp_has(9 * r + c)) || in_queue(
                self.work_queue@,
                (r as u8, c as u8, d2 as u8),
            ) || (r == xr && c == xc && d2 == xd))
        &&& forall|r: int, c: int, d: int, d2: int|
            0 <= r < 9 && 0 <= c < 9 && 0 <= d < 9 && 0 <= d2 < 9 && d2 != d
                && #[trigger] self.patterns@[d].sp_has(9 * r + c) && box_cnt(
                self.patterns@[d],
                box_of(r, c),
            ) == 1 ==> (!(#[trigger] self.patterns@[d2].sp_has(9 * r + c)) || in_queue(
                self.work_queue@,
                (r as u8, c as u8, d2 as u8),
            ) || (r == xr && c == xc && d2 == xd))
    }

    /// As `cascades_pending_but`, with no elimination in flight.
    pub open spec fn cascades_pending(self) -> bool {
        self.cascades_pending_but(-1, -1, -1)
    }

    /// The fixed point the drained engine reaches: a cell holding one digit
    /// has no peer where that digit remains, and a digit with one place left
    /// in a row, column or box is the only digit left in that place.
    pub open spec fn cascades_done(self) -> bool {
        &&& forall|r: int, c: int, d: int, r2: int, c2: int|
            0 <= r < 9 && 0 <= c < 9 && 0 <= d < 9 && #[trigger] self.patterns@[d].sp_has(9 * r + c)
                && cell_cnt(self.patterns@, r, c) == 1 && #[trigger] peer(r, c, r2, c2)
                ==> !self.patterns@[d].sp_has(9 * r2 + c2)
        &&& forall|r: int, c: int, d: int, d2: int|
            0 <= r < 9 && 0 <= c < 9 && 0 <= d < 9 && 0 <= d2 < 9 && d2 != d
                && #[trigger] self.patterns@[d].sp_has(9 * r + c) && row_cnt(self.patterns@[d], r)
                == 1 ==> !(#[trigger] self.patterns@[d2].sp_has(9 * r + c))
        &&& forall|r: int, c: int, d: int, d2: int|
            0 <= r < 9 && 0 <= c < 9 && 0 <= d < 9 && 0 <= d2 < 9 && d2 != d
                && #[trigger] self.patterns@[d].sp_has(9 * r + c) && col_cnt(self.patterns@[d], c)
                == 1 ==> !(#[trigger] self.patterns@[d2].sp_has(9 * r + c))
        &&& forall|r: int, c: int, d: int, d2: int|
            0 <= r < 9 && 0 <= c < 9 && 0 <= d < 9 && 0 <= d2 < 9 && d2 != d
                && #[trigger] self.patterns@[d].sp_has(9 * r + c) && box_cnt(
                self.patterns@[d],
                box_of(r, c),
            ) == 1 ==> !(#[trigger] self.patterns@[d2].sp_has(9 * r + c))
    }

    /// Fresh engine where every digit is possible in every cell.
    pub fn new() -> (p: Possibilities)
        ensures
            p.inv(),
            p.cascades_done(),
            p.work_queue@.len() == 0,
            forall|dd: int, i: int|
                0 <= dd < 9 && 0 <= i < 81 ==> #[trigger] p.patterns@[dd].sp_has(i),
    {
        let f = Pattern::full();
        let p = Possibilities {
            patterns: [f;9],
            work_queue: Vec::new(),
            cell_constraints: [9u8;81],
            row_constraints: [9u8;81],
            col_constraints: [9u8;81],
            box_constraints: [9u8;81],
        };
        proof {
            assert forall|r: int, c: int| 0 <= r < 9 && 0 <= c < 9 implies #[trigger] cell_cnt(
                p.patterns@,
                r,
                c,
            ) == 9 by {
                lemma_count_full(|d: int| p.patterns@[d].sp_has(9 * r + c), 0, 9);
            };
            assert forall|r: int, d: int| 0 <= r < 9 && 0 <= d < 9 implies #[trigger] row_cnt(
                p.patterns@[d],
                r,
            ) == 9 by {
                lemma_count_full(|c: int| p.patterns@[d].sp_has(9 * r + c), 0, 9);
            };
            assert forall|c: int, d: int| 0 <= c < 9 && 0 <= d < 9 implies #[trigger] col_cnt(
                p.patterns@[d],
                c,
            ) == 9 by {
                lemma_count_full(|r: int| p.patterns@[d].sp_has(9 * r + c), 0, 9);
            };
            assert forall|b: int, d: int| 0 <= b < 9 && 0 <= d < 9 implies #[trigger] box_cnt(
                p.patterns@[d],
                b,
            ) == 9 by {
                assert forall|k: int| 0 <= k < 9 implies p.patterns@[d].sp_has(
                    #[trigger] crate::pattern::box_cell(b, k),
                ) by {
                    let r = 3 * (b / 3) + k / 3;
                    let c = 3 * (b % 3) + k % 3;
                    lemma_box_correspondence(r, c);
                };
                lemma_count_full(|k: int| p.patterns@[d].sp_has(crate::pattern::box_cell(b, k)), 0, 9);
            };
        }
        p
    }

    /// Enqueue removing a single digit from a cell.
    fn enqueue(&mut self, row: usize, col: usize, digit: usize)
        requires
            row < 9,
            col < 9,
            digit < 9,
        ensures
            final (self).work_queue@ == old(self).work_queue@.push(
                (row as u8, col as u8, digit as u8),
            ),
            final (self).patterns == old(self).patterns,
            final (self).cell_constraints == old(self).cell_constraints,
            final (self).row_constraints == old(self).row_constraints,
            final (self).col_constraints == old(self).col_constraints,
            final (self).box_constraints == old(self).box_constraints,
    {
        self.work_queue.push((row as u8, col as u8, digit as u8));
    }

    /// Enqueue removing every digit other than `digit` from a cell.
    fn enqueue_others(&mut self, row: usize, col: usize, digit: usize)
        requires
            row < 9,
            col < 9,
        ensures
            final (self).work_queue@.len() == old(self).work_queue@.len() + (if 0 <= digit < 9 {
                8int
            } else {
                9int
            }),
            forall|k: int|
                0 <= k < old(self).work_queue@.len() ==> final (self).work_queue@[k] == old(
                    self,
                ).work_queue@[k],
            forall|k: int|
                old(self).work_queue@.len() <= k < final (self).work_queue@.len() ==> ((
                #[trigger] final (self).work_queue@[k]).0 == row && final (self).work_queue@[k].1
                    == col && final (self).work_queue@[k].2 < 9 && final (self).work_queue@[k].2
                    != digit),
            forall|k: int|
                old(self).work_queue@.len() <= k < final (self).work_queue@.len() ==> (
                #[trigger] final (self).work_queue@[k]).2 == (if k - old(self).work_queue@.len()
                    < digit {
                    k - old(self).work_queue@.len()
                } else {
                    k - old(self).work_queue@.len() + 1
                }),
            forall|d: int|
                0 <= d < 9 && d != digit ==> #[trigger] in_queue(
                    final (self).work_queue@,
                    (row as u8, col as u8, d as u8),
                ),
            final (self).patterns == old(self).patterns,
            final (self).cell_constraints == old(self).cell_constraints,
            final (self).row_constraints == old(self).row_constraints,
            final (self).col_constraints == old(self).col_constraints,
            final (self).box_constraints == old(self).box_constraints,
    {
        let ghost base = self.work_queue@.len() as int;
        for d in 0..9usize
            invariant
                row < 9,
                col < 9,
                base == old(self).work_queue@.len(),
                self.work_queue@.len() == base + (if digit < d {
                    (d - 1) as int
                } else {
                    d as int
                }),
                forall|k: int| 0 <= k < base ==> self.work_queue@[k] == old(self).work_queue@[k],
                forall|k: int|
                    base <= k < self.work_queue@.len() ==> ((#[trigger] self.work_queue@[k]).0
                        == row && self.work_queue@[k].1 == col && self.work_queue@[k].2 < 9
                        && self.work_queue@[k].2 != digit),
                forall|k: int|
                    base <= k < self.work_queue@.len() ==> (#[trigger] self.work_queue@[k]).2 == (
                    if k - base < digit {
                        k - base
                    } else {
                        k - base + 1
                    }),
                self.patterns == old(self).patterns,
                self.cell_constraints == old(self).cell_constraints,
                self.row_constraints == old(self).row_constraints,
                self.col_constraints == old(self).col_constraints,
                self.box_constraints == old(self).box_constraints,
        {
            if d != digit {
                self.enqueue(row, col, d);
                proof {
                    assert((self.work_queue@[self.work_queue@.len() - 1]).2 == d);
                }
            }
        }
        proof {
            assert forall|d2: int| 0 <= d2 < 9 && d2 != digit implies #[trigger] in_queue(
                self.work_queue@,
                (row as u8, col as u8, d2 as u8),
            ) by {
                let k: int = base + if d2 < digit {
                    d2
                } else {
                    d2 - 1
                };
                assert(self.work_queue@[k] == (row as u8, col as u8, d2 as u8));
            };
        }
    }

    /// Enqueue removing a digit from every other cell of the row, the column,
    /// and the box of the given cell.
    fn enqueue_adjacent(&mut self, row: usize, col: usize, digit: usize)
        requires
            row < 9,
            col < 9,
            digit < 9,
        ensures
            final (self).work_queue@.len() >= old(self).work_queue@.len(),
            forall|k: int|
                0 <= k < old(self).work_queue@.len() ==> final (self).work_queue@[k] == old(
                    self,
                ).work_queue@[k],
            forall|k: int|
                old(self).work_queue@.len() <= k < final (self).work_queue@.len() ==> ((
                #[trigger] final (self).work_queue@[k]).2 == digit && peer(
                    row as int,
                    col as int,
                    final (self).work_queue@[k].0 as int,
                    final (self).work_queue@[k].1 as int,
                )),
            forall|r2: int, c2: int|
                #[trigger] peer(row as int, col as int, r2, c2) ==> in_queue(
                    final (self).work_queue@,
                    (r2 as u8, c2 as u8, digit as u8),
                ),
            final (self).patterns == old(self).patterns,
            final (self).cell_constraints == old(self).cell_constraints,
            final (self).row_constraints == old(self).row_constraints,
            final (self).col_constraints == old(self).col_constraints,
            final (self).box_constraints == old(self).box_constraints,
    {
        let ghost base = self.work_queue@.len() as int;
        for other_col in 0..9usize
            invariant
                row < 9,
                col < 9,
                digit < 9,
                base == old(self).work_queue@.len(),
                self.work_queue@.len() >= base,
                forall|k: int| 0 <= k < base ==> self.work_queue@[k] == old(self).work_queue@[k],
                forall|k: int|
                    base <= k < self.work_queue@.len() ==> ((#[trigger] self.work_queue@[k]).2
                        == digit && peer(
                        row as int,
                        col as int,
                        self.work_queue@[k].0 as int,
                        self.work_queue@[k].1 as int,
                    )),
                self.patterns == old(self).patterns,
                self.cell_constraints == old(self).cell_constraints,
                self.row_constraints == old(self).row_constraints,
                self.col_constraints == old(self).col_constraints,
                self.box_constraints == old(self).box_constraints,
                forall|c2: int|
                    0 <= c2 < other_col && c2 != col ==> #[trigger] in_queue(
                        self.work_queue@,
                        (row as u8, c2 as u8, digit as u8),
                    ),
        {
            let ghost qb = self.work_queue@;
            if other_col != col {
                self.enqueue(row, other_col, digit);
            }
            proof {
                assert forall|c2: int| 0 <= c2 < other_col + 1 && c2 != col implies #[trigger] in_queue(
                    self.work_queue@,
                    (row as u8, c2 as u8, digit as u8),
                ) by {
                    if c2 == other_col {
                        assert(self.work_queue@[self.work_queue@.len() - 1] == (
                        row as u8,
                        c2 as u8,
                        digit as u8,
                        ));
                    } else {
                        lemma_in_queue_persists(
                            qb,
                            self.work_queue@,
                            (row as u8, c2 as u8, digit as u8),
                        );
                    }
                };
            }
        }
        for other_row in 0..9usize
            invariant
                row < 9,
                col < 9,
                digit < 9,
                base == old(self).work_queue@.len(),
                self.work_queue@.len() >= base,
                forall|k: int| 0 <= k < base ==> self.work_queue@[k] == old(self).work_queue@[k],
                forall|k: int|
                    base <= k < self.work_queue@.len() ==> ((#[trigger] self.work_queue@[k]).2
                        == digit && peer(
                        row as int,
                        col as int,
                        self.work_queue@[k].0 as int,
                        self.work_queue@[k].1 as int,
                    )),
                self.patterns == old(self).patterns,
                self.cell_constraints == old(self).cell_constraints,
                self.row_constraints == old(self).row_constraints,
                self.col_constraints == old(self).col_constraints,
                self.box_constraints == old(self).box_constraints,
                forall|c2: int|
                    0 <= c2 < 9 && c2 != col ==> #[trigger] in_queue(
                        self.work_queue@,
                        (row as u8, c2 as u8, digit as u8),
                    ),
                forall|r2: int|
                    0 <= r2 < other_row && r2 != row ==> #[trigger] in_queue(
                        self.work_queue@,
                        (r2 as u8, col as u8, digit as u8),
                    ),
        {
            let ghost qb = self.work_queue@;
            if other_row != row {
                self.enqueue(other_row, col, digit);
            }
            proof {
                assert forall|c2: int| 0 <= c2 < 9 && c2 != col implies #[trigger] in_queue(
                    self.work_queue@,
                    (row as u8, c2 as u8, digit as u8),
                ) by {
                    lemma_in_queue_persists(qb, self.work_queue@, (row as u8, c2 as u8, digit as u8));
                };
                assert forall|r2: int| 0 <= r2 < other_row + 1 && r2 != row implies #[trigger] in_queue(
                    self.work_queue@,
                    (r2 as u8, col as u8, digit as u8),
                ) by {
                    if r2 == other_row {
                        assert(self.work_queue@[self.work_queue@.len() - 1] == (
                        r2 as u8,
                        col as u8,
                        digit as u8,
                        ));
                    } else {
                        lemma_in_queue_persists(
                            qb,
                            self.work_queue@,
                            (r2 as u8, col as u8, digit as u8),
                        );
                    }
                };
            }
        }
        let box_row = row / 3 * 3;
        let box_col = col / 3 * 3;
        for k in 0..9usize
            invariant
                row < 9,
                col < 9,
                digit < 9,
                box_row == row / 3 * 3,
                box_col == col / 3 * 3,
                base == old(self).work_queue@.len(),
                self.work_queue@.len() >= base,
                forall|k: int| 0 <= k < base ==> self.work_queue@[k] == old(self).work_queue@[k],
                forall|k2: int|
                    base <= k2 < self.work_queue@.len() ==> ((#[trigger] self.work_queue@[k2]).2
                        == digit && peer(
                        row as int,
                        col as int,
                        self.work_queue@[k2].0 as int,
                        self.work_queue@[k2].1 as int,
                    )),
                self.patterns == old(self).patterns,
                self.cell_constraints == old(self).cell_constraints,
                self.row_constraints == old(self).row_constraints,
                self.col_constraints == old(self).col_constraints,
                self.box_constraints == old(self).box_constraints,
                forall|c2: int|
                    0 <= c2 < 9 && c2 != col ==> #[trigger] in_queue(
                        self.work_queue@,
                        (row as u8, c2 as u8, digit as u8),
                    ),
                forall|r2: int|
                    0 <= r2 < 9 && r2 != row ==> #[trigger] in_queue(
                        self.work_queue@,
                        (r2 as u8, col as u8, digit as u8),
                    ),
                forall|r2: int, c2: int|
                    0 <= r2 < 9 && 0 <= c2 < 9 && box_of(r2, c2) == box_of(row as int, col as int)
                        && !(r2 == row && c2 == col) && 3 * (r2 % 3) + c2 % 3 < k ==> #[trigger] in_queue(
                        self.work_queue@,
                        (r2 as u8, c2 as u8, digit as u8),
                    ),
        {
            let other_row = box_row + k / 3;
            let other_col = box_col + k % 3;
            let ghost qb = self.work_queue@;
            proof {
                assert(box_of(other_row as int, other_col as int) == box_of(
                    row as int,
                    col as int,
                ));
            }
            if other_row != row || other_col != col {
                self.enqueue(other_row, other_col, digit);
            }
            proof {
                assert forall|c2: int| 0 <= c2 < 9 && c2 != col implies #[trigger] in_queue(
                    self.work_queue@,
                    (row as u8, c2 as u8, digit as u8),
                ) by {
                    lemma_in_queue_persists(qb, self.work_queue@, (row as u8, c2 as u8, digit as u8));
                };
                assert forall|r2: int| 0 <= r2 < 9 && r2 != row implies #[trigger] in_queue(
                    self.work_queue@,
                    (r2 as u8, col as u8, digit as u8),
                ) by {
                    lemma_in_queue_persists(qb, self.work_queue@, (r2 as u8, col as u8, digit as u8));
                };
                assert forall|r2: int, c2: int|
                    0 <= r2 < 9 && 0 <= c2 < 9 && box_of(r2, c2) == box_of(
                        row as int,
                        col as int,
                    ) && !(r2 == row && c2 == col) && 3 * (r2 % 3) + c2 % 3 < k
                        + 1 implies #[trigger] in_queue(
                    self.work_queue@,
                    (r2 as u8, c2 as u8, digit as u8),
                ) by {
                    if 3 * (r2 % 3) + c2 % 3 == k {
                        // the slot just visited is exactly the cell (r2, c2)
                        assert(r2 == 3 * (r2 / 3) + r2 % 3);
                        assert(r2 / 3 == (row as int) / 3);
                        assert(c2 / 3 == (col as int) / 3);
                        assert(r2 == other_row && c2 == other_col);
                        assert(self.work_queue@[self.work_queue@.len() - 1] == (
                        r2 as u8,
                        c2 as u8,
                        digit as u8,
                        ));
                    } else {
                        lemma_in_queue_persists(
                            qb,
                            self.work_queue@,
                            (r2 as u8, c2 as u8, digit as u8),
                        );
                    }
                };
            }
        }
        proof {
            assert forall|r2: int, c2: int|
                #[trigger] peer(row as int, col as int, r2, c2) implies in_queue(
                self.work_queue@,
                (r2 as u8, c2 as u8, digit as u8),
            ) by {
                if r2 == row {
                    assert(in_queue(self.work_queue@, (row as u8, c2 as u8, digit as u8)));
                    assert((row as u8, c2 as u8, digit as u8) == (r2 as u8, c2 as u8, digit as u8));
                } else if c2 == col {
                    assert(in_queue(self.work_queue@, (r2 as u8, col as u8, digit as u8)));
                    assert((r2 as u8, col as u8, digit as u8) == (r2 as u8, c2 as u8, digit as u8));
                } else {
                    assert(0 <= 3 * (r2 % 3) + c2 % 3 < 9);
                }
            };
        }
    }

    /// Find the digit still possible in a cell known to have one.
    fn find_in_cell(&self, row: usize, col: usize) -> (d: usize)
        requires
            row < 9,
            col < 9,
            cell_cnt(self.patterns@, row as int, col as int) >= 1,
        ensures
            d < 9,
            self.patterns@[d as int].sp_has(9 * row + col),
    {
        for d in 0..9usize
            invariant
                row < 9,
                col < 9,
                cell_cnt(self.patterns@, row as int, col as int) >= 1,
                forall|dd: int|
                    0 <= dd < d ==> !(#[trigger] self.patterns@[dd].sp_has(
                        9 * (row as int) + (col as int),
                    )),
        {
            if self.patterns[d].has(row, col) {
                return d;
            }
        }
        proof {
            lemma_count_zero(
                |dd: int| self.patterns@[dd].sp_has(9 * (row as int) + (col as int)),
                0,
                9,
            );
            assert(false);
        }
        vstd::pervasive::unreached()
    }

    /// Find the column where a digit is still possible in a row known to have one.
    fn find_in_row(&self, row: usize, digit: usize) -> (c: usize)
        requires
            row < 9,
            digit < 9,
            row_cnt(self.patterns@[digit as int], row as int) >= 1,
        ensures
            c < 9,
            self.patterns@[digit as int].sp_has(9 * row + c),
    {
        for c in 0..9usize
            invariant
                row < 9,
                digit < 9,
                row_cnt(self.patterns@[digit as int], row as int) >= 1,
                forall|cc: int|
                    0 <= cc < c ==> !(#[trigger] self.patterns@[digit as int].sp_has(
                        9 * (row as int) + cc,
                    )),
        {
            if self.patterns[digit].has(row, c) {
                return c;
            }
        }
        proof {
            lemma_count_zero(|cc: int| self.patterns@[digit as int].sp_has(9 * (row as int) + cc), 0, 9);
            assert(false);
        }
        vstd::pervasive::unreached()
    }

    /// Find the row where a digit is still possible in a column known to have one.
    fn find_in_col(&self, col: usize, digit: usize) -> (r: usize)
        requires
            col < 9,
            digit < 9,
            col_cnt(self.patterns@[digit as int], col as int) >= 1,
        ensures
            r < 9,
            self.patterns@[digit as int].sp_has(9 * r + col),
    {
        for r in 0..9usize
            invariant
                col < 9,
                digit < 9,
                col_cnt(self.patterns@[digit as int], col as int) >= 1,
                forall|rr: int|
                    0 <= rr < r ==> !(#[trigger] self.patterns@[digit as int].sp_has(
                        9 * rr + (col as int),
                    )),
        {
            if self.patterns[digit].has(r, col) {
                return r;
            }
        }
        proof {
            lemma_count_zero(|rr: int| self.patterns@[digit as int].sp_has(9 * rr + (col as int)), 0, 9);
            assert(false);
        }
        vstd::pervasive::unreached()
    }

    /// Find the cell of the box of `(row, col)` where a digit is still
    /// possible, in a box known to have one.
    fn find_in_box(&self, row: usize, col: usize, digit: usize) -> (rc: (usize, usize))
        requires
            row < 9,
            col < 9,
            digit < 9,
            box_cnt(self.patterns@[digit as int], box_of(row as int, col as int)) >= 1,
        ensures
            rc.0 < 9,
            rc.1 < 9,
            self.patterns@[digit as int].sp_has(9 * rc.0 + rc.1),
            box_of(rc.0 as int, rc.1 as int) == box_of(row as int, col as int),
    {
        let box_row = row / 3 * 3;
        let box_col = col / 3 * 3;
        proof {
            assert(box_of(row as int, col as int) == 3 * ((row as int) / 3) + (col as int) / 3);
        }
        for k in 0..9usize
            invariant
                row < 9,
                col < 9,
                digit < 9,
                box_row == row / 3 * 3,
                box_col == col / 3 * 3,
                box_cnt(self.patterns@[digit as int], box_of(row as int, col as int)) >= 1,
                forall|kk: int|
                    0 <= kk < k ==> !(#[trigger] self.patterns@[digit as int].sp_has(
                        crate::pattern::box_cell(box_of(row as int, col as int), kk),
                    )),
        {
            let r = box_row + k / 3;
            let c = box_col + k % 3;
            proof {
                assert(crate::pattern::box_cell(box_of(row as int, col as int), k as int) == 9 * r
                    + c);
            }
            if self.patterns[digit].has(r, c) {
                proof {
                    assert(box_of(r as int, c as int) == box_of(row as int, col as int));
                }
                return (r, c);
            }
        }
        proof {
            lemma_count_zero(
                |kk: int|
                    self.patterns@[digit as int].sp_has(
                        crate::pattern::box_cell(box_of(row as int, col as int), kk),
                    ),
                0,
                9,
            );
            assert(false);
        }
        vstd::pervasive::unreached()
    }
}

/// Does the pattern of the entry's digit still hold the entry's cell?
pub open spec fn entry_bit(pats: Seq<Pattern>, e: (u8, u8, u8)) -> bool {
    pats[e.2 as int].sp_has(9 * e.0 + e.1)
}

/// A complete assignment of digit indexes (0 to 8) to the 81 cells, row-major,
/// in which cells sharing a row, column or box never hold the same digit: a
/// fully solved grid.
pub open spec fn grid_ok(g: Seq<int>) -> bool {
    &&& g.len() == 81
    &&& forall|i: int| 0 <= i < 81 ==> 0 <= #[trigger] g[i] < 9
    &&& forall|r: int, c: int, r2: int, c2: int|
        0 <= r < 9 && 0 <= c < 9 && #[trigger] peer(r, c, r2, c2) ==> g[9 * r + c] != g[9 * r2
            + c2]
}

/// Every cell's digit in the complete grid is still a candidate there.
pub open spec fn consistent(g: Seq<int>, pats: Seq<Pattern>) -> bool {
    forall|i: int| 0 <= i < 81 ==> (#[trigger] pats[g[i]].sp_has(i))
}

/// The first `k` cells of a row of a solved grid hold `k` distinct digits.
proof fn lemma_grid_row_cover(g: Seq<int>, r: int, k: int)
    requires
        grid_ok(g),
        0 <= r < 9,
        0 <= k <= 9,
    ensures
        count(|dd: int| exists|c: int| 0 <= c < k && #[trigger] g[9 * r + c] == dd, 0, 9) == k,
    decreases k,
{
    if k == 0 {
        lemma_count_zero(
            |dd: int| exists|c: int| 0 <= c < 0 && #[trigger] g[9 * r + c] == dd,
            0,
            9,
        );
    } else {
        lemma_grid_row_cover(g, r, k - 1);
        assert forall|c: int| 0 <= c < k - 1 implies #[trigger] g[9 * r + c] != g[9 * r + (k
            - 1)] by {
            assert(peer(r, c, r, k - 1));
        };
        lemma_count_drop(
            |dd: int| exists|c: int| 0 <= c < k && #[trigger] g[9 * r + c] == dd,
            |dd: int| exists|c: int| 0 <= c < k - 1 && #[trigger] g[9 * r + c] == dd,
            g[9 * r + (k - 1)],
            0,
            9,
        );
    }
}

/// A row of a solved grid holds every digit somewhere.
proof fn lemma_grid_row_contains(g: Seq<int>, r: int, d: int)
    requires
        grid_ok(g),
        0 <= r < 9,
        0 <= d < 9,
    ensures
        exists|c: int| 0 <= c < 9 && #[trigger] g[9 * r + c] == d,
{
    lemma_grid_row_cover(g, r, 9);
    lemma_count_all_at(
        |dd: int| exists|c: int| 0 <= c < 9 && #[trigger] g[9 * r + c] == dd,
        0,
        9,
        d,
    );
}

/// The first `k` cells of a column of a solved grid hold `k` distinct digits.
proof fn lemma_grid_col_cover(g: Seq<int>, c: int, k: int)
    requires
        grid_ok(g),
        0 <= c < 9,
        0 <= k <= 9,
    ensures
        count(|dd: int| exists|r: int| 0 <= r < k && #[trigger] g[9 * r + c] == dd, 0, 9) == k,
    decreases k,
{
    if k == 0 {
        lemma_count_zero(
            |dd: int| exists|r: int| 0 <= r < 0 && #[trigger] g[9 * r + c] == dd,
            0,
            9,
        );
    } else {
        lemma_grid_col_cover(g, c, k - 1);
        assert forall|r: int| 0 <= r < k - 1 implies #[trigger] g[9 * r + c] != g[9 * (k - 1)
            + c] by {
            assert(peer(r, c, k - 1, c));
        };
        lemma_count_drop(
            |dd: int| exists|r: int| 0 <= r < k && #[trigger] g[9 * r + c] == dd,
            |dd: int| exists|r: int| 0 <= r < k - 1 && #[trigger] g[9 * r + c] == dd,
            g[9 * (k - 1) + c],
            0,
            9,
        );
    }
}

/// A column of a solved grid holds every digit somewhere.
proof fn lemma_grid_col_contains(g: Seq<int>, c: int, d: int)
    requires
        grid_ok(g),
        0 <= c < 9,
        0 <= d < 9,
    ensures
        exists|r: int| 0 <= r < 9 && #[trigger] g[9 * r + c] == d,
{
    lemma_grid_col_cover(g, c, 9);
    lemma_count_all_at(
        |dd: int| exists|r: int| 0 <= r < 9 && #[trigger] g[9 * r + c] == dd,
        0,
        9,
        d,
    );
}

/// The first `k` slots of a box of a solved grid hold `k` distinct digits.
proof fn lemma_grid_box_cover(g: Seq<int>, b: int, k: int)
    requires
        grid_ok(g),
        0 <= b < 9,
        0 <= k <= 9,
    ensures
        count(
            |dd: int| exists|k2: int| 0 <= k2 < k && #[trigger] g[crate::pattern::box_cell(b, k2)]
                == dd,
            0,
            9,
        ) == k,
    decreases k,
{
    if k == 0 {
        lemma_count_zero(
            |dd: int| exists|k2: int| 0 <= k2 < 0 && #[trigger] g[crate::pattern::box_cell(b, k2)]
                == dd,
            0,
            9,
        );
    } else {
        lemma_grid_box_cover(g, b, k - 1);
        let rl = 3 * (b / 3) + (k - 1) / 3;
        let cl = 3 * (b % 3) + (k - 1) % 3;
        assert(crate::pattern::box_cell(b, k - 1) == 9 * rl + cl);
        assert(box_of(rl, cl) == b);
        assert forall|k2: int| 0 <= k2 < k - 1 implies #[trigger] g[crate::pattern::box_cell(
            b,
            k2,
        )] != g[crate::pattern::box_cell(b, k - 1)] by {
            let r2 = 3 * (b / 3) + k2 / 3;
            let c2 = 3 * (b % 3) + k2 % 3;
            assert(crate::pattern::box_cell(b, k2) == 9 * r2 + c2);
            assert(box_of(r2, c2) == b);
            assert(peer(r2, c2, rl, cl));
        };
        lemma_count_drop(
            |dd: int| exists|k2: int| 0 <= k2 < k && #[trigger] g[crate::pattern::box_cell(b, k2)]
                == dd,
            |dd: int| exists|k2: int| 0 <= k2 < k - 1 && #[trigger] g[crate::pattern::box_cell(
                b,
                k2,
            )] == dd,
            g[crate::pattern::box_cell(b, k - 1)],
            0,
            9,
        );
    }
}

/// A box of a solved grid holds every digit somewhere.
proof fn lemma_grid_box_contains(g: Seq<int>, b: int, d: int)
    requires
        grid_ok(g),
        0 <= b < 9,
        0 <= d < 9,
    ensures
        exists|k2: int| 0 <= k2 < 9 && #[trigger] g[crate::pattern::box_cell(b, k2)] == d,
{
    lemma_grid_box_cover(g, b, 9);
    lemma_count_all_at(
        |dd: int| exists|k2: int| 0 <= k2 < 9 && #[trigger] g[crate::pattern::box_cell(b, k2)]
            == dd,
        0,
        9,
        d,
    );
}

/// Is the entry somewhere in the queue?
pub open spec fn in_queue(q: Seq<(u8, u8, u8)>, e: (u8, u8, u8)) -> bool {
    exists|k: int| 0 <= k < q.len() && q[k] == e
}

/// An entry stays in a queue that only grew at the end.
proof fn lemma_in_queue_persists(q1: Seq<(u8, u8, u8)>, q2: Seq<(u8, u8, u8)>, e: (u8, u8, u8))
    requires
        in_queue(q1, e),
        q2.len() >= q1.len(),
        forall|k: int| 0 <= k < q1.len() ==> q2[k] == q1[k],
    ensures
        in_queue(q2, e),
{
    let k = choose|k: int| 0 <= k < q1.len() && q1[k] == e;
    assert(q2[k] == e);
}

/// After popping the last entry, every other entry is still queued.
proof fn lemma_in_queue_shrink(
    q1: Seq<(u8, u8, u8)>,
    q2: Seq<(u8, u8, u8)>,
    last: (u8, u8, u8),
    e: (u8, u8, u8),
)
    requires
        in_queue(q1, e),
        q1.len() == q2.len() + 1,
        q1[q1.len() - 1] == last,
        forall|k: int| 0 <= k < q2.len() ==> q2[k] == q1[k],
    ensures
        e == last || in_queue(q2, e),
{
    let k = choose|k: int| 0 <= k < q1.len() && q1[k] == e;
    if k < q2.len() {
        assert(q2[k] == e);
    }
}

/// Clearing one cell of one digit's pattern lowers exactly four live counts by
/// one - the cell's, and the digit's in that row, column and box - and the
/// overall total; every other count is untouched.
proof fn lemma_counts_after_clear(p1: Seq<Pattern>, p2: Seq<Pattern>, row: int, col: int, digit: int)
    requires
        0 <= row < 9,
        0 <= col < 9,
        0 <= digit < 9,
        p1[digit].sp_has(9 * row + col),
        forall|dd: int, i: int|
            0 <= dd < 9 && 0 <= i < 81 ==> (#[trigger] p2[dd].sp_has(i) == (p1[dd].sp_has(i) && !(
            dd == digit && i == 9 * row + col))),
        forall|dd: int| 0 <= dd < 9 && dd != digit ==> p2[dd] == p1[dd],
    ensures
        cell_cnt(p2, row, col) + 1 == cell_cnt(p1, row, col),
        forall|r: int, c: int|
            0 <= r < 9 && 0 <= c < 9 && !(r == row && c == col) ==> #[trigger] cell_cnt(p2, r, c)
                == cell_cnt(p1, r, c),
        row_cnt(p2[digit], row) + 1 == row_cnt(p1[digit], row),
        forall|d: int, r: int|
            0 <= d < 9 && 0 <= r < 9 && !(d == digit && r == row) ==> #[trigger] row_cnt(
                p2[d],
                r,
            ) == row_cnt(p1[d], r),
        col_cnt(p2[digit], col) + 1 == col_cnt(p1[digit], col),
        forall|d: int, c: int|
            0 <= d < 9 && 0 <= c < 9 && !(d == digit && c == col) ==> #[trigger] col_cnt(
                p2[d],
                c,
            ) == col_cnt(p1[d], c),
        box_cnt(p2[digit], box_of(row, col)) + 1 == box_cnt(p1[digit], box_of(row, col)),
        forall|d: int, b: int|
            0 <= d < 9 && 0 <= b < 9 && !(d == digit && b == box_of(row, col)) ==> #[trigger] box_cnt(
                p2[d],
                b,
            ) == box_cnt(p1[d], b),
        total_cnt(p2, 0) + 1 == total_cnt(p1, 0),
{
    let cell = 9 * row + col;
    let bi = box_of(row, col);
    let slot = 3 * (row % 3) + col % 3;
    lemma_box_correspondence(row, col);

    lemma_count_drop(
        |d: int| p1[d].sp_has(9 * row + col),
        |d: int| p2[d].sp_has(9 * row + col),
        digit,
        0,
        9,
    );
    assert forall|r: int, c: int|
        0 <= r < 9 && 0 <= c < 9 && !(r == row && c == col) implies #[trigger] cell_cnt(p2, r, c)
        == cell_cnt(p1, r, c) by {
        assert forall|d: int| 0 <= d < 9 implies #[trigger] p2[d].sp_has(9 * r + c) == p1[d].sp_has(
            9 * r + c,
        ) by {
            assert(9 * r + c != cell);
        };
        lemma_count_agree(|d: int| p2[d].sp_has(9 * r + c), |d: int| p1[d].sp_has(9 * r + c), 0, 9);
    };

    lemma_count_drop(
        |c: int| p1[digit].sp_has(9 * row + c),
        |c: int| p2[digit].sp_has(9 * row + c),
        col,
        0,
        9,
    );
    assert forall|d: int, r: int|
        0 <= d < 9 && 0 <= r < 9 && !(d == digit && r == row) implies #[trigger] row_cnt(p2[d], r)
        == row_cnt(p1[d], r) by {
        if d == digit {
            assert forall|c: int| 0 <= c < 9 implies #[trigger] p2[d].sp_has(9 * r + c)
                == p1[d].sp_has(9 * r + c) by {
                assert(9 * r + c != cell);
            };
            lemma_count_agree(
                |c: int| p2[d].sp_has(9 * r + c),
                |c: int| p1[d].sp_has(9 * r + c),
                0,
                9,
            );
        }
    };

    lemma_count_drop(
        |r: int| p1[digit].sp_has(9 * r + col),
        |r: int| p2[digit].sp_has(9 * r + col),
        row,
        0,
        9,
    );
    assert forall|d: int, c: int|
        0 <= d < 9 && 0 <= c < 9 && !(d == digit && c == col) implies #[trigger] col_cnt(p2[d], c)
        == col_cnt(p1[d], c) by {
        if d == digit {
            assert forall|r: int| 0 <= r < 9 implies #[trigger] p2[d].sp_has(9 * r + c)
                == p1[d].sp_has(9 * r + c) by {
                assert(9 * r + c != cell);
            };
            lemma_count_agree(
                |r: int| p2[d].sp_has(9 * r + c),
                |r: int| p1[d].sp_has(9 * r + c),
                0,
                9,
            );
        }
    };

    assert(crate::pattern::box_cell(bi, slot) == cell);
    assert forall|k: int| 0 <= k < 9 && k != slot implies #[trigger] p2[digit].sp_has(
        crate::pattern::box_cell(bi, k),
    ) == p1[digit].sp_has(crate::pattern::box_cell(bi, k)) by {
        assert(crate::pattern::box_cell(bi, k) != cell);
    };
    lemma_count_drop(
        |k: int| p1[digit].sp_has(crate::pattern::box_cell(bi, k)),
        |k: int| p2[digit].sp_has(crate::pattern::box_cell(bi, k)),
        slot,
        0,
        9,
    );
    assert forall|d: int, b: int|
        0 <= d < 9 && 0 <= b < 9 && !(d == digit && b == bi) implies #[trigger] box_cnt(p2[d], b)
        == box_cnt(p1[d], b) by {
        if d == digit {
            assert forall|k: int| 0 <= k < 9 implies #[trigger] p2[d].sp_has(
                crate::pattern::box_cell(b, k),
            ) == p1[d].sp_has(crate::pattern::box_cell(b, k)) by {
                assert(crate::pattern::box_cell(b, k) != cell);
            };
            lemma_count_agree(
                |k: int| p2[d].sp_has(crate::pattern::box_cell(b, k)),
                |k: int| p1[d].sp_has(crate::pattern::box_cell(b, k)),
                0,
                9,
            );
        }
    };

    lemma_count_drop(|i: int| p1[digit].sp_has(i), |i: int| p2[digit].sp_has(i), cell, 0, 81);
    lemma_total_drop(p1, p2, digit, 0);
}

/// Once the exceptional elimination has been applied, nothing is in flight.
proof fn lemma_pending_settled(s: Possibilities, xr: int, xc: int, xd: int)
    requires
        s.cascades_pending_but(xr, xc, xd),
        0 <= xd < 9 ==> !s.patterns@[xd].sp_has(9 * xr + xc),
    ensures
        s.cascades_pending(),
{
}

impl Possibilities {
    /// Eliminate a digit from a cell, update the four counters, and enqueue
    /// the cascading eliminations; fail the moment a counter reaches zero.
    /// Re-eliminating an absent digit changes nothing.
    #[verifier::rlimit(100)]
    fn eliminate(&mut self, row: usize, col: usize, digit: usize) -> (res: Result<
        (),
        ImpossiblePuzzle,
    >)
        requires
            old(self).inv(),
            old(self).cascades_pending_but(row as int, col as int, digit as int),
            row < 9,
            col < 9,
            digit < 9,
        ensures
            !old(self).patterns@[digit as int].sp_has(9 * row + col) ==> (res.is_ok() && *final (
            self) == *old(self)),
            res.is_err() <==> (old(self).patterns@[digit as int].sp_has(9 * row + col) && (cell_cnt(
                old(self).patterns@,
                row as int,
                col as int,
            ) == 1 || row_cnt(old(self).patterns@[digit as int], row as int) == 1 || col_cnt(
                old(self).patterns@[digit as int],
                col as int,
            ) == 1 || box_cnt(
                old(self).patterns@[digit as int],
                box_of(row as int, col as int),
            ) == 1)),
            res.is_ok() ==> final (self).cascades_pending(),
            res.is_ok() ==> forall|g: Seq<int>|
                #[trigger] grid_ok(g) && consistent(g, old(self).patterns@) && g[9 * row + col]
                    != digit ==> (consistent(g, final (self).patterns@) && (forall|k: int|
                old(self).work_queue@.len() <= k < final (self).work_queue@.len() ==> g[9 * (
                #[trigger] final (self).work_queue@[k]).0 + final (self).work_queue@[k].1] != final (
                self).work_queue@[k].2)),
            res.is_err() ==> forall|g: Seq<int>|
                !(#[trigger] grid_ok(g) && consistent(g, old(self).patterns@) && g[9 * row + col]
                    != digit),
            res.is_ok() ==> final (self).inv(),
            res.is_ok() ==> forall|dd: int, i: int|
                0 <= dd < 9 && 0 <= i < 81 ==> (#[trigger] final (self).patterns@[dd].sp_has(i) == (
                old(self).patterns@[dd].sp_has(i) && !(dd == digit && i == 9 * row + col))),
            res.is_ok() ==> final (self).work_queue@.len() >= old(self).work_queue@.len(),
            res.is_ok() ==> forall|k: int|
                0 <= k < old(self).work_queue@.len() ==> final (self).work_queue@[k] == old(
                    self,
                ).work_queue@[k],
            res.is_ok() && old(self).patterns@[digit as int].sp_has(9 * row + col) ==> total_cnt(
                final (self).patterns@,
                0,
            ) + 1 == total_cnt(old(self).patterns@, 0),
    {
        let mut p = self.patterns[digit];
        let was = p.remove(row, col);
        if !was {
            proof {
                lemma_pending_settled(*self, row as int, col as int, digit as int);
            }
            return Ok(());
        }
        self.patterns[digit] = p;
        let ghost p1 = old(self).patterns@;
        let ghost p2 = self.patterns@;
        proof {
            assert forall|dd: int, i: int| 0 <= dd < 9 && 0 <= i < 81 implies (
            #[trigger] p2[dd].sp_has(i) == (p1[dd].sp_has(i) && !(dd == digit && i == 9 * (
            row as int) + col))) by {
                if dd != digit {
                    assert(p2[dd] == p1[dd]);
                }
            };
            lemma_counts_after_clear(p1, p2, row as int, col as int, digit as int);
        }
        // Cell constraint: fewer digits fit this cell now.
        let ci = 9 * row + col;
        let cc = self.cell_constraints[ci] - 1;
        self.cell_constraints[ci] = cc;
        if cc == 0 {
            proof {
                assert forall|g: Seq<int>|
                    !(#[trigger] grid_ok(g) && consistent(g, p1) && g[9 * (row as int) + (
                    col as int)] != digit) by {
                    if grid_ok(g) && consistent(g, p1) && g[9 * (row as int) + (col as int)]
                        != digit {
                        let i = 9 * (row as int) + (col as int);
                        assert(p1[g[i]].sp_has(i));
                        assert(cell_cnt(p1, row as int, col as int) == 1);
                        if g[i] < digit {
                            lemma_count_ge2(
                                |dd: int| p1[dd].sp_has(9 * (row as int) + (col as int)),
                                0,
                                9,
                                g[i],
                                digit as int,
                            );
                        } else {
                            lemma_count_ge2(
                                |dd: int| p1[dd].sp_has(9 * (row as int) + (col as int)),
                                0,
                                9,
                                digit as int,
                                g[i],
                            );
                        }
                    }
                };
            }
            return Err(ImpossiblePuzzle);
        }
        let ghost mut cell_digit: int = -1;
        let ghost mut q_cell: Seq<(u8, u8, u8)> = Seq::empty();
        if cc == 1 {
            let d2 = self.find_in_cell(row, col);
            self.enqueue_adjacent(row, col, d2);
            proof {
                cell_digit = d2 as int;
                q_cell = self.work_queue@;
            }
        }
        let ghost l1 = self.work_queue@.len() as int;
        // Row constraint: the digit fits fewer cells of this row.
        let ri = 9 * row + digit;
        let rc = self.row_constraints[ri] - 1;
        self.row_constraints[ri] = rc;
        if rc == 0 {
            proof {
                assert forall|g: Seq<int>|
                    !(#[trigger] grid_ok(g) && consistent(g, p1) && g[9 * (row as int) + (
                    col as int)] != digit) by {
                    if grid_ok(g) && consistent(g, p1) && g[9 * (row as int) + (col as int)]
                        != digit {
                        assert(row_cnt(p1[digit as int], row as int) == 1);
                        lemma_grid_row_contains(g, row as int, digit as int);
                        let c3 = choose|c3: int|
                            0 <= c3 < 9 && #[trigger] g[9 * (row as int) + c3] == digit;
                        assert(p1[g[9 * (row as int) + c3]].sp_has(9 * (row as int) + c3));
                        if c3 != col {
                            if c3 < col {
                                lemma_count_ge2(
                                    |c4: int| p1[digit as int].sp_has(9 * (row as int) + c4),
                                    0,
                                    9,
                                    c3,
                                    col as int,
                                );
                            } else {
                                lemma_count_ge2(
                                    |c4: int| p1[digit as int].sp_has(9 * (row as int) + c4),
                                    0,
                                    9,
                                    col as int,
                                    c3,
                                );
                            }
                        }
                    }
                };
            }
            return Err(ImpossiblePuzzle);
        }
        let ghost mut row_col: int = -1;
        let ghost mut q_row: Seq<(u8, u8, u8)> = Seq::empty();
        if rc == 1 {
            let c2 = self.find_in_row(row, digit);
            self.enqueue_others(row, c2, digit);
            proof {
                row_col = c2 as int;
                q_row = self.work_queue@;
            }
        }
        let ghost l2 = self.work_queue@.len() as int;
        // Column constraint.
        let li = 9 * col + digit;
        let lc = self.col_constraints[li] - 1;
        self.col_constraints[li] = lc;
        if lc == 0 {
            proof {
                assert forall|g: Seq<int>|
                    !(#[trigger] grid_ok(g) && consistent(g, p1) && g[9 * (row as int) + (
                    col as int)] != digit) by {
                    if grid_ok(g) && consistent(g, p1) && g[9 * (row as int) + (col as int)]
                        != digit {
                        assert(col_cnt(p1[digit as int], col as int) == 1);
                        lemma_grid_col_contains(g, col as int, digit as int);
                        let r3 = choose|r3: int|
                            0 <= r3 < 9 && #[trigger] g[9 * r3 + (col as int)] == digit;
                        assert(p1[g[9 * r3 + (col as int)]].sp_has(9 * r3 + (col as int)));
                        if r3 != row {
                            if r3 < row {
                                lemma_count_ge2(
                                    |r4: int| p1[digit as int].sp_has(9 * r4 + (col as int)),
                                    0,
                                    9,
                                    r3,
                                    row as int,
                                );
                            } else {
                                lemma_count_ge2(
                                    |r4: int| p1[digit as int].sp_has(9 * r4 + (col as int)),
                                    0,
                                    9,
                                    row as int,
                                    r3,
                                );
                            }
                        }
                    }
                };
            }
            return Err(ImpossiblePuzzle);
        }
        let ghost mut col_row: int = -1;
        let ghost mut q_col: Seq<(u8, u8, u8)> = Seq::empty();
        if lc == 1 {
            let r2 = self.find_in_col(col, digit);
            self.enqueue_others(r2, col, digit);
            proof {
                col_row = r2 as int;
                q_col = self.work_queue@;
            }
        }
        let ghost l3 = self.work_queue@.len() as int;
        // Box constraint.
        let bx = row / 3 * 3 + col / 3;
        proof {
            assert(bx == box_of(row as int, col as int));
        }
        let bi = 9 * bx + digit;
        let bc = self.box_constraints[bi] - 1;
        self.box_constraints[bi] = bc;
        if bc == 0 {
            proof {
                assert forall|g: Seq<int>|
                    !(#[trigger] grid_ok(g) && consistent(g, p1) && g[9 * (row as int) + (
                    col as int)] != digit) by {
                    if grid_ok(g) && consistent(g, p1) && g[9 * (row as int) + (col as int)]
                        != digit {
                        let b = box_of(row as int, col as int);
                        let slot = 3 * ((row as int) % 3) + (col as int) % 3;
                        lemma_box_correspondence(row as int, col as int);
                        assert(box_cnt(p1[digit as int], b) == 1);
                        lemma_grid_box_contains(g, b, digit as int);
                        let k3 = choose|k3: int|
                            0 <= k3 < 9 && #[trigger] g[crate::pattern::box_cell(b, k3)] == digit;
                        let r3 = 3 * (b / 3) + k3 / 3;
                        let c3 = 3 * (b % 3) + k3 % 3;
                        assert(crate::pattern::box_cell(b, k3) == 9 * r3 + c3);
                        assert(p1[g[9 * r3 + c3]].sp_has(9 * r3 + c3));
                        assert(p1[digit as int].sp_has(crate::pattern::box_cell(b, k3)));
                        assert(crate::pattern::box_cell(b, slot) == 9 * (row as int) + (
                        col as int));
                        if k3 != slot {
                            if k3 < slot {
                                lemma_count_ge2(
                                    |k4: int| p1[digit as int].sp_has(
                                        crate::pattern::box_cell(
                                            box_of(row as int, col as int),
                                            k4,
                                        ),
                                    ),
                                    0,
                                    9,
                                    k3,
                                    slot,
                                );
                            } else {
                                lemma_count_ge2(
                                    |k4: int| p1[digit as int].sp_has(
                                        crate::pattern::box_cell(
                                            box_of(row as int, col as int),
                                            k4,
                                        ),
                                    ),
                                    0,
                                    9,
                                    slot,
                                    k3,
                                );
                            }
                        }
                    }
                };
            }
            return Err(ImpossiblePuzzle);
        }
        let ghost mut box_cell_r: int = -1;
        let ghost mut box_cell_c: int = -1;
        let ghost mut q_box: Seq<(u8, u8, u8)> = Seq::empty();
        if bc == 1 {
            let rc2 = self.find_in_box(row, col, digit);
            self.enqueue_others(rc2.0, rc2.1, digit);
            proof {
                box_cell_r = rc2.0 as int;
                box_cell_c = rc2.1 as int;
                q_box = self.work_queue@;
            }
        }
        let ghost l4 = self.work_queue@.len() as int;
        proof {
            let l0 = old(self).work_queue@.len() as int;
            let qf = self.work_queue@;
            let cellix = 9 * (row as int) + (col as int);
            assert forall|g: Seq<int>|
                #[trigger] grid_ok(g) && consistent(g, p1) && g[cellix] != digit implies (
            consistent(g, p2) && (forall|k: int|
                l0 <= k < l4 ==> g[9 * (#[trigger] qf[k]).0 + qf[k].1] != qf[k].2)) by {
                assert forall|i: int| 0 <= i < 81 implies (#[trigger] p2[g[i]].sp_has(i)) by {
                    assert(p1[g[i]].sp_has(i));
                };
                assert forall|k: int| l0 <= k < l4 implies g[9 * (#[trigger] qf[k]).0 + qf[k].1]
                    != qf[k].2 by {
                    if k < l1 {
                        // cascade of the solved cell: its digit leaves every peer
                        assert(qf[k] == q_cell[k]);
                        let e = q_cell[k];
                        assert(e.2 == cell_digit && peer(
                            row as int,
                            col as int,
                            e.0 as int,
                            e.1 as int,
                        ));
                        assert(p2[g[cellix]].sp_has(cellix));
                        if g[cellix] != cell_digit {
                            if g[cellix] < cell_digit {
                                lemma_count_ge2(
                                    |dd: int| p2[dd].sp_has(9 * (row as int) + (col as int)),
                                    0,
                                    9,
                                    g[cellix],
                                    cell_digit,
                                );
                            } else {
                                lemma_count_ge2(
                                    |dd: int| p2[dd].sp_has(9 * (row as int) + (col as int)),
                                    0,
                                    9,
                                    cell_digit,
                                    g[cellix],
                                );
                            }
                        }
                        assert(g[9 * e.0 + e.1] != g[cellix]);
                    } else if k < l2 {
                        // the digit's one row cell is forced: other digits leave it
                        assert(qf[k] == q_row[k]);
                        let e = q_row[k];
                        assert(e.0 == row && e.1 == row_col && e.2 != digit);
                        lemma_grid_row_contains(g, row as int, digit as int);
                        let c3 = choose|c3: int|
                            0 <= c3 < 9 && #[trigger] g[9 * (row as int) + c3] == digit;
                        assert(p2[g[9 * (row as int) + c3]].sp_has(9 * (row as int) + c3));
                        if c3 != row_col {
                            if c3 < row_col {
                                lemma_count_ge2(
                                    |c4: int| p2[digit as int].sp_has(9 * (row as int) + c4),
                                    0,
                                    9,
                                    c3,
                                    row_col,
                                );
                            } else {
                                lemma_count_ge2(
                                    |c4: int| p2[digit as int].sp_has(9 * (row as int) + c4),
                                    0,
                                    9,
                                    row_col,
                                    c3,
                                );
                            }
                        }
                        assert(g[9 * (row as int) + row_col] == digit);
                    } else if k < l3 {
                        // the digit's one column cell is forced
                        assert(qf[k] == q_col[k]);
                        let e = q_col[k];
                        assert(e.0 == col_row && e.1 == col && e.2 != digit);
                        lemma_grid_col_contains(g, col as int, digit as int);
                        let r3 = choose|r3: int|
                            0 <= r3 < 9 && #[trigger] g[9 * r3 + (col as int)] == digit;
                        assert(p2[g[9 * r3 + (col as int)]].sp_has(9 * r3 + (col as int)));
                        if r3 != col_row {
                            if r3 < col_row {
                                lemma_count_ge2(
                                    |r4: int| p2[digit as int].sp_has(9 * r4 + (col as int)),
                                    0,
                                    9,
                                    r3,
                                    col_row,
                                );
                            } else {
                                lemma_count_ge2(
                                    |r4: int| p2[digit as int].sp_has(9 * r4 + (col as int)),
                                    0,
                                    9,
                                    col_row,
                                    r3,
                                );
                            }
                        }
                        assert(g[9 * col_row + (col as int)] == digit);
                    } else {
                        // the digit's one box cell is forced
                        assert(qf[k] == q_box[k]);
                        let e = q_box[k];
                        assert(e.0 == box_cell_r && e.1 == box_cell_c && e.2 != digit);
                        let b = box_of(row as int, col as int);
                        lemma_box_correspondence(box_cell_r, box_cell_c);
                        let s2 = 3 * (box_cell_r % 3) + box_cell_c % 3;
                        assert(crate::pattern::box_cell(b, s2) == 9 * box_cell_r + box_cell_c);
                        lemma_grid_box_contains(g, b, digit as int);
                        let k3 = choose|k3: int|
                            0 <= k3 < 9 && #[trigger] g[crate::pattern::box_cell(b, k3)] == digit;
                        let r3 = 3 * (b / 3) + k3 / 3;
                        let c3 = 3 * (b % 3) + k3 % 3;
                        assert(crate::pattern::box_cell(b, k3) == 9 * r3 + c3);
                        assert(p2[g[9 * r3 + c3]].sp_has(9 * r3 + c3));
                        if k3 != s2 {
                            if k3 < s2 {
                                lemma_count_ge2(
                                    |k4: int| p2[digit as int].sp_has(
                                        crate::pattern::box_cell(
                                            box_of(row as int, col as int),
                                            k4,
                                        ),
                                    ),
                                    0,
                                    9,
                                    k3,
                                    s2,
                                );
                            } else {
                                lemma_count_ge2(
                                    |k4: int| p2[digit as int].sp_has(
                                        crate::pattern::box_cell(
                                            box_of(row as int, col as int),
                                            k4,
                                        ),
                                    ),
                                    0,
                                    9,
                                    s2,
                                    k3,
                                );
                            }
                        }
                        assert(g[9 * box_cell_r + box_cell_c] == digit);
                    }
                };
            };
            assert(self.patterns@ == p2);
            lemma_eliminate_cascades(
                *old(self),
                *self,
                row as int,
                col as int,
                digit as int,
                cell_digit,
                q_cell,
                row_col,
                q_row,
                col_row,
                q_col,
                box_cell_r,
                box_cell_c,
                q_box,
            );
        }
        Ok(())
    }
}

/// After one elimination step, every singleton constraint has its cascade
/// either applied or queued: the four counter families are re-established
/// from the pre-state's, plus what the step itself enqueued.
#[verifier::rlimit(100)]
proof fn lemma_eliminate_cascades(
    pre: Possibilities,
    post: Possibilities,
    row: int,
    col: int,
    digit: int,
    cell_digit: int,
    q_cell: Seq<(u8, u8, u8)>,
    row_col: int,
    q_row: Seq<(u8, u8, u8)>,
    col_row: int,
    q_col: Seq<(u8, u8, u8)>,
    box_cell_r: int,
    box_cell_c: int,
    q_box: Seq<(u8, u8, u8)>,
)
    requires
        0 <= row < 9,
        0 <= col < 9,
        0 <= digit < 9,
        pre.cascades_pending_but(row, col, digit),
        pre.patterns@[digit].sp_has(9 * row + col),
        forall|dd: int, i: int|
            0 <= dd < 9 && 0 <= i < 81 ==> (#[trigger] post.patterns@[dd].sp_has(i) == (
            pre.patterns@[dd].sp_has(i) && !(dd == digit && i == 9 * row + col))),
        forall|dd: int| 0 <= dd < 9 && dd != digit ==> post.patterns@[dd] == pre.patterns@[dd],
        post.work_queue@.len() >= pre.work_queue@.len(),
        forall|k: int|
            0 <= k < pre.work_queue@.len() ==> post.work_queue@[k] == pre.work_queue@[k],
        cell_cnt(post.patterns@, row, col) == 1 ==> (0 <= cell_digit < 9
            && post.patterns@[cell_digit].sp_has(9 * row + col) && (forall|r2: int, c2: int|
            #[trigger] peer(row, col, r2, c2) ==> in_queue(
                q_cell,
                (r2 as u8, c2 as u8, cell_digit as u8),
            )) && post.work_queue@.len() >= q_cell.len() && (forall|k: int|
            0 <= k < q_cell.len() ==> post.work_queue@[k] == q_cell[k])),
        row_cnt(post.patterns@[digit], row) == 1 ==> (0 <= row_col < 9
            && post.patterns@[digit].sp_has(9 * row + row_col) && (forall|d2: int|
            0 <= d2 < 9 && d2 != digit ==> #[trigger] in_queue(
                q_row,
                (row as u8, row_col as u8, d2 as u8),
            )) && post.work_queue@.len() >= q_row.len() && (forall|k: int|
            0 <= k < q_row.len() ==> post.work_queue@[k] == q_row[k])),
        col_cnt(post.patterns@[digit], col) == 1 ==> (0 <= col_row < 9
            && post.patterns@[digit].sp_has(9 * col_row + col) && (forall|d2: int|
            0 <= d2 < 9 && d2 != digit ==> #[trigger] in_queue(
                q_col,
                (col_row as u8, col as u8, d2 as u8),
            )) && post.work_queue@.len() >= q_col.len() && (forall|k: int|
            0 <= k < q_col.len() ==> post.work_queue@[k] == q_col[k])),
        box_cnt(post.patterns@[digit], box_of(row, col)) == 1 ==> (0 <= box_cell_r < 9 && 0
            <= box_cell_c < 9 && box_of(box_cell_r, box_cell_c) == box_of(row, col)
            && post.patterns@[digit].sp_has(9 * box_cell_r + box_cell_c) && (forall|d2: int|
            0 <= d2 < 9 && d2 != digit ==> #[trigger] in_queue(
                q_box,
                (box_cell_r as u8, box_cell_c as u8, d2 as u8),
            )) && post.work_queue@.len() >= q_box.len() && (forall|k: int|
            0 <= k < q_box.len() ==> post.work_queue@[k] == q_box[k])),
    ensures
        post.cascades_pending(),
{
    let p1 = pre.patterns@;
    let p2 = post.patterns@;
    let qf = post.work_queue@;
    let q0 = pre.work_queue@;
    let cellidx = 9 * row + col;
    lemma_counts_after_clear(p1, p2, row, col, digit);

    // Cell family: a solved cell's digit is being cleared from every peer.
    assert forall|r: int, c: int, d: int, r2: int, c2: int|
        0 <= r < 9 && 0 <= c < 9 && 0 <= d < 9 && #[trigger] p2[d].sp_has(9 * r + c) && cell_cnt(
            p2,
            r,
            c,
        ) == 1 && #[trigger] peer(r, c, r2, c2) implies (!p2[d].sp_has(9 * r2 + c2) || in_queue(
        qf,
        (r2 as u8, c2 as u8, d as u8),
    )) by {
        if r == row && c == col {
            assert(p2[cell_digit].sp_has(cellidx));
            if d != cell_digit {
                if d < cell_digit {
                    lemma_count_ge2(|dd: int| p2[dd].sp_has(9 * row + col), 0, 9, d, cell_digit);
                } else {
                    lemma_count_ge2(|dd: int| p2[dd].sp_has(9 * row + col), 0, 9, cell_digit, d);
                }
            }
            assert(in_queue(q_cell, (r2 as u8, c2 as u8, cell_digit as u8)));
            lemma_in_queue_persists(q_cell, qf, (r2 as u8, c2 as u8, d as u8));
        } else {
            assert(cell_cnt(p2, r, c) == cell_cnt(p1, r, c));
            assert(p1[d].sp_has(9 * r + c));
            if p1[d].sp_has(9 * r2 + c2) {
                if in_queue(q0, (r2 as u8, c2 as u8, d as u8)) {
                    lemma_in_queue_persists(q0, qf, (r2 as u8, c2 as u8, d as u8));
                } else {
                    assert(r2 == row && c2 == col && d == digit);
                    assert(!p2[d].sp_has(9 * r2 + c2));
                }
            }
        }
    };

    // Row family: a digit with one place left in a row owns that cell.
    assert forall|r: int, c: int, d: int, d2: int|
        0 <= r < 9 && 0 <= c < 9 && 0 <= d < 9 && 0 <= d2 < 9 && d2 != d && #[trigger] p2[d].sp_has(
            9 * r + c,
        ) && row_cnt(p2[d], r) == 1 implies (!(#[trigger] p2[d2].sp_has(9 * r + c)) || in_queue(
        qf,
        (r as u8, c as u8, d2 as u8),
    )) by {
        if d == digit && r == row {
            assert(p2[digit].sp_has(9 * row + row_col));
            if c != row_col {
                if c < row_col {
                    lemma_count_ge2(|c3: int| p2[digit].sp_has(9 * row + c3), 0, 9, c, row_col);
                } else {
                    lemma_count_ge2(|c3: int| p2[digit].sp_has(9 * row + c3), 0, 9, row_col, c);
                }
            }
            assert(in_queue(q_row, (row as u8, row_col as u8, d2 as u8)));
            lemma_in_queue_persists(q_row, qf, (r as u8, c as u8, d2 as u8));
        } else {
            assert(row_cnt(p2[d], r) == row_cnt(p1[d], r));
            assert(p1[d].sp_has(9 * r + c));
            if p1[d2].sp_has(9 * r + c) {
                if in_queue(q0, (r as u8, c as u8, d2 as u8)) {
                    lemma_in_queue_persists(q0, qf, (r as u8, c as u8, d2 as u8));
                } else {
                    assert(r == row && c == col && d2 == digit);
                    assert(!p2[d2].sp_has(9 * r + c));
                }
            }
        }
    };

    // Column family.
    assert forall|r: int, c: int, d: int, d2: int|
        0 <= r < 9 && 0 <= c < 9 && 0 <= d < 9 && 0 <= d2 < 9 && d2 != d && #[trigger] p2[d].sp_has(
            9 * r + c,
        ) && col_cnt(p2[d], c) == 1 implies (!(#[trigger] p2[d2].sp_has(9 * r + c)) || in_queue(
        qf,
        (r as u8, c as u8, d2 as u8),
    )) by {
        if d == digit && c == col {
            assert(p2[digit].sp_has(9 * col_row + col));
            if r != col_row {
                if r < col_row {
                    lemma_count_ge2(|r3: int| p2[digit].sp_has(9 * r3 + col), 0, 9, r, col_row);
                } else {
                    lemma_count_ge2(|r3: int| p2[digit].sp_has(9 * r3 + col), 0, 9, col_row, r);
                }
            }
            assert(in_queue(q_col, (col_row as u8, col as u8, d2 as u8)));
            lemma_in_queue_persists(q_col, qf, (r as u8, c as u8, d2 as u8));
        } else {
            assert(col_cnt(p2[d], c) == col_cnt(p1[d], c));
            assert(p1[d].sp_has(9 * r + c));
            if p1[d2].sp_has(9 * r + c) {
                if in_queue(q0, (r as u8, c as u8, d2 as u8)) {
                    lemma_in_queue_persists(q0, qf, (r as u8, c as u8, d2 as u8));
                } else {
                    assert(r == row && c == col && d2 == digit);
                    assert(!p2[d2].sp_has(9 * r + c));
                }
            }
        }
    };

    // Box family.
    assert forall|r: int, c: int, d: int, d2: int|
        0 <= r < 9 && 0 <= c < 9 && 0 <= d < 9 && 0 <= d2 < 9 && d2 != d && #[trigger] p2[d].sp_has(
            9 * r + c,
        ) && box_cnt(p2[d], box_of(r, c)) == 1 implies (!(#[trigger] p2[d2].sp_has(9 * r + c))
        || in_queue(qf, (r as u8, c as u8, d2 as u8))) by {
        if d == digit && box_of(r, c) == box_of(row, col) {
            let b = box_of(row, col);
            assert(p2[digit].sp_has(9 * box_cell_r + box_cell_c));
            if !(r == box_cell_r && c == box_cell_c) {
                let s1 = 3 * (r % 3) + c % 3;
                let s2 = 3 * (box_cell_r % 3) + box_cell_c % 3;
                lemma_box_correspondence(r, c);
                lemma_box_correspondence(box_cell_r, box_cell_c);
                assert(crate::pattern::box_cell(b, s1) == 9 * r + c);
                assert(crate::pattern::box_cell(b, s2) == 9 * box_cell_r + box_cell_c);
                assert(s1 != s2);
                if s1 < s2 {
                    lemma_count_ge2(
                        |k3: int| p2[digit].sp_has(crate::pattern::box_cell(box_of(row, col), k3)),
                        0,
                        9,
                        s1,
                        s2,
                    );
                } else {
                    lemma_count_ge2(
                        |k3: int| p2[digit].sp_has(crate::pattern::box_cell(box_of(row, col), k3)),
                        0,
                        9,
                        s2,
                        s1,
                    );
                }
            }
            assert(in_queue(q_box, (box_cell_r as u8, box_cell_c as u8, d2 as u8)));
            lemma_in_queue_persists(q_box, qf, (r as u8, c as u8, d2 as u8));
        } else {
            assert(box_cnt(p2[d], box_of(r, c)) == box_cnt(p1[d], box_of(r, c)));
            assert(p1[d].sp_has(9 * r + c));
            if p1[d2].sp_has(9 * r + c) {
                if in_queue(q0, (r as u8, c as u8, d2 as u8)) {
                    lemma_in_queue_persists(q0, qf, (r as u8, c as u8, d2 as u8));
                } else {
                    assert(r == row && c == col && d2 == digit);
                    assert(!p2[d2].sp_has(9 * r + c));
                }
            }
        }
    };
}

impl Possibilities {

    /// Drain the work queue to a fixed point, or stop at the first
    /// contradiction. Eliminations of already-absent digits change nothing.
    fn work(&mut self) -> (res: Result<(), ImpossiblePuzzle>)
        requires
            old(self).inv(),
            old(self).cascades_pending(),
        ensures
            res.is_ok() ==> final (self).inv() && final (self).work_queue@.len() == 0,
            res.is_ok() ==> final (self).cascades_done(),
            forall|g: Seq<int>|
                #[trigger] grid_ok(g) && consistent(g, old(self).patterns@) && (forall|k: int|
                    0 <= k < old(self).work_queue@.len() ==> g[9 * (#[trigger] old(
                        self,
                    ).work_queue@[k]).0 + old(self).work_queue@[k].1] != old(self).work_queue@[k].2)
                    ==> (res.is_ok() && consistent(g, final (self).patterns@)),
            res.is_ok() ==> forall|dd: int, i: int|
                0 <= dd < 9 && 0 <= i < 81 && (#[trigger] final (self).patterns@[dd].sp_has(i))
                    ==> old(self).patterns@[dd].sp_has(i),
            res.is_ok() ==> forall|k: int|
                0 <= k < old(self).work_queue@.len() ==> !entry_bit(
                    final (self).patterns@,
                    #[trigger] old(self).work_queue@[k],
                ),
            (forall|k: int|
                0 <= k < old(self).work_queue@.len() ==> !entry_bit(
                    old(self).patterns@,
                    #[trigger] old(self).work_queue@[k],
                )) ==> (res.is_ok() && final (self).patterns == old(self).patterns && final (
            self).cell_constraints == old(self).cell_constraints && final (self).row_constraints
                == old(self).row_constraints && final (self).col_constraints == old(
            self).col_constraints && final (self).box_constraints == old(self).box_constraints),
    {
        let ghost hyp = forall|k: int|
            0 <= k < old(self).work_queue@.len() ==> !entry_bit(
                old(self).patterns@,
                #[trigger] old(self).work_queue@[k],
            );
        while self.work_queue.len() > 0
            invariant
                old(self).inv(),
                self.inv(),
                self.cascades_pending(),
                forall|g: Seq<int>|
                    #[trigger] grid_ok(g) && consistent(g, old(self).patterns@) && (forall|k: int|
                        0 <= k < old(self).work_queue@.len() ==> g[9 * (#[trigger] old(
                            self,
                        ).work_queue@[k]).0 + old(self).work_queue@[k].1] != old(
                            self,
                        ).work_queue@[k].2) ==> (consistent(g, self.patterns@) && (forall|k: int|
                        0 <= k < self.work_queue@.len() ==> g[9 * (
                        #[trigger] self.work_queue@[k]).0 + self.work_queue@[k].1]
                            != self.work_queue@[k].2)),
                forall|dd: int, i: int|
                    0 <= dd < 9 && 0 <= i < 81 && (#[trigger] self.patterns@[dd].sp_has(i)) ==> old(
                        self,
                    ).patterns@[dd].sp_has(i),
                forall|k: int|
                    0 <= k < old(self).work_queue@.len() ==> (in_queue(
                        self.work_queue@,
                        #[trigger] old(self).work_queue@[k],
                    ) || !entry_bit(self.patterns@, old(self).work_queue@[k])),
                hyp == (forall|k: int|
                    0 <= k < old(self).work_queue@.len() ==> !entry_bit(
                        old(self).patterns@,
                        #[trigger] old(self).work_queue@[k],
                    )),
                hyp ==> (self.work_queue@.len() <= old(self).work_queue@.len()
                    && self.patterns == old(self).patterns && self.cell_constraints == old(
                    self,
                ).cell_constraints && self.row_constraints == old(self).row_constraints
                    && self.col_constraints == old(self).col_constraints && self.box_constraints
                    == old(self).box_constraints && self.work_queue@ == old(
                    self,
                ).work_queue@.subrange(0, self.work_queue@.len() as int)),
            decreases total_cnt(self.patterns@, 0), self.work_queue@.len(),
        {
            let ghost qpre = self.work_queue@;
            let ghost ppre = self.patterns@;
            let e = match self.work_queue.pop() {
                Some(e) => e,
                None => {
                    proof {
                        assert(false);
                    }
                    vstd::pervasive::unreached()
                },
            };
            proof {
                assert(qpre[qpre.len() - 1] == e);
                // The popped entry is the one elimination in flight.
                assert forall|r: int, c: int, d: int, r2: int, c2: int|
                    0 <= r < 9 && 0 <= c < 9 && 0 <= d < 9 && #[trigger] self.patterns@[d].sp_has(
                        9 * r + c,
                    ) && cell_cnt(self.patterns@, r, c) == 1 && #[trigger] peer(
                        r,
                        c,
                        r2,
                        c2,
                    ) implies (!self.patterns@[d].sp_has(9 * r2 + c2) || in_queue(
                    self.work_queue@,
                    (r2 as u8, c2 as u8, d as u8),
                ) || (r2 == e.0 as int && c2 == e.1 as int && d == e.2 as int)) by {
                    if in_queue(qpre, (r2 as u8, c2 as u8, d as u8)) {
                        lemma_in_queue_shrink(qpre, self.work_queue@, e, (r2 as u8, c2 as u8, d as u8));
                    }
                };
                assert forall|r: int, c: int, d: int, d2: int|
                    0 <= r < 9 && 0 <= c < 9 && 0 <= d < 9 && 0 <= d2 < 9 && d2 != d
                        && #[trigger] self.patterns@[d].sp_has(9 * r + c) && row_cnt(
                        self.patterns@[d],
                        r,
                    ) == 1 implies (!(#[trigger] self.patterns@[d2].sp_has(9 * r + c)) || in_queue(
                    self.work_queue@,
                    (r as u8, c as u8, d2 as u8),
                ) || (r == e.0 as int && c == e.1 as int && d2 == e.2 as int)) by {
                    if in_queue(qpre, (r as u8, c as u8, d2 as u8)) {
                        lemma_in_queue_shrink(qpre, self.work_queue@, e, (r as u8, c as u8, d2 as u8));
                    }
                };
                assert forall|r: int, c: int, d: int, d2: int|
                    0 <= r < 9 && 0 <= c < 9 && 0 <= d < 9 && 0 <= d2 < 9 && d2 != d
                        && #[trigger] self.patterns@[d].sp_has(9 * r + c) && col_cnt(
                        self.patterns@[d],
                        c,
                    ) == 1 implies (!(#[trigger] self.patterns@[d2].sp_has(9 * r + c)) || in_queue(
                    self.work_queue@,
                    (r as u8, c as u8, d2 as u8),
                ) || (r == e.0 as int && c == e.1 as int && d2 == e.2 as int)) by {
                    if in_queue(qpre, (r as u8, c as u8, d2 as u8)) {
                        lemma_in_queue_shrink(qpre, self.work_queue@, e, (r as u8, c as u8, d2 as u8));
                    }
                };
                assert forall|r: int, c: int, d: int, d2: int|
                    0 <= r < 9 && 0 <= c < 9 && 0 <= d < 9 && 0 <= d2 < 9 && d2 != d
                        && #[trigger] self.patterns@[d].sp_has(9 * r + c) && box_cnt(
                        self.patterns@[d],
                        box_of(r, c),
                    ) == 1 implies (!(#[trigger] self.patterns@[d2].sp_has(9 * r + c)) || in_queue(
                    self.work_queue@,
                    (r as u8, c as u8, d2 as u8),
                ) || (r == e.0 as int && c == e.1 as int && d2 == e.2 as int)) by {
                    if in_queue(qpre, (r as u8, c as u8, d2 as u8)) {
                        lemma_in_queue_shrink(qpre, self.work_queue@, e, (r as u8, c as u8, d2 as u8));
                    }
                };
                assert(self.cascades_pending_but(e.0 as int, e.1 as int, e.2 as int));
                if hyp {
                    assert(qpre == old(self).work_queue@.subrange(0, qpre.len() as int));
                    assert(old(self).work_queue@.subrange(0, qpre.len() as int)[qpre.len() - 1]
                        == old(self).work_queue@[qpre.len() - 1]);
                    assert(!entry_bit(old(self).patterns@, e));
                    assert(!ppre[e.2 as int].sp_has(9 * e.0 + e.1));
                }
            }
            match self.eliminate(e.0 as usize, e.1 as usize, e.2 as usize) {
                Err(_) => {
                    proof {
                        assert forall|g: Seq<int>|
                            !(#[trigger] grid_ok(g) && consistent(g, old(self).patterns@) && (
                            forall|k: int|
                                0 <= k < old(self).work_queue@.len() ==> g[9 * (#[trigger] old(
                                    self,
                                ).work_queue@[k]).0 + old(self).work_queue@[k].1] != old(
                                    self,
                                ).work_queue@[k].2)) by {
                            if grid_ok(g) && consistent(g, old(self).patterns@) && (forall|k: int|
                                0 <= k < old(self).work_queue@.len() ==> g[9 * (#[trigger] old(
                                    self,
                                ).work_queue@[k]).0 + old(self).work_queue@[k].1] != old(
                                    self,
                                ).work_queue@[k].2) {
                                assert(consistent(g, ppre));
                                assert(g[9 * qpre[qpre.len() - 1].0 + qpre[qpre.len() - 1].1]
                                    != qpre[qpre.len() - 1].2);
                                assert(false);
                            }
                        };
                    }
                    return Err(ImpossiblePuzzle);
                },
                Ok(_) => {},
            }
            proof {
                assert forall|g: Seq<int>|
                    #[trigger] grid_ok(g) && consistent(g, old(self).patterns@) && (forall|k: int|
                        0 <= k < old(self).work_queue@.len() ==> g[9 * (#[trigger] old(
                            self,
                        ).work_queue@[k]).0 + old(self).work_queue@[k].1] != old(
                            self,
                        ).work_queue@[k].2) implies (consistent(g, self.patterns@) && (
                forall|k: int|
                    0 <= k < self.work_queue@.len() ==> g[9 * (#[trigger] self.work_queue@[k]).0
                        + self.work_queue@[k].1] != self.work_queue@[k].2)) by {
                    assert(consistent(g, ppre));
                    assert(g[9 * qpre[qpre.len() - 1].0 + qpre[qpre.len() - 1].1] != qpre[qpre.len()
                        - 1].2);
                    assert(consistent(g, self.patterns@));
                    assert forall|k: int|
                        0 <= k < self.work_queue@.len() implies g[9 * (
                    #[trigger] self.work_queue@[k]).0 + self.work_queue@[k].1]
                        != self.work_queue@[k].2 by {
                        if k < qpre.len() - 1 {
                            assert(self.work_queue@[k] == qpre[k]);
                        }
                    };
                };
                assert forall|k: int| 0 <= k < old(self).work_queue@.len() implies (in_queue(
                    self.work_queue@,
                    #[trigger] old(self).work_queue@[k],
                ) || !entry_bit(self.patterns@, old(self).work_queue@[k])) by {
                    let x = old(self).work_queue@[k];
                    if in_queue(qpre, x) {
                        let k2 = choose|k2: int| 0 <= k2 < qpre.len() && qpre[k2] == x;
                        if k2 < qpre.len() - 1 {
                            assert(self.work_queue@[k2] == x);
                            assert(in_queue(self.work_queue@, x));
                        } else {
                            assert(x == e);
                            assert(!entry_bit(self.patterns@, x));
                        }
                    } else {
                        assert(!entry_bit(ppre, x));
                        assert(x.0 < 9 && x.1 < 9 && x.2 < 9);
                        if entry_bit(self.patterns@, x) {
                            assert(self.patterns@[x.2 as int].sp_has(9 * x.0 + x.1));
                            assert(ppre[x.2 as int].sp_has(9 * x.0 + x.1));
                            assert(false);
                        }
                    }
                };
                if hyp {
                    assert(self.work_queue@ =~= old(self).work_queue@.subrange(
                        0,
                        self.work_queue@.len() as int,
                    ));
                }
            }
        }
        proof {
            assert forall|r: int, c: int, d: int, r2: int, c2: int|
                0 <= r < 9 && 0 <= c < 9 && 0 <= d < 9 && #[trigger] self.patterns@[d].sp_has(
                    9 * r + c,
                ) && cell_cnt(self.patterns@, r, c) == 1 && #[trigger] peer(
                    r,
                    c,
                    r2,
                    c2,
                ) implies !self.patterns@[d].sp_has(9 * r2 + c2) by {
                assert(!in_queue(self.work_queue@, (r2 as u8, c2 as u8, d as u8)));
            };
            assert forall|r: int, c: int, d: int, d2: int|
                0 <= r < 9 && 0 <= c < 9 && 0 <= d < 9 && 0 <= d2 < 9 && d2 != d
                    && #[trigger] self.patterns@[d].sp_has(9 * r + c) && row_cnt(
                    self.patterns@[d],
                    r,
                ) == 1 implies !(#[trigger] self.patterns@[d2].sp_has(9 * r + c)) by {
                assert(!in_queue(self.work_queue@, (r as u8, c as u8, d2 as u8)));
            };
            assert forall|r: int, c: int, d: int, d2: int|
                0 <= r < 9 && 0 <= c < 9 && 0 <= d < 9 && 0 <= d2 < 9 && d2 != d
                    && #[trigger] self.patterns@[d].sp_has(9 * r + c) && col_cnt(
                    self.patterns@[d],
                    c,
                ) == 1 implies !(#[trigger] self.patterns@[d2].sp_has(9 * r + c)) by {
                assert(!in_queue(self.work_queue@, (r as u8, c as u8, d2 as u8)));
            };
            assert forall|r: int, c: int, d: int, d2: int|
                0 <= r < 9 && 0 <= c < 9 && 0 <= d < 9 && 0 <= d2 < 9 && d2 != d
                    && #[trigger] self.patterns@[d].sp_has(9 * r + c) && box_cnt(
                    self.patterns@[d],
                    box_of(r, c),
                ) == 1 implies !(#[trigger] self.patterns@[d2].sp_has(9 * r + c)) by {
                assert(!in_queue(self.work_queue@, (r as u8, c as u8, d2 as u8)));
            };
        }
        Ok(())
    }

    /// Commit a clue: queue the elimination of every other digit from the
    /// cell, then propagate to a fixed point. On success the cell holds
    /// exactly the given digit; setting an already-forced cell again changes
    /// nothing. After a failure the engine must be discarded.
    pub fn set(&mut self, row: u8, col: u8, digit: u8) -> (res: Result<(), ImpossiblePuzzle>)
        requires
            old(self).inv(),
            old(self).cascades_done(),
            old(self).work_queue@.len() == 0,
            row < 9,
            col < 9,
            1 <= digit,
        ensures
            res.is_ok() ==> final (self).inv() && final (self).work_queue@.len() == 0,
            res.is_ok() ==> final (self).cascades_done(),
            res.is_ok() ==> forall|g: Seq<int>|
                #[trigger] grid_ok(g) && consistent(g, old(self).patterns@) && g[9 * row + col]
                    == digit - 1 ==> consistent(g, final (self).patterns@),
            res.is_err() ==> forall|g: Seq<int>|
                !(#[trigger] grid_ok(g) && consistent(g, old(self).patterns@) && g[9 * row + col]
                    == digit - 1),
            res.is_ok() ==> forall|dd: int, i: int|
                0 <= dd < 9 && 0 <= i < 81 && (#[trigger] final (self).patterns@[dd].sp_has(i))
                    ==> old(self).patterns@[dd].sp_has(i),
            res.is_ok() ==> digit <= 9,
            res.is_ok() ==> forall|dd: int|
                0 <= dd < 9 && dd != digit - 1 ==> !(#[trigger] final (self).patterns@[dd].sp_has(
                    9 * row + col,
                )),
            res.is_ok() ==> final (self).patterns@[digit - 1].sp_has(9 * row + col),
            (digit <= 9 && forall|dd: int|
                0 <= dd < 9 && dd != digit - 1 ==> !(#[trigger] old(self).patterns@[dd].sp_has(
                    9 * row + col,
                ))) ==> (res.is_ok() && final (self).patterns == old(self).patterns && final (
            self).cell_constraints == old(self).cell_constraints && final (self).row_constraints
                == old(self).row_constraints && final (self).col_constraints == old(
            self).col_constraints && final (self).box_constraints == old(self).box_constraints),
    {
        let dg = (digit - 1) as usize;
        self.enqueue_others(row as usize, col as usize, dg);
        proof {
            // Nothing was pending before, and the patterns are unchanged.
            assert(self.patterns@ == old(self).patterns@);
            assert(self.cascades_pending());
        }
        let ghost mid = *self;
        let res = self.work();
        proof {
            assert forall|g: Seq<int>|
                #[trigger] grid_ok(g) && consistent(g, old(self).patterns@) && g[9 * (row as int)
                    + (col as int)] == digit - 1 implies (res.is_ok() && consistent(
                g,
                self.patterns@,
            )) by {
                assert(mid.patterns@ == old(self).patterns@);
                assert(consistent(g, mid.patterns@));
                assert forall|k: int|
                    0 <= k < mid.work_queue@.len() implies g[9 * (#[trigger] mid.work_queue@[k]).0
                        + mid.work_queue@[k].1] != mid.work_queue@[k].2 by {
                    assert(mid.work_queue@[k].0 == row && mid.work_queue@[k].1 == col
                        && mid.work_queue@[k].2 != dg && mid.work_queue@[k].2 < 9);
                };
            };
            if res.is_ok() {
                assert forall|dd: int|
                    0 <= dd < 9 && dd != digit - 1 implies !(#[trigger] self.patterns@[dd].sp_has(
                    9 * (row as int) + (col as int))) by {
                    let k: int = if dd < dg { dd } else { dd - 1 };
                    assert(mid.work_queue@[k].0 == row && mid.work_queue@[k].1 == col
                        && mid.work_queue@[k].2 == dd);
                    assert(!entry_bit(self.patterns@, mid.work_queue@[k]));
                };
                if digit > 9 {
                    lemma_count_zero(
                        |dd: int| self.patterns@[dd].sp_has(9 * (row as int) + (col as int)),
                        0,
                        9,
                    );
                    assert(cell_cnt(self.patterns@, row as int, col as int) >= 1);
                    assert(false);
                }
                if !self.patterns@[digit - 1].sp_has(9 * (row as int) + (col as int)) {
                    lemma_count_zero(
                        |dd: int| self.patterns@[dd].sp_has(9 * (row as int) + (col as int)),
                        0,
                        9,
                    );
                    assert(cell_cnt(self.patterns@, row as int, col as int) >= 1);
                    assert(false);
                }
            }
            if digit <= 9 && forall|dd: int|
                0 <= dd < 9 && dd != digit - 1 ==> !(#[trigger] old(self).patterns@[dd].sp_has(
                    9 * (row as int) + (col as int),
                )) {
                assert forall|k: int| 0 <= k < mid.work_queue@.len() implies !entry_bit(
                    mid.patterns@,
                    #[trigger] mid.work_queue@[k],
                ) by {
                    let e = mid.work_queue@[k];
                    assert(e.0 == row && e.1 == col && e.2 < 9 && e.2 != dg);
                    assert(!old(self).patterns@[e.2 as int].sp_has(9 * (row as int) + (
                    col as int)));
                };
            }
        }
        res
    }
}

/// `t` is the index of the one catalog entry fitting inside `p`.
pub open spec fn unique_fit(cat: Catalog, p: Pattern, t: int) -> bool {
    &&& 0 <= t < cat.list@.len()
    &&& cat.list@[t].sp_subset(p)
    &&& forall|t2: int|
        0 <= t2 < cat.list@.len() && (#[trigger] cat.list@[t2]).sp_subset(p) ==> t2 == t
}

impl Possibilities {
    /// If exactly one template fits each digit's candidate pattern and the
    /// nine together are pairwise disjoint, return that solution; otherwise
    /// return nothing.
    pub fn unique(&self, all: &Catalog) -> (res: Option<Solution>)
        requires
            all.wf(),
        ensures
            match res {
                Some(s) => {
                    &&& s.sp_wf(*all)
                    &&& s.sp_pairwise_disjoint(*all)
                    &&& forall|d: int|
                        0 <= d < 9 ==> unique_fit(
                            *all,
                            self.patterns@[d],
                            #[trigger] s.0@[d].0 as int,
                        )
                },
                None => forall|s: Solution|
                    !((forall|d: int|
                        0 <= d < 9 ==> unique_fit(
                            *all,
                            self.patterns@[d],
                            #[trigger] s.0@[d].0 as int,
                        )) && s.sp_pairwise_disjoint(*all)),
            },
    {
        let mut sol = Solution([Template(0);9]);
        for d in 0..9usize
            invariant
                all.wf(),
                forall|dd: int|
                    0 <= dd < d ==> unique_fit(
                        *all,
                        self.patterns@[dd],
                        #[trigger] sol.0@[dd].0 as int,
                    ),
        {
            let v = Template::within(all, self.patterns[d]);
            if v.len() != 1 {
                proof {
                    assert forall|s: Solution|
                        !((forall|dd: int|
                            0 <= dd < 9 ==> unique_fit(
                                *all,
                                self.patterns@[dd],
                                #[trigger] s.0@[dd].0 as int,
                            )) && s.sp_pairwise_disjoint(*all)) by {
                        if forall|dd: int|
                            0 <= dd < 9 ==> unique_fit(
                                *all,
                                self.patterns@[dd],
                                #[trigger] s.0@[dd].0 as int,
                            ) {
                            assert(unique_fit(*all, self.patterns@[d as int], s.0@[d as int].0 as int));
                            if v@.len() == 0 {
                                // the fitting entry would have been collected
                                assert(exists|j: int|
                                    0 <= j < v@.len() && (#[trigger] v@[j].0) == s.0@[
                                    d as int].0 as int);
                                assert(false);
                            } else {
                                // two collected entries both fit, but only one index can
                                assert(v@[0].0 < v@[1].0);
                                assert(all.list@[v@[0].0 as int].sp_subset(
                                    self.patterns@[d as int],
                                ));
                                assert(all.list@[v@[1].0 as int].sp_subset(
                                    self.patterns@[d as int],
                                ));
                                assert(false);
                            }
                        }
                    };
                }
                return None;
            }
            sol.0[d] = v[0];
            proof {
                assert(sol.0@[d as int].0 == v@[0].0);
                assert forall|t2: int|
                    0 <= t2 < all.list@.len() && (#[trigger] all.list@[t2]).sp_subset(
                        self.patterns@[d as int],
                    ) implies t2 == sol.0@[d as int].0 as int by {
                    let j = choose|j: int| 0 <= j < v@.len() && (#[trigger] v@[j].0) == t2;
                    assert(j == 0);
                };
                assert(unique_fit(*all, self.patterns@[d as int], sol.0@[d as int].0 as int));
            }
        }
        proof {
            assert forall|dd: int| 0 <= dd < 9 implies (#[trigger] sol.0@[dd]).0
                < all.list@.len() by {
                assert(unique_fit(*all, self.patterns@[dd], sol.0@[dd].0 as int));
            };
            assert(sol.sp_wf(*all));
        }
        if sol.is_valid(all) {
            proof {
                assert forall|dd: int| 0 <= dd < 9 implies unique_fit(
                    *all,
                    self.patterns@[dd],
                    #[trigger] sol.0@[dd].0 as int,
                ) by {}
            }
            Some(sol)
        } else {
            proof {
                assert forall|s: Solution|
                    !((forall|dd: int|
                        0 <= dd < 9 ==> unique_fit(
                            *all,
                            self.patterns@[dd],
                            #[trigger] s.0@[dd].0 as int,
                        )) && s.sp_pairwise_disjoint(*all)) by {
                    if (forall|dd: int|
                        0 <= dd < 9 ==> unique_fit(
                            *all,
                            self.patterns@[dd],
                            #[trigger] s.0@[dd].0 as int,
                        )) && s.sp_pairwise_disjoint(*all) {
                        assert forall|dd: int| 0 <= dd < 9 implies (#[trigger] s.0@[dd]).0
                            == sol.0@[dd].0 by {
                            assert(unique_fit(*all, self.patterns@[dd], s.0@[dd].0 as int));
                            assert(unique_fit(*all, self.patterns@[dd], sol.0@[dd].0 as int));
                        };
                        assert forall|d1: int, d2: int| 0 <= d1 < d2 < 9 implies (
                        #[trigger] sol.sp_pat(*all, d1)).sp_disjoint(
                            #[trigger] sol.sp_pat(*all, d2),
                        ) by {
                            assert(s.sp_pat(*all, d1).sp_disjoint(s.sp_pat(*all, d2)));
                            assert(s.sp_pat(*all, d1) == sol.sp_pat(*all, d1));
                            assert(s.sp_pat(*all, d2) == sol.sp_pat(*all, d2));
                        };
                        assert(sol.sp_pairwise_disjoint(*all));
                        assert(false);
                    }
                };
            }
            None
        }
    }
}

} // verus!
