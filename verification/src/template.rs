//! The catalog of all legal single-digit layouts, compact template
//! identifiers into it, and full solutions built from nine templates.

use vstd::prelude::*;

use crate::counting::count;
use crate::counting::lemma_count_agree;
use crate::counting::lemma_count_all_at;
use crate::counting::lemma_count_disjoint_union;
use crate::counting::lemma_count_drop;
use crate::counting::lemma_count_pos;
use crate::counting::lemma_count_zero;
use crate::pattern::box_cnt;
use crate::pattern::box_of;
use crate::pattern::col_cnt;
use crate::pattern::legal;
use crate::pattern::lemma_box_correspondence;
use crate::pattern::row_cnt;
use crate::pattern::Pattern;

verus! {

/// Identifier of one legal single-digit layout: an index into the catalog.
#[derive(Clone, Copy, Debug, Eq, Hash, PartialEq, Structural)]
pub struct Template(pub usize);

/// The list of all legal single-digit layouts, in generation order.
pub struct Catalog {
    pub list: Vec<Pattern>,
}

/// Full solution to a Sudoku puzzle: one [`Template`] per digit.
#[derive(Clone, Copy, Debug)]
pub struct Solution(pub [Template; 9]);

/// Does bit `j` of the 9-bit usage mask `m` hold?
pub open spec fn u16_bit(m: u16, j: u16) -> bool {
    (m >> j) & 1 == 1
}

/// Number of set bits among the low 9 bits of `m`.
pub open spec fn mask_cnt(m: u16) -> nat {
    count(|j: int| 0 <= j < 9 && u16_bit(m, j as u16), 0, 9)
}

/// Layouts the row-by-row generator finds from a state where each row below
/// `row` holds one cell and `cols` / `boxes` are the used columns and boxes.
pub open spec fn num_fill(cols: u16, boxes: u16, row: int) -> nat
    decreases 9 - row, 10int,
{
    if row >= 9 {
        1
    } else {
        num_fill_row(cols, boxes, row, 0)
    }
}

/// Layouts from the same state whose cell in `row` has column `c` or later.
pub open spec fn num_fill_row(cols: u16, boxes: u16, row: int, c: int) -> nat
    decreases 9 - row, 9 - c,
{
    if row < 0 || row >= 9 || c >= 9 {
        0
    } else {
        (if !u16_bit(cols, c as u16) && !u16_bit(boxes, box_of(row, c) as u16) {
            num_fill(
                cols | (1u16 << (c as u16)),
                boxes | (1u16 << (box_of(row, c) as u16)),
                row + 1,
            )
        } else {
            0
        }) + num_fill_row(cols, boxes, row, c + 1)
    }
}

proof fn bv_mask_set(m: u16, k: u16)
    by (bit_vector)
    requires
        k < 9,
    ensures
        forall|j: u16| j < 9 ==> #[trigger] u16_bit(m | (1u16 << k), j) == (u16_bit(m, j) || j == k),
{
}

proof fn bv_mask_zero()
    by (bit_vector)
    ensures
        forall|j: u16| !(#[trigger] u16_bit(0u16, j)),
{
}

proof fn bv_mask_test(m: u16, j: u16)
    by (bit_vector)
    ensures
        ((m >> j) & 1 == 0) == !u16_bit(m, j),
{
}

/// The generator's partial state is consistent: `build` holds one cell in each
/// finished row and none later, and the masks track its columns and boxes.
spec fn fill_state(build: Pattern, cols: u16, boxes: u16, row: int) -> bool {
    &&& build.wf()
    &&& forall|r: int| 0 <= r < row ==> row_cnt(build, r) == 1
    &&& forall|r: int| row <= r < 9 ==> row_cnt(build, r) == 0
    &&& forall|c: int|
        0 <= c < 9 ==> col_cnt(build, c) == (if u16_bit(cols, c as u16) {
            1nat
        } else {
            0nat
        })
    &&& forall|b: int|
        0 <= b < 9 ==> box_cnt(build, b) == (if u16_bit(boxes, b as u16) {
            1nat
        } else {
            0nat
        })
    &&& mask_cnt(cols) == row
    &&& mask_cnt(boxes) == row
}

/// Extending a consistent state with a free cell in `row` keeps it consistent.
proof fn lemma_extend(build: Pattern, b2: Pattern, cols: u16, boxes: u16, row: int, col: int)
    requires
        0 <= row < 9,
        0 <= col < 9,
        fill_state(build, cols, boxes, row),
        !u16_bit(cols, col as u16),
        !u16_bit(boxes, box_of(row, col) as u16),
        forall|i: int| 0 <= i < 81 ==> #[trigger] b2.sp_has(i) == (build.sp_has(i) || i == 9 * row + col),
        b2.wf(),
    ensures
        fill_state(
            b2,
            cols | (1u16 << (col as u16)),
            boxes | (1u16 << (box_of(row, col) as u16)),
            row + 1,
        ),
{
    let cell = 9 * row + col;
    let bi = box_of(row, col);
    let slot = 3 * (row % 3) + col % 3;
    lemma_box_correspondence(row, col);
    bv_mask_set(cols, col as u16);
    bv_mask_set(boxes, bi as u16);
    let cols2 = cols | (1u16 << (col as u16));
    let boxes2 = boxes | (1u16 << (bi as u16));

    // The old row `row` is empty, so in particular `build` lacks the new cell.
    assert(row_cnt(build, row) == 0);
    assert(!build.sp_has(cell)) by {
        if build.sp_has(cell) {
            lemma_count_pos(|c: int| build.sp_has(9 * row + c), 0, 9, col);
        }
    }

    // Row counts: untouched rows keep their count, row `row` gains one cell.
    assert forall|r: int| 0 <= r < 9 && r != row implies row_cnt(b2, r) == row_cnt(build, r) by {
        assert forall|c: int| 0 <= c < 9 implies #[trigger] b2.sp_has(9 * r + c) == build.sp_has(
            9 * r + c,
        ) by {
            assert(9 * r + c != cell);
        };
        lemma_count_agree(|c: int| b2.sp_has(9 * r + c), |c: int| build.sp_has(9 * r + c), 0, 9);
    };
    lemma_count_drop(|c: int| b2.sp_has(9 * row + c), |c: int| build.sp_has(9 * row + c), col, 0, 9);
    assert(row_cnt(b2, row) == 1);

    // Column counts follow the new column mask.
    assert forall|c: int| 0 <= c < 9 && c != col implies col_cnt(b2, c) == col_cnt(build, c) by {
        assert forall|r: int| 0 <= r < 9 implies #[trigger] b2.sp_has(9 * r + c) == build.sp_has(
            9 * r + c,
        ) by {
            assert(9 * r + c != cell);
        };
        lemma_count_agree(|r: int| b2.sp_has(9 * r + c), |r: int| build.sp_has(9 * r + c), 0, 9);
    };
    assert(col_cnt(build, col) == 0);
    lemma_count_drop(|r: int| b2.sp_has(9 * r + col), |r: int| build.sp_has(9 * r + col), row, 0, 9);
    assert(col_cnt(b2, col) == 1);
    assert forall|c: int| 0 <= c < 9 implies col_cnt(b2, c) == (if u16_bit(cols2, c as u16) {
        1nat
    } else {
        0nat
    }) by {
        assert(u16_bit(cols2, c as u16) == (u16_bit(cols, c as u16) || c == col));
    };

    // Box counts follow the new box mask.
    assert forall|b: int| 0 <= b < 9 && b != bi implies box_cnt(b2, b) == box_cnt(build, b) by {
        assert forall|k: int| 0 <= k < 9 implies #[trigger] b2.sp_has(crate::pattern::box_cell(b, k))
            == build.sp_has(crate::pattern::box_cell(b, k)) by {
            assert(crate::pattern::box_cell(b, k) != cell);
        };
        lemma_count_agree(
            |k: int| b2.sp_has(crate::pattern::box_cell(b, k)),
            |k: int| build.sp_has(crate::pattern::box_cell(b, k)),
            0,
            9,
        );
    };
    assert(crate::pattern::box_cell(bi, slot) == cell);
    assert forall|k: int| 0 <= k < 9 && k != slot implies #[trigger] b2.sp_has(
        crate::pattern::box_cell(bi, k),
    ) == build.sp_has(crate::pattern::box_cell(bi, k)) by {
        assert(crate::pattern::box_cell(bi, k) != cell);
    };
    assert(box_cnt(build, bi) == 0);
    lemma_count_drop(
        |k: int| b2.sp_has(crate::pattern::box_cell(bi, k)),
        |k: int| build.sp_has(crate::pattern::box_cell(bi, k)),
        slot,
        0,
        9,
    );
    assert(box_cnt(b2, bi) == 1);
    assert forall|b: int| 0 <= b < 9 implies box_cnt(b2, b) == (if u16_bit(boxes2, b as u16) {
        1nat
    } else {
        0nat
    }) by {
        assert(u16_bit(boxes2, b as u16) == (u16_bit(boxes, b as u16) || b == bi));
    };

    // Mask cardinalities each rise by one.
    lemma_count_drop(
        |j: int| 0 <= j < 9 && u16_bit(cols2, j as u16),
        |j: int| 0 <= j < 9 && u16_bit(cols, j as u16),
        col,
        0,
        9,
    );
    lemma_count_drop(
        |j: int| 0 <= j < 9 && u16_bit(boxes2, j as u16),
        |j: int| 0 <= j < 9 && u16_bit(boxes, j as u16),
        bi,
        0,
        9,
    );
}

/// Row-by-row depth-first generation: choose a free column in a free box for
/// `row`, recurse; a full pattern is recorded at the last row.
fn fill(build: Pattern, cols: u16, boxes: u16, row: usize, into: &mut Vec<Pattern>)
    requires
        row <= 9,
        fill_state(build, cols, boxes, row as int),
    ensures
        final (into)@.len() == old(into)@.len() + num_fill(cols, boxes, row as int),
        final (into)@.subrange(0, old(into)@.len() as int) == old(into)@,
        forall|j: int|
            old(into)@.len() <= j < final (into)@.len() ==> legal(#[trigger] final (into)@[j]),
        forall|j: int, i: int|
            old(into)@.len() <= j < final (into)@.len() && 0 <= i < 9 * row
                ==> (#[trigger] final (into)@[j].sp_has(i) == build.sp_has(i)),
        forall|j1: int, j2: int|
            old(into)@.len() <= j1 < j2 < final (into)@.len()
                ==> final (into)@[j1] != final (into)@[j2],
    decreases 9 - row,
{
    if row == 9 {
        proof {
            assert(mask_cnt(cols) == 9);
            assert(mask_cnt(boxes) == 9);
            assert forall|c: int| 0 <= c < 9 implies col_cnt(build, c) == 1 by {
                lemma_count_all_at(|j: int| 0 <= j < 9 && u16_bit(cols, j as u16), 0, 9, c);
            };
            assert forall|b: int| 0 <= b < 9 implies box_cnt(build, b) == 1 by {
                lemma_count_all_at(|j: int| 0 <= j < 9 && u16_bit(boxes, j as u16), 0, 9, b);
            };
            assert(legal(build));
        }
        into.push(build);
        proof {
            assert(final (into)@.subrange(0, old(into)@.len() as int) =~= old(into)@);
        }
        return ;
    }
    let ghost pre = into@;
    for col in 0..9usize
        invariant
            row < 9,
            fill_state(build, cols, boxes, row as int),
            into@.len() + num_fill_row(cols, boxes, row as int, col as int) == pre.len()
                + num_fill_row(cols, boxes, row as int, 0),
            into@.len() >= pre.len(),
            into@.subrange(0, pre.len() as int) == pre,
            forall|j: int| pre.len() <= j < into@.len() ==> legal(#[trigger] into@[j]),
            forall|j: int, i: int|
                pre.len() <= j < into@.len() && 0 <= i < 9 * row ==> (#[trigger] into@[j].sp_has(i)
                    == build.sp_has(i)),
            forall|j: int, cc: int|
                pre.len() <= j < into@.len() && col <= cc < 9 ==> !(#[trigger] into@[j].sp_has(
                    9 * (row as int) + cc,
                )),
            forall|j1: int, j2: int|
                pre.len() <= j1 < j2 < into@.len() ==> into@[j1] != into@[j2],
    {
        let box_idx = row / 3 * 3 + col / 3;
        proof {
            bv_mask_test(cols, col as u16);
            bv_mask_test(boxes, box_idx as u16);
            assert(box_idx == box_of(row as int, col as int));
        }
        let col_free = (cols >> (col as u16)) & 1 == 0;
        let box_free = (boxes >> (box_idx as u16)) & 1 == 0;
        let ghost before = into@;
        if col_free && box_free {
            let b2 = build.with(row, col);
            proof {
                lemma_extend(build, b2, cols, boxes, row as int, col as int);
            }
            fill(
                b2,
                cols | (1u16 << (col as u16)),
                boxes | (1u16 << (box_idx as u16)),
                row + 1,
                into,
            );
            proof {
                assert(row_cnt(build, row as int) == 0);
                assert forall|cc: int| 0 <= cc < 9 implies !(#[trigger] build.sp_has(
                    9 * (row as int) + cc,
                )) by {
                    if build.sp_has(9 * (row as int) + cc) {
                        lemma_count_pos(|c: int| build.sp_has(9 * (row as int) + c), 0, 9, cc);
                    }
                };
                assert(into@.subrange(0, pre.len() as int) =~= pre);
                assert forall|j: int| pre.len() <= j < before.len() implies into@[j]
                    == before[j] by {
                    assert(into@.subrange(0, before.len() as int)[j] == before[j]);
                };
                assert forall|j: int| pre.len() <= j < into@.len() implies legal(
                    #[trigger] into@[j],
                ) by {
                    if j < before.len() {
                        assert(into@[j] == before[j]);
                    }
                };
                // Entries of this branch carry the branch column in `row`;
                // earlier entries do not, so all entries stay distinct.
                assert forall|j: int, i: int|
                    pre.len() <= j < into@.len() && 0 <= i < 9 * (row as int) implies (
                #[trigger] into@[j].sp_has(i) == build.sp_has(i)) by {
                    if j >= before.len() {
                        assert(into@[j].sp_has(i) == b2.sp_has(i));
                        assert(i != 9 * (row as int) + col as int);
                    } else {
                        assert(into@[j] == before[j]);
                        assert(before[j].sp_has(i) == build.sp_has(i));
                    }
                };
                assert forall|j: int, cc: int|
                    pre.len() <= j < into@.len() && col + 1 <= cc < 9 implies !(
                #[trigger] into@[j].sp_has(9 * (row as int) + cc)) by {
                    if j >= before.len() {
                        assert(into@[j].sp_has(9 * (row as int) + cc) == b2.sp_has(
                            9 * (row as int) + cc,
                        ));
                    } else {
                        assert(into@[j] == before[j]);
                        assert(!before[j].sp_has(9 * (row as int) + cc));
                    }
                };
                assert forall|j1: int, j2: int|
                    pre.len() <= j1 < j2 < into@.len() implies into@[j1] != into@[j2] by {
                    if j2 < before.len() {
                        assert(into@[j1] == before[j1]);
                        assert(into@[j2] == before[j2]);
                    } else if j1 < before.len() && j2 >= before.len() {
                        assert(into@[j1] == before[j1]);
                        assert(into@[j2].sp_has(9 * (row as int) + col) == b2.sp_has(
                            9 * (row as int) + col,
                        ));
                        assert(!into@[j1].sp_has(9 * (row as int) + col));
                        assert(into@[j2].sp_has(9 * (row as int) + col));
                    }
                };
            }
        }
        proof {
            assert(num_fill_row(cols, boxes, row as int, col as int) == (if !u16_bit(
                cols,
                col as u16,
            ) && !u16_bit(boxes, box_of(row as int, col as int) as u16) {
                num_fill(
                    cols | (1u16 << (col as u16)),
                    boxes | (1u16 << (box_of(row as int, col as int) as u16)),
                    row as int + 1,
                )
            } else {
                0nat
            }) + num_fill_row(cols, boxes, row as int, col as int + 1));
        }
    }
    proof {
        assert(num_fill_row(cols, boxes, row as int, 9) == 0);
        assert(num_fill(cols, boxes, row as int) == num_fill_row(cols, boxes, row as int, 0));
    }
}

impl Catalog {
    /// Every entry is a legal layout, no entry repeats, and the length is
    /// exactly what the generator counts.
    pub open spec fn wf(self) -> bool {
        &&& forall|j: int| 0 <= j < self.list@.len() ==> legal(#[trigger] self.list@[j])
        &&& forall|j1: int, j2: int|
            0 <= j1 < j2 < self.list@.len() ==> self.list@[j1] != self.list@[j2]
        &&& self.list@.len() == num_fill(0u16, 0u16, 0)
    }

    /// Number of catalog entries.
    pub fn len(&self) -> (n: usize)
        ensures
            n == self.list@.len(),
    {
        self.list.len()
    }
}

impl Template {
    /// The catalog of all legal single-digit layouts, freshly computed.
    pub fn all() -> (cat: Catalog)
        ensures
            cat.wf(),
    {
        let mut list: Vec<Pattern> = Vec::new();
        let e = Pattern::empty();
        proof {
            bv_mask_zero();
            assert forall|r: int| 0 <= r < 9 implies row_cnt(e, r) == 0 by {
                lemma_count_zero(|c: int| e.sp_has(9 * r + c), 0, 9);
            };
            assert forall|c: int| 0 <= c < 9 implies col_cnt(e, c) == 0 by {
                lemma_count_zero(|r: int| e.sp_has(9 * r + c), 0, 9);
            };
            assert forall|b: int| 0 <= b < 9 implies box_cnt(e, b) == 0 by {
                lemma_count_zero(|k: int| e.sp_has(crate::pattern::box_cell(b, k)), 0, 9);
            };
            lemma_count_zero(|j: int| 0 <= j < 9 && u16_bit(0u16, j as u16), 0, 9);
            assert(fill_state(e, 0u16, 0u16, 0));
        }
        fill(e, 0, 0, 0, &mut list);
        Catalog { list }
    }

    /// Expand the identifier back to its full pattern by catalog lookup.
    pub fn as_pattern(self, all: &Catalog) -> (p: Pattern)
        requires
            self.0 < all.list@.len(),
        ensures
            p == all.list@[self.0 as int],
    {
        all.list[self.0]
    }

    /// The templates whose patterns are subsets of `possible`, in catalog
    /// order, each exactly once.
    pub fn within(all: &Catalog, possible: Pattern) -> (r: Vec<Template>)
        requires
            all.wf(),
        ensures
            forall|j: int| 0 <= j < r@.len() ==> (#[trigger] r@[j].0) < all.list@.len(),
            forall|j1: int, j2: int| 0 <= j1 < j2 < r@.len() ==> r@[j1].0 < r@[j2].0,
            forall|j: int|
                0 <= j < r@.len() ==> (#[trigger] all.list@[r@[j].0 as int]).sp_subset(possible),
            forall|t: int|
                0 <= t < all.list@.len() && (#[trigger] all.list@[t]).sp_subset(possible)
                    ==> exists|j: int| 0 <= j < r@.len() && (#[trigger] r@[j].0) == t,
    {
        let mut r: Vec<Template> = Vec::new();
        let n = all.list.len();
        for i in 0..n
            invariant
                n == all.list@.len(),
                all.wf(),
                forall|j: int| 0 <= j < r@.len() ==> (#[trigger] r@[j].0) < i,
                forall|j1: int, j2: int| 0 <= j1 < j2 < r@.len() ==> r@[j1].0 < r@[j2].0,
                forall|j: int|
                    0 <= j < r@.len() ==> (#[trigger] all.list@[r@[j].0 as int]).sp_subset(
                        possible,
                    ),
                forall|t: int|
                    0 <= t < i && (#[trigger] all.list@[t]).sp_subset(possible) ==> exists|j: int|
                        0 <= j < r@.len() && (#[trigger] r@[j].0) == t,
        {
            let ghost rprev = r@;
            if all.list[i].is_subset(possible) {
                r.push(Template(i));
                proof {
                    assert(r@[rprev.len() as int].0 == i as int);
                    assert forall|j: int| 0 <= j < rprev.len() implies r@[j] == rprev[j] by {};
                }
            }
        }
        r
    }
}

impl Default for Solution {
    /// All nine digits start on the first catalog template.
    fn default() -> (s: Solution)
        ensures
            forall|d: int| 0 <= d < 9 ==> (#[trigger] s.0@[d]).0 == 0,
    {
        Solution([Template(0);9])
    }
}

impl Solution {
    /// The pattern of digit `d`'s template.
    pub open spec fn sp_pat(self, cat: Catalog, d: int) -> Pattern {
        cat.list@[self.0@[d].0 as int]
    }

    /// Every template indexes into the catalog.
    pub open spec fn sp_wf(self, cat: Catalog) -> bool {
        forall|d: int| 0 <= d < 9 ==> (#[trigger] self.0@[d]).0 < cat.list@.len()
    }

    /// The nine digit patterns share no cell.
    pub open spec fn sp_pairwise_disjoint(self, cat: Catalog) -> bool {
        forall|d1: int, d2: int|
            0 <= d1 < d2 < 9 ==> (#[trigger] self.sp_pat(cat, d1)).sp_disjoint(
                #[trigger] self.sp_pat(cat, d2),
            )
    }

    /// Some digit's pattern holds cell `i`.
    pub open spec fn sp_covers(self, cat: Catalog, i: int) -> bool {
        exists|d: int| 0 <= d < 9 && (#[trigger] self.sp_pat(cat, d)).sp_has(i)
    }

    /// Are the digit patterns nonoverlapping?
    pub fn is_valid(&self, all: &Catalog) -> (r: bool)
        requires
            all.wf(),
            self.sp_wf(*all),
        ensures
            r == self.sp_pairwise_disjoint(*all),
    {
        let mut filled = Pattern::empty();
        for d in 0..9usize
            invariant
                all.wf(),
                self.sp_wf(*all),
                filled.wf(),
                forall|i: int|
                    0 <= i < 81 ==> (#[trigger] filled.sp_has(i) == exists|dd: int|
                        0 <= dd < d && (#[trigger] self.sp_pat(*all, dd)).sp_has(i)),
                forall|d1: int, d2: int|
                    0 <= d1 < d2 < d ==> (#[trigger] self.sp_pat(*all, d1)).sp_disjoint(
                        #[trigger] self.sp_pat(*all, d2),
                    ),
        {
            let p = self.0[d].as_pattern(all);
            if p.intersects(filled) {
                proof {
                    let i = choose|i: int| 0 <= i < 81 && p.sp_has(i) && filled.sp_has(i);
                    let dd = choose|dd: int|
                        0 <= dd < d && (#[trigger] self.sp_pat(*all, dd)).sp_has(i);
                    assert(!self.sp_pat(*all, dd).sp_disjoint(self.sp_pat(*all, d as int)));
                }
                return false;
            }
            let ghost prev = filled;
            filled = filled.or(p);
            proof {
                assert forall|i: int| 0 <= i < 81 implies (#[trigger] filled.sp_has(i)
                    == exists|dd: int|
                    0 <= dd < d + 1 && (#[trigger] self.sp_pat(*all, dd)).sp_has(i)) by {
                    if filled.sp_has(i) {
                        if !prev.sp_has(i) {
                            assert(p.sp_has(i));
                            assert(self.sp_pat(*all, d as int).sp_has(i));
                        }
                    } else {
                        if exists|dd: int|
                            0 <= dd < d + 1 && (#[trigger] self.sp_pat(*all, dd)).sp_has(i) {
                            let dd = choose|dd: int|
                                0 <= dd < d + 1 && (#[trigger] self.sp_pat(*all, dd)).sp_has(i);
                            if dd < d {
                                assert(prev.sp_has(i));
                            } else {
                                assert(p.sp_has(i));
                            }
                        }
                    }
                };
            }
        }
        true
    }

    /// The digit shown at `(row, col)`: one more than the first digit whose
    /// pattern holds the cell.
    fn cell(&self, all: &Catalog, row: usize, col: usize) -> (v: u8)
        requires
            all.wf(),
            self.sp_wf(*all),
            row < 9,
            col < 9,
            self.sp_covers(*all, 9 * row + col),
        ensures
            1 <= v <= 9,
            self.sp_pat(*all, v - 1).sp_has(9 * row + col),
    {
        for d in 0..9usize
            invariant
                all.wf(),
                self.sp_wf(*all),
                row < 9,
                col < 9,
                self.sp_covers(*all, 9 * row + col),
                forall|dd: int|
                    0 <= dd < d ==> !(#[trigger] self.sp_pat(*all, dd)).sp_has(9 * row + col),
        {
            if self.0[d].as_pattern(all).has(row, col) {
                return (d + 1) as u8;
            }
        }
        proof {
            assert(false);
        }
        vstd::pervasive::unreached()
    }

    /// The 81 digits of the solved grid, row-major.
    pub fn to_grid(&self, all: &Catalog) -> (g: Vec<u8>)
        requires
            all.wf(),
            self.sp_wf(*all),
            self.sp_pairwise_disjoint(*all),
        ensures
            g@.len() == 81,
            forall|r: int, c: int|
                0 <= r < 9 && 0 <= c < 9 ==> 1 <= #[trigger] g@[9 * r + c] <= 9,
            forall|r: int, c: int|
                0 <= r < 9 && 0 <= c < 9 ==> (#[trigger] self.sp_pat(
                    *all,
                    g@[9 * r + c] - 1,
                )).sp_has(9 * r + c),
    {
        proof {
            lemma_solution_covers(*self, *all);
        }
        let mut g: Vec<u8> = Vec::new();
        for i in 0..81usize
            invariant
                all.wf(),
                self.sp_wf(*all),
                self.sp_pairwise_disjoint(*all),
                forall|i2: int| 0 <= i2 < 81 ==> #[trigger] self.sp_covers(*all, i2),
                g@.len() == i,
                forall|i2: int| 0 <= i2 < i ==> 1 <= #[trigger] g@[i2] <= 9,
                forall|i2: int|
                    0 <= i2 < i ==> (#[trigger] self.sp_pat(*all, g@[i2] - 1)).sp_has(i2),
        {
            let v = self.cell(all, i / 9, i % 9);
            g.push(v);
        }
        g
    }
}

/// Nine pairwise-disjoint legal layouts jointly cover all 81 cells: each of
/// the nine rows receives one cell from each layout, and nine disjoint cells
/// fill a nine-cell row.
pub proof fn lemma_solution_covers(s: Solution, cat: Catalog)
    requires
        cat.wf(),
        s.sp_wf(cat),
        s.sp_pairwise_disjoint(cat),
    ensures
        forall|i: int| 0 <= i < 81 ==> #[trigger] s.sp_covers(cat, i),
{
    assert forall|i: int| 0 <= i < 81 implies #[trigger] s.sp_covers(cat, i) by {
        let r = i / 9;
        let c = i % 9;
        lemma_row_cover(s, cat, r, 9);
        lemma_count_all_at(
            |cc: int|
                exists|d: int| 0 <= d < 9 && (#[trigger] s.sp_pat(cat, d)).sp_has(9 * r + cc),
            0,
            9,
            c,
        );
        assert(i == 9 * r + c);
    };
}

/// In row `r`, the cells covered by the first `k` digit patterns number
/// exactly `k`.
proof fn lemma_row_cover(s: Solution, cat: Catalog, r: int, k: int)
    requires
        cat.wf(),
        s.sp_wf(cat),
        s.sp_pairwise_disjoint(cat),
        0 <= r < 9,
        0 <= k <= 9,
    ensures
        count(
            |cc: int|
                exists|d: int| 0 <= d < k && (#[trigger] s.sp_pat(cat, d)).sp_has(9 * r + cc),
            0,
            9,
        ) == k,
    decreases k,
{
    if k == 0 {
        lemma_count_zero(
            |cc: int|
                exists|d: int| 0 <= d < 0 && (#[trigger] s.sp_pat(cat, d)).sp_has(9 * r + cc),
            0,
            9,
        );
    } else {
        lemma_row_cover(s, cat, r, k - 1);
        lemma_count_disjoint_union(
            |cc: int|
                exists|d: int| 0 <= d < k - 1 && (#[trigger] s.sp_pat(cat, d)).sp_has(9 * r + cc),
            |cc: int| s.sp_pat(cat, k - 1).sp_has(9 * r + cc),
            |cc: int|
                exists|d: int| 0 <= d < k && (#[trigger] s.sp_pat(cat, d)).sp_has(9 * r + cc),
            0,
            9,
        );
        assert(legal(s.sp_pat(cat, k - 1)));
        assert(row_cnt(s.sp_pat(cat, k - 1), r) == 1);
    }
}

} // verus!
