//! A two-phase 9x9 Sudoku solver.
//!
//! Constraint propagation ([`Possibilities`]) pares the puzzle down, then an
//! exhaustive search over per-digit layout templates ([`Template`]) enumerates
//! the remaining completions.

use vstd::prelude::*;

mod counting;
mod pattern;
mod setup;
mod template;

pub use pattern::Pattern;
pub use setup::ImpossiblePuzzle;
pub use setup::Possibilities;
pub use template::Catalog;
pub use template::Solution;
pub use template::Template;

verus! {

use crate::counting::count;
use crate::counting::lemma_count_agree;
use crate::counting::lemma_count_drop;
use crate::counting::lemma_count_zero;
use crate::counting::lemma_count_all_at;
use crate::counting::lemma_count_single;
use crate::pattern::peer;
use crate::pattern::lemma_pattern_ext;
use crate::pattern::box_cell;
use crate::pattern::legal;
use crate::pattern::row_cnt;
use crate::pattern::col_cnt;
use crate::pattern::box_cnt;
use crate::setup::cell_cnt;
use crate::setup::consistent;
use crate::setup::grid_ok;

/// The clue of `input` at `(r, c)`: 0 for unknown, 1 to 9 for a given digit.
pub open spec fn clue_at(input: [[u8; 9]; 9], r: int, c: int) -> u8 {
    input[r][c]
}

/// The complete grid places every in-range clue of `input` at its cell
/// (digits are stored as indexes 0 to 8, clues as 1 to 9).
pub open spec fn grid_matches_clues(g: Seq<int>, input: [[u8; 9]; 9]) -> bool {
    forall|r: int, c: int|
        0 <= r < 9 && 0 <= c < 9 && 1 <= #[trigger] clue_at(input, r, c) <= 9 ==> g[9 * r + c]
            == clue_at(input, r, c) - 1
}

/// The cell `(r, c)` admits exactly the digit `v`.
pub open spec fn clue_satisfied(p: Possibilities, r: int, c: int, v: u8) -> bool {
    &&& p.patterns@[v - 1].sp_has(9 * r + c)
    &&& forall|dd: int|
        0 <= dd < 9 && dd != v - 1 ==> !(#[trigger] p.patterns@[dd].sp_has(9 * r + c))
}

/// Prepare a puzzle from user input: commit every nonzero clue and propagate.
#[verifier::loop_isolation(false)]
pub fn prepare(input: &[[u8; 9]; 9]) -> (res: Result<Possibilities, ImpossiblePuzzle>)
    ensures
        match res {
            Ok(p) => {
                &&& p.inv()
                &&& p.cascades_done()
                &&& p.work_queue@.len() == 0
                &&& forall|r: int, c: int|
                    0 <= r < 9 && 0 <= c < 9 && 1 <= #[trigger] clue_at(*input, r, c) ==> clue_at(
                        *input,
                        r,
                        c,
                    ) <= 9
                &&& forall|r: int, c: int|
                    0 <= r < 9 && 0 <= c < 9 && 1 <= #[trigger] clue_at(*input, r, c) <= 9
                        ==> clue_satisfied(p, r, c, clue_at(*input, r, c))
                &&& forall|g: Seq<int>|
                    #[trigger] grid_ok(g) && grid_matches_clues(g, *input) ==> consistent(
                        g,
                        p.patterns@,
                    )
            },
            Err(_) => (forall|r: int, c: int|
                0 <= r < 9 && 0 <= c < 9 ==> #[trigger] clue_at(*input, r, c) <= 9)
                ==> forall|g: Seq<int>| !(#[trigger] grid_ok(g) && grid_matches_clues(g, *input)),
        },
{
    let mut puzzle = Possibilities::new();
    proof {
        assert forall|g: Seq<int>|
            #[trigger] grid_ok(g) && grid_matches_clues(g, *input) implies consistent(
            g,
            puzzle.patterns@,
        ) by {
            assert forall|i: int| 0 <= i < 81 implies (#[trigger] puzzle.patterns@[g[i]].sp_has(
                i,
            )) by {}
        };
    }
    for row in 0..9usize
        invariant
            puzzle.inv(),
            puzzle.cascades_done(),
            puzzle.work_queue@.len() == 0,
            forall|g: Seq<int>|
                #[trigger] grid_ok(g) && grid_matches_clues(g, *input) ==> consistent(
                    g,
                    puzzle.patterns@,
                ),
            forall|r: int, c: int|
                0 <= r < row && 0 <= c < 9 && 1 <= #[trigger] clue_at(*input, r, c) ==> clue_at(
                    *input,
                    r,
                    c,
                ) <= 9,
            forall|r: int, c: int, dd: int|
                0 <= r < row && 0 <= c < 9 && 1 <= #[trigger] clue_at(*input, r, c) <= 9 && 0 <= dd
                    < 9 && dd != clue_at(*input, r, c) - 1 ==> !(
                #[trigger] puzzle.patterns@[dd].sp_has(9 * r + c)),
    {
        for col in 0..9usize
            invariant
                puzzle.inv(),
                puzzle.cascades_done(),
                puzzle.work_queue@.len() == 0,
                forall|g: Seq<int>|
                    #[trigger] grid_ok(g) && grid_matches_clues(g, *input) ==> consistent(
                        g,
                        puzzle.patterns@,
                    ),
                forall|r: int, c: int|
                    (0 <= r < row && 0 <= c < 9 || r == row && 0 <= c < col) && 1
                        <= #[trigger] clue_at(*input, r, c) ==> clue_at(*input, r, c) <= 9,
                forall|r: int, c: int, dd: int|
                    (0 <= r < row && 0 <= c < 9 || r == row && 0 <= c < col) && 1
                        <= #[trigger] clue_at(*input, r, c) <= 9 && 0 <= dd < 9 && dd != clue_at(
                        *input,
                        r,
                        c,
                    ) - 1 ==> !(#[trigger] puzzle.patterns@[dd].sp_has(9 * r + c)),
        {
            let v = input[row][col];
            proof {
                assert(clue_at(*input, row as int, col as int) == v);
            }
            if v > 0 {
                match puzzle.set(row as u8, col as u8, v) {
                    Err(e) => {
                        proof {
                            if forall|r: int, c: int|
                                0 <= r < 9 && 0 <= c < 9 ==> #[trigger] clue_at(*input, r, c)
                                    <= 9 {
                                assert forall|g: Seq<int>|
                                    !(#[trigger] grid_ok(g) && grid_matches_clues(
                                        g,
                                        *input,
                                    )) by {
                                    if grid_ok(g) && grid_matches_clues(g, *input) {
                                        assert(g[9 * (row as int) + (col as int)] == v - 1);
                                        assert(false);
                                    }
                                };
                            }
                        }
                        return Err(e);
                    },
                    Ok(_) => {},
                }
                proof {
                    assert forall|g: Seq<int>|
                        #[trigger] grid_ok(g) && grid_matches_clues(g, *input) implies consistent(
                        g,
                        puzzle.patterns@,
                    ) by {
                        assert(g[9 * (row as int) + (col as int)] == v - 1);
                    };
                }
            }
        }
    }
    proof {
        assert forall|r: int, c: int|
            0 <= r < 9 && 0 <= c < 9 && 1 <= #[trigger] clue_at(*input, r, c)
                <= 9 implies clue_satisfied(puzzle, r, c, clue_at(*input, r, c)) by {
            let v = clue_at(*input, r, c);
            if !puzzle.patterns@[v - 1].sp_has(9 * r + c) {
                lemma_count_zero(|dd: int| puzzle.patterns@[dd].sp_has(9 * r + c), 0, 9);
                assert(cell_cnt(puzzle.patterns@, r, c) >= 1);
                assert(false);
            }
        };
    }
    Ok(puzzle)
}

/// A committed clue's digit is eliminated from every peer of its cell: the
/// engine forces the clue cell to its one digit, and the fixed point has
/// cleared that digit from the rest of the row, column and box. In
/// particular, two equal clues sharing a row, column or box cannot both be
/// committed, so `prepare` must fail on such a grid: its success contract
/// would state both clues satisfied, and the second contradicts this lemma.
pub proof fn lemma_clue_clears_peers(p: Possibilities, r: int, c: int, v: u8)
    requires
        p.inv(),
        p.cascades_done(),
        0 <= r < 9,
        0 <= c < 9,
        1 <= v <= 9,
        clue_satisfied(p, r, c, v),
    ensures
        forall|r2: int, c2: int|
            #[trigger] peer(r, c, r2, c2) ==> !p.patterns@[v - 1].sp_has(9 * r2 + c2),
{
    lemma_count_single(|dd: int| p.patterns@[dd].sp_has(9 * r + c), 0, 9, v - 1);
    assert(cell_cnt(p.patterns@, r, c) == 1);
    assert(p.patterns@[v - 1].sp_has(9 * r + c));
}

/// The digit key of the sorted entry at position `q`.
pub open spec fn tkey(ts: Seq<(u8, Vec<Template>)>, q: int) -> int {
    ts[q].0 as int
}

/// A recorded solution: in range, pairwise disjoint, and each digit's pattern
/// inside that digit's candidate pattern.
pub open spec fn good_solution(cat: Catalog, s: Solution, pats: Seq<Pattern>) -> bool {
    &&& s.sp_wf(cat)
    &&& s.sp_pairwise_disjoint(cat)
    &&& forall|d: int| 0 <= d < 9 ==> (#[trigger] s.sp_pat(cat, d)).sp_subset(pats[d])
}

/// The per-entry facts the search needs of the sorted template lists.
spec fn lists_ok(cat: Catalog, ts: Seq<(u8, Vec<Template>)>, pats: Seq<Pattern>) -> bool {
    &&& ts.len() == 9
    &&& pats.len() == 9
    &&& forall|q: int| 0 <= q < 9 ==> 0 <= #[trigger] tkey(ts, q) < 9
    &&& forall|q1: int, q2: int| 0 <= q1 < q2 < 9 ==> tkey(ts, q1) != tkey(ts, q2)
    &&& forall|q: int, j: int|
        0 <= q < 9 && 0 <= j < ts[q].1@.len() ==> (#[trigger] ts[q].1@[j]).0 < cat.list@.len()
    &&& forall|q: int, j1: int, j2: int|
        0 <= q < 9 && 0 <= j1 < j2 < ts[q].1@.len() ==> (#[trigger] ts[q].1@[j1]).0 != (
        #[trigger] ts[q].1@[j2]).0
    &&& forall|q: int, j: int|
        0 <= q < 9 && 0 <= j < ts[q].1@.len() ==> (#[trigger] cat.list@[ts[q].1@[j].0 as int]).sp_subset(
            pats[tkey(ts, q)],
        )
}

/// Distinct digit keys over the first `k` positions cover `k` digits.
proof fn lemma_keys_cover(ts: Seq<(u8, Vec<Template>)>, k: int)
    requires
        ts.len() == 9,
        forall|q: int| 0 <= q < 9 ==> 0 <= #[trigger] tkey(ts, q) < 9,
        forall|q1: int, q2: int| 0 <= q1 < q2 < 9 ==> tkey(ts, q1) != tkey(ts, q2),
        0 <= k <= 9,
    ensures
        count(|dd: int| exists|q: int| 0 <= q < k && #[trigger] tkey(ts, q) == dd, 0, 9) == k,
    decreases k,
{
    if k == 0 {
        lemma_count_zero(|dd: int| exists|q: int| 0 <= q < 0 && #[trigger] tkey(ts, q) == dd, 0, 9);
    } else {
        lemma_keys_cover(ts, k - 1);
        lemma_count_drop(
            |dd: int| exists|q: int| 0 <= q < k && #[trigger] tkey(ts, q) == dd,
            |dd: int| exists|q: int| 0 <= q < k - 1 && #[trigger] tkey(ts, q) == dd,
            tkey(ts, k - 1),
            0,
            9,
        );
    }
}

/// Depth-first search over the digits' template lists in the given order:
/// commit a template that does not overlap the cells already filled, recurse,
/// undo; record a snapshot at a full assignment, and stop exploring once
/// `max_solutions` solutions are recorded.
#[verifier::loop_isolation(false)]
fn search(
    out: &mut Vec<Solution>,
    solution: &mut Solution,
    filled: Pattern,
    templates: &Vec<(u8, Vec<Template>)>,
    pos: usize,
    max_solutions: usize,
    all: &Catalog,
    Ghost(pats): Ghost<Seq<Pattern>>,
)
    requires
        all.wf(),
        lists_ok(*all, templates@, pats),
        pos <= 9,
        forall|q: int|
            0 <= q < pos ==> (#[trigger] old(solution).0@[tkey(templates@, q)]).0
                < all.list@.len(),
        forall|q: int|
            0 <= q < pos ==> (#[trigger] old(solution).sp_pat(*all, tkey(templates@, q))).sp_subset(
                pats[tkey(templates@, q)],
            ),
        forall|q1: int, q2: int|
            0 <= q1 < q2 < pos ==> (#[trigger] old(solution).sp_pat(
                *all,
                tkey(templates@, q1),
            )).sp_disjoint(#[trigger] old(solution).sp_pat(*all, tkey(templates@, q2))),
        filled.wf(),
        forall|i: int|
            0 <= i < 81 ==> (#[trigger] filled.sp_has(i) == exists|q: int|
                0 <= q < pos && (#[trigger] old(solution).sp_pat(*all, tkey(templates@, q))).sp_has(
                    i,
                )),
        forall|j: int|
            0 <= j < old(out)@.len() ==> good_solution(*all, #[trigger] old(out)@[j], pats),
    ensures
        final (out)@.len() >= old(out)@.len(),
        forall|j: int|
            0 <= j < final (out)@.len() ==> good_solution(*all, #[trigger] final (out)@[j], pats),
        final (out)@.len() <= max_solutions || final (out)@.len() <= old(out)@.len() + 1,
        forall|j: int| 0 <= j < old(out)@.len() ==> final (out)@[j] == old(out)@[j],
        forall|q: int|
            0 <= q < pos ==> final (solution).0@[#[trigger] tkey(templates@, q)] == old(
                solution,
            ).0@[tkey(templates@, q)],
        forall|j: int, q: int|
            old(out)@.len() <= j < final (out)@.len() && 0 <= q < pos ==> (#[trigger] final (
            out)@[j]).0@[#[trigger] tkey(templates@, q)] == old(solution).0@[tkey(templates@, q)],
        forall|j1: int, j2: int|
            old(out)@.len() <= j1 < j2 < final (out)@.len() ==> (#[trigger] final (out)@[j1]).0@
                != (#[trigger] final (out)@[j2]).0@,
    decreases 9 - pos,
{
    if pos == 9 {
        proof {
            lemma_keys_cover(templates@, 9);
            assert forall|dd: int| 0 <= dd < 9 implies (#[trigger] solution.0@[dd]).0
                < all.list@.len() by {
                lemma_count_all_at(
                    |dd2: int| exists|q: int| 0 <= q < 9 && #[trigger] tkey(templates@, q) == dd2,
                    0,
                    9,
                    dd,
                );
                let q = choose|q: int| 0 <= q < 9 && #[trigger] tkey(templates@, q) == dd;
                assert(solution.0@[tkey(templates@, q)].0 < all.list@.len());
            };
            assert(solution.sp_wf(*all));
            assert forall|d1: int, d2: int| 0 <= d1 < d2 < 9 implies (#[trigger] solution.sp_pat(
                *all,
                d1,
            )).sp_disjoint(#[trigger] solution.sp_pat(*all, d2)) by {
                lemma_count_all_at(
                    |dd2: int| exists|q: int| 0 <= q < 9 && #[trigger] tkey(templates@, q) == dd2,
                    0,
                    9,
                    d1,
                );
                lemma_count_all_at(
                    |dd2: int| exists|q: int| 0 <= q < 9 && #[trigger] tkey(templates@, q) == dd2,
                    0,
                    9,
                    d2,
                );
                let q1 = choose|q: int| 0 <= q < 9 && #[trigger] tkey(templates@, q) == d1;
                let q2 = choose|q: int| 0 <= q < 9 && #[trigger] tkey(templates@, q) == d2;
                if q1 < q2 {
                    assert(solution.sp_pat(*all, tkey(templates@, q1)).sp_disjoint(
                        solution.sp_pat(*all, tkey(templates@, q2)),
                    ));
                } else {
                    assert(solution.sp_pat(*all, tkey(templates@, q2)).sp_disjoint(
                        solution.sp_pat(*all, tkey(templates@, q1)),
                    ));
                    assert forall|i: int| 0 <= i < 81 implies !(#[trigger] solution.sp_pat(
                        *all,
                        d1,
                    ).sp_has(i) && solution.sp_pat(*all, d2).sp_has(i)) by {};
                }
            };
            assert forall|d: int| 0 <= d < 9 implies (#[trigger] solution.sp_pat(*all, d)).sp_subset(
                pats[d],
            ) by {
                lemma_count_all_at(
                    |dd2: int| exists|q: int| 0 <= q < 9 && #[trigger] tkey(templates@, q) == dd2,
                    0,
                    9,
                    d,
                );
                let q = choose|q: int| 0 <= q < 9 && #[trigger] tkey(templates@, q) == d;
                assert(solution.sp_pat(*all, tkey(templates@, q)).sp_subset(
                    pats[tkey(templates@, q)],
                ));
            };
            assert(good_solution(*all, *solution, pats));
        }
        out.push(solution.clone());
        return ;
    }
    let digit = templates[pos].0;
    let n = templates[pos].1.len();
    let ghost start = out@.len() as int;
    let ghost sol0 = *solution;
    for j in 0..n
        invariant
            out@.len() >= start,
            forall|jj: int| 0 <= jj < out@.len() ==> good_solution(*all, #[trigger] out@[jj], pats),
            out@.len() < max_solutions || out@.len() == start,
            forall|q: int|
                0 <= q < pos ==> solution.0@[#[trigger] tkey(templates@, q)] == sol0.0@[tkey(
                    templates@,
                    q,
                )],
            forall|jj: int| 0 <= jj < start ==> out@[jj] == old(out)@[jj],
            forall|jj: int, q: int|
                start <= jj < out@.len() && 0 <= q < pos ==> (#[trigger] out@[jj]).0@[
                #[trigger] tkey(templates@, q)] == sol0.0@[tkey(templates@, q)],
            forall|jj: int|
                start <= jj < out@.len() ==> exists|j2: int|
                    0 <= j2 < j && (#[trigger] out@[jj]).0@[digit as int] == templates@[pos
                        as int].1@[j2],
            forall|j1: int, j2: int|
                start <= j1 < j2 < out@.len() ==> (#[trigger] out@[j1]).0@ != (
                #[trigger] out@[j2]).0@,
    {
        let t = templates[pos].1[j];
        let tp = t.as_pattern(all);
        if !tp.intersects(filled) {
            solution.0[digit as usize] = t;
            let filled2 = filled.or(tp);
            proof {
                assert(tkey(templates@, pos as int) == digit as int);
                assert(solution.sp_pat(*all, digit as int) == all.list@[t.0 as int]);
                assert forall|q: int| 0 <= q < pos implies (#[trigger] solution.sp_pat(
                    *all,
                    tkey(templates@, q),
                )) == sol0.sp_pat(*all, tkey(templates@, q)) by {
                    assert(tkey(templates@, q) != digit as int);
                };
                assert forall|q: int| 0 <= q < pos implies (#[trigger] solution.sp_pat(
                    *all,
                    tkey(templates@, q),
                )).sp_disjoint(solution.sp_pat(*all, digit as int)) by {
                    if exists|i: int|
                        0 <= i < 81 && solution.sp_pat(*all, tkey(templates@, q)).sp_has(i)
                            && solution.sp_pat(*all, digit as int).sp_has(i) {
                        let i = choose|i: int|
                            0 <= i < 81 && solution.sp_pat(*all, tkey(templates@, q)).sp_has(i)
                                && solution.sp_pat(*all, digit as int).sp_has(i);
                        assert(filled.sp_has(i));
                        assert(false);
                    }
                };
                assert forall|i: int| 0 <= i < 81 implies (#[trigger] filled2.sp_has(i)
                    == exists|q: int|
                    0 <= q < pos + 1 && (#[trigger] solution.sp_pat(
                        *all,
                        tkey(templates@, q),
                    )).sp_has(i)) by {
                    if filled2.sp_has(i) {
                        if !filled.sp_has(i) {
                            assert(solution.sp_pat(*all, tkey(templates@, pos as int)).sp_has(i));
                        } else {
                            let q = choose|q: int|
                                0 <= q < pos && (#[trigger] sol0.sp_pat(
                                    *all,
                                    tkey(templates@, q),
                                )).sp_has(i);
                            assert(solution.sp_pat(*all, tkey(templates@, q)).sp_has(i));
                        }
                    } else {
                        if exists|q: int|
                            0 <= q < pos + 1 && (#[trigger] solution.sp_pat(
                                *all,
                                tkey(templates@, q),
                            )).sp_has(i) {
                            let q = choose|q: int|
                                0 <= q < pos + 1 && (#[trigger] solution.sp_pat(
                                    *all,
                                    tkey(templates@, q),
                                )).sp_has(i);
                            if q < pos {
                                assert(sol0.sp_pat(*all, tkey(templates@, q)).sp_has(i));
                                assert(filled.sp_has(i));
                            } else {
                                assert(tp.sp_has(i));
                            }
                            assert(false);
                        }
                    }
                };
            }
            let ghost out_mid = out@;
            search(out, solution, filled2, templates, pos + 1, max_solutions, all, Ghost(pats));
            proof {
                assert forall|jj: int|
                    start <= jj < out@.len() implies exists|j2: int|
                    0 <= j2 < j + 1 && (#[trigger] out@[jj]).0@[digit as int] == templates@[pos
                        as int].1@[j2] by {
                    if jj < out_mid.len() {
                        assert(out@[jj] == out_mid[jj]);
                    } else {
                        assert(out@[jj].0@[tkey(templates@, pos as int)] == t);
                        assert(templates@[pos as int].1@[j as int] == t);
                    }
                };
                assert forall|j1: int, j2: int|
                    start <= j1 < j2 < out@.len() implies (#[trigger] out@[j1]).0@ != (
                #[trigger] out@[j2]).0@ by {
                    if j1 < out_mid.len() && j2 >= out_mid.len() {
                        assert(out@[j1] == out_mid[j1]);
                        let jw = choose|jw: int|
                            0 <= jw < j && out@[j1].0@[digit as int] == templates@[pos
                                as int].1@[jw];
                        assert(templates@[pos as int].1@[jw].0 != templates@[pos as int].1@[j
                            as int].0);
                        assert(out@[j2].0@[tkey(templates@, pos as int)] == t);
                        assert(out@[j1].0@[digit as int] != out@[j2].0@[digit as int]);
                    } else if j2 < out_mid.len() {
                        assert(out@[j1] == out_mid[j1]);
                        assert(out@[j2] == out_mid[j2]);
                    }
                };
            }
            if out.len() >= max_solutions {
                return ;
            }
        }
    }
}

/// Relies on String::from_utf8: a vector of ASCII bytes decodes to the string
/// of exactly those characters.
#[verifier::external_body]
fn ascii_string(bytes: Vec<u8>) -> (r: String)
    requires
        forall|i: int| 0 <= i < bytes@.len() ==> bytes@[i] < 128,
    ensures
        r@.len() == bytes@.len(),
        forall|i: int| 0 <= i < bytes@.len() ==> (#[trigger] r@[i]) as u8 == bytes@[i],
{
    String::from_utf8(bytes).unwrap_or_default()
}

/// Render a valid solution as 81 digit characters, row-major.
#[verifier::loop_isolation(false)]
fn solution_line(s: &Solution, all: &Catalog) -> (line: String)
    requires
        all.wf(),
        s.sp_wf(*all),
        s.sp_pairwise_disjoint(*all),
    ensures
        line@.len() == 81,
        forall|i: int| 0 <= i < 81 ==> 49 <= (#[trigger] line@[i]) as u8 <= 57,
        forall|i: int| 0 <= i < 81 ==> s.sp_pat(*all, (#[trigger] line@[i]) as u8 - 49).sp_has(i),
{
    let g = s.to_grid(all);
    let mut bytes: Vec<u8> = Vec::new();
    for i in 0..81usize
        invariant
            bytes@.len() == i,
            forall|j: int| 0 <= j < i ==> #[trigger] bytes@[j] == 48 + g@[j],
            forall|j: int| 0 <= j < i ==> 49 <= #[trigger] bytes@[j] <= 57,
    {
        proof {
            let r = i as int / 9;
            let c = i as int % 9;
            assert(1 <= g@[9 * r + c] <= 9);
            assert(9 * r + c == i as int);
        }
        bytes.push(48 + g[i]);
    }
    let line = ascii_string(bytes);
    proof {
        assert forall|i: int| 0 <= i < 81 implies s.sp_pat(
            *all,
            (#[trigger] line@[i]) as u8 - 49,
        ).sp_has(i) by {
            let r = i / 9;
            let c = i % 9;
            assert(9 * r + c == i);
            assert(line@[i] as u8 == 48 + g@[i]);
            assert(s.sp_pat(*all, g@[9 * r + c] - 1).sp_has(9 * r + c));
        };
    }
    line
}

/// How often digit `d` appears in row `r` of the 81-character grid `s`.
pub open spec fn digit_count_row(s: Seq<char>, r: int, d: int) -> nat {
    count(|c: int| s[9 * r + c] as u8 == 48 + d, 0, 9)
}

/// How often digit `d` appears in column `c` of `s`.
pub open spec fn digit_count_col(s: Seq<char>, c: int, d: int) -> nat {
    count(|r: int| s[9 * r + c] as u8 == 48 + d, 0, 9)
}

/// How often digit `d` appears in box `b` of `s`.
pub open spec fn digit_count_box(s: Seq<char>, b: int, d: int) -> nat {
    count(|k: int| s[box_cell(b, k)] as u8 == 48 + d, 0, 9)
}

/// An 81-character grid of digits 1 to 9 where every row, column and box
/// holds each digit exactly once.
pub open spec fn solved_string(s: Seq<char>) -> bool {
    &&& s.len() == 81
    &&& forall|i: int| 0 <= i < 81 ==> 49 <= (#[trigger] s[i]) as u8 <= 57
    &&& forall|r: int, d: int| 0 <= r < 9 && 1 <= d <= 9 ==> #[trigger] digit_count_row(s, r, d) == 1
    &&& forall|c: int, d: int| 0 <= c < 9 && 1 <= d <= 9 ==> #[trigger] digit_count_col(s, c, d) == 1
    &&& forall|b: int, d: int| 0 <= b < 9 && 1 <= d <= 9 ==> #[trigger] digit_count_box(s, b, d) == 1
}

/// The grid keeps every clue of the puzzle: a nonzero input digit reappears at
/// its cell.
pub open spec fn matches_clues(s: Seq<char>, puzzle: Seq<u8>) -> bool {
    forall|i: int| 0 <= i < 81 && 1 <= puzzle[i] <= 9 ==> (#[trigger] s[i]) as u8 == 48 + puzzle[i]
}

/// A line rendered from a valid solution is a solved grid.
proof fn lemma_line_solved(s: Solution, cat: Catalog, line: Seq<char>)
    requires
        cat.wf(),
        s.sp_wf(cat),
        s.sp_pairwise_disjoint(cat),
        line.len() == 81,
        forall|i: int| 0 <= i < 81 ==> 49 <= (#[trigger] line[i]) as u8 <= 57,
        forall|i: int| 0 <= i < 81 ==> s.sp_pat(cat, (#[trigger] line[i]) as u8 - 49).sp_has(i),
    ensures
        solved_string(line),
{
    assert forall|i: int, dd: int| #![trigger s.sp_pat(cat, dd), line[i]]
        0 <= i < 81 && 0 <= dd < 9 implies ((line[i]) as u8 == 49 + dd) == s.sp_pat(
        cat,
        dd,
    ).sp_has(i) by {
        let d0 = line[i] as u8 - 49;
        if line[i] as u8 == 49 + dd {
            assert(s.sp_pat(cat, dd).sp_has(i));
        } else if s.sp_pat(cat, dd).sp_has(i) {
            assert(s.sp_pat(cat, d0 as int).sp_has(i));
            assert(d0 != dd);
            if d0 < dd {
                assert(s.sp_pat(cat, d0 as int).sp_disjoint(s.sp_pat(cat, dd)));
            } else {
                assert(s.sp_pat(cat, dd).sp_disjoint(s.sp_pat(cat, d0 as int)));
            }
            assert(false);
        }
    };
    assert forall|dd: int| 0 <= dd < 9 implies legal(#[trigger] s.sp_pat(cat, dd)) by {
        assert(cat.list@[s.0@[dd].0 as int] == s.sp_pat(cat, dd));
    };
    assert forall|r: int, d: int| 0 <= r < 9 && 1 <= d <= 9 implies #[trigger] digit_count_row(
        line,
        r,
        d,
    ) == 1 by {
        lemma_count_agree(
            |c: int| line[9 * r + c] as u8 == 48 + d,
            |c: int| s.sp_pat(cat, d - 1).sp_has(9 * r + c),
            0,
            9,
        );
        assert(row_cnt(s.sp_pat(cat, d - 1), r) == 1);
    };
    assert forall|c: int, d: int| 0 <= c < 9 && 1 <= d <= 9 implies #[trigger] digit_count_col(
        line,
        c,
        d,
    ) == 1 by {
        lemma_count_agree(
            |r: int| line[9 * r + c] as u8 == 48 + d,
            |r: int| s.sp_pat(cat, d - 1).sp_has(9 * r + c),
            0,
            9,
        );
        assert(col_cnt(s.sp_pat(cat, d - 1), c) == 1);
    };
    assert forall|b: int, d: int| 0 <= b < 9 && 1 <= d <= 9 implies #[trigger] digit_count_box(
        line,
        b,
        d,
    ) == 1 by {
        assert forall|k: int| 0 <= k < 9 implies 0 <= #[trigger] box_cell(b, k) < 81 by {
            crate::pattern::lemma_box_correspondence(3 * (b / 3) + k / 3, 3 * (b % 3) + k % 3);
        };
        lemma_count_agree(
            |k: int| line[box_cell(b, k)] as u8 == 48 + d,
            |k: int| s.sp_pat(cat, d - 1).sp_has(box_cell(b, k)),
            0,
            9,
        );
        assert(box_cnt(s.sp_pat(cat, d - 1), b) == 1);
    };
}

/// Solve a puzzle given as 81 row-major digits (0 for unknown), stopping after
/// `max_solutions` recorded solutions. A contradictory puzzle, like an
/// unsolvable one, yields no solutions. Every returned string is a solved grid
/// that keeps the puzzle's clues, and no string is returned twice.
#[verifier::loop_isolation(false)]
pub fn solve(puzzle: Vec<u8>, max_solutions: usize) -> (out: Vec<String>)
    requires
        puzzle@.len() == 81,
    ensures
        max_solutions >= 1 ==> out@.len() <= max_solutions,
        max_solutions == 0 ==> out@.len() <= 1,
        forall|j: int|
            0 <= j < out@.len() ==> solved_string((#[trigger] out@[j])@) && matches_clues(
                out@[j]@,
                puzzle@,
            ),
        forall|j1: int, j2: int| 0 <= j1 < j2 < out@.len() ==> (#[trigger] out@[j1])@ != (
        #[trigger] out@[j2])@,
{
    let mut possibilities = Possibilities::new();
    for cell in 0..81usize
        invariant
            possibilities.inv(),
            possibilities.cascades_done(),
            possibilities.work_queue@.len() == 0,
            forall|i: int, dd: int|
                0 <= i < cell && 1 <= #[trigger] puzzle@[i] && 0 <= dd < 9 && dd != puzzle@[i] - 1
                    ==> !(#[trigger] possibilities.patterns@[dd].sp_has(i)),
            forall|i: int| 0 <= i < cell && 1 <= #[trigger] puzzle@[i] ==> puzzle@[i] <= 9,
    {
        let v = puzzle[cell];
        if v != 0 {
            let row = (cell / 9) as u8;
            let col = (cell % 9) as u8;
            match possibilities.set(row, col, v) {
                Err(_) => {
                    return Vec::new();
                },
                Ok(_) => {},
            }
            proof {
                assert(9 * (cell as int / 9) + (cell as int % 9) == cell as int);
            }
        }
    }
    proof {
        assert forall|i: int|
            0 <= i < 81 && 1 <= #[trigger] puzzle@[i] <= 9 implies possibilities.patterns@[puzzle@[i]
            - 1].sp_has(i) by {
            let r = i / 9;
            let c = i % 9;
            assert(9 * r + c == i);
            if !possibilities.patterns@[puzzle@[i] - 1].sp_has(i) {
                lemma_count_zero(|dd: int| possibilities.patterns@[dd].sp_has(9 * r + c), 0, 9);
                assert(cell_cnt(possibilities.patterns@, r, c) >= 1);
                assert(false);
            }
        };
    }
    let all = Template::all();
    // Gather each digit's fitting templates, then search the most constrained
    // digits first. When `max_solutions` caps the search below the number of
    // solutions, this order decides which ones are found first; the order is
    // deterministic for a fixed input but otherwise unspecified.
    let mut unsorted: Vec<(u8, Vec<Template>)> = Vec::new();
    for digit in 0..9usize
        invariant
            all.wf(),
            unsorted@.len() == digit,
            forall|q: int| 0 <= q < digit ==> (#[trigger] unsorted@[q]).0 == q,
            forall|q: int, j: int|
                0 <= q < digit && 0 <= j < unsorted@[q].1@.len() ==> (
                #[trigger] unsorted@[q].1@[j]).0 < all.list@.len(),
            forall|q: int, j1: int, j2: int|
                0 <= q < digit && 0 <= j1 < j2 < unsorted@[q].1@.len() ==> (
                #[trigger] unsorted@[q].1@[j1]).0 != (#[trigger] unsorted@[q].1@[j2]).0,
            forall|q: int, j: int|
                0 <= q < digit && 0 <= j < unsorted@[q].1@.len() ==> (
                #[trigger] all.list@[unsorted@[q].1@[j].0 as int]).sp_subset(
                    possibilities.patterns@[unsorted@[q].0 as int],
                ),
    {
        let lst = Template::within(&all, possibilities.patterns[digit]);
        unsorted.push((digit as u8, lst));
    }
    let mut templates: Vec<(u8, Vec<Template>)> = Vec::new();
    while unsorted.len() > 0
        invariant
            all.wf(),
            templates@.len() + unsorted@.len() == 9,
            forall|q: int| 0 <= q < unsorted@.len() ==> (#[trigger] unsorted@[q]).0 < 9,
            forall|q: int| 0 <= q < templates@.len() ==> (#[trigger] templates@[q]).0 < 9,
            forall|q1: int, q2: int|
                0 <= q1 < q2 < unsorted@.len() ==> unsorted@[q1].0 != unsorted@[q2].0,
            forall|q1: int, q2: int|
                0 <= q1 < q2 < templates@.len() ==> templates@[q1].0 != templates@[q2].0,
            forall|q1: int, q2: int|
                0 <= q1 < templates@.len() && 0 <= q2 < unsorted@.len() ==> templates@[q1].0
                    != unsorted@[q2].0,
            forall|q: int, j: int|
                0 <= q < unsorted@.len() && 0 <= j < unsorted@[q].1@.len() ==> (
                #[trigger] unsorted@[q].1@[j]).0 < all.list@.len(),
            forall|q: int, j: int|
                0 <= q < templates@.len() && 0 <= j < templates@[q].1@.len() ==> (
                #[trigger] templates@[q].1@[j]).0 < all.list@.len(),
            forall|q: int, j1: int, j2: int|
                0 <= q < unsorted@.len() && 0 <= j1 < j2 < unsorted@[q].1@.len() ==> (
                #[trigger] unsorted@[q].1@[j1]).0 != (#[trigger] unsorted@[q].1@[j2]).0,
            forall|q: int, j1: int, j2: int|
                0 <= q < templates@.len() && 0 <= j1 < j2 < templates@[q].1@.len() ==> (
                #[trigger] templates@[q].1@[j1]).0 != (#[trigger] templates@[q].1@[j2]).0,
            forall|q: int, j: int|
                0 <= q < unsorted@.len() && 0 <= j < unsorted@[q].1@.len() ==> (
                #[trigger] all.list@[unsorted@[q].1@[j].0 as int]).sp_subset(
                    possibilities.patterns@[unsorted@[q].0 as int],
                ),
            forall|q: int, j: int|
                0 <= q < templates@.len() && 0 <= j < templates@[q].1@.len() ==> (
                #[trigger] all.list@[templates@[q].1@[j].0 as int]).sp_subset(
                    possibilities.patterns@[templates@[q].0 as int],
                ),
        decreases unsorted@.len(),
    {
        let mut m: usize = 0;
        let mut k: usize = 1;
        while k < unsorted.len()
            invariant
                m < unsorted@.len(),
                k <= unsorted@.len(),
            decreases unsorted@.len() - k,
        {
            if unsorted[k].1.len() < unsorted[m].1.len() {
                m = k;
            }
            k = k + 1;
        }
        let item = unsorted.remove(m);
        templates.push(item);
    }
    let mut solutions: Vec<Solution> = Vec::new();
    let mut solution = Solution([Template(0);9]);
    let e = Pattern::empty();
    search(
        &mut solutions,
        &mut solution,
        e,
        &templates,
        0,
        max_solutions,
        &all,
        Ghost(possibilities.patterns@),
    );
    let mut out: Vec<String> = Vec::new();
    let n = solutions.len();
    for j in 0..n
        invariant
            n == solutions@.len(),
            all.wf(),
            forall|jj: int|
                0 <= jj < solutions@.len() ==> good_solution(
                    all,
                    #[trigger] solutions@[jj],
                    possibilities.patterns@,
                ),
            out@.len() == j,
            forall|jj: int|
                0 <= jj < j ==> solved_string((#[trigger] out@[jj])@) && matches_clues(
                    out@[jj]@,
                    puzzle@,
                ),
            forall|jj: int, i: int|
                0 <= jj < j && 0 <= i < 81 ==> solutions@[jj].sp_pat(
                    all,
                    (#[trigger] out@[jj]@[i]) as u8 - 49,
                ).sp_has(i),
            forall|j1: int, j2: int|
                0 <= j1 < j2 < solutions@.len() ==> (#[trigger] solutions@[j1]).0@ != (
                #[trigger] solutions@[j2]).0@,
            forall|j1: int, j2: int|
                0 <= j1 < j2 < j ==> (#[trigger] out@[j1])@ != (#[trigger] out@[j2])@,
    {
        let line = solution_line(&solutions[j], &all);
        proof {
            lemma_line_solved(solutions@[j as int], all, line@);
            assert forall|i: int| 0 <= i < 81 && 1 <= puzzle@[i] <= 9 implies (
            #[trigger] line@[i]) as u8 == 48 + puzzle@[i] by {
                let d0 = line@[i] as u8 - 49;
                assert(solutions@[j as int].sp_pat(all, d0 as int).sp_has(i));
                assert(solutions@[j as int].sp_pat(all, d0 as int).sp_subset(
                    possibilities.patterns@[d0 as int],
                ));
                assert(possibilities.patterns@[d0 as int].sp_has(i));
                if d0 != puzzle@[i] - 1 {
                    assert(!possibilities.patterns@[d0 as int].sp_has(i));
                    assert(false);
                }
            };
        }
        proof {
            let s2 = solutions@[j as int];
            assert forall|jj: int| 0 <= jj < j implies (#[trigger] out@[jj])@ != line@ by {
                let s1 = solutions@[jj];
                assert(s1.0@ != s2.0@);
                if forall|d: int| 0 <= d < 9 ==> s1.0@[d] == s2.0@[d] {
                    assert(s1.0@ =~= s2.0@);
                }
                let d = choose|d: int| 0 <= d < 9 && s1.0@[d] != s2.0@[d];
                assert(s1.0@[d].0 != s2.0@[d].0);
                assert(good_solution(all, s1, possibilities.patterns@));
                assert(legal(all.list@[s1.0@[d].0 as int]));
                assert(legal(all.list@[s2.0@[d].0 as int]));
                if s1.0@[d].0 < s2.0@[d].0 {
                    assert(all.list@[s1.0@[d].0 as int] != all.list@[s2.0@[d].0 as int]);
                } else {
                    assert(all.list@[s2.0@[d].0 as int] != all.list@[s1.0@[d].0 as int]);
                }
                assert(s1.sp_pat(all, d) != s2.sp_pat(all, d));
                if forall|i: int|
                    0 <= i < 81 ==> #[trigger] s1.sp_pat(all, d).sp_has(i) == s2.sp_pat(
                        all,
                        d,
                    ).sp_has(i) {
                    lemma_pattern_ext(s1.sp_pat(all, d), s2.sp_pat(all, d));
                }
                let i = choose|i: int|
                    0 <= i < 81 && #[trigger] s1.sp_pat(all, d).sp_has(i) != s2.sp_pat(
                        all,
                        d,
                    ).sp_has(i);
                let d1 = (out@[jj]@[i]) as u8 - 49;
                let d2v = (line@[i]) as u8 - 49;
                assert(s1.sp_pat(all, d1 as int).sp_has(i));
                assert(s2.sp_pat(all, d2v as int).sp_has(i));
                if s1.sp_pat(all, d).sp_has(i) {
                    if (d1 as int) != d {
                        if (d1 as int) < d {
                            assert(s1.sp_pat(all, d1 as int).sp_disjoint(s1.sp_pat(all, d)));
                        } else {
                            assert(s1.sp_pat(all, d).sp_disjoint(s1.sp_pat(all, d1 as int)));
                        }
                        assert(false);
                    }
                    assert((d2v as int) != d);
                } else {
                    if (d2v as int) != d {
                        if (d2v as int) < d {
                            assert(s2.sp_pat(all, d2v as int).sp_disjoint(s2.sp_pat(all, d)));
                        } else {
                            assert(s2.sp_pat(all, d).sp_disjoint(s2.sp_pat(all, d2v as int)));
                        }
                        assert(false);
                    }
                    assert((d1 as int) != d);
                }
                assert(out@[jj]@[i] != line@[i]);
            };
        }
        out.push(line);
    }
    out
}

} // verus!
