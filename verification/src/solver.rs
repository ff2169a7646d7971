//! The backtracking solver: exhaustive depth-first search with
//! constraint pruning, proved sound (whatever it returns is solved and
//! keeps every clue) and complete (it fails only when no solved board
//! keeps the clues).

use vstd::prelude::*;

use crate::grid::block_seq;
use crate::grid::column_seq;
use crate::grid::complete;
use crate::grid::dcount;
use crate::grid::extends;
use crate::grid::lemma_dcount_at_least_two;
use crate::grid::lemma_solved_implies_complete;
use crate::grid::region_count;
use crate::grid::region_solved;
use crate::grid::row_seq;
use crate::grid::solvable;
use crate::grid::solved;
use crate::grid::Grid;
use crate::space::Space;
use crate::value::lemma_digit_injective;
use crate::value::lemma_digit_range;
use crate::value::Value;

verus! {

/// Digit `d` may be placed at `(x, y)`: no cell of the row, the column,
/// or the 3x3 block containing `(x, y)` already holds it. These are the
/// candidate digits of the search.
pub open spec fn allowed(g: Seq<Space>, x: int, y: int, d: int) -> bool {
    &&& dcount(row_seq(g, y), d) == 0
    &&& dcount(column_seq(g, x), d) == 0
    &&& dcount(block_seq(g, x / 3, y / 3), d) == 0
}

/// Some solved board keeps the clues of `g` and holds digit `d` at `(x, y)`.
pub open spec fn place_solvable(g: Seq<Space>, x: int, y: int, d: int) -> bool {
    exists|s: Seq<Space>| solved(s) && extends(s, g) && s[x + y * 9].digit() == d
}

/// How many cells of the board are empty: the depth left to the search.
pub open spec fn empty_count(g: Seq<Space>) -> nat
    decreases g.len(),
{
    if g.len() == 0 {
        0
    } else {
        empty_count(g.drop_last()) + (if g.last() is Empty {
            1nat
        } else {
            0nat
        })
    }
}

/// Counting a one-cell-longer prefix adds one exactly when the new cell
/// is empty.
pub proof fn lemma_empty_count_take_step(g: Seq<Space>, i: int)
    requires
        0 <= i < g.len(),
    ensures
        empty_count(g.take(i + 1)) == empty_count(g.take(i)) + (if g[i] is Empty {
            1nat
        } else {
            0nat
        }),
{
    assert(g.take(i + 1).drop_last() =~= g.take(i));
    assert(g.take(i + 1).last() == g[i]);
}

/// Occupying an empty cell lowers the number of empty cells by one.
proof fn lemma_empty_count_update(g: Seq<Space>, i: int, v: Value)
    requires
        0 <= i < g.len(),
        g[i] is Empty,
    ensures
        empty_count(g) == empty_count(g.update(i, Space::Occupied(v))) + 1,
    decreases g.len(),
{
    let u = g.update(i, Space::Occupied(v));
    if i == g.len() - 1 {
        assert(u.drop_last() =~= g.drop_last());
    } else {
        assert(u.drop_last() =~= g.drop_last().update(i, Space::Occupied(v)));
        lemma_empty_count_update(g.drop_last(), i, v);
    }
}

/// A positive count names a cell holding the digit.
proof fn lemma_dcount_pos_witness(r: Seq<Space>, d: int)
    requires
        dcount(r, d) > 0,
    ensures
        exists|k: int| 0 <= k < r.len() && (#[trigger] r[k]).digit() == d,
    decreases r.len(),
{
    if r.last().digit() == d {
        assert(r[r.len() - 1].digit() == d);
    } else {
        lemma_dcount_pos_witness(r.drop_last(), d);
        let k = choose|k: int| 0 <= k < r.len() - 1 && (#[trigger] r.drop_last()[k]).digit() == d;
        assert(r[k].digit() == d);
    }
}

/// Every board extends itself.
pub proof fn lemma_extends_self(g: Seq<Space>)
    requires
        g.len() == 81,
    ensures
        extends(g, g),
{
}

/// A digit that a clue of the same row, column or block already holds
/// cannot stand at `(x, y)` in any solved board that keeps the clues.
proof fn lemma_not_allowed_unplaceable(g: Seq<Space>, x: int, y: int, d: int)
    requires
        g.len() == 81,
        0 <= x < 9,
        0 <= y < 9,
        1 <= d <= 9,
        g[x + y * 9] is Empty,
        !allowed(g, x, y, d),
    ensures
        !place_solvable(g, x, y, d),
{
    assert forall|s: Seq<Space>| !(solved(s) && extends(s, g) && s[x + y * 9].digit() == d) by {
        if solved(s) && extends(s, g) && s[x + y * 9].digit() == d {
            if dcount(row_seq(g, y), d) > 0 {
                lemma_dcount_pos_witness(row_seq(g, y), d);
                let k = choose|k: int|
                    0 <= k < 9 && (#[trigger] row_seq(g, y)[k]).digit() == d;
                assert(g[k + y * 9].digit() == d);
                assert(g[k + y * 9] is Occupied);
                assert(s[k + y * 9] == g[k + y * 9]);
                assert(row_seq(s, y)[k].digit() == d);
                assert(row_seq(s, y)[x].digit() == d);
                assert(k != x);
                if k < x {
                    lemma_dcount_at_least_two(row_seq(s, y), d, k, x);
                } else {
                    lemma_dcount_at_least_two(row_seq(s, y), d, x, k);
                }
                assert(region_solved(row_seq(s, y)));
            } else if dcount(column_seq(g, x), d) > 0 {
                lemma_dcount_pos_witness(column_seq(g, x), d);
                let k = choose|k: int|
                    0 <= k < 9 && (#[trigger] column_seq(g, x)[k]).digit() == d;
                assert(g[x + k * 9].digit() == d);
                assert(g[x + k * 9] is Occupied);
                assert(s[x + k * 9] == g[x + k * 9]);
                assert(column_seq(s, x)[k].digit() == d);
                assert(column_seq(s, x)[y].digit() == d);
                assert(k != y);
                if k < y {
                    lemma_dcount_at_least_two(column_seq(s, x), d, k, y);
                } else {
                    lemma_dcount_at_least_two(column_seq(s, x), d, y, k);
                }
                assert(region_solved(column_seq(s, x)));
            } else {
                let bx = x / 3;
                let by = y / 3;
                assert(dcount(block_seq(g, bx, by), d) > 0);
                lemma_dcount_pos_witness(block_seq(g, bx, by), d);
                let k = choose|k: int|
                    0 <= k < 9 && (#[trigger] block_seq(g, bx, by)[k]).digit() == d;
                let k0 = (x % 3) + 3 * (y % 3);
                assert(block_seq(g, bx, by)[k] == g[(3 * bx + k % 3) + (3 * by + k / 3) * 9]);
                assert(block_seq(g, bx, by)[k0] == g[x + y * 9]);
                assert(k != k0);
                assert(s[(3 * bx + k % 3) + (3 * by + k / 3) * 9] == g[(3 * bx + k % 3) + (3
                    * by + k / 3) * 9]);
                assert(block_seq(s, bx, by)[k].digit() == d);
                assert(block_seq(s, bx, by)[k0].digit() == d);
                if k < k0 {
                    lemma_dcount_at_least_two(block_seq(s, bx, by), d, k, k0);
                } else {
                    lemma_dcount_at_least_two(block_seq(s, bx, by), d, k0, k);
                }
                assert(region_solved(block_seq(s, bx, by)));
            }
        }
    }
}

/// When filling an empty cell with `v` leads nowhere, no solved board
/// keeping the clues holds `v`'s digit there.
proof fn lemma_failed_branch_unplaceable(g: Seq<Space>, x: int, y: int, v: Value)
    requires
        g.len() == 81,
        0 <= x < 9,
        0 <= y < 9,
        g[x + y * 9] is Empty,
        !solvable(g.update(x + y * 9, Space::Occupied(v))),
    ensures
        !place_solvable(g, x, y, v.digit()),
{
    let u = g.update(x + y * 9, Space::Occupied(v));
    assert forall|s: Seq<Space>|
        !(solved(s) && extends(s, g) && s[x + y * 9].digit() == v.digit()) by {
        if solved(s) && extends(s, g) && s[x + y * 9].digit() == v.digit() {
            lemma_digit_range(v);
            assert(s[x + y * 9] is Occupied);
            let w = s[x + y * 9]->Occupied_0;
            lemma_digit_injective(w, v);
            assert(s[x + y * 9] == Space::Occupied(v));
            assert forall|i: int| 0 <= i < 81 && u[i] is Occupied implies s[i] == u[i] by {
                if i == x + y * 9 {
                } else {
                    assert(u[i] == g[i]);
                }
            }
            assert(extends(s, u));
            assert(solvable(u));
        }
    }
}

/// When no digit at all can stand at some empty cell, the board cannot
/// be solved.
proof fn lemma_no_digit_unsolvable(g: Seq<Space>, x: int, y: int)
    requires
        g.len() == 81,
        0 <= x < 9,
        0 <= y < 9,
        forall|e: int| 1 <= e <= 9 ==> !place_solvable(g, x, y, e),
    ensures
        !solvable(g),
{
    assert forall|s: Seq<Space>| !(solved(s) && extends(s, g)) by {
        if solved(s) && extends(s, g) {
            lemma_solved_implies_complete(s);
            assert(s[x + y * 9] is Occupied);
            let w = s[x + y * 9]->Occupied_0;
            lemma_digit_range(w);
            assert(s[x + y * 9].digit() == w.digit());
            assert(solved(s) && extends(s, g) && s[x + y * 9].digit() == w.digit());
            assert(place_solvable(g, x, y, w.digit()));
        }
    }
}

/// A complete board that is not solved cannot become one: its cells are
/// all fixed already.
proof fn lemma_complete_unsolved_unsolvable(g: Seq<Space>)
    requires
        g.len() == 81,
        complete(g),
        !solved(g),
    ensures
        !solvable(g),
{
    assert forall|s: Seq<Space>| !(solved(s) && extends(s, g)) by {
        if solved(s) && extends(s, g) {
            assert(s =~= g);
        }
    }
}

impl Grid {
    /// Whether digit `d` may be placed at `(x, y)`: it does not yet occur
    /// in the cell's row, column or 3x3 block.
    pub fn allowed_at(&self, x: u8, y: u8, d: u8) -> (r: bool)
        requires
            self.wf(),
            x < 9,
            y < 9,
        ensures
            r == allowed(self@, x as int, y as int, d as int),
    {
        let rvec = self.row(y);
        let cvec = self.column(x);
        let bvec = self.block(x / 3, y / 3);
        let cr = region_count(&rvec, d);
        let cc = region_count(&cvec, d);
        let cb = region_count(&bvec, d);
        cr == 0 && cc == 0 && cb == 0
    }

    /// The depth-first search itself. On success the grid holds a solved
    /// board keeping every clue of the starting one; on failure the grid
    /// is back in its starting state, which no solved board keeps.
    fn solve_rec(&mut self) -> (r: bool)
        requires
            old(self).wf(),
        ensures
            final(self).wf(),
            r ==> solved(final(self)@) && extends(final(self)@, old(self)@),
            !r ==> final(self)@ == old(self)@ && !solvable(old(self)@),
        decreases empty_count(old(self)@),
    {
        let ghost g0 = self@;
        let mut y: u8 = 0;
        while y < 9
            invariant
                self.wf(),
                self@ == g0,
                g0 == old(self)@,
                y <= 9,
                forall|j: int| 0 <= j < y * 9 ==> g0[j] is Occupied,
            decreases 9 - y,
        {
            let mut x: u8 = 0;
            while x < 9
                invariant
                    self.wf(),
                    self@ == g0,
                    g0 == old(self)@,
                    y < 9,
                    x <= 9,
                    forall|j: int| 0 <= j < y * 9 + x ==> g0[j] is Occupied,
                decreases 9 - x,
            {
                let s = self.get(x, y);
                if !s.is_occupied() {
                    let mut d: u8 = 1;
                    while d <= 9
                        invariant
                            self.wf(),
                            self@ == g0,
                            g0 == old(self)@,
                            x < 9,
                            y < 9,
                            1 <= d <= 10,
                            g0[x + y * 9] is Empty,
                            forall|e: int|
                                1 <= e < d ==> !place_solvable(g0, x as int, y as int, e),
                        decreases 10 - d,
                    {
                        if self.allowed_at(x, y, d) {
                            let v = Value::of_digit(d);
                            self.set(x, y, v);
                            proof {
                                lemma_empty_count_update(g0, x + y * 9, v);
                            }
                            let ok = self.solve_rec();
                            if ok {
                                proof {
                                    assert forall|i: int|
                                        0 <= i < 81 && g0[i] is Occupied implies self@[i]
                                        == g0[i] by {
                                        assert(g0.update(
                                            x + y * 9,
                                            Space::Occupied(v),
                                        )[i] is Occupied);
                                    }
                                }
                                return true;
                            }
                            self.set_empty(x, y);
                            proof {
                                assert(self@ =~= g0);
                                lemma_failed_branch_unplaceable(g0, x as int, y as int, v);
                            }
                        } else {
                            proof {
                                lemma_not_allowed_unplaceable(g0, x as int, y as int, d as int);
                            }
                        }
                        d = d + 1;
                    }
                    proof {
                        lemma_no_digit_unsolvable(g0, x as int, y as int);
                    }
                    return false;
                }
                x = x + 1;
            }
            y = y + 1;
        }
        proof {
            assert(complete(g0));
        }
        if self.is_solved() {
            proof {
                lemma_extends_self(g0);
            }
            true
        } else {
            proof {
                lemma_complete_unsolved_unsolvable(g0);
            }
            false
        }
    }

    /// Solves the grid by exhaustive depth-first search with backtracking.
    /// Returns a solved grid that keeps every clue, or `None` exactly when
    /// no solved grid keeps them. A grid that is already solved comes back
    /// unchanged.
    pub fn backtracking_solve(self) -> (r: Option<Grid>)
        requires
            self.wf(),
        ensures
            r matches Some(g) ==> g.wf() && solved(g@) && extends(g@, self@),
            r is None ==> !solvable(self@),
            solved(self@) ==> (r matches Some(g) && g@ == self@),
    {
        let ghost g0 = self@;
        let mut work = self;
        let ok = work.solve_rec();
        if ok {
            proof {
                if solved(g0) {
                    lemma_solved_implies_complete(g0);
                    assert(work@ =~= g0);
                }
            }
            Some(work)
        } else {
            proof {
                if solved(g0) {
                    lemma_extends_self(g0);
                    assert(solvable(g0));
                }
            }
            None
        }
    }

    /// A freshly generated solved grid: the solved empty grid. The search
    /// cannot fail here, because a solved board always exists.
    pub fn new_solved() -> (g: Grid)
        ensures
            g.wf(),
            solved(g@),
    {
        let e = Grid::empty();
        match e.solve() {
            Some(g) => g,
            None => {
                proof {
                    crate::canonical::lemma_empty_solvable();
                }
                vstd::pervasive::unreached()
            },
        }
    }

    /// Solves the grid; the backtracking search is the production path.
    pub fn solve(self) -> (r: Option<Grid>)
        requires
            self.wf(),
        ensures
            r matches Some(g) ==> g.wf() && solved(g@) && extends(g@, self@),
            r is None ==> !solvable(self@),
            solved(self@) ==> (r matches Some(g) && g@ == self@),
    {
        self.backtracking_solve()
    }
}

/// A grid holding the same symbol twice in one row cannot be solved:
/// no solved board keeps both clues.
pub proof fn lemma_row_conflict_unsolvable(g: Seq<Space>, x1: int, x2: int, y: int)
    requires
        g.len() == 81,
        0 <= x1 < x2 < 9,
        0 <= y < 9,
        g[x1 + y * 9] is Occupied,
        g[x1 + y * 9] == g[x2 + y * 9],
    ensures
        !solvable(g),
{
    let d = g[x1 + y * 9].digit();
    assert forall|s: Seq<Space>| !(solved(s) && extends(s, g)) by {
        if solved(s) && extends(s, g) {
            assert(s[x1 + y * 9] == g[x1 + y * 9]);
            assert(s[x2 + y * 9] == g[x2 + y * 9]);
            assert(row_seq(s, y)[x1].digit() == d);
            assert(row_seq(s, y)[x2].digit() == d);
            lemma_dcount_at_least_two(row_seq(s, y), d, x1, x2);
            assert(region_solved(row_seq(s, y)));
            let v = g[x1 + y * 9]->Occupied_0;
            lemma_digit_range(v);
        }
    }
}

} // verus!
