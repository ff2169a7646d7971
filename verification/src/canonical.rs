//! A solved board written down as a formula, witnessing that the
//! empty grid can always be solved.

use vstd::prelude::*;

use crate::grid::block_seq;
use crate::grid::column_seq;
use crate::grid::dcount;
use crate::grid::empty_grid;
use crate::grid::extends;
use crate::grid::lemma_dcount_exactly_one;
use crate::grid::region_solved;
use crate::grid::row_seq;
use crate::grid::solvable;
use crate::grid::solved;
use crate::space::Space;
use crate::value::lemma_value_of_digit;
use crate::value::value_of_digit;

verus! {

/// The digit of the canonical solved board at column `x`, row `y`:
/// row `y` carries the digit line 1 ..= 9 rotated left by
/// `3 * (y % 3) + y / 3` places, the classic shifted pattern.
pub open spec fn canon_digit(x: int, y: int) -> int {
    ((x + 3 * (y % 3) + y / 3) % 9) + 1
}

/// One fixed solved board, written down as a formula.
pub open spec fn canon_grid() -> Seq<Space> {
    Seq::new(81, |i: int| Space::Occupied(value_of_digit(canon_digit(i % 9, i / 9))))
}

/// Walking an offset through a cycle of nine digits meets each digit
/// exactly once: `(base + k) % 9 == d - 1` has exactly one solution
/// `k` in `0 ..= 8`.
proof fn lemma_offset_cycle(base: int, d: int)
    requires
        0 <= base < 9,
        1 <= d <= 9,
    ensures
        ({
            let k0 = (d - 1 - base + 9) % 9;
            &&& 0 <= k0 < 9
            &&& (base + k0) % 9 == d - 1
            &&& forall|j: int| 0 <= j < 9 && j != k0 ==> #[trigger] ((base + j) % 9) != d - 1
        }),
{
    let k0 = (d - 1 - base + 9) % 9;
    assert(0 <= k0 < 9);
    assert((base + k0) % 9 == d - 1) by {
        if d - 1 - base >= 0 {
            assert(k0 == d - 1 - base);
        } else {
            assert(k0 == d - 1 - base + 9);
        }
    }
    assert forall|j: int| 0 <= j < 9 && j != k0 implies #[trigger] ((base + j) % 9) != d
        - 1 by {
        if base + j < 9 {
            assert((base + j) % 9 == base + j);
        } else {
            assert((base + j) % 9 == base + j - 9);
        }
    }
}

/// The cell of the canonical board at index `i` holds the digit of its
/// coordinates.
proof fn lemma_canon_cell(x: int, y: int)
    requires
        0 <= x < 9,
        0 <= y < 9,
    ensures
        canon_grid()[x + y * 9] is Occupied,
        canon_grid()[x + y * 9].digit() == canon_digit(x, y),
        1 <= canon_digit(x, y) <= 9,
{
    let i = x + y * 9;
    assert(i % 9 == x && i / 9 == y);
    lemma_value_of_digit(canon_digit(x, y));
}

/// Every row of the canonical board is a permutation of the nine digits.
proof fn lemma_canon_row(y: int)
    requires
        0 <= y < 9,
    ensures
        region_solved(row_seq(canon_grid(), y)),
{
    let w = canon_grid();
    let r = row_seq(w, y);
    let base = 3 * (y % 3) + y / 3;
    assert(0 <= base < 9);
    assert forall|k: int| 0 <= k < 9 implies r[k] is Occupied by {
        lemma_canon_cell(k, y);
    }
    assert forall|d: int| 1 <= d <= 9 implies dcount(r, d) == 1 by {
        lemma_offset_cycle(base, d);
        let k0 = (d - 1 - base + 9) % 9;
        lemma_canon_cell(k0, y);
        assert(r[k0].digit() == d);
        assert forall|j: int| 0 <= j < 9 && j != k0 implies r[j].digit() != d by {
            lemma_canon_cell(j, y);
            assert(canon_digit(j, y) == (base + j) % 9 + 1);
        }
        lemma_dcount_exactly_one(r, d, k0);
    }
}

/// Every column of the canonical board is a permutation of the nine
/// digits: the row offsets `3 * (y % 3) + y / 3` themselves run through
/// all nine residues as `y` runs through the nine rows.
proof fn lemma_canon_column(x: int)
    requires
        0 <= x < 9,
    ensures
        region_solved(column_seq(canon_grid(), x)),
{
    let w = canon_grid();
    let c = column_seq(w, x);
    assert forall|k: int| 0 <= k < 9 implies c[k] is Occupied by {
        lemma_canon_cell(x, k);
    }
    assert forall|d: int| 1 <= d <= 9 implies dcount(c, d) == 1 by {
        lemma_offset_cycle(x, d);
        let s0 = (d - 1 - x + 9) % 9;
        let y0 = 3 * (s0 % 3) + s0 / 3;
        assert(0 <= y0 < 9);
        assert(3 * (y0 % 3) + y0 / 3 == s0);
        lemma_canon_cell(x, y0);
        assert(canon_digit(x, y0) == (x + s0) % 9 + 1);
        assert(c[y0].digit() == d);
        assert forall|j: int| 0 <= j < 9 && j != y0 implies c[j].digit() != d by {
            lemma_canon_cell(x, j);
            let sj = 3 * (j % 3) + j / 3;
            assert(canon_digit(x, j) == (x + sj) % 9 + 1);
            assert(sj != s0);
        }
        lemma_dcount_exactly_one(c, d, y0);
    }
}

/// Every 3x3 block of the canonical board is a permutation of the nine
/// digits: within block `(bx, by)` the cell at block position `k` holds
/// digit `(3 * bx + by + k) % 9 + 1`.
proof fn lemma_canon_block(bx: int, by: int)
    requires
        0 <= bx < 3,
        0 <= by < 3,
    ensures
        region_solved(block_seq(canon_grid(), bx, by)),
{
    let w = canon_grid();
    let b = block_seq(w, bx, by);
    let base = (3 * bx + by) % 9;
    assert(0 <= base < 9);
    assert forall|k: int| 0 <= k < 9 implies b[k] is Occupied by {
        lemma_canon_cell(3 * bx + k % 3, 3 * by + k / 3);
    }
    assert forall|k: int| 0 <= k < 9 implies #[trigger] b[k].digit() == (base + k) % 9
        + 1 by {
        let x = 3 * bx + k % 3;
        let y = 3 * by + k / 3;
        lemma_canon_cell(x, y);
        assert(y % 3 == k / 3 && y / 3 == by);
        assert(canon_digit(x, y) == ((3 * bx + k % 3 + 3 * (k / 3) + by) % 9) + 1);
        assert(k % 3 + 3 * (k / 3) == k);
        assert((3 * bx + by + k) % 9 == (base + k) % 9) by {
            if 3 * bx + by < 9 {
            } else {
                assert(base == 3 * bx + by - 9);
            }
        }
    }
    assert forall|d: int| 1 <= d <= 9 implies dcount(b, d) == 1 by {
        lemma_offset_cycle(base, d);
        let k0 = (d - 1 - base + 9) % 9;
        assert(b[k0].digit() == d);
        assert forall|j: int| 0 <= j < 9 && j != k0 implies b[j].digit() != d by {
            assert(b[j].digit() == (base + j) % 9 + 1);
        }
        lemma_dcount_exactly_one(b, d, k0);
    }
}

/// The canonical board is solved.
pub proof fn lemma_canon_solved()
    ensures
        canon_grid().len() == 81,
        solved(canon_grid()),
{
    assert forall|y: int| 0 <= y < 9 implies region_solved(row_seq(canon_grid(), y)) by {
        lemma_canon_row(y);
    }
    assert forall|x: int| 0 <= x < 9 implies region_solved(column_seq(canon_grid(), x)) by {
        lemma_canon_column(x);
    }
    assert forall|bx: int, by: int| 0 <= bx < 3 && 0 <= by < 3 implies region_solved(
        block_seq(canon_grid(), bx, by),
    ) by {
        lemma_canon_block(bx, by);
    }
}

/// The empty grid can always be solved: a solved board exists, and every
/// solved board keeps the (absent) clues of the empty grid.
pub proof fn lemma_empty_solvable()
    ensures
        solvable(empty_grid()),
{
    lemma_canon_solved();
    assert(extends(canon_grid(), empty_grid()));
    assert(solved(canon_grid()) && extends(canon_grid(), empty_grid()));
}

} // verus!
