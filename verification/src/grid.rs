//! The board: the 81-cell grid, its mathematical model, region
//! extraction, constraint sets, and the completeness and solved-state
//! checks.

use vstd::prelude::*;

use crate::space::Space;
use crate::value::Error;
use crate::value::Value;

verus! {

/// The 81-cell board, addressed by `(x, y)` with `x, y` in `0 ..= 8`,
/// stored row-major: cell `(x, y)` lives at index `x + y * 9`.
#[derive(Clone, Debug)]
pub struct Grid {
    spaces: Vec<Space>,
}

/// The board of a well-formed grid: a sequence of exactly 81 cells.
impl View for Grid {
    type V = Seq<Space>;

    closed spec fn view(&self) -> Seq<Space> {
        self.spaces@
    }
}

/// The all-empty board.
pub open spec fn empty_grid() -> Seq<Space> {
    Seq::new(81, |i: int| Space::Empty)
}

/// The given cells padded with empty cells to a full 81-cell board.
pub open spec fn pad81(ds: Seq<Space>) -> Seq<Space> {
    ds + Seq::new((81 - ds.len()) as nat, |i: int| Space::Empty)
}

/// The nine cells of row `y`, left to right.
pub open spec fn row_seq(g: Seq<Space>, y: int) -> Seq<Space> {
    Seq::new(9, |x: int| g[x + y * 9])
}

/// The nine cells of column `x`, top to bottom.
pub open spec fn column_seq(g: Seq<Space>, x: int) -> Seq<Space> {
    Seq::new(9, |y: int| g[x + y * 9])
}

/// The nine cells of the 3x3 block at block coordinates `(bx, by)`,
/// left to right within each line, top line first.
pub open spec fn block_seq(g: Seq<Space>, bx: int, by: int) -> Seq<Space> {
    Seq::new(9, |k: int| g[(3 * bx + k % 3) + (3 * by + k / 3) * 9])
}

/// How many cells of `r` hold the digit `d`.
pub open spec fn dcount(r: Seq<Space>, d: int) -> nat
    decreases r.len(),
{
    if r.len() == 0 {
        0
    } else {
        dcount(r.drop_last(), d) + (if r.last().digit() == d {
            1nat
        } else {
            0nat
        })
    }
}

/// A region (row, column or block) is solved when its nine cells are all
/// occupied and hold each of the nine symbols exactly once: a permutation
/// of the nine values.
pub open spec fn region_solved(r: Seq<Space>) -> bool {
    &&& r.len() == 9
    &&& forall|k: int| 0 <= k < 9 ==> r[k] is Occupied
    &&& forall|d: int| 1 <= d <= 9 ==> dcount(r, d) == 1
}

/// A board is complete when every one of its 81 cells is occupied.
pub open spec fn complete(g: Seq<Space>) -> bool {
    forall|i: int| 0 <= i < 81 ==> g[i] is Occupied
}

/// A board is solved when every row, every column and every one of the
/// nine 3x3 blocks is a permutation of the nine values.
pub open spec fn solved(g: Seq<Space>) -> bool {
    &&& forall|y: int| 0 <= y < 9 ==> region_solved(row_seq(g, y))
    &&& forall|x: int| 0 <= x < 9 ==> region_solved(column_seq(g, x))
    &&& forall|bx: int, by: int|
        0 <= bx < 3 && 0 <= by < 3 ==> region_solved(block_seq(g, bx, by))
}

/// Board `s` keeps every clue of board `g`: wherever `g` is occupied,
/// `s` holds the same cell.
pub open spec fn extends(s: Seq<Space>, g: Seq<Space>) -> bool {
    &&& s.len() == 81
    &&& forall|i: int| 0 <= i < 81 && g[i] is Occupied ==> s[i] == g[i]
}

/// A board can be solved: some solved board keeps all of its clues.
pub open spec fn solvable(g: Seq<Space>) -> bool {
    exists|s: Seq<Space>| solved(s) && extends(s, g)
}

impl Grid {
    /// A grid always holds exactly 81 cells.
    pub open spec fn wf(&self) -> bool {
        self@.len() == 81
    }

    /// The grid with every cell empty.
    pub fn empty() -> (g: Grid)
        ensures
            g.wf(),
            g@ == empty_grid(),
    {
        let mut spaces: Vec<Space> = Vec::new();
        let mut i: usize = 0;
        while i < 81
            invariant
                i <= 81,
                spaces@.len() == i,
                forall|j: int| 0 <= j < i ==> spaces@[j] is Empty,
            decreases 81 - i,
        {
            spaces.push(Space::Empty);
            i = i + 1;
        }
        let g = Grid { spaces };
        proof {
            assert(g@ =~= empty_grid());
        }
        g
    }

    /// The cell at `(x, y)`.
    pub fn get(&self, x: u8, y: u8) -> (s: Space)
        requires
            self.wf(),
            x < 9,
            y < 9,
        ensures
            s == self@[x + y * 9],
    {
        let i: usize = (x as usize) + (y as usize) * 9;
        self.spaces[i]
    }

    /// Marks the cell at `(x, y)` occupied by `v`; every other cell is kept.
    pub fn set(&mut self, x: u8, y: u8, v: Value)
        requires
            old(self).wf(),
            x < 9,
            y < 9,
        ensures
            final(self).wf(),
            final(self)@ == old(self)@.update(x + y * 9, Space::Occupied(v)),
    {
        let i: usize = (x as usize) + (y as usize) * 9;
        self.spaces[i] = Space::Occupied(v);
    }

    /// Marks the cell at `(x, y)` empty; every other cell is kept.
    pub fn set_empty(&mut self, x: u8, y: u8)
        requires
            old(self).wf(),
            x < 9,
            y < 9,
        ensures
            final(self).wf(),
            final(self)@ == old(self)@.update(x + y * 9, Space::Empty),
    {
        let i: usize = (x as usize) + (y as usize) * 9;
        self.spaces[i] = Space::Empty;
    }

    /// An identical copy of the grid, cell for cell.
    pub fn duplicate(&self) -> (g: Grid)
        requires
            self.wf(),
        ensures
            g.wf(),
            g@ == self@,
    {
        let mut spaces: Vec<Space> = Vec::new();
        let mut i: usize = 0;
        while i < 81
            invariant
                self.wf(),
                i <= 81,
                spaces@.len() == i,
                forall|j: int| 0 <= j < i ==> spaces@[j] == self@[j],
            decreases 81 - i,
        {
            spaces.push(self.spaces[i]);
            i = i + 1;
        }
        let g = Grid { spaces };
        proof {
            assert(g@ =~= self@);
        }
        g
    }

    /// Builds a grid from a flat row-major sequence of digits, 0 for an
    /// empty cell and 1 ..= 9 for an occupied one. A sequence shorter than
    /// 81 digits leaves the remaining cells empty; one longer than 81 is
    /// rejected as `Error::Parse`, and a digit above 9 as
    /// `Error::InvalidValue`.
    pub fn from_digits(digits: &Vec<u8>) -> (r: Result<Grid, Error>)
        ensures
            digits@.len() > 81 ==> r == Err::<Grid, Error>(Error::Parse),
            digits@.len() <= 81 && (exists|i: int|
                0 <= i < digits@.len() && digits@[i] > 9) ==> r == Err::<Grid, Error>(
                Error::InvalidValue,
            ),
            digits@.len() <= 81 && (forall|i: int|
                0 <= i < digits@.len() ==> digits@[i] <= 9) ==> (r matches Ok(g) && g.wf()
                && (forall|i: int| 0 <= i < digits@.len() ==> g@[i].digit() == digits@[i])
                && (forall|i: int| digits@.len() <= i < 81 ==> g@[i] is Empty)),
    {
        if digits.len() > 81 {
            return Err(Error::Parse);
        }
        let mut spaces: Vec<Space> = Vec::new();
        let mut i: usize = 0;
        while i < digits.len()
            invariant
                i <= digits@.len() <= 81,
                spaces@.len() == i,
                forall|j: int| 0 <= j < i ==> digits@[j] <= 9,
                forall|j: int| 0 <= j < i ==> spaces@[j].digit() == digits@[j],
            decreases digits@.len() - i,
        {
            match Space::from_digit(digits[i]) {
                Ok(s) => spaces.push(s),
                Err(e) => {
                    return Err(e);
                },
            }
            i = i + 1;
        }
        while i < 81
            invariant
                i <= 81,
                spaces@.len() == i,
                digits@.len() <= i,
                forall|j: int| 0 <= j < digits@.len() ==> spaces@[j].digit() == digits@[j],
                forall|j: int| digits@.len() <= j < i ==> spaces@[j] is Empty,
            decreases 81 - i,
        {
            spaces.push(Space::Empty);
            i = i + 1;
        }
        Ok(Grid { spaces })
    }

    /// Whether every cell of the grid is occupied.
    pub fn is_complete(&self) -> (r: bool)
        requires
            self.wf(),
        ensures
            r == complete(self@),
    {
        let mut i: usize = 0;
        while i < 81
            invariant
                self.wf(),
                i <= 81,
                forall|j: int| 0 <= j < i ==> self@[j] is Occupied,
            decreases 81 - i,
        {
            if !self.spaces[i].is_occupied() {
                return false;
            }
            i = i + 1;
        }
        true
    }

    /// The nine cells of row `y`, left to right.
    pub fn row(&self, y: u8) -> (r: Vec<Space>)
        requires
            self.wf(),
            y < 9,
        ensures
            r@ == row_seq(self@, y as int),
    {
        let mut r: Vec<Space> = Vec::new();
        let mut x: u8 = 0;
        while x < 9
            invariant
                self.wf(),
                y < 9,
                x <= 9,
                r@.len() == x,
                forall|j: int| 0 <= j < x ==> r@[j] == row_seq(self@, y as int)[j],
            decreases 9 - x,
        {
            r.push(self.get(x, y));
            x = x + 1;
        }
        proof {
            assert(r@ =~= row_seq(self@, y as int));
        }
        r
    }

    /// The nine cells of column `x`, top to bottom.
    pub fn column(&self, x: u8) -> (r: Vec<Space>)
        requires
            self.wf(),
            x < 9,
        ensures
            r@ == column_seq(self@, x as int),
    {
        let mut r: Vec<Space> = Vec::new();
        let mut y: u8 = 0;
        while y < 9
            invariant
                self.wf(),
                x < 9,
                y <= 9,
                r@.len() == y,
                forall|j: int| 0 <= j < y ==> r@[j] == column_seq(self@, x as int)[j],
            decreases 9 - y,
        {
            r.push(self.get(x, y));
            y = y + 1;
        }
        proof {
            assert(r@ =~= column_seq(self@, x as int));
        }
        r
    }

    /// The nine cells of the 3x3 block at block coordinates `(bx, by)`.
    pub fn block(&self, bx: u8, by: u8) -> (r: Vec<Space>)
        requires
            self.wf(),
            bx < 3,
            by < 3,
        ensures
            r@ == block_seq(self@, bx as int, by as int),
    {
        let mut r: Vec<Space> = Vec::new();
        let mut k: u8 = 0;
        while k < 9
            invariant
                self.wf(),
                bx < 3,
                by < 3,
                k <= 9,
                r@.len() == k,
                forall|j: int| 0 <= j < k ==> r@[j] == block_seq(self@, bx as int, by as int)[j],
            decreases 9 - k,
        {
            let x: u8 = 3 * bx + k % 3;
            let y: u8 = 3 * by + k / 3;
            r.push(self.get(x, y));
            k = k + 1;
        }
        proof {
            assert(r@ =~= block_seq(self@, bx as int, by as int));
        }
        r
    }

    /// The set of values already occupying row `y`: each value once,
    /// whatever the order.
    pub fn row_values(&self, y: u8) -> (r: Vec<Value>)
        requires
            self.wf(),
            y < 9,
        ensures
            forall|v: Value|
                r@.contains(v) <==> exists|k: int|
                    0 <= k < 9 && row_seq(self@, y as int)[k] == Space::Occupied(v),
            forall|i: int, j: int| 0 <= i < j < r@.len() ==> r@[i] != r@[j],
    {
        let cells = self.row(y);
        occupied_values(&cells)
    }

    /// The set of values already occupying column `x`: each value once,
    /// whatever the order.
    pub fn column_values(&self, x: u8) -> (r: Vec<Value>)
        requires
            self.wf(),
            x < 9,
        ensures
            forall|v: Value|
                r@.contains(v) <==> exists|k: int|
                    0 <= k < 9 && column_seq(self@, x as int)[k] == Space::Occupied(v),
            forall|i: int, j: int| 0 <= i < j < r@.len() ==> r@[i] != r@[j],
    {
        let cells = self.column(x);
        occupied_values(&cells)
    }

    /// The set of values already occupying the 3x3 block that contains
    /// cell `(x, y)`: each value once, whatever the order.
    pub fn block_values(&self, x: u8, y: u8) -> (r: Vec<Value>)
        requires
            self.wf(),
            x < 9,
            y < 9,
        ensures
            forall|v: Value|
                r@.contains(v) <==> exists|k: int|
                    0 <= k < 9 && #[trigger] block_seq(self@, x as int / 3, y as int / 3)[k]
                        == Space::Occupied(v),
            forall|i: int, j: int| 0 <= i < j < r@.len() ==> r@[i] != r@[j],
    {
        let cells = self.block(x / 3, y / 3);
        occupied_values(&cells)
    }

    /// Whether the grid is solved: complete, with every row, column and
    /// block holding each of the nine symbols exactly once.
    pub fn is_solved(&self) -> (r: bool)
        requires
            self.wf(),
        ensures
            r == solved(self@),
    {
        let mut y: u8 = 0;
        while y < 9
            invariant
                self.wf(),
                y <= 9,
                forall|j: int| 0 <= j < y ==> region_solved(row_seq(self@, j)),
            decreases 9 - y,
        {
            let cells = self.row(y);
            if !region_check(&cells) {
                return false;
            }
            y = y + 1;
        }
        let mut x: u8 = 0;
        while x < 9
            invariant
                self.wf(),
                x <= 9,
                forall|j: int| 0 <= j < 9 ==> region_solved(row_seq(self@, j)),
                forall|j: int| 0 <= j < x ==> region_solved(column_seq(self@, j)),
            decreases 9 - x,
        {
            let cells = self.column(x);
            if !region_check(&cells) {
                return false;
            }
            x = x + 1;
        }
        let mut b: u8 = 0;
        while b < 9
            invariant
                self.wf(),
                b <= 9,
                forall|j: int| 0 <= j < 9 ==> region_solved(row_seq(self@, j)),
                forall|j: int| 0 <= j < 9 ==> region_solved(column_seq(self@, j)),
                forall|j: int|
                    0 <= j < b ==> region_solved(#[trigger] block_seq(self@, j % 3, j / 3)),
            decreases 9 - b,
        {
            let cells = self.block(b % 3, b / 3);
            if !region_check(&cells) {
                return false;
            }
            b = b + 1;
        }
        proof {
            assert forall|bx: int, by: int|
                0 <= bx < 3 && 0 <= by < 3 implies region_solved(
                block_seq(self@, bx, by),
            ) by {
                let j = by * 3 + bx;
                assert(region_solved(block_seq(self@, j % 3, j / 3)));
            }
        }
        true
    }
}

/// Whether the vector already holds the value.
fn contains_value(r: &Vec<Value>, v: Value) -> (b: bool)
    ensures
        b == r@.contains(v),
{
    let mut i: usize = 0;
    while i < r.len()
        invariant
            i <= r@.len(),
            forall|j: int| 0 <= j < i ==> r@[j] != v,
        decreases r@.len() - i,
    {
        if r[i] == v {
            proof {
                assert(r@[i as int] == v);
            }
            return true;
        }
        i = i + 1;
    }
    false
}

/// The distinct values occupying the given nine cells, in first-seen
/// order.
fn occupied_values(cells: &Vec<Space>) -> (r: Vec<Value>)
    requires
        cells@.len() == 9,
    ensures
        forall|v: Value|
            r@.contains(v) <==> exists|k: int| 0 <= k < 9 && cells@[k] == Space::Occupied(v),
        forall|i: int, j: int| 0 <= i < j < r@.len() ==> r@[i] != r@[j],
{
    let mut r: Vec<Value> = Vec::new();
    let mut k: usize = 0;
    while k < 9
        invariant
            cells@.len() == 9,
            k <= 9,
            forall|v: Value|
                r@.contains(v) <==> exists|k2: int|
                    0 <= k2 < k && cells@[k2] == Space::Occupied(v),
            forall|i: int, j: int| 0 <= i < j < r@.len() ==> r@[i] != r@[j],
        decreases 9 - k,
    {
        let ghost prev = r@;
        match cells[k] {
            Space::Occupied(v) => {
                if !contains_value(&r, v) {
                    r.push(v);
                    proof {
                        assert forall|w: Value| r@.contains(w) implies exists|k2: int|
                            0 <= k2 < k + 1 && cells@[k2] == Space::Occupied(w) by {
                            let idx = choose|idx: int| 0 <= idx < r@.len() && r@[idx] == w;
                            if idx < prev.len() {
                                assert(prev[idx] == w);
                                assert(prev.contains(w));
                            } else {
                                assert(w == v);
                                assert(cells@[k as int] == Space::Occupied(w));
                            }
                        }
                        assert forall|w: Value|
                            (exists|k2: int| 0 <= k2 < k + 1 && cells@[k2] == Space::Occupied(w))
                            implies r@.contains(w) by {
                            let k2 = choose|k2: int|
                                0 <= k2 < k + 1 && cells@[k2] == Space::Occupied(w);
                            if k2 < k {
                                assert(prev.contains(w));
                                let idx = choose|idx: int|
                                    0 <= idx < prev.len() && prev[idx] == w;
                                assert(r@[idx] == w);
                            } else {
                                assert(r@[prev.len() as int] == w);
                            }
                        }
                    }
                } else {
                    proof {
                        assert forall|w: Value|
                            (exists|k2: int| 0 <= k2 < k + 1 && cells@[k2] == Space::Occupied(w))
                            implies r@.contains(w) by {
                            let k2 = choose|k2: int|
                                0 <= k2 < k + 1 && cells@[k2] == Space::Occupied(w);
                            if k2 == k {
                                assert(w == v);
                            }
                        }
                    }
                }
            },
            Space::Empty => {
                proof {
                    assert forall|w: Value|
                        (exists|k2: int| 0 <= k2 < k + 1 && cells@[k2] == Space::Occupied(w))
                        implies r@.contains(w) by {
                        let k2 = choose|k2: int|
                            0 <= k2 < k + 1 && cells@[k2] == Space::Occupied(w);
                        assert(k2 < k);
                    }
                }
            },
        }
        k = k + 1;
    }
    r
}

/// Whether the nine given cells are a permutation of the nine symbols.
fn region_check(cells: &Vec<Space>) -> (r: bool)
    requires
        cells@.len() == 9,
    ensures
        r == region_solved(cells@),
{
    let mut k: usize = 0;
    while k < 9
        invariant
            cells@.len() == 9,
            k <= 9,
            forall|j: int| 0 <= j < k ==> cells@[j] is Occupied,
        decreases 9 - k,
    {
        if !cells[k].is_occupied() {
            return false;
        }
        k = k + 1;
    }
    let mut d: u8 = 1;
    while d <= 9
        invariant
            cells@.len() == 9,
            1 <= d <= 10,
            forall|j: int| 0 <= j < 9 ==> cells@[j] is Occupied,
            forall|e: int| 1 <= e < d ==> dcount(cells@, e) == 1,
        decreases 10 - d,
    {
        let count = region_count(cells, d);
        if count != 1 {
            return false;
        }
        d = d + 1;
    }
    true
}

/// How many of the nine given cells hold the digit `d`.
pub fn region_count(cells: &Vec<Space>, d: u8) -> (n: u8)
    requires
        cells@.len() == 9,
    ensures
        n == dcount(cells@, d as int),
{
    let mut count: u8 = 0;
    let mut k: usize = 0;
    while k < 9
        invariant
            cells@.len() == 9,
            k <= 9,
            count <= k,
            count == dcount(cells@.take(k as int), d as int),
        decreases 9 - k,
    {
        proof {
            lemma_dcount_take_step(cells@, d as int, k as int);
        }
        if cells[k].to_digit() == d {
            count = count + 1;
        }
        k = k + 1;
    }
    proof {
        assert(cells@.take(9) =~= cells@);
    }
    count
}

/// Counting a one-cell-longer prefix adds one exactly when the new cell
/// holds the digit.
pub proof fn lemma_dcount_take_step(r: Seq<Space>, d: int, k: int)
    requires
        0 <= k < r.len(),
    ensures
        dcount(r.take(k + 1), d) == dcount(r.take(k), d) + (if r[k].digit() == d {
            1nat
        } else {
            0nat
        }),
{
    assert(r.take(k + 1).drop_last() =~= r.take(k));
    assert(r.take(k + 1).last() == r[k]);
}

/// A cell holding digit `d` makes the count of `d` positive.
pub proof fn lemma_dcount_at_least_one(r: Seq<Space>, d: int, i: int)
    requires
        0 <= i < r.len(),
        r[i].digit() == d,
    ensures
        dcount(r, d) >= 1,
    decreases r.len(),
{
    if i == r.len() - 1 {
    } else {
        lemma_dcount_at_least_one(r.drop_last(), d, i);
    }
}

/// Two distinct cells holding digit `d` push the count of `d` to two.
pub proof fn lemma_dcount_at_least_two(r: Seq<Space>, d: int, i: int, j: int)
    requires
        0 <= i < j < r.len(),
        r[i].digit() == d,
        r[j].digit() == d,
    ensures
        dcount(r, d) >= 2,
    decreases r.len(),
{
    if j == r.len() - 1 {
        lemma_dcount_at_least_one(r.drop_last(), d, i);
    } else {
        lemma_dcount_at_least_two(r.drop_last(), d, i, j);
    }
}

/// When no cell holds digit `d`, the count of `d` is zero.
pub proof fn lemma_dcount_zero(r: Seq<Space>, d: int)
    requires
        forall|j: int| 0 <= j < r.len() ==> r[j].digit() != d,
    ensures
        dcount(r, d) == 0,
    decreases r.len(),
{
    if r.len() > 0 {
        lemma_dcount_zero(r.drop_last(), d);
    }
}

/// When exactly one cell holds digit `d`, the count of `d` is one.
pub proof fn lemma_dcount_exactly_one(r: Seq<Space>, d: int, w: int)
    requires
        0 <= w < r.len(),
        r[w].digit() == d,
        forall|j: int| 0 <= j < r.len() && j != w ==> r[j].digit() != d,
    ensures
        dcount(r, d) == 1,
    decreases r.len(),
{
    if w == r.len() - 1 {
        lemma_dcount_zero(r.drop_last(), d);
    } else {
        lemma_dcount_exactly_one(r.drop_last(), d, w);
    }
}

/// A solved board is complete: every cell sits in a solved row, and every
/// cell of a solved region is occupied.
pub proof fn lemma_solved_implies_complete(g: Seq<Space>)
    requires
        g.len() == 81,
        solved(g),
    ensures
        complete(g),
{
    assert forall|i: int| 0 <= i < 81 implies g[i] is Occupied by {
        let y = i / 9;
        let x = i % 9;
        assert(region_solved(row_seq(g, y)));
        assert(row_seq(g, y)[x] is Occupied);
        assert(row_seq(g, y)[x] == g[x + y * 9]);
    }
}

impl PartialEq for Grid {
    /// Two grids are equal when all their cells agree.
    fn eq(&self, other: &Grid) -> (r: bool) {
        if self.spaces.len() != other.spaces.len() {
            return false;
        }
        let mut i: usize = 0;
        while i < self.spaces.len()
            invariant
                self@.len() == other@.len(),
                i <= self@.len(),
                forall|j: int| 0 <= j < i ==> self@[j] == other@[j],
            decreases self@.len() - i,
        {
            if self.spaces[i] != other.spaces[i] {
                return false;
            }
            i = i + 1;
        }
        proof {
            assert(self@ =~= other@);
        }
        true
    }
}

impl Eq for Grid {

}

impl vstd::std_specs::cmp::PartialEqSpecImpl for Grid {
    open spec fn obeys_eq_spec() -> bool {
        true
    }

    open spec fn eq_spec(&self, other: &Grid) -> bool {
        self@ == other@
    }
}

} // verus!
