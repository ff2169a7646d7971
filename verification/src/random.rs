//! The randomized solver: shuffle the missing values, write them into
//! the empty cells, and keep the outcome only when it checks out.

use vstd::prelude::*;

use rand::seq::SliceRandom;

use crate::grid::extends;
use crate::grid::lemma_solved_implies_complete;
use crate::grid::solved;
use crate::grid::Grid;
use crate::solver::empty_count;
use crate::solver::lemma_empty_count_take_step;
use crate::space::Space;
use crate::value::Value;

verus! {

/// How many random fillings are tried before the randomized solver
/// gives up. An unbounded retry loop would be a correct Las Vegas
/// search but could run forever; the cap keeps every run finite and
/// reports the failure instead.
pub const MAX_ATTEMPTS: u32 = 1000;

/// Relies on rand's `SliceRandom::shuffle`: a Fisher-Yates shuffle
/// rearranges the slice in place, so the result holds exactly the old
/// elements, in some order.
#[verifier::external_body]
fn shuffle_values(values: &mut Vec<Value>)
    ensures
        final(values)@.len() == old(values)@.len(),
        final(values)@.to_multiset() == old(values)@.to_multiset(),
{
    values.shuffle(&mut rand::thread_rng());
}

/// The board `g` with the given values assigned, in order, to its empty
/// cells in row-major order. Empty cells beyond the supply of values
/// stay empty; values beyond the empty cells stay unused.
pub open spec fn filled(g: Seq<Space>, vs: Seq<Value>) -> Seq<Space> {
    Seq::new(
        g.len(),
        |i: int|
            if g[i] is Occupied {
                g[i]
            } else if empty_count(g.take(i)) < vs.len() {
                Space::Occupied(vs[empty_count(g.take(i)) as int])
            } else {
                g[i]
            },
    )
}

impl Grid {
    /// One attempt of the randomized search: assigns the given values to
    /// the empty cells in row-major order and keeps the grid exactly
    /// when the outcome is solved.
    pub fn attempt_fill(&self, values: &Vec<Value>) -> (r: Option<Grid>)
        requires
            self.wf(),
        ensures
            r matches Some(g) ==> g.wf() && g@ == filled(self@, values@) && solved(g@)
                && extends(g@, self@),
            r is None ==> !solved(filled(self@, values@)),
    {
        let mut g = self.duplicate();
        let mut vi: usize = 0;
        let mut i: usize = 0;
        while i < 81
            invariant
                self.wf(),
                g.wf(),
                i <= 81,
                vi <= values@.len(),
                vi as int == (if empty_count(self@.take(i as int)) <= values@.len() {
                    empty_count(self@.take(i as int)) as int
                } else {
                    values@.len() as int
                }),
                forall|j: int| 0 <= j < i ==> g@[j] == filled(self@, values@)[j],
                forall|j: int| i <= j < 81 ==> g@[j] == self@[j],
            decreases 81 - i,
        {
            proof {
                lemma_empty_count_take_step(self@, i as int);
            }
            let x: u8 = (i % 9) as u8;
            let y: u8 = (i / 9) as u8;
            let s = g.get(x, y);
            proof {
                assert(x + y * 9 == i);
            }
            if !s.is_occupied() && vi < values.len() {
                g.set(x, y, values[vi]);
                vi = vi + 1;
            }
            i = i + 1;
        }
        proof {
            assert(g@ =~= filled(self@, values@));
        }
        if g.is_solved() {
            Some(g)
        } else {
            None
        }
    }

    /// Solves the grid by randomized search: it shuffles the multiset of
    /// values still missing from the board, writes them into the empty
    /// cells, keeps the outcome when it happens to be solved, and
    /// otherwise retries with a fresh shuffle, up to `MAX_ATTEMPTS`
    /// times. Any grid it returns is solved and keeps every clue; a grid
    /// that is already solved comes back unchanged.
    pub fn stochastic_solve(self) -> (r: Option<Grid>)
        requires
            self.wf(),
        ensures
            r matches Some(g) ==> g.wf() && solved(g@) && extends(g@, self@),
            solved(self@) ==> (r matches Some(g) && g@ == self@),
    {
        let mut values: Vec<Value> = Vec::new();
        let mut d: u8 = 1;
        while d <= 9
            invariant
                self.wf(),
                1 <= d <= 10,
            decreases 10 - d,
        {
            let mut count: u8 = 0;
            let mut i: usize = 0;
            while i < 81
                invariant
                    self.wf(),
                    i <= 81,
                    count <= i,
                decreases 81 - i,
            {
                let x: u8 = (i % 9) as u8;
                let y: u8 = (i / 9) as u8;
                if self.get(x, y).to_digit() == d {
                    count = count + 1;
                }
                i = i + 1;
            }
            let missing: u8 = if count <= 9 {
                9 - count
            } else {
                0
            };
            let v = Value::of_digit(d);
            let mut k: u8 = 0;
            while k < missing
                invariant
                    k <= missing,
                decreases missing - k,
            {
                values.push(v);
                k = k + 1;
            }
            d = d + 1;
        }
        let mut tries: u32 = 0;
        while tries < MAX_ATTEMPTS
            invariant
                self.wf(),
                tries > 0 ==> !solved(self@),
            decreases MAX_ATTEMPTS - tries,
        {
            shuffle_values(&mut values);
            match self.attempt_fill(&values) {
                Some(g) => {
                    proof {
                        if solved(self@) {
                            lemma_solved_implies_complete(self@);
                            assert(filled(self@, values@) =~= self@);
                        }
                    }
                    return Some(g);
                },
                None => {
                    proof {
                        if solved(self@) {
                            lemma_solved_implies_complete(self@);
                            assert(filled(self@, values@) =~= self@);
                        }
                    }
                },
            }
            tries = tries + 1;
        }
        None
    }
}

} // verus!
