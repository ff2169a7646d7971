//! One cell of the board: empty, or occupied by a symbol.

use vstd::prelude::*;

use crate::value::Error;
use crate::value::Value;

verus! {

/// One cell of the grid: either empty or occupied by one symbol.
#[derive(Clone, Copy, PartialEq, Eq, Structural, Hash, Debug)]
pub enum Space {
    Occupied(Value),
    Empty,
}

impl Space {
    /// The digit this cell stands for: 0 when empty, 1 ..= 9 when occupied.
    pub open spec fn digit(self) -> int {
        match self {
            Space::Empty => 0,
            Space::Occupied(v) => v.digit(),
        }
    }

    /// The character that renders this cell: the symbol's digit, or the
    /// placeholder glyph for an empty cell.
    pub open spec fn char_rep(self) -> char {
        match self {
            Space::Empty => '.',
            Space::Occupied(v) => v.char_rep(),
        }
    }

    /// Whether the cell holds a symbol.
    pub fn is_occupied(self) -> (r: bool)
        ensures
            r == (self is Occupied),
    {
        match self {
            Space::Empty => false,
            _ => true,
        }
    }

    /// The cell a digit describes: 0 is an empty cell, 1 ..= 9 an occupied
    /// one; anything above 9 is rejected.
    pub fn from_digit(d: u8) -> (r: Result<Space, Error>)
        ensures
            d <= 9 ==> (r matches Ok(s) && s.digit() == d),
            d > 9 ==> r == Err::<Space, Error>(Error::InvalidValue),
    {
        if d == 0 {
            Ok(Space::Empty)
        } else {
            match Value::from_digit(d) {
                Ok(v) => Ok(Space::Occupied(v)),
                Err(e) => Err(e),
            }
        }
    }

    /// The digit of this cell: 0 when empty, 1 ..= 9 when occupied.
    pub fn to_digit(self) -> (d: u8)
        ensures
            d == self.digit(),
            d <= 9,
    {
        match self {
            Space::Empty => 0,
            Space::Occupied(v) => v.to_digit(),
        }
    }

    /// The character that renders this cell.
    pub fn to_char(self) -> (c: char)
        ensures
            c == self.char_rep(),
    {
        match self {
            Space::Empty => '.',
            Space::Occupied(v) => v.to_char(),
        }
    }
}

/// Two cells with the same digit are the same cell.
pub proof fn lemma_space_digit_injective(a: Space, b: Space)
    requires
        a.digit() == b.digit(),
    ensures
        a == b,
{
}

} // verus!
