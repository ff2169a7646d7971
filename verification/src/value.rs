//! The nine symbols a cell can hold, and the failure kinds of the
//! library.

use vstd::prelude::*;

verus! {

/// The failure kinds of this library. Both are ordinary return values:
/// no operation of the library panics or aborts the process. The third
/// failure a caller can meet, an unsolvable grid, is signalled by the
/// solvers themselves returning `None`.
#[derive(Clone, Copy, PartialEq, Eq, Structural, Debug)]
pub enum Error {
    /// A number outside 1 ..= 9 was offered where only a legal symbol fits.
    InvalidValue,
    /// Input text holds more cells than a 9x9 grid has.
    Parse,
}

/// One of the nine legal symbols of a cell, standing for the digits 1
/// through 9. The order of the variants follows the order of the digits.
#[derive(Clone, Copy, PartialEq, Eq, Structural, PartialOrd, Ord, Hash, Debug)]
pub enum Value {
    One,
    Two,
    Three,
    Four,
    Five,
    Six,
    Seven,
    Eight,
    Nine,
}

/// An RGB color, one byte per channel, used when a caller wants to show
/// each symbol in its own color.
#[derive(Clone, Copy, PartialEq, Eq, Structural, Debug)]
pub struct Rgb {
    pub r: u8,
    pub g: u8,
    pub b: u8,
}

impl Value {
    /// The digit this symbol stands for, as a mathematical integer in 1 ..= 9.
    pub open spec fn digit(self) -> int {
        match self {
            Value::One => 1,
            Value::Two => 2,
            Value::Three => 3,
            Value::Four => 4,
            Value::Five => 5,
            Value::Six => 6,
            Value::Seven => 7,
            Value::Eight => 8,
            Value::Nine => 9,
        }
    }

    /// The single ASCII digit that renders this symbol.
    pub open spec fn char_rep(self) -> char {
        match self {
            Value::One => '1',
            Value::Two => '2',
            Value::Three => '3',
            Value::Four => '4',
            Value::Five => '5',
            Value::Six => '6',
            Value::Seven => '7',
            Value::Eight => '8',
            Value::Nine => '9',
        }
    }

    /// The symbol whose digit is 1 ..= 9; `Error::InvalidValue` for 0 and
    /// for anything above 9, which must never be clamped silently.
    pub fn from_digit(d: u8) -> (r: Result<Value, Error>)
        ensures
            1 <= d <= 9 ==> (r matches Ok(v) && v.digit() == d),
            !(1 <= d <= 9) ==> r == Err::<Value, Error>(Error::InvalidValue),
    {
        match d {
            1 => Ok(Value::One),
            2 => Ok(Value::Two),
            3 => Ok(Value::Three),
            4 => Ok(Value::Four),
            5 => Ok(Value::Five),
            6 => Ok(Value::Six),
            7 => Ok(Value::Seven),
            8 => Ok(Value::Eight),
            9 => Ok(Value::Nine),
            _ => Err(Error::InvalidValue),
        }
    }

    /// The symbol whose digit is the given one, for digits known to be
    /// in range.
    pub fn of_digit(d: u8) -> (v: Value)
        requires
            1 <= d <= 9,
        ensures
            v.digit() == d,
    {
        match d {
            1 => Value::One,
            2 => Value::Two,
            3 => Value::Three,
            4 => Value::Four,
            5 => Value::Five,
            6 => Value::Six,
            7 => Value::Seven,
            8 => Value::Eight,
            _ => Value::Nine,
        }
    }

    /// The digit of this symbol, always in 1 ..= 9.
    pub fn to_digit(self) -> (d: u8)
        ensures
            d == self.digit(),
            1 <= d <= 9,
    {
        match self {
            Value::One => 1,
            Value::Two => 2,
            Value::Three => 3,
            Value::Four => 4,
            Value::Five => 5,
            Value::Six => 6,
            Value::Seven => 7,
            Value::Eight => 8,
            Value::Nine => 9,
        }
    }

    /// The ASCII digit character that renders this symbol.
    pub fn to_char(self) -> (c: char)
        ensures
            c == self.char_rep(),
    {
        match self {
            Value::One => '1',
            Value::Two => '2',
            Value::Three => '3',
            Value::Four => '4',
            Value::Five => '5',
            Value::Six => '6',
            Value::Seven => '7',
            Value::Eight => '8',
            Value::Nine => '9',
        }
    }

    /// The color that displays this symbol.
    pub open spec fn color_rep(self) -> Rgb {
        match self {
            Value::One => (Rgb { r: 255, g: 0, b: 0 }),
            Value::Two => (Rgb { r: 255, g: 120, b: 0 }),
            Value::Three => (Rgb { r: 255, g: 255, b: 0 }),
            Value::Four => (Rgb { r: 120, g: 255, b: 0 }),
            Value::Five => (Rgb { r: 0, g: 180, b: 80 }),
            Value::Six => (Rgb { r: 0, g: 150, b: 255 }),
            Value::Seven => (Rgb { r: 60, g: 80, b: 220 }),
            Value::Eight => (Rgb { r: 140, g: 40, b: 255 }),
            Value::Nine => (Rgb { r: 240, g: 20, b: 255 }),
        }
    }

    /// The color that displays this symbol, one fixed shade per digit.
    pub fn color(self) -> (c: Rgb)
        ensures
            c == self.color_rep(),
    {
        match self {
            Value::One => Rgb { r: 255, g: 0, b: 0 },
            Value::Two => Rgb { r: 255, g: 120, b: 0 },
            Value::Three => Rgb { r: 255, g: 255, b: 0 },
            Value::Four => Rgb { r: 120, g: 255, b: 0 },
            Value::Five => Rgb { r: 0, g: 180, b: 80 },
            Value::Six => Rgb { r: 0, g: 150, b: 255 },
            Value::Seven => Rgb { r: 60, g: 80, b: 220 },
            Value::Eight => Rgb { r: 140, g: 40, b: 255 },
            Value::Nine => Rgb { r: 240, g: 20, b: 255 },
        }
    }
}

/// The fixed collection of all nine symbols, in digit order. The full
/// symbol set never changes; every candidate enumeration walks it.
pub fn all_values() -> (r: Vec<Value>)
    ensures
        r@.len() == 9,
        forall|j: int| 0 <= j < 9 ==> (#[trigger] r@[j]).digit() == j + 1,
{
    let mut r: Vec<Value> = Vec::new();
    r.push(Value::One);
    r.push(Value::Two);
    r.push(Value::Three);
    r.push(Value::Four);
    r.push(Value::Five);
    r.push(Value::Six);
    r.push(Value::Seven);
    r.push(Value::Eight);
    r.push(Value::Nine);
    r
}

/// The symbol standing for a digit in 1 ..= 9; anything else is mapped
/// to `Nine`, so callers state the range themselves.
pub open spec fn value_of_digit(d: int) -> Value {
    if d == 1 {
        Value::One
    } else if d == 2 {
        Value::Two
    } else if d == 3 {
        Value::Three
    } else if d == 4 {
        Value::Four
    } else if d == 5 {
        Value::Five
    } else if d == 6 {
        Value::Six
    } else if d == 7 {
        Value::Seven
    } else if d == 8 {
        Value::Eight
    } else {
        Value::Nine
    }
}

/// `value_of_digit` inverts `digit` on the legal range.
pub proof fn lemma_value_of_digit(d: int)
    requires
        1 <= d <= 9,
    ensures
        value_of_digit(d).digit() == d,
{
}

/// Every symbol's digit lies in 1 ..= 9.
pub proof fn lemma_digit_range(v: Value)
    ensures
        1 <= v.digit() <= 9,
{
}

/// Two symbols with the same digit are the same symbol.
pub proof fn lemma_digit_injective(a: Value, b: Value)
    requires
        a.digit() == b.digit(),
    ensures
        a == b,
{
}

} // verus!
