//! Text for grids: parsing a board from a character stream and
//! rendering it as a bordered layout, with the proof that the two are
//! inverse to one another.

use vstd::prelude::*;
use vstd::string::StrSliceExecFns;
use vstd::string::StringExecFns;

use crate::grid::pad81;
use crate::grid::row_seq;
use crate::grid::Grid;
use crate::space::lemma_space_digit_injective;
use crate::space::Space;
use crate::value::lemma_value_of_digit;
use crate::value::value_of_digit;
use crate::value::Error;
use crate::value::Value;

verus! {

/// Whether a character spells a cell in grid text: a decimal digit, or
/// the placeholder glyph for an empty cell. Every other character is
/// decoration (borders, spaces, line breaks) and is ignored.
pub open spec fn is_cell_char(c: char) -> bool {
    c == '.' || (48 <= c as int && c as int <= 57)
}

/// The cell one character spells: the placeholder and the digit 0 give
/// an empty cell, the digits 1 ..= 9 an occupied one.
pub open spec fn space_of_char(c: char) -> Space {
    if c == '.' || c as int == 48 {
        Space::Empty
    } else {
        Space::Occupied(value_of_digit(c as int - 48))
    }
}

/// The cells a stream of characters spells out, in order, with all
/// decoration dropped.
pub open spec fn digits_of(s: Seq<char>) -> Seq<Space>
    decreases s.len(),
{
    if s.len() == 0 {
        Seq::empty()
    } else {
        digits_of(s.drop_last()) + (if is_cell_char(s.last()) {
            seq![space_of_char(s.last())]
        } else {
            Seq::empty()
        })
    }
}

/// What parsing a text yields: the cells it spells, padded with empty
/// cells to a full 81-cell board, or a failure when it spells more cells
/// than the board has.
pub open spec fn parse_spec(s: Seq<char>) -> Result<Seq<Space>, Error> {
    if digits_of(s).len() > 81 {
        Err(Error::Parse)
    } else {
        Ok(pad81(digits_of(s)))
    }
}

/// A run of `n` copies of one character.
pub open spec fn repeat_char(c: char, n: nat) -> Seq<char> {
    Seq::new(n, |i: int| c)
}

/// The top border of the rendered layout.
pub open spec fn top_line() -> Seq<char> {
    seq!['┌'] + repeat_char('─', 29) + seq!['┐', '\n']
}

/// The bottom border of the rendered layout.
pub open spec fn bottom_line() -> Seq<char> {
    seq!['└'] + repeat_char('─', 29) + seq!['┘', '\n']
}

/// The horizontal rule drawn between bands of three rows.
pub open spec fn sep_line() -> Seq<char> {
    seq!['│'] + repeat_char('┄', 9) + seq!['┼'] + repeat_char('┄', 9) + seq!['┼']
        + repeat_char('┄', 9) + seq!['│', '\n']
}

/// One rendered cell: its character between two spaces.
pub open spec fn cell_chars(s: Space) -> Seq<char> {
    seq![' ', s.char_rep(), ' ']
}

/// Three neighbouring rendered cells of one row, starting at column `x0`.
pub open spec fn band_chars(g: Seq<Space>, y: int, x0: int) -> Seq<char> {
    cell_chars(g[x0 + y * 9]) + cell_chars(g[x0 + 1 + y * 9]) + cell_chars(g[x0 + 2 + y * 9])
}

/// One rendered row: nine cells between borders, with a light divider
/// after each band of three.
pub open spec fn row_line(g: Seq<Space>, y: int) -> Seq<char> {
    seq!['│'] + band_chars(g, y, 0) + seq!['┆'] + band_chars(g, y, 3) + seq!['┆'] + band_chars(
        g,
        y,
        6,
    ) + seq!['│', '\n']
}

/// The full rendered layout: nine rows between borders, with a rule
/// after each band of three.
pub open spec fn render_spec(g: Seq<Space>) -> Seq<char> {
    top_line() + row_line(g, 0) + row_line(g, 1) + row_line(g, 2) + sep_line() + row_line(g, 3)
        + row_line(g, 4) + row_line(g, 5) + sep_line() + row_line(g, 6) + row_line(g, 7)
        + row_line(g, 8) + bottom_line()
}

/// The three characters that render one cell.
fn cell_str(s: Space) -> (r: &'static str)
    ensures
        r@ == cell_chars(s),
{
    match s {
        Space::Empty => {
            proof {
                reveal_strlit(" . ");
                assert(" . "@ =~= cell_chars(s));
            }
            " . "
        },
        Space::Occupied(Value::One) => {
            proof {
                reveal_strlit(" 1 ");
                assert(" 1 "@ =~= cell_chars(s));
            }
            " 1 "
        },
        Space::Occupied(Value::Two) => {
            proof {
                reveal_strlit(" 2 ");
                assert(" 2 "@ =~= cell_chars(s));
            }
            " 2 "
        },
        Space::Occupied(Value::Three) => {
            proof {
                reveal_strlit(" 3 ");
                assert(" 3 "@ =~= cell_chars(s));
            }
            " 3 "
        },
        Space::Occupied(Value::Four) => {
            proof {
                reveal_strlit(" 4 ");
                assert(" 4 "@ =~= cell_chars(s));
            }
            " 4 "
        },
        Space::Occupied(Value::Five) => {
            proof {
                reveal_strlit(" 5 ");
                assert(" 5 "@ =~= cell_chars(s));
            }
            " 5 "
        },
        Space::Occupied(Value::Six) => {
            proof {
                reveal_strlit(" 6 ");
                assert(" 6 "@ =~= cell_chars(s));
            }
            " 6 "
        },
        Space::Occupied(Value::Seven) => {
            proof {
                reveal_strlit(" 7 ");
                assert(" 7 "@ =~= cell_chars(s));
            }
            " 7 "
        },
        Space::Occupied(Value::Eight) => {
            proof {
                reveal_strlit(" 8 ");
                assert(" 8 "@ =~= cell_chars(s));
            }
            " 8 "
        },
        Space::Occupied(Value::Nine) => {
            proof {
                reveal_strlit(" 9 ");
                assert(" 9 "@ =~= cell_chars(s));
            }
            " 9 "
        },
    }
}

/// Appends three neighbouring rendered cells of one row to the output.
fn push_band(out: &mut String, g: &Grid, y: u8, x0: u8)
    requires
        g.wf(),
        y < 9,
        x0 == 0 || x0 == 3 || x0 == 6,
    ensures
        final(out)@ == old(out)@ + band_chars(g@, y as int, x0 as int),
{
    out.append(cell_str(g.get(x0, y)));
    out.append(cell_str(g.get(x0 + 1, y)));
    out.append(cell_str(g.get(x0 + 2, y)));
    proof {
        assert(out@ =~= old(out)@ + band_chars(g@, y as int, x0 as int));
    }
}

/// Appends one rendered row of the grid to the output.
fn push_row(out: &mut String, g: &Grid, y: u8)
    requires
        g.wf(),
        y < 9,
    ensures
        final(out)@ == old(out)@ + row_line(g@, y as int),
{
    proof {
        reveal_strlit("│");
        reveal_strlit("┆");
        reveal_strlit("│\n");
    }
    out.append("│");
    push_band(out, g, y, 0);
    out.append("┆");
    push_band(out, g, y, 3);
    out.append("┆");
    push_band(out, g, y, 6);
    out.append("│\n");
    proof {
        assert(out@ =~= old(out)@ + row_line(g@, y as int));
    }
}

/// The spelled-out cells of a concatenation are the spelled-out cells
/// of the parts, in order.
proof fn lemma_digits_of_add(a: Seq<char>, b: Seq<char>)
    ensures
        digits_of(a + b) == digits_of(a) + digits_of(b),
    decreases b.len(),
{
    if b.len() == 0 {
        assert(a + b =~= a);
        assert(digits_of(a) + digits_of(b) =~= digits_of(a));
    } else {
        lemma_digits_of_add(a, b.drop_last());
        assert((a + b).drop_last() =~= a + b.drop_last());
        assert((a + b).last() == b.last());
        assert(digits_of(a + b) =~= digits_of(a) + digits_of(b));
    }
}

/// Pure decoration spells no cells at all.
proof fn lemma_digits_of_plain(s: Seq<char>)
    requires
        forall|i: int| 0 <= i < s.len() ==> !is_cell_char(#[trigger] s[i]),
    ensures
        digits_of(s) == Seq::<Space>::empty(),
    decreases s.len(),
{
    if s.len() > 0 {
        lemma_digits_of_plain(s.drop_last());
        assert(!is_cell_char(s[s.len() - 1]));
        assert(digits_of(s) =~= Seq::<Space>::empty());
    }
}

/// A rendered cell spells exactly the cell it was rendered from.
proof fn lemma_cell_chars_digits(s: Space)
    ensures
        digits_of(cell_chars(s)) == seq![s],
{
    reveal_with_fuel(digits_of, 4);
    let r = cell_chars(s);
    assert(r.drop_last() =~= seq![' ', s.char_rep()]);
    assert(seq![' ', s.char_rep()].drop_last() =~= seq![' ']);
    assert(seq![' '].drop_last() =~= Seq::<char>::empty());
    assert(is_cell_char(s.char_rep()));
    assert(space_of_char(s.char_rep()) == s);
    assert(digits_of(r) =~= seq![s]);
}

/// A rendered band spells its three cells.
proof fn lemma_band_digits(g: Seq<Space>, y: int, x0: int)
    ensures
        digits_of(band_chars(g, y, x0)) == seq![
            g[x0 + y * 9],
            g[x0 + 1 + y * 9],
            g[x0 + 2 + y * 9],
        ],
{
    let c0 = cell_chars(g[x0 + y * 9]);
    let c1 = cell_chars(g[x0 + 1 + y * 9]);
    let c2 = cell_chars(g[x0 + 2 + y * 9]);
    lemma_digits_of_add(c0, c1);
    lemma_digits_of_add(c0 + c1, c2);
    lemma_cell_chars_digits(g[x0 + y * 9]);
    lemma_cell_chars_digits(g[x0 + 1 + y * 9]);
    lemma_cell_chars_digits(g[x0 + 2 + y * 9]);
    assert(digits_of(band_chars(g, y, x0)) =~= seq![
        g[x0 + y * 9],
        g[x0 + 1 + y * 9],
        g[x0 + 2 + y * 9],
    ]);
}

/// A rendered row spells exactly the nine cells of that row.
proof fn lemma_row_line_digits(g: Seq<Space>, y: int)
    ensures
        digits_of(row_line(g, y)) == row_seq(g, y),
{
    let border = seq!['│'];
    let divider = seq!['┆'];
    let ending = seq!['│', '\n'];
    let b0 = band_chars(g, y, 0);
    let b3 = band_chars(g, y, 3);
    let b6 = band_chars(g, y, 6);
    lemma_digits_of_plain(border);
    lemma_digits_of_plain(divider);
    lemma_digits_of_plain(ending);
    lemma_band_digits(g, y, 0);
    lemma_band_digits(g, y, 3);
    lemma_band_digits(g, y, 6);
    lemma_digits_of_add(border, b0);
    lemma_digits_of_add(border + b0, divider);
    lemma_digits_of_add(border + b0 + divider, b3);
    lemma_digits_of_add(border + b0 + divider + b3, divider);
    lemma_digits_of_add(border + b0 + divider + b3 + divider, b6);
    lemma_digits_of_add(border + b0 + divider + b3 + divider + b6, ending);
    assert(digits_of(row_line(g, y)) =~= row_seq(g, y));
}

/// The top border spells no cells.
proof fn lemma_top_line_plain()
    ensures
        digits_of(top_line()) == Seq::<Space>::empty(),
{
    assert forall|i: int| 0 <= i < top_line().len() implies !is_cell_char(
        #[trigger] top_line()[i],
    ) by {
        if i == 0 {
        } else if i < 30 {
            assert(top_line()[i] == '─');
        }
    }
    lemma_digits_of_plain(top_line());
}

/// The bottom border spells no cells.
proof fn lemma_bottom_line_plain()
    ensures
        digits_of(bottom_line()) == Seq::<Space>::empty(),
{
    assert forall|i: int| 0 <= i < bottom_line().len() implies !is_cell_char(
        #[trigger] bottom_line()[i],
    ) by {
        if i == 0 {
        } else if i < 30 {
            assert(bottom_line()[i] == '─');
        }
    }
    lemma_digits_of_plain(bottom_line());
}

/// The rule between bands spells no cells.
proof fn lemma_sep_line_plain()
    ensures
        digits_of(sep_line()) == Seq::<Space>::empty(),
{
    assert forall|i: int| 0 <= i < sep_line().len() implies !is_cell_char(
        #[trigger] sep_line()[i],
    ) by {
        if 1 <= i < 10 {
            assert(sep_line()[i] == '┄');
        } else if 11 <= i < 20 {
            assert(sep_line()[i] == '┄');
        } else if 21 <= i < 30 {
            assert(sep_line()[i] == '┄');
        }
    }
    lemma_digits_of_plain(sep_line());
}

/// The rendered layout spells out exactly the 81 cells of the board,
/// in row-major order.
proof fn lemma_render_digits(g: Seq<Space>)
    requires
        g.len() == 81,
    ensures
        digits_of(render_spec(g)) == g,
{
    let t = top_line();
    let p = sep_line();
    let e = bottom_line();
    let r0 = row_line(g, 0);
    let r1 = row_line(g, 1);
    let r2 = row_line(g, 2);
    let r3 = row_line(g, 3);
    let r4 = row_line(g, 4);
    let r5 = row_line(g, 5);
    let r6 = row_line(g, 6);
    let r7 = row_line(g, 7);
    let r8 = row_line(g, 8);
    lemma_top_line_plain();
    lemma_sep_line_plain();
    lemma_bottom_line_plain();
    lemma_row_line_digits(g, 0);
    lemma_row_line_digits(g, 1);
    lemma_row_line_digits(g, 2);
    lemma_row_line_digits(g, 3);
    lemma_row_line_digits(g, 4);
    lemma_row_line_digits(g, 5);
    lemma_row_line_digits(g, 6);
    lemma_row_line_digits(g, 7);
    lemma_row_line_digits(g, 8);
    lemma_digits_of_add(t, r0);
    lemma_digits_of_add(t + r0, r1);
    lemma_digits_of_add(t + r0 + r1, r2);
    lemma_digits_of_add(t + r0 + r1 + r2, p);
    lemma_digits_of_add(t + r0 + r1 + r2 + p, r3);
    lemma_digits_of_add(t + r0 + r1 + r2 + p + r3, r4);
    lemma_digits_of_add(t + r0 + r1 + r2 + p + r3 + r4, r5);
    lemma_digits_of_add(t + r0 + r1 + r2 + p + r3 + r4 + r5, p);
    lemma_digits_of_add(t + r0 + r1 + r2 + p + r3 + r4 + r5 + p, r6);
    lemma_digits_of_add(t + r0 + r1 + r2 + p + r3 + r4 + r5 + p + r6, r7);
    lemma_digits_of_add(t + r0 + r1 + r2 + p + r3 + r4 + r5 + p + r6 + r7, r8);
    lemma_digits_of_add(t + r0 + r1 + r2 + p + r3 + r4 + r5 + p + r6 + r7 + r8, e);
    let rows = row_seq(g, 0) + row_seq(g, 1) + row_seq(g, 2) + row_seq(g, 3) + row_seq(g, 4)
        + row_seq(g, 5) + row_seq(g, 6) + row_seq(g, 7) + row_seq(g, 8);
    assert(digits_of(render_spec(g)) =~= rows);
    assert forall|i: int| 0 <= i < 81 implies rows[i] == g[i] by {
        let y = i / 9;
        let x = i % 9;
        assert(row_seq(g, y)[x] == g[x + y * 9]);
    }
    assert(rows =~= g);
}

/// Rendering a grid and parsing the text back yields the very same grid:
/// the round trip is the identity on well-formed boards. The placeholder
/// glyph written for an empty cell parses back to an empty cell.
pub proof fn lemma_parse_render_round_trip(g: Seq<Space>)
    requires
        g.len() == 81,
    ensures
        parse_spec(render_spec(g)) == Ok::<Seq<Space>, Error>(g),
{
    lemma_render_digits(g);
    assert(pad81(g) =~= g);
}

/// Reading one more character appends one cell exactly when that
/// character spells a cell.
proof fn lemma_digits_of_take_step(s: Seq<char>, i: int)
    requires
        0 <= i < s.len(),
    ensures
        digits_of(s.take(i + 1)) == digits_of(s.take(i)) + (if is_cell_char(s[i]) {
            seq![space_of_char(s[i])]
        } else {
            Seq::<Space>::empty()
        }),
{
    assert(s.take(i + 1).drop_last() =~= s.take(i));
    assert(s.take(i + 1).last() == s[i]);
}

impl Grid {
    /// Parses a grid from text. Each decimal digit spells one cell in
    /// row-major order (0 an empty cell, 1 ..= 9 an occupied one), the
    /// placeholder glyph spells an empty cell, and every other character
    /// is decoration. Fewer than 81 cells leave the rest of the board
    /// empty; more than 81 are rejected.
    pub fn parse(s: &str) -> (r: Result<Grid, Error>)
        ensures
            parse_spec(s@) matches Ok(b) ==> (r matches Ok(g) && g.wf() && g@ == b),
            parse_spec(s@) matches Err(e) ==> r == Err::<Grid, Error>(e),
    {
        let n = s.unicode_len();
        let mut ds: Vec<u8> = Vec::new();
        let mut i: usize = 0;
        while i < n
            invariant
                n == s@.len(),
                i <= n,
                ds@.len() == digits_of(s@.take(i as int)).len(),
                forall|j: int|
                    0 <= j < ds@.len() ==> 0 <= #[trigger] ds@[j] <= 9 && ds@[j] == digits_of(
                        s@.take(i as int),
                    )[j].digit(),
            decreases n - i,
        {
            proof {
                lemma_digits_of_take_step(s@, i as int);
            }
            let c = s.get_char(i);
            if c == '.' {
                ds.push(0);
            } else {
                let u = c as u32;
                if 48 <= u && u <= 57 {
                    let d: u8 = (u - 48) as u8;
                    proof {
                        if d != 0 {
                            lemma_value_of_digit(d as int);
                        }
                    }
                    ds.push(d);
                }
            }
            i = i + 1;
        }
        proof {
            assert(s@.take(n as int) =~= s@);
        }
        match Grid::from_digits(&ds) {
            Ok(g) => {
                proof {
                    assert forall|j: int| 0 <= j < 81 implies g@[j] == pad81(digits_of(s@))[j] by {
                        if j < ds@.len() {
                            assert(ds@[j] == digits_of(s@)[j].digit());
                            assert(g@[j].digit() == ds@[j]);
                            lemma_space_digit_injective(g@[j], digits_of(s@)[j]);
                        }
                    }
                    assert(g@ =~= pad81(digits_of(s@)));
                }
                Ok(g)
            },
            Err(e) => Err(e),
        }
    }

    /// Renders the grid as a bordered 9x9 layout: each occupied cell as
    /// its digit, each empty cell as the placeholder glyph.
    pub fn render(&self) -> (out: String)
        requires
            self.wf(),
        ensures
            out@ == render_spec(self@),
    {
        proof {
            reveal_strlit("┌─────────────────────────────┐\n");
            reveal_strlit("└─────────────────────────────┘\n");
            reveal_strlit("│┄┄┄┄┄┄┄┄┄┼┄┄┄┄┄┄┄┄┄┼┄┄┄┄┄┄┄┄┄│\n");
            assert("┌─────────────────────────────┐\n"@ =~= top_line());
            assert("└─────────────────────────────┘\n"@ =~= bottom_line());
            assert("│┄┄┄┄┄┄┄┄┄┼┄┄┄┄┄┄┄┄┄┼┄┄┄┄┄┄┄┄┄│\n"@ =~= sep_line());
        }
        let mut out = String::new();
        out.append("┌─────────────────────────────┐\n");
        push_row(&mut out, self, 0);
        push_row(&mut out, self, 1);
        push_row(&mut out, self, 2);
        out.append("│┄┄┄┄┄┄┄┄┄┼┄┄┄┄┄┄┄┄┄┼┄┄┄┄┄┄┄┄┄│\n");
        push_row(&mut out, self, 3);
        push_row(&mut out, self, 4);
        push_row(&mut out, self, 5);
        out.append("│┄┄┄┄┄┄┄┄┄┼┄┄┄┄┄┄┄┄┄┼┄┄┄┄┄┄┄┄┄│\n");
        push_row(&mut out, self, 6);
        push_row(&mut out, self, 7);
        push_row(&mut out, self, 8);
        out.append("└─────────────────────────────┘\n");
        proof {
            assert(out@ =~= render_spec(self@));
        }
        out
    }
}

} // verus!
