//! The board as text, for people to read.
//!
//! Each row is a line. A cell takes two columns: its number and a blank, or
//! two blanks when it is empty. A bar follows the third and the sixth cell of
//! a row, and a rule follows the third and the sixth row. An empty line ends
//! the text.
use vstd::prelude::*;
use vstd::string::StringExecFns;
use crate::board::Sudoku;
use crate::grid::{cell, is_grid};

verus! {

/// The character for the digit `d`, which lies between 0 and 9.
pub open spec fn digit_char(d: int) -> char {
    ('0' as int + d) as char
}

/// The number `v` in decimal, without leading zeros.
pub open spec fn decimal(v: u8) -> Seq<char> {
    let hundreds = if v >= 100 {
        seq![digit_char(v as int / 100)]
    } else {
        Seq::empty()
    };
    let tens = if v >= 10 {
        seq![digit_char(v as int / 10 % 10)]
    } else {
        Seq::empty()
    };
    hundreds + tens + seq![digit_char(v as int % 10)]
}

/// What a cell holding `v` shows.
pub open spec fn cell_text(v: u8) -> Seq<char> {
    if v == 0 {
        "  "@
    } else {
        decimal(v) + " "@
    }
}

/// A divider follows the cells, and the rows, numbered 2 and 5.
pub open spec fn divider_after(i: int) -> bool {
    i == 2 || i == 5
}

/// What the first `n` cells of `row` show.
pub open spec fn row_text(row: Seq<u8>, n: int) -> Seq<char>
    decreases n,
{
    if n <= 0 {
        Seq::empty()
    } else {
        row_text(row, n - 1) + cell_text(row[n - 1]) + if divider_after(n - 1) {
            "| "@
        } else {
            Seq::empty()
        }
    }
}

/// What the first `n` rows of `g` show, each with its line ending.
pub open spec fn rows_text(g: Seq<Seq<u8>>, n: int) -> Seq<char>
    decreases n,
{
    if n <= 0 {
        Seq::empty()
    } else {
        rows_text(g, n - 1) + row_text(g[n - 1], 9) + if divider_after(n - 1) {
            "\n- - - + - - - + - - -"@
        } else {
            Seq::empty()
        } + "\n"@
    }
}

/// The text that shows the grid `g`.
pub open spec fn rendered(g: Seq<Seq<u8>>) -> Seq<char> {
    rows_text(g, 9) + "\n"@
}

/// The one-character text of the digit `d`.
fn digit_text(d: u8) -> (res: &'static str)
    requires
        d <= 9,
    ensures
        res@ == seq![digit_char(d as int)],
{
    proof {
        reveal_strlit("0");
        reveal_strlit("1");
        reveal_strlit("2");
        reveal_strlit("3");
        reveal_strlit("4");
        reveal_strlit("5");
        reveal_strlit("6");
        reveal_strlit("7");
        reveal_strlit("8");
        reveal_strlit("9");
    }
    let res = match d {
        0 => "0",
        1 => "1",
        2 => "2",
        3 => "3",
        4 => "4",
        5 => "5",
        6 => "6",
        7 => "7",
        8 => "8",
        _ => "9",
    };
    assert(res@ =~= seq![digit_char(d as int)]);
    res
}

/// Appends the number `v` in decimal to `out`.
fn push_decimal(out: &mut String, v: u8)
    ensures
        final(out)@ == old(out)@ + decimal(v),
{
    if v >= 100 {
        out.append(digit_text(v / 100));
    }
    if v >= 10 {
        out.append(digit_text(v / 10 % 10));
    }
    out.append(digit_text(v % 10));
    assert(out@ =~= old(out)@ + decimal(v));
}

impl Sudoku {
    /// The board as text: nine lines of cells, with bars and rules between
    /// the boxes, and an empty line at the end.
    pub fn render(&self) -> (text: String)
        ensures
            text@ == rendered(self@),
    {
        proof {
            use_type_invariant(self);
        }
        let mut text = String::new();
        let mut x: usize = 0;
        while x < 9
            invariant
                x <= 9,
                is_grid(self@),
                text@ == rows_text(self@, x as int),
            decreases 9 - x,
        {
            let ghost so_far = text@;
            let mut line = String::new();
            let mut y: usize = 0;
            while y < 9
                invariant
                    x < 9,
                    y <= 9,
                    is_grid(self@),
                    line@ == row_text(self@[x as int], y as int),
                decreases 9 - y,
            {
                let ghost line_so_far = line@;
                let value = self.get(x, y);
                if value == 0 {
                    line.append("  ");
                } else {
                    push_decimal(&mut line, value);
                    line.append(" ");
                    assert(line@ =~= line_so_far + cell_text(value));
                }
                if y == 2 || y == 5 {
                    line.append("| ");
                }
                assert(line@ =~= row_text(self@[x as int], y as int + 1));
                y += 1;
            }
            text.append(line.as_str());
            if x == 2 || x == 5 {
                text.append("\n- - - + - - - + - - -");
            }
            text.append("\n");
            assert(text@ =~= rows_text(self@, x as int + 1));
            x += 1;
        }
        text.append("\n");
        text
    }
}

} // verus!
