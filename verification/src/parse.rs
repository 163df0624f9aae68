//! Reading a board from text: one line per row, one decimal digit per cell.
//!
//! Lines end with a line feed, which a carriage return may precede; the last
//! line needs no ending. The `c`-th character of the `r`-th line is the digit
//! of cell `(r, c)`. Lines and characters beyond the ninth are ignored, and
//! cells that the text does not reach stay empty.
use vstd::pervasive::unreached;
use vstd::prelude::*;
use crate::board::Sudoku;
use crate::grid::{cell, in_range, is_grid};

verus! {

/// `c` is one of the ten decimal digits.
pub open spec fn is_digit(c: char) -> bool {
    '0' <= c <= '9'
}

/// The number that the decimal digit `c` stands for.
pub open spec fn digit_value(c: char) -> u8 {
    (c as int - '0' as int) as u8
}

/// The line on which the `i`-th character of `text` stands: the number of
/// line feeds before it.
pub open spec fn line_of(text: Seq<char>, i: int) -> int
    decreases i,
{
    if i <= 0 {
        0
    } else if text[i - 1] == '\n' {
        line_of(text, i - 1) + 1
    } else {
        line_of(text, i - 1)
    }
}

/// How many characters stand before the `i`-th character of `text` on its
/// line.
pub open spec fn column_of(text: Seq<char>, i: int) -> int
    decreases i,
{
    if i <= 0 || text[i - 1] == '\n' {
        0
    } else {
        column_of(text, i - 1) + 1
    }
}

/// The `i`-th character of `text` may stand in a board's text: it is a digit,
/// a line feed, or a carriage return with a line feed right behind it.
pub open spec fn char_allowed(text: Seq<char>, i: int) -> bool {
    ||| is_digit(text[i])
    ||| text[i] == '\n'
    ||| (text[i] == '\r' && i + 1 < text.len() && text[i + 1] == '\n')
}

/// `text` holds nothing but digits and line endings.
pub open spec fn is_digit_text(text: Seq<char>) -> bool {
    forall|i: int| 0 <= i < text.len() ==> #[trigger] char_allowed(text, i)
}

/// The `i`-th character of `text` is a digit, and it is the `c`-th character
/// of the `r`-th line.
pub open spec fn lands_on(text: Seq<char>, i: int, r: int, c: int) -> bool {
    is_digit(text[i]) && line_of(text, i) == r && column_of(text, i) == c
}

/// The grid `g` is what the first `n` characters of `text` spell: each cell
/// that one of these digits lands on holds that digit, and every other cell
/// is empty.
pub open spec fn spells_up_to(text: Seq<char>, n: int, g: Seq<Seq<u8>>) -> bool {
    &&& is_grid(g)
    &&& forall|i: int, r: int, c: int|
        0 <= i < n && in_range(r, c) && #[trigger] lands_on(text, i, r, c) ==> cell(g, r, c)
            == digit_value(text[i])
    &&& forall|r: int, c: int|
        in_range(r, c) && #[trigger] cell(g, r, c) != 0 ==> exists|i: int|
            0 <= i < n && #[trigger] lands_on(text, i, r, c)
}

/// The grid `g` is the board that `text` spells.
pub open spec fn is_parse_of(text: Seq<char>, g: Seq<Seq<u8>>) -> bool {
    spells_up_to(text, text.len() as int, g)
}

/// What a text with a character that is no digit is answered with.
pub open spec fn invalid_digit_message() -> Seq<char> {
    "Invalid number in String."@
}

/// A later character stands on a later line, or further right on the same
/// line.
proof fn lemma_positions_advance(text: Seq<char>, i: int, n: int)
    requires
        0 <= i < n,
    ensures
        line_of(text, i) <= line_of(text, n),
        line_of(text, i) == line_of(text, n) ==> column_of(text, n) == column_of(text, i) + (n - i),
    decreases n,
{
    if i < n - 1 {
        lemma_positions_advance(text, i, n - 1);
    }
}

/// The number that `ch` stands for, if `ch` is a decimal digit.
pub fn digit_of(ch: char) -> (res: Option<u8>)
    ensures
        res == if is_digit(ch) {
            Some(digit_value(ch))
        } else {
            None
        },
        res matches Some(d) ==> d <= 9,
{
    if '0' <= ch && ch <= '9' {
        Some((ch as u32 - '0' as u32) as u8)
    } else {
        None
    }
}

impl Sudoku {
    /// Reads a board from `string`, or refuses a text that holds anything but
    /// digits and line endings.
    pub fn parse(string: &str) -> (res: Result<Sudoku, String>)
        ensures
            res is Ok <==> is_digit_text(string@),
            res matches Ok(board) ==> is_parse_of(string@, board@),
            res matches Err(message) ==> message@ == invalid_digit_message(),
    {
        let ghost text = string@;
        let mut sudoku = Sudoku::new();
        let mut x: usize = 0;
        let mut y: usize = 0;
        let mut after_return = false;
        for ch in it: string.chars()
            invariant
                it.seq() == text,
                text == string@,
                x <= 9,
                y <= 9,
                x == if line_of(text, it.index() as int) < 9 {
                    line_of(text, it.index() as int)
                } else {
                    9
                },
                !after_return ==> y == if column_of(text, it.index() as int) < 9 {
                    column_of(text, it.index() as int)
                } else {
                    9
                },
                after_return ==> it.index() > 0 && text[it.index() - 1] == '\r',
                forall|i: int|
                    0 <= i < it.index() && !(after_return && i == it.index() - 1)
                        ==> #[trigger] char_allowed(text, i),
                spells_up_to(text, it.index() as int, sudoku@),
        {
            let ghost n = it.index() as int;
            let ghost before = sudoku@;
            assert(ch == text[n]);
            if ch == '\n' {
                if x < 9 {
                    x += 1;
                }
                y = 0;
                after_return = false;
                assert(char_allowed(text, n));
            } else if after_return {
                assert(!char_allowed(text, n - 1));
                return Err("Invalid number in String.".to_owned());
            } else if ch == '\r' {
                after_return = true;
            } else {
                match digit_of(ch) {
                    None => {
                        assert(!char_allowed(text, n));
                        return Err("Invalid number in String.".to_owned());
                    },
                    Some(digit) => {
                        sudoku.set_value(x, y, digit);
                        proof {
                            assert forall|i: int, r: int, c: int|
                                0 <= i < n + 1 && in_range(r, c) && #[trigger] lands_on(
                                    text,
                                    i,
                                    r,
                                    c,
                                ) implies cell(sudoku@, r, c) == digit_value(text[i]) by {
                                if i < n {
                                    lemma_positions_advance(text, i, n);
                                    assert(cell(before, r, c) == digit_value(text[i]));
                                }
                            }
                            assert forall|r: int, c: int|
                                in_range(r, c) && #[trigger] cell(sudoku@, r, c)
                                    != 0 implies exists|i: int|
                                0 <= i < n + 1 && #[trigger] lands_on(text, i, r, c) by {
                                if r == x && c == y && x < 9 && y < 9 {
                                    assert(lands_on(text, n, r, c));
                                } else {
                                    assert(cell(before, r, c) != 0);
                                    let i = choose|i: int|
                                        0 <= i < n && #[trigger] lands_on(text, i, r, c);
                                    assert(lands_on(text, i, r, c));
                                }
                            }
                        }
                        if y < 9 {
                            y += 1;
                        }
                        assert(char_allowed(text, n));
                    },
                }
            }
        }
        if after_return {
            assert(!char_allowed(text, text.len() - 1));
            return Err("Invalid number in String.".to_owned());
        }
        Ok(sudoku)
    }

    /// Reads a board from a text of digits and line endings.
    pub fn from_string(string: &str) -> (res: Sudoku)
        requires
            is_digit_text(string@),
        ensures
            is_parse_of(string@, res@),
    {
        match Sudoku::parse(string) {
            Ok(sudoku) => sudoku,
            Err(_) => unreached(),
        }
    }
}

} // verus!
