//! The board itself: construction and cell-level mutation.
use vstd::prelude::*;
use crate::grid::{
    cell, empty_grid, grid_of, in_range, is_grid, lists_empty_cells, placement_valid, row_major,
    same_unit, with_cell,
};

verus! {

/// A 9×9 Sudoku board. `0` marks an empty cell.
#[derive(Debug, PartialEq, Eq)]
pub struct Sudoku {
    board: Vec<Vec<u8>>,
}

/// Overwrites one cell of a table of rows and touches nothing else.
fn write_cell(rows: &mut Vec<Vec<u8>>, x: usize, y: usize, number: u8)
    requires
        x < old(rows)@.len(),
        y < old(rows)@[x as int]@.len(),
    ensures
        grid_of(final(rows)@) == with_cell(grid_of(old(rows)@), x as int, y as int, number),
    no_unwind
{
    rows[x][y] = number;
    assert(grid_of(rows@) =~= with_cell(grid_of(old(rows)@), x as int, y as int, number));
}

impl View for Sudoku {
    type V = Seq<Seq<u8>>;

    /// The rows of the board, top to bottom, each as the sequence of its cells.
    closed spec fn view(&self) -> Seq<Seq<u8>> {
        grid_of(self.board@)
    }
}

impl Sudoku {
    /// Every board has nine rows of nine cells.
    #[verifier::type_invariant]
    pub open spec fn well_formed(&self) -> bool {
        is_grid(self@)
    }

    /// An empty board.
    pub fn new() -> (res: Sudoku)
        ensures
            res@ == empty_grid(),
    {
        let mut board: Vec<Vec<u8>> = Vec::new();
        let mut r: usize = 0;
        while r < 9
            invariant
                r <= 9,
                board@.len() == r,
                forall|i: int| 0 <= i < r ==> (#[trigger] board@[i])@ == Seq::new(9, |c: int| 0u8),
            decreases 9 - r,
        {
            let mut row: Vec<u8> = Vec::new();
            let mut c: usize = 0;
            while c < 9
                invariant
                    c <= 9,
                    row@.len() == c,
                    forall|j: int| 0 <= j < c ==> row@[j] == 0u8,
                decreases 9 - c,
            {
                row.push(0);
                c += 1;
            }
            assert(row@ =~= Seq::new(9, |c: int| 0u8));
            board.push(row);
            r += 1;
        }
        let res = Sudoku { board };
        assert(res@ =~= empty_grid());
        res
    }

    /// Writes `number` into cell `(x, y)`, or leaves the board alone when the
    /// cell does not exist or `number` is not a digit. Reports whether it wrote.
    pub fn set_value(&mut self, x: usize, y: usize, number: u8) -> (applied: bool)
        ensures
            applied == (x < 9 && y < 9 && number <= 9),
            applied ==> final(self)@ == with_cell(old(self)@, x as int, y as int, number),
            applied ==> cell(final(self)@, x as int, y as int) == number,
            !applied ==> final(self)@ == old(self)@,
            is_grid(final(self)@),
    {
        proof {
            use_type_invariant(&*self);
        }
        if x >= 9 || y >= 9 || number > 9 {
            false
        } else {
            assert(self@[x as int].len() == 9);
            write_cell(&mut self.board, x, y, number);
            true
        }
    }

    /// The digit in cell `(x, y)`.
    pub fn get(&self, x: usize, y: usize) -> (res: u8)
        requires
            x < 9,
            y < 9,
        ensures
            res == cell(self@, x as int, y as int),
    {
        proof {
            use_type_invariant(self);
        }
        assert(self@[x as int].len() == 9);
        self.board[x][y]
    }

    /// The rows of the board, top to bottom.
    pub fn rows(&self) -> (res: &Vec<Vec<u8>>)
        ensures
            grid_of(res@) == self@,
            is_grid(self@),
    {
        proof {
            use_type_invariant(self);
        }
        &self.board
    }

    /// Replaces the whole board by `board`, provided that it has nine rows of
    /// nine cells; any other shape is refused and the board stays as it was.
    pub fn set_board(&mut self, board: Vec<Vec<u8>>) -> (res: Result<(), String>)
        ensures
            is_grid(final(self)@),
            is_grid(grid_of(board@)) ==> res is Ok && final(self)@ == grid_of(board@),
            !is_grid(grid_of(board@)) ==> {
                &&& res matches Err(message)
                &&& message@ == dimension_message()
                &&& final(self)@ == old(self)@
            },
    {
        proof {
            use_type_invariant(&*self);
        }
        if board.len() != 9 {
            return Err("Dimensions must be 9x9.".to_owned());
        }
        let mut r: usize = 0;
        while r < 9
            invariant
                r <= 9,
                board@.len() == 9,
                self@ == old(self)@,
                is_grid(self@),
                forall|i: int| 0 <= i < r ==> (#[trigger] grid_of(board@)[i]).len() == 9,
            decreases 9 - r,
        {
            if board[r].len() != 9 {
                assert(grid_of(board@)[r as int].len() != 9);
                return Err("Dimensions must be 9x9.".to_owned());
            }
            r += 1;
        }
        self.board = board;
        Ok(())
    }

    /// Whether `number` may be placed at `(x_position, y_position)`: true
    /// exactly when neither the row, nor the column, nor the 3×3 box of that
    /// cell holds `number` anywhere.
    pub fn check_if_n_valid(&self, x_position: usize, y_position: usize, number: u8) -> (res: bool)
        requires
            x_position < 9,
            y_position < 9,
        ensures
            res == placement_valid(self@, x_position as int, y_position as int, number),
    {
        let mut x: usize = 0;
        while x < 9
            invariant
                x <= 9,
                y_position < 9,
                forall|r: int| 0 <= r < x ==> #[trigger] cell(self@, r, y_position as int) != number,
            decreases 9 - x,
        {
            if self.get(x, y_position) == number {
                assert(in_range(x as int, y_position as int));
                return false;
            }
            x += 1;
        }

        let mut y: usize = 0;
        while y < 9
            invariant
                y <= 9,
                x_position < 9,
                forall|c: int| 0 <= c < y ==> #[trigger] cell(self@, x_position as int, c) != number,
            decreases 9 - y,
        {
            if self.get(x_position, y) == number {
                assert(in_range(x_position as int, y as int));
                return false;
            }
            y += 1;
        }

        let x0: usize = x_position / 3 * 3;
        let y0: usize = y_position / 3 * 3;
        let mut x: usize = x0;
        while x < x0 + 3
            invariant
                x0 <= x <= x0 + 3,
                x0 == x_position / 3 * 3,
                y0 == y_position / 3 * 3,
                x_position < 9,
                y_position < 9,
                forall|r: int, c: int|
                    x0 <= r < x && y0 <= c < y0 + 3 ==> #[trigger] cell(self@, r, c) != number,
            decreases x0 + 3 - x,
        {
            let mut y: usize = y0;
            while y < y0 + 3
                invariant
                    y0 <= y <= y0 + 3,
                    x0 <= x < x0 + 3,
                    x0 == x_position / 3 * 3,
                    y0 == y_position / 3 * 3,
                    x_position < 9,
                    y_position < 9,
                    forall|r: int, c: int|
                        x0 <= r < x && y0 <= c < y0 + 3 ==> #[trigger] cell(self@, r, c) != number,
                    forall|c: int| y0 <= c < y ==> #[trigger] cell(self@, x as int, c) != number,
                decreases y0 + 3 - y,
            {
                if self.get(x, y) == number {
                    assert(in_range(x as int, y as int));
                    assert(same_unit(x_position as int, y_position as int, x as int, y as int));
                    return false;
                }
                y += 1;
            }
            x += 1;
        }

        assert forall|r2: int, c2: int|
            in_range(r2, c2) && same_unit(
                x_position as int,
                y_position as int,
                r2,
                c2,
            ) implies #[trigger] cell(self@, r2, c2) != number by {
            if r2 == x_position {
            } else if c2 == y_position {
            } else {
                assert(x0 <= r2 < x0 + 3 && y0 <= c2 < y0 + 3);
            }
        }
        true
    }

    /// The empty cells of the board, in row-major order.
    pub fn find_empty_positions(&self) -> (list: Vec<(usize, usize)>)
        ensures
            lists_empty_cells(self@, list@),
    {
        let mut list: Vec<(usize, usize)> = Vec::new();
        let mut x: usize = 0;
        while x < 9
            invariant
                x <= 9,
                listed_up_to(self@, list@, x as int * 9),
            decreases 9 - x,
        {
            let mut y: usize = 0;
            while y < 9
                invariant
                    x < 9,
                    y <= 9,
                    listed_up_to(self@, list@, x as int * 9 + y as int),
                decreases 9 - y,
            {
                if self.get(x, y) == 0 {
                    let ghost before = list@;
                    list.push((x, y));
                    proof {
                        assert(list@[before.len() as int] == (x, y));
                        assert forall|r: int, c: int|
                            in_range(r, c) && r * 9 + c < x * 9 + y + 1 && #[trigger] cell(
                                self@,
                                r,
                                c,
                            ) == 0 implies list@.contains((r as usize, c as usize)) by {
                            if r * 9 + c < x * 9 + y {
                                let i = before.index_of((r as usize, c as usize));
                                assert(list@[i] == (r as usize, c as usize));
                            }
                        }
                    }
                }
                y += 1;
            }
            x += 1;
        }
        list
    }
}

impl Default for Sudoku {
    /// An empty board.
    fn default() -> (res: Self)
        ensures
            res@ == empty_grid(),
    {
        Self::new()
    }
}

/// What a refused bulk replacement reports.
pub open spec fn dimension_message() -> Seq<char> {
    "Dimensions must be 9x9."@
}

/// `list` enumerates, in row-major order, the empty cells of `g` that come
/// before the `limit`-th cell of the board.
spec fn listed_up_to(g: Seq<Seq<u8>>, list: Seq<(usize, usize)>, limit: int) -> bool {
    &&& forall|i: int|
        0 <= i < list.len() ==> {
            &&& in_range((#[trigger] list[i]).0 as int, list[i].1 as int)
            &&& cell(g, list[i].0 as int, list[i].1 as int) == 0
            &&& row_major(list[i]) < limit
        }
    &&& forall|i: int, j: int|
        0 <= i < j < list.len() ==> row_major(#[trigger] list[i]) < row_major(#[trigger] list[j])
    &&& forall|r: int, c: int|
        in_range(r, c) && r * 9 + c < limit && #[trigger] cell(g, r, c) == 0 ==> list.contains(
            (r as usize, c as usize),
        )
}

} // verus!
