//! Solving a puzzle: list the empty cells, work out their candidates, search.
use vstd::prelude::*;
use crate::board::Sudoku;
use crate::candidates::{candidates_at, maps_candidates};
use crate::grid::{
    cell, in_range, is_completion, is_consistent, is_grid, is_solved, lists_empty_cells,
    placement_valid, row_major, row_major_le, same_unit, solve_outcome, stands_alone,
};
use crate::laws::{lemma_completion_is_solved, lemma_grids_equal};
use crate::search::{agree_at, below_at, is_extension, precedes_along, searchable};

verus! {

/// The empty cells of a board, with their candidate sets, are what the search
/// asks for.
proof fn lemma_empty_cells_searchable(
    g: Seq<Seq<u8>>,
    ps: Seq<(usize, usize)>,
    numbers: Map<usize, Vec<u8>>,
)
    requires
        lists_empty_cells(g, ps),
        maps_candidates(g, ps, numbers),
    ensures
        searchable(g, ps, numbers),
{
    assert forall|i: int, j: int| 0 <= i < j < ps.len() implies #[trigger] ps[i] != #[trigger] ps[j] by {
        assert(row_major(ps[i]) < row_major(ps[j]));
    }
}

/// With the empty cells of a puzzle listed and their candidate sets mapped,
/// the fillings of the list are the completions of the puzzle.
proof fn lemma_extension_is_completion(
    g: Seq<Seq<u8>>,
    ps: Seq<(usize, usize)>,
    numbers: Map<usize, Vec<u8>>,
    f: Seq<Seq<u8>>,
)
    requires
        is_grid(g),
        lists_empty_cells(g, ps),
        maps_candidates(g, ps, numbers),
    ensures
        is_extension(g, ps, numbers, f) <==> is_completion(g, f),
{
    if is_extension(g, ps, numbers, f) {
        assert forall|r: int, c: int| in_range(r, c) implies {
            &&& cell(g, r, c) != 0 ==> #[trigger] cell(f, r, c) == cell(g, r, c)
            &&& cell(g, r, c) == 0 ==> 1 <= cell(f, r, c) <= 9 && stands_alone(f, r, c)
        } by {
            let q = (r as usize, c as usize);
            if cell(g, r, c) != 0 {
                if ps.contains(q) {
                    let k = choose|k: int| 0 <= k < ps.len() && ps[k] == q;
                    assert(cell(g, ps[k].0 as int, ps[k].1 as int) == 0);
                }
            } else {
                assert(ps.contains(q));
                let k = choose|k: int| 0 <= k < ps.len() && ps[k] == q;
                let cands = candidates_at(numbers, ps[k]);
                let d = cell(f, ps[k].0 as int, ps[k].1 as int);
                assert(cands.contains(d));
                let at = choose|i: int| 0 <= i < cands.len() && cands[i] == d;
                assert(1 <= cands[at] <= 9);
            }
        }
    }
    if is_completion(g, f) {
        assert forall|r: int, c: int|
            in_range(r, c) && !ps.contains((r as usize, c as usize)) implies #[trigger] cell(
            f,
            r,
            c,
        ) == cell(g, r, c) by {
            if cell(g, r, c) == 0 {
                assert(ps.contains((r as usize, c as usize)));
            }
        }
        assert forall|k: int| 0 <= k < ps.len() implies {
            &&& candidates_at(numbers, #[trigger] ps[k]).contains(
                cell(f, ps[k].0 as int, ps[k].1 as int),
            )
            &&& stands_alone(f, ps[k].0 as int, ps[k].1 as int)
        } by {
            let r = ps[k].0 as int;
            let c = ps[k].1 as int;
            let d = cell(f, r, c);
            assert(cell(g, r, c) == 0);
            assert(1 <= d <= 9 && stands_alone(f, r, c));
            assert forall|r2: int, c2: int|
                in_range(r2, c2) && same_unit(r, c, r2, c2) implies #[trigger] cell(g, r2, c2)
                != d by {
                if cell(g, r2, c2) != 0 {
                    assert(cell(f, r2, c2) == cell(g, r2, c2));
                }
            }
            assert(placement_valid(g, r, c, d));
        }
    }
}

/// For two completions of one puzzle, coming first along the list of the
/// puzzle's empty cells is coming first when the boards are read row by row.
proof fn lemma_precedes_row_major(
    g: Seq<Seq<u8>>,
    ps: Seq<(usize, usize)>,
    a: Seq<Seq<u8>>,
    b: Seq<Seq<u8>>,
)
    requires
        is_grid(g),
        lists_empty_cells(g, ps),
        is_completion(g, a),
        is_completion(g, b),
        precedes_along(ps, a, b),
    ensures
        row_major_le(a, b),
{
    if forall|k: int| 0 <= k < ps.len() ==> agree_at(a, b, #[trigger] ps[k]) {
        assert forall|r: int, c: int| in_range(r, c) implies #[trigger] cell(a, r, c) == cell(
            b,
            r,
            c,
        ) by {
            if cell(g, r, c) == 0 {
                let q = (r as usize, c as usize);
                assert(ps.contains(q));
                let k = choose|k: int| 0 <= k < ps.len() && ps[k] == q;
                assert(agree_at(a, b, ps[k]));
            } else {
                assert(cell(b, r, c) == cell(g, r, c));
            }
        }
        lemma_grids_equal(a, b);
    } else {
        let k = choose|k: int|
            {
                &&& 0 <= k < ps.len()
                &&& below_at(a, b, #[trigger] ps[k])
                &&& forall|j: int| 0 <= j < k ==> agree_at(a, b, #[trigger] ps[j])
            };
        let r = ps[k].0 as int;
        let c = ps[k].1 as int;
        assert(in_range(r, c));
        assert(cell(a, r, c) < cell(b, r, c));
        assert forall|r2: int, c2: int|
            in_range(r2, c2) && r2 * 9 + c2 < r * 9 + c implies #[trigger] cell(a, r2, c2) == cell(
            b,
            r2,
            c2,
        ) by {
            if cell(g, r2, c2) == 0 {
                let q = (r2 as usize, c2 as usize);
                assert(ps.contains(q));
                let j = choose|j: int| 0 <= j < ps.len() && ps[j] == q;
                if j > k {
                    assert(row_major(ps[k]) < row_major(ps[j]));
                }
                assert(agree_at(a, b, ps[j]));
            } else {
                assert(cell(b, r2, c2) == cell(g, r2, c2));
            }
        }
    }
}

impl Sudoku {
    /// Solves the puzzle on the board, if it can be solved.
    ///
    /// Returns `true` exactly when the puzzle has a completion, and then
    /// leaves on the board the completion that comes first when read row by
    /// row: no clue has moved, and if the clues were consistent the board is
    /// a solved Sudoku. Returns `false` otherwise, with the board as it was.
    pub fn solve(&mut self) -> (solved: bool)
        ensures
            solve_outcome(old(self)@, solved, final(self)@),
            forall|r: int, c: int|
                in_range(r, c) && cell(old(self)@, r, c) != 0 ==> #[trigger] cell(final(self)@, r, c)
                    == cell(old(self)@, r, c),
            solved && is_consistent(old(self)@) ==> is_solved(final(self)@),
    {
        proof {
            use_type_invariant(&*self);
        }
        let ghost g = self@;
        let empty_positions = self.find_empty_positions();
        let valid_numbers = self.find_valid_numbers_for(&empty_positions);
        proof {
            lemma_empty_cells_searchable(g, empty_positions@, valid_numbers@);
        }
        let solved = self.solve_recursive(empty_positions.as_slice(), &valid_numbers);
        proof {
            let ps = empty_positions@;
            let numbers = valid_numbers@;
            let after = self@;
            assert forall|f: Seq<Seq<u8>>|
                is_extension(g, ps, numbers, f) <==> #[trigger] is_completion(g, f) by {
                lemma_extension_is_completion(g, ps, numbers, f);
            }
            if solved {
                lemma_extension_is_completion(g, ps, numbers, after);
                assert forall|f: Seq<Seq<u8>>| #[trigger] is_completion(g, f) implies row_major_le(
                    after,
                    f,
                ) by {
                    lemma_extension_is_completion(g, ps, numbers, f);
                    lemma_precedes_row_major(g, ps, after, f);
                }
                if is_consistent(g) {
                    lemma_completion_is_solved(g, after);
                }
            } else {
                assert forall|f: Seq<Seq<u8>>| !is_completion(g, f) by {
                    lemma_extension_is_completion(g, ps, numbers, f);
                }
            }
        }
        solved
    }
}

} // verus!
