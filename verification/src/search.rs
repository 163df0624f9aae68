//! The backtracking search.
//!
//! The search walks a list of empty cells in the order given. At each cell it
//! tries that cell's candidates in ascending order, keeps the first one that
//! does not clash with the board as it then stands and lets the rest of the
//! list be filled, and takes the digit back when the rest cannot be filled.
//! The contract says what that amounts to: the search succeeds exactly when
//! the listed cells can be filled at all, and then it leaves the filling that
//! comes first in the order of the list.
use std::collections::HashMap;
use vstd::prelude::*;
use vstd::slice::slice_subrange;
use crate::board::Sudoku;
use crate::candidates::{ascending_digits, candidates_at};
use crate::grid::{cell, in_range, is_grid, placement_valid, same_unit, stands_alone, with_cell};

verus! {

broadcast use vstd::std_specs::hash::group_hash_axioms;

/// What the search asks of its input: every listed cell lies on the board and
/// is empty, no cell is listed twice, and each listed cell's candidates are
/// digits in ascending order.
pub open spec fn searchable(
    g: Seq<Seq<u8>>,
    ps: Seq<(usize, usize)>,
    numbers: Map<usize, Vec<u8>>,
) -> bool {
    &&& forall|k: int|
        0 <= k < ps.len() ==> {
            &&& in_range((#[trigger] ps[k]).0 as int, ps[k].1 as int)
            &&& cell(g, ps[k].0 as int, ps[k].1 as int) == 0
            &&& ascending_digits(candidates_at(numbers, ps[k]))
        }
    &&& forall|i: int, j: int| 0 <= i < j < ps.len() ==> #[trigger] ps[i] != #[trigger] ps[j]
}

/// `f` fills the cells `ps` of `g`: outside `ps` it is `g`, and each cell of
/// `ps` holds one of its candidates, which no other cell of its row, column or
/// box holds.
pub open spec fn is_extension(
    g: Seq<Seq<u8>>,
    ps: Seq<(usize, usize)>,
    numbers: Map<usize, Vec<u8>>,
    f: Seq<Seq<u8>>,
) -> bool {
    &&& is_grid(f)
    &&& forall|r: int, c: int|
        in_range(r, c) && !ps.contains((r as usize, c as usize)) ==> #[trigger] cell(f, r, c)
            == cell(g, r, c)
    &&& forall|k: int|
        0 <= k < ps.len() ==> {
            &&& candidates_at(numbers, #[trigger] ps[k]).contains(
                cell(f, ps[k].0 as int, ps[k].1 as int),
            )
            &&& stands_alone(f, ps[k].0 as int, ps[k].1 as int)
        }
}

/// The grids `a` and `b` hold the same digit in cell `p`.
pub open spec fn agree_at(a: Seq<Seq<u8>>, b: Seq<Seq<u8>>, p: (usize, usize)) -> bool {
    cell(a, p.0 as int, p.1 as int) == cell(b, p.0 as int, p.1 as int)
}

/// In cell `p` the grid `a` holds a smaller digit than `b`.
pub open spec fn below_at(a: Seq<Seq<u8>>, b: Seq<Seq<u8>>, p: (usize, usize)) -> bool {
    cell(a, p.0 as int, p.1 as int) < cell(b, p.0 as int, p.1 as int)
}

/// Read along the cells `ps`, the grid `a` comes no later than `b` in
/// dictionary order: either they agree on all of `ps`, or `a` has the smaller
/// digit in the first listed cell where they differ.
pub open spec fn precedes_along(ps: Seq<(usize, usize)>, a: Seq<Seq<u8>>, b: Seq<Seq<u8>>) -> bool {
    ||| forall|k: int| 0 <= k < ps.len() ==> agree_at(a, b, #[trigger] ps[k])
    ||| exists|k: int|
        {
            &&& 0 <= k < ps.len()
            &&& below_at(a, b, #[trigger] ps[k])
            &&& forall|j: int| 0 <= j < k ==> agree_at(a, b, #[trigger] ps[j])
        }
}

/// What a search over the cells `ps` leaves behind: it reports success exactly
/// when `ps` can be filled; the board is then the first filling in the order
/// of `ps`; otherwise the board is as it was.
pub open spec fn search_outcome(
    before: Seq<Seq<u8>>,
    ps: Seq<(usize, usize)>,
    numbers: Map<usize, Vec<u8>>,
    found: bool,
    after: Seq<Seq<u8>>,
) -> bool {
    &&& is_grid(after)
    &&& found <==> exists|f: Seq<Seq<u8>>| is_extension(before, ps, numbers, f)
    &&& found ==> {
        &&& is_extension(before, ps, numbers, after)
        &&& forall|f: Seq<Seq<u8>>| #[trigger]
            is_extension(before, ps, numbers, f) ==> precedes_along(ps, after, f)
    }
    &&& !found ==> after == before
}

/// A cell is listed in `ps` when it is the first entry or listed in the rest.
proof fn lemma_listed_first_or_later(ps: Seq<(usize, usize)>, q: (usize, usize))
    requires
        ps.len() > 0,
    ensures
        ps.contains(q) <==> (q == ps[0] || ps.subrange(1, ps.len() as int).contains(q)),
{
    let rest = ps.subrange(1, ps.len() as int);
    if ps.contains(q) {
        let i = choose|i: int| 0 <= i < ps.len() && ps[i] == q;
        if i > 0 {
            assert(rest[i - 1] == q);
        }
    }
    if rest.contains(q) {
        let i = choose|i: int| 0 <= i < rest.len() && rest[i] == q;
        assert(ps[i + 1] == q);
    }
}

/// Writing a digit into the first listed cell leaves the rest of the list
/// searchable.
proof fn lemma_searchable_step(
    g: Seq<Seq<u8>>,
    ps: Seq<(usize, usize)>,
    numbers: Map<usize, Vec<u8>>,
    d: u8,
)
    requires
        is_grid(g),
        searchable(g, ps, numbers),
        ps.len() > 0,
    ensures
        is_grid(with_cell(g, ps[0].0 as int, ps[0].1 as int, d)),
        searchable(
            with_cell(g, ps[0].0 as int, ps[0].1 as int, d),
            ps.subrange(1, ps.len() as int),
            numbers,
        ),
{
    let rest = ps.subrange(1, ps.len() as int);
    let g2 = with_cell(g, ps[0].0 as int, ps[0].1 as int, d);
    assert forall|k: int| 0 <= k < rest.len() implies {
        &&& in_range((#[trigger] rest[k]).0 as int, rest[k].1 as int)
        &&& cell(g2, rest[k].0 as int, rest[k].1 as int) == 0
        &&& ascending_digits(candidates_at(numbers, rest[k]))
    } by {
        assert(rest[k] == ps[k + 1]);
        assert(ps[0] != ps[k + 1]);
    }
    assert forall|i: int, j: int| 0 <= i < j < rest.len() implies #[trigger] rest[i]
        != #[trigger] rest[j] by {
        assert(rest[i] == ps[i + 1]);
        assert(rest[j] == ps[j + 1]);
    }
}

/// A filling of `ps` puts into the first listed cell a candidate that is a
/// valid placement there, and fills the rest of the list on the board with
/// that digit written in.
proof fn lemma_extension_unfold(
    g: Seq<Seq<u8>>,
    ps: Seq<(usize, usize)>,
    numbers: Map<usize, Vec<u8>>,
    f: Seq<Seq<u8>>,
)
    requires
        is_grid(g),
        searchable(g, ps, numbers),
        ps.len() > 0,
        is_extension(g, ps, numbers, f),
    ensures
        ({
            let r = ps[0].0 as int;
            let c = ps[0].1 as int;
            let d = cell(f, r, c);
            &&& candidates_at(numbers, ps[0]).contains(d)
            &&& placement_valid(g, r, c, d)
            &&& is_extension(with_cell(g, r, c, d), ps.subrange(1, ps.len() as int), numbers, f)
        }),
{
    let p = ps[0];
    let r = p.0 as int;
    let c = p.1 as int;
    let d = cell(f, r, c);
    let rest = ps.subrange(1, ps.len() as int);
    let g2 = with_cell(g, r, c, d);
    let cands = candidates_at(numbers, p);
    assert(cands.contains(d));
    let at = choose|i: int| 0 <= i < cands.len() && cands[i] == d;
    assert(1 <= cands[at] <= 9);
    assert(stands_alone(f, r, c));
    assert forall|r2: int, c2: int| in_range(r2, c2) && same_unit(r, c, r2, c2) implies #[trigger] cell(
        g,
        r2,
        c2,
    ) != d by {
        let q = (r2 as usize, c2 as usize);
        if r2 == r && c2 == c {
        } else if ps.contains(q) {
            let k = choose|k: int| 0 <= k < ps.len() && ps[k] == q;
            assert(cell(g, ps[k].0 as int, ps[k].1 as int) == 0);
        } else {
            assert(cell(f, r2, c2) == cell(g, r2, c2));
        }
    }
    assert forall|r2: int, c2: int|
        in_range(r2, c2) && !rest.contains((r2 as usize, c2 as usize)) implies #[trigger] cell(
        f,
        r2,
        c2,
    ) == cell(g2, r2, c2) by {
        let q = (r2 as usize, c2 as usize);
        if r2 == r && c2 == c {
        } else {
            lemma_listed_first_or_later(ps, q);
            assert(cell(f, r2, c2) == cell(g, r2, c2));
        }
    }
    assert forall|k: int| 0 <= k < rest.len() implies {
        &&& candidates_at(numbers, #[trigger] rest[k]).contains(
            cell(f, rest[k].0 as int, rest[k].1 as int),
        )
        &&& stands_alone(f, rest[k].0 as int, rest[k].1 as int)
    } by {
        assert(rest[k] == ps[k + 1]);
    }
}

/// Conversely: a candidate that is a valid placement in the first listed cell,
/// together with a filling of the rest on the board with that digit written
/// in, is a filling of the whole list.
proof fn lemma_extension_fold(
    g: Seq<Seq<u8>>,
    ps: Seq<(usize, usize)>,
    numbers: Map<usize, Vec<u8>>,
    d: u8,
    f: Seq<Seq<u8>>,
)
    requires
        is_grid(g),
        searchable(g, ps, numbers),
        ps.len() > 0,
        candidates_at(numbers, ps[0]).contains(d),
        placement_valid(g, ps[0].0 as int, ps[0].1 as int, d),
        is_extension(
            with_cell(g, ps[0].0 as int, ps[0].1 as int, d),
            ps.subrange(1, ps.len() as int),
            numbers,
            f,
        ),
    ensures
        is_extension(g, ps, numbers, f),
        cell(f, ps[0].0 as int, ps[0].1 as int) == d,
{
    let p = ps[0];
    let r = p.0 as int;
    let c = p.1 as int;
    let rest = ps.subrange(1, ps.len() as int);
    let g2 = with_cell(g, r, c, d);
    assert(in_range(r, c));
    assert(!rest.contains(p)) by {
        if rest.contains(p) {
            let k = choose|k: int| 0 <= k < rest.len() && rest[k] == p;
            assert(ps[k + 1] == p);
        }
    }
    assert((r as usize, c as usize) == p);
    assert(cell(f, r, c) == cell(g2, r, c));
    assert(cell(f, r, c) == d);
    assert forall|r2: int, c2: int|
        in_range(r2, c2) && !ps.contains((r2 as usize, c2 as usize)) implies #[trigger] cell(
        f,
        r2,
        c2,
    ) == cell(g, r2, c2) by {
        let q = (r2 as usize, c2 as usize);
        lemma_listed_first_or_later(ps, q);
        assert(cell(f, r2, c2) == cell(g2, r2, c2));
    }
    assert forall|r2: int, c2: int|
        in_range(r2, c2) && same_unit(r, c, r2, c2) && (r2 != r || c2 != c) implies #[trigger] cell(
        f,
        r2,
        c2,
    ) != cell(f, r, c) by {
        let q = (r2 as usize, c2 as usize);
        if rest.contains(q) {
            let k = choose|k: int| 0 <= k < rest.len() && rest[k] == q;
            assert(stands_alone(f, rest[k].0 as int, rest[k].1 as int));
            assert(same_unit(r2, c2, r, c));
            assert(cell(f, r, c) != cell(f, r2, c2));
        } else {
            assert(cell(f, r2, c2) == cell(g2, r2, c2));
            assert(cell(g, r2, c2) != d);
        }
    }
    assert forall|k: int| 0 <= k < ps.len() implies {
        &&& candidates_at(numbers, #[trigger] ps[k]).contains(
            cell(f, ps[k].0 as int, ps[k].1 as int),
        )
        &&& stands_alone(f, ps[k].0 as int, ps[k].1 as int)
    } by {
        if k > 0 {
            assert(rest[k - 1] == ps[k]);
        }
    }
}

/// Grids that agree in the first listed cell compare along the whole list as
/// they compare along the rest of it.
proof fn lemma_precedes_after_first(ps: Seq<(usize, usize)>, a: Seq<Seq<u8>>, b: Seq<Seq<u8>>)
    requires
        ps.len() > 0,
        agree_at(a, b, ps[0]),
        precedes_along(ps.subrange(1, ps.len() as int), a, b),
    ensures
        precedes_along(ps, a, b),
{
    let rest = ps.subrange(1, ps.len() as int);
    if forall|k: int| 0 <= k < rest.len() ==> agree_at(a, b, #[trigger] rest[k]) {
        assert forall|k: int| 0 <= k < ps.len() implies agree_at(a, b, #[trigger] ps[k]) by {
            if k > 0 {
                assert(rest[k - 1] == ps[k]);
            }
        }
    } else {
        let k = choose|k: int|
            {
                &&& 0 <= k < rest.len()
                &&& below_at(a, b, #[trigger] rest[k])
                &&& forall|j: int| 0 <= j < k ==> agree_at(a, b, #[trigger] rest[j])
            };
        assert(rest[k] == ps[k + 1]);
        assert forall|j: int| 0 <= j < k + 1 implies agree_at(a, b, #[trigger] ps[j]) by {
            if j > 0 {
                assert(rest[j - 1] == ps[j]);
            }
        }
        assert(below_at(a, b, ps[k + 1]));
    }
}

impl Sudoku {
    /// Fills the cells of `position`, in the order given, by backtracking
    /// over the candidates that `numbers` holds for them.
    ///
    /// Succeeds exactly when some filling exists, and then leaves the one that
    /// comes first in the order of `position`; on failure the board is left as
    /// it was found.
    pub fn solve_recursive(
        &mut self,
        position: &[(usize, usize)],
        numbers: &HashMap<usize, Vec<u8>>,
    ) -> (found: bool)
        requires
            searchable(old(self)@, position@, numbers@),
        ensures
            search_outcome(old(self)@, position@, numbers@, found, final(self)@),
        decreases position@.len(),
    {
        proof {
            use_type_invariant(&*self);
        }
        let ghost g = self@;
        let ghost ps = position@;
        if position.len() == 0 {
            proof {
                assert(is_extension(g, ps, numbers@, g));
                assert forall|f: Seq<Seq<u8>>| #[trigger]
                    is_extension(g, ps, numbers@, f) implies precedes_along(ps, g, f) by {}
            }
            return true;
        }
        let (x, y) = position[0];
        let rest = slice_subrange(position, 1, position.len());
        let key: usize = x * 9 + y;
        match numbers.get(&key) {
            None => {
                proof {
                    assert forall|f: Seq<Seq<u8>>| !is_extension(g, ps, numbers@, f) by {
                        if is_extension(g, ps, numbers@, f) {
                            lemma_extension_unfold(g, ps, numbers@, f);
                        }
                    }
                }
                false
            },
            Some(digits) => {
                assert(digits@ == candidates_at(numbers@, ps[0]));
                let mut i: usize = 0;
                while i < digits.len()
                    invariant
                        i <= digits@.len(),
                        x < 9,
                        y < 9,
                        rest@ == ps.subrange(1, ps.len() as int),
                        ps.len() > 0,
                        ps[0] == (x, y),
                        ps == position@,
                        digits@ == candidates_at(numbers@, ps[0]),
                        is_grid(g),
                        searchable(g, ps, numbers@),
                        g == old(self)@,
                        self@ == g,
                        forall|f: Seq<Seq<u8>>, j: int|
                            0 <= j < i && #[trigger] is_extension(g, ps, numbers@, f) ==> cell(
                                f,
                                x as int,
                                y as int,
                            ) != #[trigger] digits@[j],
                    decreases digits@.len() - i,
                {
                    let number = digits[i];
                    let ghost g2 = with_cell(g, x as int, y as int, number);
                    if self.check_if_n_valid(x, y, number) {
                        proof {
                            lemma_searchable_step(g, ps, numbers@, number);
                        }
                        self.set_value(x, y, number);
                        if self.solve_recursive(rest, numbers) {
                            proof {
                                let found_grid = self@;
                                lemma_extension_fold(g, ps, numbers@, number, found_grid);
                                assert forall|f: Seq<Seq<u8>>| #[trigger]
                                    is_extension(g, ps, numbers@, f) implies precedes_along(
                                    ps,
                                    found_grid,
                                    f,
                                ) by {
                                    lemma_extension_unfold(g, ps, numbers@, f);
                                    let d = cell(f, x as int, y as int);
                                    let j = choose|j: int| 0 <= j < digits@.len() && digits@[j] == d;
                                    if j == i {
                                        assert(is_extension(g2, rest@, numbers@, f));
                                        lemma_precedes_after_first(ps, found_grid, f);
                                    } else {
                                        assert(i < j);
                                        assert(digits@[i as int] < digits@[j]);
                                        assert(below_at(found_grid, f, ps[0]));
                                    }
                                }
                            }
                            return true;
                        }
                        self.set_value(x, y, 0);
                        proof {
                            assert(self@ =~~= g);
                            assert forall|f: Seq<Seq<u8>>| #[trigger]
                                is_extension(g, ps, numbers@, f) implies cell(f, x as int, y as int)
                                != number by {
                                lemma_extension_unfold(g, ps, numbers@, f);
                            }
                        }
                    } else {
                        proof {
                            assert forall|f: Seq<Seq<u8>>| #[trigger]
                                is_extension(g, ps, numbers@, f) implies cell(f, x as int, y as int)
                                != number by {
                                lemma_extension_unfold(g, ps, numbers@, f);
                            }
                        }
                    }
                    i += 1;
                }
                proof {
                    assert forall|f: Seq<Seq<u8>>| !is_extension(g, ps, numbers@, f) by {
                        if is_extension(g, ps, numbers@, f) {
                            lemma_extension_unfold(g, ps, numbers@, f);
                            let d = cell(f, x as int, y as int);
                            let j = choose|j: int| 0 <= j < digits@.len() && digits@[j] == d;
                            assert(cell(f, x as int, y as int) != digits@[j]);
                        }
                    }
                }
                false
            },
        }
    }
}

} // verus!
