//! What holds of the board and of the solver, whatever the puzzle.
//!
//! Each statement here is about grids, the mathematical view of a board, and
//! is phrased with the predicates that the contracts of [`crate::Sudoku`] use.
use vstd::prelude::*;
use vstd::set_lib::{lemma_int_range, lemma_len_subset, lemma_subset_equality, set_int_range};
use crate::candidates::lists_valid_digits;
use crate::grid::{
    cell, holds_once, in_range, is_completion, is_consistent, is_grid, is_solved,
    lists_empty_cells, placement_valid, row_major, row_major_le, same_unit, solve_outcome,
    stands_alone, unit_cell, unit_values, with_cell, UnitKind,
};
use crate::parse::{is_parse_of, lands_on};
use crate::search::{agree_at, below_at, precedes_along, search_outcome};

verus! {

/// A cell that was written reads back as the digit written, and every other
/// cell reads as before. Writing 0 therefore clears the cell.
pub proof fn lemma_write_then_read(g: Seq<Seq<u8>>, r: int, c: int, d: u8)
    requires
        is_grid(g),
        in_range(r, c),
    ensures
        is_grid(with_cell(g, r, c, d)),
        cell(with_cell(g, r, c, d), r, c) == d,
        forall|r2: int, c2: int|
            in_range(r2, c2) && (r2 != r || c2 != c) ==> #[trigger] cell(
                with_cell(g, r, c, d),
                r2,
                c2,
            ) == cell(g, r2, c2),
{
}

/// Two grids with the same eighty-one digits are the same grid.
pub proof fn lemma_grids_equal(a: Seq<Seq<u8>>, b: Seq<Seq<u8>>)
    requires
        is_grid(a),
        is_grid(b),
        forall|r: int, c: int| in_range(r, c) ==> #[trigger] cell(a, r, c) == cell(b, r, c),
    ensures
        a == b,
{
    assert forall|r: int| 0 <= r < 9 implies #[trigger] a[r] == b[r] by {
        assert forall|c: int| 0 <= c < 9 implies a[r][c] == b[r][c] by {
            assert(cell(a, r, c) == cell(b, r, c));
        }
        assert(a[r] =~= b[r]);
    }
    assert(a =~= b);
}

/// Nine different digits between 1 and 9 are all of them.
proof fn lemma_nine_distinct_digits(vals: Seq<u8>)
    requires
        vals.len() == 9,
        forall|i: int| 0 <= i < 9 ==> 1 <= #[trigger] vals[i] <= 9,
        forall|i: int, j: int| 0 <= i < j < 9 ==> #[trigger] vals[i] != #[trigger] vals[j],
    ensures
        forall|d: u8| 1 <= d <= 9 ==> #[trigger] vals.contains(d),
{
    let ints = Seq::new(9, |i: int| vals[i] as int);
    assert(ints.no_duplicates()) by {
        assert forall|i: int, j: int| 0 <= i < ints.len() && 0 <= j < ints.len() && i != j implies ints[i]
            != ints[j] by {
            if i < j {
                assert(vals[i] != vals[j]);
            } else {
                assert(vals[j] != vals[i]);
            }
        }
    }
    ints.unique_seq_to_set();
    lemma_int_range(1, 10);
    let digits = set_int_range(1, 10);
    assert(ints.to_set().subset_of(digits)) by {
        assert forall|x: int| ints.to_set().contains(x) implies digits.contains(x) by {
            let i = choose|i: int| 0 <= i < ints.len() && ints[i] == x;
            assert(1 <= vals[i] <= 9);
        }
    }
    lemma_len_subset(ints.to_set(), digits);
    lemma_subset_equality(ints.to_set(), digits);
    assert forall|d: u8| 1 <= d <= 9 implies #[trigger] vals.contains(d) by {
        assert(digits.contains(d as int));
        assert(ints.contains(d as int));
        let i = choose|i: int| 0 <= i < ints.len() && ints[i] == d as int;
        assert(vals[i] == d);
    }
}

/// The cells of one unit lie on the board, share that unit, and are nine
/// different cells.
proof fn lemma_unit_cells(kind: UnitKind, u: int, i: int, j: int)
    requires
        0 <= u < 9,
        0 <= i < 9,
        0 <= j < 9,
    ensures
        in_range(unit_cell(kind, u, i).0, unit_cell(kind, u, i).1),
        same_unit(
            unit_cell(kind, u, i).0,
            unit_cell(kind, u, i).1,
            unit_cell(kind, u, j).0,
            unit_cell(kind, u, j).1,
        ),
        i != j ==> unit_cell(kind, u, i) != unit_cell(kind, u, j),
{
}

/// On a board where every cell holds a digit from 1 to 9 that occurs nowhere
/// else in its units, every unit holds each digit exactly once.
proof fn lemma_all_alone_is_solved(f: Seq<Seq<u8>>)
    requires
        is_grid(f),
        forall|r: int, c: int|
            in_range(r, c) ==> 1 <= #[trigger] cell(f, r, c) <= 9 && stands_alone(f, r, c),
    ensures
        is_solved(f),
{
    assert forall|kind: UnitKind, u: int, d: u8| 0 <= u < 9 && 1 <= d <= 9 implies #[trigger] holds_once(
        unit_values(f, kind, u),
        d,
    ) by {
        let vals = unit_values(f, kind, u);
        assert forall|i: int| 0 <= i < 9 implies 1 <= #[trigger] vals[i] <= 9 by {
            lemma_unit_cells(kind, u, i, i);
            assert(1 <= cell(f, unit_cell(kind, u, i).0, unit_cell(kind, u, i).1) <= 9);
        }
        assert forall|i: int, j: int| 0 <= i < 9 && 0 <= j < 9 && i != j implies #[trigger] vals[i]
            != #[trigger] vals[j] by {
            lemma_unit_cells(kind, u, i, j);
            lemma_unit_cells(kind, u, j, i);
            let p = unit_cell(kind, u, i);
            let q = unit_cell(kind, u, j);
            assert(1 <= cell(f, p.0, p.1) <= 9);
            assert(stands_alone(f, p.0, p.1));
            assert(cell(f, q.0, q.1) != cell(f, p.0, p.1));
        }
        lemma_nine_distinct_digits(vals);
        assert(vals.contains(d));
    }
}

/// A completion of a consistent puzzle is a solved board that still shows
/// every clue of the puzzle.
pub proof fn lemma_completion_is_solved(g: Seq<Seq<u8>>, f: Seq<Seq<u8>>)
    requires
        is_consistent(g),
        is_completion(g, f),
    ensures
        is_solved(f),
        forall|r: int, c: int|
            in_range(r, c) && cell(g, r, c) != 0 ==> #[trigger] cell(f, r, c) == cell(g, r, c),
{
    assert forall|r: int, c: int| in_range(r, c) implies 1 <= #[trigger] cell(f, r, c) <= 9
        && stands_alone(f, r, c) by {
        if cell(g, r, c) != 0 {
            assert(stands_alone(g, r, c));
            assert forall|r2: int, c2: int|
                in_range(r2, c2) && same_unit(r, c, r2, c2) && (r2 != r || c2 != c) implies #[trigger] cell(
                f,
                r2,
                c2,
            ) != cell(f, r, c) by {
                if cell(g, r2, c2) != 0 {
                    assert(cell(g, r2, c2) != cell(g, r, c));
                } else {
                    assert(stands_alone(f, r2, c2));
                    assert(same_unit(r2, c2, r, c));
                    assert(cell(f, r, c) != cell(f, r2, c2));
                }
            }
        }
    }
    lemma_all_alone_is_solved(f);
}

/// Of two different grids, only one can come no later than the other.
pub proof fn lemma_row_major_antisymmetric(a: Seq<Seq<u8>>, b: Seq<Seq<u8>>)
    requires
        row_major_le(a, b),
        row_major_le(b, a),
    ensures
        a == b,
{
    if a != b {
        let (r1, c1) = choose|r: int, c: int|
            {
                &&& in_range(r, c)
                &&& #[trigger] cell(a, r, c) < cell(b, r, c)
                &&& forall|r2: int, c2: int|
                    in_range(r2, c2) && r2 * 9 + c2 < r * 9 + c ==> #[trigger] cell(a, r2, c2)
                        == cell(b, r2, c2)
            };
        let (r2, c2) = choose|r: int, c: int|
            {
                &&& in_range(r, c)
                &&& #[trigger] cell(b, r, c) < cell(a, r, c)
                &&& forall|r2: int, c2: int|
                    in_range(r2, c2) && r2 * 9 + c2 < r * 9 + c ==> #[trigger] cell(b, r2, c2)
                        == cell(a, r2, c2)
            };
        if r1 * 9 + c1 < r2 * 9 + c2 {
            assert(cell(b, r1, c1) == cell(a, r1, c1));
        } else if r2 * 9 + c2 < r1 * 9 + c1 {
            assert(cell(a, r2, c2) == cell(b, r2, c2));
        } else {
            assert(r1 == r2 && c1 == c2);
        }
    }
}

/// Solving is a function of the puzzle: two runs on the same puzzle report
/// the same and leave the same board.
pub proof fn lemma_solve_deterministic(
    g: Seq<Seq<u8>>,
    solved1: bool,
    after1: Seq<Seq<u8>>,
    solved2: bool,
    after2: Seq<Seq<u8>>,
)
    requires
        is_grid(g),
        solve_outcome(g, solved1, after1),
        solve_outcome(g, solved2, after2),
    ensures
        solved1 == solved2,
        after1 == after2,
{
    if solved1 {
        assert(row_major_le(after1, after2));
        assert(row_major_le(after2, after1));
        lemma_row_major_antisymmetric(after1, after2);
    }
}

/// Solving a board that a successful run has left succeeds again and changes
/// nothing: a completed board has no empty cell left to fill.
pub proof fn lemma_solved_stays_solved(g: Seq<Seq<u8>>, f: Seq<Seq<u8>>)
    requires
        is_grid(g),
        solve_outcome(g, true, f),
    ensures
        solve_outcome(f, true, f),
{
    assert forall|r: int, c: int| in_range(r, c) implies #[trigger] cell(f, r, c) != 0 by {
        if cell(g, r, c) != 0 {
        }
    }
    assert(is_completion(f, f));
    assert forall|h: Seq<Seq<u8>>| #[trigger] is_completion(f, h) implies row_major_le(f, h) by {
        assert forall|r: int, c: int| in_range(r, c) implies #[trigger] cell(f, r, c) == cell(
            h,
            r,
            c,
        ) by {
            assert(cell(f, r, c) != 0);
            assert(cell(h, r, c) == cell(f, r, c));
        }
        lemma_grids_equal(f, h);
    }
}

/// `s` is strictly increasing.
pub open spec fn increasing(s: Seq<int>) -> bool {
    forall|i: int, j: int| 0 <= i < j < s.len() ==> #[trigger] s[i] < #[trigger] s[j]
}

/// Two strictly increasing sequences with the same members agree wherever
/// both reach.
proof fn lemma_increasing_agree(a: Seq<int>, b: Seq<int>, n: int)
    requires
        increasing(a),
        increasing(b),
        forall|x: int| #[trigger] a.contains(x) ==> b.contains(x),
        forall|x: int| #[trigger] b.contains(x) ==> a.contains(x),
        0 <= n <= a.len(),
        n <= b.len(),
    ensures
        forall|i: int| 0 <= i < n ==> a[i] == b[i],
    decreases n,
{
    if n > 0 {
        lemma_increasing_agree(a, b, n - 1);
        let i = n - 1;
        assert(a.contains(a[i]));
        let m = choose|m: int| 0 <= m < b.len() && b[m] == a[i];
        if m < i {
            assert(a[m] < a[i]);
        }
        assert(b.contains(b[i]));
        let k = choose|k: int| 0 <= k < a.len() && a[k] == b[i];
        if k < i {
            assert(b[k] < b[i]);
        }
        if m > i {
            assert(b[i] < b[m]);
        }
        if k > i {
            assert(a[i] < a[k]);
        }
    }
}

/// A strictly increasing sequence is determined by its members.
pub proof fn lemma_increasing_determined(a: Seq<int>, b: Seq<int>)
    requires
        increasing(a),
        increasing(b),
        forall|x: int| #[trigger] a.contains(x) ==> b.contains(x),
        forall|x: int| #[trigger] b.contains(x) ==> a.contains(x),
    ensures
        a == b,
{
    if a.len() < b.len() {
        lemma_increasing_agree(a, b, a.len() as int);
        let x = b[a.len() as int];
        assert(b.contains(x));
        let k = choose|k: int| 0 <= k < a.len() && a[k] == x;
        assert(b[k] < b[a.len() as int]);
    } else if b.len() < a.len() {
        lemma_increasing_agree(a, b, b.len() as int);
        let x = a[b.len() as int];
        assert(a.contains(x));
        let k = choose|k: int| 0 <= k < b.len() && b[k] == x;
        assert(a[k] < a[b.len() as int]);
    } else {
        lemma_increasing_agree(a, b, a.len() as int);
        assert(a =~= b);
    }
}

/// A grid has one list of empty cells.
pub proof fn lemma_empty_cells_determined(
    g: Seq<Seq<u8>>,
    a: Seq<(usize, usize)>,
    b: Seq<(usize, usize)>,
)
    requires
        lists_empty_cells(g, a),
        lists_empty_cells(g, b),
    ensures
        a == b,
{
    let ka = Seq::new(a.len(), |i: int| row_major(a[i]));
    let kb = Seq::new(b.len(), |i: int| row_major(b[i]));
    assert(increasing(ka)) by {
        assert forall|i: int, j: int| 0 <= i < j < ka.len() implies #[trigger] ka[i] < #[trigger] ka[j] by {
            assert(row_major(a[i]) < row_major(a[j]));
        }
    }
    assert(increasing(kb)) by {
        assert forall|i: int, j: int| 0 <= i < j < kb.len() implies #[trigger] kb[i] < #[trigger] kb[j] by {
            assert(row_major(b[i]) < row_major(b[j]));
        }
    }
    assert forall|x: int| #[trigger] ka.contains(x) implies kb.contains(x) by {
        let i = choose|i: int| 0 <= i < ka.len() && ka[i] == x;
        let p = a[i];
        assert(cell(g, p.0 as int, p.1 as int) == 0);
        assert(b.contains((p.0 as int as usize, p.1 as int as usize)));
        let k = choose|k: int| 0 <= k < b.len() && b[k] == p;
        assert(kb[k] == x);
    }
    assert forall|x: int| #[trigger] kb.contains(x) implies ka.contains(x) by {
        let i = choose|i: int| 0 <= i < kb.len() && kb[i] == x;
        let p = b[i];
        assert(cell(g, p.0 as int, p.1 as int) == 0);
        assert(a.contains((p.0 as int as usize, p.1 as int as usize)));
        let k = choose|k: int| 0 <= k < a.len() && a[k] == p;
        assert(ka[k] == x);
    }
    lemma_increasing_determined(ka, kb);
    assert(ka.len() == kb.len());
    assert forall|i: int| 0 <= i < a.len() implies a[i] == b[i] by {
        assert(ka[i] == row_major(a[i]));
        assert(kb[i] == row_major(b[i]));
        assert(in_range(a[i].0 as int, a[i].1 as int));
        assert(in_range(b[i].0 as int, b[i].1 as int));
    }
    assert(a =~= b);
}

/// A cell has one candidate set.
pub proof fn lemma_valid_digits_determined(
    g: Seq<Seq<u8>>,
    r: int,
    c: int,
    a: Seq<u8>,
    b: Seq<u8>,
)
    requires
        lists_valid_digits(g, r, c, a),
        lists_valid_digits(g, r, c, b),
    ensures
        a == b,
{
    let ka = Seq::new(a.len(), |i: int| a[i] as int);
    let kb = Seq::new(b.len(), |i: int| b[i] as int);
    assert(increasing(ka)) by {
        assert forall|i: int, j: int| 0 <= i < j < ka.len() implies #[trigger] ka[i] < #[trigger] ka[j] by {
            assert(a[i] < a[j]);
        }
    }
    assert(increasing(kb)) by {
        assert forall|i: int, j: int| 0 <= i < j < kb.len() implies #[trigger] kb[i] < #[trigger] kb[j] by {
            assert(b[i] < b[j]);
        }
    }
    assert forall|x: int| #[trigger] ka.contains(x) implies kb.contains(x) by {
        let i = choose|i: int| 0 <= i < ka.len() && ka[i] == x;
        let d = a[i];
        assert(1 <= d <= 9);
        assert(a.contains(d));
        assert(placement_valid(g, r, c, d));
        assert(b.contains(d));
        let k = choose|k: int| 0 <= k < b.len() && b[k] == d;
        assert(kb[k] == x);
    }
    assert forall|x: int| #[trigger] kb.contains(x) implies ka.contains(x) by {
        let i = choose|i: int| 0 <= i < kb.len() && kb[i] == x;
        let d = b[i];
        assert(1 <= d <= 9);
        assert(b.contains(d));
        assert(placement_valid(g, r, c, d));
        assert(a.contains(d));
        let k = choose|k: int| 0 <= k < a.len() && a[k] == d;
        assert(ka[k] == x);
    }
    lemma_increasing_determined(ka, kb);
    assert(ka.len() == kb.len());
    assert forall|i: int| 0 <= i < a.len() implies a[i] == b[i] by {
        assert(ka[i] == a[i] as int);
        assert(kb[i] == b[i] as int);
    }
    assert(a =~= b);
}

/// A text spells one board.
pub proof fn lemma_parse_determined(text: Seq<char>, g1: Seq<Seq<u8>>, g2: Seq<Seq<u8>>)
    requires
        is_parse_of(text, g1),
        is_parse_of(text, g2),
    ensures
        g1 == g2,
{
    assert forall|r: int, c: int| in_range(r, c) implies #[trigger] cell(g1, r, c) == cell(
        g2,
        r,
        c,
    ) by {
        if cell(g1, r, c) != 0 {
            let i = choose|i: int| 0 <= i < text.len() && #[trigger] lands_on(text, i, r, c);
            assert(lands_on(text, i, r, c));
        } else if cell(g2, r, c) != 0 {
            let i = choose|i: int| 0 <= i < text.len() && #[trigger] lands_on(text, i, r, c);
            assert(lands_on(text, i, r, c));
        }
    }
    lemma_grids_equal(g1, g2);
}

/// The search is a function of the board, the list and the candidates: two
/// runs on the same input report the same and leave the same board.
pub proof fn lemma_search_deterministic(
    g: Seq<Seq<u8>>,
    ps: Seq<(usize, usize)>,
    numbers: Map<usize, Vec<u8>>,
    found1: bool,
    after1: Seq<Seq<u8>>,
    found2: bool,
    after2: Seq<Seq<u8>>,
)
    requires
        forall|k: int| 0 <= k < ps.len() ==> in_range((#[trigger] ps[k]).0 as int, ps[k].1 as int),
        search_outcome(g, ps, numbers, found1, after1),
        search_outcome(g, ps, numbers, found2, after2),
    ensures
        found1 == found2,
        after1 == after2,
{
    if found1 {
        assert(precedes_along(ps, after1, after2));
        assert(precedes_along(ps, after2, after1));
        assert forall|k: int| 0 <= k < ps.len() implies agree_at(after1, after2, #[trigger] ps[k]) by {
            if !agree_at(after1, after2, ps[k]) {
                let k1 = choose|k: int|
                    {
                        &&& 0 <= k < ps.len()
                        &&& below_at(after1, after2, #[trigger] ps[k])
                        &&& forall|j: int| 0 <= j < k ==> agree_at(after1, after2, #[trigger] ps[j])
                    };
                let k2 = choose|k: int|
                    {
                        &&& 0 <= k < ps.len()
                        &&& below_at(after2, after1, #[trigger] ps[k])
                        &&& forall|j: int| 0 <= j < k ==> agree_at(after2, after1, #[trigger] ps[j])
                    };
                if k1 < k2 {
                    assert(agree_at(after2, after1, ps[k1]));
                } else if k2 < k1 {
                    assert(agree_at(after1, after2, ps[k2]));
                }
            }
        }
        assert forall|r: int, c: int| in_range(r, c) implies #[trigger] cell(after1, r, c) == cell(
            after2,
            r,
            c,
        ) by {
            let q = (r as usize, c as usize);
            if ps.contains(q) {
                let k = choose|k: int| 0 <= k < ps.len() && ps[k] == q;
                assert(agree_at(after1, after2, ps[k]));
            } else {
                assert(cell(after1, r, c) == cell(g, r, c));
                assert(cell(after2, r, c) == cell(g, r, c));
            }
        }
        lemma_grids_equal(after1, after2);
    }
}

} // verus!
