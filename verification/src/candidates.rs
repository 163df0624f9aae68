//! Candidate digits: what may still be placed in a cell.
//!
//! The candidates of a cell are the digits from 1 to 9 that its row, column
//! and box do not hold yet. A candidate map files the candidates of some
//! cells, each under the key `9 * row + column`.
use std::collections::HashMap;
use vstd::prelude::*;
use crate::board::Sudoku;
use crate::grid::{in_range, placement_valid};

verus! {

broadcast use vstd::std_specs::hash::group_hash_axioms;

/// The key under which a candidate map files the cell `p`.
pub open spec fn cell_key(p: (usize, usize)) -> usize {
    (p.0 * 9 + p.1) as usize
}

/// The candidate digits that `numbers` holds for the cell `p`; a cell without
/// an entry has none.
pub open spec fn candidates_at(numbers: Map<usize, Vec<u8>>, p: (usize, usize)) -> Seq<u8> {
    if numbers.contains_key(cell_key(p)) {
        numbers[cell_key(p)]@
    } else {
        Seq::empty()
    }
}

/// Digits between 1 and 9, strictly ascending.
pub open spec fn ascending_digits(list: Seq<u8>) -> bool {
    &&& forall|i: int| 0 <= i < list.len() ==> 1 <= #[trigger] list[i] <= 9
    &&& forall|i: int, j: int| 0 <= i < j < list.len() ==> #[trigger] list[i] < #[trigger] list[j]
}

/// `list` is the candidate set of cell `(r, c)` on the grid `g`: the digits
/// from 1 to 9 that may be placed there, in ascending order.
pub open spec fn lists_valid_digits(g: Seq<Seq<u8>>, r: int, c: int, list: Seq<u8>) -> bool {
    &&& ascending_digits(list)
    &&& forall|d: u8| 1 <= d <= 9 ==> (list.contains(d) <==> #[trigger] placement_valid(g, r, c, d))
}

/// `numbers` is the candidate map of `g` for the cells in `list`: it has an
/// entry for each listed cell and for no other, and each entry is the
/// candidate set of its cell.
pub open spec fn maps_candidates(
    g: Seq<Seq<u8>>,
    list: Seq<(usize, usize)>,
    numbers: Map<usize, Vec<u8>>,
) -> bool {
    &&& forall|i: int|
        0 <= i < list.len() ==> {
            &&& numbers.contains_key(cell_key(#[trigger] list[i]))
            &&& lists_valid_digits(
                g,
                list[i].0 as int,
                list[i].1 as int,
                numbers[cell_key(list[i])]@,
            )
        }
    &&& forall|k: usize| #[trigger]
        numbers.contains_key(k) ==> exists|i: int|
            0 <= i < list.len() && cell_key(#[trigger] list[i]) == k
}

impl Sudoku {
    /// The candidate set of the cell `(x, y)`: the digits from 1 to 9 that no
    /// cell in its row, column or box holds, in ascending order.
    pub fn find_valid_numbers_at(&self, x: usize, y: usize) -> (digits: Vec<u8>)
        requires
            x < 9,
            y < 9,
        ensures
            lists_valid_digits(self@, x as int, y as int, digits@),
    {
        let mut digits: Vec<u8> = Vec::new();
        let mut number: u8 = 1;
        while number <= 9
            invariant
                1 <= number <= 10,
                x < 9,
                y < 9,
                ascending_digits(digits@),
                forall|i: int| 0 <= i < digits@.len() ==> #[trigger] digits@[i] < number,
                forall|d: u8|
                    1 <= d < number ==> (digits@.contains(d) <==> #[trigger] placement_valid(
                        self@,
                        x as int,
                        y as int,
                        d,
                    )),
            decreases 10 - number,
        {
            if self.check_if_n_valid(x, y, number) {
                let ghost before = digits@;
                digits.push(number);
                proof {
                    assert(digits@[before.len() as int] == number);
                    assert forall|d: u8| 1 <= d < number + 1 implies (digits@.contains(d)
                        <==> #[trigger] placement_valid(self@, x as int, y as int, d)) by {
                        if d < number && before.contains(d) {
                            let i = choose|i: int| 0 <= i < before.len() && before[i] == d;
                            assert(digits@[i] == d);
                        }
                    }
                }
            }
            number += 1;
        }
        digits
    }

    /// The candidate map of the board for the cells in `list`, keyed by
    /// `9 * row + column`.
    pub fn find_valid_numbers_for(&self, list: &Vec<(usize, usize)>) -> (numbers: HashMap<
        usize,
        Vec<u8>,
    >)
        requires
            forall|i: int|
                0 <= i < list@.len() ==> in_range((#[trigger] list@[i]).0 as int, list@[i].1 as int),
        ensures
            maps_candidates(self@, list@, numbers@),
    {
        let mut hashmap: HashMap<usize, Vec<u8>> = HashMap::new();
        let mut i: usize = 0;
        while i < list.len()
            invariant
                i <= list@.len(),
                forall|i: int|
                    0 <= i < list@.len() ==> in_range(
                        (#[trigger] list@[i]).0 as int,
                        list@[i].1 as int,
                    ),
                maps_candidates(self@, list@.take(i as int), hashmap@),
            decreases list@.len() - i,
        {
            let (x, y) = list[i];
            let digits = self.find_valid_numbers_at(x, y);
            let ghost before = hashmap@;
            hashmap.insert(x * 9 + y, digits);
            proof {
                let done = list@.take(i as int);
                let now = list@.take(i as int + 1);
                assert(now[i as int] == list@[i as int]);
                assert forall|j: int| 0 <= j < now.len() implies {
                    &&& hashmap@.contains_key(cell_key(#[trigger] now[j]))
                    &&& lists_valid_digits(
                        self@,
                        now[j].0 as int,
                        now[j].1 as int,
                        hashmap@[cell_key(now[j])]@,
                    )
                } by {
                    if j < i {
                        assert(now[j] == done[j]);
                        assert(in_range(list@[j].0 as int, list@[j].1 as int));
                        if cell_key(now[j]) == cell_key((x, y)) {
                            assert(now[j] == (x, y));
                        }
                    }
                }
                assert forall|k: usize| #[trigger] hashmap@.contains_key(k) implies exists|j: int|
                    0 <= j < now.len() && cell_key(#[trigger] now[j]) == k by {
                    if k == cell_key((x, y)) {
                        assert(cell_key(now[i as int]) == k);
                    } else {
                        assert(before.contains_key(k));
                        let j = choose|j: int| 0 <= j < done.len() && cell_key(#[trigger] done[j]) == k;
                        assert(now[j] == done[j]);
                    }
                }
            }
            i += 1;
        }
        assert(list@.take(i as int) =~= list@);
        hashmap
    }
}

} // verus!
