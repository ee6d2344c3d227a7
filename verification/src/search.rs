//! The search: fix the most constrained blank cell to each of its candidates
//! in ascending order, go on from there, and undo the choice where that fails.

use vstd::prelude::*;
use crate::board::Sudoku;
use crate::grid::is_peer;
use crate::rules::{
    blanks, complete, entropy, extends, free, is_lowest, is_lowest_before, is_solution, legal,
    lemma_blanks_fill, lemma_complete_legal_is_solved, solved,
};

verus! {

/// The cell that the search fixes next: the blank cell with the fewest
/// candidates, the first of them where several have as few. `None` when no
/// cell is blank.
pub open spec fn select(values: Seq<u8>) -> Option<int> {
    if complete(values) {
        None
    } else {
        Some(choose|i: int| is_lowest(values, i))
    }
}

/// The outcome of the search on `values`: whether a completion was found,
/// and the grid the search ends with.
pub open spec fn search(values: Seq<u8>) -> (bool, Seq<u8>)
    decreases blanks(values), 10int,
{
    match select(values) {
        Some(i) => search_from(values, i, 1),
        None => (true, values),
    }
}

/// The outcome of trying, at the blank cell `i`, the values from `v` to 9 in
/// ascending order: the first candidate from which the search succeeds
/// decides, and without one the grid stays as it is.
pub open spec fn search_from(values: Seq<u8>, i: int, v: int) -> (bool, Seq<u8>)
    decreases blanks(values), 10 - v,
{
    if 1 <= v <= 9 && 0 <= i < values.len() && values[i] == 0 {
        if free(values, i, v as u8) {
            proof {
                lemma_blanks_fill(values, i, v as u8);
            }
            let deeper = search(values.update(i, v as u8));
            if deeper.0 {
                deeper
            } else {
                search_from(values, i, v + 1)
            }
        } else {
            search_from(values, i, v + 1)
        }
    } else {
        (false, values)
    }
}

/// At most one cell is the lowest.
pub proof fn lemma_lowest_unique(values: Seq<u8>, i: int, j: int)
    requires
        is_lowest(values, i),
        is_lowest(values, j),
    ensures
        i == j,
{
}

/// The lowest cell is the one that `select` picks.
pub proof fn lemma_select_lowest(values: Seq<u8>, i: int)
    requires
        is_lowest(values, i),
    ensures
        select(values) == Some(i),
{
    let c = choose|c: int| is_lowest(values, c);
    lemma_lowest_unique(values, i, c);
}

/// Among the first `n` cells, if one of them is blank, one is the lowest.
pub proof fn lemma_lowest_exists(values: Seq<u8>, n: int)
    requires
        0 <= n <= 81,
        exists|j: int| 0 <= j < n && #[trigger] values[j] == 0,
    ensures
        exists|i: int| is_lowest_before(values, i, n),
    decreases n,
{
    let last = n - 1;
    if exists|j: int| 0 <= j < last && #[trigger] values[j] == 0 {
        lemma_lowest_exists(values, last);
        let b = choose|b: int| is_lowest_before(values, b, last);
        if values[last] == 0 && entropy(values, last) < entropy(values, b) {
            assert(is_lowest_before(values, last, n));
        } else {
            assert(is_lowest_before(values, b, n));
        }
    } else {
        assert(is_lowest_before(values, last, n));
    }
}

/// On a grid with a blank cell `select` picks the lowest cell.
pub proof fn lemma_select_is_lowest(values: Seq<u8>)
    requires
        !complete(values),
    ensures
        select(values).is_some(),
        is_lowest(values, select(values).unwrap()),
{
    lemma_lowest_exists(values, 81);
    let i = choose|i: int| is_lowest_before(values, i, 81);
    assert(is_lowest(values, i));
}

/// What the search ends with: a complete grid where it succeeds, and the
/// grid it started from where it fails.
pub proof fn lemma_search_outcome(values: Seq<u8>)
    ensures
        search(values).0 ==> complete(search(values).1),
        !search(values).0 ==> search(values).1 == values,
    decreases blanks(values), 10int,
{
    match select(values) {
        Some(i) => lemma_search_from_outcome(values, i, 1),
        None => {},
    }
}

/// What trying the values from `v` on ends with: a complete grid where a
/// value leads to success, and the grid it started from where none does.
pub proof fn lemma_search_from_outcome(values: Seq<u8>, i: int, v: int)
    ensures
        search_from(values, i, v).0 ==> complete(search_from(values, i, v).1),
        !search_from(values, i, v).0 ==> search_from(values, i, v).1 == values,
    decreases blanks(values), 10 - v,
{
    if 1 <= v <= 9 && 0 <= i < values.len() && values[i] == 0 {
        if free(values, i, v as u8) {
            lemma_blanks_fill(values, i, v as u8);
            lemma_search_outcome(values.update(i, v as u8));
        }
        lemma_search_from_outcome(values, i, v + 1);
    }
}

/// Searching again from where a search ended changes nothing: the answer
/// is the same and the grid stays as the first search left it.
pub proof fn lemma_search_settles(values: Seq<u8>)
    ensures
        search(search(values).1) == search(values),
{
    lemma_search_outcome(values);
}

/// Two boards that hold the same values have the same candidates in every
/// cell and end the search with the same answer and the same grid, whatever
/// the order of their candidate lists.
pub proof fn lemma_same_values_same_outcome(first: Sudoku, second: Sudoku)
    requires
        first.wf(),
        second.wf(),
        first@ == second@,
    ensures
        forall|i: int|
            0 <= i < 81 ==> (#[trigger] first.possible()[i]).to_set()
                == second.possible()[i].to_set(),
        search(first@) == search(second@),
{
    assert forall|i: int| 0 <= i < 81 implies (#[trigger] first.possible()[i]).to_set()
        == second.possible()[i].to_set() by {
        first.lemma_candidates_consistent(i);
        second.lemma_candidates_consistent(i);
    }
}

/// The puzzle has no completion.
pub open spec fn unsolvable(puzzle: Seq<u8>) -> bool {
    forall|grid: Seq<u8>| !#[trigger] is_solution(puzzle, grid)
}

/// Every completion of the puzzle has at least `value` in cell `index`.
pub open spec fn none_below(puzzle: Seq<u8>, index: int, value: int) -> bool {
    forall|grid: Seq<u8>| #[trigger] is_solution(puzzle, grid) ==> grid[index] >= value
}

/// A grid that extends a puzzle with one more cell filled in extends the
/// puzzle.
pub proof fn lemma_extends_filled(puzzle: Seq<u8>, index: int, value: u8, grid: Seq<u8>)
    requires
        puzzle.len() == 81,
        0 <= index < 81,
        puzzle[index] == 0,
        extends(puzzle.update(index, value), grid),
    ensures
        extends(puzzle, grid),
{
    let filled = puzzle.update(index, value);
    assert forall|i: int| 0 <= i < 81 && #[trigger] puzzle[i] != 0 implies grid[i]
        == puzzle[i] by {
        assert(filled[i] != 0);
    }
}

/// Where no completion has less than `value` in a blank cell, and the
/// puzzle with `value` filled in there has none at all, no completion has
/// less than `value + 1` in the cell.
pub proof fn lemma_none_below_after_failure(puzzle: Seq<u8>, index: int, value: u8)
    requires
        puzzle.len() == 81,
        0 <= index < 81,
        none_below(puzzle, index, value as int),
        unsolvable(puzzle.update(index, value)),
    ensures
        none_below(puzzle, index, value + 1),
{
    let filled = puzzle.update(index, value);
    assert forall|grid: Seq<u8>| #[trigger] is_solution(puzzle, grid) implies grid[index] >= value
        + 1 by {
        if grid[index] == value {
            assert forall|i: int| 0 <= i < 81 && #[trigger] filled[i] != 0 implies grid[i]
                == filled[i] by {
                if i != index {
                    assert(puzzle[i] != 0);
                }
            }
            assert(is_solution(filled, grid));
        }
    }
}

/// Where no completion has less than `value` in a cell, and a peer of the
/// cell holds `value`, no completion has less than `value + 1` in the cell.
pub proof fn lemma_none_below_after_clash(puzzle: Seq<u8>, index: int, value: u8)
    requires
        puzzle.len() == 81,
        0 <= index < 81,
        value != 0,
        none_below(puzzle, index, value as int),
        !free(puzzle, index, value),
    ensures
        none_below(puzzle, index, value + 1),
{
    let j = choose|j: int| #[trigger] is_peer(index, j) && puzzle[j] == value;
    assert forall|grid: Seq<u8>| #[trigger] is_solution(puzzle, grid) implies grid[index] >= value
        + 1 by {
        assert(puzzle[j] != 0);
        assert(grid[j] == puzzle[j]);
    }
}

impl Sudoku {
    /// Solves the board in place: fixes the blank cell with the fewest
    /// candidates to each of them in ascending order, goes on from there,
    /// and undoes the choice where that fails.
    ///
    /// On success the board is complete and keeps every value it had; if it
    /// was legal, it is a completion of the puzzle, with the digits from 1
    /// to 9 in every row, column and box. On failure the board is as it was,
    /// and the puzzle has no completion. The answer and the grid are those
    /// of `search`, a function of the values alone.
    pub fn solve(&mut self) -> (found: bool)
        requires
            old(self).wf(),
        ensures
            final(self).wf(),
            (found, final(self)@) == search(old(self)@),
            found ==> complete(final(self)@) && extends(old(self)@, final(self)@),
            found && legal(old(self)@) ==> is_solution(old(self)@, final(self)@) && solved(
                final(self)@,
            ),
            !found ==> final(self)@ == old(self)@ && unsolvable(old(self)@),
        decreases blanks(old(self)@),
    {
        match self.lowest_entropy() {
            Some(index) => {
                proof {
                    lemma_select_lowest(self@, index as int);
                }
                let mut value: u8 = 1;
                while value <= 9
                    invariant
                        1 <= value <= 10,
                        index < 81,
                        self.wf(),
                        self@ == old(self)@,
                        self@[index as int] == 0,
                        search_from(self@, index as int, value as int) == search(self@),
                        none_below(self@, index as int, value as int),
                    decreases 10 - value,
                {
                    if self.is_candidate(index, value) {
                        proof {
                            lemma_blanks_fill(self@, index as int, value);
                        }
                        self.commit(index, value);
                        if self.solve() {
                            proof {
                                lemma_extends_filled(old(self)@, index as int, value, self@);
                            }
                            return true;
                        }
                        self.retract(index);
                        proof {
                            assert(self@ =~= old(self)@);
                            lemma_none_below_after_failure(self@, index as int, value);
                        }
                    } else {
                        proof {
                            lemma_none_below_after_clash(self@, index as int, value);
                        }
                    }
                    value += 1;
                }
                proof {
                    assert forall|grid: Seq<u8>| !#[trigger] is_solution(self@, grid) by {
                        if is_solution(self@, grid) {
                            assert(grid[index as int] <= 9);
                        }
                    }
                }
                false
            },
            None => {
                proof {
                    if legal(self@) {
                        lemma_complete_legal_is_solved(self@);
                    }
                }
                true
            },
        }
    }
}

} // verus!
