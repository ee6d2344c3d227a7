//! The rules of the puzzle, stated over a plain sequence of 81 cell values
//! in which 0 stands for a blank cell.

use vstd::prelude::*;
use crate::grid::{
    box_cell, column_cell, is_peer, lemma_peer_symmetric, lemma_unit_cells_are_peers, row_cell,
};

verus! {

/// The sequence has 81 entries, each a digit from 0 to 9.
pub open spec fn well_formed(values: Seq<u8>) -> bool {
    &&& values.len() == 81
    &&& forall|i: int| 0 <= i < 81 ==> #[trigger] values[i] <= 9
}

/// No peer of cell `i` holds the value `v`.
pub open spec fn free(values: Seq<u8>, i: int, v: u8) -> bool {
    forall|j: int| #[trigger] is_peer(i, j) ==> values[j] != v
}

/// The values from 1 to 9 that no peer of cell `i` holds.
pub open spec fn candidates(values: Seq<u8>, i: int) -> Set<u8> {
    Set::new(|v: u8| 1 <= v <= 9 && free(values, i, v))
}

/// No two peers hold the same nonzero value.
pub open spec fn legal(values: Seq<u8>) -> bool {
    forall|i: int, j: int| #[trigger] is_peer(i, j) && values[i] != 0 ==> values[i] != values[j]
}

/// No cell is blank.
pub open spec fn complete(values: Seq<u8>) -> bool {
    forall|i: int| 0 <= i < 81 ==> #[trigger] values[i] != 0
}

/// `grid` keeps every value that `puzzle` has fixed.
pub open spec fn extends(puzzle: Seq<u8>, grid: Seq<u8>) -> bool {
    forall|i: int| 0 <= i < 81 && #[trigger] puzzle[i] != 0 ==> grid[i] == puzzle[i]
}

/// `grid` is a completion of `puzzle`: fully filled, legal, and in agreement
/// with every fixed cell of the puzzle.
pub open spec fn is_solution(puzzle: Seq<u8>, grid: Seq<u8>) -> bool {
    &&& well_formed(grid)
    &&& complete(grid)
    &&& legal(grid)
    &&& extends(puzzle, grid)
}

/// Number of candidates of cell `i`.
pub open spec fn entropy(values: Seq<u8>, i: int) -> nat {
    candidates(values, i).len()
}

/// Among the first `n` cells, cell `i` is the blank cell with the fewest
/// candidates, and the first of them in cell order where several have as
/// few.
pub open spec fn is_lowest_before(values: Seq<u8>, i: int, n: int) -> bool {
    &&& 0 <= i < n
    &&& values[i] == 0
    &&& forall|j: int|
        0 <= j < n && #[trigger] values[j] == 0 ==> entropy(values, i) <= entropy(values, j) && (j
            < i ==> entropy(values, i) < entropy(values, j))
}

/// Cell `i` is the blank cell with the fewest candidates, and the first of
/// them in cell order where several have as few.
pub open spec fn is_lowest(values: Seq<u8>, i: int) -> bool {
    is_lowest_before(values, i, 81)
}

/// Number of blank cells.
pub open spec fn blanks(values: Seq<u8>) -> nat
    decreases values.len(),
{
    if values.len() == 0 {
        0
    } else {
        blanks(values.drop_last()) + if values.last() == 0 { 1nat } else { 0nat }
    }
}

/// Filling a blank cell leaves one blank fewer.
pub proof fn lemma_blanks_fill(values: Seq<u8>, i: int, v: u8)
    requires
        0 <= i < values.len(),
        values[i] == 0,
        v != 0,
    ensures
        blanks(values.update(i, v)) + 1 == blanks(values),
    decreases values.len(),
{
    let filled = values.update(i, v);
    if i == values.len() - 1 {
        assert(filled.drop_last() =~= values.drop_last());
    } else {
        lemma_blanks_fill(values.drop_last(), i, v);
        assert(filled.drop_last() =~= values.drop_last().update(i, v));
    }
}

/// What a change of one cell from blank to `value` does to the freedom of a
/// nonzero value `v` at cell `j`: it stays free unless the changed cell is a
/// peer of `j` and now holds `v`.
pub proof fn lemma_free_after_fill(values: Seq<u8>, index: int, value: u8, j: int, v: u8)
    requires
        values.len() == 81,
        0 <= index < 81,
        values[index] == 0,
        v != 0,
    ensures
        free(values.update(index, value), j, v) == (free(values, j, v) && !(is_peer(j, index)
            && value == v)),
{
    let filled = values.update(index, value);
    if free(values, j, v) && !(is_peer(j, index) && value == v) {
        assert forall|k: int| #[trigger] is_peer(j, k) implies filled[k] != v by {}
    }
    if free(filled, j, v) {
        assert forall|k: int| #[trigger] is_peer(j, k) implies values[k] != v by {
            assert(filled[k] != v);
        }
        if is_peer(j, index) {
            assert(filled[index] != v);
        }
    }
}

/// Filling a blank cell of a legal grid with a value that is free there keeps
/// the grid legal.
pub proof fn lemma_fill_keeps_legal(values: Seq<u8>, index: int, value: u8)
    requires
        values.len() == 81,
        0 <= index < 81,
        values[index] == 0,
        legal(values),
        free(values, index, value),
    ensures
        legal(values.update(index, value)),
{
    let filled = values.update(index, value);
    assert forall|i: int, j: int| #[trigger] is_peer(i, j) && filled[i] != 0 implies filled[i]
        != filled[j] by {
        if i == index {
            assert(values[j] != value);
        } else if j == index {
            lemma_peer_symmetric(i, j);
            assert(values[i] != value);
        } else {
            assert(values[i] != values[j]);
        }
    }
}

/// Blanking a cell of a legal grid keeps the grid legal.
pub proof fn lemma_blank_keeps_legal(values: Seq<u8>, index: int)
    requires
        values.len() == 81,
        0 <= index < 81,
        legal(values),
    ensures
        legal(values.update(index, 0)),
{
    let blanked = values.update(index, 0);
    assert forall|i: int, j: int| #[trigger] is_peer(i, j) && blanked[i] != 0 implies blanked[i]
        != blanked[j] by {
        assert(values[i] != values[j]);
    }
}

/// The nine values of row `r`.
pub open spec fn row(values: Seq<u8>, r: int) -> Seq<u8> {
    Seq::new(9, |k: int| values[row_cell(r, k)])
}

/// The nine values of column `c`.
pub open spec fn column(values: Seq<u8>, c: int) -> Seq<u8> {
    Seq::new(9, |k: int| values[column_cell(c, k)])
}

/// The nine values of box `b`.
pub open spec fn square(values: Seq<u8>, b: int) -> Seq<u8> {
    Seq::new(9, |k: int| values[box_cell(b, k)])
}

/// The nine values are the digits from 1 to 9, each once.
pub open spec fn is_permutation(nine: Seq<u8>) -> bool {
    &&& nine.len() == 9
    &&& nine.no_duplicates()
    &&& forall|v: u8| #[trigger] nine.contains(v) <==> 1 <= v <= 9
}

/// Every row, every column and every box holds the digits from 1 to 9,
/// each once.
pub open spec fn solved(values: Seq<u8>) -> bool {
    &&& forall|r: int| 0 <= r < 9 ==> is_permutation(#[trigger] row(values, r))
    &&& forall|c: int| 0 <= c < 9 ==> is_permutation(#[trigger] column(values, c))
    &&& forall|b: int| 0 <= b < 9 ==> is_permutation(#[trigger] square(values, b))
}

/// Nine different digits from 1 to 9 are all of them.
pub proof fn lemma_nine_digits(nine: Seq<u8>)
    requires
        nine.len() == 9,
        nine.no_duplicates(),
        forall|k: int| 0 <= k < 9 ==> 1 <= #[trigger] nine[k] <= 9,
    ensures
        is_permutation(nine),
{
    broadcast use vstd::set::group_set_axioms;

    let held = nine.to_set();
    let digits = set![1u8, 2u8, 3u8, 4u8, 5u8, 6u8, 7u8, 8u8, 9u8];
    nine.unique_seq_to_set();
    assert(digits.finite() && digits.len() == 9);
    assert(held.subset_of(digits));
    vstd::set_lib::lemma_subset_equality(held, digits);
    assert forall|v: u8| #[trigger] nine.contains(v) <==> 1 <= v <= 9 by {
        assert(held.contains(v) == digits.contains(v));
    }
}

/// In a complete legal grid the row, the column and the box with number
/// `u` are permutations of the digits from 1 to 9.
pub proof fn lemma_complete_legal_units(values: Seq<u8>, u: int)
    requires
        well_formed(values),
        complete(values),
        legal(values),
        0 <= u < 9,
    ensures
        is_permutation(row(values, u)),
        is_permutation(column(values, u)),
        is_permutation(square(values, u)),
{
    let in_row = row(values, u);
    let in_column = column(values, u);
    let in_square = square(values, u);
    assert forall|k: int, l: int| 0 <= k < 9 && 0 <= l < 9 && k != l implies in_row[k] != in_row[l]
        && in_column[k] != in_column[l] && in_square[k] != in_square[l] by {
        lemma_unit_cells_are_peers(u, k, l);
    }
    assert forall|k: int| 0 <= k < 9 implies 1 <= #[trigger] in_row[k] <= 9 && 1
        <= #[trigger] in_column[k] <= 9 && 1 <= #[trigger] in_square[k] <= 9 by {
        lemma_unit_cells_are_peers(u, k, if k == 0 { 1 } else { 0 });
    }
    lemma_nine_digits(in_row);
    lemma_nine_digits(in_column);
    lemma_nine_digits(in_square);
}

/// A complete legal grid is solved: every row, column and box is a
/// permutation of the digits from 1 to 9.
pub proof fn lemma_complete_legal_is_solved(values: Seq<u8>)
    requires
        well_formed(values),
        complete(values),
        legal(values),
    ensures
        solved(values),
{
    assert forall|r: int| 0 <= r < 9 implies is_permutation(#[trigger] row(values, r)) by {
        lemma_complete_legal_units(values, r);
    }
    assert forall|c: int| 0 <= c < 9 implies is_permutation(#[trigger] column(values, c)) by {
        lemma_complete_legal_units(values, c);
    }
    assert forall|b: int| 0 <= b < 9 implies is_permutation(#[trigger] square(values, b)) by {
        lemma_complete_legal_units(values, b);
    }
}

} // verus!
