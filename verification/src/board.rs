//! The board: 81 cell values and, for every cell, the list of values that
//! none of its peers holds.

use vstd::prelude::*;
use crate::grid::{
    is_peer, lemma_peer_at_is_peer, lemma_peer_rank, lemma_peer_symmetric, peer, peer_at,
    peer_rank,
};
use crate::rules::{
    candidates, complete, free, is_lowest, is_lowest_before, legal, lemma_blank_keeps_legal,
    lemma_fill_keeps_legal, lemma_free_after_fill, well_formed,
};

verus! {

/// Why a board could not be built from a sequence of values.
#[derive(Clone, Copy, Debug, PartialEq, Eq)]
pub enum SudokuError {
    /// The sequence does not have 81 entries, or an entry is larger than 9.
    InvalidInput,
    /// Two peers hold the same nonzero value.
    ContradictoryInput,
}

/// Holds the values of the 81 cells and, for each cell, the values that are
/// still possible for it.
pub struct Sudoku {
    values: Vec<u8>,
    possible_values: Vec<Vec<u8>>,
}

impl View for Sudoku {
    type V = Seq<u8>;

    /// The 81 cell values, 0 for a blank cell.
    closed spec fn view(&self) -> Seq<u8> {
        self.values@
    }
}

/// `list` holds, each once, exactly the values from 1 to 9 that are free at
/// cell `i`.
pub open spec fn lists_candidates(list: Seq<u8>, values: Seq<u8>, i: int) -> bool {
    &&& list.no_duplicates()
    &&& forall|v: u8| #[trigger] list.contains(v) <==> 1 <= v <= 9 && free(values, i, v)
}

/// `after` is `before` without `value`.
pub open spec fn without(before: Seq<u8>, after: Seq<u8>, value: u8) -> bool {
    &&& after.no_duplicates()
    &&& forall|v: u8| #[trigger] after.contains(v) <==> before.contains(v) && v != value
}

/// `after` is `before` together with `value`.
pub open spec fn with(before: Seq<u8>, after: Seq<u8>, value: u8) -> bool {
    &&& after.no_duplicates()
    &&& forall|v: u8| #[trigger] after.contains(v) <==> before.contains(v) || v == value
}

/// `after` is `before` together with `value` where `back` holds, and
/// `before` itself where it does not.
pub open spec fn restored(before: Seq<u8>, after: Seq<u8>, value: u8, back: bool) -> bool {
    if back {
        with(before, after, value)
    } else {
        after == before
    }
}

/// Outside the peers of cell `index` every list is as it was.
pub open spec fn kept_beyond_peers(before: Seq<Seq<u8>>, after: Seq<Seq<u8>>, index: int) -> bool {
    forall|j: int| 0 <= j < 81 && !is_peer(index, j) ==> #[trigger] after[j] == before[j]
}

/// The list of every peer of cell `index` has lost `value`.
pub open spec fn struck_at_peers(
    before: Seq<Seq<u8>>,
    after: Seq<Seq<u8>>,
    index: int,
    value: u8,
) -> bool {
    forall|j: int| #[trigger] is_peer(index, j) ==> without(before[j], after[j], value)
}

/// The list of every peer of cell `index` has `value` back if the value is
/// free at that peer in `values`, and is as it was if not.
pub open spec fn restored_at_peers(
    before: Seq<Seq<u8>>,
    after: Seq<Seq<u8>>,
    values: Seq<u8>,
    index: int,
    value: u8,
) -> bool {
    forall|j: int| #[trigger]
        is_peer(index, j) ==> restored(before[j], after[j], value, free(values, j, value))
}

/// Peer `j` of cell `index` comes before position `n` in the order in which
/// the peers are visited.
spec fn reached(index: int, j: int, n: int) -> bool {
    is_peer(index, j) && peer_rank(index, j) < n
}

/// The peer at position `n` is reached next, and it is the only one.
proof fn lemma_reached_next(index: int, n: int)
    requires
        0 <= index < 81,
        0 <= n < 20,
    ensures
        !reached(index, peer_at(index, n), n),
        forall|j: int| #[trigger]
            reached(index, j, n + 1) <==> reached(index, j, n) || j == peer_at(index, n),
{
    lemma_peer_at_is_peer(index, n);
    assert forall|j: int| #[trigger] reached(index, j, n + 1) implies reached(index, j, n) || j
        == peer_at(index, n) by {
        lemma_peer_rank(index, j);
    }
}

/// After twenty steps every peer has been reached.
proof fn lemma_reached_all(index: int)
    ensures
        forall|j: int| #[trigger] is_peer(index, j) ==> reached(index, j, 20),
{
    assert forall|j: int| #[trigger] is_peer(index, j) implies reached(index, j, 20) by {
        lemma_peer_rank(index, j);
    }
}

/// Removing position `p` by moving the last entry into it removes exactly the
/// value that stood at `p`.
proof fn lemma_swap_remove(list: Seq<u8>, p: int)
    requires
        list.no_duplicates(),
        0 <= p < list.len(),
    ensures
        without(list, list.update(p, list.last()).drop_last(), list[p]),
{
    let after = list.update(p, list.last()).drop_last();
    let last = list.len() - 1;
    assert forall|v: u8| #[trigger] after.contains(v) <==> list.contains(v) && v != list[p] by {
        if after.contains(v) {
            let k = choose|k: int| 0 <= k < after.len() && after[k] == v;
            if k == p {
                assert(list[last] == v);
            } else {
                assert(list[k] == v);
            }
        }
        if list.contains(v) && v != list[p] {
            let k = choose|k: int| 0 <= k < list.len() && list[k] == v;
            if k == last {
                assert(after[p] == v);
            } else {
                assert(after[k] == v);
            }
        }
    }
}

/// Appending a value that the list lacks adds exactly that value.
proof fn lemma_push(list: Seq<u8>, value: u8)
    requires
        list.no_duplicates(),
        !list.contains(value),
    ensures
        with(list, list.push(value), value),
{
    let after = list.push(value);
    assert forall|v: u8| #[trigger] after.contains(v) <==> list.contains(v) || v == value by {
        if after.contains(v) {
            let k = choose|k: int| 0 <= k < after.len() && after[k] == v;
            if k < list.len() {
                assert(list[k] == v);
            }
        }
        if list.contains(v) {
            let k = choose|k: int| 0 <= k < list.len() && list[k] == v;
            assert(after[k] == v);
        }
        if v == value {
            assert(after[list.len() as int] == v);
        }
    }
}

/// Finds the position of `value` in `list`.
fn position(list: &Vec<u8>, value: u8) -> (found: Option<usize>)
    ensures
        match found {
            Some(p) => p < list@.len() && list@[p as int] == value,
            None => !list@.contains(value),
        },
{
    let mut p: usize = 0;
    while p < list.len()
        invariant
            p <= list@.len(),
            forall|k: int| 0 <= k < p ==> list@[k] != value,
        decreases list@.len() - p,
    {
        if list[p] == value {
            return Some(p);
        }
        p += 1;
    }
    None
}

/// Takes `value` out of `list` if it is there.
fn discard(list: &mut Vec<u8>, value: u8)
    requires
        old(list)@.no_duplicates(),
    ensures
        without(old(list)@, final(list)@, value),
{
    match position(list, value) {
        Some(p) => {
            proof {
                lemma_swap_remove(list@, p as int);
            }
            list.swap_remove(p);
        },
        None => {},
    }
}

/// Puts `value`, which `list` lacks, into `list`.
fn reinstate(list: &mut Vec<u8>, value: u8)
    requires
        old(list)@.no_duplicates(),
        !old(list)@.contains(value),
    ensures
        with(old(list)@, final(list)@, value),
{
    proof {
        lemma_push(list@, value);
    }
    list.push(value);
}

impl Sudoku {
    /// The candidate list of every cell, in cell order.
    pub closed spec fn possible(&self) -> Seq<Seq<u8>> {
        Seq::new(self.possible_values@.len(), |i: int| self.possible_values@[i]@)
    }

    /// The board's invariant: 81 digits, and for every cell a duplicate-free
    /// list of exactly the values from 1 to 9 that no peer of the cell holds.
    /// Whether two peers hold the same value is another matter, that of
    /// `legal`: a commit of a value that is not free keeps this invariant and
    /// makes the board illegal.
    pub open spec fn wf(&self) -> bool {
        &&& well_formed(self@)
        &&& self.possible().len() == 81
        &&& forall|i: int|
            0 <= i < 81 ==> lists_candidates(#[trigger] self.possible()[i], self@, i)
    }

    /// On a well-formed board the candidate list of every cell, taken as a
    /// set, is exactly the set of values from 1 to 9 that none of the cell's
    /// twenty peers holds, and the list is as long as that set is large. So
    /// the candidates are a function of the values alone.
    pub proof fn lemma_candidates_consistent(&self, i: int)
        requires
            self.wf(),
            0 <= i < 81,
        ensures
            self.possible()[i].to_set() == candidates(self@, i),
            self.possible()[i].len() == candidates(self@, i).len(),
    {
        let list = self.possible()[i];
        assert(lists_candidates(list, self@, i));
        list.unique_seq_to_set();
        assert(list.to_set() =~= candidates(self@, i));
    }

    /// The current 81 values, 0 for a blank cell.
    pub fn values(&self) -> (values: &Vec<u8>)
        ensures
            values@ == self@,
    {
        &self.values
    }

    /// The values still possible for cell `index`, in no particular order.
    pub fn possible_values(&self, index: usize) -> (list: &Vec<u8>)
        requires
            self.wf(),
            index < 81,
        ensures
            list@ == self.possible()[index as int],
    {
        &self.possible_values[index]
    }

    /// Whether `value` is in the candidate list of cell `index`, that is,
    /// whether it is a digit from 1 to 9 that no peer of the cell holds.
    pub fn is_candidate(&self, index: usize, value: u8) -> (listed: bool)
        requires
            self.wf(),
            index < 81,
        ensures
            listed == self.possible()[index as int].contains(value),
            listed == (1 <= value <= 9 && free(self@, index as int, value)),
    {
        proof {
            assert(lists_candidates(self.possible()[index as int], self@, index as int));
        }
        position(&self.possible_values[index], value).is_some()
    }

    /// Whether no peer of cell `index` holds `value`.
    pub fn is_possible(&self, index: usize, value: u8) -> (possible: bool)
        requires
            self@.len() == 81,
            index < 81,
        ensures
            possible == free(self@, index as int, value),
    {
        let mut n: usize = 0;
        while n < 20
            invariant
                n <= 20,
                index < 81,
                self@.len() == 81,
                forall|m: int| 0 <= m < n ==> self@[#[trigger] peer_at(index as int, m)] != value,
            decreases 20 - n,
        {
            let cell = peer(index, n);
            if self.values[cell] == value {
                return false;
            }
            n += 1;
        }
        proof {
            assert forall|j: int| #[trigger] is_peer(index as int, j) implies self@[j]
                != value by {
                lemma_peer_rank(index as int, j);
            }
        }
        true
    }

    /// Fixes the blank cell `index` to `value` and strikes `value` from the
    /// candidate list of every peer. No other list changes. A legal board
    /// stays legal where the value was free at the cell.
    pub fn commit(&mut self, index: usize, value: u8)
        requires
            old(self).wf(),
            index < 81,
            old(self)@[index as int] == 0,
            1 <= value <= 9,
        ensures
            final(self).wf(),
            final(self)@ == old(self)@.update(index as int, value),
            kept_beyond_peers(old(self).possible(), final(self).possible(), index as int),
            struck_at_peers(old(self).possible(), final(self).possible(), index as int, value),
            legal(old(self)@) && free(old(self)@, index as int, value) ==> legal(final(self)@),
    {
        proof {
            if legal(self@) && free(self@, index as int, value) {
                lemma_fill_keeps_legal(self@, index as int, value);
            }
        }
        self.values[index] = value;
        let mut n: usize = 0;
        while n < 20
            invariant
                n <= 20,
                index < 81,
                old(self).wf(),
                self@ == old(self)@.update(index as int, value),
                self.possible().len() == 81,
                forall|j: int|
                    0 <= j < 81 && !reached(index as int, j, n as int) ==> self.possible()[j]
                        == #[trigger] old(self).possible()[j],
                forall|j: int|
                    reached(index as int, j, n as int) ==> without(
                        #[trigger] old(self).possible()[j],
                        self.possible()[j],
                        value,
                    ),
            decreases 20 - n,
        {
            let cell = peer(index, n);
            proof {
                lemma_reached_next(index as int, n as int);
                let before = old(self).possible()[cell as int];
                assert(lists_candidates(before, old(self)@, cell as int));
                assert(self.possible()[cell as int] == self.possible_values@[cell as int]@);
            }
            discard(&mut self.possible_values[cell], value);
            n += 1;
        }
        proof {
            lemma_reached_all(index as int);
            assert forall|j: int| 0 <= j < 81 implies lists_candidates(
                #[trigger] self.possible()[j],
                self@,
                j,
            ) by {
                assert(lists_candidates(old(self).possible()[j], old(self)@, j));
                lemma_peer_symmetric(index as int, j);
                assert forall|v: u8| v != 0 implies free(self@, j, v) == (free(old(self)@, j, v)
                    && !(is_peer(j, index as int) && value == v)) by {
                    lemma_free_after_fill(old(self)@, index as int, value, j, v);
                }
            }
        }
    }

    /// Blanks the fixed cell `index` and puts the value it held back into the
    /// candidate list of every peer at which it is free again. No other list
    /// changes. A legal board stays legal.
    pub fn retract(&mut self, index: usize)
        requires
            old(self).wf(),
            index < 81,
            old(self)@[index as int] != 0,
        ensures
            final(self).wf(),
            final(self)@ == old(self)@.update(index as int, 0),
            kept_beyond_peers(old(self).possible(), final(self).possible(), index as int),
            restored_at_peers(
                old(self).possible(),
                final(self).possible(),
                final(self)@,
                index as int,
                old(self)@[index as int],
            ),
            legal(old(self)@) ==> legal(final(self)@),
    {
        proof {
            if legal(self@) {
                lemma_blank_keeps_legal(self@, index as int);
            }
        }
        let value = self.values[index];
        self.values[index] = 0;
        let mut n: usize = 0;
        while n < 20
            invariant
                n <= 20,
                index < 81,
                old(self).wf(),
                value == old(self)@[index as int],
                value != 0,
                self@ == old(self)@.update(index as int, 0),
                self.possible().len() == 81,
                forall|j: int|
                    0 <= j < 81 && !reached(index as int, j, n as int) ==> self.possible()[j]
                        == #[trigger] old(self).possible()[j],
                forall|j: int|
                    reached(index as int, j, n as int) ==> restored(
                        #[trigger] old(self).possible()[j],
                        self.possible()[j],
                        value,
                        free(self@, j, value),
                    ),
            decreases 20 - n,
        {
            let cell = peer(index, n);
            proof {
                lemma_reached_next(index as int, n as int);
                lemma_peer_symmetric(cell as int, index as int);
                let before = old(self).possible()[cell as int];
                assert(lists_candidates(before, old(self)@, cell as int));
                assert(!free(old(self)@, cell as int, value));
                assert(!before.contains(value));
                assert(self.possible()[cell as int] == self.possible_values@[cell as int]@);
            }
            if self.is_possible(cell, value) {
                reinstate(&mut self.possible_values[cell], value);
            }
            n += 1;
        }
        proof {
            lemma_reached_all(index as int);
            assert(old(self)@ =~= self@.update(index as int, value));
            assert forall|j: int| 0 <= j < 81 implies lists_candidates(
                #[trigger] self.possible()[j],
                self@,
                j,
            ) by {
                assert(lists_candidates(old(self).possible()[j], old(self)@, j));
                lemma_peer_symmetric(index as int, j);
                assert forall|v: u8| v != 0 implies free(old(self)@, j, v) == (free(self@, j, v)
                    && !(is_peer(j, index as int) && value == v)) by {
                    lemma_free_after_fill(self@, index as int, value, j, v);
                }
            }
        }
    }

    /// Collapses cell `index`: a nonzero `value` is committed to the blank
    /// cell, and the value 0 retracts what the cell holds.
    pub fn collapse(&mut self, index: usize, value: u8)
        requires
            old(self).wf(),
            index < 81,
            value <= 9,
            (value == 0) != (old(self)@[index as int] == 0),
        ensures
            final(self).wf(),
            final(self)@ == old(self)@.update(index as int, value),
            kept_beyond_peers(old(self).possible(), final(self).possible(), index as int),
            value != 0 ==> struck_at_peers(
                old(self).possible(),
                final(self).possible(),
                index as int,
                value,
            ),
            value == 0 ==> restored_at_peers(
                old(self).possible(),
                final(self).possible(),
                final(self)@,
                index as int,
                old(self)@[index as int],
            ),
            legal(old(self)@) && (value == 0 || free(old(self)@, index as int, value)) ==> legal(
                final(self)@,
            ),
    {
        if value == 0 {
            self.retract(index);
        } else {
            self.commit(index, value);
        }
    }

    /// Finds the blank cell with the fewest possible values, the first of
    /// them where several have as few; `None` when no cell is blank.
    pub fn lowest_entropy(&self) -> (found: Option<usize>)
        requires
            self.wf(),
        ensures
            match found {
                Some(i) => is_lowest(self@, i as int),
                None => complete(self@),
            },
    {
        let mut best: Option<usize> = None;
        let mut i: usize = 0;
        while i < 81
            invariant
                i <= 81,
                self.wf(),
                match best {
                    Some(b) => b < i && is_lowest_before(self@, b as int, i as int),
                    None => forall|j: int| 0 <= j < i ==> #[trigger] self@[j] != 0,
                },
            decreases 81 - i,
        {
            if self.values[i] == 0 {
                proof {
                    self.lemma_candidates_consistent(i as int);
                }
                match best {
                    Some(b) => {
                        proof {
                            self.lemma_candidates_consistent(b as int);
                        }
                        if self.possible_values[i].len() < self.possible_values[b].len() {
                            best = Some(i);
                        }
                    },
                    None => {
                        best = Some(i);
                    },
                }
            }
            i += 1;
        }
        best
    }

    /// A board with every cell blank.
    fn blank() -> (board: Sudoku)
        ensures
            board.wf(),
            legal(board@),
            forall|i: int| 0 <= i < 81 ==> #[trigger] board@[i] == 0,
    {
        let mut values: Vec<u8> = Vec::new();
        let mut possible_values: Vec<Vec<u8>> = Vec::new();
        let ghost all = seq![1u8, 2u8, 3u8, 4u8, 5u8, 6u8, 7u8, 8u8, 9u8];
        let mut i: usize = 0;
        while i < 81
            invariant
                i <= 81,
                values@.len() == i,
                possible_values@.len() == i,
                all == seq![1u8, 2u8, 3u8, 4u8, 5u8, 6u8, 7u8, 8u8, 9u8],
                forall|j: int| 0 <= j < i ==> #[trigger] values@[j] == 0,
                forall|j: int| 0 <= j < i ==> (#[trigger] possible_values@[j])@ == all,
            decreases 81 - i,
        {
            values.push(0);
            possible_values.push(vec![1, 2, 3, 4, 5, 6, 7, 8, 9]);
            i += 1;
        }
        let board = Sudoku { values, possible_values };
        proof {
            assert forall|v: u8| #[trigger] all.contains(v) <==> 1 <= v <= 9 by {
                if 1 <= v <= 9 {
                    assert(all[v - 1] == v);
                }
            }
            assert forall|j: int| 0 <= j < 81 implies lists_candidates(
                #[trigger] board.possible()[j],
                board@,
                j,
            ) by {
                assert(board.possible()[j] == all);
            }
        }
        board
    }

    /// Builds a board from 81 values, 0 for a blank cell, committing every
    /// nonzero value in cell order. The values are refused as invalid where
    /// they are not 81 digits from 0 to 9, and as contradictory where they
    /// are, but two peers hold the same nonzero value.
    pub fn from_values(values: Vec<u8>) -> (built: Result<Sudoku, SudokuError>)
        ensures
            match built {
                Ok(board) => board.wf() && board@ == values@ && legal(values@),
                Err(SudokuError::InvalidInput) => !well_formed(values@),
                Err(SudokuError::ContradictoryInput) => well_formed(values@) && !legal(values@),
            },
    {
        if values.len() != 81 {
            return Err(SudokuError::InvalidInput);
        }
        let mut i: usize = 0;
        while i < 81
            invariant
                i <= 81,
                values@.len() == 81,
                forall|j: int| 0 <= j < i ==> #[trigger] values@[j] <= 9,
            decreases 81 - i,
        {
            if values[i] > 9 {
                return Err(SudokuError::InvalidInput);
            }
            i += 1;
        }
        let mut board = Sudoku::blank();
        let mut i: usize = 0;
        while i < 81
            invariant
                i <= 81,
                well_formed(values@),
                board.wf(),
                legal(board@),
                forall|j: int| 0 <= j < i ==> #[trigger] board@[j] == values@[j],
                forall|j: int| i <= j < 81 ==> #[trigger] board@[j] == 0,
            decreases 81 - i,
        {
            let value = values[i];
            if value != 0 {
                if !board.is_possible(i, value) {
                    proof {
                        let k = choose|k: int| #[trigger]
                            is_peer(i as int, k) && board@[k] == value;
                        assert(values@[k] == values@[i as int]);
                    }
                    return Err(SudokuError::ContradictoryInput);
                }
                board.commit(i, value);
            }
            i += 1;
        }
        proof {
            assert(board@ =~= values@);
        }
        Ok(board)
    }
}

} // verus!
