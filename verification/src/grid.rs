//! Geometry of the 9×9 grid: rows, columns, boxes and the peers of a cell.

use vstd::prelude::*;

verus! {

/// Row of cell `i`.
pub open spec fn row_of(i: int) -> int {
    i / 9
}

/// Column of cell `i`.
pub open spec fn col_of(i: int) -> int {
    i % 9
}

/// Two cells lie in the same 3×3 box.
pub open spec fn same_box(i: int, j: int) -> bool {
    row_of(i) / 3 == row_of(j) / 3 && col_of(i) / 3 == col_of(j) / 3
}

/// Two cells share a row, a column or a box.
#[verifier::opaque]
pub open spec fn same_unit(i: int, j: int) -> bool {
    row_of(i) == row_of(j) || col_of(i) == col_of(j) || same_box(i, j)
}

/// `j` is a peer of `i`: another cell of the board that shares the row, the
/// column or the box of `i`.
pub open spec fn is_peer(i: int, j: int) -> bool {
    &&& 0 <= i < 81
    &&& 0 <= j < 81
    &&& i != j
    &&& same_unit(i, j)
}

/// The `n`-th peer of cell `i`, for `n` in `0..20`: first the eight other
/// cells of the box in row-major order, then the six cells of the row that
/// lie outside the box, then the six cells of the column outside the box.
pub open spec fn peer_at(i: int, n: int) -> int {
    let row = i / 9;
    let col = i % 9;
    let r0 = (row / 3) * 3;
    let c0 = (col / 3) * 3;
    let own = (row - r0) * 3 + (col - c0);
    if n < 8 {
        let m = if n < own { n } else { n + 1 };
        (r0 + m / 3) * 9 + c0 + m % 3
    } else if n < 14 {
        let m = n - 8;
        row * 9 + (if m < c0 { m } else { m + 3 })
    } else {
        let m = n - 14;
        (if m < r0 { m } else { m + 3 }) * 9 + col
    }
}

/// The position that peer `j` of cell `i` has in the enumeration `peer_at`.
pub open spec fn peer_rank(i: int, j: int) -> int {
    let row = i / 9;
    let col = i % 9;
    let r0 = (row / 3) * 3;
    let c0 = (col / 3) * 3;
    let own = (row - r0) * 3 + (col - c0);
    let rj = j / 9;
    let cj = j % 9;
    if same_box(i, j) {
        let m = (rj - r0) * 3 + (cj - c0);
        if m < own { m } else { m - 1 }
    } else if rj == row {
        if cj < c0 { 8 + cj } else { 5 + cj }
    } else {
        if rj < r0 { 14 + rj } else { 11 + rj }
    }
}

/// Being a peer is symmetric.
pub proof fn lemma_peer_symmetric(i: int, j: int)
    ensures
        is_peer(i, j) == is_peer(j, i),
{
    reveal(same_unit);
}

/// A cell index splits into its row and column, and is put together again.
pub proof fn lemma_cell(r: int, c: int)
    requires
        0 <= r < 9,
        0 <= c < 9,
    ensures
        0 <= r * 9 + c < 81,
        (r * 9 + c) / 9 == r,
        (r * 9 + c) % 9 == c,
{
}

/// Every cell that `peer_at` enumerates is a peer.
pub proof fn lemma_peer_at_is_peer(i: int, n: int)
    requires
        0 <= i < 81,
        0 <= n < 20,
    ensures
        is_peer(i, peer_at(i, n)),
        peer_rank(i, peer_at(i, n)) == n,
{
    reveal(same_unit);
    let row = i / 9;
    let col = i % 9;
    let r0 = (row / 3) * 3;
    let c0 = (col / 3) * 3;
    let own = (row - r0) * 3 + (col - c0);
    assert(0 <= row - r0 < 3 && 0 <= col - c0 < 3);
    if n < 8 {
        let m = if n < own { n } else { n + 1 };
        let r = r0 + m / 3;
        let c = c0 + m % 3;
        lemma_cell(r, c);
        assert(r / 3 == row / 3 && c / 3 == col / 3);
        assert((r - r0) * 3 + (c - c0) == m);
        assert(peer_at(i, n) == r * 9 + c);
    } else if n < 14 {
        let m = n - 8;
        let c = if m < c0 { m } else { m + 3 };
        lemma_cell(row, c);
        assert(c / 3 != col / 3);
        assert(peer_at(i, n) == row * 9 + c);
    } else {
        let m = n - 14;
        let r = if m < r0 { m } else { m + 3 };
        lemma_cell(r, col);
        assert(r / 3 != row / 3);
        assert(peer_at(i, n) == r * 9 + col);
    }
}

/// Every peer is enumerated by `peer_at`, at the position `peer_rank` gives.
pub proof fn lemma_peer_rank(i: int, j: int)
    requires
        is_peer(i, j),
    ensures
        0 <= peer_rank(i, j) < 20,
        peer_at(i, peer_rank(i, j)) == j,
{
    reveal(same_unit);
    let row = i / 9;
    let col = i % 9;
    let r0 = (row / 3) * 3;
    let c0 = (col / 3) * 3;
    let own = (row - r0) * 3 + (col - c0);
    let rj = j / 9;
    let cj = j % 9;
    assert(0 <= row - r0 < 3 && 0 <= col - c0 < 3);
    assert(j == rj * 9 + cj);
    assert(i == row * 9 + col);
    if same_box(i, j) {
        assert(0 <= rj - r0 < 3 && 0 <= cj - c0 < 3);
        let m = (rj - r0) * 3 + (cj - c0);
        assert(m / 3 == rj - r0 && m % 3 == cj - c0);
        assert(m != own);
    } else if rj == row {
        assert(cj / 3 != col / 3);
    } else {
        assert(cj == col);
        assert(rj / 3 != row / 3);
    }
}

/// `peer_at` enumerates no peer twice, so a cell has exactly twenty peers.
pub proof fn lemma_peer_at_distinct(i: int, m: int, n: int)
    requires
        0 <= i < 81,
        0 <= m < 20,
        0 <= n < 20,
        m != n,
    ensures
        peer_at(i, m) != peer_at(i, n),
{
    lemma_peer_at_is_peer(i, m);
    lemma_peer_at_is_peer(i, n);
}

/// Computes the `n`-th peer of cell `index`.
pub fn peer(index: usize, n: usize) -> (cell: usize)
    requires
        index < 81,
        n < 20,
    ensures
        cell == peer_at(index as int, n as int),
        cell < 81,
        is_peer(index as int, cell as int),
{
    proof {
        lemma_peer_at_is_peer(index as int, n as int);
    }
    let row: usize = index / 9;
    let col: usize = index % 9;
    let r0: usize = (row / 3) * 3;
    let c0: usize = (col / 3) * 3;
    if n < 8 {
        let own: usize = (row - r0) * 3 + (col - c0);
        let m: usize = if n < own { n } else { n + 1 };
        (r0 + m / 3) * 9 + c0 + m % 3
    } else if n < 14 {
        let m: usize = n - 8;
        if m < c0 { row * 9 + m } else { row * 9 + m + 3 }
    } else {
        let m: usize = n - 14;
        if m < r0 { m * 9 + col } else { (m + 3) * 9 + col }
    }
}

/// Cell `k` of row `r`.
pub open spec fn row_cell(r: int, k: int) -> int {
    r * 9 + k
}

/// Cell `k` of column `c`.
pub open spec fn column_cell(c: int, k: int) -> int {
    k * 9 + c
}

/// Cell `k` of box `b`, boxes and their cells counted in row-major order.
pub open spec fn box_cell(b: int, k: int) -> int {
    ((b / 3) * 3 + k / 3) * 9 + (b % 3) * 3 + k % 3
}

/// Two different cells of one row, of one column or of one box are peers.
pub proof fn lemma_unit_cells_are_peers(u: int, k: int, l: int)
    requires
        0 <= u < 9,
        0 <= k < 9,
        0 <= l < 9,
        k != l,
    ensures
        is_peer(row_cell(u, k), row_cell(u, l)),
        is_peer(column_cell(u, k), column_cell(u, l)),
        is_peer(box_cell(u, k), box_cell(u, l)),
{
    reveal(same_unit);
    lemma_cell(u, k);
    lemma_cell(u, l);
    lemma_cell(k, u);
    lemma_cell(l, u);
    let r0 = (u / 3) * 3;
    let c0 = (u % 3) * 3;
    lemma_cell(r0 + k / 3, c0 + k % 3);
    lemma_cell(r0 + l / 3, c0 + l % 3);
    assert((r0 + k / 3) / 3 == u / 3 && (r0 + l / 3) / 3 == u / 3);
    assert((c0 + k % 3) / 3 == u % 3 && (c0 + l % 3) / 3 == u % 3);
}

} // verus!
