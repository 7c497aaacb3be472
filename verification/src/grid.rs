//! Geometry of a square table stored row by row: cells and their linear
//! indices, the concentric rings, and the walk that goes once round a ring
//! clockwise.
//!
//! Everything here is specification and proof. A table of side `n` has the
//! cells `(row, col)` with `0 <= row < n` and `0 <= col < n`; cell `(row, col)`
//! lives at linear index `row * n + col`.

use vstd::prelude::*;

verus! {

/// `(row, col)` is a cell of the table of side `n`.
pub open spec fn in_table(n: int, row: int, col: int) -> bool {
    0 <= row < n && 0 <= col < n
}

/// Linear index of cell `(row, col)`.
pub open spec fn cell_index(n: int, row: int, col: int) -> int {
    row * n + col
}

/// Row of the cell at linear index `i`.
pub open spec fn row_of(n: int, i: int) -> int {
    i / n
}

/// Column of the cell at linear index `i`.
pub open spec fn col_of(n: int, i: int) -> int {
    i % n
}

/// The smaller of two integers.
pub open spec fn least(a: int, b: int) -> int {
    if a <= b {
        a
    } else {
        b
    }
}

/// The ring a cell lies on, counted from the outside: its distance to the
/// nearest edge of the table.
pub open spec fn layer_of(n: int, row: int, col: int) -> int {
    least(least(row, col), least(n - 1 - row, n - 1 - col))
}

/// Side of ring `layer` minus one: the distance between two of its corners.
/// A ring with span below one has no cell to move; only the centre of a table
/// of odd side lies on such a ring.
pub open spec fn ring_span(n: int, layer: int) -> int {
    n - 1 - 2 * layer
}

/// Number of cells on ring `layer`, for a ring whose span is at least one.
pub open spec fn ring_len(n: int, layer: int) -> int {
    4 * ring_span(n, layer)
}

/// `layer` names a ring of the table of side `n` that has cells to move.
pub open spec fn is_ring(n: int, layer: int) -> bool {
    0 <= layer && ring_span(n, layer) >= 1
}

/// The cell whose value moves into `(row, col)` when the table turns one step
/// clockwise: the neighbour that comes just before it on a clockwise walk of
/// its ring. The centre of a table of odd side is its own source.
pub open spec fn source_cell(n: int, row: int, col: int) -> (int, int) {
    let first = layer_of(n, row, col);
    let last = n - 1 - first;
    if first >= last {
        (row, col)
    } else if row == first && col > first {
        (row, col - 1)
    } else if col == last && row > first {
        (row - 1, col)
    } else if row == last && col < last {
        (row, col + 1)
    } else {
        (row + 1, col)
    }
}

/// Linear index of the source of the cell at linear index `i`.
pub open spec fn source_index(n: int, i: int) -> int {
    let from = source_cell(n, row_of(n, i), col_of(n, i));
    cell_index(n, from.0, from.1)
}

/// The `step`-th cell on the clockwise walk of ring `layer` that starts at the
/// ring's top-left corner: along the top edge to the right, down the right
/// edge, back along the bottom edge, and up the left edge.
pub open spec fn ring_cell(n: int, layer: int, step: int) -> (int, int) {
    let span = ring_span(n, layer);
    let first = layer;
    let last = n - 1 - layer;
    if step < span {
        (first, first + step)
    } else if step < 2 * span {
        (first + (step - span), last)
    } else if step < 3 * span {
        (last, last - (step - 2 * span))
    } else {
        (last - (step - 3 * span), first)
    }
}

/// Linear index of the `step`-th cell on the walk of ring `layer`.
pub open spec fn ring_index(n: int, layer: int, step: int) -> int {
    let cell = ring_cell(n, layer, step);
    cell_index(n, cell.0, cell.1)
}

/// Where on the walk of its ring the cell `(row, col)` comes: the inverse of
/// `ring_cell`.
pub open spec fn ring_step(n: int, row: int, col: int) -> int {
    let first = layer_of(n, row, col);
    let last = n - 1 - first;
    let span = ring_span(n, first);
    if row == first && col < last {
        col - first
    } else if col == last && row < last {
        span + (row - first)
    } else if row == last && col > first {
        2 * span + (last - col)
    } else {
        3 * span + (last - row)
    }
}

/// Ring of the cell at linear index `i`.
pub open spec fn index_layer(n: int, i: int) -> int {
    layer_of(n, row_of(n, i), col_of(n, i))
}

/// Place on its ring's walk of the cell at linear index `i`.
pub open spec fn index_step(n: int, i: int) -> int {
    ring_step(n, row_of(n, i), col_of(n, i))
}

/// The step that comes before `step` on a closed walk of `len` steps.
pub open spec fn step_before(len: int, step: int) -> int {
    if step == 0 {
        len - 1
    } else {
        step - 1
    }
}

/// A cell's linear index lies inside the buffer of `n * n` elements.
pub proof fn lemma_cell_index_in_bounds(n: int, row: int, col: int)
    requires
        in_table(n, row, col),
    ensures
        0 <= cell_index(n, row, col) < n * n,
{
    assert(0 <= row * n && row * n + n <= n * n) by (nonlinear_arith)
        requires
            0 <= row < n,
    ;
}

/// Row and column are recovered from a cell's linear index.
pub proof fn lemma_cell_index_split(n: int, row: int, col: int)
    requires
        in_table(n, row, col),
    ensures
        row_of(n, cell_index(n, row, col)) == row,
        col_of(n, cell_index(n, row, col)) == col,
{
    vstd::arithmetic::div_mod::lemma_fundamental_div_mod_converse(row * n + col, n, row, col);
}

/// Every linear index of the buffer is the index of exactly the cell given by
/// its row and column.
pub proof fn lemma_index_is_cell(n: int, i: int)
    requires
        0 <= n,
        0 <= i < n * n,
    ensures
        in_table(n, row_of(n, i), col_of(n, i)),
        cell_index(n, row_of(n, i), col_of(n, i)) == i,
{
    assert(n > 0) by (nonlinear_arith)
        requires
            0 <= n,
            0 <= i < n * n,
    ;
    vstd::arithmetic::div_mod::lemma_fundamental_div_mod(i, n);
    vstd::arithmetic::div_mod::lemma_mod_bound(i, n);
    let q = i / n;
    assert(n * q == q * n) by (nonlinear_arith);
    assert(0 <= q < n) by (nonlinear_arith)
        requires
            0 <= i < n * n,
            i == q * n + i % n,
            0 <= i % n < n,
    ;
}

/// The walk of a ring stays on that ring, inside the table, and `ring_step`
/// reads a cell's place back.
pub proof fn lemma_ring_cell_on_ring(n: int, layer: int, step: int)
    requires
        is_ring(n, layer),
        0 <= step < ring_len(n, layer),
    ensures
        in_table(n, ring_cell(n, layer, step).0, ring_cell(n, layer, step).1),
        layer_of(n, ring_cell(n, layer, step).0, ring_cell(n, layer, step).1) == layer,
        ring_step(n, ring_cell(n, layer, step).0, ring_cell(n, layer, step).1) == step,
{
}

/// Every cell of a ring that has cells to move is met by the ring's walk, at
/// the step that `ring_step` gives.
pub proof fn lemma_ring_step_on_walk(n: int, row: int, col: int)
    requires
        in_table(n, row, col),
        is_ring(n, layer_of(n, row, col)),
    ensures
        0 <= ring_step(n, row, col) < ring_len(n, layer_of(n, row, col)),
        ring_cell(n, layer_of(n, row, col), ring_step(n, row, col)) == (row, col),
{
}

/// On a ring's walk, the source of each cell is the cell one step before it;
/// the source of the first cell is the last.
pub proof fn lemma_source_is_step_before(n: int, layer: int, step: int)
    requires
        is_ring(n, layer),
        0 <= step < ring_len(n, layer),
    ensures
        source_cell(n, ring_cell(n, layer, step).0, ring_cell(n, layer, step).1) == ring_cell(
            n,
            layer,
            step_before(ring_len(n, layer), step),
        ),
{
}

/// A cell that lies on no ring with cells to move is its own source.
pub proof fn lemma_source_of_still_cell(n: int, row: int, col: int)
    requires
        in_table(n, row, col),
        !is_ring(n, layer_of(n, row, col)),
    ensures
        source_cell(n, row, col) == (row, col),
{
}

/// The source of a cell lies in the table, on the same ring.
pub proof fn lemma_source_same_ring(n: int, row: int, col: int)
    requires
        in_table(n, row, col),
    ensures
        in_table(n, source_cell(n, row, col).0, source_cell(n, row, col).1),
        layer_of(n, source_cell(n, row, col).0, source_cell(n, row, col).1) == layer_of(
            n,
            row,
            col,
        ),
{
}

} // verus!
