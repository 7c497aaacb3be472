//! In-place rotation of a square table by one step clockwise, ring by ring,
//! with a single held value and no second buffer.

use crate::grid::{cell_index, is_ring, ring_index, ring_len};
use crate::model::{
    lemma_all_rings_turned, lemma_next_ring_turned, lemma_no_ring_turned, lemma_walk_end,
    lemma_walk_start, lemma_walk_step, outer_rings_turned, ring_turned, rotated, walked,
};
use crate::square::{is_perfect_square, lemma_side_of_known, side_of, square_len};
use vstd::prelude::*;

verus! {

/// Why a buffer was not rotated.
#[derive(Debug)]
pub enum RotationError {
    /// The buffer's length is not a perfect square.
    NotSquare,
    /// The buffer has no elements.
    Empty,
}

impl RotationError {
    /// The text that describes the error to a reader.
    pub open spec fn message_text(&self) -> Seq<char> {
        match self {
            RotationError::NotSquare => "Array length is not a perfect square"@,
            RotationError::Empty => "Array is empty"@,
        }
    }

    /// Describes the error in words.
    pub fn message(&self) -> (text: &'static str)
        ensures
            text@ == self.message_text(),
    {
        match self {
            RotationError::NotSquare => "Array length is not a perfect square",
            RotationError::Empty => "Array is empty",
        }
    }
}

/// What `rotate_right` reports for a buffer of `len` elements.
pub open spec fn rotation_outcome(len: int) -> Result<(), RotationError> {
    if len == 0 {
        Err(RotationError::Empty)
    } else if !is_perfect_square(len) {
        Err(RotationError::NotSquare)
    } else {
        Ok(())
    }
}

/// What `rotate_right` leaves in a buffer that held `s`: the table turned one
/// step clockwise where `s` is a table with at least one cell, and `s` itself
/// where it is not.
pub open spec fn rotation_of<T>(s: Seq<T>) -> Seq<T> {
    if rotation_outcome(s.len() as int) is Ok {
        rotated(s, side_of(s.len() as int))
    } else {
        s
    }
}

/// Rotates the square table in `data` one step clockwise: every element moves
/// to the next cell of its ring, and the middle cell of a table of odd side
/// stays.
///
/// The buffer holds the table row by row. An empty buffer, or one whose length
/// is not a perfect square, is reported and left as it is. Nothing is
/// allocated; the elements are the same before and after.
pub fn rotate_right<T: Copy>(data: &mut [T]) -> (outcome: Result<(), RotationError>)
    ensures
        outcome == rotation_outcome(old(data)@.len() as int),
        final(data)@ == rotation_of(old(data)@),
        outcome is Err ==> final(data)@ == old(data)@,
        final(data)@.len() == old(data)@.len(),
        final(data)@.to_multiset() == old(data)@.to_multiset(),
{
    let len = data.len();

    if len == 0 {
        return Err(RotationError::Empty);
    }
    let n = square_len(len).ok_or(RotationError::NotSquare)?;

    let ghost before = data@;
    proof {
        lemma_side_of_known(n as int, len as int);
        lemma_no_ring_turned(before, n as int);
    }

    // A table of one cell is its own rotation.
    if n <= 1 {
        proof {
            lemma_all_rings_turned(before, n as int, 0);
        }
        return Ok(());
    }

    // Turn each ring, from the outside in.
    for layer in 0..n / 2
        invariant
            before.len() == n * n,
            n * n <= usize::MAX,
            data@ == outer_rings_turned(before, n as int, layer as int),
            data@.to_multiset() == before.to_multiset(),
    {
        rotate_ring_clockwise(data, n, layer);
        proof {
            lemma_next_ring_turned(before, n as int, layer as int);
        }
    }

    proof {
        lemma_all_rings_turned(before, n as int, n as int / 2);
    }
    Ok(())
}

/// Moves ring `layer` of the table one step clockwise by walking once round
/// it: each cell takes the held value and hands on its own.
fn rotate_ring_clockwise<T: Copy>(data: &mut [T], n: usize, layer: usize)
    requires
        old(data)@.len() == n * n,
        n * n <= usize::MAX,
        is_ring(n as int, layer as int),
    ensures
        final(data)@ == ring_turned(old(data)@, n as int, layer as int),
        final(data)@.to_multiset() == old(data)@.to_multiset(),
{
    let first = layer;
    let last = n - 1 - layer;
    let ghost before = data@;
    let ghost span = last - first;

    // The element below the ring's top-left corner is the last to be
    // overwritten and the first to move.
    let mut prev = data[idx(n, first + 1, first)];
    proof {
        lemma_walk_start(before, n as int, layer as int);
    }

    // Top row: left to right.
    let mut col = first;
    while col <= last
        invariant
            first <= col <= last + 1,
            first == layer,
            last == n - 1 - layer,
            span == last - first,
            is_ring(n as int, layer as int),
            before.len() == n * n,
            n * n <= usize::MAX,
            walked(before, data@, prev, n as int, layer as int, col - first),
        decreases last + 1 - col,
    {
        proof {
            lemma_walk_step(before, data@, prev, n as int, layer as int, col - first);
            assert(ring_index(n as int, layer as int, col - first) == cell_index(
                n as int,
                first as int,
                col as int,
            ));
        }
        let temp = data[idx(n, first, col)];
        data[idx(n, first, col)] = prev;
        prev = temp;
        col += 1;
    }

    // Right column: below the top, down to the bottom.
    let mut row = first + 1;
    while row <= last
        invariant
            first + 1 <= row <= last + 1,
            first == layer,
            last == n - 1 - layer,
            span == last - first,
            is_ring(n as int, layer as int),
            before.len() == n * n,
            n * n <= usize::MAX,
            walked(before, data@, prev, n as int, layer as int, span + (row - first)),
        decreases last + 1 - row,
    {
        proof {
            lemma_walk_step(before, data@, prev, n as int, layer as int, span + (row - first));
            assert(ring_index(n as int, layer as int, span + (row - first)) == cell_index(
                n as int,
                row as int,
                last as int,
            ));
        }
        let temp = data[idx(n, row, last)];
        data[idx(n, row, last)] = prev;
        prev = temp;
        row += 1;
    }

    // Bottom row: left of the corner, right to left.
    let mut col = last;
    while col > first
        invariant
            first <= col <= last,
            first == layer,
            last == n - 1 - layer,
            span == last - first,
            is_ring(n as int, layer as int),
            before.len() == n * n,
            n * n <= usize::MAX,
            walked(before, data@, prev, n as int, layer as int, 2 * span + (last - col) + 1),
        decreases col,
    {
        col -= 1;
        proof {
            lemma_walk_step(before, data@, prev, n as int, layer as int, 2 * span + (last - col));
            assert(ring_index(n as int, layer as int, 2 * span + (last - col)) == cell_index(
                n as int,
                last as int,
                col as int,
            ));
        }
        let temp = data[idx(n, last, col)];
        data[idx(n, last, col)] = prev;
        prev = temp;
    }

    // Left column: above the corner, up to below the top.
    let mut row = last;
    while row > first + 1
        invariant
            first + 1 <= row <= last,
            first == layer,
            last == n - 1 - layer,
            span == last - first,
            is_ring(n as int, layer as int),
            before.len() == n * n,
            n * n <= usize::MAX,
            walked(before, data@, prev, n as int, layer as int, 3 * span + (last - row) + 1),
        decreases row,
    {
        row -= 1;
        proof {
            lemma_walk_step(before, data@, prev, n as int, layer as int, 3 * span + (last - row));
            assert(ring_index(n as int, layer as int, 3 * span + (last - row)) == cell_index(
                n as int,
                row as int,
                first as int,
            ));
        }
        let temp = data[idx(n, row, first)];
        data[idx(n, row, first)] = prev;
        prev = temp;
    }

    proof {
        assert(3 * span + (last - row) + 1 == ring_len(n as int, layer as int));
        lemma_walk_end(before, data@, prev, n as int, layer as int);
    }
}

/// Linear index of cell `(row, col)` in a table of side `n` stored row by row.
#[inline]
fn idx(n: usize, row: usize, col: usize) -> (i: usize)
    requires
        row < n,
        col < n,
        n * n <= usize::MAX,
    ensures
        i == cell_index(n as int, row as int, col as int),
        i < n * n,
{
    assert(row * n + n <= n * n) by (nonlinear_arith)
        requires
            row < n,
    ;
    row * n + col
}

} // verus!
