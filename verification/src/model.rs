//! What one clockwise step does to a table, as a function on sequences, and
//! the state of the walk that carries it out ring by ring with one held value.

use crate::grid::{
    cell_index, col_of, index_layer, index_step, is_ring, lemma_cell_index_in_bounds,
    lemma_cell_index_split, lemma_index_is_cell, lemma_ring_cell_on_ring, lemma_ring_step_on_walk,
    lemma_source_is_step_before, lemma_source_of_still_cell, lemma_source_same_ring, ring_cell,
    ring_index, ring_len, row_of, source_cell, source_index, step_before,
};
use vstd::multiset::Multiset;
use vstd::prelude::*;

verus! {

/// The table `s` of side `n` after one step clockwise: every cell holds what
/// its source held before.
pub open spec fn rotated<T>(s: Seq<T>, n: int) -> Seq<T> {
    Seq::new(s.len(), |i: int| s[source_index(n, i)])
}

/// The table `s` with only ring `layer` moved one step clockwise.
pub open spec fn ring_turned<T>(s: Seq<T>, n: int, layer: int) -> Seq<T> {
    Seq::new(
        s.len(),
        |i: int|
            if index_layer(n, i) == layer {
                s[source_index(n, i)]
            } else {
                s[i]
            },
    )
}

/// The table `s` with the rings outside ring `layers` moved one step
/// clockwise, and the rest as it was.
pub open spec fn outer_rings_turned<T>(s: Seq<T>, n: int, layers: int) -> Seq<T> {
    Seq::new(
        s.len(),
        |i: int|
            if index_layer(n, i) < layers {
                s[source_index(n, i)]
            } else {
                s[i]
            },
    )
}

/// The state of a walk round ring `layer` after `done` steps. The cells
/// passed hold their sources' values from `before`, all others are as in
/// `before`, and `held` is the value to be written at the next step. Buffer
/// and held value together still hold what `before` and the value first
/// picked up held.
pub open spec fn walked<T>(
    before: Seq<T>,
    now: Seq<T>,
    held: T,
    n: int,
    layer: int,
    done: int,
) -> bool {
    &&& now.len() == before.len()
    &&& forall|i: int|
        0 <= i < before.len() ==> #[trigger] now[i] == if index_layer(n, i) == layer && index_step(
            n,
            i,
        ) < done {
            before[source_index(n, i)]
        } else {
            before[i]
        }
    &&& held == before[ring_index(n, layer, step_before(ring_len(n, layer), done))]
    &&& now.to_multiset().insert(held) == before.to_multiset().insert(
        before[ring_index(n, layer, ring_len(n, layer) - 1)],
    )
}

/// The source of every cell of the buffer is a cell of the buffer, on the
/// same ring.
pub proof fn lemma_source_index_same_ring(n: int, i: int)
    requires
        0 <= n,
        0 <= i < n * n,
    ensures
        0 <= source_index(n, i) < n * n,
        index_layer(n, source_index(n, i)) == index_layer(n, i),
{
    lemma_index_is_cell(n, i);
    let row = row_of(n, i);
    let col = col_of(n, i);
    lemma_source_same_ring(n, row, col);
    let from = source_cell(n, row, col);
    lemma_cell_index_in_bounds(n, from.0, from.1);
    lemma_cell_index_split(n, from.0, from.1);
}

/// The walk's cells are cells of the buffer, and row, column, ring and step
/// are read back from a walk cell's linear index.
pub proof fn lemma_ring_index_on_ring(n: int, layer: int, step: int)
    requires
        is_ring(n, layer),
        0 <= step < ring_len(n, layer),
    ensures
        0 <= ring_index(n, layer, step) < n * n,
        row_of(n, ring_index(n, layer, step)) == ring_cell(n, layer, step).0,
        col_of(n, ring_index(n, layer, step)) == ring_cell(n, layer, step).1,
        index_layer(n, ring_index(n, layer, step)) == layer,
        index_step(n, ring_index(n, layer, step)) == step,
        source_index(n, ring_index(n, layer, step)) == ring_index(
            n,
            layer,
            step_before(ring_len(n, layer), step),
        ),
{
    let cell = ring_cell(n, layer, step);
    lemma_ring_cell_on_ring(n, layer, step);
    lemma_cell_index_in_bounds(n, cell.0, cell.1);
    lemma_cell_index_split(n, cell.0, cell.1);
    lemma_source_is_step_before(n, layer, step);
}

/// Every cell of the buffer that lies on a ring with cells to move is the
/// walk cell at its own step.
pub proof fn lemma_index_on_walk(n: int, i: int)
    requires
        0 <= n,
        0 <= i < n * n,
        is_ring(n, index_layer(n, i)),
    ensures
        0 <= index_step(n, i) < ring_len(n, index_layer(n, i)),
        ring_index(n, index_layer(n, i), index_step(n, i)) == i,
{
    lemma_index_is_cell(n, i);
    lemma_ring_step_on_walk(n, row_of(n, i), col_of(n, i));
}

/// Before the first step nothing has moved, and the held value is the one of
/// the walk's last cell.
pub proof fn lemma_walk_start<T>(before: Seq<T>, n: int, layer: int)
    requires
        is_ring(n, layer),
        before.len() == n * n,
    ensures
        walked(before, before, before[ring_index(n, layer, ring_len(n, layer) - 1)], n, layer, 0),
{
}

/// One step of the walk: writing the held value into the next cell of the
/// ring, and holding what that cell held, gives the state one step on.
pub proof fn lemma_walk_step<T>(
    before: Seq<T>,
    now: Seq<T>,
    held: T,
    n: int,
    layer: int,
    done: int,
)
    requires
        0 <= n,
        before.len() == n * n,
        is_ring(n, layer),
        0 <= done < ring_len(n, layer),
        walked(before, now, held, n, layer, done),
    ensures
        0 <= ring_index(n, layer, done) < n * n,
        walked(
            before,
            now.update(ring_index(n, layer, done), held),
            now[ring_index(n, layer, done)],
            n,
            layer,
            done + 1,
        ),
{
    broadcast use vstd::multiset::group_multiset_axioms;

    let at = ring_index(n, layer, done);
    let next = now.update(at, held);
    lemma_ring_index_on_ring(n, layer, done);
    assert forall|i: int| 0 <= i < before.len() implies #[trigger] next[i] == if index_layer(n, i)
        == layer && index_step(n, i) < done + 1 {
        before[source_index(n, i)]
    } else {
        before[i]
    } by {
        if i != at && index_layer(n, i) == layer {
            lemma_index_on_walk(n, i);
        }
    }
    vstd::seq_lib::to_multiset_update(now, at, held);
    assert(now.contains(now[at]));
    vstd::seq_lib::to_multiset_contains(now, now[at]);
    assert(next.to_multiset().insert(now[at]) =~= now.to_multiset().insert(held));
}

/// Two multisets that agree once the same value is put into each agree.
pub proof fn lemma_insert_cancels<T>(a: Multiset<T>, b: Multiset<T>, x: T)
    requires
        a.insert(x) == b.insert(x),
    ensures
        a == b,
{
    broadcast use vstd::multiset::group_multiset_axioms;

    assert forall|v: T| a.count(v) == b.count(v) by {
        assert(a.insert(x).count(v) == b.insert(x).count(v));
        if v == x {
            vstd::multiset::lemma_insert_increases_count_by_1(a, x);
            vstd::multiset::lemma_insert_increases_count_by_1(b, x);
        } else {
            vstd::multiset::lemma_insert_other_elements_unchanged(a, x, v);
            vstd::multiset::lemma_insert_other_elements_unchanged(b, x, v);
        }
    }
    assert(a =~= b);
}

/// After the last step the ring has moved one step clockwise, no other cell
/// has changed, and the buffer holds the values it held before.
pub proof fn lemma_walk_end<T>(before: Seq<T>, now: Seq<T>, held: T, n: int, layer: int)
    requires
        0 <= n,
        before.len() == n * n,
        is_ring(n, layer),
        walked(before, now, held, n, layer, ring_len(n, layer)),
    ensures
        now == ring_turned(before, n, layer),
        now.to_multiset() == before.to_multiset(),
{
    assert forall|i: int| 0 <= i < before.len() implies now[i] == ring_turned(before, n, layer)[i] by {
        if index_layer(n, i) == layer {
            lemma_index_on_walk(n, i);
        }
    }
    assert(now =~= ring_turned(before, n, layer));
    lemma_insert_cancels(now.to_multiset(), before.to_multiset(), held);
}

/// The walk round a ring can be taken to any of its steps, and to its end.
pub proof fn lemma_walk_reaches<T>(before: Seq<T>, n: int, layer: int, done: int) -> (state: (
    Seq<T>,
    T,
))
    requires
        0 <= n,
        before.len() == n * n,
        is_ring(n, layer),
        0 <= done <= ring_len(n, layer),
    ensures
        walked(before, state.0, state.1, n, layer, done),
    decreases done,
{
    if done == 0 {
        lemma_walk_start(before, n, layer);
        (before, before[ring_index(n, layer, ring_len(n, layer) - 1)])
    } else {
        let (now, held) = lemma_walk_reaches(before, n, layer, done - 1);
        let at = ring_index(n, layer, done - 1);
        lemma_walk_step(before, now, held, n, layer, done - 1);
        (now.update(at, held), now[at])
    }
}

/// A table with one ring moved holds the values it held before.
pub proof fn lemma_ring_turned_permutes<T>(s: Seq<T>, n: int, layer: int)
    requires
        0 <= n,
        s.len() == n * n,
        is_ring(n, layer),
    ensures
        ring_turned(s, n, layer).to_multiset() == s.to_multiset(),
{
    let (now, held) = lemma_walk_reaches(s, n, layer, ring_len(n, layer));
    lemma_walk_end(s, now, held, n, layer);
}

/// Moving ring `layer` of a table whose outer rings have moved gives the
/// table with one more ring moved.
pub proof fn lemma_next_ring_turned<T>(s: Seq<T>, n: int, layer: int)
    requires
        0 <= n,
        s.len() == n * n,
    ensures
        ring_turned(outer_rings_turned(s, n, layer), n, layer) == outer_rings_turned(
            s,
            n,
            layer + 1,
        ),
{
    let outer = outer_rings_turned(s, n, layer);
    assert forall|i: int| 0 <= i < s.len() implies ring_turned(outer, n, layer)[i]
        == outer_rings_turned(s, n, layer + 1)[i] by {
        lemma_source_index_same_ring(n, i);
    }
    assert(ring_turned(outer, n, layer) =~= outer_rings_turned(s, n, layer + 1));
}

/// With no ring moved the table is as it was.
pub proof fn lemma_no_ring_turned<T>(s: Seq<T>, n: int)
    requires
        0 <= n,
        s.len() == n * n,
    ensures
        outer_rings_turned(s, n, 0) == s,
{
    assert forall|i: int| 0 <= i < s.len() implies outer_rings_turned(s, n, 0)[i] == s[i] by {
        lemma_index_is_cell(n, i);
    }
    assert(outer_rings_turned(s, n, 0) =~= s);
}

/// Once every ring with cells to move has moved, the table has turned one
/// step: the cell left over in the middle of a table of odd side stays.
pub proof fn lemma_all_rings_turned<T>(s: Seq<T>, n: int, layers: int)
    requires
        0 <= n,
        s.len() == n * n,
        !is_ring(n, layers),
        0 <= layers,
    ensures
        outer_rings_turned(s, n, layers) == rotated(s, n),
{
    assert forall|i: int| 0 <= i < s.len() implies outer_rings_turned(s, n, layers)[i] == rotated(
        s,
        n,
    )[i] by {
        lemma_index_is_cell(n, i);
        if index_layer(n, i) >= layers {
            lemma_source_of_still_cell(n, row_of(n, i), col_of(n, i));
        }
    }
    assert(outer_rings_turned(s, n, layers) =~= rotated(s, n));
}

/// A table with its outer rings moved holds the values it held before.
pub proof fn lemma_outer_rings_turned_permute<T>(s: Seq<T>, n: int, layers: int)
    requires
        0 <= n,
        s.len() == n * n,
        0 <= layers,
        layers == 0 || is_ring(n, layers - 1),
    ensures
        outer_rings_turned(s, n, layers).to_multiset() == s.to_multiset(),
    decreases layers,
{
    if layers == 0 {
        lemma_no_ring_turned(s, n);
    } else {
        lemma_outer_rings_turned_permute(s, n, layers - 1);
        lemma_next_ring_turned(s, n, layers - 1);
        lemma_ring_turned_permutes(outer_rings_turned(s, n, layers - 1), n, layers - 1);
    }
}

/// A table turned one step holds the values it held before: rotation only
/// moves them.
pub proof fn lemma_rotated_permutes<T>(s: Seq<T>, n: int)
    requires
        0 <= n,
        s.len() == n * n,
    ensures
        rotated(s, n).len() == s.len(),
        rotated(s, n).to_multiset() == s.to_multiset(),
{
    lemma_outer_rings_turned_permute(s, n, n / 2);
    lemma_all_rings_turned(s, n, n / 2);
}

} // verus!
