//! What repeated rotation does: each ring turns as a whole, the middle cell
//! of a table of odd side never moves, and a table comes back to where it
//! started once every ring has gone full circle.

use crate::grid::{
    cell_index, index_layer, index_step, is_ring, lemma_cell_index_in_bounds,
    lemma_cell_index_split, lemma_index_is_cell, lemma_source_of_still_cell, ring_index, ring_len,
    row_of, col_of, source_index, step_before,
};
use crate::model::{lemma_index_on_walk, lemma_ring_index_on_ring, lemma_rotated_permutes, rotated};
use crate::rotate::{rotation_of, rotation_outcome, RotationError};
use crate::square::{is_side_of, lemma_side_of_known};
use vstd::prelude::*;

verus! {

/// The table `s` of side `n` after `times` steps clockwise.
pub open spec fn rotated_times<T>(s: Seq<T>, n: int, times: nat) -> Seq<T>
    decreases times,
{
    if times == 0 {
        s
    } else {
        rotated(rotated_times(s, n, (times - 1) as nat), n)
    }
}

/// Every ring of `s` reads the same when its walk is started `shift` cells
/// earlier.
pub open spec fn rings_repeat_after<T>(s: Seq<T>, n: int, shift: int) -> bool {
    forall|layer: int, step: int|
        is_ring(n, layer) && 0 <= step < ring_len(n, layer) ==> s[#[trigger] ring_index(
            n,
            layer,
            step,
        )] == s[ring_index(n, layer, (step - shift) % ring_len(n, layer))]
}

/// The number of cells on every ring of the table divides `count`.
pub open spec fn ring_lens_divide(n: int, count: int) -> bool {
    forall|layer: int| is_ring(n, layer) ==> count % #[trigger] ring_len(n, layer) == 0
}

/// Rotation keeps the number of cells, however often it is repeated.
pub proof fn lemma_turns_keep_len<T>(s: Seq<T>, n: int, times: nat)
    ensures
        rotated_times(s, n, times).len() == s.len(),
    decreases times,
{
    if times > 0 {
        lemma_turns_keep_len(s, n, (times - 1) as nat);
    }
}

/// A buffer that holds a table of side `n` with at least one cell is rotated
/// with success, into that table turned one step.
pub proof fn lemma_rotation_of_table<T>(s: Seq<T>, n: int)
    requires
        1 <= n,
        s.len() == n * n,
    ensures
        rotation_outcome(s.len() as int) is Ok,
        rotation_of(s) == rotated(s, n),
{
    assert(n * n >= 1) by (nonlinear_arith)
        requires
            1 <= n,
    ;
    lemma_side_of_known(n, s.len() as int);
}

/// Whatever buffer is handed to rotation, it comes back with the length and
/// the values it had: rotation only moves them.
pub proof fn lemma_rotation_permutes<T>(s: Seq<T>)
    ensures
        rotation_of(s).len() == s.len(),
        rotation_of(s).to_multiset() == s.to_multiset(),
{
    if rotation_outcome(s.len() as int) is Ok {
        let n = choose|n: int| is_side_of(n, s.len() as int);
        lemma_side_of_known(n, s.len() as int);
        lemma_rotated_permutes(s, n);
    }
}

/// A table holds the same values after any number of rotations.
pub proof fn lemma_turns_permute<T>(s: Seq<T>, n: int, times: nat)
    requires
        0 <= n,
        s.len() == n * n,
    ensures
        rotated_times(s, n, times).len() == s.len(),
        rotated_times(s, n, times).to_multiset() == s.to_multiset(),
    decreases times,
{
    if times > 0 {
        lemma_turns_permute(s, n, (times - 1) as nat);
        lemma_rotated_permutes(rotated_times(s, n, (times - 1) as nat), n);
    }
}

/// After `times` steps, the cell at place `step` of a ring's walk holds what
/// the cell `times` places earlier on the same walk held at the start: each
/// ring turns as a whole, one place per step.
pub proof fn lemma_turns_shift_ring<T>(s: Seq<T>, n: int, times: nat, layer: int, step: int)
    requires
        0 <= n,
        s.len() == n * n,
        is_ring(n, layer),
        0 <= step < ring_len(n, layer),
    ensures
        0 <= (step - times) % ring_len(n, layer) < ring_len(n, layer),
        rotated_times(s, n, times)[ring_index(n, layer, step)] == s[ring_index(
            n,
            layer,
            (step - times) % ring_len(n, layer),
        )],
    decreases times,
{
    let len = ring_len(n, layer);
    vstd::arithmetic::div_mod::lemma_mod_bound(step - times, len);
    if times == 0 {
        vstd::arithmetic::div_mod::lemma_small_mod(step as nat, len as nat);
    } else {
        let fewer = (times - 1) as nat;
        let earlier = step_before(len, step);
        lemma_turns_keep_len(s, n, fewer);
        lemma_ring_index_on_ring(n, layer, step);
        lemma_turns_shift_ring(s, n, fewer, layer, earlier);
        if step == 0 {
            vstd::arithmetic::div_mod::lemma_mod_add_multiples_vanish(step - times, len);
        }
    }
}

/// A cell that lies on no ring with cells to move holds the same value after
/// any number of steps.
pub proof fn lemma_turns_keep_still_cell<T>(s: Seq<T>, n: int, times: nat, i: int)
    requires
        0 <= n,
        s.len() == n * n,
        0 <= i < n * n,
        !is_ring(n, index_layer(n, i)),
    ensures
        rotated_times(s, n, times)[i] == s[i],
    decreases times,
{
    if times > 0 {
        let fewer = (times - 1) as nat;
        lemma_turns_keep_len(s, n, fewer);
        lemma_index_is_cell(n, i);
        lemma_source_of_still_cell(n, row_of(n, i), col_of(n, i));
        lemma_turns_keep_still_cell(s, n, fewer, i);
    }
}

/// The middle cell of a table of odd side keeps its value through any number
/// of rotations.
pub proof fn lemma_centre_stays<T>(s: Seq<T>, n: int, times: nat)
    requires
        0 <= n,
        n % 2 == 1,
        s.len() == n * n,
    ensures
        0 <= cell_index(n, n / 2, n / 2) < s.len(),
        rotated_times(s, n, times)[cell_index(n, n / 2, n / 2)] == s[cell_index(n, n / 2, n / 2)],
{
    let mid = n / 2;
    lemma_cell_index_in_bounds(n, mid, mid);
    lemma_cell_index_split(n, mid, mid);
    lemma_turns_keep_still_cell(s, n, times, cell_index(n, mid, mid));
}

/// A table is back where it started after `times` steps exactly when every
/// one of its rings reads the same `times` cells further back.
pub proof fn lemma_turns_restore_iff_rings_repeat<T>(s: Seq<T>, n: int, times: nat)
    requires
        0 <= n,
        s.len() == n * n,
    ensures
        rotated_times(s, n, times) == s <==> rings_repeat_after(s, n, times as int),
{
    let after = rotated_times(s, n, times);
    lemma_turns_keep_len(s, n, times);
    if rings_repeat_after(s, n, times as int) {
        assert forall|i: int| 0 <= i < s.len() implies after[i] == s[i] by {
            let layer = index_layer(n, i);
            if is_ring(n, layer) {
                lemma_index_on_walk(n, i);
                lemma_turns_shift_ring(s, n, times, layer, index_step(n, i));
                assert(s[ring_index(n, layer, index_step(n, i))] == s[ring_index(
                    n,
                    layer,
                    (index_step(n, i) - times) % ring_len(n, layer),
                )]);
            } else {
                lemma_turns_keep_still_cell(s, n, times, i);
            }
        }
        assert(after =~= s);
    }
    if after == s {
        assert forall|layer: int, step: int|
            is_ring(n, layer) && 0 <= step < ring_len(n, layer) implies s[#[trigger] ring_index(
            n,
            layer,
            step,
        )] == s[ring_index(n, layer, (step - times) % ring_len(n, layer))] by {
            lemma_turns_shift_ring(s, n, times, layer, step);
        }
    }
}

/// Where the number of cells on each ring divides `count`, every table of
/// that side has rings that repeat after `count` cells.
pub proof fn lemma_rings_repeat_when_lens_divide<T>(s: Seq<T>, n: int, count: int)
    requires
        ring_lens_divide(n, count),
    ensures
        rings_repeat_after(s, n, count),
{
    assert forall|layer: int, step: int|
        is_ring(n, layer) && 0 <= step < ring_len(n, layer) implies s[#[trigger] ring_index(
        n,
        layer,
        step,
    )] == s[ring_index(n, layer, (step - count) % ring_len(n, layer))] by {
        let len = ring_len(n, layer);
        vstd::arithmetic::div_mod::lemma_fundamental_div_mod(count, len);
        vstd::arithmetic::div_mod::lemma_mod_multiples_vanish(-(count / len), step, len);
        vstd::arithmetic::div_mod::lemma_small_mod(step as nat, len as nat);
        assert(len * (-(count / len)) + step == step - count) by (nonlinear_arith)
            requires
                count == len * (count / len) + count % len,
                count % len == 0,
        ;
    }
}

/// The number of cells on every ring divides the number on the outer ring
/// exactly in the tables of side five or less.
pub proof fn lemma_ring_lens_divide_outer_iff_small(n: int)
    requires
        2 <= n,
    ensures
        ring_lens_divide(n, ring_len(n, 0)) <==> n <= 5,
{
    let outer = ring_len(n, 0);
    if n <= 5 {
        assert forall|layer: int| is_ring(n, layer) implies outer % #[trigger] ring_len(n, layer)
            == 0 by {
            // Side four has rings of twelve and four cells, side five of
            // sixteen and eight; the smaller sides have one ring.
            if layer == 0 {
                vstd::arithmetic::div_mod::lemma_mod_self_0(outer);
            } else {
                let times: int = if n == 4 {
                    3
                } else {
                    2
                };
                vstd::arithmetic::div_mod::lemma_fundamental_div_mod_converse(
                    outer,
                    ring_len(n, layer),
                    times,
                    0,
                );
            }
        }
    } else {
        // The second ring has eight cells fewer than the outer ring, and more
        // than eight.
        let second = ring_len(n, 1);
        assert(is_ring(n, 1));
        vstd::arithmetic::div_mod::lemma_fundamental_div_mod_converse(outer, second, 1, 8);
    }
}

/// Rotating a table as many times as its outer ring has cells brings it back
/// to where it started, when each of its rings reads the same that many cells
/// further back.
pub proof fn lemma_outer_ring_turns_restore<T>(s: Seq<T>, n: int)
    requires
        2 <= n,
        s.len() == n * n,
        rings_repeat_after(s, n, ring_len(n, 0)),
    ensures
        rotated_times(s, n, ring_len(n, 0) as nat) == s,
{
    lemma_turns_restore_iff_rings_repeat(s, n, ring_len(n, 0) as nat);
}

/// Every table of side two to five is back where it started after as many
/// rotations as its outer ring has cells.
pub proof fn lemma_small_table_turns_restore<T>(s: Seq<T>, n: int)
    requires
        2 <= n <= 5,
        s.len() == n * n,
    ensures
        rotated_times(s, n, ring_len(n, 0) as nat) == s,
{
    lemma_ring_lens_divide_outer_iff_small(n);
    lemma_rings_repeat_when_lens_divide(s, n, ring_len(n, 0));
    lemma_outer_ring_turns_restore(s, n);
}

/// A buffer of at most one element is its own rotation. With one element the
/// rotation succeeds; with none it is reported as empty.
pub proof fn lemma_tiny_buffer_fixed<T>(s: Seq<T>)
    requires
        s.len() <= 1,
    ensures
        rotation_of(s) == s,
        s.len() == 1 ==> rotation_outcome(s.len() as int) is Ok,
        s.len() == 0 ==> rotation_outcome(s.len() as int) == Err::<(), RotationError>(
            RotationError::Empty,
        ),
{
    if s.len() == 1 {
        lemma_side_of_known(1, 1);
        assert(source_index(1, 0) == 0);
        assert(rotated(s, 1) =~= s);
    }
}

} // verus!
