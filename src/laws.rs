//! What holds of the heuristics at the goal.
use vstd::prelude::*;

use crate::board::{in_grid, lemma_pos_of, lemma_pos_of_at, pos_of, valid_board, MAX_SIDE};
use crate::goal::{
    goal_blank, lemma_goal_is_permutation, lemma_goal_label_range, lemma_spiral_cells,
    ring_base, spiral_goal,
};
use crate::heuristic::{
    breaks_chain, comparable, custom, hamming, hamming_upto, label_dist, line_misses, manhattan,
    manhattan_upto, nilsson, out_of_line, out_of_line_upto, ring_penalty_upto, ring_step_penalty,
    rings_penalty_upto, row_mismatches, sequence_penalty,
};

verus! {

proof fn lemma_row_mismatches_zero(r1: Seq<usize>, r2: Seq<usize>, j: int)
    requires
        j >= 0,
    ensures
        row_mismatches(r1, r2, j) >= 0,
        row_mismatches(r1, r2, j) == 0 <==> forall|k: int| 0 <= k < j ==> r1[k] == r2[k],
    decreases j,
{
    if j > 0 {
        lemma_row_mismatches_zero(r1, r2, j - 1);
    }
}

proof fn lemma_hamming_upto_zero(b: Seq<Seq<usize>>, g: Seq<Seq<usize>>, i: int)
    requires
        i >= 0,
    ensures
        hamming_upto(b, g, i) >= 0,
        hamming_upto(b, g, i) == 0 <==> forall|a: int, k: int|
            0 <= a < i && 0 <= k < g.len() ==> b[a][k] == g[a][k],
    decreases i,
{
    lemma_row_mismatches_zero(b[i - 1], g[i - 1], g.len() as int);
    if i > 0 {
        lemma_hamming_upto_zero(b, g, i - 1);
        if hamming_upto(b, g, i) == 0 {
            assert forall|a: int, k: int| 0 <= a < i && 0 <= k < g.len() implies b[a][k] == g[a][k] by {
                if a == i - 1 {
                    assert(row_mismatches(b[i - 1], g[i - 1], g.len() as int) == 0);
                }
            }
        }
        if forall|a: int, k: int| 0 <= a < i && 0 <= k < g.len() ==> b[a][k] == g[a][k] {
            assert forall|k: int| 0 <= k < g.len() implies #[trigger] b[i - 1][k] == g[i - 1][k] by {}
        }
    }
}

proof fn lemma_label_sums_zero(b: Seq<Seq<usize>>, g: Seq<Seq<usize>>, k: int)
    requires
        comparable(b, g),
        0 <= k <= g.len() * g.len(),
    ensures
        manhattan_upto(b, g, k) == 0 <==> forall|v: int| 0 <= v < k ==> pos_of(b, v) == pos_of(g, v),
        out_of_line_upto(b, g, k) == 0 <==> forall|v: int| 0 <= v < k ==> pos_of(b, v) == pos_of(g, v),
        manhattan_upto(b, g, k) >= 0,
        out_of_line_upto(b, g, k) >= 0,
    decreases k,
{
    if k > 0 {
        lemma_label_sums_zero(b, g, k - 1);
        lemma_pos_of(b, k - 1);
        lemma_pos_of(g, k - 1);
        assert(label_dist(b, g, k - 1) == 0 <==> pos_of(b, k - 1) == pos_of(g, k - 1));
        assert(line_misses(b, g, k - 1) == 0 <==> pos_of(b, k - 1) == pos_of(g, k - 1));
        if forall|v: int| 0 <= v < k ==> pos_of(b, v) == pos_of(g, v) {
            assert(forall|v: int| 0 <= v < k - 1 ==> pos_of(b, v) == pos_of(g, v));
        }
    }
}

/// Boards whose labels all stand at the same cells are equal.
proof fn lemma_same_positions_equal(b: Seq<Seq<usize>>, g: Seq<Seq<usize>>)
    requires
        comparable(b, g),
        forall|v: int| 0 <= v < g.len() * g.len() ==> pos_of(b, v) == pos_of(g, v),
    ensures
        b == g,
{
    let n = g.len() as int;
    assert forall|i: int| 0 <= i < n implies #[trigger] b[i] =~= g[i] by {
        assert forall|j: int| 0 <= j < n implies b[i][j] == g[i][j] by {
            assert(in_grid(n, i, j));
            lemma_pos_of_at(b, i, j);
            let v = b[i][j] as int;
            assert(pos_of(b, v) == (i, j));
            lemma_pos_of(g, v);
        }
    }
    assert(b =~= g);
}

/// Hamming is 0 exactly when the board is the goal.
pub proof fn lemma_hamming_zero_iff_goal(b: Seq<Seq<usize>>, g: Seq<Seq<usize>>)
    requires
        comparable(b, g),
    ensures
        hamming(b, g) == 0 <==> b == g,
{
    let n = g.len() as int;
    lemma_hamming_upto_zero(b, g, n);
    if hamming(b, g) == 0 {
        assert forall|i: int| 0 <= i < n implies #[trigger] b[i] =~= g[i] by {
            assert forall|j: int| 0 <= j < n implies b[i][j] == g[i][j] by {}
        }
        assert(b =~= g);
    }
}

/// Manhattan is 0 exactly when the board is the goal.
pub proof fn lemma_manhattan_zero_iff_goal(b: Seq<Seq<usize>>, g: Seq<Seq<usize>>)
    requires
        comparable(b, g),
    ensures
        manhattan(b, g) == 0 <==> b == g,
{
    lemma_label_sums_zero(b, g, (g.len() * g.len()) as int);
    if manhattan(b, g) == 0 {
        lemma_same_positions_equal(b, g);
    }
}

/// Out-of-line is 0 exactly when the board is the goal.
pub proof fn lemma_out_of_line_zero_iff_goal(b: Seq<Seq<usize>>, g: Seq<Seq<usize>>)
    requires
        comparable(b, g),
    ensures
        out_of_line(b, g) == 0 <==> b == g,
{
    lemma_label_sums_zero(b, g, (g.len() * g.len()) as int);
    if out_of_line(b, g) == 0 {
        lemma_same_positions_equal(b, g);
    }
}

/// The custom heuristic is 0 exactly when the board is the goal.
pub proof fn lemma_custom_zero_iff_goal(b: Seq<Seq<usize>>, g: Seq<Seq<usize>>)
    requires
        comparable(b, g),
    ensures
        custom(b, g) == 0 <==> b == g,
{
    lemma_manhattan_zero_iff_goal(b, g);
}

/// At the canonical goal, the four ring cells at top-edge position `j` of
/// ring `i` each continue the clockwise chain (or are exempt from it).
proof fn lemma_goal_ring_step(n: nat, i: int, j: int)
    requires
        1 <= n <= MAX_SIDE,
        0 <= i < n / 2,
        i <= j < n - i - 1,
    ensures
        ring_step_penalty(spiral_goal(n), i, j) == 0,
{
    let g = spiral_goal(n);
    let ni = n as int;
    lemma_spiral_cells(ni, i, j);
    lemma_spiral_cells(ni, i, i);
    if j + 1 < ni - i - 1 {
        lemma_spiral_cells(ni, i, j + 1);
    }
    lemma_goal_label_range(n, i, j);
    lemma_goal_label_range(n, i, j + 1);
    lemma_goal_label_range(n, j, ni - i - 1);
    lemma_goal_label_range(n, j + 1, ni - i - 1);
    lemma_goal_label_range(n, ni - i - 1, ni - j - 1);
    lemma_goal_label_range(n, ni - i - 1, ni - j - 2);
    lemma_goal_label_range(n, ni - j - 1, i);
    lemma_goal_label_range(n, ni - j - 2, i);
    if ni % 2 == 0 && i == ni / 2 - 1 {
        assert(ring_base(ni, i) + 4 == ni * ni) by (nonlinear_arith)
            requires
                ni % 2 == 0,
                i == ni / 2 - 1,
        ;
    }
    assert(g.len() == ni);
    assert(!breaks_chain(g, (i, j), (i, j + 1)));
    assert(!breaks_chain(g, (j, ni - i - 1), (j + 1, ni - i - 1)));
    assert(!breaks_chain(g, (ni - i - 1, ni - j - 1), (ni - i - 1, ni - j - 2)));
    assert(!(breaks_chain(g, (ni - j - 1, i), (ni - j - 2, i)) && i == (ni - 1) / 2));
}

proof fn lemma_goal_ring_penalty(n: nat, i: int, j: int)
    requires
        1 <= n <= MAX_SIDE,
        0 <= i < n / 2,
        i <= j <= n - i - 1,
    ensures
        ring_penalty_upto(spiral_goal(n), i, j) == 0,
    decreases j - i,
{
    if j > i {
        lemma_goal_ring_penalty(n, i, j - 1);
        lemma_goal_ring_step(n, i, j - 1);
    }
}

proof fn lemma_goal_rings_penalty(n: nat, i: int)
    requires
        1 <= n <= MAX_SIDE,
        0 <= i <= n / 2,
    ensures
        rings_penalty_upto(spiral_goal(n), i) == 0,
    decreases i,
{
    if i > 0 {
        lemma_goal_rings_penalty(n, i - 1);
        lemma_goal_ring_penalty(n, i - 1, n - (i - 1) - 1);
    }
}

/// Nilsson is 0 at the canonical goal.
pub proof fn lemma_nilsson_zero_at_goal(n: nat)
    requires
        1 <= n <= MAX_SIDE,
    ensures
        nilsson(spiral_goal(n), spiral_goal(n)) == 0,
{
    let g = spiral_goal(n);
    lemma_goal_is_permutation(n);
    assert(valid_board(g));
    lemma_manhattan_zero_iff_goal(g, g);
    lemma_goal_rings_penalty(n, (n / 2) as int);
    let c = goal_blank(n as int);
    lemma_goal_label_range(n, c.0, c.1);
    assert(sequence_penalty(g) == 0);
}

} // verus!
