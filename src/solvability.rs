//! Whether a start board can reach a goal board: a permutation-parity test.
use vstd::prelude::*;

use crate::board::{blank_pos, board_view, is_permutation, lemma_pos_of_at, valid_board, in_grid};
use crate::goal::{construct_basic_goal, lemma_goal_is_permutation, spiral_goal};

verus! {

/// The rows `0..i` of `b`, one after another.
pub open spec fn rows_flat(b: Seq<Seq<usize>>, i: int) -> Seq<usize>
    decreases i,
{
    if i <= 0 {
        Seq::empty()
    } else {
        rows_flat(b, i - 1) + b[i - 1]
    }
}

/// The labels of `b` in row-major order.
pub open spec fn flat(b: Seq<Seq<usize>>) -> Seq<usize> {
    rows_flat(b, b.len() as int)
}

/// How many entries of `s` are greater than `v`.
pub open spec fn count_greater(s: Seq<usize>, v: int) -> int
    decreases s.len(),
{
    if s.len() == 0 {
        0
    } else {
        count_greater(s.drop_last(), v) + (if s.last() > v {
            1int
        } else {
            0
        })
    }
}

/// The pairs of tiles (the blank left out) that stand in decreasing order in `s`.
pub open spec fn inversions(s: Seq<usize>) -> int
    decreases s.len(),
{
    if s.len() == 0 {
        0
    } else {
        inversions(s.drop_last()) + (if s.last() == 0 {
            0
        } else {
            count_greater(s.drop_last(), s.last() as int)
        })
    }
}

/// The parity test: the inversion counts of both boards, plus, on boards of
/// even side, the rows between the two blanks, sum to an odd number.
pub open spec fn insoluble_spec(b: Seq<Seq<usize>>, g: Seq<Seq<usize>>) -> bool {
    let n = b.len() as int;
    (inversions(flat(b)) + inversions(flat(g)) + ((blank_pos(b).0 + blank_pos(g).0) % 2) * ((n
        + 1) % 2)) % 2 != 0
}

/// Every board can reach itself: the test never calls a board insoluble
/// against itself, so in particular the canonical goal is solvable from the
/// canonical goal.
pub proof fn lemma_self_solvable(b: Seq<Seq<usize>>)
    ensures
        !insoluble_spec(b, b),
{
    let x = inversions(flat(b));
    let r = blank_pos(b).0;
    assert((r + r) % 2 == 0);
    assert((x + x) % 2 == 0);
}

/// The canonical goal of every size the library handles is solvable from itself.
pub proof fn lemma_goal_self_solvable(n: nat)
    ensures
        !insoluble_spec(spiral_goal(n), spiral_goal(n)),
{
    lemma_self_solvable(spiral_goal(n));
}

proof fn lemma_count_greater_bound(s: Seq<usize>, v: int)
    ensures
        0 <= count_greater(s, v) <= s.len(),
    decreases s.len(),
{
    if s.len() > 0 {
        lemma_count_greater_bound(s.drop_last(), v);
    }
}

/// Parity of the inversion count of `b`, by the weight method: scanning in
/// row-major order, `weights[k]` counts the labels seen so far that exceed `k`.
fn inversion_parity(b: &Vec<Vec<usize>>) -> (r: (usize, usize))
    requires
        valid_board(board_view(*b)),
    ensures
        r.0 as int == inversions(flat(board_view(*b))) % 2,
        r.1 as int == blank_pos(board_view(*b)).0,
        r.1 < board_view(*b).len(),
{
    let ghost bv = board_view(*b);
    let len = b.len();
    proof {
        assert(len * len <= 65535 * 65535) by (nonlinear_arith)
            requires
                len <= 65535,
        ;
    }
    let n = len * len;
    let mut weights: Vec<usize> = Vec::new();
    let mut k: usize = 0;
    while k < n
        invariant
            k <= n,
            weights@ == Seq::new(k as nat, |x: int| 0usize),
        decreases n - k,
    {
        weights.push(0);
        k += 1;
        proof {
            assert(weights@ =~= Seq::new(k as nat, |x: int| 0usize));
        }
    }
    proof {
        assert(0 < len * len) by (nonlinear_arith)
            requires
                1 <= len,
        ;
        crate::board::lemma_pos_of(bv, 0);
    }
    let mut inv: usize = 0;
    let mut zero_row: usize = 0;
    let mut i: usize = 0;
    while i < len
        invariant
            bv == board_view(*b),
            valid_board(bv),
            len == bv.len(),
            n == len * len,
            i <= len,
            weights@.len() == n,
            weights@[0] == 0,
            forall|x: int| 1 <= x < n ==> #[trigger] weights@[x] == count_greater(rows_flat(bv, i as int), x),
            inv as int == inversions(rows_flat(bv, i as int)) % 2,
            rows_flat(bv, i as int).len() == i * len,
            in_grid(len as int, blank_pos(bv).0, blank_pos(bv).1),
            bv[blank_pos(bv).0][blank_pos(bv).1] == 0,
            blank_pos(bv).0 < i ==> zero_row == blank_pos(bv).0,
            blank_pos(bv).0 >= i ==> zero_row == 0,
        decreases len - i,
    {
        let ghost row_start = rows_flat(bv, i as int);
        let mut j: usize = 0;
        while j < len
            invariant
                bv == board_view(*b),
                valid_board(bv),
                len == bv.len(),
                n == len * len,
                i < len,
                j <= len,
                row_start == rows_flat(bv, i as int),
                row_start.len() == i * len,
                weights@.len() == n,
                weights@[0] == 0,
                forall|x: int| 1 <= x < n ==> #[trigger] weights@[x] == count_greater(row_start + bv[i as int].take(j as int), x),
                inv as int == inversions(row_start + bv[i as int].take(j as int)) % 2,
                in_grid(len as int, blank_pos(bv).0, blank_pos(bv).1),
                bv[blank_pos(bv).0][blank_pos(bv).1] == 0,
                blank_pos(bv).0 < i ==> zero_row == blank_pos(bv).0,
                (blank_pos(bv).0 > i || (blank_pos(bv).0 == i && blank_pos(bv).1 >= j)) ==> zero_row == 0,
                blank_pos(bv).0 == i && blank_pos(bv).1 < j ==> zero_row == i,
            decreases len - j,
        {
            let ghost pre = row_start + bv[i as int].take(j as int);
            let v = b[i][j];
            assert(in_grid(len as int, i as int, j as int));
            assert(v < n);
            let ghost post = row_start + bv[i as int].take(j as int + 1);
            assert(post =~= pre.push(v));
            assert(post.drop_last() =~= pre);
            proof {
                lemma_count_greater_bound(pre, v as int);
                assert(pre.len() == i * len + j);
                assert(i * len + j < len * len) by (nonlinear_arith)
                    requires
                        i < len,
                        j < len,
                ;
            }
            inv = (inv + weights[v] % 2) % 2;
            if v == 0 {
                zero_row = i;
                proof {
                    lemma_pos_of_at(bv, i as int, j as int);
                }
            } else {
                proof {
                    lemma_pos_of_at(bv, i as int, j as int);
                }
            }
            let mut x: usize = 1;
            while x < v
                invariant
                    1 <= x,
                    v < n,
                    x <= v || v == 0,
                    weights@.len() == n,
                    weights@[0] == 0,
                    forall|y: int| 1 <= y < x ==> #[trigger] weights@[y] == count_greater(post, y),
                    forall|y: int| x <= y < n ==> #[trigger] weights@[y] == count_greater(pre, y),
                    pre.len() < n,
                    post.drop_last() == pre,
                    post.last() == v,
                    post.len() > 0,
                decreases v - x,
            {
                proof {
                    lemma_count_greater_bound(pre, x as int);
                }
                weights[x] = weights[x] + 1;
                x += 1;
            }
            proof {
                assert forall|y: int| 1 <= y < n implies #[trigger] weights@[y] == count_greater(post, y) by {
                    if y >= x {
                        assert(count_greater(post, y) == count_greater(pre, y));
                    }
                }
            }
            j += 1;
        }
        proof {
            assert(row_start + bv[i as int].take(len as int) =~= rows_flat(bv, i as int + 1));
            assert((i + 1) * len == i * len + len) by (nonlinear_arith);
        }
        i += 1;
    }
    (inv, zero_row)
}

/// Whether `board` cannot reach `goal` (the canonical goal of its size when
/// none is given). A board is never insoluble against itself.
pub fn insoluble(board: &Vec<Vec<usize>>, goal: Option<Vec<Vec<usize>>>) -> (r: bool)
    requires
        valid_board(board_view(*board)),
        match goal {
            Some(g) => is_permutation(board_view(g)) && board_view(g).len() == board_view(
                *board,
            ).len(),
            None => true,
        },
    ensures
        r == insoluble_spec(
            board_view(*board),
            match goal {
                Some(g) => board_view(g),
                None => spiral_goal(board_view(*board).len()),
            },
        ),
{
    let len = board.len();
    let goal = match goal {
        Some(g) => g,
        None => {
            proof {
                lemma_goal_is_permutation(len as nat);
            }
            construct_basic_goal(len)
        },
    };
    let (inv_board, zero_row_board) = inversion_parity(board);
    let (inv_goal, zero_row_goal) = inversion_parity(&goal);
    let row_parity = (zero_row_board + zero_row_goal) % 2;
    let even_side = (len + 1) % 2;
    assert(row_parity * even_side <= 1) by (nonlinear_arith)
        requires
            row_parity <= 1,
            even_side <= 1,
    ;
    let check = (inv_board + inv_goal + row_parity * even_side) % 2;
    check != 0
}

} // verus!
