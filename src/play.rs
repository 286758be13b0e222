//! Moves made by hand, replays of a solution route, and dealing a board.
use vstd::prelude::*;

use crate::board::{
    adjacent, blank_pos, board_view, in_grid, is_square, lemma_pos_of, lemma_pos_of_at,
    lemma_swap_keeps_permutation, step_to, swap_cells, valid_board, Direction, Pos,
};
use crate::solvability::rows_flat;

verus! {

/// How the tiles move between two consecutive cells of the blank's route.
#[derive(Clone, Copy, PartialEq, Eq, Structural, Debug)]
pub enum Slide {
    /// The blank went up: the tile above slid down.
    Down,
    /// The blank went down: the tile below slid up.
    Up,
    /// The blank went left: the tile on its left slid right.
    Right,
    /// The blank went right: the tile on its right slid left.
    Left,
    /// The two cells are not neighbours.
    Hop,
}

/// The slide that takes the blank from `a` to `b`.
pub open spec fn slide_spec(a: Pos, b: Pos) -> Slide {
    let dr = b.0 as int - a.0 as int;
    let dc = b.1 as int - a.1 as int;
    if dr == -1 && dc == 0 {
        Slide::Down
    } else if dr == 1 && dc == 0 {
        Slide::Up
    } else if dr == 0 && dc == -1 {
        Slide::Right
    } else if dr == 0 && dc == 1 {
        Slide::Left
    } else {
        Slide::Hop
    }
}

/// Names the slide that takes the blank from `a` to `b`.
pub fn slide_between(a: Pos, b: Pos) -> (r: Slide)
    ensures
        r == slide_spec(a, b),
        adjacent(a, b) <==> r != Slide::Hop,
{
    if b.1 == a.1 {
        if a.0 > 0 && b.0 == a.0 - 1 {
            return Slide::Down;
        }
        if b.0 > a.0 && b.0 - a.0 == 1 {
            return Slide::Up;
        }
    }
    if b.0 == a.0 {
        if a.1 > 0 && b.1 == a.1 - 1 {
            return Slide::Right;
        }
        if b.1 > a.1 && b.1 - a.1 == 1 {
            return Slide::Left;
        }
    }
    Slide::Hop
}

/// Moves the blank of `board`, which stands at `zero`, one cell in direction
/// `dir` when that cell is on the board; reports whether it moved.
pub fn slide_blank(board: &mut Vec<Vec<usize>>, zero: &mut Pos, dir: Direction) -> (moved: bool)
    requires
        valid_board(board_view(*old(board))),
        (old(zero).0 as int, old(zero).1 as int) == blank_pos(board_view(*old(board))),
    ensures
        moved == in_grid(
            board_view(*old(board)).len() as int,
            step_to(*old(zero), dir).0,
            step_to(*old(zero), dir).1,
        ),
        moved ==> board_view(*final(board)) == swap_cells(
            board_view(*old(board)),
            (old(zero).0 as int, old(zero).1 as int),
            step_to(*old(zero), dir),
        ) && (final(zero).0 as int, final(zero).1 as int) == step_to(*old(zero), dir),
        !moved ==> *final(board) == *old(board) && *final(zero) == *old(zero),
        valid_board(board_view(*final(board))),
        (final(zero).0 as int, final(zero).1 as int) == blank_pos(board_view(*final(board))),
{
    let ghost b0 = board_view(*board);
    let n = board.len();
    let curr = *zero;
    proof {
        assert(0 < n * n) by (nonlinear_arith)
            requires
                1 <= n,
        ;
        lemma_pos_of(b0, 0);
    }
    let legal = match dir {
        Direction::Up => curr.0 > 0,
        Direction::Down => curr.0 + 1 < n,
        Direction::Left => curr.1 > 0,
        Direction::Right => curr.1 + 1 < n,
    };
    if !legal {
        return false;
    }
    let next: Pos = match dir {
        Direction::Up => (curr.0 - 1, curr.1),
        Direction::Down => (curr.0 + 1, curr.1),
        Direction::Left => (curr.0, curr.1 - 1),
        Direction::Right => (curr.0, curr.1 + 1),
    };
    proof {
        assert(b0[curr.0 as int].len() == n);
        assert(b0[next.0 as int].len() == n);
    }
    let moved_tile = board[next.0][next.1];
    board[curr.0][curr.1] = moved_tile;
    board[next.0][next.1] = 0;
    *zero = next;
    proof {
        let p = (curr.0 as int, curr.1 as int);
        let q = (next.0 as int, next.1 as int);
        assert(board_view(*board) =~= swap_cells(b0, p, q));
        lemma_swap_keeps_permutation(b0, p, q);
        lemma_pos_of_at(board_view(*board), q.0, q.1);
    }
    true
}

/// Replays one move of a route: the tile at `to` slides into `from`, and
/// `to` becomes the blank.
pub fn apply_step(board: &mut Vec<Vec<usize>>, from: Pos, to: Pos)
    requires
        is_square(board_view(*old(board)), old(board)@.len() as int),
        in_grid(old(board)@.len() as int, from.0 as int, from.1 as int),
        in_grid(old(board)@.len() as int, to.0 as int, to.1 as int),
    ensures
        ({
            let b = board_view(*old(board));
            let b1 = b.update(from.0 as int, b[from.0 as int].update(from.1 as int, b[to.0 as int][to.1 as int]));
            board_view(*final(board)) == b1.update(to.0 as int, b1[to.0 as int].update(to.1 as int, 0usize))
        }),
{
    let ghost b = board_view(*board);
    proof {
        assert(b[from.0 as int].len() == b.len());
        assert(b[to.0 as int].len() == b.len());
    }
    let tile = board[to.0][to.1];
    board[from.0][from.1] = tile;
    board[to.0][to.1] = 0;
    proof {
        let b1 = b.update(from.0 as int, b[from.0 as int].update(from.1 as int, b[to.0 as int][to.1 as int]));
        assert(board_view(*board) =~= b1.update(to.0 as int, b1[to.0 as int].update(to.1 as int, 0usize)));
    }
}

/// Deals the labels of `arr` onto a `len`×`len` board, taking them from the
/// back: the board read row by row is `arr` reversed.
pub fn deal_board(arr: Vec<usize>, len: usize) -> (board: Vec<Vec<usize>>)
    requires
        arr@.len() == len * len,
    ensures
        is_square(board_view(board), len as int),
        rows_flat(board_view(board), len as int) == arr@.reverse(),
{
    let ghost a0 = arr@;
    let mut arr = arr;
    let mut out: Vec<Vec<usize>> = Vec::new();
    let mut i: usize = 0;
    while i < len
        invariant
            i <= len,
            a0.len() == len * len,
            out@.len() == i,
            forall|k: int| 0 <= k < i ==> #[trigger] out@[k]@.len() == len,
            arr@.len() == len * len - i * len,
            arr@ == a0.take(arr@.len() as int),
            rows_flat(board_view(out), i as int) == a0.reverse().take(i * len),
        decreases len - i,
    {
        proof {
            assert(len * len - i * len >= len) by (nonlinear_arith)
                requires
                    i < len,
            ;
        }
        let ghost arr_start = arr@;
        let mut row: Vec<usize> = Vec::new();
        let mut j: usize = 0;
        while j < len
            invariant
                j <= len,
                i < len,
                a0.len() == len * len,
                arr_start.len() == len * len - i * len,
                arr_start.len() >= len,
                arr_start == a0.take(arr_start.len() as int),
                arr@.len() == arr_start.len() - j,
                arr@ == arr_start.take(arr@.len() as int),
                row@.len() == j,
                forall|k: int| 0 <= k < j ==> #[trigger] row@[k] == arr_start[arr_start.len() - 1 - k],
            decreases len - j,
        {
            let v = arr.pop().unwrap();
            row.push(v);
            j += 1;
        }
        let ghost prev = board_view(out);
        out.push(row);
        proof {
            assert(board_view(out) =~= prev.push(row@));
            assert forall|a: int| 0 <= a < i implies rows_flat(board_view(out), a) == rows_flat(prev, a)
                by {
                lemma_rows_flat_prefix(prev, board_view(out), a);
            }
            lemma_rows_flat_prefix(prev, board_view(out), i as int);
            assert((i + 1) * len == i * len + len) by (nonlinear_arith);
            assert(rows_flat(board_view(out), i as int + 1) =~= a0.reverse().take((i + 1) * len));
        }
        i += 1;
    }
    proof {
        assert(len * len == len * len);
        assert(a0.reverse().take(len * len) =~= a0.reverse());
    }
    out
}

/// Rows `0..a` flatten alike in two boards that agree on them.
proof fn lemma_rows_flat_prefix(b1: Seq<Seq<usize>>, b2: Seq<Seq<usize>>, a: int)
    requires
        0 <= a <= b1.len(),
        a <= b2.len(),
        forall|k: int| 0 <= k < a ==> b1[k] == b2[k],
    ensures
        rows_flat(b1, a) == rows_flat(b2, a),
    decreases a,
{
    if a > 0 {
        lemma_rows_flat_prefix(b1, b2, a - 1);
    }
}

} // verus!
