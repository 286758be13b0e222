//! Boards: square grids of tile labels, one of them the blank (label 0).
use vstd::prelude::*;

verus! {

/// The largest side length the library handles: the cell count of a board
/// must fit a 32-bit index and every heuristic value must fit an `i64`.
pub const MAX_SIDE: usize = 65535;

/// A cell of a board, as (row, column).
pub type Pos = (usize, usize);

/// The direction in which the blank moves.
#[derive(Clone, Copy, PartialEq, Eq, Structural, Debug)]
pub enum Direction {
    Up,
    Down,
    Left,
    Right,
}

/// The mathematical view of a board: its rows, each as a sequence of labels.
pub open spec fn board_view(b: Vec<Vec<usize>>) -> Seq<Seq<usize>> {
    b@.map_values(|r: Vec<usize>| r@)
}

/// Cell (i, j) lies on an `n`×`n` grid.
pub open spec fn in_grid(n: int, i: int, j: int) -> bool {
    0 <= i < n && 0 <= j < n
}

/// Every row has `n` entries and there are `n` rows.
pub open spec fn is_square(b: Seq<Seq<usize>>, n: int) -> bool {
    &&& b.len() == n
    &&& forall|i: int| 0 <= i < n ==> #[trigger] b[i].len() == n
}

/// `b` is an `n`×`n` grid holding each label `0..n*n` exactly once.
pub open spec fn is_permutation(b: Seq<Seq<usize>>) -> bool {
    let n = b.len() as int;
    &&& is_square(b, n)
    &&& forall|i: int, j: int| in_grid(n, i, j) ==> #[trigger] b[i][j] < n * n
    &&& forall|i1: int, j1: int, i2: int, j2: int|
        in_grid(n, i1, j1) && in_grid(n, i2, j2) && #[trigger] b[i1][j1] == #[trigger] b[i2][j2]
            ==> i1 == i2 && j1 == j2
    &&& forall|v: int| 0 <= v < n * n ==> #[trigger] has_label(b, v)
}

/// Some cell of `b` holds the label `v`.
pub open spec fn has_label(b: Seq<Seq<usize>>, v: int) -> bool {
    exists|i: int, j: int| in_grid(b.len() as int, i, j) && b[i][j] == v
}

/// A board the library accepts: a permutation of a size it can handle.
pub open spec fn valid_board(b: Seq<Seq<usize>>) -> bool {
    &&& is_permutation(b)
    &&& 1 <= b.len() <= MAX_SIDE
}

/// The cell of `b` that holds label `v`.
pub open spec fn pos_of(b: Seq<Seq<usize>>, v: int) -> (int, int) {
    choose|p: (int, int)| in_grid(b.len() as int, p.0, p.1) && b[p.0][p.1] == v
}

/// The cell holding the blank.
pub open spec fn blank_pos(b: Seq<Seq<usize>>) -> (int, int) {
    pos_of(b, 0)
}

/// The distance between two integers.
pub open spec fn abs_diff(a: int, b: int) -> int {
    if a >= b {
        a - b
    } else {
        b - a
    }
}

/// Two cells share an edge of the grid.
pub open spec fn adjacent(p: Pos, q: Pos) -> bool {
    abs_diff(p.0 as int, q.0 as int) + abs_diff(p.1 as int, q.1 as int) == 1
}

/// Where the blank goes when it moves one cell in direction `d` from `p`.
pub open spec fn step_to(p: Pos, d: Direction) -> (int, int) {
    match d {
        Direction::Up => (p.0 - 1, p.1 as int),
        Direction::Down => (p.0 + 1, p.1 as int),
        Direction::Left => (p.0 as int, p.1 - 1),
        Direction::Right => (p.0 as int, p.1 + 1),
    }
}

/// The board after swapping the contents of cells `p` and `q`.
pub open spec fn swap_cells(b: Seq<Seq<usize>>, p: (int, int), q: (int, int)) -> Seq<Seq<usize>> {
    let vp = b[p.0][p.1];
    let vq = b[q.0][q.1];
    let b1 = b.update(p.0, b[p.0].update(p.1, vq));
    b1.update(q.0, b1[q.0].update(q.1, vp))
}

/// When `b` is a permutation, the label `v < n*n` stands at `pos_of(b, v)`, and
/// nowhere else.
pub proof fn lemma_pos_of(b: Seq<Seq<usize>>, v: int)
    requires
        is_permutation(b),
        0 <= v < b.len() * b.len(),
    ensures
        in_grid(b.len() as int, pos_of(b, v).0, pos_of(b, v).1),
        b[pos_of(b, v).0][pos_of(b, v).1] == v,
        forall|i: int, j: int|
            in_grid(b.len() as int, i, j) && b[i][j] == v ==> i == pos_of(b, v).0 && j
                == pos_of(b, v).1,
{
    assert(has_label(b, v));
    let (i, j) = choose|i: int, j: int| in_grid(b.len() as int, i, j) && b[i][j] == v;
    assert(in_grid(b.len() as int, (i, j).0, (i, j).1) && b[(i, j).0][(i, j).1] == v);
}

/// The cell that holds label `v` in a permutation is the one where it is found.
pub proof fn lemma_pos_of_at(b: Seq<Seq<usize>>, i: int, j: int)
    requires
        is_permutation(b),
        in_grid(b.len() as int, i, j),
    ensures
        pos_of(b, b[i][j] as int) == (i, j),
{
    lemma_pos_of(b, b[i][j] as int);
}

/// Swapping two cells of a permutation gives a permutation.
pub proof fn lemma_swap_keeps_permutation(b: Seq<Seq<usize>>, p: (int, int), q: (int, int))
    requires
        is_permutation(b),
        in_grid(b.len() as int, p.0, p.1),
        in_grid(b.len() as int, q.0, q.1),
    ensures
        is_permutation(swap_cells(b, p, q)),
{
    let n = b.len() as int;
    let s = swap_cells(b, p, q);
    // where each cell of `s` took its label from
    let src = |i: int, j: int|
        if i == q.0 && j == q.1 {
            p
        } else if i == p.0 && j == p.1 {
            q
        } else {
            (i, j)
        };
    assert forall|i: int| 0 <= i < n implies #[trigger] s[i].len() == n by {}
    assert forall|i: int, j: int| in_grid(n, i, j) implies #[trigger] s[i][j] == b[src(i, j).0][src(
        i,
        j,
    ).1] by {}
    assert forall|i: int, j: int| in_grid(n, i, j) implies #[trigger] s[i][j] < n * n by {
        assert(s[i][j] == b[src(i, j).0][src(i, j).1]);
    }
    assert forall|i1: int, j1: int, i2: int, j2: int|
        in_grid(n, i1, j1) && in_grid(n, i2, j2) && #[trigger] s[i1][j1] == #[trigger] s[i2][j2]
        implies i1 == i2 && j1 == j2 by {
        assert(s[i1][j1] == b[src(i1, j1).0][src(i1, j1).1]);
        assert(s[i2][j2] == b[src(i2, j2).0][src(i2, j2).1]);
    }
    assert forall|v: int| 0 <= v < n * n implies #[trigger] has_label(s, v) by {
        assert(has_label(b, v));
        let (i, j) = choose|i: int, j: int| in_grid(n, i, j) && b[i][j] == v;
        let t = if i == p.0 && j == p.1 {
            q
        } else if i == q.0 && j == q.1 {
            p
        } else {
            (i, j)
        };
        assert(s[t.0][t.1] == b[src(t.0, t.1).0][src(t.0, t.1).1]);
        let (ti, tj) = t;
        assert(s.len() == n);
        assert(in_grid(s.len() as int, ti, tj) && s[ti][tj] == v);
    }
}

/// Deep equality of two boards.
pub fn boards_equal(a: &Vec<Vec<usize>>, b: &Vec<Vec<usize>>) -> (r: bool)
    ensures
        r == (board_view(*a) == board_view(*b)),
{
    if a.len() != b.len() {
        proof {
            assert(board_view(*a).len() != board_view(*b).len());
        }
        return false;
    }
    let mut i: usize = 0;
    while i < a.len()
        invariant
            a.len() == b.len(),
            i <= a.len(),
            forall|k: int| 0 <= k < i ==> a@[k]@ == b@[k]@,
        decreases a.len() - i,
    {
        if a[i].len() != b[i].len() {
            proof {
                assert(board_view(*a)[i as int] != board_view(*b)[i as int]);
            }
            return false;
        }
        let mut j: usize = 0;
        while j < a[i].len()
            invariant
                a.len() == b.len(),
                i < a.len(),
                a@[i as int].len() == b@[i as int].len(),
                j <= a@[i as int].len(),
                forall|k: int| 0 <= k < j ==> a@[i as int]@[k] == b@[i as int]@[k],
            decreases a@[i as int].len() - j,
        {
            if a[i][j] != b[i][j] {
                proof {
                    assert(board_view(*a)[i as int][j as int] != board_view(*b)[i as int][j as int]);
                }
                return false;
            }
            j += 1;
        }
        proof {
            assert(a@[i as int]@ =~= b@[i as int]@);
        }
        i += 1;
    }
    proof {
        assert(board_view(*a) =~= board_view(*b));
    }
    true
}


/// A copy of `b`, row by row.
pub fn clone_board(b: &Vec<Vec<usize>>) -> (r: Vec<Vec<usize>>)
    ensures
        board_view(r) == board_view(*b),
{
    let mut r: Vec<Vec<usize>> = Vec::new();
    let mut i: usize = 0;
    while i < b.len()
        invariant
            i <= b@.len(),
            r@.len() == i,
            forall|k: int| 0 <= k < i ==> #[trigger] r@[k]@ == b@[k]@,
        decreases b@.len() - i,
    {
        let mut row: Vec<usize> = Vec::new();
        let mut j: usize = 0;
        while j < b[i].len()
            invariant
                i < b@.len(),
                j <= b@[i as int]@.len(),
                row@ == b@[i as int]@.take(j as int),
            decreases b@[i as int]@.len() - j,
        {
            row.push(b[i][j]);
            j += 1;
            proof {
                assert(row@ =~= b@[i as int]@.take(j as int));
            }
        }
        proof {
            assert(row@ =~= b@[i as int]@);
        }
        r.push(row);
        i += 1;
    }
    proof {
        assert(board_view(r) =~= board_view(*b));
    }
    r
}

/// A copy of a sequence of cells.
pub fn clone_path(p: &Vec<Pos>) -> (r: Vec<Pos>)
    ensures
        r@ == p@,
{
    let mut r: Vec<Pos> = Vec::new();
    let mut i: usize = 0;
    while i < p.len()
        invariant
            i <= p@.len(),
            r@ == p@.take(i as int),
        decreases p@.len() - i,
    {
        r.push(p[i]);
        i += 1;
        proof {
            assert(r@ =~= p@.take(i as int));
        }
    }
    proof {
        assert(r@ =~= p@);
    }
    r
}

/// The cell of the blank, found by a row-major scan.
pub fn find_blank(board: &Vec<Vec<usize>>) -> (p: Pos)
    requires
        valid_board(board_view(*board)),
    ensures
        (p.0 as int, p.1 as int) == blank_pos(board_view(*board)),
        in_grid(board_view(*board).len() as int, p.0 as int, p.1 as int),
{
    let ghost bv = board_view(*board);
    proof {
        assert(0 < bv.len() * bv.len()) by (nonlinear_arith)
            requires
                1 <= bv.len(),
        ;
        lemma_pos_of(bv, 0);
    }
    let ghost bp = blank_pos(bv);
    let mut i: usize = 0;
    while i < board.len()
        invariant
            bv == board_view(*board),
            valid_board(bv),
            in_grid(bv.len() as int, bp.0, bp.1),
            bv[bp.0][bp.1] == 0,
            bp == blank_pos(bv),
            forall|a: int, c: int| in_grid(bv.len() as int, a, c) && bv[a][c] == 0 ==> a == bp.0 && c == bp.1,
            i <= bp.0,
        decreases board@.len() - i,
    {
        let mut j: usize = 0;
        assert(bv[i as int].len() == bv.len());
        while j < board[i].len()
            invariant
                bv == board_view(*board),
                valid_board(bv),
                i < bv.len(),
                bv[i as int].len() == bv.len(),
                in_grid(bv.len() as int, bp.0, bp.1),
                bv[bp.0][bp.1] == 0,
                bp == blank_pos(bv),
                forall|a: int, c: int| in_grid(bv.len() as int, a, c) && bv[a][c] == 0 ==> a == bp.0 && c == bp.1,
                i <= bp.0,
                i == bp.0 ==> j <= bp.1,
            decreases bv[i as int].len() - j,
        {
            if board[i][j] == 0 {
                return (i, j);
            }
            j += 1;
        }
        i += 1;
    }
    (0, 0)
}

} // verus!
