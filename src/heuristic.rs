//! Estimates of the distance from a board to the goal.
use vstd::prelude::*;

use crate::board::{abs_diff, board_view, in_grid, lemma_pos_of, pos_of, valid_board, Pos, MAX_SIDE};

verus! {

/// The heuristic that scores a board.
#[derive(Clone, Copy, PartialEq, Eq, Structural, Debug)]
pub enum Heuristic {
    Hamming,
    Manhattan,
    OutOfLine,
    Nilsson,
    Custom,
}

/// An upper bound on every heuristic value of a board the library accepts.
pub const H_BOUND: i64 = 0x40_0000_0000_0000;

/// The goal's cells that hold another label than the board's, in row `r` up to column `j`.
pub open spec fn row_mismatches(r1: Seq<usize>, r2: Seq<usize>, j: int) -> int
    decreases j,
{
    if j <= 0 {
        0
    } else {
        row_mismatches(r1, r2, j - 1) + (if r1[j - 1] != r2[j - 1] {
            1int
        } else {
            0
        })
    }
}

/// The mismatched cells in rows `0..i`.
pub open spec fn hamming_upto(b: Seq<Seq<usize>>, g: Seq<Seq<usize>>, i: int) -> int
    decreases i,
{
    if i <= 0 {
        0
    } else {
        hamming_upto(b, g, i - 1) + row_mismatches(b[i - 1], g[i - 1], g.len() as int)
    }
}

/// Hamming: the number of cells whose label differs from the goal's.
pub open spec fn hamming(b: Seq<Seq<usize>>, g: Seq<Seq<usize>>) -> int {
    hamming_upto(b, g, g.len() as int)
}

/// How many rows plus columns label `v` is away from its goal cell.
pub open spec fn label_dist(b: Seq<Seq<usize>>, g: Seq<Seq<usize>>, v: int) -> int {
    abs_diff(pos_of(b, v).0, pos_of(g, v).0) + abs_diff(pos_of(b, v).1, pos_of(g, v).1)
}

/// The Manhattan distances of labels `0..k`.
pub open spec fn manhattan_upto(b: Seq<Seq<usize>>, g: Seq<Seq<usize>>, k: int) -> int
    decreases k,
{
    if k <= 0 {
        0
    } else {
        manhattan_upto(b, g, k - 1) + label_dist(b, g, k - 1)
    }
}

/// Manhattan: the sum over all labels, the blank included, of the distance
/// to the label's goal cell.
pub open spec fn manhattan(b: Seq<Seq<usize>>, g: Seq<Seq<usize>>) -> int {
    manhattan_upto(b, g, (g.len() * g.len()) as int)
}

/// 0 when label `v` is in its goal row and column, 1 when in one of them, 2 otherwise.
pub open spec fn line_misses(b: Seq<Seq<usize>>, g: Seq<Seq<usize>>, v: int) -> int {
    (if pos_of(b, v).0 != pos_of(g, v).0 {
        1int
    } else {
        0
    }) + (if pos_of(b, v).1 != pos_of(g, v).1 {
        1int
    } else {
        0
    })
}

/// The out-of-line scores of labels `0..k`.
pub open spec fn out_of_line_upto(b: Seq<Seq<usize>>, g: Seq<Seq<usize>>, k: int) -> int
    decreases k,
{
    if k <= 0 {
        0
    } else {
        out_of_line_upto(b, g, k - 1) + line_misses(b, g, k - 1)
    }
}

/// Out-of-line: the sum over all labels of `line_misses`.
pub open spec fn out_of_line(b: Seq<Seq<usize>>, g: Seq<Seq<usize>>) -> int {
    out_of_line_upto(b, g, (g.len() * g.len()) as int)
}

/// Custom: ten times the Manhattan sum.
pub open spec fn custom(b: Seq<Seq<usize>>, g: Seq<Seq<usize>>) -> int {
    10 * manhattan(b, g)
}

/// The tile at `c` is neither the blank nor the last label, and the tile at
/// `next` does not carry its successor.
pub open spec fn breaks_chain(b: Seq<Seq<usize>>, c: (int, int), next: (int, int)) -> bool {
    let n2 = b.len() * b.len();
    let v = b[c.0][c.1];
    v != 0 && v != n2 - 1 && v + 1 != b[next.0][next.1]
}

/// The penalty of the four ring cells at top-edge position `j` of ring `i`:
/// 6 for each (top, right, bottom) whose clockwise neighbour breaks the chain,
/// and for the left edge only on the ring of index `(len - 1) / 2`.
pub open spec fn ring_step_penalty(b: Seq<Seq<usize>>, i: int, j: int) -> int {
    let len = b.len() as int;
    (if breaks_chain(b, (i, j), (i, j + 1)) {
        6int
    } else {
        0
    }) + (if breaks_chain(b, (j, len - i - 1), (j + 1, len - i - 1)) {
        6int
    } else {
        0
    }) + (if breaks_chain(b, (len - i - 1, len - j - 1), (len - i - 1, len - j - 2)) {
        6int
    } else {
        0
    }) + (if breaks_chain(b, (len - j - 1, i), (len - j - 2, i)) && i == (len - 1) / 2 {
        6int
    } else {
        0
    })
}

/// The penalties of ring `i` at top-edge positions `i..j`.
pub open spec fn ring_penalty_upto(b: Seq<Seq<usize>>, i: int, j: int) -> int
    decreases j - i,
{
    if j <= i {
        0
    } else {
        ring_penalty_upto(b, i, j - 1) + ring_step_penalty(b, i, j - 1)
    }
}

/// The penalties of rings `0..i`.
pub open spec fn rings_penalty_upto(b: Seq<Seq<usize>>, i: int) -> int
    decreases i,
{
    if i <= 0 {
        0
    } else {
        rings_penalty_upto(b, i - 1) + ring_penalty_upto(b, i - 1, b.len() - (i - 1) - 1)
    }
}

/// The sequence score: the ring penalties, plus 3 when the middle cell is not the blank.
pub open spec fn sequence_penalty(b: Seq<Seq<usize>>) -> int {
    let len = b.len() as int;
    rings_penalty_upto(b, len / 2) + (if b[len / 2][(len - 1) / 2] != 0 {
        3int
    } else {
        0
    })
}

/// Nilsson: the Manhattan sum plus the sequence score.
pub open spec fn nilsson(b: Seq<Seq<usize>>, g: Seq<Seq<usize>>) -> int {
    manhattan(b, g) + sequence_penalty(b)
}

/// The value of heuristic `heur` on board `b` against goal `g`.
pub open spec fn heuristic_value(heur: Heuristic, b: Seq<Seq<usize>>, g: Seq<Seq<usize>>) -> int {
    match heur {
        Heuristic::Hamming => hamming(b, g),
        Heuristic::Manhattan => manhattan(b, g),
        Heuristic::OutOfLine => out_of_line(b, g),
        Heuristic::Nilsson => nilsson(b, g),
        Heuristic::Custom => custom(b, g),
    }
}

/// Two boards of the same size, both permutations the library accepts.
pub open spec fn comparable(b: Seq<Seq<usize>>, g: Seq<Seq<usize>>) -> bool {
    &&& valid_board(b)
    &&& valid_board(g)
    &&& b.len() == g.len()
}

// ---------------------------------------------------------------------------
// bounds
proof fn lemma_row_mismatches_bound(r1: Seq<usize>, r2: Seq<usize>, j: int)
    requires
        j >= 0,
    ensures
        0 <= row_mismatches(r1, r2, j) <= j,
    decreases j,
{
    if j > 0 {
        lemma_row_mismatches_bound(r1, r2, j - 1);
    }
}

proof fn lemma_hamming_bound(b: Seq<Seq<usize>>, g: Seq<Seq<usize>>, i: int)
    requires
        i >= 0,
    ensures
        0 <= hamming_upto(b, g, i) <= i * g.len(),
    decreases i,
{
    if i > 0 {
        lemma_hamming_bound(b, g, i - 1);
        lemma_row_mismatches_bound(b[i - 1], g[i - 1], g.len() as int);
        assert((i - 1) * g.len() + g.len() == i * g.len()) by (nonlinear_arith);
    }
}

proof fn lemma_label_dist_bound(b: Seq<Seq<usize>>, g: Seq<Seq<usize>>, v: int)
    requires
        comparable(b, g),
        0 <= v < g.len() * g.len(),
    ensures
        0 <= label_dist(b, g, v) <= 2 * g.len(),
        0 <= line_misses(b, g, v) <= 2,
{
    lemma_pos_of(b, v);
    lemma_pos_of(g, v);
}

proof fn lemma_manhattan_bound(b: Seq<Seq<usize>>, g: Seq<Seq<usize>>, k: int)
    requires
        comparable(b, g),
        0 <= k <= g.len() * g.len(),
    ensures
        0 <= manhattan_upto(b, g, k) <= k * (2 * g.len()),
        0 <= out_of_line_upto(b, g, k) <= 2 * k,
    decreases k,
{
    if k > 0 {
        lemma_manhattan_bound(b, g, k - 1);
        lemma_label_dist_bound(b, g, k - 1);
        let m = 2 * g.len();
        assert((k - 1) * m + m == k * m) by (nonlinear_arith);
    }
}

/// `n * n * 2n` and smaller products of a side within bounds stay far below `H_BOUND`.
proof fn lemma_side_products(n: int)
    requires
        0 <= n <= MAX_SIDE,
    ensures
        n * n <= MAX_SIDE * MAX_SIDE,
        n * n * (2 * n) <= 562924184010750,
{
    assert(n * n <= MAX_SIDE * MAX_SIDE) by (nonlinear_arith)
        requires
            0 <= n <= MAX_SIDE,
    ;
    assert(n * n * (2 * n) <= 562924184010750) by (nonlinear_arith)
        requires
            0 <= n <= 65535,
            n * n <= 65535 * 65535,
    {
        assert((n * n) * (2 * n) <= (65535 * 65535) * (2 * n));
        assert((65535 * 65535) * (2 * n) <= (65535 * 65535) * (2 * 65535));
    }
}

proof fn lemma_ring_penalty_bound(b: Seq<Seq<usize>>, i: int, j: int)
    ensures
        0 <= ring_penalty_upto(b, i, j),
        j >= i ==> ring_penalty_upto(b, i, j) <= 24 * (j - i),
    decreases j - i,
{
    if j > i {
        lemma_ring_penalty_bound(b, i, j - 1);
    }
}

proof fn lemma_rings_penalty_bound(b: Seq<Seq<usize>>, i: int)
    requires
        0 <= i,
        2 * i <= b.len(),
    ensures
        0 <= rings_penalty_upto(b, i) <= 24 * i * b.len(),
    decreases i,
{
    if i > 0 {
        lemma_rings_penalty_bound(b, i - 1);
        lemma_ring_penalty_bound(b, i - 1, b.len() - (i - 1) - 1);
        assert(24 * (i - 1) * b.len() + 24 * b.len() == 24 * i * b.len()) by (nonlinear_arith);
    }
}

/// Every heuristic is non-negative and below `H_BOUND`.
pub proof fn lemma_heuristic_bound(heur: Heuristic, b: Seq<Seq<usize>>, g: Seq<Seq<usize>>)
    requires
        comparable(b, g),
    ensures
        0 <= heuristic_value(heur, b, g) < H_BOUND,
{
    let n = g.len() as int;
    lemma_side_products(n);
    lemma_manhattan_bound(b, g, n * n);
    lemma_hamming_bound(b, g, n);
    lemma_rings_penalty_bound(b, n / 2);
    assert(24 * (n / 2) * n <= 24 * (n * n)) by (nonlinear_arith)
        requires
            0 <= n,
    ;
    let m = manhattan(b, g);
    assert(0 <= m <= 562924184010750);
    assert(0 <= hamming(b, g) <= 65535 * 65535);
    assert(0 <= out_of_line(b, g) <= 2 * (65535 * 65535));
    assert(0 <= sequence_penalty(b) <= 24 * (65535 * 65535) + 3);
}

// ---------------------------------------------------------------------------
// computation

/// For each label `v`, the cell of `b` that holds it.
fn positions(b: &Vec<Vec<usize>>) -> (t: Vec<Pos>)
    requires
        valid_board(board_view(*b)),
    ensures
        t@.len() == b@.len() * b@.len(),
        forall|v: int|
            0 <= v < t@.len() ==> (#[trigger] t@[v]).0 == pos_of(board_view(*b), v).0 && t@[v].1
                == pos_of(board_view(*b), v).1,
{
    let ghost bv = board_view(*b);
    let len = b.len();
    proof {
        lemma_side_products(len as int);
    }
    let n = len * len;
    let mut t: Vec<Pos> = Vec::new();
    let mut k: usize = 0;
    while k < n
        invariant
            k <= n,
            t@.len() == k,
        decreases n - k,
    {
        t.push((0, 0));
        k += 1;
    }
    let mut i: usize = 0;
    while i < len
        invariant
            bv == board_view(*b),
            valid_board(bv),
            len == bv.len(),
            n == len * len,
            i <= len,
            t@.len() == n,
            forall|a: int, c: int|
                0 <= a < i && 0 <= c < len ==> t@[bv[a][c] as int] == (a as usize, c as usize),
        decreases len - i,
    {
        let mut j: usize = 0;
        while j < len
            invariant
                bv == board_view(*b),
                valid_board(bv),
                len == bv.len(),
                n == len * len,
                i < len,
                j <= len,
                t@.len() == n,
                forall|a: int, c: int|
                    (0 <= a < i && 0 <= c < len) || (a == i && 0 <= c < j) ==> t@[bv[a][c] as int]
                        == (a as usize, c as usize),
            decreases len - j,
        {
            assert(in_grid(len as int, i as int, j as int));
            assert(bv[i as int].len() == len);
            assert(bv[i as int][j as int] < len * len);
            let v = b[i][j];
            t.set(v, (i, j));
            j += 1;
        }
        i += 1;
    }
    proof {
        assert forall|v: int| 0 <= v < t@.len() implies (#[trigger] t@[v]).0 == pos_of(bv, v).0
            && t@[v].1 == pos_of(bv, v).1 by {
            lemma_pos_of(bv, v);
            let p = pos_of(bv, v);
            assert(t@[bv[p.0][p.1] as int] == (p.0 as usize, p.1 as usize));
        }
    }
    t
}

fn usize_diff(a: usize, b: usize) -> (r: usize)
    ensures
        r == abs_diff(a as int, b as int),
{
    if a >= b {
        a - b
    } else {
        b - a
    }
}

/// The Hamming value of `b` against `g`.
pub fn hamming_of(b: &Vec<Vec<usize>>, g: &Vec<Vec<usize>>) -> (h: i64)
    requires
        comparable(board_view(*b), board_view(*g)),
    ensures
        h == hamming(board_view(*b), board_view(*g)),
{
    let ghost bv = board_view(*b);
    let ghost gv = board_view(*g);
    let n = g.len();
    proof {
        lemma_side_products(n as int);
        lemma_hamming_bound(bv, gv, n as int);
    }
    let mut h: i64 = 0;
    let mut i: usize = 0;
    while i < n
        invariant
            bv == board_view(*b),
            gv == board_view(*g),
            comparable(bv, gv),
            n == gv.len(),
            n * n <= MAX_SIDE * MAX_SIDE,
            i <= n,
            h == hamming_upto(bv, gv, i as int),
        decreases n - i,
    {
        proof {
            lemma_hamming_bound(bv, gv, i as int + 1);
            assert((i + 1) * n <= n * n) by (nonlinear_arith)
                requires
                    i < n,
            ;
        }
        let mut j: usize = 0;
        while j < n
            invariant
                bv == board_view(*b),
                gv == board_view(*g),
                comparable(bv, gv),
                n == gv.len(),
                n * n <= MAX_SIDE * MAX_SIDE,
                i < n,
                j <= n,
                h == hamming_upto(bv, gv, i as int) + row_mismatches(bv[i as int], gv[i as int], j as int),
                hamming_upto(bv, gv, i as int + 1) <= n * n,
            decreases n - j,
        {
            proof {
                lemma_row_mismatches_bound(bv[i as int], gv[i as int], j as int + 1);
                lemma_row_mismatches_bound(bv[i as int], gv[i as int], n as int);
                lemma_hamming_bound(bv, gv, i as int);
                assert(row_mismatches(bv[i as int], gv[i as int], j as int + 1) <= row_mismatches(bv[i as int], gv[i as int], n as int)) by {
                    lemma_row_mismatches_mono(bv[i as int], gv[i as int], j as int + 1, n as int);
                }
            }
            if b[i][j] != g[i][j] {
                h += 1;
            }
            j += 1;
        }
        i += 1;
    }
    h
}

/// The Manhattan value of `b` against `g`.
pub fn manhattan_of(b: &Vec<Vec<usize>>, g: &Vec<Vec<usize>>) -> (h: i64)
    requires
        comparable(board_view(*b), board_view(*g)),
    ensures
        h == manhattan(board_view(*b), board_view(*g)),
{
    let ghost bv = board_view(*b);
    let ghost gv = board_view(*g);
    let len = g.len();
    proof {
        lemma_side_products(len as int);
    }
    let n = len * len;
    let bdp = positions(b);
    let glp = positions(g);
    let mut h: i64 = 0;
    let mut i: usize = 0;
    while i < n
        invariant
            comparable(bv, gv),
            len == gv.len(),
            n == len * len,
            n * (2 * len) <= 562924184010750,
            bdp@.len() == n,
            glp@.len() == n,
            forall|v: int|
                0 <= v < n ==> (#[trigger] bdp@[v]).0 == pos_of(bv, v).0 && bdp@[v].1 == pos_of(
                    bv,
                    v,
                ).1,
            forall|v: int|
                0 <= v < n ==> (#[trigger] glp@[v]).0 == pos_of(gv, v).0 && glp@[v].1 == pos_of(
                    gv,
                    v,
                ).1,
            i <= n,
            h == manhattan_upto(bv, gv, i as int),
        decreases n - i,
    {
        proof {
            lemma_manhattan_bound(bv, gv, i as int + 1);
            assert((i + 1) * (2 * len) <= n * (2 * len)) by (nonlinear_arith)
                requires
                    i < n,
            ;
            lemma_pos_of(bv, i as int);
            lemma_pos_of(gv, i as int);
        }
        h = h + usize_diff(bdp[i].0, glp[i].0) as i64;
        h = h + usize_diff(bdp[i].1, glp[i].1) as i64;
        i += 1;
    }
    h
}

/// The out-of-line value of `b` against `g`.
pub fn out_of_line_of(b: &Vec<Vec<usize>>, g: &Vec<Vec<usize>>) -> (h: i64)
    requires
        comparable(board_view(*b), board_view(*g)),
    ensures
        h == out_of_line(board_view(*b), board_view(*g)),
{
    let ghost bv = board_view(*b);
    let ghost gv = board_view(*g);
    let len = g.len();
    proof {
        lemma_side_products(len as int);
    }
    let n = len * len;
    let bdp = positions(b);
    let glp = positions(g);
    let mut h: i64 = 0;
    let mut i: usize = 0;
    while i < n
        invariant
            comparable(bv, gv),
            len == gv.len(),
            n == len * len,
            n <= 65535 * 65535,
            bdp@.len() == n,
            glp@.len() == n,
            forall|v: int|
                0 <= v < n ==> (#[trigger] bdp@[v]).0 == pos_of(bv, v).0 && bdp@[v].1 == pos_of(
                    bv,
                    v,
                ).1,
            forall|v: int|
                0 <= v < n ==> (#[trigger] glp@[v]).0 == pos_of(gv, v).0 && glp@[v].1 == pos_of(
                    gv,
                    v,
                ).1,
            i <= n,
            h == out_of_line_upto(bv, gv, i as int),
        decreases n - i,
    {
        proof {
            lemma_manhattan_bound(bv, gv, i as int + 1);
        }
        let same_row = bdp[i].0 == glp[i].0;
        let same_col = bdp[i].1 == glp[i].1;
        h = h + if same_row && same_col {
            0
        } else if same_row || same_col {
            1
        } else {
            2
        };
        i += 1;
    }
    h
}

/// The custom value of `b` against `g`: ten times each label's Manhattan distance.
pub fn custom_of(b: &Vec<Vec<usize>>, g: &Vec<Vec<usize>>) -> (h: i64)
    requires
        comparable(board_view(*b), board_view(*g)),
    ensures
        h == custom(board_view(*b), board_view(*g)),
{
    let ghost bv = board_view(*b);
    let ghost gv = board_view(*g);
    let len = g.len();
    proof {
        lemma_side_products(len as int);
    }
    let n = len * len;
    let bdp = positions(b);
    let glp = positions(g);
    let mut h: i64 = 0;
    let mut i: usize = 0;
    while i < n
        invariant
            comparable(bv, gv),
            len == gv.len(),
            n == len * len,
            n * (2 * len) <= 562924184010750,
            bdp@.len() == n,
            glp@.len() == n,
            forall|v: int|
                0 <= v < n ==> (#[trigger] bdp@[v]).0 == pos_of(bv, v).0 && bdp@[v].1 == pos_of(
                    bv,
                    v,
                ).1,
            forall|v: int|
                0 <= v < n ==> (#[trigger] glp@[v]).0 == pos_of(gv, v).0 && glp@[v].1 == pos_of(
                    gv,
                    v,
                ).1,
            i <= n,
            h == 10 * manhattan_upto(bv, gv, i as int),
        decreases n - i,
    {
        proof {
            lemma_manhattan_bound(bv, gv, i as int + 1);
            assert((i + 1) * (2 * len) <= n * (2 * len)) by (nonlinear_arith)
                requires
                    i < n,
            ;
            lemma_pos_of(bv, i as int);
            lemma_pos_of(gv, i as int);
        }
        let tmp = usize_diff(bdp[i].0, glp[i].0) as i64 + usize_diff(bdp[i].1, glp[i].1) as i64;
        h = h + 10 * tmp;
        i += 1;
    }
    h
}

/// Whether the tile at `c` breaks the clockwise chain towards `next`.
fn chain_breaks(b: &Vec<Vec<usize>>, c: Pos, next: Pos) -> (r: bool)
    requires
        valid_board(board_view(*b)),
        in_grid(b@.len() as int, c.0 as int, c.1 as int),
        in_grid(b@.len() as int, next.0 as int, next.1 as int),
    ensures
        r == breaks_chain(board_view(*b), (c.0 as int, c.1 as int), (next.0 as int, next.1 as int)),
{
    let ghost bv = board_view(*b);
    let len = b.len();
    proof {
        lemma_side_products(len as int);
        assert(bv[c.0 as int].len() == len);
        assert(bv[next.0 as int].len() == len);
        assert(bv[c.0 as int][c.1 as int] < len * len);
    }
    let n = len * len;
    let v = b[c.0][c.1];
    v != 0 && v != n - 1 && v + 1 != b[next.0][next.1]
}

/// The Nilsson value of `b` against `g`.
pub fn nilsson_of(b: &Vec<Vec<usize>>, g: &Vec<Vec<usize>>) -> (h: i64)
    requires
        comparable(board_view(*b), board_view(*g)),
    ensures
        h == nilsson(board_view(*b), board_view(*g)),
{
    let ghost bv = board_view(*b);
    let ghost gv = board_view(*g);
    let len = g.len();
    proof {
        lemma_side_products(len as int);
        lemma_manhattan_bound(bv, gv, (len * len) as int);
    }
    let mut h = manhattan_of(b, g);
    let mut i: usize = 0;
    while i < len / 2
        invariant
            comparable(bv, gv),
            bv == board_view(*b),
            len == gv.len(),
            len * len <= 65535 * 65535,
            0 <= manhattan(bv, gv) <= 562924184010750,
            i <= len / 2,
            h == manhattan(bv, gv) + rings_penalty_upto(bv, i as int),
        decreases len / 2 - i,
    {
        let mut j: usize = i;
        while j < len - i - 1
            invariant
                comparable(bv, gv),
                bv == board_view(*b),
                len == gv.len(),
                len * len <= 65535 * 65535,
                0 <= manhattan(bv, gv) <= 562924184010750,
                i < len / 2,
                i <= j <= len - i - 1,
                h == manhattan(bv, gv) + rings_penalty_upto(bv, i as int) + ring_penalty_upto(
                    bv,
                    i as int,
                    j as int,
                ),
            decreases len - i - 1 - j,
        {
            proof {
                lemma_rings_penalty_bound(bv, i as int);
                lemma_ring_penalty_bound(bv, i as int, j as int + 1);
                assert(24 * i * len <= 24 * (65535 * 65535)) by (nonlinear_arith)
                    requires
                        i <= len,
                        len * len <= 65535 * 65535,
                ;
            }
            let mut p: i64 = 0;
            if chain_breaks(b, (i, j), (i, j + 1)) {
                p = p + 6;
            }
            if chain_breaks(b, (j, len - i - 1), (j + 1, len - i - 1)) {
                p = p + 6;
            }
            if chain_breaks(b, (len - i - 1, len - j - 1), (len - i - 1, len - j - 2)) {
                p = p + 6;
            }
            if chain_breaks(b, (len - j - 1, i), (len - j - 2, i)) {
                if i == (len - 1) / 2 {
                    p = p + 6;
                }
            }
            h = h + p;
            j += 1;
        }
        i += 1;
    }
    proof {
        assert(bv[(len / 2) as int].len() == len);
        lemma_rings_penalty_bound(bv, (len / 2) as int);
        assert(24 * (len / 2) * len <= 24 * (65535 * 65535)) by (nonlinear_arith)
            requires
                len * len <= 65535 * 65535,
        ;
    }
    if b[len / 2][(len - 1) / 2] != 0 {
        h = h + 3;
    }
    h
}

proof fn lemma_row_mismatches_mono(r1: Seq<usize>, r2: Seq<usize>, j: int, k: int)
    requires
        0 <= j <= k,
    ensures
        row_mismatches(r1, r2, j) <= row_mismatches(r1, r2, k),
    decreases k - j,
{
    if j < k {
        lemma_row_mismatches_mono(r1, r2, j, k - 1);
    }
}

} // verus!
