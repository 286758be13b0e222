//! The canonical goal: labels laid out clockwise ring by ring, blank in the middle.
use vstd::prelude::*;

use crate::board::{board_view, in_grid, is_permutation, is_square, has_label, MAX_SIDE};

verus! {

/// The smaller of two integers.
pub open spec fn min2(a: int, b: int) -> int {
    if a <= b {
        a
    } else {
        b
    }
}

/// The ring (0 = outermost) that cell (i, j) of an `n`×`n` grid belongs to.
pub open spec fn ring(n: int, i: int, j: int) -> int {
    min2(min2(i, j), min2(n - 1 - i, n - 1 - j))
}

/// The number of labels placed on the rings outside ring `r`.
pub open spec fn ring_base(n: int, r: int) -> int {
    4 * r * (n - r)
}

/// Each edge of ring `r` holds `n - 2r - 1` cells.
pub open spec fn edge_len(n: int, r: int) -> int {
    n - 2 * r - 1
}

/// Which edge of its ring a cell lies on: 0 top, 1 right, 2 bottom, 3 left,
/// each edge starting at a corner and running clockwise.
pub open spec fn edge_of(n: int, i: int, j: int) -> int {
    let r = ring(n, i, j);
    if i == r && j < n - 1 - r {
        0
    } else if j == n - 1 - r && i < n - 1 - r {
        1
    } else if i == n - 1 - r && j > r {
        2
    } else {
        3
    }
}

/// How far along its edge, clockwise from the edge's first corner, a cell lies.
pub open spec fn edge_offset(n: int, i: int, j: int) -> int {
    let r = ring(n, i, j);
    let e = edge_of(n, i, j);
    if e == 0 {
        j - r
    } else if e == 1 {
        i - r
    } else if e == 2 {
        n - 1 - j - r
    } else {
        n - 1 - i - r
    }
}

/// The clockwise spiral numbering, before the blank is placed: ring `r`
/// continues after the labels of the rings around it; the cell of an odd
/// grid's middle, which is on no edge, holds 0.
pub open spec fn spiral_label(n: int, i: int, j: int) -> int {
    let r = ring(n, i, j);
    let d = edge_len(n, r);
    if d <= 0 {
        0
    } else {
        ring_base(n, r) + edge_of(n, i, j) * d + edge_offset(n, i, j) + 1
    }
}

/// The cell where the goal holds the blank.
pub open spec fn goal_blank(n: int) -> (int, int) {
    (n / 2, (n - 1) / 2)
}

/// The label of cell (i, j) in the canonical goal of size `n`.
pub open spec fn goal_label(n: int, i: int, j: int) -> int {
    if (i, j) == goal_blank(n) {
        0
    } else {
        spiral_label(n, i, j)
    }
}

/// The canonical goal board of size `n`.
pub open spec fn spiral_goal(n: nat) -> Seq<Seq<usize>> {
    Seq::new(n, |i: int| Seq::new(n, |j: int| goal_label(n as int, i, j) as usize))
}

/// Whether the spiral loop has written cell (a, b) once it reaches ring `i`,
/// position `j` of the ring's top edge.
pub open spec fn spiral_written(n: int, i: int, j: int, a: int, b: int) -> bool {
    let r = ring(n, a, b);
    &&& edge_len(n, r) > 0
    &&& (r < i || (r == i && edge_offset(n, a, b) < j - i))
}

proof fn lemma_ring_base_step(n: int, r: int)
    ensures
        ring_base(n, r + 1) == ring_base(n, r) + 4 * edge_len(n, r),
{
    assert(4 * (r + 1) * (n - (r + 1)) == 4 * r * (n - r) + 4 * (n - 2 * r - 1))
        by (nonlinear_arith);
}

proof fn lemma_ring_base_bound(n: int, r: int)
    requires
        0 <= r,
        2 * r <= n,
    ensures
        0 <= ring_base(n, r) <= n * n,
{
    assert(0 <= 4 * r * (n - r) <= n * n) by (nonlinear_arith)
        requires
            0 <= r,
            2 * r <= n,
    {
        assert(n * n - 4 * r * (n - r) == (n - 2 * r) * (n - 2 * r));
    }
}

/// The four cells the spiral loop writes at ring `i`, top-edge position `j`
/// are on ring `i`, on edges 0..3 in order, each at offset `j - i`.
pub proof fn lemma_spiral_cells(n: int, i: int, j: int)
    requires
        0 <= i,
        2 * i < n,
        i <= j < n - i - 1,
    ensures
        ring(n, i, j) == i && edge_of(n, i, j) == 0 && edge_offset(n, i, j) == j - i,
        ring(n, j, n - i - 1) == i && edge_of(n, j, n - i - 1) == 1 && edge_offset(
            n,
            j,
            n - i - 1,
        ) == j - i,
        ring(n, n - i - 1, n - j - 1) == i && edge_of(n, n - i - 1, n - j - 1) == 2
            && edge_offset(n, n - i - 1, n - j - 1) == j - i,
        ring(n, n - j - 1, i) == i && edge_of(n, n - j - 1, i) == 3 && edge_offset(
            n,
            n - j - 1,
            i,
        ) == j - i,
{
}

/// A cell on ring `r` at offset `k` of edge `e` is one of the four cells the
/// loop writes at ring `r`, top-edge position `r + k`.
proof fn lemma_spiral_cell_is_written(n: int, a: int, b: int)
    requires
        in_grid(n, a, b),
        edge_len(n, ring(n, a, b)) > 0,
    ensures
        ({
            let r = ring(n, a, b);
            let j = r + edge_offset(n, a, b);
            &&& 0 <= r
            &&& 2 * r < n
            &&& r <= j < n - r - 1
            &&& (a, b) == (r, j) || (a, b) == (j, n - r - 1) || (a, b) == (n - r - 1, n - j - 1)
                || (a, b) == (n - j - 1, r)
        }),
{
}

/// The cell at offset `k` of edge `e` of ring `r`.
pub open spec fn spiral_cell(n: int, r: int, e: int, k: int) -> (int, int) {
    let j = r + k;
    if e == 0 {
        (r, j)
    } else if e == 1 {
        (j, n - r - 1)
    } else if e == 2 {
        (n - r - 1, n - j - 1)
    } else {
        (n - j - 1, r)
    }
}

/// Every cell off the middle of an odd grid is named by its ring, edge and
/// offset, and the offset is shorter than the edge.
proof fn lemma_cell_roundtrip(n: int, a: int, b: int)
    requires
        in_grid(n, a, b),
        edge_len(n, ring(n, a, b)) > 0,
    ensures
        0 <= ring(n, a, b),
        0 <= edge_of(n, a, b) <= 3,
        0 <= edge_offset(n, a, b) < edge_len(n, ring(n, a, b)),
        spiral_cell(n, ring(n, a, b), edge_of(n, a, b), edge_offset(n, a, b)) == (a, b),
{
}

/// The cell named by ring `r`, edge `e` and offset `k` lies on that ring and
/// edge, at that offset.
proof fn lemma_cell_coords(n: int, r: int, e: int, k: int)
    requires
        0 <= r,
        edge_len(n, r) > 0,
        0 <= e <= 3,
        0 <= k < edge_len(n, r),
    ensures
        in_grid(n, spiral_cell(n, r, e, k).0, spiral_cell(n, r, e, k).1),
        ring(n, spiral_cell(n, r, e, k).0, spiral_cell(n, r, e, k).1) == r,
        edge_of(n, spiral_cell(n, r, e, k).0, spiral_cell(n, r, e, k).1) == e,
        edge_offset(n, spiral_cell(n, r, e, k).0, spiral_cell(n, r, e, k).1) == k,
{
    lemma_spiral_cells(n, r, r + k);
}

/// Rings further in start after the labels of rings further out.
proof fn lemma_ring_base_mono(n: int, r1: int, r2: int)
    requires
        0 <= r1 < r2,
        edge_len(n, r2) > 0,
    ensures
        ring_base(n, r1 + 1) <= ring_base(n, r2),
{
    assert(4 * r2 * (n - r2) - 4 * (r1 + 1) * (n - r1 - 1) == 4 * (r2 - r1 - 1) * (n - r2 - r1
        - 1)) by (nonlinear_arith);
    assert(0 <= 4 * (r2 - r1 - 1) * (n - r2 - r1 - 1)) by (nonlinear_arith)
        requires
            0 <= r2 - r1 - 1,
            0 <= n - r2 - r1 - 1,
    ;
}

/// A cell on a ring holds a label between the ring's base (exclusive) and the
/// next ring's base (inclusive).
proof fn lemma_spiral_label_range(n: int, a: int, b: int)
    requires
        in_grid(n, a, b),
        edge_len(n, ring(n, a, b)) > 0,
    ensures
        ring_base(n, ring(n, a, b)) < spiral_label(n, a, b) <= ring_base(n, ring(n, a, b) + 1),
        ring_base(n, ring(n, a, b) + 1) <= n * n,
{
    let r = ring(n, a, b);
    lemma_cell_roundtrip(n, a, b);
    lemma_ring_base_step(n, r);
    lemma_ring_base_bound(n, r + 1);
    let d = edge_len(n, r);
    let e = edge_of(n, a, b);
    assert(0 <= e * d <= 3 * d) by (nonlinear_arith)
        requires
            0 <= e <= 3,
            0 < d,
    ;
}

/// The cells of one ring hold distinct labels, and distinct rings hold
/// disjoint ranges of labels.
proof fn lemma_spiral_injective(n: int, a1: int, b1: int, a2: int, b2: int)
    requires
        in_grid(n, a1, b1),
        in_grid(n, a2, b2),
        edge_len(n, ring(n, a1, b1)) > 0,
        edge_len(n, ring(n, a2, b2)) > 0,
        spiral_label(n, a1, b1) == spiral_label(n, a2, b2),
    ensures
        a1 == a2 && b1 == b2,
{
    let r1 = ring(n, a1, b1);
    let r2 = ring(n, a2, b2);
    lemma_spiral_label_range(n, a1, b1);
    lemma_spiral_label_range(n, a2, b2);
    lemma_cell_roundtrip(n, a1, b1);
    lemma_cell_roundtrip(n, a2, b2);
    if r1 < r2 {
        lemma_ring_base_mono(n, r1, r2);
    } else if r2 < r1 {
        lemma_ring_base_mono(n, r2, r1);
    } else {
        let d = edge_len(n, r1);
        let e1 = edge_of(n, a1, b1);
        let e2 = edge_of(n, a2, b2);
        let k1 = edge_offset(n, a1, b1);
        let k2 = edge_offset(n, a2, b2);
        assert(e1 * d + k1 == e2 * d + k2);
        assert(e1 == e2) by (nonlinear_arith)
            requires
                e1 * d + k1 == e2 * d + k2,
                0 <= k1 < d,
                0 <= k2 < d,
                0 <= e1 <= 3,
                0 <= e2 <= 3,
        {
            if e1 < e2 {
                assert(e1 * d + d <= e2 * d);
            } else if e2 < e1 {
                assert(e2 * d + d <= e1 * d);
            }
        }
    }
}

/// Some ring, one with edges, holds label `v` in its range.
proof fn lemma_find_ring(n: int, v: int, r: int) -> (res: int)
    requires
        0 <= r <= n / 2,
        ring_base(n, r) < v < n * n,
    ensures
        r <= res < n / 2,
        edge_len(n, res) > 0,
        ring_base(n, res) < v <= ring_base(n, res + 1),
    decreases n / 2 - r,
{
    if r == n / 2 {
        assert(4 * r * (n - r) >= n * n - 1) by (nonlinear_arith)
            requires
                r == n / 2,
        {
            assert(n == 2 * r || n == 2 * r + 1);
        }
        r
    } else if v <= ring_base(n, r + 1) {
        r
    } else {
        lemma_find_ring(n, v, r + 1)
    }
}

/// Labels of the goal are below `n*n`, and 0 only at the blank's cell.
pub proof fn lemma_goal_label_range(n: nat, i: int, j: int)
    requires
        1 <= n <= MAX_SIDE,
        in_grid(n as int, i, j),
    ensures
        0 <= goal_label(n as int, i, j) < n * n,
        goal_label(n as int, i, j) == 0 <==> (i, j) == goal_blank(n as int),
        spiral_goal(n)[i][j] == goal_label(n as int, i, j),
        (i, j) == goal_blank(n as int) ==> edge_len(n as int, ring(n as int, i, j)) <= 0
            || spiral_label(n as int, i, j) == n * n,
{
    let ni = n as int;
    let c = goal_blank(ni);
    // the blank's cell: the middle of an odd grid, or the last cell of the
    // innermost ring of an even one
    if n % 2 == 1 {
        assert(edge_len(ni, ring(ni, c.0, c.1)) <= 0);
    } else {
        assert(ring(ni, c.0, c.1) == ni / 2 - 1);
        lemma_cell_roundtrip(ni, c.0, c.1);
        assert(ring_base(ni, ni / 2 - 1) + 4 == ni * ni) by (nonlinear_arith)
            requires
                ni % 2 == 0,
                ni >= 2,
        ;
        assert(spiral_label(ni, c.0, c.1) == ni * ni);
    }
    // labels are in range, and 0 only at the blank
    {
        if (i, j) != c {
            if edge_len(ni, ring(ni, i, j)) > 0 {
                lemma_spiral_label_range(ni, i, j);
                lemma_ring_base_bound(ni, ring(ni, i, j));
                if spiral_label(ni, i, j) == ni * ni && n % 2 == 0 {
                    lemma_spiral_injective(ni, i, j, c.0, c.1);
                }
                if spiral_label(ni, i, j) == ni * ni && n % 2 == 1 {
                    lemma_ring_base_bound(ni, ring(ni, i, j) + 1);
                    assert(ring_base(ni, ring(ni, i, j) + 1) < ni * ni) by (nonlinear_arith)
                        requires
                            ni % 2 == 1,
                            2 * (ring(ni, i, j) + 1) <= ni,
                    {
                        let r1 = ring(ni, i, j) + 1;
                        assert(ni * ni - 4 * r1 * (ni - r1) == (ni - 2 * r1) * (ni - 2 * r1));
                        assert(ni - 2 * r1 != 0);
                    }
                }
            } else {
                assert((i, j) == c);
            }
        } else {
            assert(ni * ni >= 1) by (nonlinear_arith)
                requires
                    ni >= 1,
            ;
        }
    }
    assert(ni * ni <= MAX_SIDE * MAX_SIDE) by (nonlinear_arith)
        requires
            0 <= ni <= MAX_SIDE,
    ;
}

/// The canonical goal holds each label `0..n*n` exactly once, and its only
/// blank stands at row `n / 2`, column `(n - 1) / 2`.
pub proof fn lemma_goal_is_permutation(n: nat)
    requires
        1 <= n <= MAX_SIDE,
    ensures
        is_permutation(spiral_goal(n)),
        forall|i: int, j: int|
            in_grid(n as int, i, j) ==> (#[trigger] spiral_goal(n)[i][j] == 0 <==> (i, j)
                == goal_blank(n as int)),
{
    let g = spiral_goal(n);
    let ni = n as int;
    let c = goal_blank(ni);
    assert(is_square(g, ni));
    assert forall|i: int, j: int| in_grid(ni, i, j) implies #[trigger] g[i][j] < ni * ni by {
        lemma_goal_label_range(n, i, j);
    }
    assert forall|i1: int, j1: int, i2: int, j2: int|
        in_grid(ni, i1, j1) && in_grid(ni, i2, j2) && #[trigger] g[i1][j1] == #[trigger] g[i2][j2]
        implies i1 == i2 && j1 == j2 by {
        lemma_goal_label_range(n, i1, j1);
        lemma_goal_label_range(n, i2, j2);
        if goal_label(ni, i1, j1) != 0 {
            if edge_len(ni, ring(ni, i1, j1)) <= 0 {
                assert((i1, j1) == c);
            }
            if edge_len(ni, ring(ni, i2, j2)) <= 0 {
                assert((i2, j2) == c);
            }
            lemma_spiral_injective(ni, i1, j1, i2, j2);
        }
    }
    assert forall|v: int| 0 <= v < ni * ni implies #[trigger] has_label(g, v) by {
        if v == 0 {
            lemma_goal_label_range(n, c.0, c.1);
            assert(g[c.0][c.1] == 0);
            assert(in_grid(g.len() as int, c.0, c.1));
        } else {
            let r = lemma_find_ring(ni, v, 0);
            let d = edge_len(ni, r);
            let e = (v - ring_base(ni, r) - 1) / d;
            let k = (v - ring_base(ni, r) - 1) % d;
            lemma_ring_base_step(ni, r);
            assert(0 <= e <= 3 && 0 <= k < d && e * d + k == v - ring_base(ni, r) - 1)
                by (nonlinear_arith)
                requires
                    d > 0,
                    e == (v - ring_base(ni, r) - 1) / d,
                    k == (v - ring_base(ni, r) - 1) % d,
                    0 <= v - ring_base(ni, r) - 1 < 4 * d,
            ;
            lemma_cell_coords(ni, r, e, k);
            let p = spiral_cell(ni, r, e, k);
            assert(spiral_label(ni, p.0, p.1) == v);
            if p == c {
                lemma_goal_label_range(n, c.0, c.1);
            }
            lemma_goal_label_range(n, p.0, p.1);
            assert(g[p.0][p.1] == v);
            assert(in_grid(g.len() as int, p.0, p.1));
        }
    }
    assert forall|i: int, j: int| in_grid(ni, i, j) implies (#[trigger] g[i][j] == 0 <==> (i, j)
        == c) by {
        lemma_goal_label_range(n, i, j);
    }
}

/// Builds the canonical goal of side `n`: rings numbered clockwise from 1,
/// outermost first, with the blank at row `n / 2`, column `(n - 1) / 2`.
#[verifier::rlimit(40)]
pub fn construct_basic_goal(n: usize) -> (goal: Vec<Vec<usize>>)
    requires
        1 <= n <= MAX_SIDE,
    ensures
        board_view(goal) == spiral_goal(n as nat),
{
    let mut goal: Vec<Vec<usize>> = Vec::new();
    let mut r: usize = 0;
    while r < n
        invariant
            r <= n,
            goal@.len() == r,
            forall|a: int| 0 <= a < r ==> #[trigger] goal@[a]@ == Seq::new(n as nat, |b: int| 0usize),
        decreases n - r,
    {
        let mut row: Vec<usize> = Vec::new();
        let mut c: usize = 0;
        while c < n
            invariant
                c <= n,
                row@ == Seq::new(c as nat, |b: int| 0usize),
            decreases n - c,
        {
            row.push(0);
            c += 1;
            proof {
                assert(row@ =~= Seq::new(c as nat, |b: int| 0usize));
            }
        }
        goal.push(row);
        r += 1;
    }
    let ghost ni = n as int;
    proof {
        assert(ni * ni <= MAX_SIDE * MAX_SIDE) by (nonlinear_arith)
            requires
                0 <= ni <= MAX_SIDE,
        ;
    }
    let mut base: usize = 0;
    let mut i: usize = 0;
    while i < n / 2
        invariant
            1 <= n <= MAX_SIDE,
            ni == n,
            ni * ni <= MAX_SIDE * MAX_SIDE,
            i <= n / 2,
            base == ring_base(ni, i as int),
            goal@.len() == n,
            forall|a: int| 0 <= a < n ==> #[trigger] goal@[a]@.len() == n,
            forall|a: int, b: int|
                in_grid(ni, a, b) ==> #[trigger] goal@[a]@[b] == (if spiral_written(
                    ni,
                    i as int,
                    i as int,
                    a,
                    b,
                ) {
                    spiral_label(ni, a, b)
                } else {
                    0
                }),
        decreases n / 2 - i,
    {
        let diff: usize = n - 2 * i - 1;
        proof {
            lemma_ring_base_step(ni, i as int);
            lemma_ring_base_bound(ni, i as int + 1);
        }
        let mut j: usize = i;
        while j < n - i - 1
            invariant
                1 <= n <= MAX_SIDE,
                ni == n,
                ni * ni <= MAX_SIDE * MAX_SIDE,
                i < n / 2,
                i <= j <= n - i - 1,
                diff == n - 2 * i - 1,
                base == ring_base(ni, i as int),
                base + 4 * diff <= n * n,
                goal@.len() == n,
                forall|a: int| 0 <= a < n ==> #[trigger] goal@[a]@.len() == n,
                forall|a: int, b: int|
                    in_grid(ni, a, b) ==> #[trigger] goal@[a]@[b] == (if spiral_written(
                        ni,
                        i as int,
                        j as int,
                        a,
                        b,
                    ) {
                        spiral_label(ni, a, b)
                    } else {
                        0
                    }),
            decreases n - i - 1 - j,
        {
            let common: usize = base + j - i + 1;
            proof {
                lemma_spiral_cells(ni, i as int, j as int);
            }
            let ghost old_goal = goal@;
            goal[i][j] = common;
            goal[j][n - i - 1] = common + diff;
            goal[n - i - 1][n - j - 1] = common + 2 * diff;
            goal[n - j - 1][i] = common + 3 * diff;
            j += 1;
            proof {
                assert forall|a: int, b: int| in_grid(ni, a, b) implies #[trigger] goal@[a]@[b] == (
                if spiral_written(ni, i as int, j as int, a, b) {
                    spiral_label(ni, a, b)
                } else {
                    0
                }) by {
                    if edge_len(ni, ring(ni, a, b)) > 0 {
                        lemma_spiral_cell_is_written(ni, a, b);
                    }
                }
            }
        }
        base = base + diff * 4;
        i += 1;
        proof {
            assert forall|a: int, b: int| in_grid(ni, a, b) implies #[trigger] goal@[a]@[b] == (
            if spiral_written(ni, i as int, i as int, a, b) {
                spiral_label(ni, a, b)
            } else {
                0
            }) by {
                if edge_len(ni, ring(ni, a, b)) > 0 {
                    lemma_spiral_cell_is_written(ni, a, b);
                }
            }
        }
    }
    goal[n / 2][(n - 1) / 2] = 0;
    proof {
        assert forall|a: int| 0 <= a < n implies #[trigger] board_view(goal)[a] =~= spiral_goal(
            n as nat,
        )[a] by {
            assert forall|b: int| 0 <= b < n implies #[trigger] goal@[a]@[b] == goal_label(
                ni,
                a,
                b,
            ) by {}
        }
        assert(board_view(goal) =~= spiral_goal(n as nat));
    }
    goal
}

} // verus!
