//! A search state: a board, the blank's route to it, and its cost bookkeeping.
use vstd::prelude::*;

use crate::board::{
    adjacent, blank_pos, board_view, clone_board, clone_path, find_blank, in_grid, lemma_pos_of,
    lemma_pos_of_at, lemma_swap_keeps_permutation, step_to, swap_cells, valid_board, Direction,
    Pos,
};
use crate::heuristic::{
    comparable, custom_of, hamming_of, heuristic_value, lemma_heuristic_bound, manhattan_of,
    nilsson_of, out_of_line_of, Heuristic,
};

verus! {

/// The deepest a state may lie below the start: far beyond any search that
/// can be run, and low enough that costs never overflow.
pub const DEPTH_LIMIT: i64 = 0x1000_0000_0000_0000;

/// The search priority of a state at depth `g` with estimate `h`: the
/// negated estimate in greedy mode, the negated total cost otherwise, so that
/// a higher priority means a cheaper state.
pub open spec fn priority(g: int, h: int, greedy: bool) -> int {
    if greedy {
        -h
    } else {
        -(g + h)
    }
}

/// Whether a state with priority `f1` and depth `g1` is expanded before one
/// with `f2` and `g2`: higher priority first, then the deeper one.
pub open spec fn ranks_above(f1: int, g1: int, f2: int, g2: int) -> bool {
    f1 > f2 || (f1 == f2 && g1 > g2)
}

/// The route of the blank: each cell is next to the one before it.
pub open spec fn is_route(p: Seq<Pos>) -> bool {
    forall|k: int| 0 < k < p.len() ==> adjacent(#[trigger] p[k - 1], p[k])
}

/// The cell a route ends on.
pub open spec fn route_end(p: Seq<Pos>) -> (int, int) {
    (p.last().0 as int, p.last().1 as int)
}

/// A search state: a board, the blank's route from the start, the moves
/// made (`g`), the heuristic estimate (`h`) and the priority (`f`).
pub struct Node {
    f: i64,
    g: i64,
    h: i64,
    pub path: Vec<Pos>,
    board: Vec<Vec<usize>>,
}

impl Node {
    /// The search priority.
    pub closed spec fn priority_of(&self) -> int {
        self.f as int
    }

    /// The moves made from the start.
    pub closed spec fn depth(&self) -> int {
        self.g as int
    }

    /// The heuristic estimate.
    pub closed spec fn estimate(&self) -> int {
        self.h as int
    }

    /// The blank's route from the start.
    pub closed spec fn route(&self) -> Seq<Pos> {
        self.path@
    }

    /// The board.
    pub closed spec fn board_of(&self) -> Seq<Seq<usize>> {
        board_view(self.board)
    }

    /// A well-formed state: a valid board, a route that starts somewhere,
    /// moves one cell at a time and ends on the blank, and a depth that
    /// counts its moves.
    pub open spec fn wf(&self) -> bool {
        &&& valid_board(self.board_of())
        &&& self.route().len() >= 1
        &&& is_route(self.route())
        &&& route_end(self.route()) == blank_pos(self.board_of())
        &&& in_grid(self.board_of().len() as int, route_end(self.route()).0, route_end(self.route()).1)
        &&& self.depth() == self.route().len() - 1
        &&& 0 <= self.depth() <= DEPTH_LIMIT
    }

    /// The estimate and priority agree with heuristic `heur` against `goal`
    /// in the given mode.
    pub open spec fn scored(&self, heur: Heuristic, greedy: bool, goal: Seq<Seq<usize>>) -> bool {
        &&& self.estimate() == heuristic_value(heur, self.board_of(), goal)
        &&& self.priority_of() == priority(self.depth(), self.estimate(), greedy)
    }

    /// Scores the state's board with `heur` against `goal`.
    fn rescore(&mut self, heur: Heuristic, greedy: bool, goal: &Vec<Vec<usize>>)
        requires
            comparable(old(self).board_of(), board_view(*goal)),
            0 <= old(self).depth() <= DEPTH_LIMIT,
        ensures
            final(self).board == old(self).board,
            final(self).path == old(self).path,
            final(self).g == old(self).g,
            final(self).scored(heur, greedy, board_view(*goal)),
    {
        proof {
            lemma_heuristic_bound(heur, self.board_of(), board_view(*goal));
        }
        self.h = match heur {
            Heuristic::Hamming => hamming_of(&self.board, goal),
            Heuristic::Manhattan => manhattan_of(&self.board, goal),
            Heuristic::OutOfLine => out_of_line_of(&self.board, goal),
            Heuristic::Nilsson => nilsson_of(&self.board, goal),
            Heuristic::Custom => custom_of(&self.board, goal),
        };
        if greedy {
            self.f = -self.h;
        } else {
            self.f = -(self.g + self.h);
        }
    }

    /// A start state: the blank's route is its own cell, no moves made, and
    /// the board scored with `heur` against `goal`.
    pub fn new(board: Vec<Vec<usize>>, heur: Heuristic, greedy: bool, goal: &Vec<Vec<usize>>) -> (r:
        Node)
        requires
            comparable(board_view(board), board_view(*goal)),
        ensures
            r.wf(),
            r.board_of() == board_view(board),
            r.route().len() == 1,
            r.depth() == 0,
            r.scored(heur, greedy, board_view(*goal)),
    {
        let zero = find_blank(&board);
        let mut path: Vec<Pos> = Vec::new();
        path.push(zero);
        let mut out = Node { f: 0, g: 0, h: 0, path, board };
        out.rescore(heur, greedy, goal);
        out
    }

    /// The state reached by moving the blank one cell in direction `dir`,
    /// scored with `heur` against `goal`. The state itself is left as it was.
    pub fn shift(&self, dir: Direction, heur: Heuristic, greedy: bool, goal: &Vec<Vec<usize>>) -> (r:
        Node)
        requires
            self.wf(),
            comparable(self.board_of(), board_view(*goal)),
            in_grid(
                self.board_of().len() as int,
                step_to(self.route().last(), dir).0,
                step_to(self.route().last(), dir).1,
            ),
            self.depth() < DEPTH_LIMIT,
        ensures
            r.wf(),
            r.board_of() == swap_cells(
                self.board_of(),
                route_end(self.route()),
                step_to(self.route().last(), dir),
            ),
            r.route() == self.route().push(
                (step_to(self.route().last(), dir).0 as usize, step_to(self.route().last(), dir).1 as usize),
            ),
            r.depth() == self.depth() + 1,
            r.board_of().len() == self.board_of().len(),
            r.scored(heur, greedy, board_view(*goal)),
    {
        let mut out = Node {
            f: self.f,
            g: self.g,
            h: self.h,
            path: clone_path(&self.path),
            board: clone_board(&self.board),
        };
        out.swap(dir);
        out.rescore(heur, greedy, goal);
        out
    }

    /// Moves the blank one cell in direction `dir` and counts the move.
    fn swap(&mut self, dir: Direction)
        requires
            old(self).wf(),
            in_grid(
                old(self).board_of().len() as int,
                step_to(old(self).route().last(), dir).0,
                step_to(old(self).route().last(), dir).1,
            ),
            old(self).depth() < DEPTH_LIMIT,
        ensures
            final(self).wf(),
            final(self).board_of() == swap_cells(
                old(self).board_of(),
                route_end(old(self).route()),
                step_to(old(self).route().last(), dir),
            ),
            final(self).route() == old(self).route().push(
                (
                    step_to(old(self).route().last(), dir).0 as usize,
                    step_to(old(self).route().last(), dir).1 as usize,
                ),
            ),
            final(self).depth() == old(self).depth() + 1,
            final(self).board_of().len() == old(self).board_of().len(),
    {
        let ghost b0 = self.board_of();
        let curr = self.path[self.path.len() - 1];
        let next: Pos = match dir {
            Direction::Up => (curr.0 - 1, curr.1),
            Direction::Down => (curr.0 + 1, curr.1),
            Direction::Left => (curr.0, curr.1 - 1),
            Direction::Right => (curr.0, curr.1 + 1),
        };
        proof {
            lemma_pos_of(b0, 0);
            assert(b0[curr.0 as int].len() == b0.len());
            assert(b0[next.0 as int].len() == b0.len());
        }
        let moved = self.board[next.0][next.1];
        self.board[curr.0][curr.1] = moved;
        self.board[next.0][next.1] = 0;
        self.path.push(next);
        self.inc();
        proof {
            let p = (curr.0 as int, curr.1 as int);
            let q = (next.0 as int, next.1 as int);
            assert(self.board_of() =~= swap_cells(b0, p, q));
            lemma_swap_keeps_permutation(b0, p, q);
            lemma_pos_of_at(self.board_of(), q.0, q.1);
            assert(adjacent(curr, next));
            assert(is_route(self.route())) by {
                assert forall|k: int| 0 < k < self.route().len() implies adjacent(
                    #[trigger] self.route()[k - 1],
                    self.route()[k],
                ) by {
                    if k < self.route().len() - 1 {
                        assert(self.route()[k - 1] == old(self).route()[k - 1]);
                    }
                }
            }
        }
    }

    fn inc(&mut self)
        requires
            old(self).g < DEPTH_LIMIT,
        ensures
            final(self).g == old(self).g + 1,
            final(self).f == old(self).f,
            final(self).h == old(self).h,
            final(self).path == old(self).path,
            final(self).board == old(self).board,
    {
        self.g += 1;
    }

    /// The heuristic estimate of the remaining distance.
    pub fn dist(&self) -> (r: i64)
        ensures
            r == self.estimate(),
    {
        self.h
    }

    /// The moves made from the start.
    pub fn cost(&self) -> (r: i64)
        ensures
            r == self.depth(),
    {
        self.g
    }

    /// The search priority.
    pub fn rank(&self) -> (r: i64)
        ensures
            r == self.priority_of(),
    {
        self.f
    }

    /// The blank's cell, where its route ends.
    pub fn blank(&self) -> (p: Pos)
        requires
            self.wf(),
        ensures
            p == self.route().last(),
    {
        self.path[self.path.len() - 1]
    }

    /// The blank's route, from its start cell to its current one.
    pub fn steps(&self) -> (r: Vec<Pos>)
        ensures
            r@ == self.route(),
    {
        clone_path(&self.path)
    }

    /// The board.
    pub fn board_ref(&self) -> (r: &Vec<Vec<usize>>)
        ensures
            board_view(*r) == self.board_of(),
    {
        &self.board
    }

    /// Gives up the state for its board.
    pub fn into_board(self) -> (r: Vec<Vec<usize>>)
        ensures
            board_view(r) == self.board_of(),
    {
        self.board
    }

    /// Whether this state is expanded before `other`: higher priority first,
    /// and among equal priorities the deeper state.
    pub fn outranks(&self, other: &Node) -> (r: bool)
        ensures
            r == ranks_above(self.priority_of(), self.depth(), other.priority_of(), other.depth()),
    {
        self.f > other.f || (self.f == other.f && self.g > other.g)
    }
}

} // verus!
