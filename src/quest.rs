//! The best-first search: a frontier of states, a closed set of boards, and
//! one expansion per step.
use vstd::multiset::Multiset;
use vstd::prelude::*;

use crate::board::{board_view, clone_board, in_grid, step_to, swap_cells, valid_board, Direction, Pos};
use crate::goal::{construct_basic_goal, lemma_goal_is_permutation, spiral_goal};
use crate::heuristic::{comparable, Heuristic};
use crate::frontier::{node_above, Frontier};
use crate::node::{is_route, route_end, Node, DEPTH_LIMIT};
use crate::solvability::{insoluble, insoluble_spec};
use crate::visited::{capped, VisitedSet};

verus! {

broadcast use vstd::seq_lib::group_to_multiset_ensures;

/// Whether `c` is the state reached from `t` by moving the blank in direction
/// `dir`, scored with `heur` against `goal`.
pub open spec fn is_child(
    c: Node,
    t: Node,
    dir: Direction,
    heur: Heuristic,
    greedy: bool,
    goal: Seq<Seq<usize>>,
) -> bool {
    let next = step_to(t.route().last(), dir);
    &&& c.wf()
    &&& c.board_of() == swap_cells(t.board_of(), route_end(t.route()), next)
    &&& c.route() == t.route().push((next.0 as usize, next.1 as usize))
    &&& c.depth() == t.depth() + 1
    &&& c.scored(heur, greedy, goal)
}

/// The directions the blank can move in from `p` on an `n`×`n` board, in the
/// order Left, Right, Up, Down.
pub open spec fn moves_from(p: Pos, n: int) -> Seq<Direction> {
    let s0 = if p.1 > 0 {
        seq![Direction::Left]
    } else {
        Seq::empty()
    };
    let s1 = if p.1 + 1 < n {
        s0.push(Direction::Right)
    } else {
        s0
    };
    let s2 = if p.0 > 0 {
        s1.push(Direction::Up)
    } else {
        s1
    };
    if p.0 + 1 < n {
        s2.push(Direction::Down)
    } else {
        s2
    }
}

/// The board reached from `t` by moving the blank in direction `dir`.
pub open spec fn child_board(t: Node, dir: Direction) -> Seq<Seq<usize>> {
    swap_cells(t.board_of(), route_end(t.route()), step_to(t.route().last(), dir))
}

/// Of `dirs`, those whose board is not in `closed`, in order.
pub open spec fn fresh_dirs(t: Node, dirs: Seq<Direction>, closed: Set<Seq<Seq<usize>>>) -> Seq<
    Direction,
>
    decreases dirs.len(),
{
    if dirs.len() == 0 {
        Seq::empty()
    } else {
        let rest = fresh_dirs(t, dirs.drop_last(), closed);
        if closed.contains(child_board(t, dirs.last())) {
            rest
        } else {
            rest.push(dirs.last())
        }
    }
}

/// The directions in which `t` is expanded: the legal moves whose board is
/// not closed yet; none once `t` lies at the depth limit.
pub open spec fn expansion(t: Node, n: int, closed: Set<Seq<Seq<usize>>>) -> Seq<Direction> {
    if t.depth() < DEPTH_LIMIT {
        fresh_dirs(t, moves_from(t.route().last(), n), closed)
    } else {
        Seq::empty()
    }
}

/// A waiting state as the search keeps it: well formed, scored against
/// `goal`, and on a board of the goal's size.
pub open spec fn good_node(n: Node, heur: Heuristic, greedy: bool, goal: Seq<Seq<usize>>) -> bool {
    &&& n.wf()
    &&& n.scored(heur, greedy, goal)
    &&& n.board_of().len() == goal.len()
}

/// Every state of `new` is one of `old`, or `extra` when it is given.
proof fn lemma_all_good(
    old: Seq<Node>,
    new: Seq<Node>,
    extra: Option<Node>,
    heur: Heuristic,
    greedy: bool,
    goal: Seq<Seq<usize>>,
)
    requires
        forall|k: int| 0 <= k < old.len() ==> good_node(#[trigger] old[k], heur, greedy, goal),
        extra matches Some(e) ==> good_node(e, heur, greedy, goal),
        forall|x: Node|
            new.to_multiset().count(x) > 0 ==> old.to_multiset().count(x) > 0 || extra == Some(x),
    ensures
        forall|k: int| 0 <= k < new.len() ==> good_node(#[trigger] new[k], heur, greedy, goal),
{
    assert forall|k: int| 0 <= k < new.len() implies good_node(#[trigger] new[k], heur, greedy, goal) by {
        let x = new[k];
        assert(new.contains(x));
        assert(new.to_multiset().count(x) > 0);
        if old.to_multiset().count(x) > 0 {
            assert(old.contains(x));
            let i = choose|i: int| 0 <= i < old.len() && old[i] == x;
            assert(good_node(old[i], heur, greedy, goal));
        }
    }
}

/// A best-first search towards a goal board: a heap of waiting states, the
/// boards already expanded, the heuristic and mode that score states, and
/// the largest frontier seen.
pub struct Quest {
    goal: Vec<Vec<usize>>,
    start: Vec<Vec<usize>>,
    open: Frontier,
    closed: VisitedSet,
    heur: Heuristic,
    greedy: bool,
    max_space: usize,
}

impl Quest {
    /// The goal board.
    pub closed spec fn goal_of(&self) -> Seq<Seq<usize>> {
        board_view(self.goal)
    }

    /// The board the search started from.
    pub closed spec fn start_of(&self) -> Seq<Seq<usize>> {
        board_view(self.start)
    }

    /// The states waiting to be expanded.
    pub closed spec fn frontier(&self) -> Seq<Node> {
        self.open.nodes()
    }

    /// The boards already expanded.
    pub closed spec fn closed_boards(&self) -> Set<Seq<Seq<usize>>> {
        self.closed@
    }

    /// The heuristic that scores states.
    pub closed spec fn heuristic(&self) -> Heuristic {
        self.heur
    }

    /// Whether priorities ignore the moves made.
    pub closed spec fn is_greedy(&self) -> bool {
        self.greedy
    }

    /// The largest frontier seen after an expansion.
    pub closed spec fn peak(&self) -> nat {
        self.max_space as nat
    }

    /// The search's invariant: the goal and start are valid boards of one
    /// size, every waiting state is well formed and scored against the goal,
    /// and the peak is at least the frontier's size.
    pub open spec fn wf(&self) -> bool {
        &&& self.consistent()
        &&& self.frontier().len() <= self.peak()
    }

    /// The invariant but for the peak, which an expansion restores last.
    pub closed spec fn consistent(&self) -> bool {
        &&& valid_board(board_view(self.goal))
        &&& comparable(board_view(self.start), board_view(self.goal))
        &&& self.open.wf()
        &&& forall|k: int|
            0 <= k < self.open.nodes().len() ==> good_node(
                #[trigger] self.open.nodes()[k],
                self.heur,
                self.greedy,
                board_view(self.goal),
            )
        &&& self.closed@.finite()
        &&& self.closed.wf()
    }

    /// A search from `board` towards `goal`: the frontier holds the start
    /// state alone and nothing is closed.
    pub fn new(board: Vec<Vec<usize>>, heur: Heuristic, greedy: bool, goal: Vec<Vec<usize>>) -> (r:
        Quest)
        requires
            comparable(board_view(board), board_view(goal)),
        ensures
            r.wf(),
            r.goal_of() == board_view(goal),
            r.start_of() == board_view(board),
            r.heuristic() == heur,
            r.is_greedy() == greedy,
            r.frontier().len() == 1,
            r.frontier()[0].board_of() == board_view(board),
            r.frontier()[0].route().len() == 1,
            r.frontier()[0].depth() == 0,
            r.closed_boards() == Set::<Seq<Seq<usize>>>::empty(),
            r.peak() == 1,
    {
        let start = clone_board(&board);
        let first = Node::new(board, heur, greedy, &goal);
        let mut open = Frontier::new();
        open.push(first);
        proof {
            let s = open.nodes();
            assert(s.to_multiset().count(first) > 0);
            assert(s.contains(first));
            assert(s[0] == first);
            assert forall|x: Node| s.to_multiset().count(x) > 0 implies Seq::<Node>::empty().to_multiset().count(
                x,
            ) > 0 || Some(first) == Some(x) by {
                assert(s.contains(x));
            }
            lemma_all_good(Seq::empty(), s, Some(first), heur, greedy, board_view(goal));
        }
        Quest { goal, start, open, closed: VisitedSet::new(), heur, greedy, max_space: 1 }
    }

    /// Whether the start board cannot reach the goal.
    pub fn insoluble(&self) -> (r: bool)
        requires
            self.wf(),
        ensures
            r == insoluble_spec(self.start_of(), self.goal_of()),
    {
        insoluble(&self.start, Some(clone_board(&self.goal)))
    }

    /// A copy of the goal board.
    pub fn get_goal(&self) -> (r: Vec<Vec<usize>>)
        ensures
            board_view(r) == self.goal_of(),
    {
        clone_board(&self.goal)
    }

    /// A top-ranked waiting state, if any.
    pub fn peek(&self) -> (r: Option<&Node>)
        requires
            self.wf(),
        ensures
            self.frontier().len() == 0 ==> r is None,
            self.frontier().len() > 0 ==> r == Some(&self.frontier()[0]),
            forall|k: int|
                0 <= k < self.frontier().len() ==> !node_above(
                    #[trigger] self.frontier()[k],
                    self.frontier()[0],
                ),
    {
        if self.open.len() == 0 {
            None
        } else {
            Some(self.open.peek())
        }
    }

    /// Whether any state is still waiting.
    pub fn continues(&self) -> (r: bool)
        ensures
            r == (self.frontier().len() > 0),
    {
        self.open.len() > 0
    }

    /// The largest frontier seen after an expansion.
    pub fn space(&self) -> (r: usize)
        ensures
            r == self.peak(),
    {
        self.max_space
    }

    /// The number of boards closed so far (`usize::MAX` once it would exceed it).
    pub fn time(&self) -> (r: usize)
        requires
            self.wf(),
        ensures
            r == capped(self.closed_boards().len()),
    {
        self.closed.len()
    }

    /// Expands one state. A top-ranked waiting state (the heap's root) leaves
    /// the frontier; if its board is closed nothing else happens; if its
    /// estimate is 0 it is returned; otherwise its children whose boards are
    /// not closed join the frontier, its board is closed, and the peak
    /// frontier size is updated.
    #[verifier::rlimit(80)]
    #[verifier::spinoff_prover]
    pub fn step(&mut self) -> (r: Option<Node>)
        requires
            old(self).wf(),
        ensures
            final(self).wf(),
            final(self).goal_of() == old(self).goal_of(),
            final(self).start_of() == old(self).start_of(),
            final(self).heuristic() == old(self).heuristic(),
            final(self).is_greedy() == old(self).is_greedy(),
            old(self).frontier().len() == 0 ==> {
                &&& r is None
                &&& final(self).frontier() == old(self).frontier()
                &&& final(self).closed_boards() == old(self).closed_boards()
                &&& final(self).peak() == old(self).peak()
            },
            old(self).frontier().len() > 0 ==> {
                let f = old(self).frontier();
                let t = f[0];
                let rest = f.to_multiset().remove(t);
                let closed = old(self).closed_boards();
                let kids = expansion(t, old(self).goal_of().len() as int, closed);
                &&& forall|k: int| 0 <= k < f.len() ==> !node_above(#[trigger] f[k], t)
                &&& closed.contains(t.board_of()) ==> {
                    &&& r is None
                    &&& final(self).frontier().to_multiset() == rest
                    &&& final(self).closed_boards() == closed
                    &&& final(self).peak() == old(self).peak()
                }
                &&& !closed.contains(t.board_of()) && t.estimate() == 0 ==> {
                    &&& r == Some(t)
                    &&& final(self).frontier().to_multiset() == rest
                    &&& final(self).closed_boards() == closed
                    &&& final(self).peak() == old(self).peak()
                }
                &&& !closed.contains(t.board_of()) && t.estimate() != 0 ==> {
                    &&& r is None
                    &&& final(self).closed_boards() == closed.insert(t.board_of())
                    &&& final(self).frontier().len() == f.len() - 1 + kids.len()
                    &&& exists|ks: Seq<Node>|
                        {
                            &&& ks.len() == kids.len()
                            &&& forall|k: int|
                                0 <= k < kids.len() ==> is_child(
                                    #[trigger] ks[k],
                                    t,
                                    kids[k],
                                    old(self).heuristic(),
                                    old(self).is_greedy(),
                                    old(self).goal_of(),
                                )
                            &&& final(self).frontier().to_multiset() == rest.add(ks.to_multiset())
                        }
                    &&& final(self).peak() == if final(self).frontier().len() > old(
                        self,
                    ).peak() {
                        final(self).frontier().len()
                    } else {
                        old(self).peak()
                    }
                }
            },
            r matches Some(t) ==> t.wf() && is_route(t.route()) && t.estimate() == 0 && t.scored(
                old(self).heuristic(),
                old(self).is_greedy(),
                old(self).goal_of(),
            ),
    {
        if self.open.len() == 0 {
            return None;
        }
        let ghost f = self.frontier();
        let to_search = self.open.pop();
        proof {
            assert forall|x: Node| self.frontier().to_multiset().count(x) > 0 implies f.to_multiset().count(x)
                > 0 || None::<Node> == Some(x) by {}
            lemma_all_good(f, self.frontier(), None, self.heur, self.greedy, board_view(self.goal));
            assert(good_node(f[0], self.heur, self.greedy, board_view(self.goal)));
        }
        if self.closed.contains(to_search.board_ref()) {
            return None;
        }
        if to_search.dist() == 0 {
            return Some(to_search);
        }
        let ghost rest = self.frontier().to_multiset();
        let n = self.goal.len();
        let last = to_search.blank();
        let y = last.0;
        let x = last.1;
        let ghost all = moves_from(to_search.route().last(), n as int);
        let ghost mut done: Seq<Direction> = Seq::empty();
        let ghost mut ks: Seq<Node> = Seq::empty();
        proof {
            assert(self.frontier().to_multiset() =~= rest.add(ks.to_multiset()));
        }
        let deep_enough = to_search.cost() < DEPTH_LIMIT;
        if deep_enough && x > 0 {
            let ghost before = self.frontier().to_multiset();
            let pushed = self.push_child(&to_search, Direction::Left);
            proof {
                ks = self.record(to_search, Direction::Left, pushed, before, rest, ks, done);
                done = done.push(Direction::Left);
            }
        }
        assert(deep_enough ==> done =~= (if x > 0 { seq![Direction::Left] } else { Seq::empty() }));
        if deep_enough && x < n - 1 {
            let ghost before = self.frontier().to_multiset();
            let pushed = self.push_child(&to_search, Direction::Right);
            proof {
                ks = self.record(to_search, Direction::Right, pushed, before, rest, ks, done);
                done = done.push(Direction::Right);
            }
        }
        if deep_enough && y > 0 {
            let ghost before = self.frontier().to_multiset();
            let pushed = self.push_child(&to_search, Direction::Up);
            proof {
                ks = self.record(to_search, Direction::Up, pushed, before, rest, ks, done);
                done = done.push(Direction::Up);
            }
        }
        if deep_enough && y < n - 1 {
            let ghost before = self.frontier().to_multiset();
            let pushed = self.push_child(&to_search, Direction::Down);
            proof {
                ks = self.record(to_search, Direction::Down, pushed, before, rest, ks, done);
                done = done.push(Direction::Down);
            }
        }
        proof {
            if deep_enough {
                assert(done =~= all);
            }
            let kids = expansion(to_search, n as int, self.closed@);
            assert(fresh_dirs(to_search, done, self.closed@) == kids);
            assert(self.frontier().len() == self.frontier().to_multiset().len());
            assert(rest.len() == f.len() - 1);
            assert(ks.len() == kids.len());
            assert(self.frontier().to_multiset() == rest.add(ks.to_multiset()));
            assert(self.frontier().len() == f.len() - 1 + kids.len());
        }
        self.closed.insert(to_search.into_board());
        if self.open.len() > self.max_space {
            self.max_space = self.open.len();
        }
        None
    }

    /// Extends the record `ks` of the children pushed so far by the child in
    /// direction `dir`, if one was pushed: the record stays in step with the
    /// fresh directions tried and with what the frontier gained.
    proof fn record(
        &self,
        t: Node,
        dir: Direction,
        pushed: bool,
        before: Multiset<Node>,
        rest: Multiset<Node>,
        ks: Seq<Node>,
        done: Seq<Direction>,
    ) -> (ks2: Seq<Node>)
        requires
            pushed ==> exists|c: Node|
                is_child(c, t, dir, self.heur, self.greedy, board_view(self.goal))
                    && self.frontier().to_multiset() == before.insert(c),
            !pushed ==> self.frontier().to_multiset() == before,
            pushed == !self.closed@.contains(child_board(t, dir)),
            ks.len() == fresh_dirs(t, done, self.closed@).len(),
            forall|k: int|
                0 <= k < ks.len() ==> is_child(
                    #[trigger] ks[k],
                    t,
                    fresh_dirs(t, done, self.closed@)[k],
                    self.heur,
                    self.greedy,
                    board_view(self.goal),
                ),
            before == rest.add(ks.to_multiset()),
        ensures
            ks2.len() == fresh_dirs(t, done.push(dir), self.closed@).len(),
            forall|k: int|
                0 <= k < ks2.len() ==> is_child(
                    #[trigger] ks2[k],
                    t,
                    fresh_dirs(t, done.push(dir), self.closed@)[k],
                    self.heur,
                    self.greedy,
                    board_view(self.goal),
                ),
            self.frontier().to_multiset() == rest.add(ks2.to_multiset()),
    {
        assert(done.push(dir).drop_last() =~= done);
        assert(done.push(dir).last() == dir);
        if pushed {
            let c = choose|c: Node|
                is_child(c, t, dir, self.heur, self.greedy, board_view(self.goal))
                    && self.frontier().to_multiset() == before.insert(c);
            let ks2 = ks.push(c);
            assert(ks2.to_multiset() =~= ks.to_multiset().insert(c));
            assert(self.frontier().to_multiset() =~= rest.add(ks2.to_multiset()));
            assert forall|k: int| 0 <= k < ks2.len() implies is_child(
                #[trigger] ks2[k],
                t,
                fresh_dirs(t, done.push(dir), self.closed@)[k],
                self.heur,
                self.greedy,
                board_view(self.goal),
            ) by {
                if k < ks.len() {
                    assert(ks2[k] == ks[k]);
                }
            }
            ks2
        } else {
            ks
        }
    }

    /// Adds the child of `t` in direction `dir` to the frontier unless its
    /// board is closed; reports whether it did.
    fn push_child(&mut self, t: &Node, dir: Direction) -> (pushed: bool)
        requires
            old(self).consistent(),
            good_node(*t, old(self).heur, old(self).greedy, board_view(old(self).goal)),
            t.depth() < DEPTH_LIMIT,
            in_grid(
                t.board_of().len() as int,
                step_to(t.route().last(), dir).0,
                step_to(t.route().last(), dir).1,
            ),
        ensures
            final(self).consistent(),
            final(self).goal == old(self).goal,
            final(self).start == old(self).start,
            final(self).heur == old(self).heur,
            final(self).greedy == old(self).greedy,
            final(self).max_space == old(self).max_space,
            final(self).closed == old(self).closed,
            pushed == !old(self).closed@.contains(child_board(*t, dir)),
            pushed ==> exists|c: Node|
                is_child(c, *t, dir, old(self).heur, old(self).greedy, board_view(old(self).goal))
                    && final(self).frontier().to_multiset() == old(self).frontier().to_multiset().insert(
                    c,
                ),
            !pushed ==> final(self).frontier().to_multiset() == old(self).frontier().to_multiset(),
    {
        let child = t.shift(dir, self.heur, self.greedy, &self.goal);
        if !self.closed.contains(child.board_ref()) {
            let ghost before = self.frontier();
            self.open.push(child);
            proof {
                assert forall|x: Node| self.frontier().to_multiset().count(x) > 0 implies before.to_multiset().count(
                    x,
                ) > 0 || Some(child) == Some(x) by {}
                lemma_all_good(before, self.frontier(), Some(child), self.heur, self.greedy, board_view(self.goal));
                assert(is_child(child, *t, dir, self.heur, self.greedy, board_view(self.goal)));
            }
            true
        } else {
            false
        }
    }
}

/// A search from `puzzle` towards the canonical goal of its size.
pub fn refine(puzzle: Vec<Vec<usize>>, heur: Heuristic, greedy: bool) -> (r: Quest)
    requires
        valid_board(board_view(puzzle)),
    ensures
        r.wf(),
        r.goal_of() == spiral_goal(board_view(puzzle).len()),
        r.start_of() == board_view(puzzle),
        r.heuristic() == heur,
        r.is_greedy() == greedy,
        r.frontier().len() == 1,
        r.frontier()[0].board_of() == board_view(puzzle),
        r.frontier()[0].depth() == 0,
        r.closed_boards() == Set::<Seq<Seq<usize>>>::empty(),
        r.peak() == 1,
{
    let n = puzzle.len();
    proof {
        lemma_goal_is_permutation(n as nat);
    }
    let goal = construct_basic_goal(n);
    Quest::new(puzzle, heur, greedy, goal)
}

} // verus!
