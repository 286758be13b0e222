use std::collections::{HashSet, VecDeque};

use npuzzle::{construct_basic_goal, refine, Heuristic, Node, Pos, Quest};

fn run(mut quest: Quest) -> (Option<Node>, Quest) {
    while quest.continues() {
        if let Some(found) = quest.step() {
            return (Some(found), quest);
        }
    }
    (None, quest)
}

fn assert_route(path: &[Pos]) {
    for w in path.windows(2) {
        let dr = (w[0].0 as i64 - w[1].0 as i64).abs();
        let dc = (w[0].1 as i64 - w[1].1 as i64).abs();
        assert_eq!(dr + dc, 1);
    }
}

#[test]
fn one_move_from_goal_is_solved_in_one_move() {
    let g = construct_basic_goal(3);
    let starts = vec![
        vec![vec![1, 2, 3], vec![0, 8, 4], vec![7, 6, 5]],
        vec![vec![1, 2, 3], vec![8, 4, 0], vec![7, 6, 5]],
        vec![vec![1, 0, 3], vec![8, 2, 4], vec![7, 6, 5]],
        vec![vec![1, 2, 3], vec![8, 6, 4], vec![7, 0, 5]],
    ];
    for start in starts {
        let (found, _) = run(Quest::new(start, Heuristic::Manhattan, false, g.clone()));
        let found = found.expect("solved");
        assert_eq!(found.steps().len() - 1, 1);
        assert_eq!(found.dist(), 0);
        assert_eq!(found.board_ref(), &g);
    }
}

#[test]
fn one_move_search_statistics() {
    let start = vec![vec![1, 2, 3], vec![0, 8, 4], vec![7, 6, 5]];
    let (found, quest) = run(refine(start, Heuristic::Manhattan, false));
    let found = found.expect("solved");
    assert_eq!(found.steps(), vec![(1, 0), (1, 1)]);
    assert_eq!(quest.space(), 3);
    assert_eq!(quest.time(), 1);
}

#[test]
fn five_move_puzzle_with_manhattan() {
    let start = vec![vec![2, 8, 3], vec![1, 6, 4], vec![7, 0, 5]];
    let (found, quest) = run(refine(start, Heuristic::Manhattan, false));
    let found = found.expect("solved");
    assert_eq!(found.steps(), vec![(2, 1), (1, 1), (0, 1), (0, 0), (1, 0), (1, 1)]);
    assert_eq!(found.steps().len() - 1, 5);
    assert_eq!(found.cost(), 5);
    assert_eq!(found.dist(), 0);
    assert_eq!(quest.space(), 7);
    assert_eq!(quest.time(), 5);
    assert_route(&found.steps());
}

#[test]
fn four_move_puzzle_with_each_mode() {
    let start = vec![vec![8, 1, 3], vec![2, 0, 4], vec![7, 6, 5]];
    let (found, quest) = run(refine(start.clone(), Heuristic::Manhattan, false));
    let found = found.expect("solved");
    assert_eq!(found.steps(), vec![(1, 1), (1, 0), (0, 0), (0, 1), (1, 1)]);
    assert_eq!((quest.space(), quest.time()), (6, 4));
    let (found, quest) = run(refine(start.clone(), Heuristic::Hamming, false));
    assert_eq!(found.expect("solved").steps().len() - 1, 4);
    assert_eq!((quest.space(), quest.time()), (6, 4));
    let (found, quest) = run(refine(start, Heuristic::Manhattan, true));
    assert_eq!(found.expect("solved").steps().len() - 1, 4);
    assert_eq!((quest.space(), quest.time()), (6, 4));
}

#[test]
fn solved_routes_move_one_cell_at_a_time() {
    let start = vec![vec![2, 8, 3], vec![1, 6, 4], vec![7, 0, 5]];
    for heur in [
        Heuristic::Hamming,
        Heuristic::Manhattan,
        Heuristic::OutOfLine,
        Heuristic::Nilsson,
        Heuristic::Custom,
    ] {
        for greedy in [false, true] {
            let (found, _) = run(refine(start.clone(), heur, greedy));
            let found = found.expect("solved");
            assert_eq!(found.dist(), 0);
            assert_eq!(found.board_ref(), &construct_basic_goal(3));
            assert_eq!(found.steps()[0], (2, 1));
            assert_route(&found.steps());
        }
    }
}

#[test]
fn four_by_four_one_move() {
    let start = vec![
        vec![1, 2, 3, 4],
        vec![12, 13, 14, 5],
        vec![11, 15, 0, 6],
        vec![10, 9, 8, 7],
    ];
    let (found, quest) = run(refine(start, Heuristic::Manhattan, false));
    assert_eq!(found.expect("solved").steps(), vec![(2, 2), (2, 1)]);
    assert_eq!((quest.space(), quest.time()), (4, 1));
}

#[test]
fn goal_start_is_returned_at_once() {
    let g = construct_basic_goal(3);
    let mut quest = refine(g.clone(), Heuristic::Nilsson, false);
    assert_eq!(quest.get_goal(), g);
    assert_eq!(quest.peek().map(|n| n.dist()), Some(0));
    let found = quest.step().expect("solved");
    assert_eq!(found.steps(), vec![(1, 1)]);
    assert!(!quest.continues());
    assert!(quest.step().is_none());
    assert_eq!((quest.space(), quest.time()), (1, 0));
}

#[test]
fn closed_boards_are_skipped() {
    // the start's children include boards reached again later; the search
    // still ends with the same route and counts each board once
    let start = vec![vec![2, 8, 3], vec![1, 6, 4], vec![7, 0, 5]];
    let mut quest = refine(start, Heuristic::Manhattan, false);
    let mut steps = 0;
    let found = loop {
        steps += 1;
        if let Some(found) = quest.step() {
            break found;
        }
    };
    assert!(steps >= quest.time());
    assert_eq!(found.steps().len() - 1, 5);
}

/// The length of a shortest route from `start` to `goal`, by breadth-first search.
fn bfs_moves(start: &[Vec<usize>], goal: &[Vec<usize>]) -> Option<usize> {
    let n = start.len();
    let mut seen: HashSet<Vec<Vec<usize>>> = HashSet::new();
    let mut queue: VecDeque<(Vec<Vec<usize>>, usize)> = VecDeque::new();
    seen.insert(start.to_vec());
    queue.push_back((start.to_vec(), 0));
    while let Some((b, d)) = queue.pop_front() {
        if b == goal {
            return Some(d);
        }
        let (mut y, mut x) = (0, 0);
        for i in 0..n {
            for j in 0..n {
                if b[i][j] == 0 {
                    y = i;
                    x = j;
                }
            }
        }
        let mut next = Vec::new();
        if x > 0 { next.push((y, x - 1)); }
        if x + 1 < n { next.push((y, x + 1)); }
        if y > 0 { next.push((y - 1, x)); }
        if y + 1 < n { next.push((y + 1, x)); }
        for (ny, nx) in next {
            let mut c = b.clone();
            c[y][x] = c[ny][nx];
            c[ny][nx] = 0;
            if seen.insert(c.clone()) {
                queue.push_back((c, d + 1));
            }
        }
    }
    None
}

#[test]
fn manhattan_route_is_no_longer_than_breadth_first() {
    let goal = construct_basic_goal(3);
    let fixture = vec![vec![1, 2, 3], vec![4, 0, 6], vec![7, 5, 8]];
    // the fixture cannot reach the goal at all
    assert!(npuzzle::insoluble(&fixture, Some(goal.clone())));
    assert_eq!(bfs_moves(&fixture, &goal), None);
    for start in [
        vec![vec![2, 8, 3], vec![1, 6, 4], vec![7, 0, 5]],
        vec![vec![8, 1, 3], vec![2, 0, 4], vec![7, 6, 5]],
        vec![vec![1, 2, 3], vec![0, 8, 4], vec![7, 6, 5]],
    ] {
        let best = bfs_moves(&start, &goal).expect("reachable");
        let (found, _) = run(Quest::new(start, Heuristic::Manhattan, false, goal.clone()));
        assert!(found.expect("solved").steps().len() - 1 <= best);
    }
}
