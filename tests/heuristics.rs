use npuzzle::{construct_basic_goal, Direction, Heuristic, Node};

const ALL: [Heuristic; 5] = [
    Heuristic::Hamming,
    Heuristic::Manhattan,
    Heuristic::OutOfLine,
    Heuristic::Nilsson,
    Heuristic::Custom,
];

fn dist(board: &[[usize; 3]; 3], heur: Heuristic) -> i64 {
    let b: Vec<Vec<usize>> = board.iter().map(|r| r.to_vec()).collect();
    Node::new(b, heur, false, &construct_basic_goal(3)).dist()
}

#[test]
fn every_heuristic_is_zero_at_the_goal() {
    for n in 1..=6usize {
        let g = construct_basic_goal(n);
        for heur in ALL {
            assert_eq!(Node::new(g.clone(), heur, false, &g).dist(), 0);
            assert_eq!(Node::new(g.clone(), heur, true, &g).dist(), 0);
        }
    }
}

#[test]
fn heuristics_one_move_from_goal() {
    let b = [[1, 2, 3], [0, 8, 4], [7, 6, 5]];
    assert_eq!(dist(&b, Heuristic::Hamming), 2);
    assert_eq!(dist(&b, Heuristic::Manhattan), 2);
    assert_eq!(dist(&b, Heuristic::OutOfLine), 2);
    assert_eq!(dist(&b, Heuristic::Nilsson), 5);
    assert_eq!(dist(&b, Heuristic::Custom), 20);
}

#[test]
fn heuristics_on_fixture_board() {
    let b = [[1, 2, 3], [4, 0, 6], [7, 5, 8]];
    assert_eq!(dist(&b, Heuristic::Hamming), 4);
    assert_eq!(dist(&b, Heuristic::Manhattan), 8);
    assert_eq!(dist(&b, Heuristic::OutOfLine), 6);
    assert_eq!(dist(&b, Heuristic::Nilsson), 26);
    assert_eq!(dist(&b, Heuristic::Custom), 80);
}

#[test]
fn heuristics_on_scrambled_corner() {
    let b = [[8, 1, 3], [2, 0, 4], [7, 6, 5]];
    assert_eq!(dist(&b, Heuristic::Hamming), 3);
    assert_eq!(dist(&b, Heuristic::Manhattan), 4);
    assert_eq!(dist(&b, Heuristic::OutOfLine), 4);
    assert_eq!(dist(&b, Heuristic::Nilsson), 10);
    assert_eq!(dist(&b, Heuristic::Custom), 40);
}

#[test]
fn nilsson_on_four_by_four() {
    let b = vec![
        vec![1, 2, 3, 4],
        vec![12, 13, 14, 5],
        vec![11, 15, 0, 6],
        vec![10, 9, 8, 7],
    ];
    let g = construct_basic_goal(4);
    assert_eq!(Node::new(b.clone(), Heuristic::Nilsson, false, &g).dist(), 11);
    assert_eq!(Node::new(b, Heuristic::Manhattan, false, &g).dist(), 2);
}

#[test]
fn admissible_heuristics_are_positive_off_goal() {
    let g = construct_basic_goal(3);
    let start = Node::new(g.clone(), Heuristic::Manhattan, false, &g);
    for dir in [Direction::Up, Direction::Down, Direction::Left, Direction::Right] {
        for heur in [Heuristic::Hamming, Heuristic::Manhattan, Heuristic::OutOfLine, Heuristic::Custom] {
            let moved = start.shift(dir, heur, false, &g);
            assert!(moved.dist() > 0);
        }
    }
}

#[test]
fn priority_is_negated_cost_or_estimate() {
    let g = construct_basic_goal(3);
    let b = vec![vec![1, 2, 3], vec![4, 0, 6], vec![7, 5, 8]];
    let astar = Node::new(b.clone(), Heuristic::Manhattan, false, &g);
    assert_eq!(astar.cost(), 0);
    assert_eq!(astar.rank(), -8);
    let child = astar.shift(Direction::Up, Heuristic::Manhattan, false, &g);
    assert_eq!(child.cost(), 1);
    assert_eq!(child.rank(), -(1 + child.dist()));
    let greedy = Node::new(b, Heuristic::Manhattan, true, &g);
    let child = greedy.shift(Direction::Up, Heuristic::Manhattan, true, &g);
    assert_eq!(child.rank(), -child.dist());
}

#[test]
fn ordering_prefers_priority_then_depth() {
    let g = construct_basic_goal(3);
    let start = Node::new(vec![vec![1, 2, 3], vec![0, 8, 4], vec![7, 6, 5]], Heuristic::Manhattan, false, &g);
    let solved = start.shift(Direction::Right, Heuristic::Manhattan, false, &g);
    assert_eq!(solved.dist(), 0);
    // priorities -2 and -1
    assert!(solved.outranks(&start));
    assert!(!start.outranks(&solved));
    assert!(!start.outranks(&start));
    // equal priority: the deeper state first
    let greedy_start = Node::new(g.clone(), Heuristic::Hamming, true, &g);
    let back = greedy_start
        .shift(Direction::Up, Heuristic::Hamming, true, &g)
        .shift(Direction::Down, Heuristic::Hamming, true, &g);
    assert_eq!(back.rank(), greedy_start.rank());
    assert!(back.outranks(&greedy_start));
}

#[test]
fn shift_leaves_the_source_unchanged() {
    let g = construct_basic_goal(3);
    let b = vec![vec![1, 2, 3], vec![4, 0, 6], vec![7, 5, 8]];
    let node = Node::new(b.clone(), Heuristic::Manhattan, false, &g);
    let before_board = node.board_ref().clone();
    let before_path = node.steps();
    let before_dist = node.dist();
    let child = node.shift(Direction::Down, Heuristic::Manhattan, false, &g);
    assert_eq!(node.board_ref(), &before_board);
    assert_eq!(node.steps(), before_path);
    assert_eq!(node.dist(), before_dist);
    assert_eq!(node.cost(), 0);
    assert_eq!(child.board_ref(), &vec![vec![1, 2, 3], vec![4, 5, 6], vec![7, 0, 8]]);
    assert_eq!(child.steps(), vec![(1, 1), (2, 1)]);
    assert_eq!(child.path, vec![(1, 1), (2, 1)]);
    assert_eq!(child.into_board(), vec![vec![1, 2, 3], vec![4, 5, 6], vec![7, 0, 8]]);
    assert_eq!(node.into_board(), b);
}
