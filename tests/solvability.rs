use npuzzle::{construct_basic_goal, insoluble, refine, Heuristic};

#[test]
fn goal_is_solvable_from_itself() {
    for n in 1..=7usize {
        let g = construct_basic_goal(n);
        assert!(!insoluble(&g, Some(g.clone())));
        assert!(!insoluble(&g, None));
    }
}

#[test]
fn regression_fixture_is_insoluble() {
    let start = vec![vec![1, 2, 3], vec![4, 0, 6], vec![7, 5, 8]];
    let goal = vec![vec![1, 2, 3], vec![8, 0, 4], vec![7, 6, 5]];
    assert!(insoluble(&start, Some(goal)));
    assert!(insoluble(&start, None));
}

#[test]
fn one_swap_of_tiles_is_insoluble() {
    let start = vec![vec![2, 1, 3], vec![8, 0, 4], vec![7, 6, 5]];
    assert!(insoluble(&start, None));
}

#[test]
fn a_moved_blank_stays_solvable() {
    let start = vec![vec![1, 2, 3], vec![0, 8, 4], vec![7, 6, 5]];
    assert!(!insoluble(&start, None));
    let start4 = vec![
        vec![1, 2, 3, 4],
        vec![12, 13, 14, 5],
        vec![11, 15, 0, 6],
        vec![10, 9, 8, 7],
    ];
    assert!(!insoluble(&start4, None));
}

#[test]
fn even_side_counts_blank_rows() {
    // one vertical move on a 4x4 board: no inversion changes parity alone
    let start4 = vec![
        vec![1, 2, 3, 4],
        vec![12, 0, 14, 5],
        vec![11, 13, 15, 6],
        vec![10, 9, 8, 7],
    ];
    assert!(!insoluble(&start4, None));
}

#[test]
fn quest_reports_insolubility_of_its_start() {
    let q = refine(vec![vec![1, 2, 3], vec![4, 0, 6], vec![7, 5, 8]], Heuristic::Manhattan, false);
    assert!(q.insoluble());
    let q = refine(vec![vec![2, 8, 3], vec![1, 6, 4], vec![7, 0, 5]], Heuristic::Manhattan, false);
    assert!(!q.insoluble());
}
