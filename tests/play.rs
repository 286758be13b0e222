use npuzzle::{apply_step, deal_board, slide_between, slide_blank, Direction, Slide};

#[test]
fn slides_are_named_by_the_blank_move() {
    assert_eq!(slide_between((1, 1), (0, 1)), Slide::Down);
    assert_eq!(slide_between((1, 1), (2, 1)), Slide::Up);
    assert_eq!(slide_between((1, 1), (1, 0)), Slide::Right);
    assert_eq!(slide_between((1, 1), (1, 2)), Slide::Left);
    assert_eq!(slide_between((1, 1), (2, 2)), Slide::Hop);
    assert_eq!(slide_between((0, 0), (0, 2)), Slide::Hop);
    assert_eq!(slide_between((0, 0), (0, 0)), Slide::Hop);
}

#[test]
fn blank_slides_inside_the_board() {
    let mut board = vec![vec![1, 2, 3], vec![8, 0, 4], vec![7, 6, 5]];
    let mut zero = (1, 1);
    assert!(slide_blank(&mut board, &mut zero, Direction::Up));
    assert_eq!(board, vec![vec![1, 0, 3], vec![8, 2, 4], vec![7, 6, 5]]);
    assert_eq!(zero, (0, 1));
    assert!(!slide_blank(&mut board, &mut zero, Direction::Up));
    assert_eq!(board, vec![vec![1, 0, 3], vec![8, 2, 4], vec![7, 6, 5]]);
    assert_eq!(zero, (0, 1));
    assert!(slide_blank(&mut board, &mut zero, Direction::Left));
    assert_eq!(board, vec![vec![0, 1, 3], vec![8, 2, 4], vec![7, 6, 5]]);
    assert!(!slide_blank(&mut board, &mut zero, Direction::Left));
    assert!(slide_blank(&mut board, &mut zero, Direction::Down));
    assert!(slide_blank(&mut board, &mut zero, Direction::Right));
    assert_eq!(board, vec![vec![8, 1, 3], vec![2, 0, 4], vec![7, 6, 5]]);
    assert_eq!(zero, (1, 1));
}

#[test]
fn replay_moves_the_tile_into_the_blank() {
    let mut board = vec![vec![2, 8, 3], vec![1, 6, 4], vec![7, 0, 5]];
    let route = [(2, 1), (1, 1), (0, 1), (0, 0), (1, 0), (1, 1)];
    for k in 1..route.len() {
        apply_step(&mut board, route[k - 1], route[k]);
    }
    assert_eq!(board, vec![vec![1, 2, 3], vec![8, 0, 4], vec![7, 6, 5]]);
}

#[test]
fn dealing_takes_labels_from_the_back() {
    let board = deal_board(vec![0, 1, 2, 3, 4, 5, 6, 7, 8], 3);
    assert_eq!(board, vec![vec![8, 7, 6], vec![5, 4, 3], vec![2, 1, 0]]);
    assert_eq!(deal_board(vec![3, 0, 2, 1], 2), vec![vec![1, 2], vec![0, 3]]);
    assert_eq!(deal_board(vec![], 0), Vec::<Vec<usize>>::new());
}
