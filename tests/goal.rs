use npuzzle::construct_basic_goal;

#[test]
fn goal_of_side_one_is_the_blank() {
    assert_eq!(construct_basic_goal(1), vec![vec![0]]);
}

#[test]
fn goal_of_side_two() {
    assert_eq!(construct_basic_goal(2), vec![vec![1, 2], vec![0, 3]]);
}

#[test]
fn goal_of_side_three_is_the_spiral() {
    assert_eq!(
        construct_basic_goal(3),
        vec![vec![1, 2, 3], vec![8, 0, 4], vec![7, 6, 5]]
    );
}

#[test]
fn goal_of_side_four_is_the_spiral() {
    assert_eq!(
        construct_basic_goal(4),
        vec![
            vec![1, 2, 3, 4],
            vec![12, 13, 14, 5],
            vec![11, 0, 15, 6],
            vec![10, 9, 8, 7]
        ]
    );
}

#[test]
fn goal_of_side_five_is_the_spiral() {
    assert_eq!(
        construct_basic_goal(5),
        vec![
            vec![1, 2, 3, 4, 5],
            vec![16, 17, 18, 19, 6],
            vec![15, 24, 0, 20, 7],
            vec![14, 23, 22, 21, 8],
            vec![13, 12, 11, 10, 9]
        ]
    );
}

#[test]
fn goal_holds_every_label_once_and_one_blank() {
    for n in 1..=9usize {
        let g = construct_basic_goal(n);
        assert_eq!(g.len(), n);
        let mut seen = vec![0usize; n * n];
        let mut zeros = 0;
        for (i, row) in g.iter().enumerate() {
            assert_eq!(row.len(), n);
            for (j, &v) in row.iter().enumerate() {
                assert!(v < n * n);
                seen[v] += 1;
                if v == 0 {
                    zeros += 1;
                    assert_eq!((i, j), (n / 2, (n - 1) / 2));
                }
            }
        }
        assert_eq!(zeros, 1);
        assert!(seen.iter().all(|&c| c == 1));
    }
}
