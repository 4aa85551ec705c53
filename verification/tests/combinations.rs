use mipt_rust::combinations::combinations;

#[test]
fn three_of_five() {
    assert_eq!(
        combinations(&[4, 5, 3, 2, 1], 3),
        vec![
            vec![4, 5, 3],
            vec![4, 5, 2],
            vec![4, 5, 1],
            vec![4, 3, 2],
            vec![4, 3, 1],
            vec![4, 2, 1],
            vec![5, 3, 2],
            vec![5, 3, 1],
            vec![5, 2, 1],
            vec![3, 2, 1],
        ]
    );
}

#[test]
fn edge_cases() {
    assert_eq!(combinations(&[1, 2, 3], 0), vec![Vec::<i32>::new()]);
    assert_eq!(combinations(&[], 2), Vec::<Vec<i32>>::new());
    assert_eq!(combinations(&[7], 1), vec![vec![7]]);
    assert_eq!(combinations(&[1, 2, 3], 1), vec![vec![1], vec![2], vec![3]]);
    assert_eq!(combinations(&[1, 2, 3], 2), vec![vec![1, 2], vec![1, 3], vec![2, 3]]);
}
