use bst::combinations::combinations;
use bst::combinations::pick;
use bst::combinations_v2::combinations as combinations_by_loop;

#[test]
fn combinations_of_two_out_of_four() {
    let expected = vec![vec![1, 2], vec![1, 3], vec![1, 4], vec![2, 3], vec![2, 4], vec![3, 4]];
    assert_eq!(combinations(&[1, 2, 3, 4], 2), expected);
    assert_eq!(combinations_by_loop(&[1, 2, 3, 4], 2), expected);
}

#[test]
fn combinations_of_none() {
    let expected: Vec<Vec<i32>> = vec![vec![]];
    assert_eq!(combinations(&[1, 2, 3], 0), expected);
    assert_eq!(combinations_by_loop(&[1, 2, 3], 0), expected);
    assert_eq!(combinations(&[], 0), expected);
    assert_eq!(combinations_by_loop(&[], 0), expected);
}

#[test]
fn combinations_of_all() {
    assert_eq!(combinations(&[7, 8, 9], 3), vec![vec![7, 8, 9]]);
    assert_eq!(combinations_by_loop(&[7, 8, 9], 3), vec![vec![7, 8, 9]]);
}

#[test]
fn combinations_of_too_many() {
    let expected: Vec<Vec<i32>> = vec![];
    assert_eq!(combinations(&[1, 2], 3), expected);
    assert_eq!(combinations_by_loop(&[1, 2], 3), expected);
    assert_eq!(combinations(&[], 1), expected);
    assert_eq!(combinations_by_loop(&[], 1), expected);
}

#[test]
fn combinations_keep_equal_elements() {
    let expected = vec![vec![5, 5], vec![5, 6], vec![5, 6]];
    assert_eq!(combinations(&[5, 5, 6], 2), expected);
    assert_eq!(combinations_by_loop(&[5, 5, 6], 2), expected);
}

#[test]
fn combinations_of_three_out_of_five() {
    let expected = vec![
        vec![1, 2, 3],
        vec![1, 2, 4],
        vec![1, 2, 5],
        vec![1, 3, 4],
        vec![1, 3, 5],
        vec![1, 4, 5],
        vec![2, 3, 4],
        vec![2, 3, 5],
        vec![2, 4, 5],
        vec![3, 4, 5],
    ];
    assert_eq!(combinations(&[1, 2, 3, 4, 5], 3), expected);
    assert_eq!(combinations_by_loop(&[1, 2, 3, 4, 5], 3), expected);
}

#[test]
fn combinations_count_is_binomial() {
    let arr: Vec<i32> = (0..12).collect();
    let counts = [1, 12, 66, 220, 495, 792, 924, 792, 495, 220, 66, 12, 1];
    for k in 0..=12 {
        let all = combinations(&arr, k);
        assert_eq!(all.len(), counts[k]);
        assert_eq!(combinations_by_loop(&arr, k), all);
    }
}

#[test]
fn pick_takes_the_named_places() {
    assert_eq!(pick(&[10, 20, 30, 40], &vec![3, 0, 0, 2]), vec![40, 10, 10, 30]);
    assert_eq!(pick(&[10, 20], &vec![]), Vec::<i32>::new());
}
