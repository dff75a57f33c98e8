use shortest_path::binary_search::binary_search_condition;
use shortest_path::binary_search::find_peak;
use shortest_path::binary_search::search_matrix;

#[test]
fn test_find_peak() {
    assert_eq!(find_peak(&[1, 3, 5, 7, 6, 4, 2]), Some(3));
    assert_eq!(find_peak(&[1, 2, 3, 4, 5]), Some(4));
    assert_eq!(find_peak(&[5, 4, 3, 2, 1]), Some(0));
    assert_eq!(find_peak(&[1, 3, 2]), Some(1));
}

#[test]
fn test_binary_search_condition() {
    let result = binary_search_condition(1, 100, |x| x * x >= 100);
    assert_eq!(result, Some(10));

    let result = binary_search_condition(1, 100, |x| x * x * x >= 1000);
    assert_eq!(result, Some(10));
}

#[test]
fn test_search_matrix() {
    let matrix = vec![
        vec![1, 4, 7, 11],
        vec![2, 5, 8, 12],
        vec![3, 6, 9, 16],
    ];
    assert_eq!(search_matrix(&matrix, 5), true);
    assert_eq!(search_matrix(&matrix, 13), false);
}

#[test]
fn find_peak_empty_and_single() {
    assert_eq!(find_peak(&[]), None);
    assert_eq!(find_peak(&[42]), Some(0));
}

#[test]
fn binary_search_condition_no_hit() {
    assert_eq!(binary_search_condition(1, 10, |x| x > 100), None);
    assert_eq!(binary_search_condition(10, 1, |_x| true), None);
    assert_eq!(binary_search_condition(3, 3, |x| x >= 2), Some(3));
}

#[test]
fn search_matrix_edges() {
    let empty: Vec<Vec<i32>> = Vec::new();
    assert_eq!(search_matrix(&empty, 1), false);
    let one = vec![vec![7]];
    assert_eq!(search_matrix(&one, 7), true);
    assert_eq!(search_matrix(&one, 8), false);
}
