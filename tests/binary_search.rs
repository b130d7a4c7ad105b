use algorithms::binary_search::{search, search_rec};

#[test]
fn test_middle() {
    let arr = vec![0, 1, 2, 3, 4];
    assert_eq!(search(arr, 2), Some(2));
}

#[test]
fn test_left_middle() {
    let arr = vec![0, 1, 2, 3, 4];
    assert_eq!(search(arr, 1), Some(1));
}

#[test]
fn test_not_found() {
    let arr = vec![0, 1, 2, 3, 4];
    assert_eq!(search(arr, 5), None);
}

#[test]
fn test_even() {
    let arr = vec![0, 1, 2, 3];
    assert_eq!(search(arr, 2), Some(2));
}

#[test]
fn test_rec_middle() {
    let arr = vec![0, 1, 2, 3, 4];
    assert_eq!(search_rec(arr, 2), Some(2));
}

#[test]
fn test_rec_left_middle() {
    let arr = vec![0, 1, 2, 3, 4];
    assert_eq!(search_rec(arr, 1), Some(1));
}

#[test]
fn test_rec_not_found() {
    let arr = vec![0, 1, 2, 3, 4];
    assert_eq!(search_rec(arr, 5), None);
}

#[test]
fn test_rec_even() {
    let arr = vec![0, 1, 2, 3];
    assert_eq!(search_rec(arr, 2), Some(2));
}

#[test]
fn search_empty_and_edges() {
    assert_eq!(search(vec![], 1), None);
    assert_eq!(search_rec(vec![], 1), None);
    assert_eq!(search(vec![-3, 0, 7], -3), Some(0));
    assert_eq!(search_rec(vec![-3, 0, 7], 7), Some(2));
    assert_eq!(search(vec![-3, 0, 7], -4), None);
}
