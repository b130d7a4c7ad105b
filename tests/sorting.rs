use algorithms::bubble_sort::sort;

#[test]
fn lib_it_works() {
    let mut arr = vec![1, 3, 2];
    sort(&mut arr);
    assert_eq!(arr, [1, 2, 3]);
}

#[test]
fn it_works_longer() {
    let mut arr = vec![1, 3, 2, 5, 9, 0, 20, 300, 4, 5, 6, 2, 1];
    sort(&mut arr);
    assert_eq!(arr, [0, 1, 1, 2, 2, 3, 4, 5, 5, 6, 9, 20, 300]);
}

#[test]
fn bubble_sort_edges() {
    let mut empty: Vec<i32> = vec![];
    sort(&mut empty);
    assert_eq!(empty, Vec::<i32>::new());
    let mut one = vec![7];
    sort(&mut one);
    assert_eq!(one, [7]);
    let mut rev = vec![5, 4, 3, 2, 1, i32::MIN, i32::MAX];
    sort(&mut rev);
    assert_eq!(rev, [i32::MIN, 1, 2, 3, 4, 5, i32::MAX]);
}

fn is_sorted(a: &[i32]) -> bool {
    for i in 1..a.len() {
        if a[i - 1] > a[i] {
            return false;
        }
    }
    true
}

#[test]
fn quick_sort_it_works() {
    let mut a = vec![1, 5, 7, 3, 9, 6, 7, 5, 4, 5, 6, 7, 8];
    algorithms::quick_sort::quick_sort(&mut a);
    assert!(is_sorted(&a));
    assert_eq!(a, [1, 3, 4, 5, 5, 5, 6, 6, 7, 7, 7, 8, 9]);
}

#[test]
fn quick_sort_many() {
    let mut a: Vec<i32> = (0..1000).map(|i: i32| (i * 7919) % 1009 - 500).collect();
    let mut b = a.clone();
    algorithms::quick_sort::quick_sort(&mut a);
    b.sort();
    assert_eq!(a, b);
    let mut empty: Vec<i32> = vec![];
    algorithms::quick_sort::quick_sort(&mut empty);
    assert!(empty.is_empty());
}

#[test]
fn partition_places_pivot() {
    let mut a = vec![9, 2, 7, 4, 1];
    let m = algorithms::quick_sort::partition(&mut a, 0, 5);
    assert_eq!(a[m], 7);
    assert!(a[..m].iter().all(|&x| x <= 7));
    assert!(a[m + 1..].iter().all(|&x| x > 7));
}
