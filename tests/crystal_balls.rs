use algorithms::crystal_balls::{int_sqrt, search};

#[test]
fn test_breaks() {
    let breaks = vec![false, false, false, false, false, true, true, true, true];
    assert_eq!(search(breaks), Some(5));
}

#[test]
fn test_not() {
    let breaks = vec![false, false, false, false, false];
    assert_eq!(search(breaks), Some(5));
}

#[test]
fn test_empty() {
    let breaks = vec![];
    assert_eq!(search(breaks), None);
}

#[test]
fn test_breaks_always() {
    let breaks = vec![true];
    assert_eq!(search(breaks), None);
}

#[test]
fn breaks_at_every_height() {
    for n in 1..40usize {
        for first in 1..=n {
            let breaks: Vec<bool> = (0..n).map(|i| i >= first).collect();
            assert_eq!(search(breaks), Some(first));
        }
    }
}

#[test]
fn square_roots() {
    assert_eq!(int_sqrt(0), 0);
    assert_eq!(int_sqrt(1), 1);
    assert_eq!(int_sqrt(8), 2);
    assert_eq!(int_sqrt(9), 3);
    assert_eq!(int_sqrt(99), 9);
}
