use algorithms::priority_queue::PriorityQueue;

#[test]
fn it_works() {
    let mut q = PriorityQueue::new();
    let mut elements = [300, 20, 40, 10, 1, 0, -100, 30, 30, 30, 30, 420];
    for v in elements {
        q.push(v);
    }

    elements.sort();
    for v in elements {
        assert_eq!(q.pop().unwrap(), v);
    }
    assert!(q.pop().is_none());
}

#[test]
fn queue_len_follows_pushes_and_pops() {
    let mut q: PriorityQueue<i32> = PriorityQueue::new();
    assert_eq!(q.len(), 0);
    q.push(5);
    q.push(-5);
    assert_eq!(q.len(), 2);
    assert_eq!(q.pop(), Some(-5));
    assert_eq!(q.len(), 1);
}
