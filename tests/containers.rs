use algorithms::array_list::ArrayList;
use algorithms::double;
use algorithms::error::AccessError;
use algorithms::queue::Queue;
use algorithms::ring_buffer::RingBuffer;
use algorithms::single;
use algorithms::stack::Stack;

#[test]
fn array_list_it_works() {
    let mut a = ArrayList::<i32>::new();

    a.push(0);
    a.push(1);
    a.push(2);
    a.push(3);

    assert!(a.at(0).is_ok_and(|i| i == 0));
    assert!(a.at(1).is_ok_and(|i| i == 1));
    assert!(a.at(2).is_ok_and(|i| i == 2));
    assert!(a.at(3).is_ok_and(|i| i == 3));
    assert!(a.at(4).is_err());

    assert!(a.pop().is_ok_and(|i| i == 3));
    assert!(a.pop().is_ok_and(|i| i == 2));
    assert!(a.pop().is_ok_and(|i| i == 1));
    assert!(a.pop().is_ok_and(|i| i == 0));
    assert!(a.pop().is_err());
}

#[test]
fn array_list_grows() {
    let mut a = ArrayList::<i32>::new();
    for i in 0..23 {
        a.push(i);
    }
    for i in 0..23 {
        assert_eq!(a.at(i as usize), Ok(i));
    }
    assert_eq!(a.at(23), Err(AccessError::OutOfBounds(23)));
    assert_eq!(a.pop(), Ok(22));
}

#[test]
fn it_works_as_array_list() {
    let mut r = RingBuffer::<i32>::new();

    r.push(0);
    r.push(1);
    r.push(2);
    r.push(3);

    assert!(r.at(0).is_ok_and(|i| i == 0));
    assert!(r.at(1).is_ok_and(|i| i == 1));
    assert!(r.at(2).is_ok_and(|i| i == 2));
    assert!(r.at(3).is_ok_and(|i| i == 3));
    assert!(r.at(4).is_err());

    assert!(r.pop().is_ok_and(|i| i == 3));
    assert!(r.pop().is_ok_and(|i| i == 2));
    assert!(r.pop().is_ok_and(|i| i == 1));
    assert!(r.pop().is_ok_and(|i| i == 0));
    assert!(r.pop().is_err());
}

#[test]
fn deque_works() {
    let mut r = RingBuffer::<i32>::new();

    r.push(1);
    assert!(r.deque().is_ok_and(|i| i == 1));
    assert!(r.deque().is_err());

    for i in 2..14 {
        r.push(i);
    }
    assert!(r.deque().is_ok_and(|i| i == 2));
    assert_eq!(r.len(), 11);
}

#[test]
fn test_resize_across_edge() {
    let mut r = RingBuffer::<i32>::new();

    for i in 0..12 {
        r.push(i);
    }
    for i in 0..8 {
        assert!(r.deque().is_ok_and(|j| j == i));
    }
    for i in 12..28 {
        r.push(i);
    }
    for i in 8..28 {
        assert!(r.deque().is_ok_and(|j| j == i));
    }
    assert!(r.deque().is_err());
}

#[test]
fn test_deque_across_edge() {
    let mut r = RingBuffer::<i32>::new();

    for i in 0..12 {
        r.push(i);
    }
    for i in 0..8 {
        assert!(r.deque().is_ok_and(|j| j == i));
    }
    for i in 12..28 {
        r.push(i);
    }
    assert_eq!(r.len(), 20);
}

#[test]
fn ring_buffer_positions_after_wrap() {
    let mut r = RingBuffer::<i32>::new();
    for i in 0..5 {
        r.push(i);
    }
    assert_eq!(r.deque(), Ok(0));
    assert_eq!(r.deque(), Ok(1));
    r.push(5);
    r.push(6);
    for k in 0..5 {
        assert_eq!(r.at(k), Ok(k as i32 + 2));
    }
    assert_eq!(r.at(5), Err(AccessError::OutOfBounds(5)));
    assert_eq!(r.pop(), Ok(6));
    assert_eq!(r.deque(), Ok(2));
}

#[test]
fn stack_it_works() {
    let mut s = Stack::new();
    assert!(s.peek().is_none());
    s.push(0);
    assert!(s.peek().is_some_and(|i| i == 0));
    assert!(s.pop().is_some_and(|i| i == 0));
    assert!(s.peek().is_none());
    assert!(s.pop().is_none());
    s.push(1);
    s.push(2);
    s.push(3);
    assert!(s.peek().is_some_and(|i| i == 3));
    assert!(s.pop().is_some_and(|i| i == 3));
    assert!(s.pop().is_some_and(|i| i == 2));
    assert!(s.pop().is_some_and(|i| i == 1));
    assert!(s.pop().is_none());
}

#[test]
fn queue_it_works() {
    let mut q = Queue::new();
    assert!(q.peek().is_none());
    q.enqueue(0);
    assert!(q.peek().is_some_and(|i| i == 0));
    assert!(q.deque().is_some_and(|i| i == 0));
    assert!(q.peek().is_none());
    assert!(q.deque().is_none());
    q.enqueue(1);
    q.enqueue(2);
    q.enqueue(3);
    assert!(q.peek().is_some_and(|i| i == 1));
    assert!(q.deque().is_some_and(|i| i == 1));
    assert!(q.deque().is_some_and(|i| i == 2));
    assert!(q.deque().is_some_and(|i| i == 3));
    assert!(q.deque().is_none());
}

#[test]
fn insert_at() {
    let mut l: single::List<i32> = single::List::new();
    l.push(2);
    l.push(1);
    l.push(0);

    assert!(l.insert_at(1, -1).is_ok());
    assert!(l.get_at(1).is_ok_and(|i| i == -1));
    assert!(l.get_at(0).is_ok_and(|i| i == 0));
    assert!(l.get_at(2).is_ok_and(|i| i == 1));
    assert!(l.get_at(3).is_ok_and(|i| i == 2));
}

#[test]
fn delete_at() {
    let mut l: single::List<i32> = single::List::new();
    l.push(2);
    l.push(1);
    l.push(0);

    assert!(l.delete_at(1).is_ok_and(|i| i == 1));
    assert!(l.delete_at(3).is_err());
    assert!(l.get_at(0).is_ok_and(|i| i == 0));
    assert!(l.get_at(1).is_ok_and(|i| i == 2));
}

#[test]
fn get_at() {
    let mut l: single::List<i32> = single::List::new();
    l.push(0);
    l.push(1);
    l.push(2);

    assert!(l.get_at(1).is_ok_and(|i| i == 1));
    assert!(l.get_at(3).is_err());
}

#[test]
fn stack_works() {
    let mut l: single::List<i32> = single::List::new();
    l.push(0);
    l.push(1);
    l.push(2);

    assert!(l.pop().is_ok_and(|i| i == 2));
    assert!(l.pop().is_ok_and(|i| i == 1));
    assert!(l.pop().is_ok_and(|i| i == 0));
    assert!(l.pop().is_err());
}

#[test]
fn single_list_errors() {
    let mut l: single::List<i32> = single::List::new();
    assert_eq!(l.get_at(0), Err(AccessError::Empty));
    assert_eq!(l.delete_at(2), Err(AccessError::Empty));
    assert_eq!(l.insert_at(1, 5), Err(AccessError::Empty));
    assert_eq!(l.insert_at(0, 5), Ok(()));
    assert_eq!(l.insert_at(3, 6), Err(AccessError::OutOfBounds(3)));
    assert_eq!(l.insert_at(1, 6), Ok(()));
    assert_eq!(l.get_at(1), Ok(6));
    assert_eq!(l.delete_at(0), Ok(5));
    assert_eq!(l.get_at(1), Err(AccessError::OutOfBounds(1)));
}

fn list_equals(l: &double::List<i32>, v: &[i32]) -> bool {
    if l.len() != v.len() {
        return false;
    }
    for i in 0..l.len() {
        if l.get(i).unwrap() != v[i] {
            return false;
        }
    }
    true
}

#[test]
fn append() {
    let mut l = double::List::<i32>::new();
    l.append(0);
    l.append(1);

    assert!(list_equals(&l, &[0, 1]));
}

#[test]
fn prepend() {
    let mut l = double::List::<i32>::new();
    l.prepend(0);
    l.prepend(1);

    assert!(list_equals(&l, &[1, 0]))
}

#[test]
fn double_insert() {
    let mut l = double::List::<i32>::new();
    l.append(0);
    l.append(1);
    l.append(2);
    l.append(3);
    l.append(4);

    l.insert_at(2, 10).unwrap();

    assert!(list_equals(&l, &[0, 1, 10, 2, 3, 4]))
}

#[test]
fn double_list_bounds() {
    let mut l = double::List::<i32>::new();
    assert_eq!(l.get(0), Err(AccessError::OutOfBounds(0)));
    assert_eq!(l.insert_at(1, 3), Err(AccessError::OutOfBounds(1)));
    assert_eq!(l.insert_at(0, 3), Ok(()));
    assert_eq!(l.insert_at(1, 4), Ok(()));
    assert!(list_equals(&l, &[3, 4]));
}
