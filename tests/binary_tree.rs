use algorithms::binary_tree::BinaryTree;

fn leaf(v: i32) -> BinaryTree<i32> {
    BinaryTree::join(BinaryTree::new(), v, BinaryTree::new())
}

fn create_tree() -> BinaryTree<i32> {
    BinaryTree::join(
        BinaryTree::join(leaf(-5), 0, leaf(5)),
        10,
        BinaryTree::join(BinaryTree::join(leaf(14), 15, leaf(16)), 20, leaf(25)),
    )
}

fn create_small_tree() -> BinaryTree<i32> {
    BinaryTree::join(BinaryTree::join(BinaryTree::new(), 0, leaf(5)), 10, leaf(20))
}

#[test]
fn find() {
    let t = create_tree();
    assert!(t.find(10));
    assert!(t.find(0));
    assert!(t.find(-5));
    assert!(t.find(5));
    assert!(t.find(20));
    assert!(t.find(15));
    assert!(t.find(14));
    assert!(t.find(16));
    assert!(t.find(25));
    assert!(!t.find(30));
}

#[test]
fn search_insert() {
    let w = create_tree();
    let mut g = BinaryTree::new();
    g.insert(10);
    g.insert(0);
    g.insert(20);
    g.insert(15);
    g.insert(14);
    g.insert(25);
    g.insert(-5);
    g.insert(16);
    g.insert(5);

    assert_eq!(g, w);
}

#[test]
fn insert_equal_value_goes_left() {
    let mut g = BinaryTree::new();
    g.insert(3);
    g.insert(3);
    assert_eq!(g, BinaryTree::join(leaf(3), 3, BinaryTree::new()));
    assert!(g.find(3));
    assert!(!g.find(4));
}

#[test]
fn simple_eq() {
    let t1 = BinaryTree::join(leaf(1), 0, BinaryTree::new());
    let t2 = BinaryTree::join(leaf(1), 0, BinaryTree::new());

    assert_eq!(t1, t2);
}

#[test]
fn medium_eq() {
    let t1 = BinaryTree::join(leaf(1), 0, leaf(2));
    let t2 = BinaryTree::join(leaf(1), 0, leaf(2));
    let t3 = BinaryTree::join(BinaryTree::join(leaf(2), 1, BinaryTree::new()), 0, BinaryTree::new());

    assert_eq!(t1, t2);
    assert_ne!(t1, t3);
}

#[test]
fn traversal_in_order() {
    let t = create_small_tree();
    assert_eq!(t.in_order(), [0, 5, 10, 20]);
}

#[test]
fn traversal_pre_order() {
    let t = create_small_tree();
    assert_eq!(t.pre_order(), [10, 0, 5, 20]);
}

#[test]
fn traversal_post_order() {
    let t = create_small_tree();
    assert_eq!(t.post_order(), [5, 0, 20, 10]);
}

#[test]
fn in_order_out_param() {
    let t = create_small_tree();
    assert_eq!(t.in_order_out_param(), [0, 5, 10, 20]);
}

#[test]
fn pre_order_out_param() {
    let t = create_small_tree();
    assert_eq!(t.pre_order_out_param(), [10, 0, 5, 20]);
}

#[test]
fn post_order_out_param() {
    let t = create_small_tree();
    assert_eq!(t.post_order_out_param(), [5, 0, 20, 10]);
}

#[test]
fn breadth_first() {
    let t = create_tree();
    assert_eq!(t.breadth_first(), [10, 0, 20, -5, 5, 15, 25, 14, 16]);
}

#[test]
fn breadth_first_search() {
    let t = create_tree();
    assert!(t.breadth_first_search(10));
    assert!(t.breadth_first_search(0));
    assert!(t.breadth_first_search(20));
    assert!(t.breadth_first_search(-5));
    assert!(t.breadth_first_search(5));
    assert!(t.breadth_first_search(15));
    assert!(t.breadth_first_search(25));
    assert!(t.breadth_first_search(14));
    assert!(t.breadth_first_search(16));
    assert!(!t.breadth_first_search(-1));
}

#[test]
fn traversal_functional_in_order() {
    let t = create_tree();
    assert_eq!(t.in_order(), [-5, 0, 5, 10, 14, 15, 16, 20, 25]);
}

#[test]
fn traversal_functional_pre_order() {
    let t = create_tree();
    assert_eq!(t.pre_order(), [10, 0, -5, 5, 20, 15, 14, 16, 25]);
}

#[test]
fn traversal_functional_post_order() {
    let t = create_tree();
    assert_eq!(t.post_order(), [-5, 5, 0, 14, 16, 15, 25, 20, 10]);
}

#[test]
fn in_order_proc() {
    let t = create_tree();
    assert_eq!(t.in_order_proc(), [-5, 0, 5, 10, 14, 15, 16, 20, 25]);
}

#[test]
fn pre_order_proc() {
    let t = create_tree();
    assert_eq!(t.pre_order_proc(), [10, 0, -5, 5, 20, 15, 14, 16, 25]);
}

#[test]
fn post_order_proc() {
    let t = create_tree();
    assert_eq!(t.post_order_proc(), [-5, 5, 0, 14, 16, 15, 25, 20, 10]);
}

#[test]
fn empty_tree_traversals() {
    let t: BinaryTree<i32> = BinaryTree::new();
    assert!(t.in_order().is_empty());
    assert!(t.breadth_first().is_empty());
    assert!(!t.breadth_first_search(0));
    assert!(!t.find(0));
}
