//! A binary tree of boxed nodes: search-tree lookup and insertion, the three
//! depth-first orders, and level order.
use vstd::prelude::*;
use std::collections::VecDeque;

verus! {

/// A node of a binary tree, owning its two subtrees.
#[derive(Debug)]
pub struct Node<T> {
    pub value: T,
    pub left: Option<Box<Node<T>>>,
    pub right: Option<Box<Node<T>>>,
}

/// A leaf holding `value`.
fn new_link<T>(value: T) -> (r: Option<Box<Node<T>>>)
    ensures
        r == Some(Box::new(Node { value, left: None, right: None })),
{
    Some(Box::new(Node { value, left: None, right: None }))
}

/// The values of the tree below `link`: left subtree, node, right subtree.
pub open spec fn in_order_of<T>(link: Option<Box<Node<T>>>) -> Seq<T>
    decreases link,
{
    match link {
        None => Seq::empty(),
        Some(n) => in_order_of(n.left) + seq![n.value] + in_order_of(n.right),
    }
}

/// The values of the tree below `link`: node, left subtree, right subtree.
pub open spec fn pre_order_of<T>(link: Option<Box<Node<T>>>) -> Seq<T>
    decreases link,
{
    match link {
        None => Seq::empty(),
        Some(n) => seq![n.value] + pre_order_of(n.left) + pre_order_of(n.right),
    }
}

/// The values of the tree below `link`: left subtree, right subtree, node.
pub open spec fn post_order_of<T>(link: Option<Box<Node<T>>>) -> Seq<T>
    decreases link,
{
    match link {
        None => Seq::empty(),
        Some(n) => post_order_of(n.left) + post_order_of(n.right) + seq![n.value],
    }
}

/// The tree below `link` holds `x`.
pub open spec fn holds<T>(link: Option<Box<Node<T>>>, x: T) -> bool
    decreases link,
{
    match link {
        None => false,
        Some(n) => n.value == x || holds(n.left, x) || holds(n.right, x),
    }
}

/// A search tree: at each node, the left subtree holds values no greater than
/// the node's and the right subtree values greater than it.
pub open spec fn is_search_tree(link: Option<Box<Node<i32>>>) -> bool
    decreases link,
{
    match link {
        None => true,
        Some(n) => {
            &&& is_search_tree(n.left)
            &&& is_search_tree(n.right)
            &&& forall|x: i32| holds(n.left, x) ==> x <= n.value
            &&& forall|x: i32| holds(n.right, x) ==> x > n.value
        },
    }
}

/// The tree below `link` after inserting `v` as a search tree does: at the
/// first empty place on the way down, left where `v` is no greater than the
/// node's value, right otherwise.
pub open spec fn inserted(link: Option<Box<Node<i32>>>, v: i32) -> Option<Box<Node<i32>>>
    decreases link,
{
    match link {
        None => Some(Box::new(Node { value: v, left: None, right: None })),
        Some(n) => if v <= n.value {
            Some(Box::new(Node { value: n.value, left: inserted(n.left, v), right: n.right }))
        } else {
            Some(Box::new(Node { value: n.value, left: n.left, right: inserted(n.right, v) }))
        },
    }
}

/// The number of nodes and empty places below `link`.
pub open spec fn size<T>(link: Option<Box<Node<T>>>) -> nat
    decreases link,
{
    match link {
        None => 1,
        Some(n) => 1 + size(n.left) + size(n.right),
    }
}

/// The number of nodes and empty places in all the trees of `q`.
pub open spec fn forest_size<T>(q: Seq<Option<Box<Node<T>>>>) -> nat
    decreases q.len(),
{
    if q.len() == 0 {
        0
    } else {
        forest_size(q.drop_last()) + size(q.last())
    }
}

/// The size of a forest is that of its first tree plus that of the rest.
pub proof fn lemma_forest_size_first<T>(q: Seq<Option<Box<Node<T>>>>)
    requires
        q.len() > 0,
    ensures
        forest_size(q) == size(q[0]) + forest_size(q.drop_first()),
    decreases q.len(),
{
    assert(forest_size(q) == forest_size(q.drop_last()) + size(q.last()));
    if q.len() > 1 {
        lemma_forest_size_first(q.drop_last());
        assert(forest_size(q.drop_first()) == forest_size(q.drop_first().drop_last()) + size(
            q.drop_first().last(),
        ));
        assert(q.drop_last().drop_first() =~= q.drop_first().drop_last());
        assert(q.drop_first().last() == q.last());
        assert(q.drop_last()[0] == q[0]);
    } else {
        assert(q.drop_last().len() == 0);
        assert(q.drop_first().len() == 0);
        assert(q.last() == q[0]);
    }
}

/// The values of the trees in the queue `q`, in level order: the roots are
/// taken in turn from the front, and the subtrees of each node join the back.
pub open spec fn level_order_of<T>(q: Seq<Option<Box<Node<T>>>>) -> Seq<T>
    decreases forest_size(q),
    via level_order_decreases::<T>
{
    if q.len() == 0 {
        Seq::empty()
    } else {
        match q[0] {
            None => level_order_of(q.drop_first()),
            Some(n) => seq![n.value] + level_order_of(q.drop_first().push(n.left).push(n.right)),
        }
    }
}

#[via_fn]
proof fn level_order_decreases<T>(q: Seq<Option<Box<Node<T>>>>) {
    if q.len() > 0 {
        lemma_queue_step_smaller(q);
    }
}

/// Taking the first tree off a queue, and putting its subtrees at the back if
/// it is a node, makes the queue smaller.
proof fn lemma_queue_step_smaller<T>(q: Seq<Option<Box<Node<T>>>>)
    requires
        q.len() > 0,
    ensures
        q[0] is None ==> forest_size(q.drop_first()) < forest_size(q),
        q[0] matches Some(n) ==> forest_size(q.drop_first().push(n.left).push(n.right)) < forest_size(q),
{
    lemma_forest_size_first(q);
    match q[0] {
        None => {},
        Some(n) => {
            let r = q.drop_first().push(n.left).push(n.right);
            assert(r.drop_last() =~= q.drop_first().push(n.left));
            assert(r.drop_last().drop_last() =~= q.drop_first());
            assert(forest_size(r) == forest_size(r.drop_last()) + size(n.right));
            assert(forest_size(r.drop_last()) == forest_size(r.drop_last().drop_last()) + size(n.left));
            assert(size(q[0]) == 1 + size(n.left) + size(n.right));
        },
    }
}

/// The trees that a queue of references points to.
pub open spec fn trees_of<'a, T>(q: Seq<&'a Option<Box<Node<T>>>>) -> Seq<Option<Box<Node<T>>>> {
    q.map_values(|r: &'a Option<Box<Node<T>>>| *r)
}

/// Some tree of the queue `q` holds `x`.
pub open spec fn forest_holds<T>(q: Seq<Option<Box<Node<T>>>>, x: T) -> bool
    decreases q.len(),
{
    q.len() > 0 && (holds(q[0], x) || forest_holds(q.drop_first(), x))
}

/// A tree joining the back of a queue adds what it holds.
proof fn lemma_forest_holds_push<T>(q: Seq<Option<Box<Node<T>>>>, a: Option<Box<Node<T>>>, x: T)
    ensures
        forest_holds(q.push(a), x) <==> forest_holds(q, x) || holds(a, x),
    decreases q.len(),
{
    if q.len() > 0 {
        lemma_forest_holds_push(q.drop_first(), a, x);
        assert(q.push(a).drop_first() =~= q.drop_first().push(a));
    } else {
        assert(q.push(a).drop_first() =~= q);
    }
}

/// Collects the values below `link` in order.
fn inorder_step<T: Copy>(link: &Option<Box<Node<T>>>) -> (r: Vec<T>)
    ensures
        r@ == in_order_of(*link),
    decreases link,
{
    match link {
        None => Vec::new(),
        Some(node) => {
            let mut res = inorder_step(&node.left);
            res.push(node.value);
            let mut right = inorder_step(&node.right);
            res.append(&mut right);
            res
        },
    }
}

/// Collects the values below `link` in pre-order.
fn preorder_step<T: Copy>(link: &Option<Box<Node<T>>>) -> (r: Vec<T>)
    ensures
        r@ == pre_order_of(*link),
    decreases link,
{
    match link {
        None => Vec::new(),
        Some(node) => {
            let mut res = vec![node.value];
            let mut left = preorder_step(&node.left);
            res.append(&mut left);
            let mut right = preorder_step(&node.right);
            res.append(&mut right);
            res
        },
    }
}

/// Collects the values below `link` in post-order.
fn postorder_step<T: Copy>(link: &Option<Box<Node<T>>>) -> (r: Vec<T>)
    ensures
        r@ == post_order_of(*link),
    decreases link,
{
    match link {
        None => Vec::new(),
        Some(node) => {
            let mut res = postorder_step(&node.left);
            let mut right = postorder_step(&node.right);
            res.append(&mut right);
            res.push(node.value);
            res
        },
    }
}

/// Appends the values below `link` to `res`, in order.
fn walk_in_order<T: Copy>(link: &Option<Box<Node<T>>>, res: &mut Vec<T>)
    ensures
        final(res)@ == old(res)@ + in_order_of(*link),
    decreases link,
{
    match link {
        None => {
            assert(res@ =~= old(res)@ + in_order_of(*link));
        },
        Some(node) => {
            walk_in_order(&node.left, res);
            res.push(node.value);
            walk_in_order(&node.right, res);
            assert(res@ =~= old(res)@ + in_order_of(*link));
        },
    }
}

/// Appends the values below `link` to `res`, in pre-order.
fn walk_pre_order<T: Copy>(link: &Option<Box<Node<T>>>, res: &mut Vec<T>)
    ensures
        final(res)@ == old(res)@ + pre_order_of(*link),
    decreases link,
{
    match link {
        None => {
            assert(res@ =~= old(res)@ + pre_order_of(*link));
        },
        Some(node) => {
            res.push(node.value);
            walk_pre_order(&node.left, res);
            walk_pre_order(&node.right, res);
            assert(res@ =~= old(res)@ + pre_order_of(*link));
        },
    }
}

/// Appends the values below `link` to `res`, in post-order.
fn walk_post_order<T: Copy>(link: &Option<Box<Node<T>>>, res: &mut Vec<T>)
    ensures
        final(res)@ == old(res)@ + post_order_of(*link),
    decreases link,
{
    match link {
        None => {
            assert(res@ =~= old(res)@ + post_order_of(*link));
        },
        Some(node) => {
            walk_post_order(&node.left, res);
            walk_post_order(&node.right, res);
            res.push(node.value);
            assert(res@ =~= old(res)@ + post_order_of(*link));
        },
    }
}

/// Whether the trees below `a` and `b` have the same shape and values.
fn eq_link(a: &Option<Box<Node<i32>>>, b: &Option<Box<Node<i32>>>) -> (r: bool)
    ensures
        r == (*a == *b),
    decreases a,
{
    match (a, b) {
        (None, None) => true,
        (Some(x), Some(y)) => {
            if x.value != y.value {
                return false;
            }
            let l = eq_link(&x.left, &y.left);
            if !l {
                return false;
            }
            eq_link(&x.right, &y.right)
        },
        _ => false,
    }
}

/// A binary tree; empty or a root node.
#[derive(Debug)]
pub struct BinaryTree<T> {
    root: Option<Box<Node<T>>>,
}

impl<T> BinaryTree<T> {
    pub closed spec fn root(&self) -> Option<Box<Node<T>>> {
        self.root
    }

    /// The empty tree.
    pub fn new() -> (t: Self)
        ensures
            t.root() == None::<Box<Node<T>>>,
    {
        Self { root: None }
    }

    /// The tree with `value` at its root over the two given subtrees.
    pub fn join(left: BinaryTree<T>, value: T, right: BinaryTree<T>) -> (t: Self)
        ensures
            t.root() == Some(Box::new(Node { value, left: left.root(), right: right.root() })),
    {
        Self { root: Some(Box::new(Node { value, left: left.root, right: right.root })) }
    }
}

impl<T: Copy> BinaryTree<T> {
    /// The values in order: left subtree, root, right subtree.
    pub fn in_order(&self) -> (r: Vec<T>)
        ensures
            r@ == in_order_of(self.root()),
    {
        inorder_step(&self.root)
    }

    /// The values in pre-order: root, left subtree, right subtree.
    pub fn pre_order(&self) -> (r: Vec<T>)
        ensures
            r@ == pre_order_of(self.root()),
    {
        preorder_step(&self.root)
    }

    /// The values in post-order: left subtree, right subtree, root.
    pub fn post_order(&self) -> (r: Vec<T>)
        ensures
            r@ == post_order_of(self.root()),
    {
        postorder_step(&self.root)
    }

    /// The values in order, gathered into one growing vector.
    pub fn in_order_out_param(&self) -> (r: Vec<T>)
        ensures
            r@ == in_order_of(self.root()),
    {
        let mut res = Vec::new();
        walk_in_order(&self.root, &mut res);
        res
    }

    /// The values in pre-order, gathered into one growing vector.
    pub fn pre_order_out_param(&self) -> (r: Vec<T>)
        ensures
            r@ == pre_order_of(self.root()),
    {
        let mut res = Vec::new();
        walk_pre_order(&self.root, &mut res);
        res
    }

    /// The values in post-order, gathered into one growing vector.
    pub fn post_order_out_param(&self) -> (r: Vec<T>)
        ensures
            r@ == post_order_of(self.root()),
    {
        let mut res = Vec::new();
        walk_post_order(&self.root, &mut res);
        res
    }

    /// The values in order, gathered into one growing vector.
    pub fn in_order_proc(&self) -> (r: Vec<T>)
        ensures
            r@ == in_order_of(self.root()),
    {
        self.in_order_out_param()
    }

    /// The values in pre-order, gathered into one growing vector.
    pub fn pre_order_proc(&self) -> (r: Vec<T>)
        ensures
            r@ == pre_order_of(self.root()),
    {
        self.pre_order_out_param()
    }

    /// The values in post-order, gathered into one growing vector.
    pub fn post_order_proc(&self) -> (r: Vec<T>)
        ensures
            r@ == post_order_of(self.root()),
    {
        self.post_order_out_param()
    }

    /// The values in level order: by depth, and left to right within a depth.
    pub fn breadth_first(&self) -> (r: Vec<T>)
        ensures
            r@ == level_order_of(seq![self.root()]),
    {
        let mut res: Vec<T> = Vec::new();
        let mut q: VecDeque<&Option<Box<Node<T>>>> = VecDeque::new();
        q.push_back(&self.root);
        assert(trees_of(q@) =~= seq![self.root()]);
        while q.len() > 0
            invariant
                res@ + level_order_of(trees_of(q@)) == level_order_of(seq![self.root()]),
            decreases forest_size(trees_of(q@)),
        {
            let ghost q0 = trees_of(q@);
            let ghost res0 = res@;
            proof {
                lemma_queue_step_smaller(q0);
            }
            match q.pop_front() {
                None => {},
                Some(curr) => {
                    assert(trees_of(q@) =~= q0.drop_first());
                    match curr {
                        None => {},
                        Some(node) => {
                            q.push_back(&node.left);
                            q.push_back(&node.right);
                            res.push(node.value);
                            proof {
                                let q1 = q0.drop_first().push(node.left).push(node.right);
                                assert(trees_of(q@) =~= q1);
                                assert(res@ + level_order_of(trees_of(q@)) =~= res0 + level_order_of(q0));
                            }
                        },
                    }
                },
            }
        }
        assert(level_order_of(trees_of(q@)) =~= Seq::<T>::empty());
        assert(res@ =~= res@ + level_order_of(trees_of(q@)));
        res
    }
}

impl Node<i32> {
    /// Looks for `value` on the way down a search tree.
    fn find(&self, value: i32) -> (r: bool)
        ensures
            r ==> holds(Some(Box::new(*self)), value),
            is_search_tree(Some(Box::new(*self))) ==> (r <==> holds(Some(Box::new(*self)), value)),
        decreases *self,
    {
        if self.value == value {
            true
        } else if self.value > value {
            let r = walk_find(&self.left, value);
            proof {
                if is_search_tree(Some(Box::new(*self))) && holds(self.right, value) {
                    assert(value > self.value);
                }
            }
            r
        } else {
            let r = walk_find(&self.right, value);
            proof {
                if is_search_tree(Some(Box::new(*self))) && holds(self.left, value) {
                    assert(value <= self.value);
                }
            }
            r
        }
    }

    /// Inserts `value` below this node as a search tree does.
    fn insert(&mut self, value: i32)
        ensures
            Some(Box::new(*final(self))) == inserted(Some(Box::new(*old(self))), value),
        decreases *old(self),
    {
        if self.value >= value {
            insert_link(&mut self.left, value);
        } else {
            insert_link(&mut self.right, value);
        }
    }
}

/// Looks for `value` on the way down the search tree below `link`.
fn walk_find(link: &Option<Box<Node<i32>>>, value: i32) -> (r: bool)
    ensures
        r ==> holds(*link, value),
        is_search_tree(*link) ==> (r <==> holds(*link, value)),
    decreases *link,
{
    match link {
        None => false,
        Some(node) => node.find(value),
    }
}

/// Inserts `value` into the search tree below `link`.
fn insert_link(link: &mut Option<Box<Node<i32>>>, value: i32)
    ensures
        *final(link) == inserted(*old(link), value),
    decreases *old(link),
{
    match link.take() {
        None => {
            *link = new_link(value);
        },
        Some(boxed) => {
            let mut node = *boxed;
            node.insert(value);
            *link = Some(Box::new(node));
        },
    }
}

/// Inserting keeps a search tree one, and adds exactly `v` to what it holds.
pub proof fn lemma_inserted(link: Option<Box<Node<i32>>>, v: i32)
    ensures
        is_search_tree(link) ==> is_search_tree(inserted(link, v)),
        forall|x: i32| holds(inserted(link, v), x) <==> holds(link, x) || x == v,
    decreases link,
{
    match link {
        None => {
            let none = None::<Box<Node<i32>>>;
            assert(is_search_tree(none));
            assert forall|x: i32| !holds(none, x) by {}
            assert(is_search_tree(inserted(link, v)));
            assert forall|x: i32| holds(inserted(link, v), x) <==> holds(link, x) || x == v by {}
        },
        Some(n) => {
            lemma_inserted(n.left, v);
            lemma_inserted(n.right, v);
            let t = inserted(link, v);
            if v <= n.value {
                let m = Node { value: n.value, left: inserted(n.left, v), right: n.right };
                assert(t == Some(Box::new(m)));
                assert forall|x: i32| holds(t, x) <==> holds(link, x) || x == v by {
                    assert(holds(t, x) == (x == m.value || holds(m.left, x) || holds(m.right, x)));
                    assert(holds(link, x) == (x == n.value || holds(n.left, x) || holds(n.right, x)));
                }
                if is_search_tree(link) {
                    assert forall|x: i32| holds(m.left, x) implies x <= m.value by {
                        if holds(n.left, x) {
                            assert(x <= n.value);
                        }
                    }
                    assert(is_search_tree(t));
                }
            } else {
                let m = Node { value: n.value, left: n.left, right: inserted(n.right, v) };
                assert(t == Some(Box::new(m)));
                assert forall|x: i32| holds(t, x) <==> holds(link, x) || x == v by {
                    assert(holds(t, x) == (x == m.value || holds(m.left, x) || holds(m.right, x)));
                    assert(holds(link, x) == (x == n.value || holds(n.left, x) || holds(n.right, x)));
                }
                if is_search_tree(link) {
                    assert forall|x: i32| holds(m.right, x) implies x > m.value by {
                        if holds(n.right, x) {
                            assert(x > n.value);
                        }
                    }
                    assert(is_search_tree(t));
                }
            }
        },
    }
}

impl BinaryTree<i32> {
    /// Whether the search tree holds `value`.
    pub fn find(&self, value: i32) -> (r: bool)
        ensures
            r ==> holds(self.root(), value),
            is_search_tree(self.root()) ==> (r <==> holds(self.root(), value)),
    {
        walk_find(&self.root, value)
    }

    /// Inserts `value` as a search tree does.
    pub fn insert(&mut self, value: i32)
        ensures
            final(self).root() == inserted(old(self).root(), value),
            is_search_tree(old(self).root()) ==> is_search_tree(final(self).root()),
            forall|x: i32| holds(final(self).root(), x) <==> holds(old(self).root(), x) || x == value,
    {
        proof {
            lemma_inserted(self.root, value);
        }
        insert_link(&mut self.root, value);
    }

    /// Whether some node holds `n`, looking at the nodes in level order.
    pub fn breadth_first_search(&self, n: i32) -> (r: bool)
        ensures
            r == holds(self.root(), n),
    {
        let mut q: VecDeque<&Option<Box<Node<i32>>>> = VecDeque::new();
        q.push_back(&self.root);
        assert(trees_of(q@) =~= seq![self.root()]);
        assert(seq![self.root()].drop_first() =~= Seq::<Option<Box<Node<i32>>>>::empty());
        assert(!forest_holds(Seq::<Option<Box<Node<i32>>>>::empty(), n));
        assert(forest_holds(seq![self.root()], n) == holds(self.root(), n));
        while q.len() > 0
            invariant
                holds(self.root(), n) <==> forest_holds(trees_of(q@), n),
            decreases forest_size(trees_of(q@)),
        {
            let ghost q0 = trees_of(q@);
            proof {
                lemma_queue_step_smaller(q0);
            }
            match q.pop_front() {
                None => {},
                Some(curr) => {
                    assert(trees_of(q@) =~= q0.drop_first());
                    match curr {
                        None => {},
                        Some(node) => {
                            if node.value == n {
                                return true;
                            }
                            q.push_back(&node.left);
                            q.push_back(&node.right);
                            proof {
                                let q1 = q0.drop_first().push(node.left).push(node.right);
                                assert(trees_of(q@) =~= q1);
                                lemma_forest_holds_push(q0.drop_first(), node.left, n);
                                lemma_forest_holds_push(q0.drop_first().push(node.left), node.right, n);
                            }
                        },
                    }
                },
            }
        }
        false
    }
}

impl PartialEq for BinaryTree<i32> {
    fn eq(&self, other: &Self) -> (r: bool) {
        eq_link(&self.root, &other.root)
    }
}

impl vstd::std_specs::cmp::PartialEqSpecImpl for BinaryTree<i32> {
    open spec fn obeys_eq_spec() -> bool {
        true
    }

    open spec fn eq_spec(&self, other: &Self) -> bool {
        self.root() == other.root()
    }
}

} // verus!
