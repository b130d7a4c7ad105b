//! Directed, weighted graph stored as an adjacency matrix.
use vstd::prelude::*;
use crate::search::{
    build_path, count_unmarked, follows_prev, lemma_mark, lemma_none_marked, lemma_prev_walk_unique,
    lemma_unmarked_positive, levelled, marks_only, no_prev, traces, QueryError,
};

verus! {

/// A graph over the vertices `0..n`, with at most one edge for each ordered
/// pair of vertices: the cell `(u, v)` holds the weight of the edge `u -> v`,
/// if there is one.
pub struct Graph {
    edges: Vec<Vec<Option<i32>>>,
}

impl Graph {
    /// The matrix of weights.
    pub closed spec fn adj(self) -> Seq<Seq<Option<i32>>> {
        self.edges@.map_values(|row: Vec<Option<i32>>| row@)
    }

    pub closed spec fn num_vertices(self) -> nat {
        self.edges@.len()
    }

    /// The matrix is square.
    pub closed spec fn wf(self) -> bool {
        forall|u: int| 0 <= u < self.edges@.len() ==> (#[trigger] self.edges@[u])@.len() == self.edges@.len()
    }

    /// An edge leads from `u` to `v`.
    pub closed spec fn has_edge(self, u: int, v: int) -> bool {
        &&& 0 <= u < self.num_vertices()
        &&& 0 <= v < self.num_vertices()
        &&& self.adj()[u][v] is Some
    }

    /// `p` is a non-empty walk through the graph along its edges.
    pub closed spec fn is_path(self, p: Seq<usize>) -> bool {
        &&& p.len() > 0
        &&& forall|i: int| 0 <= i < p.len() ==> p[i] < self.num_vertices()
        &&& forall|i: int| 1 <= i < p.len() ==> #[trigger] self.has_edge(p[i - 1] as int, p[i] as int)
    }

    /// `p` is a walk that starts at `s` and ends at `t`.
    pub closed spec fn path_between(self, p: Seq<usize>, s: usize, t: usize) -> bool {
        &&& self.is_path(p)
        &&& p[0] == s
        &&& p.last() == t
    }

    /// Some walk leads from `s` to `t`.
    pub closed spec fn reachable(self, s: usize, t: usize) -> bool {
        exists|p: Seq<usize>| #[trigger] self.path_between(p, s, t)
    }

    /// The row `row` after setting, in order, the cell of each pair `(target, weight)`.
    pub open spec fn row_after(row: Seq<Option<i32>>, conn: Seq<(usize, i32)>) -> Seq<Option<i32>>
        decreases conn.len(),
    {
        if conn.len() == 0 {
            row
        } else {
            Self::row_after(row, conn.drop_last()).update(conn.last().0 as int, Some(conn.last().1))
        }
    }

    /// The number of vertices.
    pub fn vertex_count(&self) -> (r: usize)
        ensures
            r == self.num_vertices(),
    {
        self.edges.len()
    }

    /// `breadth_first_search`, with both endpoints checked first: an index not
    /// below the vertex count is refused, `src` before `tgt`.
    pub fn try_breadth_first_search(&self, src: usize, tgt: usize) -> (r: Result<Option<Vec<usize>>, QueryError>)
        requires
            self.wf(),
        ensures
            src >= self.num_vertices() ==> r == Err::<Option<Vec<usize>>, QueryError>(QueryError::IndexOutOfRange(src)),
            src < self.num_vertices() <= tgt ==> r == Err::<Option<Vec<usize>>, QueryError>(QueryError::IndexOutOfRange(tgt)),
            src < self.num_vertices() && tgt < self.num_vertices() ==> (r matches Ok(x) && {
                &&& x is Some <==> self.reachable(src, tgt)
                &&& x matches Some(p) ==> {
                    &&& self.path_between(p@, src, tgt)
                    &&& forall|q: Seq<usize>| #[trigger] self.path_between(q, src, tgt) ==> p@.len() <= q.len()
                }
                &&& match x {
                    Some(p) => self.bfs_outcome(src, tgt) matches Some(table) && traces(table, tgt, p@),
                    None => self.bfs_outcome(src, tgt) is None,
                }
            }),
    {
        if src >= self.edges.len() {
            return Err(QueryError::IndexOutOfRange(src));
        }
        if tgt >= self.edges.len() {
            return Err(QueryError::IndexOutOfRange(tgt));
        }
        Ok(self.breadth_first_search(src, tgt))
    }

    /// What a breadth-first search to `tgt` yields from the state `queue`
    /// (every vertex enqueued so far), `head` (how many were taken out),
    /// `vis` and `prev` (marks and predecessors), and `i` (the next
    /// neighbour of the vertex last taken out to look at): the predecessor
    /// table at the moment `tgt` is taken out, or nothing if the queue runs dry.
    #[verifier::opaque]
    pub closed spec fn bfs_from(
        self,
        tgt: usize,
        queue: Seq<usize>,
        head: int,
        vis: Seq<bool>,
        prev: Seq<Option<usize>>,
        i: int,
    ) -> Option<Seq<Option<usize>>>
        decreases (count_unmarked(vis) + queue.len() - head) as nat, (self.num_vertices() - i) as nat,
        via Self::bfs_from_decreases
    {
        let n = self.num_vertices();
        if !(0 <= head <= queue.len() && 0 <= i <= n && vis.len() == n) {
            None
        } else if i < n && head > 0 {
            let c = queue[head - 1];
            if c < n && self.adj()[c as int][i] is Some && !vis[i] {
                self.bfs_from(
                    tgt,
                    queue.push(i as usize),
                    head,
                    vis.update(i, true),
                    prev.update(i, Some(c)),
                    i + 1,
                )
            } else {
                self.bfs_from(tgt, queue, head, vis, prev, i + 1)
            }
        } else if head >= queue.len() {
            None
        } else if queue[head] == tgt {
            Some(prev)
        } else {
            self.bfs_from(tgt, queue, head + 1, vis, prev, 0)
        }
    }

    #[via_fn]
    proof fn bfs_from_decreases(
        self,
        tgt: usize,
        queue: Seq<usize>,
        head: int,
        vis: Seq<bool>,
        prev: Seq<Option<usize>>,
        i: int,
    ) {
        let n = self.num_vertices();
        if 0 <= head <= queue.len() && 0 <= i <= n && vis.len() == n && i < n && head > 0 {
            let c = queue[head - 1];
            if c < n && self.adj()[c as int][i] is Some && !vis[i] {
                lemma_mark(vis, i);
            }
        }
    }

    /// When a breadth-first search takes `tgt` from its queue: the walk back
    /// along predecessors from `tgt`, a path from `src` with the fewest edges.
    fn path_back(
        &self,
        src: usize,
        tgt: usize,
        prev: &Vec<Option<usize>>,
        Ghost(vis): Ghost<Seq<bool>>,
        Ghost(level): Ghost<Seq<nat>>,
        Ghost(queue): Ghost<Seq<usize>>,
        Ghost(pos): Ghost<Seq<int>>,
        Ghost(head): Ghost<int>,
    ) -> (p: Vec<usize>)
        requires
            self.wf(),
            src < self.num_vertices(),
            tgt < self.num_vertices(),
            self.bfs_tree(src, vis, prev@, level),
            pos.len() == self.num_vertices(),
            forall|v: int|
                0 <= v < self.num_vertices() && #[trigger] vis[v] ==> 0 <= pos[v] < queue.len()
                    && queue[pos[v]] == v,
            forall|i: int| 0 <= i < queue.len() ==> (#[trigger] queue[i] as int) < self.num_vertices(),
            forall|i: int, k: int|
                0 <= i < k < queue.len() ==> level[#[trigger] queue[i] as int] <= level[#[trigger] queue[k] as int],
            1 <= head <= queue.len(),
            queue[head - 1] == tgt,
            vis[tgt as int],
            forall|i: int, w: int|
                0 <= i < head - 1 && 0 <= w < self.num_vertices() && #[trigger] self.adj()[queue[i] as int][w] is Some
                    ==> vis[w] && level[w] <= level[queue[i] as int] + 1,
            self.bfs_from(tgt, queue, head - 1, vis, prev@, self.num_vertices() as int) == self.bfs_outcome(
                src,
                tgt,
            ),
        ensures
            self.path_between(p@, src, tgt),
            forall|q: Seq<usize>| #[trigger] self.path_between(q, src, tgt) ==> p@.len() <= q.len(),
            src == tgt ==> p@ == seq![src],
            self.bfs_outcome(src, tgt) == Some(prev@),
            traces(prev@, tgt, p@),
    {
        proof {
            assert(levelled(prev@, level));
            self.lemma_bfs_take(tgt, queue, head - 1, vis, prev@);
        }
        let p = build_path(tgt, prev, Ghost(level));
        proof {
            self.lemma_fewest_edges(src, tgt, vis, prev@, level, queue, pos, head, p@);
        }
        p
    }

    /// A search whose queue has run dry yields nothing.
    proof fn lemma_bfs_dry(
        self,
        tgt: usize,
        queue: Seq<usize>,
        head: int,
        vis: Seq<bool>,
        prev: Seq<Option<usize>>,
    )
        requires
            head == queue.len(),
            vis.len() == self.num_vertices(),
        ensures
            self.bfs_from(tgt, queue, head, vis, prev, self.num_vertices() as int) is None,
    {
        reveal_with_fuel(Graph::bfs_from, 1);
    }

    /// Taking the next vertex out of the queue: the search stops there if it
    /// is `tgt`, and goes on to its neighbours otherwise.
    proof fn lemma_bfs_take(
        self,
        tgt: usize,
        queue: Seq<usize>,
        head: int,
        vis: Seq<bool>,
        prev: Seq<Option<usize>>,
    )
        requires
            0 <= head < queue.len(),
            vis.len() == self.num_vertices(),
        ensures
            self.bfs_from(tgt, queue, head, vis, prev, self.num_vertices() as int) == if queue[head] == tgt {
                Some(prev)
            } else {
                self.bfs_from(tgt, queue, head + 1, vis, prev, 0)
            },
    {
        reveal_with_fuel(Graph::bfs_from, 1);
    }

    /// Looking at neighbour `i` of the vertex last taken out: it joins the
    /// queue if an edge leads there and it is unmarked.
    proof fn lemma_bfs_look(
        self,
        tgt: usize,
        queue: Seq<usize>,
        head: int,
        vis: Seq<bool>,
        prev: Seq<Option<usize>>,
        i: int,
    )
        requires
            0 < head <= queue.len(),
            0 <= i < self.num_vertices(),
            vis.len() == self.num_vertices(),
            queue[head - 1] < self.num_vertices(),
        ensures
            self.bfs_from(tgt, queue, head, vis, prev, i) == if self.adj()[queue[head - 1] as int][i] is Some
                && !vis[i] {
                self.bfs_from(
                    tgt,
                    queue.push(i as usize),
                    head,
                    vis.update(i, true),
                    prev.update(i, Some(queue[head - 1])),
                    i + 1,
                )
            } else {
                self.bfs_from(tgt, queue, head, vis, prev, i + 1)
            },
    {
        reveal_with_fuel(Graph::bfs_from, 1);
    }

    /// The predecessor table with which a breadth-first search from `src`
    /// takes `tgt` out of its queue, if it does.
    pub closed spec fn bfs_outcome(self, src: usize, tgt: usize) -> Option<Seq<Option<usize>>> {
        self.bfs_from(
            tgt,
            seq![src],
            0,
            marks_only(self.num_vertices(), src),
            no_prev(self.num_vertices()),
            self.num_vertices() as int,
        )
    }

    /// Searches breadth first for a path with the fewest edges from `src` to
    /// `tgt`, taking the neighbours of each vertex in ascending order.
    #[verifier::rlimit(40)]
    pub fn breadth_first_search(&self, src: usize, tgt: usize) -> (r: Option<Vec<usize>>)
        requires
            self.wf(),
            src < self.num_vertices(),
            tgt < self.num_vertices(),
        ensures
            r is Some <==> self.reachable(src, tgt),
            r matches Some(p) ==> {
                &&& self.path_between(p@, src, tgt)
                &&& forall|q: Seq<usize>| #[trigger] self.path_between(q, src, tgt) ==> p@.len() <= q.len()
            },
            src == tgt ==> (r matches Some(p) && p@ == seq![src]),
            match r {
                Some(p) => self.bfs_outcome(src, tgt) matches Some(table) && traces(table, tgt, p@),
                None => self.bfs_outcome(src, tgt) is None,
            },
    {
        let n = self.edges.len();
        let mut visited: Vec<bool> = vec![false; n];
        let mut prev: Vec<Option<usize>> = vec![None; n];
        let ghost mut level: Seq<nat> = Seq::new(n as nat, |i: int| 0nat);
        let ghost mut pos: Seq<int> = Seq::new(n as nat, |i: int| 0int);
        proof {
            lemma_none_marked(visited@);
            lemma_mark(visited@, src as int);
        }
        visited[src] = true;
        let mut queue: Vec<usize> = Vec::new();
        queue.push(src);
        let mut head: usize = 0;
        assert forall|v: int| 0 <= v < n && #[trigger] visited@[v] implies v == src by {}
        assert(visited@ =~= marks_only(n as nat, src));
        assert(prev@ =~= no_prev(n as nat));
        assert(queue@ =~= seq![src]);
        assert(self.bfs_from(tgt, queue@, head as int, visited@, prev@, n as int) == self.bfs_outcome(src, tgt));
        while head < queue.len()
            invariant
                self.bfs_from(tgt, queue@, head as int, visited@, prev@, n as int) == self.bfs_outcome(src, tgt),
                self.wf(),
                n == self.num_vertices(),
                src < n,
                tgt < n,
                self.bfs_tree(src, visited@, prev@, level),
                pos.len() == n,
                forall|v: int|
                    0 <= v < n && #[trigger] visited@[v] ==> 0 <= pos[v] < queue@.len() && queue@[pos[v]] == v,
                forall|i: int|
                    0 <= i < queue@.len() ==> (#[trigger] queue@[i] as int) < n && visited@[queue@[i] as int],
                queue@.len() + count_unmarked(visited@) == n,
                queue@.len() >= 1,
                queue@[0] == src,
                head <= queue@.len(),
                head == 0 ==> queue@.len() == 1,
                forall|i: int, k: int|
                    0 <= i < k < queue@.len() ==> level[#[trigger] queue@[i] as int] <= level[#[trigger] queue@[k] as int],
                head > 0 ==> forall|k: int|
                    0 <= k < queue@.len() ==> level[#[trigger] queue@[k] as int] <= level[queue@[head - 1] as int] + 1,
                forall|i: int, w: int|
                    0 <= i < head && 0 <= w < n && #[trigger] self.adj()[queue@[i] as int][w] is Some ==> visited@[w]
                        && level[w] <= level[queue@[i] as int] + 1,
                forall|i: int| 0 <= i < head ==> #[trigger] queue@[i] != tgt,
            decreases n - head,
        {
            let c = queue[head];
            let ghost h0 = head as int;
            head = head + 1;
            if c == tgt {
                let p = self.path_back(
                    src,
                    tgt,
                    &prev,
                    Ghost(visited@),
                    Ghost(level),
                    Ghost(queue@),
                    Ghost(pos),
                    Ghost(head as int),
                );
                return Some(p);
            }
            proof {
                self.lemma_bfs_take(tgt, queue@, h0, visited@, prev@);
            }
            let mut i: usize = 0;
            while i < n
                invariant
                    self.bfs_from(tgt, queue@, head as int, visited@, prev@, i as int) == self.bfs_outcome(src, tgt),
                    self.wf(),
                    n == self.num_vertices(),
                    src < n,
                    tgt < n,
                    c < n,
                    c != tgt,
                    i <= n,
                    self.bfs_tree(src, visited@, prev@, level),
                    pos.len() == n,
                    forall|v: int|
                        0 <= v < n && #[trigger] visited@[v] ==> 0 <= pos[v] < queue@.len() && queue@[pos[v]] == v,
                    forall|i: int|
                        0 <= i < queue@.len() ==> (#[trigger] queue@[i] as int) < n && visited@[queue@[i] as int],
                    queue@.len() + count_unmarked(visited@) == n,
                    queue@.len() >= 1,
                    queue@[0] == src,
                    1 <= head <= queue@.len(),
                    queue@[head - 1] == c,
                    forall|i: int, k: int|
                        0 <= i < k < queue@.len() ==> level[#[trigger] queue@[i] as int] <= level[#[trigger] queue@[k] as int],
                    forall|k: int|
                        0 <= k < queue@.len() ==> level[#[trigger] queue@[k] as int] <= level[c as int] + 1,
                    forall|i: int, w: int|
                        0 <= i < head - 1 && 0 <= w < n && #[trigger] self.adj()[queue@[i] as int][w] is Some
                            ==> visited@[w] && level[w] <= level[queue@[i] as int] + 1,
                    forall|w: int|
                        0 <= w < i && #[trigger] self.adj()[c as int][w] is Some ==> visited@[w] && level[w]
                            <= level[c as int] + 1,
                    forall|i: int| 0 <= i < head ==> #[trigger] queue@[i] != tgt,
                decreases n - i,
            {
                let has = self.edges[c][i].is_some();
                assert(has == self.adj()[c as int][i as int] is Some);
                let ghost q0 = queue@;
                let ghost v0 = visited@;
                let ghost prev0 = prev@;
                if has && !visited[i] {
                    proof {
                        lemma_unmarked_positive(visited@, i as int);
                        lemma_mark(visited@, i as int);
                        level = level.update(i as int, level[c as int] + 1);
                        pos = pos.update(i as int, queue@.len() as int);
                    }
                    visited[i] = true;
                    prev[i] = Some(c);
                    queue.push(i);
                }
                proof {
                    self.lemma_bfs_look(tgt, q0, head as int, v0, prev0, i as int);
                }
                i = i + 1;
            }
        }
        proof {
            self.lemma_bfs_dry(tgt, queue@, head as int, visited@, prev@);
            if visited@[tgt as int] {
                assert(queue@[pos[tgt as int]] != tgt);
            }
            assert forall|u: int, w: int|
                0 <= u < n && 0 <= w < n && visited@[u] && #[trigger] self.adj()[u][w] is Some implies visited@[w] by {
                assert(self.adj()[queue@[pos[u]] as int][w] is Some);
            }
            self.lemma_closed_marks(visited@, src, tgt);
        }
        None
    }

    /// The predecessor tree of a breadth-first search: `src` is its root, and
    /// each other reached vertex has a reached predecessor with an edge to it,
    /// one level nearer the root.
    closed spec fn bfs_tree(self, src: usize, vis: Seq<bool>, prev: Seq<Option<usize>>, level: Seq<nat>) -> bool {
        &&& vis.len() == self.num_vertices()
        &&& prev.len() == self.num_vertices()
        &&& level.len() == self.num_vertices()
        &&& vis[src as int]
        &&& prev[src as int] is None
        &&& level[src as int] == 0
        &&& forall|v: int| 0 <= v < self.num_vertices() && !vis[v] ==> #[trigger] prev[v] is None
        &&& forall|v: int|
            0 <= v < self.num_vertices() && #[trigger] vis[v] && v != src ==> {
                &&& prev[v] is Some
                &&& (prev[v]->0 as int) < self.num_vertices()
                &&& vis[prev[v]->0 as int]
                &&& self.adj()[prev[v]->0 as int][v] is Some
                &&& level[v] == level[prev[v]->0 as int] + 1
            }
    }

    /// Walking predecessors back from a reached vertex gives a walk from `src`
    /// with one edge per level.
    proof fn lemma_tree_path(
        self,
        src: usize,
        vis: Seq<bool>,
        prev: Seq<Option<usize>>,
        level: Seq<nat>,
        p: Seq<usize>,
        i: int,
    )
        requires
            self.wf(),
            src < self.num_vertices(),
            self.bfs_tree(src, vis, prev, level),
            p.len() > 0,
            vis[p.last() as int],
            follows_prev(prev, p),
            prev[p[0] as int] is None,
            0 <= i < p.len(),
        ensures
            p[0] == src,
            level[p[i] as int] == i,
            self.is_path(p.subrange(0, i + 1)),
        decreases i,
    {
        if p.len() > 1 {
            assert(prev[p[1] as int] == Some(p[0]));
        }
        if i > 0 {
            self.lemma_tree_path(src, vis, prev, level, p, i - 1);
            assert(prev[p[i] as int] == Some(p[i - 1]));
            let q = p.subrange(0, i + 1);
            assert forall|j: int| 1 <= j < q.len() implies #[trigger] self.has_edge(q[j - 1] as int, q[j] as int) by {
                if j < i {
                    assert(p.subrange(0, i)[j] == q[j]);
                    assert(p.subrange(0, i)[j - 1] == q[j - 1]);
                }
            }
        }
    }

    /// When a breadth-first search takes `tgt` from its queue, the walk back
    /// along predecessors from `tgt` is a path from `src` with the fewest edges.
    proof fn lemma_fewest_edges(
        self,
        src: usize,
        tgt: usize,
        vis: Seq<bool>,
        prev: Seq<Option<usize>>,
        level: Seq<nat>,
        queue: Seq<usize>,
        pos: Seq<int>,
        head: int,
        p: Seq<usize>,
    )
        requires
            self.wf(),
            src < self.num_vertices(),
            tgt < self.num_vertices(),
            self.bfs_tree(src, vis, prev, level),
            pos.len() == self.num_vertices(),
            forall|v: int|
                0 <= v < self.num_vertices() && #[trigger] vis[v] ==> 0 <= pos[v] < queue.len()
                    && queue[pos[v]] == v,
            forall|i: int| 0 <= i < queue.len() ==> (#[trigger] queue[i] as int) < self.num_vertices(),
            forall|i: int, k: int|
                0 <= i < k < queue.len() ==> level[#[trigger] queue[i] as int] <= level[#[trigger] queue[k] as int],
            1 <= head <= queue.len(),
            queue[head - 1] == tgt,
            vis[tgt as int],
            forall|i: int, w: int|
                0 <= i < head - 1 && 0 <= w < self.num_vertices() && #[trigger] self.adj()[queue[i] as int][w] is Some
                    ==> vis[w] && level[w] <= level[queue[i] as int] + 1,
            p.len() > 0,
            p.last() == tgt,
            prev[p[0] as int] is None,
            follows_prev(prev, p),
        ensures
            self.path_between(p, src, tgt),
            forall|q: Seq<usize>| #[trigger] self.path_between(q, src, tgt) ==> p.len() <= q.len(),
            src == tgt ==> p == seq![src],
    {
        self.lemma_tree_path(src, vis, prev, level, p, p.len() - 1);
        assert(p.subrange(0, p.len() as int) =~= p);
        assert forall|q: Seq<usize>| #[trigger] self.path_between(q, src, tgt) implies p.len() <= q.len() by {
            if q.len() - 1 < level[tgt as int] {
                self.lemma_level_least(src, vis, prev, level, queue, pos, head, q, q.len() - 1);
            }
        }
        if src == tgt {
            assert(self.path_between(seq![src], src, tgt));
            assert(p =~= seq![src]);
        }
    }

    /// While a breadth-first search expands the vertices of its queue in
    /// order, a walk from `src` shorter than the level of the vertex last taken
    /// from the queue only meets reached vertices, at levels no higher than
    /// their place on the walk.
    proof fn lemma_level_least(
        self,
        src: usize,
        vis: Seq<bool>,
        prev: Seq<Option<usize>>,
        level: Seq<nat>,
        queue: Seq<usize>,
        pos: Seq<int>,
        head: int,
        q: Seq<usize>,
        j: int,
    )
        requires
            self.wf(),
            src < self.num_vertices(),
            self.bfs_tree(src, vis, prev, level),
            pos.len() == self.num_vertices(),
            forall|v: int|
                0 <= v < self.num_vertices() && #[trigger] vis[v] ==> 0 <= pos[v] < queue.len()
                    && queue[pos[v]] == v,
            forall|i: int| 0 <= i < queue.len() ==> (#[trigger] queue[i] as int) < self.num_vertices(),
            forall|i: int, k: int|
                0 <= i < k < queue.len() ==> level[#[trigger] queue[i] as int] <= level[#[trigger] queue[k] as int],
            1 <= head <= queue.len(),
            forall|i: int, w: int|
                0 <= i < head - 1 && 0 <= w < self.num_vertices() && #[trigger] self.adj()[queue[i] as int][w] is Some
                    ==> vis[w] && level[w] <= level[queue[i] as int] + 1,
            self.is_path(q),
            q[0] == src,
            0 <= j < q.len(),
            j < level[queue[head - 1] as int],
        ensures
            vis[q[j] as int],
            level[q[j] as int] <= j,
        decreases j,
    {
        if j > 0 {
            self.lemma_level_least(src, vis, prev, level, queue, pos, head, q, j - 1);
            let u = q[j - 1] as int;
            let i = pos[u];
            if i >= head - 1 {
                if i > head - 1 {
                    assert(level[queue[head - 1] as int] <= level[queue[i] as int]);
                }
            }
            assert(self.has_edge(q[j - 1] as int, q[j] as int));
            assert(self.adj()[queue[i] as int][q[j] as int] is Some);
        }
    }

    /// A set of marked vertices that holds `s`, not `t`, and the end of every
    /// edge whose start it holds, cuts `t` off from `s`.
    proof fn lemma_closed_marks(self, vis: Seq<bool>, s: usize, t: usize)
        requires
            self.wf(),
            vis.len() == self.num_vertices(),
            s < self.num_vertices(),
            vis[s as int],
            !vis[t as int],
            forall|u: int, w: int|
                0 <= u < self.num_vertices() && 0 <= w < self.num_vertices() && vis[u]
                    && #[trigger] self.adj()[u][w] is Some ==> vis[w],
        ensures
            !self.reachable(s, t),
    {
        if self.reachable(s, t) {
            let p = choose|p: Seq<usize>| #[trigger] self.path_between(p, s, t);
            self.lemma_walk_stays_marked(vis, p, p.len() - 1);
        }
    }

    /// Every vertex of a walk that starts in a set closed under edges lies in it.
    proof fn lemma_walk_stays_marked(self, vis: Seq<bool>, p: Seq<usize>, i: int)
        requires
            self.wf(),
            vis.len() == self.num_vertices(),
            self.is_path(p),
            0 <= i < p.len(),
            vis[p[0] as int],
            forall|u: int, w: int|
                0 <= u < self.num_vertices() && 0 <= w < self.num_vertices() && vis[u]
                    && #[trigger] self.adj()[u][w] is Some ==> vis[w],
        ensures
            vis[p[i] as int],
        decreases i,
    {
        if i > 0 {
            self.lemma_walk_stays_marked(vis, p, i - 1);
            assert(self.has_edge(p[i - 1] as int, p[i] as int));
        }
    }

    /// A graph on `num_verteces` vertices, without edges.
    pub fn new(num_verteces: usize) -> (g: Self)
        ensures
            g.wf(),
            g.num_vertices() == num_verteces,
            forall|u: int, v: int|
                0 <= u < num_verteces && 0 <= v < num_verteces ==> g.adj()[u][v] is None,
    {
        let mut edges: Vec<Vec<Option<i32>>> = Vec::new();
        let mut i: usize = 0;
        while i < num_verteces
            invariant
                i <= num_verteces,
                edges@.len() == i,
                forall|u: int| 0 <= u < i ==> (#[trigger] edges@[u])@.len() == num_verteces,
                forall|u: int, v: int| 0 <= u < i && 0 <= v < num_verteces ==> edges@[u]@[v] is None,
            decreases num_verteces - i,
        {
            edges.push(vec![None; num_verteces]);
            i = i + 1;
        }
        Self { edges }
    }

    /// Sets the weight of the edge `src -> tgt`, replacing any earlier one.
    pub fn add(&mut self, src: usize, tgt: usize, weight: i32)
        requires
            old(self).wf(),
            src < old(self).num_vertices(),
            tgt < old(self).num_vertices(),
        ensures
            final(self).wf(),
            final(self).num_vertices() == old(self).num_vertices(),
            final(self).adj() == old(self).adj().update(
                src as int,
                old(self).adj()[src as int].update(tgt as int, Some(weight)),
            ),
    {
        self.edges[src].set(tgt, Some(weight));
        assert(self.adj() =~= old(self).adj().update(
            src as int,
            old(self).adj()[src as int].update(tgt as int, Some(weight)),
        ));
    }

    /// Sets, in order, the edge from `src` for each pair `(target, weight)`.
    pub fn add_multiple(&mut self, src: usize, conn: &[(usize, i32)])
        requires
            old(self).wf(),
            src < old(self).num_vertices(),
            forall|i: int| 0 <= i < conn@.len() ==> (#[trigger] conn@[i]).0 < old(self).num_vertices(),
        ensures
            final(self).wf(),
            final(self).num_vertices() == old(self).num_vertices(),
            final(self).adj() == old(self).adj().update(
                src as int,
                Self::row_after(old(self).adj()[src as int], conn@),
            ),
    {
        let mut i: usize = 0;
        while i < conn.len()
            invariant
                old(self).wf(),
                self.wf(),
                self.num_vertices() == old(self).num_vertices(),
                src < self.num_vertices(),
                i <= conn@.len(),
                forall|i: int| 0 <= i < conn@.len() ==> (#[trigger] conn@[i]).0 < old(self).num_vertices(),
                self.adj() == old(self).adj().update(
                    src as int,
                    Self::row_after(old(self).adj()[src as int], conn@.subrange(0, i as int)),
                ),
            decreases conn@.len() - i,
        {
            let c = conn[i];
            self.add(src, c.0, c.1);
            proof {
                assert(conn@.subrange(0, i + 1).drop_last() =~= conn@.subrange(0, i as int));
                assert(self.adj() =~= old(self).adj().update(
                    src as int,
                    Self::row_after(old(self).adj()[src as int], conn@.subrange(0, i + 1)),
                ));
            }
            i = i + 1;
        }
        assert(conn@.subrange(0, conn@.len() as int) =~= conn@);
    }
}

/// Two breadth-first searches with the same endpoints on the same graph give
/// the same answer: what `breadth_first_search` returns is fixed by
/// `bfs_outcome` of the graph and the endpoints, and only one walk back along
/// a predecessor table ends at `tgt`.
pub proof fn lemma_bfs_repeatable(
    g: Graph,
    src: usize,
    tgt: usize,
    r1: Option<Seq<usize>>,
    r2: Option<Seq<usize>>,
)
    requires
        g.wf(),
        src < g.num_vertices(),
        tgt < g.num_vertices(),
        match r1 {
            Some(p) => g.bfs_outcome(src, tgt) matches Some(table) && traces(table, tgt, p),
            None => g.bfs_outcome(src, tgt) is None,
        },
        match r2 {
            Some(p) => g.bfs_outcome(src, tgt) matches Some(table) && traces(table, tgt, p),
            None => g.bfs_outcome(src, tgt) is None,
        },
    ensures
        r1 == r2,
{
    if r1 is Some && r2 is Some {
        let table = g.bfs_outcome(src, tgt)->0;
        lemma_prev_walk_unique(table, tgt, r1->0, r2->0);
    }
}

} // verus!
