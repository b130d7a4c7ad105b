//! Directed, weighted graph stored as adjacency lists.
use vstd::prelude::*;
use vstd::multiset::Multiset;
use crate::priority_queue::{HeapItem, PriorityQueue};
use crate::search::{
    build_path, count_unmarked, follows_prev, lemma_mark, lemma_none_marked, lemma_prev_walk_unique,
    lemma_unmarked_positive, levelled, marks_only, no_prev, traces, zeros, QueryError,
};

verus! {

broadcast use {vstd::multiset::group_multiset_axioms, vstd::multiset::group_multiset_properties};

/// An outgoing edge: its weight and the index of the vertex it leads to.
#[derive(Clone, Copy, Debug, PartialEq, Eq)]
pub struct Edge {
    pub weight: i32,
    pub tgt: usize,
}

/// A vertex waiting in the frontier of a cheapest-path search, with the cost
/// at which it was reached.
#[derive(Clone, Copy, Debug)]
pub struct MinHeapElement {
    pub vertex: usize,
    pub dist: i32,
}

/// Entries are ordered by cost, and entries of equal cost by vertex index, so
/// that no two different entries tie.
impl HeapItem for MinHeapElement {
    open spec fn key(&self) -> int {
        self.dist as int * 0x1_0000_0000_0000_0000 + self.vertex as int
    }

    fn precedes(&self, other: &Self) -> (r: bool) {
        self.dist < other.dist || (self.dist == other.dist && self.vertex < other.vertex)
    }
}

/// The entry with the least key among those of `m`.
pub open spec fn least(m: Multiset<MinHeapElement>) -> MinHeapElement {
    choose|x: MinHeapElement| m.contains(x) && forall|y: MinHeapElement| m.contains(y) ==> x.key() <= y.key()
}

/// Different entries have different keys.
pub proof fn lemma_key_injective(x: MinHeapElement, y: MinHeapElement)
    requires
        x.key() == y.key(),
    ensures
        x == y,
{
}

/// A graph over the vertices `0..num_verteces`; each vertex owns the list of
/// its outgoing edges, in the order in which they were added.
pub struct Graph {
    num_verteces: usize,
    edges: Vec<Vec<Edge>>,
}

impl Graph {
    /// The outgoing edges of every vertex.
    pub closed spec fn adj(self) -> Seq<Seq<Edge>> {
        self.edges@.map_values(|es: Vec<Edge>| es@)
    }

    /// Some edge leads from `u` to `v`.
    pub closed spec fn has_edge(self, u: int, v: int) -> bool {
        &&& 0 <= u < self.adj().len()
        &&& exists|k: int| 0 <= k < self.adj()[u].len() && self.adj()[u][k].tgt == v
    }

    /// `p` is a non-empty walk through the graph along its edges.
    pub closed spec fn is_path(self, p: Seq<usize>) -> bool {
        &&& p.len() > 0
        &&& forall|i: int| 0 <= i < p.len() ==> p[i] < self.num_verteces
        &&& forall|i: int| 1 <= i < p.len() ==> #[trigger] self.has_edge(p[i - 1] as int, p[i] as int)
    }

    /// `p` is a walk that starts at `s` and ends at `t`.
    pub closed spec fn path_between(self, p: Seq<usize>, s: usize, t: usize) -> bool {
        &&& self.is_path(p)
        &&& p[0] == s
        &&& p.last() == t
    }

    /// Some walk leads from `s` to `t`.
    pub closed spec fn reachable(self, s: usize, t: usize) -> bool {
        exists|p: Seq<usize>| #[trigger] self.path_between(p, s, t)
    }

    /// No edge has a negative weight.
    pub closed spec fn nonneg_weights(self) -> bool {
        forall|u: int, k: int|
            0 <= u < self.adj().len() && 0 <= k < self.adj()[u].len() ==> #[trigger] self.adj()[u][k].weight >= 0
    }

    /// Any walk of fewer edges than there are vertices costs at most `i32::MAX`:
    /// each weight times the vertex count less one fits.
    pub closed spec fn costs_fit(self) -> bool {
        forall|u: int, k: int|
            0 <= u < self.adj().len() && 0 <= k < self.adj()[u].len() ==> (self.num_verteces - 1)
                * #[trigger] self.adj()[u][k].weight <= i32::MAX
    }

    /// The walk `p` can be taken along edges whose weights add up to `c`.
    pub closed spec fn walk_costs(self, p: Seq<usize>, c: int) -> bool
        decreases p.len(),
    {
        if p.len() <= 1 {
            c == 0
        } else {
            let u = p[p.len() - 2] as int;
            exists|k: int|
                0 <= k < self.adj()[u].len() && #[trigger] self.adj()[u][k].tgt == p.last()
                    && self.walk_costs(p.drop_last(), c - self.adj()[u][k].weight)
        }
    }

    /// The predecessor tree of a cheapest-path search: `src` is its root, each
    /// other reached vertex was reached along the edge `via[v]` of its
    /// predecessor, at the predecessor's cost plus that edge's weight.
    closed spec fn tree_ok(
        self,
        src: usize,
        vis: Seq<bool>,
        dist: Seq<i32>,
        prev: Seq<Option<usize>>,
        via: Seq<int>,
        level: Seq<nat>,
    ) -> bool {
        &&& vis.len() == self.num_verteces
        &&& dist.len() == self.num_verteces
        &&& prev.len() == self.num_verteces
        &&& via.len() == self.num_verteces
        &&& level.len() == self.num_verteces
        &&& vis[src as int]
        &&& prev[src as int] is None
        &&& dist[src as int] == 0
        &&& level[src as int] == 0
        &&& forall|v: int| 0 <= v < self.num_verteces && !vis[v] ==> #[trigger] prev[v] is None
        &&& forall|v: int|
            0 <= v < self.num_verteces && #[trigger] vis[v] && v != src ==> {
                &&& prev[v] is Some
                &&& (prev[v]->0 as int) < self.num_verteces
                &&& vis[prev[v]->0 as int]
                &&& 0 <= via[v] < self.adj()[prev[v]->0 as int].len()
                &&& self.adj()[prev[v]->0 as int][via[v]].tgt == v
                &&& dist[v] == dist[prev[v]->0 as int] + self.adj()[prev[v]->0 as int][via[v]].weight
                &&& level[v] == level[prev[v]->0 as int] + 1
            }
    }

    /// The first `upto` edges of `u` lead to marked vertices, but for those whose
    /// weight added to `d` would not fit in an `i32`.
    closed spec fn relaxed(self, vis: Seq<bool>, u: int, d: int, upto: int) -> bool {
        forall|k: int|
            0 <= k < upto ==> #[trigger] vis[self.adj()[u][k].tgt as int] || d
                + self.adj()[u][k].weight > i32::MAX
    }

    /// Walking predecessors back from a reached vertex gives a walk from `src`
    /// whose cost is the recorded one.
    proof fn lemma_tree_walk(
        self,
        src: usize,
        vis: Seq<bool>,
        dist: Seq<i32>,
        prev: Seq<Option<usize>>,
        via: Seq<int>,
        level: Seq<nat>,
        p: Seq<usize>,
        i: int,
    )
        requires
            self.wf(),
            src < self.num_verteces,
            self.tree_ok(src, vis, dist, prev, via, level),
            p.len() > 0,
            vis[p.last() as int],
            prev[p[0] as int] is None,
            follows_prev(prev, p),
            0 <= i < p.len(),
        ensures
            vis[p[i] as int],
            p[0] == src,
            self.is_path(p.subrange(0, i + 1)),
            self.walk_costs(p.subrange(0, i + 1), dist[p[i] as int] as int),
        decreases i,
    {
        self.lemma_tree_walk_marked(src, vis, dist, prev, via, level, p, i);
        self.lemma_tree_walk_marked(src, vis, dist, prev, via, level, p, 0);
        if i > 0 {
            self.lemma_tree_walk(src, vis, dist, prev, via, level, p, i - 1);
            let q = p.subrange(0, i + 1);
            let u = p[i - 1] as int;
            let k = via[p[i] as int];
            assert(q.drop_last() =~= p.subrange(0, i));
            assert(q[i - 1] == p[i - 1]);
            assert(q.last() == p[i]);
            assert(prev[p[i] as int] == Some(p[i - 1]));
            assert(p[i] != src);
            assert(dist[p[i] as int] == dist[u] + self.adj()[u][k].weight);
            assert(self.adj()[u][k].tgt == q.last());
            assert(self.walk_costs(q.drop_last(), dist[p[i] as int] - self.adj()[u][k].weight));
            assert(q[q.len() - 2] as int == u);
            assert(self.walk_costs(q, dist[p[i] as int] as int));
            assert(self.has_edge(q[i - 1] as int, q[i] as int));
            assert forall|j: int| 1 <= j < q.len() implies #[trigger] self.has_edge(q[j - 1] as int, q[j] as int) by {
                if j < i {
                    assert(p.subrange(0, i)[j] == q[j]);
                    assert(p.subrange(0, i)[j - 1] == q[j - 1]);
                }
            }
        } else {
            assert(p.subrange(0, 1).len() == 1);
            assert(dist[p[0] as int] == 0);
            assert(self.walk_costs(p.subrange(0, 1), 0));
        }
    }

    /// Every vertex of a walk back along predecessors from a reached vertex was reached.
    proof fn lemma_tree_walk_marked(
        self,
        src: usize,
        vis: Seq<bool>,
        dist: Seq<i32>,
        prev: Seq<Option<usize>>,
        via: Seq<int>,
        level: Seq<nat>,
        p: Seq<usize>,
        i: int,
    )
        requires
            self.wf(),
            src < self.num_verteces,
            self.tree_ok(src, vis, dist, prev, via, level),
            p.len() > 0,
            vis[p.last() as int],
            prev[p[0] as int] is None,
            follows_prev(prev, p),
            0 <= i < p.len(),
        ensures
            vis[p[i] as int],
            i == 0 ==> p[0] == src,
        decreases p.len() - i,
    {
        if i < p.len() - 1 {
            self.lemma_tree_walk_marked(src, vis, dist, prev, via, level, p, i + 1);
            assert(prev[p[i + 1] as int] == Some(p[i]));
        }
    }

    /// With every weight bounded as `costs_fit` asks, a vertex at level below
    /// the vertex count less one can be left along any edge without overflow.
    proof fn lemma_step_fits(self, d: int, lvl: int, w: int)
        requires
            self.num_verteces >= 1,
            0 <= lvl,
            lvl + 2 <= self.num_verteces,
            0 <= w,
            (self.num_verteces - 1) * w <= i32::MAX,
            d * (self.num_verteces - 1) <= lvl * i32::MAX,
        ensures
            d + w <= i32::MAX,
            (d + w) * (self.num_verteces - 1) <= (lvl + 1) * i32::MAX,
    {
        let m = self.num_verteces - 1;
        assert((d + w) * m == d * m + w * m) by (nonlinear_arith);
        assert((lvl + 1) * i32::MAX == lvl * i32::MAX + i32::MAX) by (nonlinear_arith);
        assert((d + w) * m <= (lvl + 1) * i32::MAX);
        assert((lvl + 1) * i32::MAX <= m * i32::MAX) by (nonlinear_arith)
            requires lvl + 1 <= m;
        assert(d + w <= i32::MAX) by (nonlinear_arith)
            requires (d + w) * m <= m * i32::MAX, m >= 1;
    }

    /// The first `upto` edges of `u` all lead to marked vertices.
    closed spec fn explored(self, vis: Seq<bool>, u: int, upto: int) -> bool {
        forall|k: int| 0 <= k < upto ==> #[trigger] vis[self.adj()[u][k].tgt as int]
    }

    /// The edges that the frames of a search stack have still to try, plus one per frame.
    pub closed spec fn pending(self, path: Seq<usize>, next: Seq<usize>) -> nat
        decreases path.len(),
    {
        if path.len() == 0 || next.len() != path.len() {
            0
        } else {
            self.pending(path.drop_last(), next.drop_last())
                + (self.adj()[path.last() as int].len() - next.last()) as nat + 1
        }
    }

    /// A set of marked vertices that holds `s`, not `t`, and every edge's end
    /// whose start it holds, cuts `t` off from `s`.
    proof fn lemma_closed_marks(self, vis: Seq<bool>, s: usize, t: usize)
        requires
            self.wf(),
            vis.len() == self.num_verteces,
            s < self.num_verteces,
            t < self.num_verteces,
            vis[s as int],
            !vis[t as int],
            forall|u: int| 0 <= u < self.num_verteces && #[trigger] vis[u]
                ==> self.explored(vis, u, self.adj()[u].len() as int),
        ensures
            !self.reachable(s, t),
    {
        if self.reachable(s, t) {
            let p = choose|p: Seq<usize>| #[trigger] self.path_between(p, s, t);
            self.lemma_walk_stays_marked(vis, p, p.len() - 1);
        }
    }

    /// Every vertex of a walk that starts in a set closed under edges lies in it.
    proof fn lemma_walk_stays_marked(self, vis: Seq<bool>, p: Seq<usize>, i: int)
        requires
            self.wf(),
            vis.len() == self.num_verteces,
            self.is_path(p),
            0 <= i < p.len(),
            vis[p[0] as int],
            forall|u: int| 0 <= u < self.num_verteces && #[trigger] vis[u]
                ==> self.explored(vis, u, self.adj()[u].len() as int),
        ensures
            vis[p[i] as int],
        decreases i,
    {
        if i > 0 {
            self.lemma_walk_stays_marked(vis, p, i - 1);
            assert(self.has_edge(p[i - 1] as int, p[i] as int));
            let k = choose|k: int|
                0 <= k < self.adj()[p[i - 1] as int].len() && #[trigger] self.adj()[p[i - 1] as int][k].tgt == p[i];
            assert(vis[self.adj()[p[i - 1] as int][k].tgt as int]);
        }
    }

    pub closed spec fn num_vertices(self) -> nat {
        self.num_verteces as nat
    }

    /// One edge list per vertex, and every edge leads to a vertex of the graph.
    pub closed spec fn wf(self) -> bool {
        &&& self.edges@.len() == self.num_verteces
        &&& forall|u: int, k: int|
            0 <= u < self.adj().len() && 0 <= k < self.adj()[u].len()
                ==> self.adj()[u][k].tgt < self.num_verteces
    }

    /// A graph on `num_verteces` vertices, without edges.
    pub fn new(num_verteces: usize) -> (g: Self)
        ensures
            g.wf(),
            g.num_vertices() == num_verteces,
            forall|u: int| 0 <= u < num_verteces ==> g.adj()[u].len() == 0,
    {
        let mut edges: Vec<Vec<Edge>> = Vec::with_capacity(num_verteces);
        let mut i: usize = 0;
        while i < num_verteces
            invariant
                i <= num_verteces,
                edges@.len() == i,
                forall|u: int| 0 <= u < i ==> edges@[u]@.len() == 0,
            decreases num_verteces - i,
        {
            edges.push(Vec::new());
            i = i + 1;
        }
        Self { num_verteces, edges }
    }

    /// Appends the edge `src -> tgt` with the given weight to the edges of `src`.
    pub fn add(&mut self, src: usize, tgt: usize, weight: i32)
        requires
            old(self).wf(),
            src < old(self).num_vertices(),
            tgt < old(self).num_vertices(),
        ensures
            final(self).wf(),
            final(self).num_vertices() == old(self).num_vertices(),
            final(self).adj() == old(self).adj().update(
                src as int,
                old(self).adj()[src as int].push(Edge { weight, tgt }),
            ),
    {
        self.edges[src].push(Edge { weight, tgt });
        assert(self.adj() =~= old(self).adj().update(
            src as int,
            old(self).adj()[src as int].push(Edge { weight, tgt }),
        ));
    }

    /// The edges that `add_multiple` appends for the pairs `(target, weight)`.
    pub open spec fn edges_of(conn: Seq<(usize, i32)>) -> Seq<Edge> {
        conn.map_values(|c: (usize, i32)| Edge { weight: c.1, tgt: c.0 })
    }

    /// Appends an edge from `src` for each pair `(target, weight)`, in order.
    pub fn add_multiple(&mut self, src: usize, conn: &[(usize, i32)])
        requires
            old(self).wf(),
            src < old(self).num_vertices(),
            forall|i: int| 0 <= i < conn@.len() ==> (#[trigger] conn@[i]).0 < old(self).num_vertices(),
        ensures
            final(self).wf(),
            final(self).num_vertices() == old(self).num_vertices(),
            final(self).adj() == old(self).adj().update(
                src as int,
                old(self).adj()[src as int] + Self::edges_of(conn@),
            ),
    {
        let mut i: usize = 0;
        while i < conn.len()
            invariant
                old(self).wf(),
                self.wf(),
                self.num_vertices() == old(self).num_vertices(),
                src < self.num_vertices(),
                i <= conn@.len(),
                forall|i: int| 0 <= i < conn@.len() ==> (#[trigger] conn@[i]).0 < old(self).num_vertices(),
                self.adj() == old(self).adj().update(
                    src as int,
                    old(self).adj()[src as int] + Self::edges_of(conn@.subrange(0, i as int)),
                ),
            decreases conn@.len() - i,
        {
            let c = conn[i];
            let ghost before = self.adj();
            self.add(src, c.0, c.1);
            proof {
                let a = old(self).adj()[src as int];
                let x = Self::edges_of(conn@.subrange(0, i as int));
                let e = Edge { weight: c.1, tgt: c.0 };
                assert(before[src as int] == a + x);
                assert(a + x.push(e) =~= (a + x).push(e));
                assert(Self::edges_of(conn@.subrange(0, i + 1)) =~= Self::edges_of(
                    conn@.subrange(0, i as int),
                ).push(Edge { weight: c.1, tgt: c.0 }));
                assert(self.adj() =~= old(self).adj().update(
                    src as int,
                    old(self).adj()[src as int] + Self::edges_of(conn@.subrange(0, i + 1)),
                ));
            }
            i = i + 1;
        }
        assert(conn@.subrange(0, conn@.len() as int) =~= conn@);
    }

    /// How many edges of the vertex `cur` are left to try from index `j` on.
    pub closed spec fn edges_left(self, cur: Option<MinHeapElement>, j: int) -> nat {
        if cur is Some && cur->0.vertex < self.adj().len() {
            (self.adj()[cur->0.vertex as int].len() - j) as nat
        } else {
            0
        }
    }

    /// What a cheapest-path search yields from the state `heap` (its
    /// frontier), `vis`, `dist` and `prev` (marks, costs and predecessors),
    /// `cur` (the vertex whose edges are being tried, with its cost) and `j`
    /// (the next of those edges): the predecessors and costs when the
    /// frontier runs dry. An edge settles its end if that is unmarked and the
    /// cost fits; then the entry with the least cost, and among those the
    /// least vertex, leaves the frontier.
    #[verifier::opaque]
    pub closed spec fn dij_from(
        self,
        heap: Multiset<MinHeapElement>,
        vis: Seq<bool>,
        dist: Seq<i32>,
        prev: Seq<Option<usize>>,
        cur: Option<MinHeapElement>,
        j: int,
    ) -> Option<(Seq<Option<usize>>, Seq<i32>)>
        decreases count_unmarked(vis) + heap.len(), self.edges_left(cur, j),
        via Self::dij_from_decreases
    {
        let n = self.num_verteces;
        if !(vis.len() == n && 0 <= j) {
            None
        } else if cur is Some && cur->0.vertex < self.adj().len() && j < self.adj()[cur->0.vertex as int].len() {
            let u = cur->0.vertex;
            let e = self.adj()[u as int][j];
            let nd = cur->0.dist + e.weight;
            if e.tgt < n && !vis[e.tgt as int] && nd <= i32::MAX {
                self.dij_from(
                    heap.insert(MinHeapElement { vertex: e.tgt, dist: nd as i32 }),
                    vis.update(e.tgt as int, true),
                    dist.update(e.tgt as int, nd as i32),
                    prev.update(e.tgt as int, Some(u)),
                    cur,
                    j + 1,
                )
            } else {
                self.dij_from(heap, vis, dist, prev, cur, j + 1)
            }
        } else if heap.len() == 0 {
            Some((prev, dist))
        } else if heap.count(least(heap)) == 0 {
            None
        } else {
            let e = least(heap);
            self.dij_from(heap.remove(e), vis, dist, prev, Some(e), 0)
        }
    }

    #[via_fn]
    proof fn dij_from_decreases(
        self,
        heap: Multiset<MinHeapElement>,
        vis: Seq<bool>,
        dist: Seq<i32>,
        prev: Seq<Option<usize>>,
        cur: Option<MinHeapElement>,
        j: int,
    ) {
        let n = self.num_verteces;
        if vis.len() == n && 0 <= j {
            if cur is Some && cur->0.vertex < self.adj().len() && j < self.adj()[cur->0.vertex as int].len() {
                let u = cur->0.vertex;
                let e = self.adj()[u as int][j];
                let nd = cur->0.dist + e.weight;
                if e.tgt < n && !vis[e.tgt as int] && nd <= i32::MAX {
                    lemma_mark(vis, e.tgt as int);
                }
            }
        }
    }

    /// The predecessors and costs with which a cheapest-path search from
    /// `src` ends.
    pub closed spec fn dij_outcome(self, src: usize) -> Option<(Seq<Option<usize>>, Seq<i32>)> {
        self.dij_from(
            Multiset::empty().insert(MinHeapElement { vertex: src, dist: 0 }),
            marks_only(self.num_verteces as nat, src),
            zeros(self.num_verteces as nat),
            no_prev(self.num_verteces as nat),
            None,
            0,
        )
    }

    /// Trying edge `j` of the vertex `u`.
    proof fn lemma_dij_edge(
        self,
        heap: Multiset<MinHeapElement>,
        vis: Seq<bool>,
        dist: Seq<i32>,
        prev: Seq<Option<usize>>,
        u: usize,
        cost: i32,
        j: int,
    )
        requires
            self.wf(),
            vis.len() == self.num_verteces,
            u < self.num_verteces,
            0 <= j < self.adj()[u as int].len(),
        ensures
            ({
                let e = self.adj()[u as int][j];
                let nd = cost + e.weight;
                self.dij_from(heap, vis, dist, prev, Some(MinHeapElement { vertex: u, dist: cost }), j) == if !vis[e.tgt as int] && nd
                    <= i32::MAX {
                    self.dij_from(
                        heap.insert(MinHeapElement { vertex: e.tgt, dist: nd as i32 }),
                        vis.update(e.tgt as int, true),
                        dist.update(e.tgt as int, nd as i32),
                        prev.update(e.tgt as int, Some(u)),
                        Some(MinHeapElement { vertex: u, dist: cost }),
                        j + 1,
                    )
                } else {
                    self.dij_from(heap, vis, dist, prev, Some(MinHeapElement { vertex: u, dist: cost }), j + 1)
                }
            }),
    {
        reveal_with_fuel(Graph::dij_from, 1);
    }

    /// Once the edges of `u` are all tried, the search goes on as from the
    /// frontier alone.
    proof fn lemma_dij_next(
        self,
        heap: Multiset<MinHeapElement>,
        vis: Seq<bool>,
        dist: Seq<i32>,
        prev: Seq<Option<usize>>,
        u: usize,
        cost: i32,
        j: int,
    )
        requires
            vis.len() == self.num_verteces,
            u < self.num_verteces,
            self.adj().len() == self.num_verteces,
            j >= self.adj()[u as int].len(),
        ensures
            self.dij_from(heap, vis, dist, prev, Some(MinHeapElement { vertex: u, dist: cost }), j) == self.dij_from(
                heap,
                vis,
                dist,
                prev,
                None,
                0,
            ),
    {
        reveal_with_fuel(Graph::dij_from, 1);
    }

    /// Taking the least entry `e` out of a non-empty frontier.
    proof fn lemma_dij_take(
        self,
        heap: Multiset<MinHeapElement>,
        vis: Seq<bool>,
        dist: Seq<i32>,
        prev: Seq<Option<usize>>,
        e: MinHeapElement,
    )
        requires
            vis.len() == self.num_verteces,
            heap.contains(e),
            forall|y: MinHeapElement| heap.contains(y) ==> e.key() <= y.key(),
        ensures
            least(heap) == e,
            self.dij_from(heap, vis, dist, prev, None, 0) == self.dij_from(
                heap.remove(e),
                vis,
                dist,
                prev,
                Some(e),
                0,
            ),
    {
        let l = least(heap);
        assert(heap.contains(l) && forall|y: MinHeapElement| heap.contains(y) ==> l.key() <= y.key());
        lemma_key_injective(l, e);
        reveal_with_fuel(Graph::dij_from, 1);
    }

    /// A search whose frontier has run dry ends with the tables it holds.
    proof fn lemma_dij_done(self, vis: Seq<bool>, dist: Seq<i32>, prev: Seq<Option<usize>>)
        requires
            vis.len() == self.num_verteces,
        ensures
            self.dij_from(Multiset::empty(), vis, dist, prev, None, 0) == Some((prev, dist)),
    {
        reveal_with_fuel(Graph::dij_from, 1);
    }

    /// Cheapest-path search from `src` to `tgt` over non-negative weights,
    /// with a min-heap frontier keyed by cost, ties going to the lower vertex.
    ///
    /// A vertex is settled the first time an edge reaches it: its cost and
    /// predecessor are fixed then, and edges found later into it are not tried.
    /// This matches plain Dijkstra on graphs whose cheapest paths are found in
    /// that order; elsewhere the path returned is a walk whose cost is exact but
    /// not always the least. A step whose cost would not fit in an `i32` is
    /// not taken.
    #[verifier::rlimit(100)]
    pub fn dijkstra(&self, src: usize, tgt: usize) -> (r: Option<(Vec<usize>, i32)>)
        requires
            self.wf(),
            self.nonneg_weights(),
            src < self.num_vertices(),
            tgt < self.num_vertices(),
        ensures
            r matches Some((p, c)) ==> {
                &&& self.path_between(p@, src, tgt)
                &&& p@.len() >= 2
                &&& self.walk_costs(p@, c as int)
            },
            src == tgt ==> r is None,
            r is Some ==> self.reachable(src, tgt),
            self.costs_fit() ==> (r is Some <==> src != tgt && self.reachable(src, tgt)),
            match r {
                Some((p, c)) => self.dij_outcome(src) matches Some((table, costs)) && table[tgt as int] is Some
                    && traces(table, tgt, p@) && c == costs[tgt as int],
                None => self.dij_outcome(src) matches Some((table, costs)) && table[tgt as int] is None,
            },
    {
        let n = self.num_verteces;
        let mut visited: Vec<bool> = vec![false; n];
        let mut dist: Vec<i32> = vec![0; n];
        let mut prev: Vec<Option<usize>> = vec![None; n];
        let ghost mut via: Seq<int> = Seq::new(n as nat, |i: int| 0int);
        let ghost mut level: Seq<nat> = Seq::new(n as nat, |i: int| 0nat);
        let ghost mut done: Seq<bool> = Seq::new(n as nat, |i: int| false);
        let ghost mut nvis: nat = 1;
        proof {
            lemma_none_marked(visited@);
            lemma_mark(visited@, src as int);
        }
        visited[src] = true;
        assert forall|v: int| 0 <= v < n && #[trigger] visited@[v] implies v == src && dist@[v] * (n - 1) <= level[v] * i32::MAX by {
            assert(dist@[v] == 0 && level[v] == 0);
        }
        let mut heap: PriorityQueue<MinHeapElement> = PriorityQueue::new();
        heap.push(MinHeapElement { vertex: src, dist: 0 });
        assert(visited@ =~= marks_only(n as nat, src));
        assert(prev@ =~= no_prev(n as nat));
        assert(dist@ =~= zeros(n as nat));
        assert(heap@ =~= Multiset::empty().insert(MinHeapElement { vertex: src, dist: 0 }));
        while heap.len() > 0
            invariant
                self.dij_from(heap@, visited@, dist@, prev@, None, 0) == self.dij_outcome(src),
                self.wf(),
                self.nonneg_weights(),
                n == self.num_verteces,
                src < n,
                tgt < n,
                heap.wf(),
                self.tree_ok(src, visited@, dist@, prev@, via, level),
                done.len() == n,
                nvis + count_unmarked(visited@) == n,
                forall|v: int| 0 <= v < n && #[trigger] visited@[v] ==> level[v] < nvis && dist@[v] >= 0,
                self.costs_fit() ==> forall|v: int|
                    0 <= v < n && #[trigger] visited@[v] ==> dist@[v] * (n - 1) <= level[v] * i32::MAX,
                forall|e: MinHeapElement|
                    #[trigger] heap@.count(e) > 0 ==> {
                        &&& e.vertex < n
                        &&& visited@[e.vertex as int]
                        &&& !done[e.vertex as int]
                        &&& e.dist == dist@[e.vertex as int]
                        &&& heap@.count(e) == 1
                    },
                forall|v: int|
                    0 <= v < n && visited@[v] && !done[v] ==> heap@.count(
                        MinHeapElement { vertex: v as usize, dist: dist@[v] },
                    ) > 0,
                forall|v: int|
                    0 <= v < n && #[trigger] done[v] ==> visited@[v] && self.relaxed(
                        visited@,
                        v,
                        dist@[v] as int,
                        self.adj()[v].len() as int,
                    ),
            decreases count_unmarked(visited@) + heap@.len(),
        {
            let ghost budget = count_unmarked(visited@) + heap@.len();
            let ghost heap0 = heap@;
            if let Some(e) = heap.pop() {
                let u = e.vertex;
                let cost = e.dist;
                proof {
                    done = done.update(u as int, true);
                    self.lemma_dij_take(heap0, visited@, dist@, prev@, e);
                }
                let deg = self.edges[u].len();
                let mut j: usize = 0;
                while j < deg
                    invariant
                        self.dij_from(heap@, visited@, dist@, prev@, Some(e), j as int) == self.dij_outcome(src),
                        e == (MinHeapElement { vertex: u, dist: cost }),
                        self.wf(),
                        self.nonneg_weights(),
                        n == self.num_verteces,
                        src < n,
                        tgt < n,
                        u < n,
                        deg == self.adj()[u as int].len(),
                        j <= deg,
                        visited@[u as int],
                        done[u as int],
                        cost == dist@[u as int],
                        heap.wf(),
                        count_unmarked(visited@) + heap@.len() < budget,
                        self.tree_ok(src, visited@, dist@, prev@, via, level),
                        done.len() == n,
                        nvis + count_unmarked(visited@) == n,
                        forall|v: int|
                            0 <= v < n && #[trigger] visited@[v] ==> level[v] < nvis && dist@[v] >= 0,
                        self.costs_fit() ==> forall|v: int|
                            0 <= v < n && #[trigger] visited@[v] ==> dist@[v] * (n - 1) <= level[v]
                                * i32::MAX,
                        forall|e: MinHeapElement|
                            #[trigger] heap@.count(e) > 0 ==> {
                                &&& e.vertex < n
                                &&& visited@[e.vertex as int]
                                &&& !done[e.vertex as int]
                                &&& e.dist == dist@[e.vertex as int]
                                &&& heap@.count(e) == 1
                            },
                        forall|v: int|
                            0 <= v < n && visited@[v] && !done[v] ==> heap@.count(
                                MinHeapElement { vertex: v as usize, dist: dist@[v] },
                            ) > 0,
                        forall|v: int|
                            0 <= v < n && #[trigger] done[v] && v != u ==> visited@[v] && self.relaxed(
                                visited@,
                                v,
                                dist@[v] as int,
                                self.adj()[v].len() as int,
                            ),
                        self.relaxed(visited@, u as int, cost as int, j as int),
                    decreases deg - j,
                {
                    let edge = self.edges[u][j];
                    assert(edge == self.adj()[u as int][j as int]);
                    let t = edge.tgt;
                    proof {
                        self.lemma_dij_edge(heap@, visited@, dist@, prev@, u, cost, j as int);
                    }
                    if !visited[t] {
                        let nd: i64 = cost as i64 + edge.weight as i64;
                        if nd <= i32::MAX as i64 {
                            proof {
                                lemma_unmarked_positive(visited@, t as int);
                                if self.costs_fit() {
                                    self.lemma_step_fits(
                                        cost as int,
                                        level[u as int] as int,
                                        edge.weight as int,
                                    );
                                }
                                lemma_mark(visited@, t as int);
                                via = via.update(t as int, j as int);
                                level = level.update(t as int, level[u as int] + 1);
                                nvis = nvis + 1;
                            }
                            visited[t] = true;
                            dist[t] = nd as i32;
                            prev[t] = Some(u);
                            heap.push(MinHeapElement { vertex: t, dist: nd as i32 });
                        }
                    }
                    j = j + 1;
                }
                proof {
                    self.lemma_dij_next(heap@, visited@, dist@, prev@, u, cost, j as int);
                }
            }
        }
        proof {
            assert(heap@ =~= Multiset::<MinHeapElement>::empty());
            self.lemma_dij_done(visited@, dist@, prev@);
            assert forall|v: int| 0 <= v < n && visited@[v] implies #[trigger] done[v] by {
                assert(heap@.count(MinHeapElement { vertex: v as usize, dist: dist@[v] }) == 0);
            }
            if self.costs_fit() && !visited@[tgt as int] {
                lemma_unmarked_positive(visited@, tgt as int);
                assert forall|u: int| 0 <= u < n && #[trigger] visited@[u] implies self.explored(
                    visited@,
                    u,
                    self.adj()[u].len() as int,
                ) by {
                    assert(done[u]);
                    assert forall|k: int| 0 <= k < self.adj()[u].len() implies #[trigger] visited@[self.adj()[u][k].tgt as int] by {
                        if !visited@[self.adj()[u][k].tgt as int] {
                            self.lemma_step_fits(dist@[u] as int, level[u] as int, self.adj()[u][k].weight as int);
                        }
                    }
                }
                self.lemma_closed_marks(visited@, src, tgt);
            }
            assert(levelled(prev@, level));
        }
        match prev[tgt] {
            None => None,
            Some(_) => {
                let p = build_path(tgt, &prev, Ghost(level));
                proof {
                    self.lemma_tree_walk(src, visited@, dist@, prev@, via, level, p@, p@.len() - 1);
                    assert(p@.subrange(0, p@.len() as int) =~= p@);
                    assert(self.path_between(p@, src, tgt));
                    assert(traces(prev@, tgt, p@));
                }
                Some((p, dist[tgt]))
            },
        }
    }

    /// What a depth-first search to `tgt` yields from the state `path` (the
    /// vertices on the way down), `next` (for each of them, the index of the
    /// next edge to try) and `vis` (the vertices already entered): the search
    /// tries the next edge of the deepest vertex, succeeds on reaching `tgt`,
    /// enters an unvisited vertex, skips a visited one, and backs up from a
    /// vertex with no edges left.
    pub closed spec fn dfs_from(self, tgt: usize, path: Seq<usize>, next: Seq<usize>, vis: Seq<bool>) -> Option<Seq<usize>>
        decreases count_unmarked(vis), self.pending(path, next),
        via Self::dfs_from_decreases
    {
        if path.len() == 0 || next.len() != path.len() || path.last() >= self.adj().len() {
            None
        } else {
            let c = path.last() as int;
            let k = next.last();
            if k < self.adj()[c].len() && k < usize::MAX {
                let t = self.adj()[c][k as int].tgt;
                let next2 = next.update(next.len() - 1, (k + 1) as usize);
                if t == tgt {
                    Some(path.push(t))
                } else if t < vis.len() && !vis[t as int] {
                    self.dfs_from(tgt, path.push(t), next2.push(0), vis.update(t as int, true))
                } else {
                    self.dfs_from(tgt, path, next2, vis)
                }
            } else {
                self.dfs_from(tgt, path.drop_last(), next.drop_last(), vis)
            }
        }
    }

    #[via_fn]
    proof fn dfs_from_decreases(self, tgt: usize, path: Seq<usize>, next: Seq<usize>, vis: Seq<bool>) {
        if !(path.len() == 0 || next.len() != path.len() || path.last() >= self.adj().len()) {
            let c = path.last() as int;
            let k = next.last();
            if k < self.adj()[c].len() && k < usize::MAX {
                let t = self.adj()[c][k as int].tgt;
                let next2 = next.update(next.len() - 1, (k + 1) as usize);
                if t != tgt && t < vis.len() && !vis[t as int] {
                    lemma_mark(vis, t as int);
                } else {
                    assert(next2.drop_last() =~= next.drop_last());
                }
            }
        }
    }

    /// The path that a depth-first search from `src` to `tgt` returns, if any.
    pub closed spec fn dfs_outcome(self, src: usize, tgt: usize) -> Option<Seq<usize>> {
        if src == tgt {
            Some(seq![src])
        } else {
            self.dfs_from(
                tgt,
                seq![src],
                seq![0usize],
                marks_only(self.num_verteces as nat, src),
            )
        }
    }

    /// The number of vertices.
    pub fn vertex_count(&self) -> (r: usize)
        ensures
            r == self.num_vertices(),
    {
        self.num_verteces
    }

    /// `depth_first_search`, with both endpoints checked first: an index not
    /// below the vertex count is refused, `src` before `tgt`.
    pub fn try_depth_first_search(&self, src: usize, tgt: usize) -> (r: Result<Option<Vec<usize>>, QueryError>)
        requires
            self.wf(),
        ensures
            src >= self.num_vertices() ==> r == Err::<Option<Vec<usize>>, QueryError>(QueryError::IndexOutOfRange(src)),
            src < self.num_vertices() <= tgt ==> r == Err::<Option<Vec<usize>>, QueryError>(QueryError::IndexOutOfRange(tgt)),
            src < self.num_vertices() && tgt < self.num_vertices() ==> (r matches Ok(x) && match x {
                Some(p) => self.dfs_outcome(src, tgt) == Some(p@) && self.path_between(p@, src, tgt),
                None => self.dfs_outcome(src, tgt) is None && !self.reachable(src, tgt),
            }),
    {
        if src >= self.num_verteces {
            return Err(QueryError::IndexOutOfRange(src));
        }
        if tgt >= self.num_verteces {
            return Err(QueryError::IndexOutOfRange(tgt));
        }
        Ok(self.depth_first_search(src, tgt))
    }

    /// `dijkstra`, with both endpoints checked first: an index not below the
    /// vertex count is refused, `src` before `tgt`.
    pub fn try_dijkstra(&self, src: usize, tgt: usize) -> (r: Result<Option<(Vec<usize>, i32)>, QueryError>)
        requires
            self.wf(),
            self.nonneg_weights(),
        ensures
            src >= self.num_vertices() ==> r == Err::<Option<(Vec<usize>, i32)>, QueryError>(QueryError::IndexOutOfRange(src)),
            src < self.num_vertices() <= tgt ==> r == Err::<Option<(Vec<usize>, i32)>, QueryError>(QueryError::IndexOutOfRange(tgt)),
            src < self.num_vertices() && tgt < self.num_vertices() ==> (r matches Ok(x) && {
                &&& x matches Some((p, c)) ==> {
                    &&& self.path_between(p@, src, tgt)
                    &&& p@.len() >= 2
                    &&& self.walk_costs(p@, c as int)
                }
                &&& src == tgt ==> x is None
                &&& self.costs_fit() ==> (x is Some <==> src != tgt && self.reachable(src, tgt))
                &&& match x {
                    Some((p, c)) => self.dij_outcome(src) matches Some((table, costs)) && table[tgt as int] is Some
                        && traces(table, tgt, p@) && c == costs[tgt as int],
                    None => self.dij_outcome(src) matches Some((table, costs)) && table[tgt as int] is None,
                }
            }),
    {
        if src >= self.num_verteces {
            return Err(QueryError::IndexOutOfRange(src));
        }
        if tgt >= self.num_verteces {
            return Err(QueryError::IndexOutOfRange(tgt));
        }
        Ok(self.dijkstra(src, tgt))
    }

    /// Searches depth first for a path from `src` to `tgt`, trying the edges of
    /// each vertex in the order in which they were added. The search keeps
    /// its own stack of frames (a vertex and the next of its edges to try)
    /// instead of recursing, and enters no vertex twice.
    pub fn depth_first_search(&self, src: usize, tgt: usize) -> (r: Option<Vec<usize>>)
        requires
            self.wf(),
            src < self.num_vertices(),
            tgt < self.num_vertices(),
        ensures
            src == tgt ==> (r matches Some(p) && p@ == seq![src]),
            r is Some <==> self.reachable(src, tgt),
            r matches Some(p) ==> self.path_between(p@, src, tgt) && p@.no_duplicates(),
            match r {
                Some(p) => self.dfs_outcome(src, tgt) == Some(p@),
                None => self.dfs_outcome(src, tgt) is None,
            },
    {
        let mut path: Vec<usize> = Vec::new();
        path.push(src);
        if src == tgt {
            assert(self.path_between(path@, src, tgt));
            return Some(path);
        }
        let n = self.num_verteces;
        let mut visited: Vec<bool> = vec![false; n];
        visited[src] = true;
        let mut next: Vec<usize> = Vec::new();
        next.push(0);
        assert(path@[0] == src);
        assert(visited@ =~= marks_only(n as nat, src));
        assert(path@ =~= seq![src]);
        assert(next@ =~= seq![0usize]);
        assert(self.dfs_from(tgt, path@, next@, visited@) == self.dfs_outcome(src, tgt));
        while path.len() > 0
            invariant
                self.dfs_from(tgt, path@, next@, visited@) == self.dfs_outcome(src, tgt),
                self.wf(),
                n == self.num_verteces,
                src < n,
                tgt < n,
                src != tgt,
                visited@.len() == n,
                next@.len() == path@.len(),
                visited@[src as int],
                !visited@[tgt as int],
                path@.len() > 0 ==> path@[0] == src,
                forall|i: int|
                    0 <= i < path@.len() ==> {
                        &&& path@[i] < n
                        &&& visited@[path@[i] as int]
                        &&& path@[i] != tgt
                        &&& next@[i] <= self.adj()[path@[i] as int].len()
                        &&& self.explored(visited@, path@[i] as int, next@[i] as int)
                    },
                forall|i: int|
                    0 <= i < path@.len() - 1 ==> next@[i] >= 1 && self.adj()[path@[i] as int][next@[i]
                        - 1].tgt == path@[i + 1],
                path@.no_duplicates(),
                forall|v: int|
                    0 <= v < n && #[trigger] visited@[v] && !path@.contains(v as usize)
                        ==> self.explored(visited@, v, self.adj()[v].len() as int),
            decreases count_unmarked(visited@), self.pending(path@, next@),
        {
            let top = path.len() - 1;
            let c = path[top];
            let k = next[top];
            let ghost vis0 = visited@;
            let ghost path0 = path@;
            let ghost next0 = next@;
            assert(self.edges@[c as int]@.len() == self.adj()[c as int].len());
            if k < self.edges[c].len() {
                next.set(top, k + 1);
                assert(next@.drop_last() =~= next0.drop_last());
                let t = self.edges[c][k].tgt;
                assert(self.adj()[c as int][k as int] == self.edges@[c as int]@[k as int]);
                if t == tgt {
                    path.push(t);
                    assert(self.dfs_from(tgt, path0, next0, vis0) == Some(path@));
                    assert(path@[path@.len() - 2] == c);
                    assert(self.has_edge(c as int, t as int));
                    assert(self.path_between(path@, src, tgt));
                    return Some(path);
                }
                if !visited[t] {
                    proof {
                        lemma_mark(visited@, t as int);
                    }
                    visited[t] = true;
                    path.push(t);
                    next.push(0);
                    assert(self.dfs_from(tgt, path0, next0, vis0) == self.dfs_from(tgt, path@, next@, visited@));
                    assert(path@.contains(t)) by {
                        assert(path@[path@.len() - 1] == t);
                    }
                    assert forall|w: usize| #[trigger] path0.contains(w) implies path@.contains(w) by {
                        let j = choose|j: int| 0 <= j < path0.len() && path0[j] == w;
                        assert(path@[j] == w);
                    }
                }
            } else {
                path.pop();
                next.pop();
                assert(self.dfs_from(tgt, path0, next0, vis0) == self.dfs_from(tgt, path@, next@, visited@));
                assert forall|w: usize| w != c && #[trigger] path0.contains(w) implies path@.contains(w) by {
                    let j = choose|j: int| 0 <= j < path0.len() && path0[j] == w;
                    assert(path@[j] == w);
                }
                assert(!path@.contains(c));
            }
        }
        proof {
            self.lemma_closed_marks(visited@, src, tgt);
        }
        None
    }
}

/// Two depth-first searches with the same endpoints on the same graph give the
/// same answer: what `depth_first_search` returns is `dfs_outcome` of the
/// graph and the endpoints, so repeating the query cannot change it.
pub proof fn lemma_dfs_repeatable(
    g: Graph,
    src: usize,
    tgt: usize,
    r1: Option<Seq<usize>>,
    r2: Option<Seq<usize>>,
)
    requires
        g.wf(),
        src < g.num_vertices(),
        tgt < g.num_vertices(),
        r1 == g.dfs_outcome(src, tgt),
        r2 == g.dfs_outcome(src, tgt),
    ensures
        r1 == r2,
{
}

/// Two cheapest-path searches with the same endpoints on the same graph give
/// the same answer: what `dijkstra` returns is fixed by `dij_outcome` of the
/// graph and the source, and only one walk back along a predecessor table
/// ends at `tgt`.
pub proof fn lemma_dijkstra_repeatable(
    g: Graph,
    src: usize,
    tgt: usize,
    r1: Option<(Seq<usize>, i32)>,
    r2: Option<(Seq<usize>, i32)>,
)
    requires
        g.wf(),
        g.nonneg_weights(),
        src < g.num_vertices(),
        tgt < g.num_vertices(),
        match r1 {
            Some((p, c)) => g.dij_outcome(src) matches Some((table, costs)) && table[tgt as int] is Some
                && traces(table, tgt, p) && c == costs[tgt as int],
            None => g.dij_outcome(src) matches Some((table, costs)) && table[tgt as int] is None,
        },
        match r2 {
            Some((p, c)) => g.dij_outcome(src) matches Some((table, costs)) && table[tgt as int] is Some
                && traces(table, tgt, p) && c == costs[tgt as int],
            None => g.dij_outcome(src) matches Some((table, costs)) && table[tgt as int] is None,
        },
    ensures
        r1 == r2,
{
    if r1 is Some && r2 is Some {
        let (table, costs) = g.dij_outcome(src)->0;
        let (first, first_cost) = r1->0;
        let (second, second_cost) = r2->0;
        lemma_prev_walk_unique(table, tgt, first, second);
    }
}

} // verus!
