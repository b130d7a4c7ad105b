//! Working state shared by the searches: visit marks and predecessor tables.
use vstd::prelude::*;

verus! {

/// Why a graph query was refused.
#[derive(Debug, Clone, Copy, PartialEq, Eq)]
pub enum QueryError {
    /// A vertex index that is not below the graph's vertex count.
    IndexOutOfRange(usize),
}

/// The number of slots of `s` that are not marked.
pub open spec fn count_unmarked(s: Seq<bool>) -> nat
    decreases s.len(),
{
    if s.len() == 0 {
        0
    } else {
        count_unmarked(s.drop_last()) + if s.last() {
            0nat
        } else {
            1nat
        }
    }
}

/// `n` marks, of which only the one at `v` is set.
pub open spec fn marks_only(n: nat, v: usize) -> Seq<bool> {
    Seq::new(n, |i: int| i == v)
}

/// A predecessor table of `n` empty entries.
pub open spec fn no_prev(n: nat) -> Seq<Option<usize>> {
    Seq::new(n, |i: int| None::<usize>)
}

/// `n` zeros.
pub open spec fn zeros(n: nat) -> Seq<i32> {
    Seq::new(n, |i: int| 0i32)
}

/// `p` is the walk back along the predecessors of `table` from `tgt` to a
/// vertex without one.
pub open spec fn traces(table: Seq<Option<usize>>, tgt: usize, p: Seq<usize>) -> bool {
    &&& p.len() > 0
    &&& p.last() == tgt
    &&& follows_prev(table, p)
    &&& table[p[0] as int] is None
}

/// Marking an unmarked slot lowers the count by one.
pub proof fn lemma_mark(s: Seq<bool>, i: int)
    requires
        0 <= i < s.len(),
        !s[i],
    ensures
        count_unmarked(s.update(i, true)) + 1 == count_unmarked(s),
    decreases s.len(),
{
    if i == s.len() - 1 {
        assert(s.update(i, true).drop_last() =~= s.drop_last());
    } else {
        lemma_mark(s.drop_last(), i);
        assert(s.update(i, true).drop_last() =~= s.drop_last().update(i, true));
    }
}

/// With no slot marked, every slot counts.
pub proof fn lemma_none_marked(s: Seq<bool>)
    requires
        forall|i: int| 0 <= i < s.len() ==> !s[i],
    ensures
        count_unmarked(s) == s.len(),
    decreases s.len(),
{
    if s.len() > 0 {
        lemma_none_marked(s.drop_last());
    }
}

/// An unmarked slot leaves the count above zero.
pub proof fn lemma_unmarked_positive(s: Seq<bool>, i: int)
    requires
        0 <= i < s.len(),
        !s[i],
    ensures
        count_unmarked(s) > 0,
{
    lemma_mark(s, i);
}

/// Each recorded predecessor is one level nearer the root than the vertex it
/// precedes.
pub open spec fn levelled(prev: Seq<Option<usize>>, level: Seq<nat>) -> bool {
    &&& level.len() == prev.len()
    &&& forall|v: int|
        0 <= v < prev.len() && #[trigger] prev[v] is Some ==> {
            &&& (prev[v]->0 as int) < prev.len()
            &&& level[prev[v]->0 as int] + 1 == level[v]
        }
}

/// `p` runs along recorded predecessors: each vertex but the first is preceded
/// by the one before it.
pub open spec fn follows_prev(prev: Seq<Option<usize>>, p: Seq<usize>) -> bool {
    &&& forall|i: int| 0 <= i < p.len() ==> (p[i] as int) < prev.len()
    &&& forall|i: int| 1 <= i < p.len() ==> prev[#[trigger] p[i] as int] == Some(p[i - 1])
}

/// At most one walk along recorded predecessors ends at `tgt` and starts at a
/// vertex without one.
pub proof fn lemma_prev_walk_unique(prev: Seq<Option<usize>>, tgt: usize, p: Seq<usize>, q: Seq<usize>)
    requires
        p.len() > 0,
        q.len() > 0,
        p.last() == tgt,
        q.last() == tgt,
        follows_prev(prev, p),
        follows_prev(prev, q),
        prev[p[0] as int] is None,
        prev[q[0] as int] is None,
    ensures
        p == q,
{
    lemma_prev_walks_agree(prev, tgt, p, q, 0);
    if p.len() < q.len() {
        lemma_prev_walks_agree(prev, tgt, p, q, p.len() - 1);
        let j = q.len() - p.len();
        assert(q[j] == p[0]);
        assert(prev[q[j] as int] == Some(q[j - 1]));
    } else if q.len() < p.len() {
        lemma_prev_walks_agree(prev, tgt, p, q, q.len() - 1);
        let j = p.len() - q.len();
        assert(p[j] == q[0]);
        assert(prev[p[j] as int] == Some(p[j - 1]));
    } else {
        assert forall|k: int| 0 <= k < p.len() implies p[k] == q[k] by {
            lemma_prev_walks_agree(prev, tgt, p, q, p.len() - 1 - k);
        }
        assert(p =~= q);
    }
}

/// Two walks along recorded predecessors that end at `tgt` agree from the end
/// back over their common length.
proof fn lemma_prev_walks_agree(prev: Seq<Option<usize>>, tgt: usize, p: Seq<usize>, q: Seq<usize>, k: int)
    requires
        p.len() > 0,
        q.len() > 0,
        p.last() == tgt,
        q.last() == tgt,
        follows_prev(prev, p),
        follows_prev(prev, q),
        0 <= k < p.len(),
        k < q.len(),
    ensures
        p[p.len() - 1 - k] == q[q.len() - 1 - k],
    decreases k,
{
    if k > 0 {
        lemma_prev_walks_agree(prev, tgt, p, q, k - 1);
        let a = p.len() - k;
        let b = q.len() - k;
        assert(prev[p[a] as int] == Some(p[a - 1]));
        assert(prev[q[b] as int] == Some(q[b - 1]));
    }
}

/// Walks the predecessors back from `tgt` to a vertex that has none, and
/// returns the vertices met, from that vertex to `tgt`.
pub fn build_path(tgt: usize, prev: &Vec<Option<usize>>, Ghost(level): Ghost<Seq<nat>>) -> (p: Vec<usize>)
    requires
        tgt < prev@.len(),
        levelled(prev@, level),
    ensures
        p@.len() > 0,
        p@.last() == tgt,
        prev@[p@[0] as int] is None,
        follows_prev(prev@, p@),
{
    let mut back: Vec<usize> = Vec::new();
    let mut cur = tgt;
    back.push(cur);
    while prev[cur].is_some()
        invariant
            levelled(prev@, level),
            cur < prev@.len(),
            back@.len() > 0,
            back@[0] == tgt,
            back@.last() == cur,
            forall|i: int| 0 <= i < back@.len() ==> (back@[i] as int) < prev@.len(),
            forall|i: int| 0 <= i < back@.len() - 1 ==> prev@[#[trigger] back@[i] as int] == Some(back@[i + 1]),
        decreases level[cur as int],
    {
        let u = match prev[cur] {
            Some(u) => u,
            None => cur,
        };
        back.push(u);
        cur = u;
    }
    let mut p: Vec<usize> = Vec::new();
    let mut i = back.len();
    while i > 0
        invariant
            i <= back@.len(),
            p@.len() == back@.len() - i,
            forall|j: int| 0 <= j < p@.len() ==> p@[j] == back@[back@.len() - 1 - j],
        decreases i,
    {
        i = i - 1;
        p.push(back[i]);
    }
    proof {
        assert forall|j: int| 1 <= j < p@.len() implies prev@[#[trigger] p@[j] as int] == Some(p@[j - 1]) by {
            let b = back@.len() - 1 - j;
            assert(p@[j] == back@[b]);
            assert(p@[j - 1] == back@[b + 1]);
        }
    }
    p
}

} // verus!
