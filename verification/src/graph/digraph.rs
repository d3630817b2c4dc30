//! A directed graph given by the out-neighbours of each vertex, and paths in it.
use vstd::prelude::*;

verus! {

/// `g` has an edge from `u` to `w`.
pub open spec fn edge(g: Seq<Seq<usize>>, u: int, w: int) -> bool {
    &&& 0 <= u < g.len()
    &&& 0 <= w < g.len()
    &&& exists|k: int| 0 <= k < g[u].len() && #[trigger] g[u][k] as int == w
}

/// Step `i` of `p` follows an edge of `g`.
pub open spec fn path_step(g: Seq<Seq<usize>>, p: Seq<int>, i: int) -> bool {
    edge(g, p[i], p[i + 1])
}

/// `p` is a path of `g`: a non-empty sequence of vertices joined by edges.
pub open spec fn is_path(g: Seq<Seq<usize>>, p: Seq<int>) -> bool {
    &&& p.len() > 0
    &&& 0 <= p[0] < g.len()
    &&& forall|i: int| 0 <= i < p.len() - 1 ==> #[trigger] path_step(g, p, i)
}

/// A path of `g` leads from `u` to `w`.
pub open spec fn reach(g: Seq<Seq<usize>>, u: int, w: int) -> bool {
    exists|p: Seq<int>| #[trigger] is_path(g, p) && p[0] == u && p.last() == w
}

/// `u` and `w` reach each other: they lie in one strongly connected component.
pub open spec fn mutual(g: Seq<Seq<usize>>, u: int, w: int) -> bool {
    reach(g, u, w) && reach(g, w, u)
}

/// No vertex of `p` is in `a`.
pub open spec fn avoids(p: Seq<int>, a: Set<int>) -> bool {
    forall|i: int| 0 <= i < p.len() ==> !a.contains(#[trigger] p[i])
}

/// A path of `g` from `v` to `x` avoids `a`.
pub open spec fn white_reach(g: Seq<Seq<usize>>, v: int, a: Set<int>, x: int) -> bool {
    exists|p: Seq<int>| #[trigger] is_path(g, p) && p[0] == v && p.last() == x && avoids(p, a)
}

/// Every vertex of `p` is in range.
pub proof fn lemma_path_in_range(g: Seq<Seq<usize>>, p: Seq<int>)
    requires
        is_path(g, p),
    ensures
        forall|i: int| 0 <= i < p.len() ==> 0 <= #[trigger] p[i] < g.len(),
{
    assert forall|i: int| 0 <= i < p.len() implies 0 <= #[trigger] p[i] < g.len() by {
        if i > 0 {
            assert(path_step(g, p, i - 1));
        }
    }
}

/// The one-vertex path.
pub proof fn lemma_path_single(g: Seq<Seq<usize>>, v: int)
    requires
        0 <= v < g.len(),
    ensures
        is_path(g, seq![v]),
        reach(g, v, v),
{
    assert(is_path(g, seq![v]));
}

/// A path followed by an edge.
pub proof fn lemma_path_push(g: Seq<Seq<usize>>, p: Seq<int>, w: int)
    requires
        is_path(g, p),
        edge(g, p.last(), w),
    ensures
        is_path(g, p.push(w)),
{
    let q = p.push(w);
    assert forall|i: int| 0 <= i < q.len() - 1 implies #[trigger] path_step(g, q, i) by {
        if i < p.len() - 1 {
            assert(path_step(g, p, i));
        }
    }
}

/// An edge followed by a path.
pub proof fn lemma_path_prepend(g: Seq<Seq<usize>>, v: int, p: Seq<int>)
    requires
        is_path(g, p),
        edge(g, v, p[0]),
    ensures
        is_path(g, seq![v] + p),
{
    let q = seq![v] + p;
    assert forall|i: int| 0 <= i < q.len() - 1 implies #[trigger] path_step(g, q, i) by {
        if i > 0 {
            assert(path_step(g, p, i - 1));
        }
    }
}

/// Two paths joined where the first ends and the second starts.
pub proof fn lemma_path_concat(g: Seq<Seq<usize>>, p: Seq<int>, q: Seq<int>)
    requires
        is_path(g, p),
        is_path(g, q),
        p.last() == q[0],
    ensures
        is_path(g, p + q.drop_first()),
        (p + q.drop_first())[0] == p[0],
        (p + q.drop_first()).last() == q.last(),
{
    let r = p + q.drop_first();
    assert forall|i: int| 0 <= i < r.len() - 1 implies #[trigger] path_step(g, r, i) by {
        if i < p.len() - 1 {
            assert(path_step(g, p, i));
        } else {
            let k = i - (p.len() - 1);
            assert(path_step(g, q, k));
        }
    }
}

/// The part of a path from place `a` to place `b`.
pub proof fn lemma_path_sub(g: Seq<Seq<usize>>, p: Seq<int>, a: int, b: int)
    requires
        is_path(g, p),
        0 <= a <= b < p.len(),
    ensures
        is_path(g, p.subrange(a, b + 1)),
{
    lemma_path_in_range(g, p);
    let q = p.subrange(a, b + 1);
    assert forall|i: int| 0 <= i < q.len() - 1 implies #[trigger] path_step(g, q, i) by {
        assert(path_step(g, p, a + i));
    }
}

/// Reachability is transitive.
pub proof fn lemma_reach_trans(g: Seq<Seq<usize>>, u: int, v: int, w: int)
    requires
        reach(g, u, v),
        reach(g, v, w),
    ensures
        reach(g, u, w),
{
    let p = choose|p: Seq<int>| #[trigger] is_path(g, p) && p[0] == u && p.last() == v;
    let q = choose|q: Seq<int>| #[trigger] is_path(g, q) && q[0] == v && q.last() == w;
    lemma_path_concat(g, p, q);
}

/// An edge is a path.
pub proof fn lemma_edge_reach(g: Seq<Seq<usize>>, u: int, w: int)
    requires
        edge(g, u, w),
    ensures
        reach(g, u, w),
{
    lemma_path_single(g, u);
    lemma_path_push(g, seq![u], w);
    assert(seq![u].push(w)[0] == u);
}

/// Every vertex of a path between two vertices of one component is in it too.
pub proof fn lemma_path_in_component(g: Seq<Seq<usize>>, p: Seq<int>, i: int)
    requires
        is_path(g, p),
        mutual(g, p[0], p.last()),
        0 <= i < p.len(),
    ensures
        mutual(g, p[0], p[i]),
{
    lemma_path_sub(g, p, 0, i);
    lemma_path_sub(g, p, i, p.len() - 1);
    assert(p.subrange(0, i + 1)[0] == p[0]);
    assert(p.subrange(0, i + 1).last() == p[i]);
    assert(p.subrange(i, p.len() as int)[0] == p[i]);
    assert(p.subrange(i, p.len() as int).last() == p.last());
    assert(reach(g, p[0], p[i]));
    assert(reach(g, p[i], p.last()));
    lemma_reach_trans(g, p[i], p.last(), p[0]);
}

/// Mutual reachability is an equivalence on the vertices.
pub proof fn lemma_mutual_facts(g: Seq<Seq<usize>>, u: int, v: int, w: int)
    ensures
        0 <= u < g.len() ==> mutual(g, u, u),
        mutual(g, u, v) ==> mutual(g, v, u),
        mutual(g, u, v) && mutual(g, v, w) ==> mutual(g, u, w),
{
    if 0 <= u < g.len() {
        lemma_path_single(g, u);
    }
    if mutual(g, u, v) && mutual(g, v, w) {
        lemma_reach_trans(g, u, v, w);
        lemma_reach_trans(g, w, v, u);
    }
}

/// A directed graph on vertices `0..n`.
pub struct Graph {
    adj: Vec<Vec<usize>>,
}

impl View for Graph {
    type V = Seq<Seq<usize>>;

    /// The out-neighbours of each vertex.
    closed spec fn view(&self) -> Seq<Seq<usize>> {
        Seq::new(self.adj@.len(), |v: int| self.adj@[v]@)
    }
}

/// Every edge ends at a vertex of the graph.
pub open spec fn graph_wf(g: Seq<Seq<usize>>) -> bool {
    forall|u: int, k: int| 0 <= u < g.len() && 0 <= k < g[u].len() ==> #[trigger] g[u][k] < g.len()
}

impl Graph {
    /// The graph's edges end at its vertices.
    #[verifier::type_invariant]
    spec fn inv(self) -> bool {
        graph_wf(self@)
    }

    /// A graph of `n` vertices and no edges.
    pub fn new(n: usize) -> (g: Graph)
        ensures
            g@ == Seq::new(n as nat, |v: int| Seq::<usize>::empty()),
    {
        let mut adj: Vec<Vec<usize>> = Vec::new();
        while adj.len() < n
            invariant
                adj.len() <= n,
                forall|v: int| 0 <= v < adj.len() ==> (#[trigger] adj@[v])@ == Seq::<usize>::empty(),
            decreases n - adj.len(),
        {
            adj.push(Vec::new());
        }
        let g = Graph { adj };
        assert(g@ =~= Seq::new(n as nat, |v: int| Seq::<usize>::empty()));
        g
    }

    /// Number of vertices.
    pub fn vertex_count(&self) -> (n: usize)
        ensures
            n == self@.len(),
    {
        self.adj.len()
    }

    /// Adds `k` vertices without edges.
    pub fn add_vertices(&mut self, k: usize)
        ensures
            final(self)@ == old(self)@ + Seq::new(k as nat, |v: int| Seq::<usize>::empty()),
    {
        proof {
            use_type_invariant(&*self);
        }
        let ghost start = self@;
        let mut adj: Vec<Vec<usize>> = Vec::new();
        std::mem::swap(&mut adj, &mut self.adj);
        let mut i: usize = 0;
        while i < k
            invariant
                i <= k,
                adj@.len() == start.len() + i,
                forall|v: int| 0 <= v < start.len() ==> (#[trigger] adj@[v])@ == start[v],
                forall|v: int|
                    start.len() <= v < adj@.len() ==> (#[trigger] adj@[v])@ == Seq::<usize>::empty(),
                graph_wf(start),
            decreases k - i,
        {
            adj.push(Vec::new());
            i = i + 1;
        }
        proof {
            assert forall|u: int, j: int|
                0 <= u < adj@.len() && 0 <= j < adj@[u]@.len() implies #[trigger] adj@[u]@[j]
                < adj@.len() by {
                assert(u < start.len());
                assert(start[u][j] < start.len());
            }
        }
        self.adj = adj;
        proof {
            assert(self@ =~= start + Seq::new(k as nat, |v: int| Seq::<usize>::empty()));
        }
    }

    /// Adds an edge from `from` to `to`.
    pub fn add_edge(&mut self, from: usize, to: usize)
        requires
            from < old(self)@.len(),
            to < old(self)@.len(),
        ensures
            final(self)@ == old(self)@.update(from as int, old(self)@[from as int].push(to)),
    {
        proof {
            use_type_invariant(&*self);
        }
        let ghost before = self@;
        let mut adj: Vec<Vec<usize>> = Vec::new();
        std::mem::swap(&mut adj, &mut self.adj);
        adj[from].push(to);
        proof {
            assert forall|u: int, j: int|
                0 <= u < adj@.len() && 0 <= j < adj@[u]@.len() implies #[trigger] adj@[u]@[j]
                < adj@.len() by {
                if u != from {
                    assert(before[u] == adj@[u]@);
                } else if j < before[u].len() {
                    assert(before[u][j] == adj@[u]@[j]);
                }
            }
        }
        self.adj = adj;
        proof {
            assert(self@ =~= before.update(from as int, before[from as int].push(to)));
        }
    }

    /// The out-neighbours of `v`.
    pub fn edges(&self, v: usize) -> (e: &Vec<usize>)
        requires
            v < self@.len(),
        ensures
            e@ == self@[v as int],
            forall|k: int| 0 <= k < e@.len() ==> #[trigger] e@[k] < self@.len(),
    {
        proof {
            use_type_invariant(self);
        }
        &self.adj[v]
    }
}

} // verus!
