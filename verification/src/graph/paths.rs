//! Paths that avoid a set of vertices, and paths of the transposed graph.
use vstd::prelude::*;
use crate::graph::digraph::{
    edge, path_step, is_path, reach, avoids, white_reach, lemma_path_in_range, lemma_path_single,
    lemma_path_prepend, lemma_path_concat, lemma_path_sub,
};

verus! {

/// The vertices that a path from `v` avoiding `a` reaches.
pub open spec fn white_set(g: Seq<Seq<usize>>, v: int, a: Set<int>) -> Set<int> {
    Set::new(|x: int| white_reach(g, v, a, x))
}

/// `gt` has the edges of `g`, each turned round.
pub open spec fn is_transpose(g: Seq<Seq<usize>>, gt: Seq<Seq<usize>>) -> bool {
    &&& gt.len() == g.len()
    &&& forall|u: int, w: int|
        #![trigger edge(gt, u, w)]
        #![trigger edge(g, w, u)]
        edge(gt, u, w) <==> edge(g, w, u)
}

/// A path that avoids `a` starts and ends at vertices of the graph outside `a`.
pub proof fn lemma_white_ends(g: Seq<Seq<usize>>, v: int, a: Set<int>, x: int)
    requires
        white_reach(g, v, a, x),
    ensures
        0 <= v < g.len(),
        0 <= x < g.len(),
        !a.contains(v),
        !a.contains(x),
        reach(g, v, x),
{
    let p = choose|p: Seq<int>| #[trigger] is_path(g, p) && p[0] == v && p.last() == x && avoids(p, a);
    lemma_path_in_range(g, p);
    assert(!a.contains(p[0]));
    assert(!a.contains(p[p.len() - 1]));
}

/// The one-vertex path avoids every set that does not hold its vertex.
pub proof fn lemma_white_self(g: Seq<Seq<usize>>, v: int, a: Set<int>)
    requires
        0 <= v < g.len(),
        !a.contains(v),
    ensures
        white_reach(g, v, a, v),
{
    lemma_path_single(g, v);
    let p = seq![v];
    assert(avoids(p, a));
    assert(is_path(g, p) && p[0] == v && p.last() == v && avoids(p, a));
}

/// Two avoiding paths joined end to start.
pub proof fn lemma_white_trans(g: Seq<Seq<usize>>, v: int, y: int, x: int, a: Set<int>)
    requires
        white_reach(g, v, a, y),
        white_reach(g, y, a, x),
    ensures
        white_reach(g, v, a, x),
{
    let p = choose|p: Seq<int>| #[trigger] is_path(g, p) && p[0] == v && p.last() == y && avoids(p, a);
    let q = choose|q: Seq<int>| #[trigger] is_path(g, q) && q[0] == y && q.last() == x && avoids(q, a);
    lemma_path_concat(g, p, q);
    let r = p + q.drop_first();
    assert forall|i: int| 0 <= i < r.len() implies !a.contains(#[trigger] r[i]) by {
        if i >= p.len() {
            assert(r[i] == q[i - p.len() + 1]);
        }
    }
    assert(is_path(g, r) && r[0] == v && r.last() == x && avoids(r, a));
}

/// A path that avoids a set avoids each of its subsets.
pub proof fn lemma_white_mono(g: Seq<Seq<usize>>, v: int, a: Set<int>, b: Set<int>, x: int)
    requires
        white_reach(g, v, b, x),
        a.subset_of(b),
    ensures
        white_reach(g, v, a, x),
{
    let p = choose|p: Seq<int>| #[trigger] is_path(g, p) && p[0] == v && p.last() == x && avoids(p, b);
    assert(avoids(p, a));
}

/// Where `b` grows `a` by vertices that reach only into `b` while avoiding `a`, a path from
/// outside `b` that avoids `a` either ends in `b` or avoids `b` as well.
pub proof fn lemma_white_closure(g: Seq<Seq<usize>>, w: int, a: Set<int>, b: Set<int>, x: int)
    requires
        a.subset_of(b),
        forall|y: int, z: int|
            b.contains(y) && !a.contains(y) && #[trigger] white_reach(g, y, a, z) ==> b.contains(z),
        white_reach(g, w, a, x),
    ensures
        b.contains(x) || white_reach(g, w, b, x),
{
    let p = choose|p: Seq<int>| #[trigger] is_path(g, p) && p[0] == w && p.last() == x && avoids(p, a);
    if !avoids(p, b) {
        let i = choose|i: int| 0 <= i < p.len() && b.contains(#[trigger] p[i]);
        lemma_path_sub(g, p, i, p.len() - 1);
        let q = p.subrange(i, p.len() as int);
        assert(q[0] == p[i]);
        assert(q.last() == x);
        assert(avoids(q, a)) by {
            assert forall|k: int| 0 <= k < q.len() implies !a.contains(#[trigger] q[k]) by {
                assert(q[k] == p[i + k]);
            }
        }
        assert(white_reach(g, p[i], a, x));
    } else {
        assert(white_reach(g, w, b, x));
    }
}

/// A path from `v` avoiding `a` to another vertex goes on from a neighbour of `v` and from
/// there avoids `v` too.
pub proof fn lemma_white_step(g: Seq<Seq<usize>>, v: int, a: Set<int>, x: int)
    requires
        white_reach(g, v, a, x),
        x != v,
    ensures
        exists|k: int|
            0 <= k < g[v].len() && #[trigger] white_reach(g, g[v][k] as int, a.insert(v), x),
{
    let p = choose|p: Seq<int>| #[trigger] is_path(g, p) && p[0] == v && p.last() == x && avoids(p, a);
    lemma_white_step_path(g, v, a, p);
}

proof fn lemma_white_step_path(g: Seq<Seq<usize>>, v: int, a: Set<int>, p: Seq<int>)
    requires
        is_path(g, p),
        p[0] == v,
        p.last() != v,
        avoids(p, a),
    ensures
        exists|k: int|
            0 <= k < g[v].len() && #[trigger] white_reach(g, g[v][k] as int, a.insert(v), p.last()),
    decreases p.len(),
{
    let x = p.last();
    assert(p.len() >= 2);
    assert(path_step(g, p, 0));
    lemma_path_in_range(g, p);
    assert(0 <= p[1] < g.len());
    let k = choose|k: int| 0 <= k < g[v].len() && #[trigger] g[v][k] as int == p[1];
    lemma_path_sub(g, p, 1, p.len() - 1);
    let q = p.subrange(1, p.len() as int);
    assert(q[0] == p[1]);
    assert(q.last() == x);
    if avoids(q, a.insert(v)) {
        assert(is_path(g, q));
        assert(q[0] == g[v][k] as int);
        assert(is_path(g, q) && q[0] == g[v][k] as int && q.last() == x && avoids(q, a.insert(v)));
        assert(white_reach(g, g[v][k] as int, a.insert(v), x));
    } else {
        let j = choose|j: int| 0 <= j < q.len() && a.insert(v).contains(#[trigger] q[j]);
        assert(q[j] == p[j + 1]);
        assert(q[j] == v);
        lemma_path_sub(g, q, j, q.len() - 1);
        let r = q.subrange(j, q.len() as int);
        assert(r[0] == v);
        assert(r.last() == x);
        assert(avoids(r, a)) by {
            assert forall|t: int| 0 <= t < r.len() implies !a.contains(#[trigger] r[t]) by {
                assert(r[t] == p[j + 1 + t]);
            }
        }
        lemma_white_step_path(g, v, a, r);
    }
}

/// A path from a neighbour of `v` that avoids `a` and `v`, with `v` put in front.
pub proof fn lemma_white_prepend(g: Seq<Seq<usize>>, v: int, k: int, a: Set<int>, x: int)
    requires
        0 <= v < g.len(),
        0 <= k < g[v].len(),
        !a.contains(v),
        white_reach(g, g[v][k] as int, a.insert(v), x),
    ensures
        white_reach(g, v, a, x),
{
    let w = g[v][k] as int;
    let p = choose|p: Seq<int>|
        #[trigger] is_path(g, p) && p[0] == w && p.last() == x && avoids(p, a.insert(v));
    lemma_white_ends(g, w, a.insert(v), x);
    assert(edge(g, v, p[0]));
    lemma_path_prepend(g, v, p);
    let q = seq![v] + p;
    assert(avoids(q, a)) by {
        assert forall|t: int| 0 <= t < q.len() implies !a.contains(#[trigger] q[t]) by {
            if t > 0 {
                assert(q[t] == p[t - 1]);
            }
        }
    }
    assert(q.last() == x);
    assert(is_path(g, q) && q[0] == v && q.last() == x && avoids(q, a));
}

/// A path of `g` read backwards is a path of its transpose.
pub proof fn lemma_reverse_path(g: Seq<Seq<usize>>, gt: Seq<Seq<usize>>, p: Seq<int>)
    requires
        is_transpose(g, gt),
        is_path(g, p),
    ensures
        is_path(gt, p.reverse()),
        p.reverse()[0] == p.last(),
        p.reverse().last() == p[0],
{
    lemma_path_in_range(g, p);
    let r = p.reverse();
    assert forall|i: int| 0 <= i < r.len() - 1 implies #[trigger] path_step(gt, r, i) by {
        let j = p.len() - 2 - i;
        assert(path_step(g, p, j));
        assert(r[i] == p[j + 1]);
        assert(r[i + 1] == p[j]);
        assert(edge(g, p[j], p[j + 1]));
        assert(edge(gt, r[i], r[i + 1]));
    }
}

/// Reachability in the transpose is reachability in `g` backwards.
pub proof fn lemma_transpose_reach(g: Seq<Seq<usize>>, gt: Seq<Seq<usize>>, u: int, w: int)
    requires
        is_transpose(g, gt),
    ensures
        reach(gt, u, w) <==> reach(g, w, u),
{
    if reach(g, w, u) {
        let p = choose|p: Seq<int>| #[trigger] is_path(g, p) && p[0] == w && p.last() == u;
        lemma_reverse_path(g, gt, p);
    }
    if reach(gt, u, w) {
        let p = choose|p: Seq<int>| #[trigger] is_path(gt, p) && p[0] == u && p.last() == w;
        lemma_reverse_path(gt, g, p);
    }
}

} // verus!
