//! The order in which a depth-first search finishes the vertices, and why reading it backwards
//! meets the strongly connected components source first.
use vstd::prelude::*;
use crate::graph::digraph::{
    edge, is_path, reach, mutual, white_reach, lemma_path_in_component, lemma_mutual_facts,
    lemma_reach_trans, lemma_edge_reach, lemma_path_single,
};
use crate::graph::paths::{lemma_white_ends, lemma_white_trans};

verus! {

/// The vertices marked in `vis`.
pub open spec fn vset(vis: Seq<bool>) -> Set<int> {
    Set::new(|x: int| 0 <= x < vis.len() && vis[x])
}

/// The vertices that the search had marked when it first came to `d`.
pub open spec fn prior(vis: Seq<bool>, rank: Seq<nat>, d: int) -> Set<int> {
    Set::new(|x: int| 0 <= x < vis.len() && vis[x] && rank[x] < rank[d])
}

/// Everything finished before the search came to `x` had been marked before it.
pub open spec fn started_ok(order: Seq<usize>, rank: Seq<nat>, start: Seq<nat>, x: int) -> bool {
    &&& start[x] <= order.len()
    &&& forall|p: int| 0 <= p < start[x] ==> #[trigger] rank[order[p] as int] < rank[x]
}

/// The vertices finished from the moment the search came to `order[q]` up to `order[q]`
/// itself are those that a path from it reaches avoiding what had been marked before.
pub open spec fn finished_ok(
    g: Seq<Seq<usize>>,
    vis: Seq<bool>,
    order: Seq<usize>,
    rank: Seq<nat>,
    start: Seq<nat>,
    q: int,
) -> bool {
    let d = order[q] as int;
    &&& start[d] <= q
    &&& forall|p: int|
        start[d] <= p <= q ==> #[trigger] white_reach(g, d, prior(vis, rank, d), order[p] as int)
    &&& forall|x: int|
        #[trigger] white_reach(g, d, prior(vis, rank, d), x) ==> exists|p: int|
            start[d] <= p <= q && #[trigger] order[p] as int == x
}

/// What holds of a depth-first search between its steps: `vis` marks the vertices met,
/// `order` lists those finished, `rank[x]` counts the vertices met before `x`, and
/// `start[x]` is the length of `order` when the search came to `x`.
pub open spec fn search_inv(
    g: Seq<Seq<usize>>,
    vis: Seq<bool>,
    order: Seq<usize>,
    rank: Seq<nat>,
    start: Seq<nat>,
    count: nat,
) -> bool {
    &&& vis.len() == g.len()
    &&& rank.len() == g.len()
    &&& start.len() == g.len()
    &&& order.no_duplicates()
    &&& forall|p: int| 0 <= p < order.len() ==> #[trigger] order[p] < g.len() && vis[order[p] as int]
    &&& forall|x: int| 0 <= x < g.len() && #[trigger] vis[x] ==> rank[x] < count
    &&& forall|x: int| 0 <= x < g.len() && #[trigger] vis[x] ==> started_ok(order, rank, start, x)
    &&& forall|q: int| 0 <= q < order.len() ==> #[trigger] finished_ok(g, vis, order, rank, start, q)
}

/// Vertices not yet marked.
pub open spec fn count_false(s: Seq<bool>) -> nat
    decreases s.len(),
{
    if s.len() == 0 {
        0
    } else {
        count_false(s.drop_last()) + if s.last() {
            0nat
        } else {
            1nat
        }
    }
}

/// Marking an unmarked place leaves one fewer.
pub proof fn lemma_count_false_mark(s: Seq<bool>, i: int)
    requires
        0 <= i < s.len(),
        !s[i],
    ensures
        count_false(s.update(i, true)) + 1 == count_false(s),
    decreases s.len(),
{
    let t = s.update(i, true);
    if i == s.len() - 1 {
        assert(t.drop_last() =~= s.drop_last());
    } else {
        assert(t.drop_last() =~= s.drop_last().update(i, true));
        lemma_count_false_mark(s.drop_last(), i);
    }
}

/// Where nothing is marked, every place counts.
pub proof fn lemma_count_false_none(s: Seq<bool>)
    requires
        forall|i: int| 0 <= i < s.len() ==> !#[trigger] s[i],
    ensures
        count_false(s) == s.len(),
    decreases s.len(),
{
    if s.len() > 0 {
        lemma_count_false_none(s.drop_last());
    }
}

/// Where everything is marked, nothing counts.
pub proof fn lemma_count_false_all(s: Seq<bool>)
    requires
        forall|i: int| 0 <= i < s.len() ==> #[trigger] s[i],
    ensures
        count_false(s) == 0,
    decreases s.len(),
{
    if s.len() > 0 {
        lemma_count_false_all(s.drop_last());
    }
}

/// The search's records of the vertices it had met stay as they were while it goes on.
pub proof fn lemma_records_stable(
    g: Seq<Seq<usize>>,
    vis: Seq<bool>,
    order: Seq<usize>,
    rank: Seq<nat>,
    start: Seq<nat>,
    count: nat,
    vis2: Seq<bool>,
    order2: Seq<usize>,
    rank2: Seq<nat>,
    start2: Seq<nat>,
)
    requires
        search_inv(g, vis, order, rank, start, count),
        vis2.len() == vis.len(),
        order.len() <= order2.len(),
        order2.subrange(0, order.len() as int) == order,
        forall|x: int| 0 <= x < vis.len() && #[trigger] vis[x] ==> vis2[x],
        forall|x: int|
            0 <= x < vis.len() && #[trigger] vis[x] ==> rank2[x] == rank[x] && start2[x] == start[x],
        forall|x: int| 0 <= x < vis.len() && #[trigger] vis2[x] && !vis[x] ==> rank2[x] >= count,
    ensures
        forall|x: int| 0 <= x < vis.len() && #[trigger] vis[x] ==> started_ok(order2, rank2, start2, x),
        forall|q: int| 0 <= q < order.len() ==> #[trigger] finished_ok(g, vis2, order2, rank2, start2, q),
{
    assert forall|x: int| 0 <= x < vis.len() && #[trigger] vis[x] implies started_ok(order2, rank2, start2, x) by {
        assert(started_ok(order, rank, start, x));
        assert forall|p: int| 0 <= p < start2[x] implies #[trigger] rank2[order2[p] as int] < rank2[x] by {
            assert(order2[p] == order[p]);
            assert(rank[order[p] as int] < rank[x]);
            assert(vis[order[p] as int]);
        }
    }
    assert forall|q: int| 0 <= q < order.len() implies #[trigger] finished_ok(g, vis2, order2, rank2, start2, q) by {
        assert(finished_ok(g, vis, order, rank, start, q));
        let d = order[q] as int;
        assert(order2[q] == order[q]);
        assert(vis[d]);
        assert(prior(vis2, rank2, d) =~= prior(vis, rank, d)) by {
            assert forall|x: int| prior(vis2, rank2, d).contains(x) implies prior(vis, rank, d).contains(x) by {
                if !vis[x] {
                    assert(rank2[x] >= count);
                }
            }
        }
        let pd = prior(vis, rank, d);
        assert forall|p: int| start2[d] <= p <= q implies #[trigger] white_reach(g, d, pd, order2[p] as int) by {
            assert(order2[p] == order[p]);
            assert(white_reach(g, d, pd, order[p] as int));
        }
        assert forall|x: int| #[trigger] white_reach(g, d, pd, x) implies exists|p: int|
            start2[d] <= p <= q && #[trigger] order2[p] as int == x by {
            let p = choose|p: int| start[d] <= p <= q && #[trigger] order[p] as int == x;
            assert(order2[p] == order[p]);
        }
    }
}

/// Some vertex after place `j` of `order` lies in the component of `x`.
pub open spec fn later_in(g: Seq<Seq<usize>>, order: Seq<usize>, x: int, j: int) -> bool {
    exists|i: int| j < i < order.len() && #[trigger] mutual(g, x, order[i] as int)
}

/// Each vertex occurs once in `order`.
pub open spec fn is_permutation(n: nat, order: Seq<usize>) -> bool {
    &&& order.no_duplicates()
    &&& forall|p: int| 0 <= p < order.len() ==> #[trigger] order[p] < n
    &&& forall|x: int| 0 <= x < n ==> #[trigger] occurs(order, x)
}

/// `x` occurs in `order`.
pub open spec fn occurs(order: Seq<usize>, x: int) -> bool {
    exists|p: int| 0 <= p < order.len() && #[trigger] order[p] as int == x
}

/// A vertex that reaches `order[j]` from another component has its component met later in
/// `order`.
pub open spec fn sources_last(g: Seq<Seq<usize>>, order: Seq<usize>) -> bool {
    forall|a: int, j: int|
        0 <= a < g.len() && 0 <= j < order.len() && #[trigger] reach(g, a, order[j] as int) && !mutual(
            g,
            a,
            order[j] as int,
        ) ==> later_in(g, order, a, j)
}

/// The one-edge form of `sources_last`.
spec fn edges_last(g: Seq<Seq<usize>>, order: Seq<usize>) -> bool {
    forall|a: int, b: int, j: int|
        #![trigger edge(g, a, b), order[j]]
        edge(g, a, b) && !mutual(g, a, b) && 0 <= j < order.len() && mutual(g, b, order[j] as int)
            ==> later_in(g, order, a, j)
}

/// `x` lies in the component of `a` or in that of `b`.
spec fn in_either(g: Seq<Seq<usize>>, a: int, b: int, x: int) -> bool {
    mutual(g, a, x) || mutual(g, b, x)
}

/// A vertex of least rank among the components of `a` and `b`.
proof fn least_rank(g: Seq<Seq<usize>>, rank: Seq<nat>, a: int, b: int, x0: int) -> (d: int)
    requires
        in_either(g, a, b, x0),
    ensures
        in_either(g, a, b, d),
        forall|x: int| #[trigger] in_either(g, a, b, x) ==> rank[d] <= rank[x],
    decreases rank[x0],
{
    if exists|y: int| #[trigger] in_either(g, a, b, y) && rank[y] < rank[x0] {
        let y = choose|y: int| #[trigger] in_either(g, a, b, y) && rank[y] < rank[x0];
        least_rank(g, rank, a, b, y)
    } else {
        x0
    }
}

/// A path inside one component avoids a set that holds no vertex of that component.
proof fn lemma_white_in_component(g: Seq<Seq<usize>>, d: int, y: int, avoid: Set<int>)
    requires
        mutual(g, d, y),
        forall|z: int| #[trigger] mutual(g, d, z) ==> !avoid.contains(z),
    ensures
        white_reach(g, d, avoid, y),
{
    let p = choose|p: Seq<int>| #[trigger] is_path(g, p) && p[0] == d && p.last() == y;
    assert forall|i: int| 0 <= i < p.len() implies !avoid.contains(#[trigger] p[i]) by {
        lemma_path_in_component(g, p, i);
    }
}

/// Across an edge from the component of `a` to another one, the component of `a` finishes
/// last.
proof fn lemma_edge_last(
    g: Seq<Seq<usize>>,
    vis: Seq<bool>,
    order: Seq<usize>,
    rank: Seq<nat>,
    start: Seq<nat>,
    count: nat,
    a: int,
    b: int,
    j: int,
)
    requires
        search_inv(g, vis, order, rank, start, count),
        forall|x: int| 0 <= x < g.len() ==> #[trigger] vis[x],
        is_permutation(g.len(), order),
        edge(g, a, b),
        !mutual(g, a, b),
        0 <= j < order.len(),
        mutual(g, b, order[j] as int),
    ensures
        later_in(g, order, a, j),
{
    let w = order[j] as int;
    lemma_edge_reach(g, a, b);
    lemma_mutual_facts(g, a, a, a);
    let d = least_rank(g, rank, a, b, a);
    let pd = prior(vis, rank, d);
    assert forall|z: int| in_either(g, a, b, z) implies !pd.contains(z) by {
        assert(rank[d] <= rank[z]);
    }
    assert(occurs(order, d));
    let qd = choose|p: int| 0 <= p < order.len() && #[trigger] order[p] as int == d;
    assert(finished_ok(g, vis, order, rank, start, qd));
    if mutual(g, a, d) {
        lemma_mutual_facts(g, a, d, b);
        lemma_mutual_facts(g, d, a, b);
        assert forall|z: int| #[trigger] mutual(g, d, z) implies !pd.contains(z) by {
            lemma_mutual_facts(g, a, d, z);
            assert(in_either(g, a, b, z));
        }
        lemma_mutual_facts(g, d, a, a);
        lemma_white_in_component(g, d, a, pd);
        assert(in_either(g, a, b, b)) by {
            lemma_mutual_facts(g, b, b, b);
            lemma_path_single(g, b);
        }
        assert(!pd.contains(b));
        let e = seq![a, b];
        assert(is_path(g, e)) by {
            assert(crate::graph::digraph::path_step(g, e, 0));
        }
        assert(white_reach(g, a, pd, b)) by {
            assert(crate::graph::digraph::avoids(e, pd));
            assert(is_path(g, e) && e[0] == a && e.last() == b);
        }
        lemma_white_trans(g, d, a, b, pd);
        assert forall|z: int| #[trigger] mutual(g, b, z) implies !pd.contains(z) by {
            assert(in_either(g, a, b, z));
        }
        lemma_mutual_facts(g, b, w, w);
        lemma_white_in_component(g, b, w, pd);
        lemma_white_trans(g, d, b, w, pd);
        let p = choose|p: int| start[d] <= p <= qd && #[trigger] order[p] as int == w;
        assert(p == j) by {
            assert(order[p] == order[j]);
        }
        if j == qd {
            lemma_mutual_facts(g, b, w, w);
            lemma_mutual_facts(g, a, d, b);
            assert(false);
        }
        assert(mutual(g, a, order[qd] as int));
    } else {
        assert(mutual(g, b, d));
        lemma_mutual_facts(g, b, d, d);
        assert forall|z: int| #[trigger] mutual(g, d, z) implies !pd.contains(z) by {
            lemma_mutual_facts(g, b, d, z);
            assert(in_either(g, a, b, z));
        }
        lemma_mutual_facts(g, d, b, w);
        lemma_white_in_component(g, d, w, pd);
        let p = choose|p: int| start[d] <= p <= qd && #[trigger] order[p] as int == w;
        assert(p == j) by {
            assert(order[p] == order[j]);
        }
        assert(0 <= a < g.len());
        assert(occurs(order, a));
        let qa = choose|p: int| 0 <= p < order.len() && #[trigger] order[p] as int == a;
        if qa < start[d] {
            assert(started_ok(order, rank, start, d));
            assert(rank[order[qa] as int] < rank[d]);
            assert(in_either(g, a, b, a));
        } else if qa <= qd {
            assert(white_reach(g, d, pd, order[qa] as int));
            lemma_white_ends(g, d, pd, a);
            lemma_reach_trans(g, a, b, d);
            lemma_mutual_facts(g, b, d, d);
            assert(mutual(g, a, d));
        }
        assert(qa > j);
        lemma_mutual_facts(g, a, a, a);
        assert(mutual(g, a, order[qa] as int));
    }
}

/// A search that met every vertex and finished each once puts components that reach others
/// after them.
pub proof fn lemma_search_order(
    g: Seq<Seq<usize>>,
    vis: Seq<bool>,
    order: Seq<usize>,
    rank: Seq<nat>,
    start: Seq<nat>,
    count: nat,
)
    requires
        search_inv(g, vis, order, rank, start, count),
        forall|x: int| 0 <= x < g.len() ==> #[trigger] vis[x],
        is_permutation(g.len(), order),
    ensures
        sources_last(g, order),
{
    assert forall|a: int, b: int, j: int|
        #![trigger edge(g, a, b), order[j]]
        edge(g, a, b) && !mutual(g, a, b) && 0 <= j < order.len() && mutual(
            g,
            b,
            order[j] as int,
        ) implies later_in(g, order, a, j) by {
        lemma_edge_last(g, vis, order, rank, start, count, a, b, j);
    }
    assert(edges_last(g, order));
    assert forall|a: int, j: int|
        0 <= a < g.len() && 0 <= j < order.len() && #[trigger] reach(g, a, order[j] as int)
            && !mutual(g, a, order[j] as int) implies later_in(g, order, a, j) by {
        let p = choose|p: Seq<int>| #[trigger] is_path(g, p) && p[0] == a && p.last() == order[j] as int;
        lemma_path_last(g, order, p, j);
    }
}

/// `edges_last` carried along a path.
proof fn lemma_path_last(g: Seq<Seq<usize>>, order: Seq<usize>, p: Seq<int>, j: int)
    requires
        edges_last(g, order),
        is_path(g, p),
        0 <= j < order.len(),
        p.last() == order[j] as int,
        !mutual(g, p[0], order[j] as int),
    ensures
        later_in(g, order, p[0], j),
    decreases p.len(),
{
    let a = p[0];
    let w = order[j] as int;
    if p.len() == 1 {
        lemma_mutual_facts(g, a, a, a);
        crate::graph::digraph::lemma_path_in_range(g, p);
        assert(false);
    } else {
        assert(crate::graph::digraph::path_step(g, p, 0));
        let x = p[1];
        let q = p.drop_first();
        assert(is_path(g, q)) by {
            crate::graph::digraph::lemma_path_sub(g, p, 1, p.len() - 1);
            assert(q =~= p.subrange(1, p.len() as int));
        }
        assert(q[0] == x && q.last() == w);
        if mutual(g, a, x) {
            if mutual(g, x, w) {
                lemma_mutual_facts(g, a, x, w);
            }
            lemma_path_last(g, order, q, j);
            let i = choose|i: int| j < i < order.len() && #[trigger] mutual(g, x, order[i] as int);
            lemma_mutual_facts(g, a, x, order[i] as int);
        } else if mutual(g, x, w) {
            assert(edge(g, a, x) && order[j] == order[j]);
        } else {
            lemma_path_last(g, order, q, j);
            let i1 = choose|i: int| j < i < order.len() && #[trigger] mutual(g, x, order[i] as int);
            assert(edge(g, a, x) && order[i1] == order[i1]);
            let i = choose|i: int| i1 < i < order.len() && #[trigger] mutual(g, a, order[i] as int);
        }
    }
}

} // verus!
