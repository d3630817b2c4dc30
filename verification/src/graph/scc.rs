//! Strongly connected components, found by two depth-first searches (Kosaraju's method), and
//! the graph of the components.
use vstd::prelude::*;
use crate::graph::digraph::{
    Graph, edge, reach, mutual, white_reach, is_path, lemma_mutual_facts, lemma_reach_trans,
    lemma_edge_reach, lemma_path_in_component, lemma_path_in_range,
};
use crate::graph::paths::{
    is_transpose, white_set, lemma_white_ends, lemma_white_trans, lemma_white_mono,
    lemma_white_closure, lemma_white_step, lemma_white_prepend, lemma_white_self,
    lemma_reverse_path, lemma_transpose_reach,
};
use crate::graph::finish_order::{
    vset, count_false, lemma_count_false_mark, is_permutation, occurs, sources_last, later_in,
};
use crate::graph::search::finish_order;

verus! {

/// The state of the second search: the marks, the colours, and the colours of earlier
/// components that the current one has edges to, each with the key of the current round in
/// `next`.
struct Colouring {
    vis: Vec<bool>,
    color: Vec<usize>,
    next: Vec<usize>,
    queue: Vec<usize>,
}

/// Some edge of `gt` leads from `from` to a vertex of `base` coloured `c`.
spec fn hits(gt: Seq<Seq<usize>>, base: Set<int>, from: Set<int>, color: Seq<usize>, c: int) -> bool {
    exists|u: int, w: int|
        from.contains(u) && base.contains(w) && #[trigger] edge(gt, u, w) && color[w] as int == c
}

impl Colouring {
    /// `base` holds the vertices of earlier components, coloured below `index`; the other
    /// marked vertices are coloured `index`; `queue` lists without repeats the colours whose
    /// `next` is `key`.
    spec fn inv(&self, n: nat, base: Set<int>, index: int, key: int) -> bool {
        &&& n <= usize::MAX
        &&& self.vis@.len() == n
        &&& self.color@.len() == n
        &&& self.next@.len() == n
        &&& base.subset_of(vset(self.vis@))
        &&& forall|x: int|
            0 <= x < n && #[trigger] self.vis@[x] ==> if base.contains(x) {
                self.color@[x] < index
            } else {
                self.color@[x] == index
            }
        &&& index < n
        &&& self.queue@.no_duplicates()
        &&& forall|t: int| 0 <= t < self.queue@.len() ==> #[trigger] self.queue@[t] < index
        &&& forall|c: int| 0 <= c < n ==> (#[trigger] self.next@[c] == key <==> self.queue@.contains(c as usize))
    }
}

/// Colours `index` what a path of `gt` from `v` reaches avoiding the marked vertices, and
/// queues the colours of the vertices of `base` that an edge from them (or `v` itself) meets.
fn assign(gt: &Graph, st: &mut Colouring, v: usize, index: usize, key: usize, Ghost(base): Ghost<Set<int>>)
    requires
        old(st).inv(gt@.len(), base, index as int, key as int),
        v < gt@.len(),
    ensures
        final(st).inv(gt@.len(), base, index as int, key as int),
        vset(final(st).vis@) == vset(old(st).vis@) + white_set(gt@, v as int, vset(old(st).vis@)),
        forall|x: int| 0 <= x < gt@.len() && #[trigger] old(st).vis@[x] ==> final(st).color@[x] == old(st).color@[x],
        forall|c: int|
            0 <= c < gt@.len() ==> (#[trigger] final(st).queue@.contains(c as usize) <==> (old(st).queue@.contains(c as usize)
                || (base.contains(v as int) && old(st).color@[v as int] as int == c) || hits(
                gt@,
                base,
                vset(final(st).vis@).difference(vset(old(st).vis@)),
                old(st).color@,
                c,
            ))),
        forall|c: int| 0 <= c < gt@.len() ==> #[trigger] final(st).next@[c] == old(st).next@[c] || final(st).next@[c] == key,
        count_false(final(st).vis@) <= count_false(old(st).vis@),
    decreases count_false(old(st).vis@),
{
    let ghost n = gt@.len();
    let ghost g0 = gt@;
    let ghost vis0 = st.vis@;
    let ghost color0 = st.color@;
    let ghost queue0 = st.queue@;
    let ghost next0 = st.next@;
    let ghost v0 = vset(vis0);
    if st.vis[v] {
        let c = st.color[v];
        proof {
            assert(white_set(g0, v as int, v0) =~= Set::empty()) by {
                assert forall|x: int| !white_reach(g0, v as int, v0, x) by {
                    if white_reach(g0, v as int, v0, x) {
                        lemma_white_ends(g0, v as int, v0, x);
                    }
                }
            }
        }
        if c != index && st.next[c] != key {
            st.next.set(c, key);
            st.queue.push(c);
            proof {
                assert(base.contains(v as int));
                assert(st.queue@ == queue0.push(c));
                assert forall|cc: int| 0 <= cc < n implies (st.next@[cc] == key <==> #[trigger] st.queue@.contains(cc as usize)) && (st.queue@.contains(cc as usize) <==> (queue0.contains(cc as usize)
                    || (base.contains(v as int) && color0[v as int] as int == cc))) by {
                    if st.queue@.contains(cc as usize) {
                        let t = choose|t: int| 0 <= t < st.queue@.len() && st.queue@[t] == cc as usize;
                        if t < queue0.len() {
                            assert(queue0[t] == st.queue@[t]);
                        }
                    }
                    if queue0.contains(cc as usize) {
                        let t = choose|t: int| 0 <= t < queue0.len() && queue0[t] == cc as usize;
                        assert(st.queue@[t] == queue0[t]);
                    }
                    assert(st.queue@[queue0.len() as int] == c);
                }
                assert(st.queue@.no_duplicates());
                assert forall|cc: int| 0 <= cc < n implies (#[trigger] st.next@[cc] == key <==> st.queue@.contains(cc as usize)) by {
                    assert(st.queue@.contains(cc as usize) <==> (queue0.contains(cc as usize)
                        || (base.contains(v as int) && color0[v as int] as int == cc)));
                }
            }
        } else {
            proof {
                assert forall|cc: int| 0 <= cc < n implies (#[trigger] st.queue@.contains(cc as usize) <==> (queue0.contains(cc as usize)
                    || (base.contains(v as int) && color0[v as int] as int == cc))) by {
                    if base.contains(v as int) && color0[v as int] as int == cc {
                        assert(c != index);
                        assert(next0[cc] == key);
                    }
                }
            }
        }
        proof {
            assert(st.vis@ == vis0);
            let none = vset(st.vis@).difference(vset(vis0));
            assert(none =~= Set::<int>::empty());
            assert forall|cc: int| !hits(g0, base, none, color0, cc) by {
                if hits(g0, base, none, color0, cc) {
                    let (a, b) = choose|a: int, b: int|
                        none.contains(a) && base.contains(b) && #[trigger] edge(g0, a, b) && color0[b] as int == cc;
                }
            }
        }
        } else {
        proof {
            lemma_count_false_mark(vis0, v as int);
        }
        st.vis.set(v, true);
        st.color.set(v, index);
        let ghost v1 = v0.insert(v as int);
        proof {
            assert(vset(st.vis@) =~= v1);
            assert(!base.contains(v as int));
        }
        let nbrs = gt.edges(v);
        let ghost nb = nbrs@;
        let mut k: usize = 0;
        while k < nbrs.len()
            invariant
                gt@ == g0,
                n == g0.len(),
                vis0 == old(st).vis@,
                v0 == vset(vis0),
                v1 == v0.insert(v as int),
                nbrs@ == nb,
                nb == g0[v as int],
                forall|j: int| 0 <= j < nb.len() ==> #[trigger] nb[j] < n,
                v < n,
                !vis0[v as int],
                vis0.len() == n,
                color0.len() == n,
                base.subset_of(v0),
                k <= nb.len(),
                st.inv(n, base, index as int, key as int),
                st.vis@[v as int],
                vset(st.vis@) == v1 + Set::new(
                    |x: int| exists|j: int| 0 <= j < k && #[trigger] white_reach(g0, nb[j] as int, v1, x),
                ),
                forall|x: int| 0 <= x < n && #[trigger] vis0[x] ==> st.color@[x] == color0[x],
                forall|c: int|
                    0 <= c < n ==> (#[trigger] st.queue@.contains(c as usize) <==> (queue0.contains(c as usize)
                        || (exists|j: int| 0 <= j < k && base.contains(#[trigger] nb[j] as int) && color0[nb[j] as int] as int == c)
                        || hits(g0, base, vset(st.vis@).difference(v1), color0, c))),
                forall|c: int| 0 <= c < n ==> #[trigger] st.next@[c] == next0[c] || st.next@[c] == key,
                count_false(st.vis@) < count_false(vis0),
            decreases nb.len() - k,
        {
            let w = nbrs[k];
            let ghost u = vset(st.vis@);
            let ghost nk = k as int;
            let ghost union_k = Set::new(
                |x: int| exists|j: int| 0 <= j < nk && #[trigger] white_reach(g0, nb[j] as int, v1, x),
            );
            let ghost union_k1 = Set::new(
                |x: int| exists|j: int| 0 <= j < nk + 1 && #[trigger] white_reach(g0, nb[j] as int, v1, x),
            );
            let ghost vis_k = st.vis@;
            let ghost color_k = st.color@;
            let ghost queue_k = st.queue@;
            let ghost next_k = st.next@;
            proof {
                assert forall|y: int, z: int|
                    u.contains(y) && !v1.contains(y) && #[trigger] white_reach(g0, y, v1, z) implies u.contains(
                    z,
                ) by {
                    let j = choose|j: int| 0 <= j < nk && #[trigger] white_reach(g0, nb[j] as int, v1, y);
                    lemma_white_trans(g0, nb[j] as int, y, z, v1);
                }
                assert(v1.subset_of(u));
            }
            assign(gt, st, w, index, key, Ghost(base));
            proof {
                let ww = white_set(g0, w as int, u);
                assert(vset(st.vis@) =~= v1 + union_k1) by {
                    assert forall|x: int| #[trigger] union_k1.contains(x) implies vset(st.vis@).contains(x) by {
                        let j = choose|j: int| 0 <= j < nk + 1 && #[trigger] white_reach(g0, nb[j] as int, v1, x);
                        if j < nk {
                            assert(union_k.contains(x));
                        } else {
                            lemma_white_closure(g0, w as int, v1, u, x);
                            if !u.contains(x) {
                                assert(ww.contains(x));
                            }
                        }
                    }
                    assert forall|x: int| #[trigger] ww.contains(x) implies v1.contains(x) || union_k1.contains(x) by {
                        lemma_white_mono(g0, w as int, v1, u, x);
                        assert(white_reach(g0, nb[nk] as int, v1, x));
                    }
                }
                assert(u.contains(v as int));
                assert(vset(st.vis@).contains(v as int));
                assert forall|x: int| 0 <= x < n && #[trigger] vis0[x] implies st.color@[x] == color0[x] by {
                    assert(v0.contains(x));
                    assert(u.contains(x));
                    assert(vis_k[x]);
                }
                let nk_set = vset(st.vis@).difference(u);
                assert forall|c: int|
                    0 <= c < n implies (#[trigger] st.queue@.contains(c as usize) <==> (queue0.contains(c as usize)
                        || (exists|j: int| 0 <= j < nk + 1 && base.contains(#[trigger] nb[j] as int) && color0[nb[j] as int] as int == c)
                        || hits(g0, base, vset(st.vis@).difference(v1), color0, c))) by {
                    // the colours of `base` stay as they were
                    assert forall|x: int| base.contains(x) implies color_k[x] == color0[x] by {
                        assert(v0.contains(x));
                    }
                    let old_hit = hits(g0, base, u.difference(v1), color0, c);
                    let new_hit = hits(g0, base, nk_set, color_k, c);
                    let all_hit = hits(g0, base, vset(st.vis@).difference(v1), color0, c);
                    if old_hit {
                        let (a, b) = choose|a: int, b: int|
                            u.difference(v1).contains(a) && base.contains(b) && #[trigger] edge(g0, a, b) && color0[b] as int == c;
                        assert(vset(st.vis@).difference(v1).contains(a));
                    }
                    if new_hit {
                        let (a, b) = choose|a: int, b: int|
                            nk_set.contains(a) && base.contains(b) && #[trigger] edge(g0, a, b) && color_k[b] as int == c;
                        assert(!v1.contains(a));
                        assert(vset(st.vis@).difference(v1).contains(a));
                    }
                    if all_hit {
                        let (a, b) = choose|a: int, b: int|
                            vset(st.vis@).difference(v1).contains(a) && base.contains(b) && #[trigger] edge(g0, a, b) && color0[b] as int == c;
                        if !u.contains(a) {
                            assert(nk_set.contains(a));
                            assert(new_hit);
                        } else {
                            assert(old_hit);
                        }
                    }
                    if base.contains(w as int) && color_k[w as int] as int == c {
                        assert(nb[nk] == w);
                        assert(base.contains(nb[nk] as int) && color0[nb[nk] as int] as int == c);
                    }
                    if exists|j: int| 0 <= j < nk + 1 && base.contains(#[trigger] nb[j] as int) && color0[nb[j] as int] as int == c {
                        let j = choose|j: int| 0 <= j < nk + 1 && base.contains(#[trigger] nb[j] as int) && color0[nb[j] as int] as int == c;
                        if j == nk {
                            assert(base.contains(w as int) && color_k[w as int] as int == c);
                        }
                    }
                }
                assert forall|c: int| 0 <= c < n implies #[trigger] st.next@[c] == next0[c] || st.next@[c] == key by {
                    assert(st.next@[c] == next_k[c] || st.next@[c] == key);
                }
            }
            k = k + 1;
        }
        proof {
            let all = Set::new(
                |x: int| exists|j: int| 0 <= j < nb.len() && #[trigger] white_reach(g0, nb[j] as int, v1, x),
            );
            let wv = white_set(g0, v as int, v0);
            assert(vset(st.vis@) =~= v0 + wv) by {
                assert forall|x: int| #[trigger] all.contains(x) implies wv.contains(x) by {
                    let j = choose|j: int| 0 <= j < nb.len() && #[trigger] white_reach(g0, nb[j] as int, v1, x);
                    lemma_white_prepend(g0, v as int, j, v0, x);
                }
                lemma_white_self(g0, v as int, v0);
                assert forall|x: int| #[trigger] wv.contains(x) && x != v implies all.contains(x) by {
                    lemma_white_step(g0, v as int, v0, x);
                }
            }
            let fresh = vset(st.vis@).difference(v0);
            assert forall|c: int|
                0 <= c < n implies (#[trigger] st.queue@.contains(c as usize) <==> (queue0.contains(c as usize)
                    || (base.contains(v as int) && color0[v as int] as int == c) || hits(g0, base, fresh, color0, c))) by {
                let rest = hits(g0, base, vset(st.vis@).difference(v1), color0, c);
                let direct = exists|j: int| 0 <= j < nb.len() && base.contains(#[trigger] nb[j] as int) && color0[nb[j] as int] as int == c;
                if rest {
                    let (a, b) = choose|a: int, b: int|
                        vset(st.vis@).difference(v1).contains(a) && base.contains(b) && #[trigger] edge(g0, a, b) && color0[b] as int == c;
                    assert(fresh.contains(a));
                }
                if direct {
                    let j = choose|j: int| 0 <= j < nb.len() && base.contains(#[trigger] nb[j] as int) && color0[nb[j] as int] as int == c;
                    assert(edge(g0, v as int, nb[j] as int));
                    assert(fresh.contains(v as int));
                }
                if hits(g0, base, fresh, color0, c) {
                    let (a, b) = choose|a: int, b: int|
                        fresh.contains(a) && base.contains(b) && #[trigger] edge(g0, a, b) && color0[b] as int == c;
                    if a == v {
                        let j = choose|j: int| 0 <= j < g0[a].len() && #[trigger] g0[a][j] as int == b;
                        assert(nb[j] as int == b);
                        assert(direct);
                    } else {
                        assert(rest);
                    }
                }
            }
        }
    }
}

/// `gt` holds the edges of `g` that leave the vertices before `i`, and the first `k` that
/// leave `i`, each turned round.
spec fn transposed_upto(g: Seq<Seq<usize>>, gt: Seq<Seq<usize>>, i: int, k: int) -> bool {
    &&& gt.len() == g.len()
    &&& forall|u: int, w: int|
        #![trigger edge(gt, u, w)]
        #![trigger edge(g, w, u)]
        edge(gt, u, w) <==> (edge(g, w, u) && (w < i || (w == i && exists|t: int|
            0 <= t < k && #[trigger] g[i][t] as int == u)))
}

/// The graph with every edge of `g` turned round.
fn transpose(g: &Graph) -> (gt: Graph)
    ensures
        is_transpose(g@, gt@),
{
    let n = g.vertex_count();
    let mut gt = Graph::new(n);
    let mut i: usize = 0;
    proof {
        assert forall|u: int, w: int| #[trigger] edge(gt@, u, w) implies false by {
            let t = choose|t: int| 0 <= t < gt@[u].len() && #[trigger] gt@[u][t] as int == w;
        }
    }
    while i < n
        invariant
            n == g@.len(),
            i <= n,
            transposed_upto(g@, gt@, i as int, 0),
        decreases n - i,
    {
        let nb = g.edges(i);
        let mut k: usize = 0;
        while k < nb.len()
            invariant
                n == g@.len(),
                i < n,
                nb@ == g@[i as int],
                forall|t: int| 0 <= t < nb@.len() ==> #[trigger] nb@[t] < n,
                k <= nb@.len(),
                transposed_upto(g@, gt@, i as int, k as int),
            decreases nb@.len() - k,
        {
            let ghost before = gt@;
            let u = nb[k];
            gt.add_edge(u, i);
            proof {
                assert forall|a: int, w: int|
                    #![trigger edge(gt@, a, w)]
                    #![trigger edge(g@, w, a)]
                    edge(gt@, a, w) <==> (edge(g@, w, a) && (w < i || (w == i && exists|t: int|
                        0 <= t < k + 1 && #[trigger] g@[i as int][t] as int == a))) by {
                    if edge(gt@, a, w) {
                        let t = choose|t: int| 0 <= t < gt@[a].len() && #[trigger] gt@[a][t] as int == w;
                        if a == u && t == before[a].len() {
                            assert(g@[i as int][k as int] as int == a);
                            assert(edge(g@, w, a));
                        } else {
                            assert(gt@[a][t] == before[a][t]);
                            assert(edge(before, a, w));
                        }
                    }
                    if edge(g@, w, a) && (w < i || (w == i && exists|t: int|
                        0 <= t < k + 1 && #[trigger] g@[i as int][t] as int == a)) {
                        if w == i && g@[i as int][k as int] as int == a {
                            assert(gt@[a][before[a].len() as int] as int == w);
                        } else {
                            if w == i {
                                let t = choose|t: int| 0 <= t < k + 1 && #[trigger] g@[i as int][t] as int == a;
                                assert(0 <= t < k);
                            }
                            assert(edge(before, a, w));
                            let t = choose|t: int| 0 <= t < before[a].len() && #[trigger] before[a][t] as int == w;
                            assert(gt@[a][t] == before[a][t]);
                        }
                    }
                }
            }
            k = k + 1;
        }
        proof {
            assert forall|a: int, w: int|
                #![trigger edge(gt@, a, w)]
                #![trigger edge(g@, w, a)]
                edge(gt@, a, w) <==> (edge(g@, w, a) && (w < i + 1 || (w == i + 1 && exists|t: int|
                    0 <= t < 0 && #[trigger] g@[i + 1][t] as int == a))) by {
                if edge(g@, w, a) && w == i {
                    let t = choose|t: int| 0 <= t < g@[w].len() && #[trigger] g@[w][t] as int == a;
                    assert(0 <= t < nb@.len());
                }
            }
        }
        i = i + 1;
    }
    gt
}

/// The components of `g` and the edges between them: `color` numbers the component of each
/// vertex, and `graph` has an edge from component `j` to component `c` once for each pair
/// that an edge of `g` joins.
pub struct SCC {
    pub color: Vec<usize>,
    pub graph: Graph,
}

/// Finding the strongly connected components.
pub trait SCCTrait {
    fn scc(&self) -> SCC;
}

/// An edge of `g` leads from a vertex coloured `j` to a vertex coloured `c`, another colour.
pub open spec fn condensed(g: Seq<Seq<usize>>, color: Seq<usize>, j: int, c: int) -> bool {
    j != c && exists|u: int, w: int|
        #[trigger] edge(g, u, w) && color[u] as int == j && color[w] as int == c
}

/// `condensed` among the marked vertices.
spec fn condensed_marked(g: Seq<Seq<usize>>, vis: Seq<bool>, color: Seq<usize>, j: int, c: int) -> bool {
    j != c && exists|u: int, w: int|
        #[trigger] edge(g, u, w) && vis[u] && vis[w] && color[u] as int == j && color[w] as int == c
}

/// Some vertex is coloured `c`.
pub open spec fn colour_used(color: Seq<usize>, c: int) -> bool {
    exists|u: int| 0 <= u < color.len() && #[trigger] color[u] as int == c
}

/// Some marked vertex is coloured `c`.
spec fn colour_marked(vis: Seq<bool>, color: Seq<usize>, c: int) -> bool {
    exists|u: int| 0 <= u < vis.len() && vis[u] && #[trigger] color[u] as int == c
}

/// The vertices in the components of `order[i..]`.
spec fn done_set(g: Seq<Seq<usize>>, order: Seq<usize>, i: int) -> Set<int> {
    Set::new(
        |x: int| 0 <= x < g.len() && exists|j: int| i <= j < order.len() && #[trigger] mutual(g, x, order[j] as int),
    )
}

/// Read backwards from place `i`, after the components of `order[i + 1..]`, the search of the
/// transposed graph from `order[i]` meets exactly the component of `order[i]`.
proof fn lemma_round(
    g: Seq<Seq<usize>>,
    gt: Seq<Seq<usize>>,
    order: Seq<usize>,
    i: int,
    x: int,
)
    requires
        is_transpose(g, gt),
        order.len() == g.len(),
        is_permutation(g.len(), order),
        sources_last(g, order),
        0 <= i < order.len(),
        !done_set(g, order, i + 1).contains(order[i] as int),
    ensures
        white_reach(gt, order[i] as int, done_set(g, order, i + 1), x) <==> mutual(g, order[i] as int, x),
{
    let r = order[i] as int;
    let base = done_set(g, order, i + 1);
    if white_reach(gt, r, base, x) {
        lemma_white_ends(gt, r, base, x);
        lemma_transpose_reach(g, gt, r, x);
        if !mutual(g, x, r) {
            assert(reach(g, x, order[i] as int));
            assert(later_in(g, order, x, i));
            let j = choose|j: int| i < j < order.len() && #[trigger] mutual(g, x, order[j] as int);
            assert(base.contains(x));
        }
        lemma_mutual_facts(g, x, r, r);
    }
    if mutual(g, r, x) {
        let p = choose|p: Seq<int>| #[trigger] is_path(g, p) && p[0] == x && p.last() == r;
        lemma_mutual_facts(g, r, x, x);
        lemma_reverse_path(g, gt, p);
        let q = p.reverse();
        assert forall|k: int| 0 <= k < q.len() implies !base.contains(#[trigger] q[k]) by {
            let y = q[k];
            assert(y == p[p.len() - 1 - k]);
            lemma_path_in_component(g, p, p.len() - 1 - k);
            lemma_path_in_range(g, p);
            if base.contains(y) {
                let j = choose|j: int| i + 1 <= j < order.len() && #[trigger] mutual(g, y, order[j] as int);
                lemma_mutual_facts(g, x, y, order[j] as int);
                lemma_mutual_facts(g, r, x, order[j] as int);
                assert(base.contains(r));
            }
        }
        assert(is_path(gt, q) && q[0] == r && q.last() == x
            && crate::graph::digraph::avoids(q, base));
    }
}

/// What has an edge into the components of `order[i + 1..]` lies in them too.
proof fn lemma_no_edge_back(g: Seq<Seq<usize>>, order: Seq<usize>, i: int, u: int, w: int)
    requires
        order.len() == g.len(),
        sources_last(g, order),
        0 <= i < order.len(),
        done_set(g, order, i + 1).contains(w),
        edge(g, u, w),
    ensures
        done_set(g, order, i + 1).contains(u),
{
    let base = done_set(g, order, i + 1);
    let j = choose|j: int| i + 1 <= j < order.len() && #[trigger] mutual(g, w, order[j] as int);
    lemma_edge_reach(g, u, w);
    lemma_reach_trans(g, u, w, order[j] as int);
    if mutual(g, u, order[j] as int) {
        assert(base.contains(u));
    } else {
        assert(later_in(g, order, u, j));
        let k = choose|k: int| j < k < order.len() && #[trigger] mutual(g, u, order[k] as int);
        assert(base.contains(u));
    }
}

impl SCCTrait for Graph {
    /// Colours the components so that two vertices share a colour exactly when each reaches
    /// the other, numbering them from sources to sinks, and returns with the colours the
    /// graph of the components.
    fn scc(&self) -> (res: SCC)
        ensures
            res.color@.len() == self@.len(),
            forall|u: int, w: int|
                0 <= u < self@.len() && 0 <= w < self@.len() ==> (res.color@[u] == res.color@[w]
                    <==> mutual(self@, u, w)),
            forall|u: int| 0 <= u < self@.len() ==> #[trigger] res.color@[u] < res.graph@.len(),
            forall|c: int| 0 <= c < res.graph@.len() ==> #[trigger] colour_used(res.color@, c),
            forall|j: int, c: int|
                0 <= j < res.graph@.len() && 0 <= c < res.graph@.len() ==> (
                #[trigger] res.graph@[j].contains(c as usize) <==> condensed(self@, res.color@, j, c)),
            forall|j: int| 0 <= j < res.graph@.len() ==> (#[trigger] res.graph@[j]).no_duplicates(),
            forall|j: int, t: int|
                0 <= j < res.graph@.len() && 0 <= t < res.graph@[j].len() ==> j < #[trigger] res.graph@[j][t],
    {
        let n = self.vertex_count();
        let order = finish_order(self);
        let gt = transpose(self);
        let mut st = Colouring { vis: vec![false; n], color: vec![0; n], next: vec![n; n], queue: Vec::new() };
        let mut res = Graph::new(0);
        let mut index: usize = 0;
        let mut i: usize = n;
        proof {
            assert(vset(st.vis@) =~= done_set(self@, order@, n as int));
            assert(res@ =~= Seq::<Seq<usize>>::empty());
        }
        while i > 0
            invariant
                n == self@.len(),
                order@.len() == n,
                is_permutation(n as nat, order@),
                sources_last(self@, order@),
                is_transpose(self@, gt@),
                i <= n,
                st.vis@.len() == n,
                st.color@.len() == n,
                st.next@.len() == n,
                st.queue@.len() == 0,
                vset(st.vis@) == done_set(self@, order@, i as int),
                forall|x: int| 0 <= x < n && #[trigger] st.vis@[x] ==> st.color@[x] < index,
                forall|x: int, y: int|
                    0 <= x < n && 0 <= y < n && #[trigger] st.vis@[x] && #[trigger] st.vis@[y] ==> (st.color@[x]
                        == st.color@[y] <==> mutual(self@, x, y)),
                forall|c: int| 0 <= c < index ==> #[trigger] colour_marked(st.vis@, st.color@, c),
                index + i <= n,
                forall|c: int| 0 <= c < n ==> #[trigger] st.next@[c] >= i,
                res@.len() == index,
                forall|j: int| 0 <= j < index ==> (#[trigger] res@[j]).no_duplicates(),
                forall|j: int, t: int|
                    0 <= j < index && 0 <= t < res@[j].len() ==> j < #[trigger] res@[j][t] < index,
                forall|j: int, c: int|
                    0 <= j < index && 0 <= c < index ==> (#[trigger] res@[j].contains(c as usize)
                        <==> condensed_marked(self@, st.vis@, st.color@, j, c)),
            decreases i,
        {
            i = i - 1;
            let r = order[i];
            if !st.vis[r] {
                let ghost base = vset(st.vis@);
                let ghost vis0 = st.vis@;
                let ghost color0 = st.color@;
                let ghost res0 = res@;
                proof {
                    assert(done_set(self@, order@, i + 1) == base);
                    assert forall|c: int| 0 <= c < n implies (#[trigger] st.next@[c] == i <==> st.queue@.contains(
                        c as usize,
                    )) by {
                        assert(st.next@[c] >= i + 1);
                    }
                    assert(st.inv(n as nat, base, index as int, i as int));
                }
                assign(&gt, &mut st, r, index, i, Ghost(base));
                let ghost comp = vset(st.vis@).difference(base);
                proof {
                    assert forall|x: int| comp.contains(x) <==> mutual(self@, r as int, x) by {
                        lemma_round(self@, gt@, order@, i as int, x);
                        if mutual(self@, r as int, x) {
                            assert(white_reach(gt@, r as int, base, x));
                            lemma_white_ends(gt@, r as int, base, x);
                        }
                    }
                }
                res.add_vertices(1);
                let mut t: usize = 0;
                while t < st.queue.len()
                    invariant
                        res@.len() == index + 1,
                        res@[index as int] == Seq::<usize>::empty(),
                        res0.len() == index,
                        st.queue@.no_duplicates(),
                        forall|k: int| 0 <= k < st.queue@.len() ==> #[trigger] st.queue@[k] < index,
                        t <= st.queue@.len(),
                        forall|j: int|
                            0 <= j < index ==> #[trigger] res@[j] == if st.queue@.subrange(0, t as int).contains(
                                j as usize,
                            ) {
                                res0[j].push(index)
                            } else {
                                res0[j]
                            },
                    decreases st.queue@.len() - t,
                {
                    let ghost before = res@;
                    let j = st.queue[t];
                    res.add_edge(j, index);
                    proof {
                        assert forall|jj: int| 0 <= jj < index implies #[trigger] res@[jj] == if st.queue@.subrange(
                            0,
                            t + 1,
                        ).contains(jj as usize) {
                            res0[jj].push(index)
                        } else {
                            res0[jj]
                        } by {
                            let s0 = st.queue@.subrange(0, t as int);
                            let s1 = st.queue@.subrange(0, t + 1);
                            assert(s1 =~= s0.push(j));
                            if jj == j {
                                assert(!s0.contains(j)) by {
                                    if s0.contains(j) {
                                        let k = choose|k: int| 0 <= k < s0.len() && s0[k] == j;
                                        assert(st.queue@[k] == st.queue@[t as int]);
                                    }
                                }
                                assert(s1[t as int] == j);
                            } else {
                                assert(s1.contains(jj as usize) <==> s0.contains(jj as usize)) by {
                                    if s1.contains(jj as usize) {
                                        let k = choose|k: int| 0 <= k < s1.len() && s1[k] == jj as usize;
                                        assert(s0[k] == s1[k]);
                                    }
                                    if s0.contains(jj as usize) {
                                        let k = choose|k: int| 0 <= k < s0.len() && s0[k] == jj as usize;
                                        assert(s1[k] == s0[k]);
                                    }
                                }
                            }
                        }
                    }
                    t = t + 1;
                }
                proof {
                    assert(st.queue@.subrange(0, t as int) =~= st.queue@);
                    // the invariant for the next round
                    let vis1 = st.vis@;
                    let color1 = st.color@;
                    assert forall|x: int| 0 <= x < n && vis1[x] implies (base.contains(x) <==> color1[x] < index) by {}
                    assert forall|x: int| base.contains(x) implies color1[x] == color0[x] && vis1[x] by {
                        assert(vis0[x]);
                    }
                    assert(vset(st.vis@) =~= done_set(self@, order@, i as int)) by {
                        assert forall|x: int| #[trigger] done_set(self@, order@, i as int).contains(x)
                            implies vset(st.vis@).contains(x) by {
                            let j = choose|j: int| i <= j < order@.len() && #[trigger] mutual(self@, x, order@[j] as int);
                            if j == i {
                                lemma_mutual_facts(self@, x, r as int, r as int);
                                assert(comp.contains(x));
                            } else {
                                assert(done_set(self@, order@, i + 1).contains(x));
                                assert(base.contains(x));
                                assert(vis1[x]);
                            }
                        }
                        assert forall|x: int| vset(st.vis@).contains(x) implies #[trigger] done_set(
                            self@,
                            order@,
                            i as int,
                        ).contains(x) by {
                            if comp.contains(x) {
                                lemma_mutual_facts(self@, r as int, x, x);
                                assert(mutual(self@, x, order@[i as int] as int));
                            } else {
                                let j = choose|j: int| i + 1 <= j < order@.len() && #[trigger] mutual(self@, x, order@[j] as int);
                            }
                        }
                    }
                    assert forall|x: int, y: int|
                        0 <= x < n && 0 <= y < n && #[trigger] st.vis@[x] && #[trigger] st.vis@[y] implies (st.color@[x]
                            == st.color@[y] <==> mutual(self@, x, y)) by {
                        if base.contains(x) && base.contains(y) {
                        } else if !base.contains(x) && !base.contains(y) {
                            assert(comp.contains(x) && comp.contains(y));
                            lemma_mutual_facts(self@, r as int, x, y);
                            lemma_mutual_facts(self@, x, r as int, y);
                        } else if base.contains(x) {
                            assert(comp.contains(y));
                            if mutual(self@, x, y) {
                                let j = choose|j: int| i + 1 <= j < order@.len() && #[trigger] mutual(self@, x, order@[j] as int);
                                lemma_mutual_facts(self@, y, x, order@[j] as int);
                                lemma_mutual_facts(self@, x, y, x);
                                assert(base.contains(y));
                            }
                        } else {
                            assert(comp.contains(x));
                            if mutual(self@, x, y) {
                                let j = choose|j: int| i + 1 <= j < order@.len() && #[trigger] mutual(self@, y, order@[j] as int);
                                lemma_mutual_facts(self@, x, y, order@[j] as int);
                                assert(base.contains(x));
                            }
                        }
                    }
                    assert forall|c: int| 0 <= c < index + 1 implies #[trigger] colour_marked(st.vis@, st.color@, c) by {
                        if c == index {
                            lemma_mutual_facts(self@, r as int, r as int, r as int);
                            assert(comp.contains(r as int));
                            assert(st.color@[r as int] as int == c);
                        } else {
                            assert(colour_marked(vis0, color0, c));
                            let x = choose|x: int| 0 <= x < vis0.len() && vis0[x] && #[trigger] color0[x] as int == c;
                            assert(base.contains(x));
                            assert(st.color@[x] as int == c);
                        }
                    }
                    assert forall|j: int, c: int|
                        0 <= j < index + 1 && 0 <= c < index + 1 implies (#[trigger] res@[j].contains(c as usize)
                            <==> condensed_marked(self@, st.vis@, st.color@, j, c)) by {
                        if j == index {
                            if condensed_marked(self@, st.vis@, st.color@, j, c) {
                                let (u, w) = choose|u: int, w: int|
                                    #[trigger] edge(self@, u, w) && st.vis@[u] && st.vis@[w] && st.color@[u] as int == j
                                        && st.color@[w] as int == c;
                                assert(!base.contains(u));
                                assert(base.contains(w));
                                lemma_no_edge_back(self@, order@, i as int, u, w);
                            }
                        } else if c == index {
                            assert(res@[j].contains(c as usize) <==> st.queue@.contains(j as usize)) by {
                                if st.queue@.contains(j as usize) {
                                    assert(res@[j] == res0[j].push(index));
                                    assert(res@[j][res0[j].len() as int] == index);
                                } else {
                                    assert(res@[j] == res0[j]);
                                    if res0[j].contains(index) {
                                        let k = choose|k: int| 0 <= k < res0[j].len() && res0[j][k] == index;
                                        assert(res0[j][k] < index);
                                    }
                                }
                            }
                            if st.queue@.contains(j as usize) {
                                assert(hits(gt@, base, comp, color0, j));
                                let (u, w) = choose|u: int, w: int|
                                    comp.contains(u) && base.contains(w) && #[trigger] edge(gt@, u, w) && color0[w] as int == j;
                                assert(edge(self@, w, u));
                                assert(condensed_marked(self@, st.vis@, st.color@, j, c));
                            }
                            if condensed_marked(self@, st.vis@, st.color@, j, c) {
                                let (u, w) = choose|u: int, w: int|
                                    #[trigger] edge(self@, u, w) && st.vis@[u] && st.vis@[w] && st.color@[u] as int == j
                                        && st.color@[w] as int == c;
                                assert(base.contains(u));
                                assert(comp.contains(w));
                                assert(edge(gt@, w, u));
                                assert(hits(gt@, base, comp, color0, j));
                            }
                        } else {
                            assert(res@[j].contains(c as usize) <==> res0[j].contains(c as usize)) by {
                                if res@[j] != res0[j] {
                                    assert(res@[j] == res0[j].push(index));
                                    if res@[j].contains(c as usize) {
                                        let k = choose|k: int| 0 <= k < res@[j].len() && res@[j][k] == c as usize;
                                        if k < res0[j].len() {
                                            assert(res0[j][k] == res@[j][k]);
                                        }
                                    }
                                    if res0[j].contains(c as usize) {
                                        let k = choose|k: int| 0 <= k < res0[j].len() && res0[j][k] == c as usize;
                                        assert(res@[j][k] == res0[j][k]);
                                    }
                                }
                            }
                            if condensed_marked(self@, st.vis@, st.color@, j, c) {
                                let (u, w) = choose|u: int, w: int|
                                    #[trigger] edge(self@, u, w) && st.vis@[u] && st.vis@[w] && st.color@[u] as int == j
                                        && st.color@[w] as int == c;
                                assert(base.contains(u) && base.contains(w));
                                assert(condensed_marked(self@, vis0, color0, j, c));
                            }
                            if condensed_marked(self@, vis0, color0, j, c) {
                                let (u, w) = choose|u: int, w: int|
                                    #[trigger] edge(self@, u, w) && vis0[u] && vis0[w] && color0[u] as int == j
                                        && color0[w] as int == c;
                                assert(base.contains(u) && base.contains(w));
                                assert(condensed_marked(self@, st.vis@, st.color@, j, c));
                            }
                        }
                    }
                    assert forall|j: int| 0 <= j < index + 1 implies (#[trigger] res@[j]).no_duplicates() by {
                        if j < index && res@[j] != res0[j] {
                            assert(res@[j] == res0[j].push(index));
                            assert forall|a: int, b: int| 0 <= a < b < res@[j].len() implies res@[j][a] != res@[j][b] by {
                                if b == res0[j].len() {
                                    assert(res0[j][a] < index);
                                } else {
                                    assert(res0[j][a] != res0[j][b]);
                                }
                            }
                        }
                    }
                    assert forall|j: int, tt: int|
                        0 <= j < index + 1 && 0 <= tt < res@[j].len() implies j < #[trigger] res@[j][tt] < index + 1 by {
                        if res@[j] != res0[j] && tt == res0[j].len() {
                            assert(res@[j] == res0[j].push(index));
                        } else if j < index {
                            assert(res@[j][tt] == res0[j][tt]);
                        }
                    }
                    assert forall|c: int| 0 <= c < n implies #[trigger] st.next@[c] >= i by {}
                }
                st.queue.clear();
                index = index + 1;
            } else {
                proof {
                    assert(vset(st.vis@).contains(r as int));
                    assert(done_set(self@, order@, i + 1).contains(r as int));
                    let j0 = choose|j: int| i + 1 <= j < order@.len() && #[trigger] mutual(self@, r as int, order@[j] as int);
                    assert(vset(st.vis@) =~= done_set(self@, order@, i as int)) by {
                        assert forall|x: int| #[trigger] done_set(self@, order@, i as int).contains(x)
                            implies vset(st.vis@).contains(x) by {
                            let j = choose|j: int| i <= j < order@.len() && #[trigger] mutual(self@, x, order@[j] as int);
                            if j == i {
                                lemma_mutual_facts(self@, x, r as int, order@[j0] as int);
                                assert(mutual(self@, x, order@[j0] as int));
                                assert(done_set(self@, order@, i + 1).contains(x));
                            } else {
                                assert(done_set(self@, order@, i + 1).contains(x));
                            }
                        }
                        assert forall|x: int| vset(st.vis@).contains(x) implies #[trigger] done_set(
                            self@,
                            order@,
                            i as int,
                        ).contains(x) by {
                            let j = choose|j: int| i + 1 <= j < order@.len() && #[trigger] mutual(self@, x, order@[j] as int);
                        }
                    }
                }
            }
        }
        proof {
            assert forall|x: int| 0 <= x < n implies #[trigger] st.vis@[x] by {
                assert(occurs(order@, x));
                let p = choose|p: int| 0 <= p < order@.len() && #[trigger] order@[p] as int == x;
                lemma_mutual_facts(self@, x, x, x);
                assert(mutual(self@, x, order@[p] as int));
                assert(done_set(self@, order@, 0).contains(x));
            }
            assert forall|j: int, c: int|
                0 <= j < res@.len() && 0 <= c < res@.len() implies (#[trigger] res@[j].contains(c as usize)
                    <==> condensed(self@, st.color@, j, c)) by {
                if condensed(self@, st.color@, j, c) {
                    let (u, w) = choose|u: int, w: int|
                        #[trigger] edge(self@, u, w) && st.color@[u] as int == j && st.color@[w] as int == c;
                    assert(condensed_marked(self@, st.vis@, st.color@, j, c));
                }
            }
            assert forall|u: int, w: int|
                0 <= u < n && 0 <= w < n implies (st.color@[u] == st.color@[w] <==> mutual(self@, u, w)) by {
                assert(st.vis@[u] && st.vis@[w]);
            }
            assert forall|u: int| 0 <= u < n implies #[trigger] st.color@[u] < res@.len() by {
                assert(st.vis@[u]);
            }
            assert forall|c: int| 0 <= c < res@.len() implies #[trigger] colour_used(st.color@, c) by {
                assert(colour_marked(st.vis@, st.color@, c));
                let x = choose|x: int| 0 <= x < st.vis@.len() && st.vis@[x] && #[trigger] st.color@[x] as int == c;
                assert(st.color@[x] as int == c);
            }
        }
        SCC { color: st.color, graph: res }
    }
}

} // verus!
