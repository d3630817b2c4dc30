//! A depth-first search that lists the vertices in the order it finishes them.
use vstd::prelude::*;
use crate::graph::digraph::{Graph, white_reach};
use crate::graph::paths::{
    white_set, lemma_white_ends, lemma_white_self, lemma_white_trans, lemma_white_mono,
    lemma_white_closure, lemma_white_step, lemma_white_prepend,
};
use crate::graph::finish_order::{
    vset, prior, started_ok, finished_ok, search_inv, is_permutation, occurs, sources_last,
    count_false, lemma_count_false_mark, lemma_records_stable, lemma_search_order,
    lemma_count_false_none, lemma_count_false_all,
};

verus! {

/// The state of the search: the marks, the finished vertices, and the ghost records of when
/// each vertex was met.
struct Search {
    vis: Vec<bool>,
    order: Vec<usize>,
    rank: Ghost<Seq<nat>>,
    start: Ghost<Seq<nat>>,
    count: Ghost<nat>,
}

impl Search {
    spec fn inv(&self, g: Seq<Seq<usize>>) -> bool {
        search_inv(g, self.vis@, self.order@, self.rank@, self.start@, self.count@)
    }
}

/// Searches from the unmarked vertex `v`: marks what a path from `v` reaches avoiding the
/// marked vertices, and finishes those vertices, `v` last.
fn visit(g: &Graph, st: &mut Search, v: usize)
    requires
        old(st).inv(g@),
        v < g@.len(),
        !old(st).vis@[v as int],
    ensures
        final(st).inv(g@),
        vset(final(st).vis@) == vset(old(st).vis@) + white_set(g@, v as int, vset(old(st).vis@)),
        old(st).order@.len() < final(st).order@.len(),
        final(st).order@.subrange(0, old(st).order@.len() as int) == old(st).order@,
        final(st).order@.last() == v,
        forall|p: int|
            old(st).order@.len() <= p < final(st).order@.len() ==> #[trigger] white_reach(
                g@,
                v as int,
                vset(old(st).vis@),
                final(st).order@[p] as int,
            ),
        forall|x: int|
            #[trigger] white_reach(g@, v as int, vset(old(st).vis@), x) ==> exists|p: int|
                old(st).order@.len() <= p < final(st).order@.len() && #[trigger] final(st).order@[p]
                    as int == x,
        forall|x: int|
            0 <= x < g@.len() && #[trigger] old(st).vis@[x] ==> final(st).rank@[x] == old(
                st,
            ).rank@[x] && final(st).start@[x] == old(st).start@[x],
        forall|x: int|
            0 <= x < g@.len() && #[trigger] final(st).vis@[x] && !old(st).vis@[x]
                ==> final(st).rank@[x] >= old(st).count@,
        final(st).rank@[v as int] == old(st).count@,
        old(st).count@ < final(st).count@,
        count_false(final(st).vis@) < count_false(old(st).vis@),
        final(st).order@.len() + count_false(final(st).vis@) == old(st).order@.len() + count_false(
            old(st).vis@,
        ),
    decreases count_false(old(st).vis@),
{
    let ghost g0 = g@;
    let ghost vis0 = st.vis@;
    let ghost order0 = st.order@;
    let ghost rank0 = st.rank@;
    let ghost start0 = st.start@;
    let ghost c0 = st.count@;
    let ghost v0 = vset(vis0);
    let ghost v1 = v0.insert(v as int);
    proof {
        lemma_count_false_mark(vis0, v as int);
    }
    st.vis.set(v, true);
    st.rank = Ghost(st.rank@.update(v as int, c0));
    st.start = Ghost(st.start@.update(v as int, st.order@.len() as nat));
    st.count = Ghost(c0 + 1);
    proof {
        assert(st.order@.subrange(0, order0.len() as int) =~= order0);
        lemma_records_stable(g0, vis0, order0, rank0, start0, c0, st.vis@, st.order@, st.rank@, st.start@);
        assert(vset(st.vis@) =~= v1);
        assert forall|x: int| 0 <= x < g0.len() && #[trigger] st.vis@[x] implies started_ok(
            st.order@,
            st.rank@,
            st.start@,
            x,
        ) by {
            if x == v {
                assert forall|p: int| 0 <= p < st.start@[x] implies #[trigger] st.rank@[st.order@[p] as int]
                    < st.rank@[x] by {
                    assert(vis0[order0[p] as int]);
                }
            }
        }
        assert(st.inv(g0));
    }
    let nbrs = g.edges(v);
    let ghost nb = nbrs@;
    let mut k: usize = 0;
    while k < nbrs.len()
        invariant
            g@ == g0,
            vis0 == old(st).vis@,
            nbrs@ == nb,
            nb == g0[v as int],
            forall|j: int| 0 <= j < nb.len() ==> #[trigger] nb[j] < g0.len(),
            v < g0.len(),
            k <= nb.len(),
            st.inv(g0),
            v0 == vset(vis0),
            v1 == v0.insert(v as int),
            !vis0[v as int],
            vis0.len() == g0.len(),
            st.vis@[v as int],
            st.rank@[v as int] == c0,
            st.start@[v as int] == order0.len(),
            st.count@ > c0,
            forall|x: int| 0 <= x < g0.len() && #[trigger] vis0[x] ==> rank0[x] < c0,
            order0.no_duplicates(),
            forall|p: int| 0 <= p < order0.len() ==> #[trigger] vis0[order0[p] as int],
            vset(st.vis@) == v1 + Set::new(
                |x: int| exists|j: int| 0 <= j < k && #[trigger] white_reach(g0, nb[j] as int, v1, x),
            ),
            order0.len() <= st.order@.len(),
            st.order@.subrange(0, order0.len() as int) == order0,
            forall|p: int|
                order0.len() <= p < st.order@.len() ==> !v1.contains(#[trigger] st.order@[p] as int),
            forall|x: int|
                vset(st.vis@).contains(x) && !v1.contains(x) ==> exists|p: int|
                    order0.len() <= p < st.order@.len() && #[trigger] st.order@[p] as int == x,
            forall|x: int|
                0 <= x < g0.len() && #[trigger] vis0[x] ==> st.rank@[x] == rank0[x] && st.start@[x]
                    == start0[x],
            forall|x: int|
                0 <= x < g0.len() && #[trigger] st.vis@[x] && !vis0[x] && x != v ==> st.rank@[x] > c0,
            count_false(st.vis@) < count_false(vis0),
            st.order@.len() + count_false(st.vis@) + 1 == order0.len() + count_false(vis0),
        decreases nb.len() - k,
    {
        let w = nbrs[k];
        let ghost u = vset(st.vis@);
        let ghost nk = k as int;
        let ghost union_k = Set::new(
            |x: int| exists|j: int| 0 <= j < nk && #[trigger] white_reach(g0, nb[j] as int, v1, x),
        );
        let ghost union_k1 = Set::new(
            |x: int| exists|j: int| 0 <= j < nk + 1 && #[trigger] white_reach(g0, nb[j] as int, v1, x),
        );
        proof {
            // what the neighbours so far reach while avoiding `v1` stays inside `u`
            assert forall|y: int, z: int|
                u.contains(y) && !v1.contains(y) && #[trigger] white_reach(g0, y, v1, z) implies u.contains(
                z,
            ) by {
                let j = choose|j: int| 0 <= j < nk && #[trigger] white_reach(g0, nb[j] as int, v1, y);
                lemma_white_trans(g0, nb[j] as int, y, z, v1);
            }
            assert(v1.subset_of(u));
        }
        if !st.vis[w] {
            let ghost st0_order = st.order@;
            let ghost st0_vis = st.vis@;
            let ghost st0_rank = st.rank@;
            let ghost st0_start = st.start@;
            visit(g, st, w);
            proof {
                let ww = white_set(g0, w as int, u);
                assert(u.contains(v as int));
                assert(vset(st.vis@).contains(v as int));
                assert(st0_vis[v as int]);
                assert(st.rank@[v as int] == st0_rank[v as int]);
                assert(st.start@[v as int] == st0_start[v as int]);
                assert forall|x: int| 0 <= x < g0.len() && #[trigger] vis0[x] implies st.rank@[x]
                    == rank0[x] && st.start@[x] == start0[x] by {
                    assert(v0.contains(x));
                    assert(u.contains(x));
                    assert(st0_vis[x]);
                }
                assert(vset(st.vis@) == u + ww);
                assert(vset(st.vis@) =~= v1 + union_k1) by {
                    assert forall|x: int| #[trigger] union_k1.contains(x) implies vset(st.vis@).contains(x) by {
                        let j = choose|j: int| 0 <= j < nk + 1 && #[trigger] white_reach(g0, nb[j] as int, v1, x);
                        if j < nk {
                            assert(union_k.contains(x));
                        } else {
                            lemma_white_closure(g0, w as int, v1, u, x);
                            if !u.contains(x) {
                                assert(ww.contains(x));
                            }
                        }
                    }
                    assert forall|x: int| #[trigger] ww.contains(x) implies v1.contains(x) || union_k1.contains(x) by {
                        lemma_white_mono(g0, w as int, v1, u, x);
                        assert(white_reach(g0, nb[nk] as int, v1, x));
                    }
                }
                assert forall|p: int|
                    order0.len() <= p < st.order@.len() implies !v1.contains(#[trigger] st.order@[p] as int) by {
                    if p < st0_order.len() {
                        assert(st.order@[p] == st0_order[p]);
                    } else {
                        lemma_white_ends(g0, w as int, u, st.order@[p] as int);
                    }
                }
                assert(st.order@.subrange(0, order0.len() as int) =~= order0) by {
                    assert forall|p: int| 0 <= p < order0.len() implies st.order@[p] == order0[p] by {
                        assert(st.order@[p] == st0_order[p]);
                    }
                }
                assert forall|x: int| vset(st.vis@).contains(x) && !v1.contains(x) implies exists|p: int|
                    order0.len() <= p < st.order@.len() && #[trigger] st.order@[p] as int == x by {
                    if u.contains(x) {
                        let p = choose|p: int|
                            order0.len() <= p < st0_order.len() && #[trigger] st0_order[p] as int == x;
                        assert(st.order@[p] == st0_order[p]);
                    } else {
                        assert(ww.contains(x));
                    }
                }
                assert forall|x: int| 0 <= x < g0.len() && #[trigger] st.vis@[x] && !vis0[x] && x != v implies st.rank@[x] > c0 by {
                    if !st0_vis[x] {
                        assert(st.rank@[x] >= c0 + 1);
                    } else {
                        assert(st.rank@[x] == st0_rank[x]);
                    }
                }
            }
        } else {
            proof {
                assert forall|x: int| #[trigger] union_k1.contains(x) implies u.contains(x) by {
                    let j = choose|j: int| 0 <= j < nk + 1 && #[trigger] white_reach(g0, nb[j] as int, v1, x);
                    if j < nk {
                        assert(union_k.contains(x));
                    } else {
                        assert(st.vis@[w as int]);
                        assert(u.contains(w as int));
                        if v1.contains(w as int) {
                            lemma_white_ends(g0, w as int, v1, x);
                        }
                    }
                }
                assert(vset(st.vis@) =~= v1 + union_k1);
            }
        }
        k = k + 1;
    }
    let ghost before_push = st.order@;
    let ghost wv = white_set(g0, v as int, v0);
    proof {
        let all = Set::new(
            |x: int| exists|j: int| 0 <= j < nb.len() && #[trigger] white_reach(g0, nb[j] as int, v1, x),
        );
        assert(vset(st.vis@) =~= v0 + wv) by {
            assert forall|x: int| #[trigger] all.contains(x) implies wv.contains(x) by {
                let j = choose|j: int| 0 <= j < nb.len() && #[trigger] white_reach(g0, nb[j] as int, v1, x);
                lemma_white_prepend(g0, v as int, j, v0, x);
            }
            lemma_white_self(g0, v as int, v0);
            assert forall|x: int| #[trigger] wv.contains(x) && x != v implies all.contains(x) by {
                lemma_white_step(g0, v as int, v0, x);
            }
        }
    }
    st.order.push(v);
    proof {
        let o = st.order@;
        let q = o.len() - 1;
        assert(o.subrange(0, before_push.len() as int) =~= before_push);
        assert(o.subrange(0, order0.len() as int) =~= order0);
        assert forall|p: int| 0 <= p < o.len() implies #[trigger] o[p] < g0.len() && st.vis@[o[p] as int] by {
            if p < before_push.len() {
                assert(o[p] == before_push[p]);
            }
        }
        assert(o.no_duplicates()) by {
            assert forall|i: int, j: int| 0 <= i < j < o.len() implies o[i] != o[j] by {
                if j == q {
                    if i < order0.len() {
                        assert(o[i] == order0[i]);
                        assert(vis0[order0[i] as int]);
                    } else {
                        assert(o[i] == before_push[i]);
                    }
                } else {
                    assert(o[i] == before_push[i]);
                    assert(o[j] == before_push[j]);
                }
            }
        }
        lemma_records_stable(
            g0,
            st.vis@,
            before_push,
            st.rank@,
            st.start@,
            st.count@,
            st.vis@,
            o,
            st.rank@,
            st.start@,
        );
        assert(prior(st.vis@, st.rank@, v as int) =~= v0) by {
            assert forall|x: int| v0.contains(x) implies prior(st.vis@, st.rank@, v as int).contains(x) by {
                assert(vis0[x]);
                assert(vset(st.vis@).contains(x));
                assert(st.rank@[x] == rank0[x]);
            }
        }
        assert forall|p: int| order0.len() <= p < o.len() implies #[trigger] white_reach(
            g0,
            v as int,
            v0,
            o[p] as int,
        ) by {
            if p < q {
                assert(o[p] == before_push[p]);
                assert(vset(st.vis@).contains(o[p] as int));
            } else {
                lemma_white_self(g0, v as int, v0);
            }
        }
        assert forall|x: int| #[trigger] white_reach(g0, v as int, v0, x) implies exists|p: int|
            order0.len() <= p < o.len() && #[trigger] o[p] as int == x by {
            if x == v {
                assert(o[q] as int == x);
            } else {
                lemma_white_ends(g0, v as int, v0, x);
                assert(wv.contains(x));
                assert(vset(st.vis@).contains(x) && !v1.contains(x));
                let p = choose|p: int|
                    order0.len() <= p < before_push.len() && #[trigger] before_push[p] as int == x;
                assert(o[p] == before_push[p]);
            }
        }
        assert(finished_ok(g0, st.vis@, o, st.rank@, st.start@, q));
        assert forall|qq: int| 0 <= qq < o.len() implies #[trigger] finished_ok(
            g0,
            st.vis@,
            o,
            st.rank@,
            st.start@,
            qq,
        ) by {
            if qq < q {
                assert(finished_ok(g0, st.vis@, o, st.rank@, st.start@, qq));
            }
        }
        assert(st.inv(g0));
    }
}

/// Lists every vertex of `g` once, in the order in which a depth-first search that starts
/// from the vertices in increasing order finishes them.
pub fn finish_order(g: &Graph) -> (order: Vec<usize>)
    ensures
        order@.len() == g@.len(),
        is_permutation(g@.len(), order@),
        sources_last(g@, order@),
{
    let n = g.vertex_count();
    let mut st = Search {
        vis: vec![false; n],
        order: Vec::new(),
        rank: Ghost(Seq::new(n as nat, |i: int| 0nat)),
        start: Ghost(Seq::new(n as nat, |i: int| 0nat)),
        count: Ghost(0nat),
    };
    proof {
        lemma_count_false_none(st.vis@);
    }
    let mut i: usize = 0;
    while i < n
        invariant
            n == g@.len(),
            i <= n,
            st.inv(g@),
            forall|x: int| 0 <= x < n ==> (#[trigger] st.vis@[x] <==> occurs(st.order@, x)),
            forall|x: int| 0 <= x < i ==> #[trigger] st.vis@[x],
            st.order@.len() + count_false(st.vis@) == n,
        decreases n - i,
    {
        if !st.vis[i] {
            let ghost vis0 = st.vis@;
            let ghost order0 = st.order@;
            visit(g, &mut st, i);
            proof {
                lemma_white_self(g@, i as int, vset(vis0));
                assert(vset(st.vis@).contains(i as int));
                assert forall|x: int| 0 <= x < i + 1 implies #[trigger] st.vis@[x] by {
                    if x < i {
                        assert(vset(vis0).contains(x));
                        assert(vset(st.vis@).contains(x));
                    }
                }
                assert forall|x: int| 0 <= x < n implies (#[trigger] st.vis@[x] <==> occurs(st.order@, x)) by {
                    if vis0[x] {
                        let p = choose|p: int| 0 <= p < order0.len() && #[trigger] order0[p] as int == x;
                        assert(st.order@[p] == order0[p]);
                        assert(vset(st.vis@).contains(x));
                    } else if st.vis@[x] {
                        assert(vset(st.vis@).contains(x));
                        assert(white_reach(g@, i as int, vset(vis0), x));
                    } else {
                        assert(!vset(st.vis@).contains(x));
                        if occurs(st.order@, x) {
                            let p = choose|p: int| 0 <= p < st.order@.len() && #[trigger] st.order@[p] as int == x;
                        }
                    }
                }
            }
        }
        i = i + 1;
    }
    proof {
        assert forall|x: int| 0 <= x < n implies #[trigger] occurs(st.order@, x) by {
            assert(st.vis@[x]);
        }
        assert(is_permutation(g@.len(), st.order@));
        lemma_count_false_all(st.vis@);
        lemma_search_order(g@, st.vis@, st.order@, st.rank@, st.start@, st.count@);
    }
    st.order
}

} // verus!
