//! The least number of buses to ride from one stop to another.
use vstd::prelude::*;
use std::collections::{HashMap, HashSet, VecDeque};

verus! {

use vstd::set_lib::lemma_len_subset;

broadcast use {vstd::std_specs::hash::group_hash_axioms, vstd::set::group_set_axioms};

/// The stops of each route.
pub open spec fn route_seqs(routes: Seq<Vec<i32>>) -> Seq<Seq<i32>> {
    Seq::new(routes.len(), |b: int| routes[b]@)
}

/// Bus `b` stops at `s`.
pub open spec fn on_route(routes: Seq<Seq<i32>>, b: int, s: i32) -> bool {
    0 <= b < routes.len() && routes[b].contains(s)
}

/// One bus stops both at `a` and at `c`.
pub open spec fn one_ride(routes: Seq<Seq<i32>>, a: i32, c: i32) -> bool {
    exists|b: int| #[trigger] on_route(routes, b, a) && #[trigger] on_route(routes, b, c)
}

/// Stop `s` can be reached from `source` riding at most `k` buses.
pub open spec fn reach(routes: Seq<Seq<i32>>, source: i32, s: i32, k: nat) -> bool
    decreases k,
{
    if k == 0 {
        s == source
    } else {
        reach(routes, source, s, (k - 1) as nat) || exists|p: i32|
            reach(routes, source, p, (k - 1) as nat) && #[trigger] one_ride(routes, p, s)
    }
}

/// More buses reach at least as far.
pub proof fn lemma_reach_monotonic(routes: Seq<Seq<i32>>, source: i32, s: i32, k: nat, k2: nat)
    requires
        reach(routes, source, s, k),
        k <= k2,
    ensures
        reach(routes, source, s, k2),
    decreases k2 - k,
{
    if k < k2 {
        lemma_reach_monotonic(routes, source, s, k, (k2 - 1) as nat);
    }
}

/// `lv` is the least number of buses that reach `s`.
pub open spec fn exact_level(routes: Seq<Seq<i32>>, source: i32, s: i32, lv: nat) -> bool {
    reach(routes, source, s, lv) && (lv > 0 ==> !reach(routes, source, s, (lv - 1) as nat))
}

proof fn lemma_exact_level_least(routes: Seq<Seq<i32>>, source: i32, s: i32, lv: nat, k: nat)
    requires
        exact_level(routes, source, s, lv),
        reach(routes, source, s, k),
    ensures
        lv <= k,
{
    if lv > k {
        lemma_reach_monotonic(routes, source, s, k, (lv - 1) as nat);
    }
}

/// Every stop of some route.
pub open spec fn route_stop_set(routes: Seq<Seq<i32>>) -> Set<i32>
    decreases routes.len(),
{
    if routes.len() == 0 {
        Set::empty()
    } else {
        route_stop_set(routes.drop_last()).union(routes.last().to_set())
    }
}

proof fn lemma_route_stop_set(routes: Seq<Seq<i32>>)
    ensures
        route_stop_set(routes).finite(),
        forall|b: int, s: i32| #[trigger] on_route(routes, b, s) ==> route_stop_set(routes).contains(s),
    decreases routes.len(),
{
    if routes.len() > 0 {
        lemma_route_stop_set(routes.drop_last());
        routes.last().lemma_cardinality_of_set();
        assert forall|b: int, s: i32| #[trigger] on_route(routes, b, s) implies route_stop_set(
            routes,
        ).contains(s) by {
            if b < routes.len() - 1 {
                assert(on_route(routes.drop_last(), b, s));
            }
        }
    }
}

/// A stop stands in the queue.
pub open spec fn in_queue(q: Seq<(i32, i32)>, v: i32) -> bool {
    exists|i: int| 0 <= i < q.len() && #[trigger] q[i].0 == v
}

/// Whatever `k` buses reach is visited, when every visited stop below level
/// `m` is closed, every bus through a closed stop is among `good`, and every
/// stop of a bus of `good` is visited.
proof fn lemma_reach_visited(
    routes: Seq<Seq<i32>>,
    source: i32,
    visited: Set<i32>,
    level: Map<i32, nat>,
    closed: Set<i32>,
    good: Set<i32>,
    m: nat,
    s: i32,
    k: nat,
)
    requires
        visited.contains(source),
        level.dom() == visited,
        forall|v: i32| #[trigger] visited.contains(v) ==> exact_level(routes, source, v, level[v]),
        forall|v: i32| #[trigger] visited.contains(v) && level[v] < m ==> closed.contains(v),
        forall|c: i32, b: int|
            #[trigger] closed.contains(c) && #[trigger] on_route(routes, b, c) ==> good.contains(
                b as i32,
            ) && 0 <= b <= i32::MAX,
        forall|b: i32, t: i32|
            #[trigger] good.contains(b) && #[trigger] on_route(routes, b as int, t) ==> visited.contains(t),
        reach(routes, source, s, k),
        k <= m,
    ensures
        visited.contains(s),
    decreases k,
{
    if k > 0 {
        if reach(routes, source, s, (k - 1) as nat) {
            lemma_reach_visited(routes, source, visited, level, closed, good, m, s, (k - 1) as nat);
        } else {
            let p = choose|p: i32|
                reach(routes, source, p, (k - 1) as nat) && #[trigger] one_ride(routes, p, s);
            lemma_reach_visited(routes, source, visited, level, closed, good, m, p, (k - 1) as nat);
            lemma_exact_level_least(routes, source, p, level[p], (k - 1) as nat);
            assert(closed.contains(p));
            let b = choose|b: int| #[trigger] on_route(routes, b, p) && #[trigger] on_route(routes, b, s);
            assert(good.contains(b as i32));
            assert(on_route(routes, (b as i32) as int, s));
        }
    }
}

pub struct Solution;

impl Solution {
    /// The least number of buses that take a rider from stop `source` to stop
    /// `target`, where `routes[b]` lists the stops of bus `b`; `-1` when no
    /// number of buses does.
    pub fn num_buses_to_destination(routes: Vec<Vec<i32>>, source: i32, target: i32) -> (r: i32)
        requires
            routes.len() <= i32::MAX,
        ensures
            r >= 0 ==> reach(route_seqs(routes@), source, target, r as nat) && forall|k: nat|
                k < r ==> !reach(route_seqs(routes@), source, target, k),
            r < 0 ==> r == -1 && forall|k: nat| !reach(route_seqs(routes@), source, target, k),
    {
        let ghost rs = route_seqs(routes@);
        if source == target {
            return 0;
        }
        // The buses that stop at each stop.

        let mut graph: HashMap<i32, Vec<i32>> = HashMap::new();
        let mut bus: usize = 0;
        while bus < routes.len()
            invariant
                bus <= routes@.len(),
                routes@.len() <= i32::MAX,
                rs == route_seqs(routes@),
                forall|s: i32, x: int|
                    #[trigger] graph@.contains_key(s) && 0 <= x < graph@[s]@.len() ==> 0
                        <= #[trigger] graph@[s]@[x] < bus && on_route(rs, graph@[s]@[x] as int, s),
                forall|b: int, s: i32|
                    0 <= b < bus && #[trigger] on_route(rs, b, s) ==> graph@.contains_key(s)
                        && graph@[s]@.contains(b as i32),
            decreases routes@.len() - bus,
        {
            let route = &routes[bus];
            let mut j: usize = 0;
            while j < route.len()
                invariant
                    bus < routes@.len(),
                    routes@.len() <= i32::MAX,
                    rs == route_seqs(routes@),
                    route@ == rs[bus as int],
                    j <= route@.len(),
                    forall|s: i32, x: int|
                        #[trigger] graph@.contains_key(s) && 0 <= x < graph@[s]@.len() ==> 0
                            <= #[trigger] graph@[s]@[x] <= bus && on_route(rs, graph@[s]@[x] as int, s),
                    forall|b: int, s: i32|
                        0 <= b < bus && #[trigger] on_route(rs, b, s) ==> graph@.contains_key(s)
                            && graph@[s]@.contains(b as i32),
                    forall|jj: int|
                        0 <= jj < j ==> graph@.contains_key(#[trigger] route@[jj])
                            && graph@[route@[jj]]@.contains(bus as i32),
                decreases route@.len() - j,
            {
                let stop = route[j];
                let ghost before = graph@;
                let mut list = match graph.remove(&stop) {
                    Some(v) => v,
                    None => Vec::new(),
                };
                let ghost old_list = list@;
                list.push(bus as i32);
                graph.insert(stop, list);
                proof {
                    assert(rs[bus as int].contains(stop)) by {
                        assert(rs[bus as int][j as int] == stop);
                    }
                    assert forall|s: i32, x: int|
                        #[trigger] graph@.contains_key(s) && 0 <= x < graph@[s]@.len() implies 0
                            <= #[trigger] graph@[s]@[x] <= bus && on_route(rs, graph@[s]@[x] as int, s) by {
                        if s == stop && x < old_list.len() {
                            assert(before.contains_key(s));
                            assert(graph@[s]@[x] == before[s]@[x]);
                        } else if s != stop {
                            assert(before.contains_key(s));
                        }
                    }
                    assert forall|b: int, s: i32|
                        0 <= b < bus && #[trigger] on_route(rs, b, s) implies graph@.contains_key(s)
                            && graph@[s]@.contains(b as i32) by {
                        if s == stop {
                            let x = choose|x: int| 0 <= x < before[s]@.len() && before[s]@[x] == b as i32;
                            assert(graph@[s]@[x] == b as i32);
                        }
                    }
                    assert forall|jj: int|
                        0 <= jj < j + 1 implies graph@.contains_key(#[trigger] route@[jj])
                            && graph@[route@[jj]]@.contains(bus as i32) by {
                        if route@[jj] == stop {
                            assert(graph@[stop]@[graph@[stop]@.len() - 1] == bus as i32);
                        } else {
                            let x = choose|x: int|
                                0 <= x < before[route@[jj]]@.len() && before[route@[jj]]@[x] == bus as i32;
                            assert(graph@[route@[jj]]@[x] == bus as i32);
                        }
                    }
                }
                j = j + 1;
            }
            proof {
                assert forall|b: int, s: i32|
                    0 <= b < bus + 1 && #[trigger] on_route(rs, b, s) implies graph@.contains_key(s)
                        && graph@[s]@.contains(b as i32) by {
                    if b == bus {
                        let jj = choose|jj: int| 0 <= jj < route@.len() && route@[jj] == s;
                        assert(graph@.contains_key(route@[jj]));
                    }
                }
            }
            bus = bus + 1;
        }
        // Breadth-first search over stops, by number of buses.

        let mut queue: VecDeque<(i32, i32)> = VecDeque::new();
        queue.push_back((source, 0));
        let mut visited_stops: HashSet<i32> = HashSet::new();
        visited_stops.insert(source);
        let mut visited_buses: HashSet<i32> = HashSet::new();
        let ghost mut level: Map<i32, nat> = Map::empty().insert(source, 0nat);
        let ghost mut closed: Set<i32> = Set::empty();
        let ghost all_stops = route_stop_set(rs).insert(source);
        let ghost bus_ids = Seq::new(routes@.len(), |i: int| i as i32).to_set();
        proof {
            lemma_route_stop_set(rs);
            Seq::new(routes@.len(), |i: int| i as i32).lemma_cardinality_of_set();
            assert(visited_stops@ =~= level.dom());
            assert(queue@ =~= seq![(source, 0i32)]);
            assert(reach(rs, source, source, 0));
            assert(visited_buses@ =~= Set::<i32>::empty());
            assert(queue@[0].0 == source);
            assert(in_queue(queue@, source));
            assert forall|b: i32| 0 <= b < routes@.len() implies #[trigger] bus_ids.contains(b) by {
                assert(Seq::new(routes@.len(), |i: int| i as i32)[b as int] == b);
            }
        }
        loop
            invariant
                rs == route_seqs(routes@),
                routes@.len() <= i32::MAX,
                source != target,
                forall|s: i32, x: int|
                    #[trigger] graph@.contains_key(s) && 0 <= x < graph@[s]@.len() ==> 0
                        <= #[trigger] graph@[s]@[x] < routes@.len() && on_route(rs, graph@[s]@[x] as int, s),
                forall|b: int, s: i32|
                    #[trigger] on_route(rs, b, s) ==> graph@.contains_key(s)
                        && graph@[s]@.contains(b as i32),
                all_stops == route_stop_set(rs).insert(source),
                all_stops.finite(),
                forall|b: int, s: i32| #[trigger] on_route(rs, b, s) ==> all_stops.contains(s),
                bus_ids.finite(),
                bus_ids.len() <= routes@.len(),
                forall|b: i32| 0 <= b < routes@.len() ==> #[trigger] bus_ids.contains(b),
                visited_stops@ == level.dom(),
                visited_stops@.contains(source),
                visited_stops@.subset_of(all_stops),
                closed.subset_of(visited_stops@),
                !closed.contains(target),
                forall|v: i32| #[trigger]
                    visited_stops@.contains(v) ==> exact_level(rs, source, v, level[v])
                        && level[v] <= visited_buses@.len(),
                visited_buses@.subset_of(bus_ids),
                forall|i: int|
                    0 <= i < queue@.len() ==> #[trigger] visited_stops@.contains(queue@[i].0)
                        && !closed.contains(queue@[i].0) && queue@[i].1 == level[queue@[i].0],
                forall|i: int, j: int|
                    0 <= i <= j < queue@.len() ==> #[trigger] queue@[i].1 <= #[trigger] queue@[j].1
                        && queue@[j].1 <= queue@[i].1 + 1,
                forall|i: int, j: int|
                    0 <= i < j < queue@.len() ==> #[trigger] queue@[i].0 != #[trigger] queue@[j].0,
                forall|v: i32| #[trigger]
                    visited_stops@.contains(v) && !closed.contains(v) ==> in_queue(queue@, v),
                forall|c: i32, b: int|
                    #[trigger] closed.contains(c) && #[trigger] on_route(rs, b, c)
                        ==> visited_buses@.contains(b as i32),
                forall|b: i32, t: i32|
                    #[trigger] visited_buses@.contains(b) && #[trigger] on_route(rs, b as int, t)
                        ==> visited_stops@.contains(t),
            decreases all_stops.len() - closed.len(),
        {
            let ghost q0 = queue@;
            match queue.pop_front() {
                None => {
                    proof {
                        assert forall|k: nat| !reach(rs, source, target, k) by {
                            if reach(rs, source, target, k) {
                                assert forall|v: i32| #[trigger]
                                    visited_stops@.contains(v) && level[v] < k implies closed.contains(
                                    v,
                                ) by {
                                    if !closed.contains(v) {
                                        assert(in_queue(queue@, v));
                                    }
                                }
                                assert forall|c: i32, b: int|
                                    #[trigger] closed.contains(c) && #[trigger] on_route(rs, b, c) implies visited_buses@.contains(
                                    b as i32,
                                ) && 0 <= b <= i32::MAX by {}
                                lemma_reach_visited(
                                    rs,
                                    source,
                                    visited_stops@,
                                    level,
                                    closed,
                                    visited_buses@,
                                    k,
                                    target,
                                    k,
                                );
                                assert(in_queue(queue@, target));
                            }
                        }
                    }
                    return -1;
                },
                Some((stop, moves)) => {
                    let ghost m = moves as nat;
                    proof {
                        assert(q0[0] == (stop, moves));
                        assert(visited_stops@.contains(q0[0].0));
                        assert(moves == level[stop]);
                        assert forall|i: int| 0 <= i < queue@.len() implies m <= #[trigger] queue@[i].1
                            <= m + 1 by {
                            assert(queue@[i] == q0[i + 1]);
                            assert(q0[0].1 <= q0[i + 1].1 && q0[i + 1].1 <= q0[0].1 + 1);
                        }
                    }
                    if stop == target {
                        proof {
                            assert forall|k: nat| k < moves implies !reach(rs, source, target, k) by {
                                if reach(rs, source, target, k) {
                                    lemma_reach_monotonic(rs, source, target, k, (m - 1) as nat);
                                }
                            }
                        }
                        return moves;
                    }
                    proof {
                        assert forall|v: i32| #[trigger]
                            visited_stops@.contains(v) && !closed.contains(v) && v != stop implies in_queue(queue@, v) by {
                            assert(in_queue(q0, v));
                            let i = choose|i: int| 0 <= i < q0.len() && #[trigger] q0[i].0 == v;
                            assert(i != 0);
                            assert(queue@[i - 1] == q0[i]);
                        }
                        assert(!in_queue(queue@, stop)) by {
                            if in_queue(queue@, stop) {
                                let i = choose|i: int| 0 <= i < queue@.len() && #[trigger] queue@[i].0 == stop;
                                assert(queue@[i] == q0[i + 1]);
                            }
                        }
                        assert forall|v: i32| #[trigger]
                            visited_stops@.contains(v) && level[v] < m implies closed.contains(v) by {
                            if !closed.contains(v) && v != stop {
                                assert(in_queue(q0, v));
                                let i = choose|i: int| 0 <= i < q0.len() && #[trigger] q0[i].0 == v;
                                assert(q0[0].1 <= q0[i].1);
                            }
                        }
                    }
                    let ghost vb0 = visited_buses@;
                    match graph.get(&stop) {
                        None => {
                            proof {
                                assert forall|b: int| !#[trigger] on_route(rs, b, stop) by {
                                    if on_route(rs, b, stop) {
                                        assert(graph@.contains_key(stop));
                                    }
                                }
                            }
                        },
                        Some(buses) => {
                            let mut bi: usize = 0;
                            while bi < buses.len()
                                invariant
                                    rs == route_seqs(routes@),
                                    routes@.len() <= i32::MAX,
                                    buses@ == graph@[stop]@,
                                    graph@.contains_key(stop),
                                    bi <= buses@.len(),
                                    forall|x: int| 0 <= x < buses@.len() ==> 0 <= #[trigger] buses@[x]
                                        < routes@.len() && on_route(rs, buses@[x] as int, stop),
                                    forall|x: int| 0 <= x < bi ==> visited_buses@.contains(#[trigger] buses@[x]),
                                    vb0.subset_of(visited_buses@),
                                    all_stops.finite(),
                                    forall|b: int, s: i32| #[trigger] on_route(rs, b, s) ==> all_stops.contains(s),
                                    all_stops == route_stop_set(rs).insert(source),
                                    bus_ids.finite(),
                                    bus_ids.len() <= routes@.len(),
                                    forall|b: i32| 0 <= b < routes@.len() ==> #[trigger] bus_ids.contains(b),
                                    visited_stops@ == level.dom(),
                                    visited_stops@.contains(source),
                                    visited_stops@.contains(stop),
                                    visited_stops@.subset_of(all_stops),
                                    closed.subset_of(visited_stops@),
                                    !closed.contains(stop),
                                    !closed.contains(target),
                                    stop != target,
                                    level[stop] == m,
                                    moves == m,
                                    m <= vb0.len(),
                                    forall|v: i32| #[trigger]
                                        visited_stops@.contains(v) ==> exact_level(rs, source, v, level[v])
                                            && level[v] <= visited_buses@.len(),
                                    visited_buses@.subset_of(bus_ids),
                                    forall|v: i32| #[trigger]
                                        visited_stops@.contains(v) && level[v] < m ==> closed.contains(v),
                                    forall|i: int|
                                        0 <= i < queue@.len() ==> #[trigger] visited_stops@.contains(queue@[i].0)
                                            && !closed.contains(queue@[i].0) && queue@[i].1 == level[queue@[i].0],
                                    forall|i: int| 0 <= i < queue@.len() ==> m <= #[trigger] queue@[i].1 <= m + 1,
                                    forall|i: int, j: int|
                                        0 <= i <= j < queue@.len() ==> #[trigger] queue@[i].1 <= #[trigger] queue@[j].1,
                                    forall|i: int, j: int|
                                        0 <= i < j < queue@.len() ==> #[trigger] queue@[i].0 != #[trigger] queue@[j].0,
                                    !in_queue(queue@, stop),
                                    forall|v: i32| #[trigger]
                                        visited_stops@.contains(v) && !closed.contains(v) && v != stop ==> in_queue(queue@, v),
                                    forall|c: i32, b: int|
                                        #[trigger] closed.contains(c) && #[trigger] on_route(rs, b, c)
                                            ==> vb0.contains(b as i32),
                                    forall|b: i32, t: i32|
                                        #[trigger] visited_buses@.contains(b) && #[trigger] on_route(rs, b as int, t)
                                            ==> visited_stops@.contains(t),
                                decreases buses@.len() - bi,
                            {
                                let bus = buses[bi];
                                if !visited_buses.contains(&bus) {
                                    let ghost vb1 = visited_buses@;
                                    visited_buses.insert(bus);
                                    proof {
                                        assert(bus_ids.contains(bus));
                                        lemma_len_subset(visited_buses@, bus_ids);
                                        lemma_len_subset(vb1, bus_ids);
                                        lemma_len_subset(vb0, vb1);
                                        assert forall|c: i32| #[trigger] closed.contains(c) implies !on_route(rs, bus as int, c) by {
                                            if on_route(rs, bus as int, c) {
                                                assert(vb0.contains(bus));
                                            }
                                        }
                                    }
                                    let route = &routes[bus as usize];
                                    let mut j: usize = 0;
                                    while j < route.len()
                                        invariant
                                            rs == route_seqs(routes@),
                                            routes@.len() <= i32::MAX,
                                            0 <= bus < routes@.len(),
                                            route@ == rs[bus as int],
                                            j <= route@.len(),
                                            on_route(rs, bus as int, stop),
                                            forall|jj: int| 0 <= jj < j ==> visited_stops@.contains(#[trigger] route@[jj]),
                                            visited_buses@ == vb1.insert(bus),
                                            !vb1.contains(bus),
                                            vb0.subset_of(vb1),
                                            m + 1 <= visited_buses@.len(),
                                            visited_buses@.len() <= routes@.len(),
                                            all_stops.finite(),
                                            forall|b: int, s: i32| #[trigger] on_route(rs, b, s) ==> all_stops.contains(s),
                                            visited_stops@ == level.dom(),
                                            visited_stops@.contains(source),
                                            visited_stops@.contains(stop),
                                            visited_stops@.subset_of(all_stops),
                                            closed.subset_of(visited_stops@),
                                            !closed.contains(stop),
                                            !closed.contains(target),
                                            stop != target,
                                            level[stop] == m,
                                            moves == m,
                                            forall|c: i32| #[trigger] closed.contains(c) ==> !on_route(rs, bus as int, c),
                                            forall|v: i32| #[trigger]
                                                visited_stops@.contains(v) ==> exact_level(rs, source, v, level[v])
                                                    && level[v] <= visited_buses@.len(),
                                            forall|v: i32| #[trigger]
                                                visited_stops@.contains(v) && level[v] < m ==> closed.contains(v),
                                            forall|i: int|
                                                0 <= i < queue@.len() ==> #[trigger] visited_stops@.contains(queue@[i].0)
                                                    && !closed.contains(queue@[i].0) && queue@[i].1 == level[queue@[i].0],
                                            forall|i: int| 0 <= i < queue@.len() ==> m <= #[trigger] queue@[i].1 <= m + 1,
                                            forall|i: int, j: int|
                                                0 <= i <= j < queue@.len() ==> #[trigger] queue@[i].1 <= #[trigger] queue@[j].1,
                                            forall|i: int, j: int|
                                                0 <= i < j < queue@.len() ==> #[trigger] queue@[i].0 != #[trigger] queue@[j].0,
                                            !in_queue(queue@, stop),
                                            forall|v: i32| #[trigger]
                                                visited_stops@.contains(v) && !closed.contains(v) && v != stop ==> in_queue(queue@, v),
                                            forall|c: i32, b: int|
                                                #[trigger] closed.contains(c) && #[trigger] on_route(rs, b, c)
                                                    ==> vb0.contains(b as i32),
                                            forall|b: i32, t: i32|
                                                #[trigger] vb1.contains(b) && #[trigger] on_route(rs, b as int, t)
                                                    ==> visited_stops@.contains(t),
                                        decreases route@.len() - j,
                                    {
                                        let next_stop = route[j];
                                        proof {
                                            assert(route@[j as int] == next_stop);
                                            assert(on_route(rs, bus as int, next_stop));
                                        }
                                        if !visited_stops.contains(&next_stop) {
                                            proof {
                                                assert(!reach(rs, source, next_stop, m)) by {
                                                    if reach(rs, source, next_stop, m) {
                                                        assert forall|c: i32, b: int|
                                                            #[trigger] closed.contains(c) && #[trigger] on_route(rs, b, c) implies vb1.contains(
                                                            b as i32,
                                                        ) && 0 <= b <= i32::MAX by {
                                                            assert(vb0.contains(b as i32));
                                                        }
                                                        lemma_reach_visited(
                                                            rs,
                                                            source,
                                                            visited_stops@,
                                                            level,
                                                            closed,
                                                            vb1,
                                                            m,
                                                            next_stop,
                                                            m,
                                                        );
                                                    }
                                                }
                                                assert(one_ride(rs, stop, next_stop));
                                                assert(reach(rs, source, next_stop, m + 1));
                                            }
                                            let ghost q1 = queue@;
                                            visited_stops.insert(next_stop);
                                            queue.push_back((next_stop, moves + 1));
                                            proof {
                                                level = level.insert(next_stop, m + 1);
                                                assert(visited_stops@ =~= level.dom());
                                                assert forall|v: i32| #[trigger] visited_stops@.contains(v) && !closed.contains(v) && v != stop implies in_queue(queue@, v) by {
                                                    if v == next_stop {
                                                        assert(queue@[queue@.len() - 1].0 == v);
                                                    } else {
                                                        let i = choose|i: int| 0 <= i < q1.len() && #[trigger] q1[i].0 == v;
                                                        assert(queue@[i] == q1[i]);
                                                    }
                                                }
                                                assert(!in_queue(queue@, stop)) by {
                                                    if in_queue(queue@, stop) {
                                                        let i = choose|i: int| 0 <= i < queue@.len() && #[trigger] queue@[i].0 == stop;
                                                        if i < q1.len() {
                                                            assert(queue@[i] == q1[i]);
                                                        }
                                                    }
                                                }
                                                assert forall|i: int, j: int|
                                                    0 <= i < j < queue@.len() implies #[trigger] queue@[i].0 != #[trigger] queue@[j].0 by {
                                                    if j == queue@.len() - 1 {
                                                        assert(queue@[i] == q1[i]);
                                                        assert(visited_stops@.contains(q1[i].0));
                                                    }
                                                }
                                            }
                                        }
                                        j = j + 1;
                                    }
                                    proof {
                                        assert forall|b: i32, t: i32|
                                            #[trigger] visited_buses@.contains(b) && #[trigger] on_route(rs, b as int, t) implies visited_stops@.contains(t) by {
                                            if b == bus {
                                                let jj = choose|jj: int| 0 <= jj < route@.len() && route@[jj] == t;
                                                assert(visited_stops@.contains(route@[jj]));
                                            } else {
                                                assert(vb1.contains(b));
                                            }
                                        }
                                    }
                                }
                                bi = bi + 1;
                            }
                            proof {
                                assert forall|b: int| #[trigger] on_route(rs, b, stop) implies visited_buses@.contains(b as i32) by {
                                    let x = choose|x: int| 0 <= x < buses@.len() && buses@[x] == b as i32;
                                    assert(visited_buses@.contains(buses@[x]));
                                }
                            }
                        },
                    }
                    proof {
                        let old_closed = closed;
                        closed = closed.insert(stop);
                        assert(all_stops.contains(stop));
                        lemma_len_subset(old_closed, all_stops);
                        lemma_len_subset(closed, all_stops);
                        assert forall|c: i32, b: int|
                            #[trigger] closed.contains(c) && #[trigger] on_route(rs, b, c) implies visited_buses@.contains(b as i32) by {
                            if c != stop {
                                assert(old_closed.contains(c));
                            }
                        }
                        assert forall|i: int, j: int|
                            0 <= i <= j < queue@.len() implies #[trigger] queue@[i].1 <= #[trigger] queue@[j].1
                                && queue@[j].1 <= queue@[i].1 + 1 by {}
                    }
                },
            }
        }
    }
}

} // verus!
