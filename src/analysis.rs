//! Degree and shortest-path statistics of a built graph.
use crate::graph::HealthGraph;
use vstd::prelude::*;
use std::collections::{HashMap, VecDeque};
use vstd::relations::injective_on;
use vstd::set_lib::{lemma_len_subset, lemma_map_size};
use vstd::std_specs::hash::{spec_hash_keys_iter, spec_keys_iter};
use vstd::std_specs::iter::IteratorSpec;

verus! {

broadcast use vstd::std_specs::hash::group_hash_axioms;

/// One `(id, degree)` pair per node, in no particular order.
#[verifier::spinoff_prover]
pub fn compute_degrees(graph: &HealthGraph) -> (r: Vec<(usize, usize)>)
    requires
        graph.wf(),
    ensures
        r@.len() == graph.nodes@.len(),
        forall|k: int|
            0 <= k < r@.len() ==> graph.is_node(#[trigger] r@[k].0) && r@[k].1
                == graph.adjacency(r@[k].0).len(),
        forall|i: usize| #[trigger] graph.is_node(i) ==> exists|k: int| 0 <= k < r@.len() && r@[k].0 == i,
        forall|k1: int, k2: int|
            0 <= k1 < r@.len() && 0 <= k2 < r@.len() && k1 != k2 ==> r@[k1].0 != r@[k2].0,
{
    let ghost ks = spec_keys_iter(&graph.nodes).remaining().unref();
    let mut r: Vec<(usize, usize)> = Vec::new();
    for id in it: graph.nodes.keys()
        invariant
            graph.wf(),
            r@.len() == it.index(),
            it.seq() == spec_keys_iter(&graph.nodes).remaining(),
            ks == it.seq().unref(),
            forall|k: int|
                0 <= k < r@.len() ==> #[trigger] r@[k].0 == ks[k] && r@[k].1 == graph.adjacency(ks[k]).len(),
    {
        let ghost k0 = it.index();
        proof {
            assert(ks[k0] == *id);
        }
        let d = graph.degree(*id);
        r.push((*id, d));
    }
    proof {
        assert(ks.to_set() == graph.nodes@.dom());
        assert forall|k1: int, k2: int|
            0 <= k1 < r@.len() && 0 <= k2 < r@.len() && k1 != k2 implies r@[k1].0 != r@[k2].0 by {
            assert(spec_keys_iter(&graph.nodes).remaining().no_duplicates());
            assert(ks[k1] != ks[k2]);
        }
        assert forall|k: int| 0 <= k < r@.len() implies graph.is_node(#[trigger] r@[k].0) && r@[k].1
            == graph.adjacency(r@[k].0).len() by {
            assert(r@[k].0 == ks[k] && r@[k].1 == graph.adjacency(ks[k]).len());
            assert(ks.to_set().contains(ks[k]));
        }
        assert forall|i: usize| #[trigger] graph.is_node(i) implies exists|k: int|
            0 <= k < r@.len() && r@[k].0 == i by {
            assert(ks.to_set().contains(i));
            let k = choose|k: int| 0 <= k < ks.len() && ks[k] == i;
            assert(r@[k].0 == ks[k] && r@[k].1 == graph.adjacency(ks[k]).len());
        }
    }
    r
}

/// A node of greatest degree with that degree, or `None` for an empty graph.
/// Among nodes of equal degree the one met last in `compute_degrees` wins.
pub fn node_w_highest_degree(graph: &HealthGraph) -> (r: Option<(usize, usize)>)
    requires
        graph.wf(),
    ensures
        r is None <==> graph.nodes@.len() == 0,
        r matches Some((id, d)) ==> graph.is_node(id) && d == graph.adjacency(id).len() && forall|
            i: usize,
        | #[trigger] graph.is_node(i) ==> graph.adjacency(i).len() <= d,
{
    let degrees = compute_degrees(graph);
    let mut best: Option<(usize, usize)> = None;
    let mut k: usize = 0;
    while k < degrees.len()
        invariant
            graph.wf(),
            k <= degrees@.len(),
            degrees@.len() == graph.nodes@.len(),
            forall|j: int|
                0 <= j < degrees@.len() ==> graph.is_node(#[trigger] degrees@[j].0) && degrees@[j].1
                    == graph.adjacency(degrees@[j].0).len(),
            best is None <==> k == 0,
            best matches Some((id, d)) ==> graph.is_node(id) && d == graph.adjacency(id).len() && forall|
                j: int,
            | 0 <= j < k ==> #[trigger] degrees@[j].1 <= d,
        decreases degrees@.len() - k,
    {
        let (id, d) = degrees[k];
        match best {
            Some((_, bd)) => {
                if d >= bd {
                    best = Some((id, d));
                }
            },
            None => {
                best = Some((id, d));
            },
        }
        k = k + 1;
    }
    proof {
        if let Some((id, d)) = best {
            assert forall|i: usize| #[trigger] graph.is_node(i) implies graph.adjacency(i).len() <= d by {
                let j = choose|j: int| 0 <= j < degrees@.len() && degrees@[j].0 == i;
                assert(degrees@[j].1 <= d);
            }
        }
    }
    best
}

/// `m` holds the hop distance from `start` of every node that `start`
/// reaches, and nothing else: `start` is at 0, the map is closed under
/// adjacency with neighbours at most one hop further, and every other entry
/// is one hop beyond some neighbour's entry. These conditions fix each entry
/// to the length of a shortest path from `start`.
pub open spec fn is_distance_map(graph: &HealthGraph, start: usize, m: Map<usize, usize>) -> bool {
    &&& m.contains_key(start)
    &&& m[start] == 0
    &&& forall|v: usize| #[trigger] m.contains_key(v) ==> graph.is_node(v)
    &&& forall|u: usize, v: usize|
        m.contains_key(u) && #[trigger] graph.has_edge(u, v) ==> m.contains_key(v) && m[v] <= m[u]
            + 1
    &&& forall|v: usize|
        #[trigger] m.contains_key(v) && v != start ==> exists|u: usize|
            m.contains_key(u) && graph.has_edge(u, v) && m[u] + 1 == m[v]
}

/// The hop distances from `start`: the one map that meets `is_distance_map`.
pub open spec fn hop_distances(graph: &HealthGraph, start: usize) -> Map<usize, usize> {
    choose|m: Map<usize, usize>| is_distance_map(graph, start, m)
}

proof fn lemma_distance_le(
    graph: &HealthGraph,
    start: usize,
    m1: Map<usize, usize>,
    m2: Map<usize, usize>,
    v: usize,
)
    requires
        is_distance_map(graph, start, m1),
        is_distance_map(graph, start, m2),
        m1.contains_key(v),
    ensures
        m2.contains_key(v),
        m2[v] <= m1[v],
    decreases m1[v],
{
    if v != start {
        let u = choose|u: usize| m1.contains_key(u) && graph.has_edge(u, v) && m1[u] + 1 == m1[v];
        lemma_distance_le(graph, start, m1, m2, u);
    }
}

/// A distance map from `start` is unique.
pub proof fn distance_map_is_unique(
    graph: &HealthGraph,
    start: usize,
    m1: Map<usize, usize>,
    m2: Map<usize, usize>,
)
    requires
        is_distance_map(graph, start, m1),
        is_distance_map(graph, start, m2),
    ensures
        m1 == m2,
{
    assert forall|v: usize| m1.contains_key(v) implies m2.contains_key(v) && m2[v] == m1[v] by {
        lemma_distance_le(graph, start, m1, m2, v);
        lemma_distance_le(graph, start, m2, m1, v);
    }
    assert forall|v: usize| m2.contains_key(v) implies m1.contains_key(v) by {
        lemma_distance_le(graph, start, m2, m1, v);
    }
    assert(m1 =~= m2);
}

/// Breadth-first search from `start`: the hop distance to each reachable node.
pub fn bfs_distances(graph: &HealthGraph, start: usize) -> (r: HashMap<usize, usize>)
    requires
        graph.wf(),
        graph.is_node(start),
    ensures
        is_distance_map(graph, start, r@),
        r@ == hop_distances(graph, start),
        forall|v: usize| #[trigger] r@.contains_key(v) ==> r@[v] < graph.nodes@.len(),
{
    let n = graph.nodes.len();
    let mut distances: HashMap<usize, usize> = HashMap::new();
    let mut queue: VecDeque<usize> = VecDeque::new();
    distances.insert(start, 0);
    queue.push_back(start);
    proof {
        assert(queue@[0] == start);
        assert(queue@.contains(start));
    }
    while queue.len() > 0
        invariant
            graph.wf(),
            n == graph.nodes@.len(),
            distances@.contains_key(start),
            distances@[start] == 0,
            forall|v: usize| #[trigger] distances@.contains_key(v) ==> graph.is_node(v),
            forall|v: usize|
                #[trigger] distances@.contains_key(v) ==> distances@[v] < distances@.len(),
            forall|i: int| 0 <= i < queue@.len() ==> distances@.contains_key(#[trigger] queue@[i]),
            queue@.no_duplicates(),
            forall|i: int, j: int|
                0 <= i <= j < queue@.len() ==> distances@[#[trigger] queue@[i]] <= distances@[#[trigger] queue@[j]]
                    <= distances@[queue@[i]] + 1,
            forall|u: usize, v: usize|
                distances@.contains_key(u) && !queue@.contains(u) && #[trigger] graph.has_edge(u, v)
                    ==> distances@.contains_key(v) && distances@[v] <= distances@[u] + 1,
            forall|u: usize, i: int|
                distances@.contains_key(u) && !queue@.contains(u) && 0 <= i < queue@.len()
                    ==> #[trigger] distances@[u] <= distances@[#[trigger] queue@[i]],
            forall|v: usize|
                #[trigger] distances@.contains_key(v) && v != start ==> exists|u: usize|
                    distances@.contains_key(u) && graph.has_edge(u, v) && distances@[u] + 1
                        == distances@[v],
        decreases n - distances@.len(), queue@.len(),
    {
        proof {
            lemma_len_subset(distances@.dom(), graph.nodes@.dom());
        }
        let ghost m0 = distances@;
        let ghost q0 = queue@;
        let current = queue.pop_front().unwrap();
        let cd = *distances.get(&current).unwrap();
        proof {
            assert(q0[0] == current);
            assert forall|i: int| 0 <= i < queue@.len() implies cd <= distances@[#[trigger] queue@[i]]
                && distances@[queue@[i]] <= cd + 1 by {
                assert(queue@[i] == q0[i + 1]);
            }
            assert(!queue@.contains(current)) by {
                if queue@.contains(current) {
                    let i = choose|i: int| 0 <= i < queue@.len() && queue@[i] == current;
                    assert(q0[i + 1] == q0[0]);
                }
            }
            assert forall|u: usize| distances@.contains_key(u) && !queue@.contains(u) implies
                #[trigger] distances@[u] <= cd by {
                if u != current {
                    assert(!q0.contains(u)) by {
                        if q0.contains(u) {
                            let i = choose|i: int| 0 <= i < q0.len() && q0[i] == u;
                            assert(i != 0);
                            assert(queue@[i - 1] == u);
                        }
                    }
                    assert(distances@[u] <= distances@[q0[0]]);
                }
            }
        }
        let ghost q1 = queue@;
        proof {
            assert forall|u: usize, v: usize|
                distances@.contains_key(u) && !queue@.contains(u) && u != current
                    && #[trigger] graph.has_edge(u, v) implies distances@.contains_key(v)
                && distances@[v] <= distances@[u] + 1 by {
                assert(!q0.contains(u)) by {
                    if q0.contains(u) {
                        let i = choose|i: int| 0 <= i < q0.len() && q0[i] == u;
                        assert(i != 0);
                        assert(queue@[i - 1] == u);
                    }
                }
            }
        }
        match graph.neighbors(current) {
            Some(nbrs) => {
                let ghost ks = spec_hash_keys_iter(nbrs).remaining().unref();
                for nb in it: nbrs.iter()
                    invariant
                        graph.wf(),
                        n == graph.nodes@.len(),
                        graph.is_node(current),
                        nbrs@ == graph.adjacency(current),
                        it.seq() == spec_hash_keys_iter(nbrs).remaining(),
                        ks == it.seq().unref(),
                        ks.to_set() == graph.adjacency(current),
                        distances@.contains_key(current),
                        distances@[current] == cd,
                        !queue@.contains(current),
                        distances@.contains_key(start),
                        distances@[start] == 0,
                        forall|k: usize| #[trigger] m0.contains_key(k) ==> distances@.contains_key(k)
                            && distances@[k] == m0[k],
                        distances@.len() >= m0.len(),
                        queue@.len() - q1.len() == distances@.len() - m0.len(),
                        forall|v: usize| #[trigger] distances@.contains_key(v) ==> graph.is_node(v),
                        forall|v: usize|
                            #[trigger] distances@.contains_key(v) ==> distances@[v] < distances@.len(),
                        forall|i: int|
                            0 <= i < queue@.len() ==> distances@.contains_key(#[trigger] queue@[i]),
                        queue@.no_duplicates(),
                        forall|i: int|
                            0 <= i < queue@.len() ==> cd <= #[trigger] distances@[queue@[i]] <= cd
                                + 1,
                        forall|i: int, j: int|
                            0 <= i <= j < queue@.len() ==> distances@[#[trigger] queue@[i]]
                                <= distances@[#[trigger] queue@[j]] <= distances@[queue@[i]] + 1,
                        forall|u: usize, v: usize|
                            distances@.contains_key(u) && !queue@.contains(u) && u != current
                                && #[trigger] graph.has_edge(u, v) ==> distances@.contains_key(v)
                                && distances@[v] <= distances@[u] + 1,
                        forall|u: usize|
                            distances@.contains_key(u) && !queue@.contains(u) ==> #[trigger] distances@[u]
                                <= cd,
                        forall|k: int|
                            0 <= k < it.index() ==> distances@.contains_key(#[trigger] ks[k])
                                && distances@[ks[k]] <= cd + 1,
                        forall|v: usize|
                            #[trigger] distances@.contains_key(v) && v != start ==> exists|u: usize|
                                distances@.contains_key(u) && graph.has_edge(u, v) && distances@[u]
                                    + 1 == distances@[v],
                {
                    let ghost k = it.index();
                    proof {
                        assert(ks[k] == *nb);
                        assert(ks.to_set().contains(ks[k]));
                        assert(graph.has_edge(current, *nb));
                        lemma_len_subset(distances@.dom(), graph.nodes@.dom());
                    }
                    if !distances.contains_key(nb) {
                        let ghost mb = distances@;
                        let ghost qb = queue@;
                        distances.insert(*nb, cd + 1);
                        queue.push_back(*nb);
                        proof {
                            assert(queue@[queue@.len() - 1] == *nb);
                            assert(queue@.contains(*nb));
                            assert(!qb.contains(*nb));
                            assert forall|i: int, j: int|
                                0 <= i <= j < queue@.len() implies distances@[#[trigger] queue@[i]]
                                <= distances@[#[trigger] queue@[j]] <= distances@[queue@[i]] + 1 by {
                                if j == queue@.len() - 1 {
                                    if i < j {
                                        assert(queue@[i] == qb[i]);
                                    }
                                } else {
                                    assert(queue@[i] == qb[i]);
                                    assert(queue@[j] == qb[j]);
                                }
                            }
                            assert forall|i: int| 0 <= i < queue@.len() implies cd
                                <= #[trigger] distances@[queue@[i]] <= cd + 1 by {
                                if i < qb.len() {
                                    assert(queue@[i] == qb[i]);
                                }
                            }
                            assert forall|i: int| 0 <= i < queue@.len() implies distances@.contains_key(
                                #[trigger] queue@[i],
                            ) by {
                                if i < qb.len() {
                                    assert(queue@[i] == qb[i]);
                                }
                            }
                            assert forall|u: usize| distances@.contains_key(u) && !queue@.contains(u) implies
                                #[trigger] distances@[u] <= cd by {
                                assert(u != *nb);
                                assert(!qb.contains(u)) by {
                                    if qb.contains(u) {
                                        let i = choose|i: int| 0 <= i < qb.len() && qb[i] == u;
                                        assert(queue@[i] == u);
                                    }
                                }
                            }
                            assert forall|u: usize, v: usize|
                                distances@.contains_key(u) && !queue@.contains(u) && u != current
                                    && #[trigger] graph.has_edge(u, v) implies distances@.contains_key(v)
                                && distances@[v] <= distances@[u] + 1 by {
                                assert(u != *nb);
                                assert(!qb.contains(u)) by {
                                    if qb.contains(u) {
                                        let i = choose|i: int| 0 <= i < qb.len() && qb[i] == u;
                                        assert(queue@[i] == u);
                                    }
                                }
                            }
                            assert forall|v: usize|
                                #[trigger] distances@.contains_key(v) && v != start implies exists|u: usize|
                                distances@.contains_key(u) && graph.has_edge(u, v) && distances@[u] + 1
                                    == distances@[v] by {
                                if v == *nb {
                                    assert(graph.has_edge(current, v));
                                } else {
                                    assert(mb.contains_key(v));
                                    let u = choose|u: usize|
                                        mb.contains_key(u) && graph.has_edge(u, v) && mb[u] + 1 == mb[v];
                                    assert(distances@.contains_key(u));
                                }
                            }
                            assert(queue@.no_duplicates()) by {
                                assert forall|i: int, j: int|
                                    0 <= i < j < queue@.len() implies queue@[i] != queue@[j] by {
                                    if j == queue@.len() - 1 {
                                        assert(queue@[i] == qb[i]);
                                        assert(qb.contains(qb[i]));
                                    } else {
                                        assert(queue@[i] == qb[i]);
                                        assert(queue@[j] == qb[j]);
                                    }
                                }
                            }
                        }
                    }
                }
                proof {
                    assert forall|v: usize| #[trigger] graph.has_edge(current, v) implies
                        distances@.contains_key(v) && distances@[v] <= cd + 1 by {
                        assert(ks.to_set().contains(v));
                        let k = choose|k: int| 0 <= k < ks.len() && ks[k] == v;
                        assert(distances@.contains_key(ks[k]));
                    }
                }
            },
            None => {},
        }
        proof {
            assert forall|u: usize, v: usize|
                distances@.contains_key(u) && !queue@.contains(u) && #[trigger] graph.has_edge(u, v)
                    implies distances@.contains_key(v) && distances@[v] <= distances@[u] + 1 by {
                if u == current {
                    assert(graph.has_edge(current, v));
                }
            }
            assert forall|u: usize, i: int|
                distances@.contains_key(u) && !queue@.contains(u) && 0 <= i < queue@.len()
                    implies #[trigger] distances@[u] <= distances@[#[trigger] queue@[i]] by {
                assert(distances@[u] <= cd);
                assert(cd <= distances@[queue@[i]]);
            }
            lemma_len_subset(distances@.dom(), graph.nodes@.dom());
        }
    }
    proof {
        assert forall|u: usize, v: usize|
            distances@.contains_key(u) && #[trigger] graph.has_edge(u, v) implies distances@.contains_key(v)
            && distances@[v] <= distances@[u] + 1 by {
            assert(!queue@.contains(u));
        }
        lemma_len_subset(distances@.dom(), graph.nodes@.dom());
        assert(is_distance_map(graph, start, distances@));
        distance_map_is_unique(graph, start, distances@, hop_distances(graph, start));
    }
    distances
}

/// Pairs `(s, v)` with `s` in `sources`, `v` another node that `s` reaches.
pub open spec fn pairs_from(graph: &HealthGraph, sources: Set<usize>) -> Set<(usize, usize)> {
    Set::new(
        |p: (usize, usize)|
            sources.contains(p.0) && p.1 != p.0 && hop_distances(graph, p.0).contains_key(p.1),
    )
}

/// Triples `(s, v, t)` for each pair `(s, v)` of `pairs_from(graph, sources)`
/// and each `t` from 1 to the distance from `s` to `v`: as many as the sum
/// of those distances.
pub open spec fn steps_from(graph: &HealthGraph, sources: Set<usize>) -> Set<(usize, usize, int)> {
    Set::new(
        |x: (usize, usize, int)|
            sources.contains(x.0) && x.1 != x.0 && hop_distances(graph, x.0).contains_key(x.1) && 1
                <= x.2 <= hop_distances(graph, x.0)[x.1],
    )
}

/// The part of `pairs_from(graph, {start})` whose targets lie in `targets`.
pub open spec fn pairs_toward(graph: &HealthGraph, start: usize, targets: Set<usize>) -> Set<
    (usize, usize),
> {
    pairs_from(graph, Set::empty().insert(start)).filter(|p: (usize, usize)| targets.contains(p.1))
}

/// The part of `steps_from(graph, {start})` whose targets lie in `targets`.
pub open spec fn steps_toward(graph: &HealthGraph, start: usize, targets: Set<usize>) -> Set<
    (usize, usize, int),
> {
    steps_from(graph, Set::empty().insert(start)).filter(
        |x: (usize, usize, int)| targets.contains(x.1),
    )
}

/// Ordered pairs of distinct nodes where the second is reachable from the first.
pub open spec fn connected_pairs(graph: &HealthGraph) -> Set<(usize, usize)> {
    pairs_from(graph, graph.nodes@.dom())
}

/// One triple per hop of each connected pair's shortest path: its size is
/// the sum of the shortest-path lengths over `connected_pairs`.
pub open spec fn path_steps(graph: &HealthGraph) -> Set<(usize, usize, int)> {
    steps_from(graph, graph.nodes@.dom())
}

proof fn lemma_toward_insert(graph: &HealthGraph, start: usize, targets: Set<usize>, v: usize)
    requires
        pairs_toward(graph, start, targets).finite(),
        steps_toward(graph, start, targets).finite(),
        !targets.contains(v),
        hop_distances(graph, start).contains_key(v),
    ensures
        pairs_toward(graph, start, targets.insert(v)).finite(),
        steps_toward(graph, start, targets.insert(v)).finite(),
        pairs_toward(graph, start, targets.insert(v)).len() == pairs_toward(graph, start, targets).len()
            + if v != start { 1int } else { 0int },
        steps_toward(graph, start, targets.insert(v)).len() == steps_toward(graph, start, targets).len()
            + if v != start { hop_distances(graph, start)[v] as int } else { 0int },
{
    let h = hop_distances(graph, start);
    let p0 = pairs_toward(graph, start, targets);
    let p1 = pairs_toward(graph, start, targets.insert(v));
    let s0 = steps_toward(graph, start, targets);
    let s1 = steps_toward(graph, start, targets.insert(v));
    if v == start {
        assert(p1 =~= p0);
        assert(s1 =~= s0);
    } else {
        assert(p1 =~= p0.insert((start, v)));
        let f = |t: int| (start, v, t);
        let hops = vstd::set_lib::set_int_range(1, h[v] + 1);
        vstd::set_lib::lemma_int_range(1, h[v] + 1);
        assert(injective_on(f, hops));
        lemma_map_size(hops, hops.map(f), f);
        assert(s1 =~= s0 + hops.map(f)) by {
            assert forall|x: (usize, usize, int)| s1.contains(x) && x.1 == v implies hops.map(f).contains(x) by {
                assert(hops.contains(x.2));
                assert(f(x.2) == x);
            }
        }
        assert(s0.disjoint(hops.map(f)));
        vstd::set_lib::lemma_set_disjoint_lens(s0, hops.map(f));
    }
}

proof fn lemma_from_insert(graph: &HealthGraph, sources: Set<usize>, s: usize)
    requires
        pairs_from(graph, sources).finite(),
        steps_from(graph, sources).finite(),
        pairs_toward(graph, s, hop_distances(graph, s).dom()).finite(),
        steps_toward(graph, s, hop_distances(graph, s).dom()).finite(),
        !sources.contains(s),
    ensures
        pairs_from(graph, sources.insert(s)).finite(),
        steps_from(graph, sources.insert(s)).finite(),
        pairs_from(graph, sources.insert(s)).len() == pairs_from(graph, sources).len()
            + pairs_toward(graph, s, hop_distances(graph, s).dom()).len(),
        steps_from(graph, sources.insert(s)).len() == steps_from(graph, sources).len()
            + steps_toward(graph, s, hop_distances(graph, s).dom()).len(),
{
    let d = hop_distances(graph, s).dom();
    assert(pairs_from(graph, sources.insert(s)) =~= pairs_from(graph, sources) + pairs_toward(graph, s, d));
    assert(steps_from(graph, sources.insert(s)) =~= steps_from(graph, sources) + steps_toward(graph, s, d));
    assert(pairs_from(graph, sources).disjoint(pairs_toward(graph, s, d)));
    assert(steps_from(graph, sources).disjoint(steps_toward(graph, s, d)));
    vstd::set_lib::lemma_set_disjoint_lens(pairs_from(graph, sources), pairs_toward(graph, s, d));
    vstd::set_lib::lemma_set_disjoint_lens(steps_from(graph, sources), steps_toward(graph, s, d));
}

/// For one BFS result from `start`: the sum of the nonzero distances and how
/// many there are.
#[verifier::spinoff_prover]
fn tally_distances(graph: &HealthGraph, start: usize, dist: &HashMap<usize, usize>) -> (r: (u64, u64))
    requires
        graph.wf(),
        graph.nodes@.len() <= u32::MAX,
        dist@ == hop_distances(graph, start),
        dist@.contains_key(start),
        dist@[start] == 0,
        dist@.dom().subset_of(graph.nodes@.dom()),
        forall|v: usize| #[trigger] graph.has_edge(start, v) ==> dist@.contains_key(v),
        forall|w: usize|
            #[trigger] dist@.contains_key(w) ==> dist@[w] < graph.nodes@.len() && (w != start
                ==> dist@[w] >= 1 && exists|u: usize| graph.has_edge(u, w)),
    ensures
        r.1 <= graph.nodes@.len(),
        r.1 <= r.0,
        r.0 <= r.1 * graph.nodes@.len(),
        r.1 == 0 ==> forall|v: usize| !#[trigger] graph.has_edge(start, v),
        r.1 > 0 ==> exists|u: usize, v: usize| graph.has_edge(u, v),
        pairs_toward(graph, start, dist@.dom()).finite(),
        steps_toward(graph, start, dist@.dom()).finite(),
        r.1 == pairs_toward(graph, start, dist@.dom()).len(),
        r.0 == steps_toward(graph, start, dist@.dom()).len(),
{
    let ghost n = graph.nodes@.len();
    let ghost ds = spec_keys_iter(dist).remaining().unref();
    proof {
        lemma_len_subset(dist@.dom(), graph.nodes@.dom());
        assert(pairs_toward(graph, start, ds.take(0).to_set()) =~= Set::empty());
        assert(steps_toward(graph, start, ds.take(0).to_set()) =~= Set::empty());
    }
    let mut total: u64 = 0;
    let mut count: u64 = 0;
    for v in it: dist.keys()
        invariant
            graph.wf(),
            n == graph.nodes@.len(),
            n <= u32::MAX,
            dist@.contains_key(start),
            dist@[start] == 0,
            forall|v: usize| #[trigger] graph.has_edge(start, v) ==> dist@.contains_key(v),
            forall|w: usize|
                #[trigger] dist@.contains_key(w) ==> dist@[w] < n && (w != start ==> dist@[w] >= 1
                    && exists|u: usize| graph.has_edge(u, w)),
            it.seq() == spec_keys_iter(dist).remaining(),
            ds == it.seq().unref(),
            ds.to_set() == dist@.dom(),
            ds.len() == dist@.len(),
            spec_keys_iter(dist).remaining().no_duplicates(),
            dist@ == hop_distances(graph, start),
            pairs_toward(graph, start, ds.take(it.index()).to_set()).finite(),
            steps_toward(graph, start, ds.take(it.index()).to_set()).finite(),
            count == pairs_toward(graph, start, ds.take(it.index()).to_set()).len(),
            total == steps_toward(graph, start, ds.take(it.index()).to_set()).len(),
            dist@.len() <= n,
            count <= it.index(),
            count <= total,
            total <= count * n,
            (count == 0) == (forall|k: int| 0 <= k < it.index() ==> #[trigger] ds[k] == start),
    {
        let ghost k = it.index();
        proof {
            assert(ds[k] == *v);
            assert(ds.to_set().contains(ds[k]));
            let done = ds.take(k).to_set();
            assert(!done.contains(ds[k])) by {
                if done.contains(ds[k]) {
                    let j = choose|j: int| 0 <= j < k && ds.take(k)[j] == ds[k];
                    assert(ds[j] == ds[k]);
                }
            }
            assert(ds.take(k + 1).to_set() =~= done.insert(ds[k])) by {
                assert(ds.take(k + 1) =~= ds.take(k).push(ds[k]));
                ds.take(k).lemma_push_to_set_commute(ds[k]);
            }
            lemma_toward_insert(graph, start, done, ds[k]);
        }
        let d = *dist.get(v).unwrap();
        if d > 0 {
            proof {
                assert(total + d <= (count + 1) * n) by (nonlinear_arith)
                    requires
                        total <= count * n,
                        d < n,
                ;
                assert((count + 1) * n <= u32::MAX * u32::MAX) by (nonlinear_arith)
                    requires
                        count + 1 <= n,
                        n <= u32::MAX,
                ;
            }
            total = total + d as u64;
            count = count + 1;
        }
    }
    proof {
        assert(ds.take(ds.len() as int) =~= ds);
        if count == 0 {
            assert forall|v: usize| !#[trigger] graph.has_edge(start, v) by {
                if graph.has_edge(start, v) {
                    assert(dist@.contains_key(v));
                    assert(ds.to_set().contains(v));
                    let k = choose|k: int| 0 <= k < ds.len() && ds[k] == v;
                    assert(ds[k] == start);
                }
            }
        } else {
            let k = choose|k: int| 0 <= k < ds.len() && !(ds[k] == start);
            assert(ds.to_set().contains(ds[k]));
            let w = ds[k];
            let u = choose|u: usize| graph.has_edge(u, w);
            assert(graph.has_edge(u, w));
        }
    }
    (total, count)
}

/// Over every ordered pair of distinct nodes where the second is reachable
/// from the first: the sum of their hop distances and the number of such
/// pairs. Unreachable pairs count in neither, and neither does a node paired
/// with itself, so the mean path length (sum over count, 0 when the count is
/// 0) is taken over connected pairs only.
#[verifier::spinoff_prover]
pub fn shortest_path_totals(graph: &HealthGraph) -> (r: (u128, u64))
    requires
        graph.wf(),
        graph.nodes@.len() <= u32::MAX,
    ensures
        r.1 <= r.0,
        r.0 <= r.1 * graph.nodes@.len(),
        r.1 == 0 <==> forall|u: usize, v: usize| !#[trigger] graph.has_edge(u, v),
        connected_pairs(graph).finite(),
        path_steps(graph).finite(),
        r.1 == connected_pairs(graph).len(),
        r.0 == path_steps(graph).len(),
{
    let ghost n = graph.nodes@.len();
    let ghost ks = spec_keys_iter(&graph.nodes).remaining().unref();
    let mut total: u128 = 0;
    let mut count: u64 = 0;
    proof {
        assert(pairs_from(graph, ks.take(0).to_set()) =~= Set::empty());
        assert(steps_from(graph, ks.take(0).to_set()) =~= Set::empty());
    }
    for start in it: graph.nodes.keys()
        invariant
            graph.wf(),
            n == graph.nodes@.len(),
            n <= u32::MAX,
            it.seq() == spec_keys_iter(&graph.nodes).remaining(),
            ks == it.seq().unref(),
            ks.to_set() == graph.nodes@.dom(),
            ks.len() == n,
            spec_keys_iter(&graph.nodes).remaining().no_duplicates(),
            pairs_from(graph, ks.take(it.index()).to_set()).finite(),
            steps_from(graph, ks.take(it.index()).to_set()).finite(),
            count == pairs_from(graph, ks.take(it.index()).to_set()).len(),
            total == steps_from(graph, ks.take(it.index()).to_set()).len(),
            count <= it.index() * n,
            count <= total,
            total <= count * n,
            count == 0 ==> forall|k: int, v: usize|
                0 <= k < it.index() ==> !#[trigger] graph.has_edge(ks[k], v),
            count > 0 ==> exists|u: usize, v: usize| graph.has_edge(u, v),
    {
        let ghost i = it.index();
        proof {
            assert(ks[i] == *start);
            assert(ks.to_set().contains(ks[i]));
            assert(i + 1 <= n);
        }
        let dist = bfs_distances(graph, *start);
        proof {
            assert(dist@.dom().subset_of(graph.nodes@.dom()));
            assert forall|w: usize| #[trigger] dist@.contains_key(w) implies dist@[w] < n && (w
                != *start ==> dist@[w] >= 1 && exists|u: usize| graph.has_edge(u, w)) by {
                if w != *start {
                    let u = choose|u: usize|
                        dist@.contains_key(u) && graph.has_edge(u, w) && dist@[u] + 1 == dist@[w];
                }
            }
        }
        let (t, c) = tally_distances(graph, *start, &dist);
        proof {
            let done = ks.take(i).to_set();
            assert(!done.contains(ks[i])) by {
                if done.contains(ks[i]) {
                    let j = choose|j: int| 0 <= j < i && ks.take(i)[j] == ks[i];
                    assert(ks[j] == ks[i]);
                }
            }
            assert(ks.take(i + 1).to_set() =~= done.insert(ks[i])) by {
                assert(ks.take(i + 1) =~= ks.take(i).push(ks[i]));
                ks.take(i).lemma_push_to_set_commute(ks[i]);
            }
            lemma_from_insert(graph, done, ks[i]);
            assert(count + c <= (i + 1) * n) by (nonlinear_arith)
                requires
                    count <= i * n,
                    c <= n,
            ;
            assert((i + 1) * n <= u32::MAX * u32::MAX) by (nonlinear_arith)
                requires
                    i + 1 <= n,
                    n <= u32::MAX,
            ;
            assert(total + t <= (count + c) * n) by (nonlinear_arith)
                requires
                    total <= count * n,
                    t <= c * n,
            ;
            assert((count + c) * n <= u32::MAX * u32::MAX * u32::MAX) by (nonlinear_arith)
                requires
                    count + c <= u32::MAX * u32::MAX,
                    n <= u32::MAX,
            ;
        }
        total = total + t as u128;
        count = count + c;
    }
    proof {
        assert(ks.take(ks.len() as int) =~= ks);
        if count == 0 {
            assert forall|u: usize, v: usize| !#[trigger] graph.has_edge(u, v) by {
                if graph.has_edge(u, v) {
                    assert(graph.is_node(u));
                    assert(ks.to_set().contains(u));
                    let k = choose|k: int| 0 <= k < ks.len() && ks[k] == u;
                    assert(!graph.has_edge(ks[k], v));
                }
            }
        }
    }
    (total, count)
}

} // verus!
