//! Building the similarity graph from a sequence of records.
use crate::graph::{HealthGraph, PersonNode};
use crate::similarity::{is_similar, similar, similar_is_symmetric};
use vstd::prelude::*;
use vstd::relations::injective_on;
use vstd::set_lib::lemma_map_size;

verus! {

/// No two records share an id.
pub open spec fn distinct_ids(people: Seq<PersonNode>) -> bool {
    forall|a: int, b: int|
        0 <= a < people.len() && 0 <= b < people.len() && a != b ==> people[a].id != people[b].id
}

/// Index pairs `(a, b)`, `a < b`, of records that are similar.
pub open spec fn similar_pairs(people: Seq<PersonNode>) -> Set<(int, int)> {
    Set::new(
        |p: (int, int)|
            0 <= p.0 < p.1 < people.len() && similar(people[p.0], people[p.1]),
    )
}

/// `g` holds exactly the records of `people`, and an edge joins two of them
/// exactly when they are similar.
pub open spec fn built_from(g: HealthGraph, people: Seq<PersonNode>) -> bool {
    &&& g.wf()
    &&& forall|i: usize| #[trigger] g.is_node(i) ==> exists|a: int| 0 <= a < people.len() && people[a].id == i
    &&& forall|a: int| #![trigger people[a]]
        0 <= a < people.len() ==> g.is_node(people[a].id) && g.nodes@[people[a].id] == people[a]
    &&& forall|a: int, b: int|
        0 <= a < people.len() && 0 <= b < people.len() ==> #[trigger] g.has_edge(
            people[a].id,
            people[b].id,
        ) == (a != b && similar(people[a], people[b]))
}

/// Inserts every record as a node, then compares every unordered pair once
/// and connects the similar ones.
pub fn build_graph(people: &Vec<PersonNode>) -> (g: HealthGraph)
    requires
        distinct_ids(people@),
    ensures
        built_from(g, people@),
{
    let n = people.len();
    let mut g = HealthGraph::new();
    for p in 0..n
        invariant
            n == people@.len(),
            distinct_ids(people@),
            g.wf(),
            forall|i: usize| #[trigger] g.is_node(i) ==> exists|a: int| 0 <= a < p && people@[a].id == i,
            forall|a: int| #![trigger people@[a]]
                0 <= a < p ==> g.is_node(people@[a].id) && g.nodes@[people@[a].id] == people@[a],
            forall|i: usize, j: usize| !#[trigger] g.has_edge(i, j),
    {
        let ghost old_g = g;
        g.add_node(people[p]);
        proof {
            assert forall|i: usize| #[trigger] g.is_node(i) implies exists|a: int|
                0 <= a < p + 1 && people@[a].id == i by {
                if i == people@[p as int].id {
                    assert(people@[p as int].id == i);
                } else {
                    assert(old_g.is_node(i));
                }
            }
            assert forall|a: int| #![trigger people@[a]]
                0 <= a < p + 1 implies g.is_node(people@[a].id) && g.nodes@[people@[a].id] == people@[a] by {
                if a < p {
                    assert(people@[a].id != people@[p as int].id);
                }
            }
        }
    }
    for p in 0..n
        invariant
            n == people@.len(),
            distinct_ids(people@),
            g.wf(),
            forall|i: usize| #[trigger] g.is_node(i) ==> exists|a: int| 0 <= a < n && people@[a].id == i,
            forall|a: int| #![trigger people@[a]]
                0 <= a < n ==> g.is_node(people@[a].id) && g.nodes@[people@[a].id] == people@[a],
            forall|a: int, b: int|
                0 <= a < n && 0 <= b < n ==> #[trigger] g.has_edge(people@[a].id, people@[b].id) == (
                a != b && similar(people@[a], people@[b]) && (a < p || b < p)),
    {
        for q in p + 1..n
            invariant
                n == people@.len(),
                p < n,
                distinct_ids(people@),
                g.wf(),
                forall|i: usize| #[trigger] g.is_node(i) ==> exists|a: int| 0 <= a < n && people@[a].id == i,
                forall|a: int| #![trigger people@[a]]
                0 <= a < n ==> g.is_node(people@[a].id) && g.nodes@[people@[a].id] == people@[a],
                forall|a: int, b: int|
                    0 <= a < n && 0 <= b < n ==> #[trigger] g.has_edge(people@[a].id, people@[b].id)
                        == (a != b && similar(people@[a], people@[b]) && (a < p || b < p || (a == p
                        && b < q) || (b == p && a < q))),
        {
            let ghost g0 = g;
            if is_similar(&people[p], &people[q]) {
                proof {
                    assert(g.is_node(people@[p as int].id));
                    assert(g.is_node(people@[q as int].id));
                }
                g.add_edge(people[p].id, people[q].id);
            }
            proof {
                assert forall|i: usize| #[trigger] g.is_node(i) implies exists|a: int|
                    0 <= a < n && people@[a].id == i by {
                    assert(g0.is_node(i));
                }
                assert forall|a: int, b: int| 0 <= a < n && 0 <= b < n implies #[trigger] g.has_edge(
                    people@[a].id,
                    people@[b].id,
                ) == (a != b && similar(people@[a], people@[b]) && (a < p || b < p || (a == p && b
                    < q + 1) || (b == p && a < q + 1))) by {
                    similar_is_symmetric(people@[a], people@[b]);
                }
            }
        }
    }
    g
}

/// Pairs `(a, b)` with `0 <= a < b < k`.
pub open spec fn ordered_pairs_below(k: int) -> Set<(int, int)> {
    Set::new(|p: (int, int)| 0 <= p.0 < p.1 < k)
}

proof fn lemma_ordered_pairs_finite(k: int)
    requires
        0 <= k,
    ensures
        ordered_pairs_below(k).finite(),
    decreases k,
{
    if k == 0 {
        assert(ordered_pairs_below(0) =~= Set::empty());
    } else {
        lemma_ordered_pairs_finite(k - 1);
        let column = vstd::set_lib::set_int_range(0, k - 1).map(|a: int| (a, k - 1));
        vstd::set_lib::lemma_int_range(0, k - 1);
        vstd::set_lib::lemma_map_size_bound(
            vstd::set_lib::set_int_range(0, k - 1),
            column,
            |a: int| (a, k - 1),
        );
        assert(ordered_pairs_below(k) =~= ordered_pairs_below(k - 1) + column) by {
            assert forall|p: (int, int)| ordered_pairs_below(k).contains(p) && p.1 == k - 1 implies
                column.contains(p) by {
                assert(vstd::set_lib::set_int_range(0, k - 1).contains(p.0));
            }
        }
    }
}

/// The number of edges of a graph built from `people` is the number of
/// unordered pairs of its records that are similar.
pub proof fn built_edge_count(people: Seq<PersonNode>, g: HealthGraph)
    requires
        distinct_ids(people),
        built_from(g, people),
    ensures
        g.edge_set().finite(),
        g.edge_set().len() == similar_pairs(people).len(),
{
    let pairs = similar_pairs(people);
    let f = |p: (int, int)|
        if people[p.0].id < people[p.1].id {
            (people[p.0].id, people[p.1].id)
        } else {
            (people[p.1].id, people[p.0].id)
        };
    assert(pairs.finite()) by {
        lemma_ordered_pairs_finite(people.len() as int);
        vstd::set_lib::lemma_len_subset(pairs, ordered_pairs_below(people.len() as int));
    }
    assert(injective_on(f, pairs)) by {
        assert forall|x: (int, int), y: (int, int)|
            pairs.contains(x) && pairs.contains(y) && #[trigger] f(x) == #[trigger] f(y) implies x
            == y by {
            if x.0 != y.0 && x.0 != y.1 {
                assert(people[x.0].id != people[y.0].id);
                assert(people[x.0].id != people[y.1].id);
            }
            if x.1 != y.0 && x.1 != y.1 {
                assert(people[x.1].id != people[y.0].id);
                assert(people[x.1].id != people[y.1].id);
            }
        }
    }
    assert(pairs.map(f) =~= g.edge_set()) by {
        assert forall|e: (usize, usize)| pairs.map(f).contains(e) implies g.edge_set().contains(e) by {
            let x = choose|x: (int, int)| pairs.contains(x) && f(x) == e;
            assert(g.has_edge(people[x.0].id, people[x.1].id));
            assert(g.has_edge(people[x.1].id, people[x.0].id));
        }
        assert forall|e: (usize, usize)| g.edge_set().contains(e) implies pairs.map(f).contains(e) by {
            assert(g.is_node(e.0));
            assert(g.is_node(e.1));
            let a = choose|a: int| 0 <= a < people.len() && people[a].id == e.0;
            let b = choose|b: int| 0 <= b < people.len() && people[b].id == e.1;
            assert(g.has_edge(people[a].id, people[b].id));
            similar_is_symmetric(people[a], people[b]);
            if a < b {
                assert(pairs.contains((a, b)));
                assert(f((a, b)) == e);
            } else {
                assert(pairs.contains((b, a)));
                assert(f((b, a)) == e);
            }
        }
    }
    lemma_map_size(pairs, g.edge_set(), f);
}

} // verus!
