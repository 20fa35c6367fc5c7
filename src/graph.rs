//! The graph: records keyed by id, and a symmetric adjacency relation.
use std::collections::{HashMap, HashSet};
use vstd::prelude::*;
use vstd::relations::injective_on;
use vstd::set_lib::{lemma_len_subset, lemma_map_size, lemma_set_disjoint_lens};
use vstd::std_specs::hash::spec_keys_iter;
use vstd::std_specs::iter::IteratorSpec;

verus! {

broadcast use vstd::std_specs::hash::group_hash_axioms;

/// How physically active a person is.
#[derive(Debug, Clone, Copy, PartialEq, Eq, Structural)]
pub enum ActivityLevel {
    Low,
    Medium,
    High,
    Unknown,
}

/// The activity level for a weekly total of active minutes: under 150 is
/// low, under 300 medium, and anything more high.
pub fn activity_level_from_minutes(minutes: u16) -> (r: ActivityLevel)
    ensures
        r == (if minutes < 150 {
            ActivityLevel::Low
        } else if minutes < 300 {
            ActivityLevel::Medium
        } else {
            ActivityLevel::High
        }),
{
    if minutes < 150 {
        ActivityLevel::Low
    } else if minutes < 300 {
        ActivityLevel::Medium
    } else {
        ActivityLevel::High
    }
}

/// One person's health and lifestyle attributes.
///
/// `weight_state`, `total_income` and `food_security` use 9 for "unknown";
/// `life_satisfaction` above 10 and `gen_health_state` above 5 are invalid.
#[derive(Debug, Clone, Copy, PartialEq, Eq, Structural)]
pub struct PersonNode {
    pub id: usize,
    pub weight_state: u8,
    pub activity_level: ActivityLevel,
    pub life_satisfaction: u8,
    pub gen_health_state: u8,
    pub total_income: u8,
    pub food_security: u8,
    pub high_bp: bool,
    pub high_cholesterol: bool,
    pub diabetic: bool,
}

/// An undirected simple graph whose nodes are records keyed by their id.
pub struct HealthGraph {
    pub nodes: HashMap<usize, PersonNode>,
    pub edges: HashMap<usize, HashSet<usize>>,
}

impl HealthGraph {
    /// `j` is in the adjacency set of `i`.
    pub open spec fn has_edge(&self, i: usize, j: usize) -> bool {
        self.edges@.contains_key(i) && self.edges@[i]@.contains(j)
    }

    /// The adjacency set of `i` (meaningful when `i` is a node).
    pub open spec fn adjacency(&self, i: usize) -> Set<usize> {
        self.edges@[i]@
    }

    pub open spec fn is_node(&self, i: usize) -> bool {
        self.nodes@.contains_key(i)
    }

    /// Ordered pairs `(i, j)` with `j` adjacent to `i`: each edge appears twice.
    pub open spec fn arcs(&self) -> Set<(usize, usize)> {
        Set::new(|p: (usize, usize)| self.has_edge(p.0, p.1))
    }

    /// The arcs that leave a node of `s`.
    pub open spec fn arcs_from(&self, s: Set<usize>) -> Set<(usize, usize)> {
        Set::new(|p: (usize, usize)| s.contains(p.0) && self.has_edge(p.0, p.1))
    }

    /// The edges, each as the unordered pair written with its smaller id first.
    pub open spec fn edge_set(&self) -> Set<(usize, usize)> {
        Set::new(|p: (usize, usize)| p.0 < p.1 && self.has_edge(p.0, p.1))
    }

    /// The graph invariant: adjacency sets exist exactly for the nodes, are
    /// finite, hold only other nodes, and are symmetric; each node is keyed
    /// by its record's id.
    pub open spec fn wf(&self) -> bool {
        &&& self.edges@.dom() == self.nodes@.dom()
        &&& forall|i: usize| #[trigger] self.is_node(i) ==> self.nodes@[i].id == i
        &&& forall|i: usize| #[trigger] self.is_node(i) ==> self.adjacency(i).finite()
        &&& forall|i: usize, j: usize| #[trigger]
            self.has_edge(i, j) ==> i != j && self.is_node(j) && self.has_edge(j, i)
    }

    /// Creates a graph with no nodes and no edges.
    pub fn new() -> (g: Self)
        ensures
            g.wf(),
            g.nodes@ == Map::<usize, PersonNode>::empty(),
            g.edges@.dom() == Set::<usize>::empty(),
    {
        HealthGraph { nodes: HashMap::new(), edges: HashMap::new() }
    }

    /// Inserts `person` under its id. A node that is not yet present gets an
    /// empty adjacency set; re-inserting an existing id replaces its record
    /// and keeps its edges.
    pub fn add_node(&mut self, person: PersonNode)
        requires
            old(self).wf(),
        ensures
            final(self).wf(),
            final(self).nodes@ == old(self).nodes@.insert(person.id, person),
            forall|i: usize, j: usize|
                final(self).has_edge(i, j) == old(self).has_edge(i, j),
    {
        let id = person.id;
        if !self.edges.contains_key(&id) {
            self.edges.insert(id, HashSet::new());
        }
        self.nodes.insert(id, person);
        proof {
            assert(self.edges@.dom() =~= self.nodes@.dom());
            assert forall|i: usize| #[trigger] self.is_node(i) implies self.nodes@[i].id == i by {
                if i != id {
                    assert(old(self).is_node(i));
                }
            }
            assert forall|i: usize| #[trigger] self.is_node(i) implies self.adjacency(i).finite() by {
                if i != id {
                    assert(old(self).is_node(i));
                }
            }
            assert forall|i: usize, j: usize| #[trigger] self.has_edge(i, j) implies
                i != j && self.is_node(j) && self.has_edge(j, i) by {
                assert(old(self).has_edge(i, j));
            }
        }
    }

    /// Connects `from` and `to` in both directions. Nothing changes unless
    /// both are nodes and they differ.
    pub fn add_edge(&mut self, from: usize, to: usize)
        requires
            old(self).wf(),
        ensures
            final(self).wf(),
            final(self).nodes@ == old(self).nodes@,
            forall|i: usize, j: usize| #[trigger]
                final(self).has_edge(i, j) == (old(self).has_edge(i, j) || (from != to
                    && old(self).is_node(from) && old(self).is_node(to) && ((i == from && j
                    == to) || (i == to && j == from)))),
    {
        if from == to || !self.edges.contains_key(&from) || !self.edges.contains_key(&to) {
            return;
        }
        let ghost g0 = *self;
        let mut s1 = self.edges.remove(&from).unwrap();
        s1.insert(to);
        self.edges.insert(from, s1);
        let mut s2 = self.edges.remove(&to).unwrap();
        s2.insert(from);
        self.edges.insert(to, s2);
        proof {
            assert(self.edges@.dom() =~= g0.edges@.dom());
            assert forall|i: usize| #[trigger] self.is_node(i) implies self.nodes@[i].id == i by {
                assert(g0.is_node(i));
            }
            assert forall|i: usize, j: usize| #[trigger]
                self.has_edge(i, j) == (g0.has_edge(i, j) || ((i == from && j == to) || (i == to
                    && j == from))) by {}
            assert forall|i: usize| #[trigger] self.is_node(i) implies self.adjacency(i).finite() by {
                assert(g0.is_node(i));
            }
            assert forall|i: usize, j: usize| #[trigger] self.has_edge(i, j) implies
                i != j && self.is_node(j) && self.has_edge(j, i) by {
                if g0.has_edge(i, j) {
                    assert(g0.has_edge(j, i));
                }
            }
        }
    }

    /// The adjacency set of `id`, or `None` when `id` is not a node.
    pub fn neighbors(&self, id: usize) -> (r: Option<&HashSet<usize>>)
        requires
            self.wf(),
        ensures
            match r {
                Some(s) => self.is_node(id) && s@ == self.adjacency(id),
                None => !self.is_node(id),
            },
    {
        self.edges.get(&id)
    }

    proof fn lemma_arcs_from_insert(&self, s: Set<usize>, k: usize)
        requires
            self.wf(),
            self.is_node(k),
            !s.contains(k),
            self.arcs_from(s).finite(),
        ensures
            self.arcs_from(s.insert(k)).finite(),
            self.arcs_from(s.insert(k)).len() == self.arcs_from(s).len() + self.adjacency(k).len(),
    {
        let fan = self.arcs_from(Set::empty().insert(k));
        let f = |j: usize| (k, j);
        assert(self.adjacency(k).map(f) =~= fan) by {
            assert forall|p: (usize, usize)| fan.contains(p) implies self.adjacency(k).map(f).contains(p) by {
                assert(f(p.1) == p);
            }
        }
        assert(injective_on(f, self.adjacency(k)));
        lemma_map_size(self.adjacency(k), fan, f);
        assert(self.arcs_from(s.insert(k)) =~= self.arcs_from(s) + fan);
        assert(self.arcs_from(s).disjoint(fan));
        lemma_set_disjoint_lens(self.arcs_from(s), fan);
    }

    /// Each edge gives two arcs.
    proof fn lemma_arcs_twice_edges(&self)
        requires
            self.wf(),
            self.arcs().finite(),
        ensures
            self.edge_set().finite(),
            self.arcs().len() == 2 * self.edge_set().len(),
    {
        let e = self.edge_set();
        lemma_len_subset(e, self.arcs());
        let f = |p: (usize, usize)| (p.1, p.0);
        let back = e.map(f);
        assert(injective_on(f, e));
        lemma_map_size(e, back, f);
        assert(self.arcs() =~= e + back) by {
            assert forall|p: (usize, usize)| self.arcs().contains(p) implies (e + back).contains(p) by {
                if p.0 > p.1 {
                    assert(e.contains(f(p)));
                    assert(f(f(p)) == p);
                }
            }
        }
        assert(e.disjoint(back));
        lemma_set_disjoint_lens(e, back);
    }

    /// The sum of all degrees, which is the number of arcs.
    pub fn degree_sum(&self) -> (r: usize)
        requires
            self.wf(),
            self.nodes@.len() * self.nodes@.len() <= usize::MAX,
        ensures
            self.arcs().finite(),
            r == self.arcs().len(),
    {
        let ghost n = self.nodes@.len();
        let ghost ks = spec_keys_iter(&self.edges).remaining().unref();
        let mut sum: usize = 0;
        proof {
            assert(self.arcs_from(ks.take(0).to_set()) =~= Set::empty());
        }
        for id in it: self.edges.keys()
            invariant
                self.wf(),
                n == self.nodes@.len(),
                n * n <= usize::MAX,
                it.seq() == spec_keys_iter(&self.edges).remaining(),
                ks == it.seq().unref(),
                ks.to_set() == self.nodes@.dom(),
                ks.no_duplicates(),
                ks.len() == n,
                self.arcs_from(ks.take(it.index()).to_set()).finite(),
                sum == self.arcs_from(ks.take(it.index()).to_set()).len(),
                sum <= it.index() * n,
        {
            let ghost i = it.index();
            proof {
                let done = ks.take(i).to_set();
                assert(ks[i] == *id);
                assert(ks.to_set().contains(ks[i]));
                assert(!done.contains(ks[i])) by {
                    if done.contains(ks[i]) {
                        let j = choose|j: int| 0 <= j < i && ks.take(i)[j] == ks[i];
                        assert(ks[j] == ks[i]);
                    }
                }
                assert(ks.take(i + 1).to_set() =~= done.insert(ks[i])) by {
                    assert(ks.take(i + 1) =~= ks.take(i).push(ks[i]));
                    ks.take(i).lemma_push_to_set_commute(ks[i]);
                }
                self.lemma_arcs_from_insert(done, ks[i]);
                assert forall|j: usize| self.adjacency(ks[i]).contains(j) implies
                    self.nodes@.dom().contains(j) by {
                    assert(self.has_edge(ks[i], j));
                }
                lemma_len_subset(self.adjacency(ks[i]), self.nodes@.dom());
                assert(sum + self.adjacency(ks[i]).len() <= (i + 1) * n) by (nonlinear_arith)
                    requires
                        sum <= i * n,
                        self.adjacency(ks[i]).len() <= n,
                ;
                assert(i + 1 <= n) by {
                    assert(i < it.seq().len());
                }
                assert((i + 1) * n <= n * n) by (nonlinear_arith)
                    requires
                        i + 1 <= n,
                ;
            }
            sum = sum + self.degree(*id);
        }
        proof {
            assert(ks.take(ks.len() as int) =~= ks);
            assert(self.arcs_from(ks.to_set()) =~= self.arcs());
        }
        sum
    }

    /// The number of edges.
    pub fn total_edges(&self) -> (r: usize)
        requires
            self.wf(),
            self.nodes@.len() * self.nodes@.len() <= usize::MAX,
        ensures
            self.edge_set().finite(),
            r == self.edge_set().len(),
    {
        let s = self.degree_sum();
        proof {
            self.lemma_arcs_twice_edges();
        }
        s / 2
    }

    /// Adjacency is symmetric: `j` is a neighbour of `i` exactly when `i` is
    /// a neighbour of `j`.
    pub proof fn adjacency_is_symmetric(&self, i: usize, j: usize)
        requires
            self.wf(),
        ensures
            self.has_edge(i, j) == self.has_edge(j, i),
    {
    }

    /// A graph with at most one node has no edges, so its degree sum and
    /// average degree are zero.
    pub proof fn small_graph_has_no_arcs(&self)
        requires
            self.wf(),
            self.nodes@.len() <= 1,
        ensures
            self.arcs() == Set::<(usize, usize)>::empty(),
            self.arcs().len() == 0,
    {
        assert forall|i: usize, j: usize| !#[trigger] self.has_edge(i, j) by {
            if self.has_edge(i, j) {
                let both = Set::empty().insert(i).insert(j);
                assert(both.len() == 2);
                lemma_len_subset(both, self.nodes@.dom());
            }
        }
        assert(self.arcs() =~= Set::<(usize, usize)>::empty());
    }

    /// The number of neighbours of `id`; 0 when `id` is not a node.
    pub fn degree(&self, id: usize) -> (r: usize)
        requires
            self.wf(),
        ensures
            r == if self.is_node(id) { self.adjacency(id).len() } else { 0 },
    {
        match self.edges.get(&id) {
            Some(s) => s.len(),
            None => 0,
        }
    }
}

} // verus!
