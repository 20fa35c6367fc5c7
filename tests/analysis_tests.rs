use health_graph::analysis::{
    bfs_distances, compute_degrees, node_w_highest_degree, shortest_path_totals,
};
use health_graph::cohort::group_by_income_and_food_security;
use health_graph::construct::build_graph;
use health_graph::graph::{ActivityLevel, HealthGraph, PersonNode};

fn person(id: usize) -> PersonNode {
    PersonNode {
        id,
        weight_state: 1,
        activity_level: ActivityLevel::Medium,
        life_satisfaction: 8,
        gen_health_state: 2,
        total_income: 5,
        food_security: 1,
        high_bp: false,
        high_cholesterol: false,
        diabetic: false,
    }
}

fn graph_with(ids: &[usize], edges: &[(usize, usize)]) -> HealthGraph {
    let mut g = HealthGraph::new();
    for &id in ids {
        g.add_node(person(id));
    }
    for &(a, b) in edges {
        g.add_edge(a, b);
    }
    g
}

fn mean(totals: (u128, u64)) -> f64 {
    if totals.1 == 0 {
        0.0
    } else {
        totals.0 as f64 / totals.1 as f64
    }
}

#[test]
fn degrees_of_a_star() {
    let g = graph_with(&[10, 11, 12, 13], &[(10, 11), (10, 12), (10, 13)]);
    let mut d = compute_degrees(&g);
    d.sort();
    assert_eq!(d, vec![(10, 3), (11, 1), (12, 1), (13, 1)]);
    assert_eq!(node_w_highest_degree(&g), Some((10, 3)));
    assert_eq!(g.degree_sum(), 6);
    assert_eq!(g.total_edges(), 3);
}

#[test]
fn highest_degree_of_empty_graph_is_none() {
    let g = HealthGraph::new();
    assert_eq!(compute_degrees(&g), vec![]);
    assert_eq!(node_w_highest_degree(&g), None);
}

#[test]
fn bfs_distance_to_self_is_zero() {
    let g = graph_with(&[0, 1, 2, 3], &[(0, 1), (1, 2)]);
    let d = bfs_distances(&g, 0);
    assert_eq!(d[&0], 0);
    assert_eq!(d[&1], 1);
    assert_eq!(d[&2], 2);
    assert!(!d.contains_key(&3));
    let lone = bfs_distances(&g, 3);
    assert_eq!(lone.len(), 1);
    assert_eq!(lone[&3], 0);
}

#[test]
fn two_nodes_one_edge_average_path_is_one() {
    let g = graph_with(&[0, 1], &[(0, 1)]);
    let totals = shortest_path_totals(&g);
    assert_eq!(totals, (2, 2));
    assert_eq!(mean(totals), 1.0);
}

#[test]
fn two_nodes_no_edge_average_path_is_zero() {
    let g = graph_with(&[0, 1], &[]);
    let totals = shortest_path_totals(&g);
    assert_eq!(totals, (0, 0));
    assert_eq!(mean(totals), 0.0);
}

#[test]
fn path_of_three_totals() {
    let g = graph_with(&[0, 1, 2], &[(0, 1), (1, 2)]);
    assert_eq!(shortest_path_totals(&g), (8, 6));
}

#[test]
fn empty_graph_path_totals_are_zero() {
    let g = HealthGraph::new();
    assert_eq!(shortest_path_totals(&g), (0, 0));
}

#[test]
fn built_graph_connects_similar_pairs_only() {
    let a = person(0);
    let b = PersonNode { id: 1, life_satisfaction: 7, ..person(1) };
    let c = PersonNode { id: 2, weight_state: 2, ..person(2) };
    let d = PersonNode { id: 3, gen_health_state: 3, ..person(3) };
    let g = build_graph(&vec![a, b, c, d]);
    assert_eq!(g.nodes.len(), 4);
    assert_eq!(g.total_edges(), 3);
    assert!(g.neighbors(0).unwrap().contains(&1));
    assert!(g.neighbors(0).unwrap().contains(&3));
    assert!(g.neighbors(1).unwrap().contains(&3));
    assert_eq!(g.degree(2), 0);
}

#[test]
fn built_graph_from_no_records_is_empty() {
    let g = build_graph(&vec![]);
    assert_eq!(g.nodes.len(), 0);
    assert_eq!(g.total_edges(), 0);
}

#[test]
fn cohort_example_excludes_unknown_income() {
    let r1 = PersonNode { id: 0, total_income: 2, food_security: 1, high_bp: true, ..person(0) };
    let r2 = PersonNode { id: 1, total_income: 2, food_security: 1, high_bp: false, ..person(1) };
    let r3 = PersonNode { id: 2, total_income: 9, food_security: 1, high_bp: true, ..person(2) };
    let groups = group_by_income_and_food_security(&vec![r1, r2, r3]);
    assert_eq!(groups.len(), 1);
    let g = groups[0];
    assert_eq!((g.income, g.food_security), (2, 1));
    assert_eq!(g.size, 2);
    assert_eq!(g.high_bp, 1);
    assert_eq!(g.high_bp as f64 / g.size as f64 * 100.0, 50.0);
}

#[test]
fn cohorts_split_by_key_and_count_each_condition() {
    let r1 = PersonNode { id: 0, total_income: 1, food_security: 2, high_cholesterol: true, ..person(0) };
    let r2 = PersonNode { id: 1, total_income: 3, food_security: 2, diabetic: true, ..person(1) };
    let r3 = PersonNode { id: 2, total_income: 1, food_security: 2, diabetic: true, ..person(2) };
    let r4 = PersonNode { id: 3, total_income: 1, food_security: 9, ..person(3) };
    let groups = group_by_income_and_food_security(&vec![r1, r2, r3, r4]);
    assert_eq!(groups.len(), 2);
    assert_eq!((groups[0].income, groups[0].food_security, groups[0].size), (1, 2, 2));
    assert_eq!((groups[0].high_bp, groups[0].high_cholesterol, groups[0].diabetic), (0, 1, 1));
    assert_eq!((groups[1].income, groups[1].food_security, groups[1].size), (3, 2, 1));
    assert_eq!((groups[1].high_bp, groups[1].high_cholesterol, groups[1].diabetic), (0, 0, 1));
    assert!(group_by_income_and_food_security(&vec![]).is_empty());
}
