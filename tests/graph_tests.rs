use health_graph::graph::{activity_level_from_minutes, ActivityLevel, HealthGraph, PersonNode};

fn person(id: usize, activity_level: ActivityLevel, high_bp: bool) -> PersonNode {
    PersonNode {
        id,
        weight_state: 1,
        activity_level,
        life_satisfaction: 8,
        gen_health_state: 2,
        total_income: 5,
        food_security: 1,
        high_bp,
        high_cholesterol: false,
        diabetic: false,
    }
}

#[test]
fn test_add_node_and_edge() {
    let mut graph = HealthGraph::new();
    let person1 = PersonNode {
        id: 0,
        weight_state: 1,
        activity_level: ActivityLevel::High,
        life_satisfaction: 8,
        gen_health_state: 2,
        total_income: 5,
        food_security: 1,
        high_bp: false,
        high_cholesterol: false,
        diabetic: false,
    };
    let person2 = PersonNode {
        id: 1,
        weight_state: 1,
        activity_level: ActivityLevel::Medium,
        life_satisfaction: 8,
        gen_health_state: 2,
        total_income: 5,
        food_security: 1,
        high_bp: true,
        high_cholesterol: false,
        diabetic: false,
    };
    graph.add_node(person1);
    graph.add_node(person2);
    graph.add_edge(0, 1);
    assert_eq!(graph.nodes.len(), 2);
    assert_eq!(graph.total_edges(), 1);
    let neighbors0 = graph.neighbors(0).unwrap();
    let neighbors1 = graph.neighbors(1).unwrap();
    assert!(neighbors0.contains(&1));
    assert!(neighbors1.contains(&0));
}

#[test]
fn new_graph_is_empty() {
    let graph = HealthGraph::new();
    assert_eq!(graph.nodes.len(), 0);
    assert_eq!(graph.total_edges(), 0);
    assert_eq!(graph.degree_sum(), 0);
    assert!(graph.neighbors(0).is_none());
    assert_eq!(graph.degree(0), 0);
}

#[test]
fn single_node_has_degree_zero() {
    let mut graph = HealthGraph::new();
    graph.add_node(person(7, ActivityLevel::Low, false));
    assert_eq!(graph.degree_sum(), 0);
    assert_eq!(graph.degree(7), 0);
    assert!(graph.neighbors(7).unwrap().is_empty());
}

#[test]
fn add_edge_ignores_missing_and_self_endpoints() {
    let mut graph = HealthGraph::new();
    graph.add_node(person(0, ActivityLevel::Low, false));
    graph.add_node(person(1, ActivityLevel::Low, false));
    graph.add_edge(0, 5);
    graph.add_edge(5, 1);
    graph.add_edge(1, 1);
    assert_eq!(graph.total_edges(), 0);
    assert_eq!(graph.degree(0), 0);
    assert_eq!(graph.degree(1), 0);
    assert!(graph.neighbors(5).is_none());
}

#[test]
fn repeated_edge_is_counted_once() {
    let mut graph = HealthGraph::new();
    for id in 0..3 {
        graph.add_node(person(id, ActivityLevel::Low, false));
    }
    graph.add_edge(0, 1);
    graph.add_edge(1, 0);
    graph.add_edge(1, 2);
    assert_eq!(graph.total_edges(), 2);
    assert_eq!(graph.degree_sum(), 4);
    assert_eq!(graph.degree(1), 2);
    assert!(graph.neighbors(2).unwrap().contains(&1));
    assert!(!graph.neighbors(2).unwrap().contains(&0));
}

#[test]
fn re_adding_a_node_keeps_its_edges() {
    let mut graph = HealthGraph::new();
    graph.add_node(person(0, ActivityLevel::Low, false));
    graph.add_node(person(1, ActivityLevel::Low, false));
    graph.add_edge(0, 1);
    graph.add_node(person(0, ActivityLevel::High, true));
    assert_eq!(graph.nodes.len(), 2);
    assert_eq!(graph.nodes[&0].activity_level, ActivityLevel::High);
    assert_eq!(graph.degree(0), 1);
    assert_eq!(graph.total_edges(), 1);
}

#[test]
fn activity_level_thresholds() {
    assert_eq!(activity_level_from_minutes(0), ActivityLevel::Low);
    assert_eq!(activity_level_from_minutes(149), ActivityLevel::Low);
    assert_eq!(activity_level_from_minutes(150), ActivityLevel::Medium);
    assert_eq!(activity_level_from_minutes(299), ActivityLevel::Medium);
    assert_eq!(activity_level_from_minutes(300), ActivityLevel::High);
    assert_eq!(activity_level_from_minutes(u16::MAX), ActivityLevel::High);
}
