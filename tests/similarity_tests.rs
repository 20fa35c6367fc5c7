use health_graph::graph::{ActivityLevel, PersonNode};
use health_graph::similarity::{
    close_health_state, close_life_satisfaction, is_similar, same_activity_level,
    same_food_security, same_health_conditions, same_income, same_weight,
};

fn base() -> PersonNode {
    PersonNode {
        id: 0,
        weight_state: 1,
        activity_level: ActivityLevel::Medium,
        life_satisfaction: 8,
        gen_health_state: 2,
        total_income: 5,
        food_security: 1,
        high_bp: false,
        high_cholesterol: false,
        diabetic: false,
    }
}

#[test]
fn test_similarity_pos() {
    let person1 = PersonNode {
        id: 0,
        weight_state: 1,
        activity_level: ActivityLevel::Medium,
        life_satisfaction: 8,
        gen_health_state: 2,
        total_income: 5,
        food_security: 1,
        high_bp: false,
        high_cholesterol: false,
        diabetic: false,
    };
    let person2 = PersonNode {
        id: 1,
        weight_state: 1,
        activity_level: ActivityLevel::Medium,
        life_satisfaction: 7,
        gen_health_state: 2,
        total_income: 5,
        food_security: 1,
        high_bp: false,
        high_cholesterol: false,
        diabetic: false,
    };
    assert!(is_similar(&person1, &person2));
}

#[test]
fn test_similarity_neg() {
    let person1 = PersonNode {
        id: 0,
        weight_state: 1,
        activity_level: ActivityLevel::Medium,
        life_satisfaction: 8,
        gen_health_state: 2,
        total_income: 5,
        food_security: 1,
        high_bp: false,
        high_cholesterol: false,
        diabetic: false,
    };
    let person2 = PersonNode {
        id: 1,
        weight_state: 2,
        activity_level: ActivityLevel::High,
        life_satisfaction: 5,
        gen_health_state: 1,
        total_income: 1,
        food_security: 0,
        high_bp: true,
        high_cholesterol: true,
        diabetic: true,
    };
    assert!(!is_similar(&person1, &person2));
}

#[test]
fn weight_mismatch_alone_breaks_similarity() {
    let a = base();
    let b = PersonNode { id: 1, weight_state: 2, life_satisfaction: 7, ..base() };
    assert!(!same_weight(&a, &b));
    assert!(!is_similar(&a, &b));
    assert!(!is_similar(&b, &a));
}

#[test]
fn similarity_is_symmetric_on_examples() {
    let a = base();
    let b = PersonNode { id: 1, life_satisfaction: 7, high_bp: true, ..base() };
    let c = PersonNode { id: 2, gen_health_state: 4, ..base() };
    assert_eq!(is_similar(&a, &b), is_similar(&b, &a));
    assert_eq!(is_similar(&a, &c), is_similar(&c, &a));
    assert!(is_similar(&a, &b));
    assert!(!is_similar(&a, &c));
}

#[test]
fn unknown_codes_never_match() {
    let a = PersonNode { weight_state: 9, total_income: 9, food_security: 9, ..base() };
    let b = PersonNode { id: 1, ..a };
    assert!(!same_weight(&a, &b));
    assert!(!same_income(&a, &b));
    assert!(!same_food_security(&a, &b));
    let c = PersonNode { activity_level: ActivityLevel::Unknown, ..base() };
    let d = PersonNode { id: 1, ..c };
    assert!(!same_activity_level(&c, &d));
    assert!(same_activity_level(&base(), &base()));
}

#[test]
fn score_closeness_limits() {
    let a = PersonNode { life_satisfaction: 10, gen_health_state: 5, ..base() };
    let b = PersonNode { life_satisfaction: 11, gen_health_state: 6, ..base() };
    let c = PersonNode { life_satisfaction: 9, gen_health_state: 4, ..base() };
    let d = PersonNode { life_satisfaction: 8, gen_health_state: 3, ..base() };
    assert!(!close_life_satisfaction(&a, &b));
    assert!(!close_health_state(&a, &b));
    assert!(close_life_satisfaction(&a, &c));
    assert!(close_health_state(&a, &c));
    assert!(!close_life_satisfaction(&a, &d));
    assert!(!close_health_state(&a, &d));
    let e = PersonNode { life_satisfaction: 200, ..base() };
    let f = PersonNode { life_satisfaction: 201, ..base() };
    assert!(!close_life_satisfaction(&e, &f));
}

#[test]
fn one_agreeing_condition_is_enough() {
    let a = PersonNode { high_bp: true, high_cholesterol: true, diabetic: true, ..base() };
    let b = PersonNode { high_bp: false, high_cholesterol: false, diabetic: true, ..base() };
    let c = PersonNode { high_bp: false, high_cholesterol: false, diabetic: false, ..base() };
    assert!(same_health_conditions(&a, &b));
    assert!(!same_health_conditions(&a, &c));
    assert!(same_health_conditions(&b, &c));
}
