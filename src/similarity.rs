//! The rule that decides whether two records are similar enough to share an edge.
use crate::graph::{ActivityLevel, PersonNode};
use vstd::prelude::*;

verus! {

/// The code for an unknown weight category, income bracket or food-security bracket.
pub const UNKNOWN_CODE: u8 = 9;

/// Distance between two small scores.
pub open spec fn score_gap(a: u8, b: u8) -> int {
    if a >= b { a - b } else { b - a }
}

pub open spec fn weights_match(p1: PersonNode, p2: PersonNode) -> bool {
    p1.weight_state == p2.weight_state && p1.weight_state != UNKNOWN_CODE
}

pub open spec fn activities_match(p1: PersonNode, p2: PersonNode) -> bool {
    p1.activity_level == p2.activity_level && p1.activity_level != ActivityLevel::Unknown
}

pub open spec fn life_satisfactions_close(p1: PersonNode, p2: PersonNode) -> bool {
    score_gap(p1.life_satisfaction, p2.life_satisfaction) <= 1 && p1.life_satisfaction <= 10
        && p2.life_satisfaction <= 10
}

pub open spec fn health_states_close(p1: PersonNode, p2: PersonNode) -> bool {
    score_gap(p1.gen_health_state, p2.gen_health_state) <= 1 && p1.gen_health_state <= 5
        && p2.gen_health_state <= 5
}

pub open spec fn incomes_match(p1: PersonNode, p2: PersonNode) -> bool {
    p1.total_income == p2.total_income && p1.total_income != UNKNOWN_CODE
}

pub open spec fn food_securities_match(p1: PersonNode, p2: PersonNode) -> bool {
    p1.food_security == p2.food_security && p1.food_security != UNKNOWN_CODE
}

/// At least one of the three condition flags agrees (both true or both false).
pub open spec fn conditions_overlap(p1: PersonNode, p2: PersonNode) -> bool {
    p1.high_bp == p2.high_bp || p1.high_cholesterol == p2.high_cholesterol || p1.diabetic
        == p2.diabetic
}

/// Two records are similar when every one of the seven criteria holds.
pub open spec fn similar(p1: PersonNode, p2: PersonNode) -> bool {
    &&& weights_match(p1, p2)
    &&& activities_match(p1, p2)
    &&& life_satisfactions_close(p1, p2)
    &&& health_states_close(p1, p2)
    &&& incomes_match(p1, p2)
    &&& food_securities_match(p1, p2)
    &&& conditions_overlap(p1, p2)
}

/// Whether `p1` and `p2` are similar enough to be connected.
pub fn is_similar(p1: &PersonNode, p2: &PersonNode) -> (r: bool)
    ensures
        r == similar(*p1, *p2),
{
    same_weight(p1, p2) && same_activity_level(p1, p2) && close_life_satisfaction(p1, p2)
        && close_health_state(p1, p2) && same_income(p1, p2) && same_food_security(p1, p2)
        && same_health_conditions(p1, p2)
}

pub fn same_weight(p1: &PersonNode, p2: &PersonNode) -> (r: bool)
    ensures
        r == weights_match(*p1, *p2),
{
    p1.weight_state == p2.weight_state && p1.weight_state != UNKNOWN_CODE
}

pub fn same_activity_level(p1: &PersonNode, p2: &PersonNode) -> (r: bool)
    ensures
        r == activities_match(*p1, *p2),
{
    p1.activity_level == p2.activity_level && p1.activity_level != ActivityLevel::Unknown
}

fn gap(a: u8, b: u8) -> (r: u8)
    ensures
        r == score_gap(a, b),
{
    if a >= b { a - b } else { b - a }
}

pub fn close_life_satisfaction(p1: &PersonNode, p2: &PersonNode) -> (r: bool)
    ensures
        r == life_satisfactions_close(*p1, *p2),
{
    gap(p1.life_satisfaction, p2.life_satisfaction) <= 1 && p1.life_satisfaction <= 10
        && p2.life_satisfaction <= 10
}

pub fn close_health_state(p1: &PersonNode, p2: &PersonNode) -> (r: bool)
    ensures
        r == health_states_close(*p1, *p2),
{
    gap(p1.gen_health_state, p2.gen_health_state) <= 1 && p1.gen_health_state <= 5
        && p2.gen_health_state <= 5
}

pub fn same_income(p1: &PersonNode, p2: &PersonNode) -> (r: bool)
    ensures
        r == incomes_match(*p1, *p2),
{
    p1.total_income == p2.total_income && p1.total_income != UNKNOWN_CODE
}

pub fn same_food_security(p1: &PersonNode, p2: &PersonNode) -> (r: bool)
    ensures
        r == food_securities_match(*p1, *p2),
{
    p1.food_security == p2.food_security && p1.food_security != UNKNOWN_CODE
}

pub fn same_health_conditions(p1: &PersonNode, p2: &PersonNode) -> (r: bool)
    ensures
        r == conditions_overlap(*p1, *p2),
{
    p1.high_bp == p2.high_bp || p1.high_cholesterol == p2.high_cholesterol || p1.diabetic
        == p2.diabetic
}

/// Similarity does not depend on the order of its arguments.
pub proof fn similar_is_symmetric(a: PersonNode, b: PersonNode)
    ensures
        similar(a, b) == similar(b, a),
{
}

} // verus!
