//! Condition counts per (income bracket, food-security bracket) cohort.
use crate::graph::PersonNode;
use crate::similarity::UNKNOWN_CODE;
use vstd::prelude::*;

verus! {

/// One cohort: its key, how many records it holds, and how many of them
/// have each of the three conditions.
#[derive(Debug, Clone, Copy, PartialEq, Eq, Structural)]
pub struct CohortSummary {
    pub income: u8,
    pub food_security: u8,
    pub size: usize,
    pub high_bp: usize,
    pub high_cholesterol: usize,
    pub diabetic: usize,
}

/// Which records a count takes in.
pub enum Condition {
    Any,
    HighBp,
    HighCholesterol,
    Diabetic,
}

pub open spec fn has_condition(p: PersonNode, c: Condition) -> bool {
    match c {
        Condition::Any => true,
        Condition::HighBp => p.high_bp,
        Condition::HighCholesterol => p.high_cholesterol,
        Condition::Diabetic => p.diabetic,
    }
}

/// A record belongs to cohort `(income, food)` when both brackets are known and match.
pub open spec fn in_cohort(p: PersonNode, income: u8, food: u8) -> bool {
    p.total_income != UNKNOWN_CODE && p.food_security != UNKNOWN_CODE && p.total_income == income
        && p.food_security == food
}

/// How many records of `s` are in the cohort and have the condition.
pub open spec fn cohort_count(s: Seq<PersonNode>, income: u8, food: u8, c: Condition) -> nat
    decreases s.len(),
{
    if s.len() == 0 {
        0
    } else {
        cohort_count(s.drop_last(), income, food, c) + if in_cohort(s.last(), income, food)
            && has_condition(s.last(), c) {
            1nat
        } else {
            0nat
        }
    }
}

/// `c` describes the cohort `(c.income, c.food_security)` of `s` exactly.
pub open spec fn summarises(c: CohortSummary, s: Seq<PersonNode>) -> bool {
    &&& c.income != UNKNOWN_CODE
    &&& c.food_security != UNKNOWN_CODE
    &&& c.size == cohort_count(s, c.income, c.food_security, Condition::Any)
    &&& c.high_bp == cohort_count(s, c.income, c.food_security, Condition::HighBp)
    &&& c.high_cholesterol == cohort_count(s, c.income, c.food_security, Condition::HighCholesterol)
    &&& c.diabetic == cohort_count(s, c.income, c.food_security, Condition::Diabetic)
}

/// Groups the records by (income, food security), leaving out those with
/// an unknown bracket. There is one summary per non-empty cohort, in the
/// order in which each cohort first appears.
pub fn group_by_income_and_food_security(people: &Vec<PersonNode>) -> (r: Vec<CohortSummary>)
    ensures
        forall|k: int| 0 <= k < r@.len() ==> summarises(#[trigger] r@[k], people@) && r@[k].size > 0,
        forall|k1: int, k2: int|
            0 <= k1 < k2 < r@.len() ==> (r@[k1].income, r@[k1].food_security) != (
            r@[k2].income,
            r@[k2].food_security,
        ),
        forall|income: u8, food: u8|
            #[trigger] cohort_count(people@, income, food, Condition::Any) > 0 ==> exists|k: int|
                0 <= k < r@.len() && r@[k].income == income && r@[k].food_security == food,
{
    let mut r: Vec<CohortSummary> = Vec::new();
    let mut i: usize = 0;
    while i < people.len()
        invariant
            i <= people@.len(),
            forall|k: int|
                0 <= k < r@.len() ==> summarises(#[trigger] r@[k], people@.take(i as int))
                    && r@[k].size > 0 && r@[k].size <= i,
            forall|k1: int, k2: int|
                0 <= k1 < k2 < r@.len() ==> (r@[k1].income, r@[k1].food_security) != (
                r@[k2].income,
                r@[k2].food_security,
            ),
            forall|income: u8, food: u8|
                #[trigger] cohort_count(people@.take(i as int), income, food, Condition::Any) > 0
                    ==> exists|k: int|
                    0 <= k < r@.len() && r@[k].income == income && r@[k].food_security == food,
        decreases people@.len() - i,
    {
        let p = people[i];
        let ghost before = people@.take(i as int);
        let ghost after = people@.take(i + 1);
        proof {
            assert(after.drop_last() =~= before);
            assert(after.last() == p);
        }
        if p.total_income != UNKNOWN_CODE && p.food_security != UNKNOWN_CODE {
            let mut k: usize = 0;
            while k < r.len() && !(r[k].income == p.total_income && r[k].food_security
                == p.food_security)
                invariant
                    k <= r@.len(),
                    forall|j: int|
                        0 <= j < k ==> !(r@[j].income == p.total_income && r@[j].food_security
                            == p.food_security),
                decreases r@.len() - k,
            {
                k = k + 1;
            }
            let ghost r0 = r@;
            if k < r.len() {
                let old_c = r[k];
                proof {
                    assert(summarises(old_c, before));
                    assert(old_c.high_bp <= old_c.size) by {
                        lemma_condition_le_any(before, old_c.income, old_c.food_security, Condition::HighBp);
                    }
                    assert(old_c.high_cholesterol <= old_c.size) by {
                        lemma_condition_le_any(before, old_c.income, old_c.food_security, Condition::HighCholesterol);
                    }
                    assert(old_c.diabetic <= old_c.size) by {
                        lemma_condition_le_any(before, old_c.income, old_c.food_security, Condition::Diabetic);
                    }
                }
                let c = CohortSummary {
                    income: old_c.income,
                    food_security: old_c.food_security,
                    size: old_c.size + 1,
                    high_bp: old_c.high_bp + if p.high_bp { 1 } else { 0 },
                    high_cholesterol: old_c.high_cholesterol + if p.high_cholesterol { 1 } else { 0 },
                    diabetic: old_c.diabetic + if p.diabetic { 1 } else { 0 },
                };
                r.set(k, c);
                proof {
                    assert(in_cohort(p, c.income, c.food_security));
                    assert(summarises(r@[k as int], after));
                }
            } else {
                let c = CohortSummary {
                    income: p.total_income,
                    food_security: p.food_security,
                    size: 1,
                    high_bp: if p.high_bp { 1 } else { 0 },
                    high_cholesterol: if p.high_cholesterol { 1 } else { 0 },
                    diabetic: if p.diabetic { 1 } else { 0 },
                };
                proof {
                    lemma_absent_cohort(before, p.total_income, p.food_security);
                }
                r.push(c);
                proof {
                    assert(in_cohort(p, c.income, c.food_security));
                    assert(summarises(r@[k as int], after));
                }
            }
            proof {
                assert forall|j: int| 0 <= j < r@.len() implies summarises(#[trigger] r@[j], after)
                    && r@[j].size > 0 && r@[j].size <= i + 1 by {
                    if j < r0.len() && j != k {
                        assert(r@[j] == r0[j]);
                        assert(summarises(r0[j], before));
                        if j > k {
                            assert((r0[k as int].income, r0[k as int].food_security) != (r0[j].income,
                                r0[j].food_security));
                        }
                        assert(!in_cohort(p, r0[j].income, r0[j].food_security));
                    }
                }
                assert forall|income: u8, food: u8|
                    #[trigger] cohort_count(after, income, food, Condition::Any) > 0 implies exists|
                    j: int,
                | 0 <= j < r@.len() && r@[j].income == income && r@[j].food_security == food by {
                    if income == p.total_income && food == p.food_security {
                        assert(r@[k as int].income == income);
                    } else {
                        assert(cohort_count(before, income, food, Condition::Any) > 0);
                        let j = choose|j: int|
                            0 <= j < r0.len() && r0[j].income == income && r0[j].food_security == food;
                        assert(r@[j] == r0[j]);
                    }
                }
            }
        } else {
            proof {
                assert forall|j: int| 0 <= j < r@.len() implies summarises(#[trigger] r@[j], after)
                    && r@[j].size > 0 && r@[j].size <= i + 1 by {
                    assert(summarises(r@[j], before));
                }
                assert forall|income: u8, food: u8|
                    #[trigger] cohort_count(after, income, food, Condition::Any) > 0 implies exists|
                    j: int,
                | 0 <= j < r@.len() && r@[j].income == income && r@[j].food_security == food by {
                    assert(cohort_count(before, income, food, Condition::Any) > 0);
                }
            }
        }
        i = i + 1;
    }
    proof {
        assert(people@.take(people@.len() as int) =~= people@);
    }
    r
}

proof fn lemma_condition_le_any(s: Seq<PersonNode>, income: u8, food: u8, c: Condition)
    ensures
        cohort_count(s, income, food, c) <= cohort_count(s, income, food, Condition::Any),
    decreases s.len(),
{
    if s.len() > 0 {
        lemma_condition_le_any(s.drop_last(), income, food, c);
    }
}

proof fn lemma_absent_cohort(s: Seq<PersonNode>, income: u8, food: u8)
    requires
        cohort_count(s, income, food, Condition::Any) == 0,
    ensures
        cohort_count(s, income, food, Condition::HighBp) == 0,
        cohort_count(s, income, food, Condition::HighCholesterol) == 0,
        cohort_count(s, income, food, Condition::Diabetic) == 0,
{
    lemma_condition_le_any(s, income, food, Condition::HighBp);
    lemma_condition_le_any(s, income, food, Condition::HighCholesterol);
    lemma_condition_le_any(s, income, food, Condition::Diabetic);
}

} // verus!
