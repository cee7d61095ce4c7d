//! The simulated-annealing engine.

use crate::error::GroupingError;
use crate::ids::{GroupId, RelationshipPair, StudentId};
use crate::moves::make_move;
use crate::objective::{
    get_violations, objective, objective_fits, scaled_objective, violations_of, Score, Violation,
};
use crate::random::{draw_below, draw_index};
use crate::solution::{create_group_list, Solution, SolutionView};
use crate::temperature::{change_temp, Temperature};
use rand::rngs::StdRng;
use vstd::prelude::*;

verus! {

/// Temperatures passed to the engine are counted in thousandths of a unit of
/// the objective.
pub const TEMPERATURE_SCALE: u128 = 1000;

/// The largest term of the series drawn in `chance_below_one`; the terms
/// after it carry less than `1 / 64!` of the probability.
pub const SERIES_LIMIT: u128 = 64;

/// The outcome of a run: the best solution found, listed group by group, the
/// pairs it leaves together, and its score.
#[derive(Clone, Debug)]
pub struct AnnealingResult {
    pub groups: Vec<Vec<StudentId>>,
    pub violations: Vec<Violation>,
    pub objective: Score,
}

/// Every pair names two students of `students`.
pub open spec fn pairs_known(students: Seq<StudentId>, rs: Seq<RelationshipPair>) -> bool {
    forall|i: int|
        0 <= i < rs.len() ==> students.contains(#[trigger] rs[i].first_student_id)
            && students.contains(rs[i].second_student_id)
}

/// `sol` places exactly the students of `students` in groups `0..g`.
pub open spec fn assigns(sol: SolutionView, students: Seq<StudentId>, g: nat) -> bool {
    &&& sol.wf()
    &&& sol.in_range(g)
    &&& forall|s: StudentId| sol.has_student(s) <==> students.contains(s)
}

/// `res` describes `best`: its groups, its violations and its score.
pub open spec fn reports(
    res: AnnealingResult,
    found: SolutionView,
    g: nat,
    rs: Seq<RelationshipPair>,
) -> bool {
    &&& res.groups.len() == g
    &&& forall|k: int| 0 <= k < g ==> (#[trigger] res.groups@[k])@ == found.members(k as usize)
    &&& res.violations@ == violations_of(found, rs)
    &&& res.objective.denominator == g * g * g
    &&& res.objective.numerator == scaled_objective(found, g, rs)
}

/// Draws `true` with probability `exp(-p / q)`, for `p <= q`: counts how
/// many of the draws `Bernoulli(p / (q k))`, `k = 1, 2, ...`, succeed in a
/// row and answers whether the first failure came at an odd `k`. The series
/// stops at `k = SERIES_LIMIT`, or earlier where `q k` exceeds 128 bits.
fn chance_below_one(rng: &mut StdRng, p: u128, q: u128) -> (r: bool)
    requires
        q > 0,
        p <= q,
    ensures
        p == 0 ==> r,
{
    let mut k: u128 = 1;
    while k <= SERIES_LIMIT
        invariant
            1 <= k <= SERIES_LIMIT + 1,
            q > 0,
            p == 0 ==> k == 1,
        decreases SERIES_LIMIT + 1 - k,
    {
        match q.checked_mul(k) {
            Some(range) => {
                assert(range > 0) by (nonlinear_arith)
                    requires
                        range == q * k,
                        q > 0,
                        k >= 1,
                ;
                let u = draw_below(rng, range);
                if u >= p {
                    return k % 2 == 1;
                }
            },
            None => {
                return k % 2 == 1;
            },
        }
        k = k + 1;
    }
    k % 2 == 1
}

/// Draws `true` with probability `exp(-p / q)`: one draw of `exp(-1)` for
/// each whole unit of `p / q`, and one for the remainder.
fn chance_of_exp(rng: &mut StdRng, p: u128, q: u128) -> (r: bool)
    requires
        q > 0,
    ensures
        p == 0 ==> r,
{
    let whole = p / q;
    let part = p % q;
    let mut i: u128 = 0;
    while i < whole
        invariant
            i <= whole,
            q > 0,
            whole == p / q,
            part == p % q,
        decreases whole - i,
    {
        if !chance_below_one(rng, q, q) {
            return false;
        }
        i = i + 1;
    }
    proof {
        if p == 0 {
            assert(part == 0) by (nonlinear_arith)
                requires
                    part == p % q,
                    p == 0,
                    q > 0,
            ;
        }
    }
    chance_below_one(rng, part, q)
}

/// Whether a candidate `gap / cube` worse than the best is taken anyway, at
/// temperature `temp` (in thousandths): with probability
/// `exp(-(gap / cube) / temp)`. A temperature below zero takes every
/// candidate and a zero temperature none. Where the terms of the exponent do
/// not fit in 128 bits, a candidate that is worse is refused.
fn accept_worse(rng: &mut StdRng, gap: u128, cube: u128, temp: Temperature) -> (r: bool)
    requires
        cube > 0,
        temp.denominator > 0,
    ensures
        temp.numerator < 0 ==> r,
        temp.numerator == 0 ==> !r,
        temp.numerator > 0 && gap == 0 ==> r,
{
    if temp.numerator < 0 {
        return true;
    }
    if temp.numerator == 0 {
        return false;
    }
    if gap == 0 {
        return true;
    }
    let steps = temp.denominator as u128;
    let p = match steps.checked_mul(TEMPERATURE_SCALE) {
        Some(s) => gap.checked_mul(s),
        None => None,
    };
    let q = cube.checked_mul(temp.numerator as u128);
    match (p, q) {
        (Some(p), Some(q)) => {
            assert(q > 0) by (nonlinear_arith)
                requires
                    q == cube * (temp.numerator as u128),
                    cube > 0,
                    temp.numerator > 0,
            ;
            chance_of_exp(rng, p, q)
        },
        _ => false,
    }
}

/// Scoring fits for fewer students when it fits for more.
pub proof fn lemma_objective_fits_fewer(n1: nat, n2: nat, g: nat, m: nat)
    requires
        n1 <= n2,
        objective_fits(n2, g, m),
    ensures
        objective_fits(n1, g, m),
{
    assert(g * g * g * (n1 * n1 + 2 * m) <= g * g * g * (n2 * n2 + 2 * m)) by (nonlinear_arith)
        requires
            n1 <= n2,
    ;
}

/// Each student in a uniformly random group of `0..num_groups`; a repeated
/// student keeps its last draw.
fn random_assignment(students: &Vec<StudentId>, num_groups: usize, rng: &mut StdRng) -> (r:
    Solution)
    requires
        num_groups > 0,
    ensures
        assigns(r@, students@, num_groups as nat),
        r.students.len() <= students.len(),
{
    let mut solution = Solution::new();
    let mut i: usize = 0;
    while i < students.len()
        invariant
            i <= students.len(),
            num_groups > 0,
            solution@.wf(),
            solution@.in_range(num_groups as nat),
            solution.students.len() <= i,
            forall|s: StudentId| solution@.has_student(s) <==> students@.take(i as int).contains(s),
        decreases students.len() - i,
    {
        let s = students[i];
        let g = draw_index(rng, num_groups);
        let ghost before = solution;
        solution.insert(s, GroupId(g));
        proof {
            let prefix = students@.take(i + 1);
            assert(prefix =~= students@.take(i as int).push(s));
            if before@.has_student(s) {
                assert(solution@.students == before@.students);
                assert(students@.take(i as int).contains(s));
            } else {
                assert(solution@.students == before@.students.push(s));
            }
            assert forall|t: StudentId| solution@.has_student(t) <==> prefix.contains(t) by {
                vstd::seq_lib::lemma_seq_contains_after_push(students@.take(i as int), s, t);
                vstd::seq_lib::lemma_seq_contains_after_push(before.students@, s, t);
                assert(before@.has_student(t) <==> students@.take(i as int).contains(t));
                assert(prefix.contains(t) <==> students@.take(i as int).push(s).contains(t));
                if !before@.has_student(s) {
                    assert(solution@.has_student(t) <==> before.students@.push(s).contains(t));
                }
            }
            assert forall|j: int| 0 <= j < solution.groups.len() implies (
            #[trigger] solution.groups@[j]).0 < num_groups by {
                if j < before.groups.len() && solution.groups@[j] != GroupId(g) {
                    assert(solution.groups@[j] == before.groups@[j]);
                }
            }
        }
        i = i + 1;
    }
    assert(students@.take(i as int) =~= students@);
    solution
}

/// One acceptance decision. The candidate becomes the current solution when
/// its score is below the best score seen so far, or when `accepted` (the
/// outcome of the chance draw for a candidate that is not better); it
/// becomes the best solution only when it is better. Both scores share one
/// denominator, so they compare by their numerators.
pub fn annealing_step(
    solution: Solution,
    best: Solution,
    best_score: Score,
    candidate: Solution,
    candidate_score: Score,
    accepted: bool,
) -> (r: (Solution, Solution, Score))
    requires
        candidate_score.denominator == best_score.denominator,
    ensures
        candidate_score.numerator < best_score.numerator || accepted ==> r.0@ == candidate@,
        !(candidate_score.numerator < best_score.numerator || accepted) ==> r.0@ == solution@,
        candidate_score.numerator < best_score.numerator ==> r.1@ == candidate@ && r.2
            == candidate_score,
        !(candidate_score.numerator < best_score.numerator) ==> r.1@ == best@ && r.2 == best_score,
{
    if candidate_score.numerator < best_score.numerator {
        let new_best = candidate.duplicate();
        (candidate, new_best, candidate_score)
    } else if accepted {
        (candidate, best, best_score)
    } else {
        (solution, best, best_score)
    }
}

/// Runs `steps` rounds of simulated annealing on `students` in
/// `num_groups` groups, the temperature falling linearly from `max_temp` to
/// `min_temp` (both in thousandths). A candidate better than the best so far
/// is always taken; a worse one with probability
/// `exp((best - candidate) / temperature)`, measured against the best score,
/// not the current one.
pub fn simulated_annealing(
    students: Vec<StudentId>,
    num_groups: usize,
    restrictions: &[RelationshipPair],
    max_temp: i64,
    min_temp: i64,
    steps: i32,
    rng: &mut StdRng,
) -> (r: Result<AnnealingResult, GroupingError>)
    requires
        objective_fits(students.len() as nat, num_groups as nat, restrictions.len() as nat),
    ensures
        num_groups == 0 ==> r == Err::<AnnealingResult, GroupingError>(
            GroupingError::InvalidGroupCount,
        ),
        num_groups > 0 ==> (r.is_err() <==> !pairs_known(students@, restrictions@)),
        num_groups > 0 && r.is_err() ==> r == Err::<AnnealingResult, GroupingError>(
            GroupingError::UnknownStudentReference,
        ),
        r matches Ok(res) ==> exists|best: SolutionView|
            assigns(best, students@, num_groups as nat) && reports(
                res,
                best,
                num_groups as nat,
                restrictions@,
            ),
{
    if num_groups == 0 {
        return Err(GroupingError::InvalidGroupCount);
    }
    let ghost g = num_groups as nat;
    let ghost rs = restrictions@;
    let mut solution = random_assignment(&students, num_groups, rng);
    proof {
        lemma_objective_fits_fewer(solution.students.len() as nat, students.len() as nat, g, rs.len());
        assert(crate::objective::references_known(solution@, rs) <==> pairs_known(students@, rs));
    }
    let mut best_score = match objective(&solution, num_groups, restrictions) {
        Ok(s) => s,
        Err(e) => {
            return Err(e);
        },
    };
    let ghost start = solution.students@;
    let mut best = solution.duplicate();
    let mut step: i32 = 0;
    while step < steps
        invariant
            0 <= step,
            num_groups > 0,
            g == num_groups,
            rs == restrictions@,
            pairs_known(students@, rs),
            assigns(solution@, students@, g),
            assigns(best@, students@, g),
            solution.students@ == start,
            best.students@ == start,
            objective_fits(start.len() as nat, g, rs.len()),
            best_score.denominator == g * g * g,
            best_score.numerator == scaled_objective(best@, g, rs),
        decreases steps - step,
    {
        let temp = match change_temp(max_temp, min_temp, steps, step) {
            Ok(t) => t,
            Err(e) => {
                return Err(e);
            },
        };
        let candidate = match make_move(&solution, num_groups, rng) {
            Ok(c) => c,
            Err(e) => {
                return Err(e);
            },
        };
        proof {
            assert forall|j: int| 0 <= j < rs.len() implies candidate@.has_student(
                #[trigger] rs[j].first_student_id,
            ) && candidate@.has_student(rs[j].second_student_id) by {
                assert(solution@.has_student(rs[j].first_student_id));
                assert(solution@.has_student(rs[j].second_student_id));
            }
        }
        let score = match objective(&candidate, num_groups, restrictions) {
            Ok(s) => s,
            Err(e) => {
                return Err(e);
            },
        };
        let better = score.numerator < best_score.numerator;
        assert(best_score.denominator > 0) by (nonlinear_arith)
            requires
                best_score.denominator == g * g * g,
                g >= 1,
        ;
        let accepted = if better {
            false
        } else {
            accept_worse(rng, score.numerator - best_score.numerator, best_score.denominator, temp)
        };
        let (next, next_best, next_score) = annealing_step(
            solution,
            best,
            best_score,
            candidate,
            score,
            accepted,
        );
        solution = next;
        best = next_best;
        best_score = next_score;
        step = step + 1;
    }
    let groups = create_group_list(&best, num_groups);
    let violations = get_violations(&best, restrictions);
    let result = AnnealingResult { groups, violations, objective: best_score };
    assert(reports(result, best@, g, rs));
    Ok(result)
}

} // verus!
