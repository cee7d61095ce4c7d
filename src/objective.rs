//! Scoring a solution: size variance plus a penalty of two per co-placed
//! relationship pair. Scores are exact fractions with denominator `g³`.

use crate::error::GroupingError;
use crate::ids::{GroupId, RelationshipPair, StudentId};
use crate::solution::{group_sizes, Solution, SolutionView};
use vstd::prelude::*;

verus! {

/// A pair whose two students share a group, with that group.
#[derive(Clone, Copy, Debug, PartialEq, Eq, Structural)]
pub struct Violation {
    pub relationship_pair: RelationshipPair,
    pub group: GroupId,
}

/// An objective value: `numerator / denominator`.
#[derive(Clone, Copy, Debug, PartialEq, Eq, Structural)]
pub struct Score {
    pub numerator: u128,
    pub denominator: u128,
}

/// Every pair names two students of the solution.
pub open spec fn references_known(sol: SolutionView, rs: Seq<RelationshipPair>) -> bool {
    forall|i: int|
        0 <= i < rs.len() ==> sol.has_student(#[trigger] rs[i].first_student_id) && sol.has_student(
            rs[i].second_student_id,
        )
}

/// Whether the two students of `p` share a group in `sol`.
pub open spec fn co_placed(sol: SolutionView, p: RelationshipPair) -> bool {
    sol.group_of(p.first_student_id) == sol.group_of(p.second_student_id)
}

/// How many pairs of `rs` have both students in one group.
pub open spec fn violation_count(sol: SolutionView, rs: Seq<RelationshipPair>) -> nat
    decreases rs.len(),
{
    if rs.len() == 0 {
        0
    } else {
        violation_count(sol, rs.drop_last()) + if co_placed(sol, rs.last()) {
            1nat
        } else {
            0nat
        }
    }
}

/// The violations of `rs` in `sol`, in the order of `rs`.
pub open spec fn violations_of(sol: SolutionView, rs: Seq<RelationshipPair>) -> Seq<Violation>
    decreases rs.len(),
{
    if rs.len() == 0 {
        Seq::empty()
    } else {
        let rest = violations_of(sol, rs.drop_last());
        if co_placed(sol, rs.last()) {
            rest.push(Violation { relationship_pair: rs.last(), group: sol.group_of(rs.last().first_student_id) })
        } else {
            rest
        }
    }
}

/// `Σ (g·size(j) − n)²` over the groups `j < k`: `g³` times the variance
/// of the occupancy around the mean `n / g`, once `k = g`.
pub open spec fn spread(sol: SolutionView, g: nat, k: nat) -> int
    decreases k,
{
    if k == 0 {
        0
    } else {
        let d = g * sol.size((k - 1) as usize) - sol.students.len();
        spread(sol, g, (k - 1) as nat) + d * d
    }
}

/// The objective times `g³`: `g³ · (variance + 2 · violations)`.
pub open spec fn scaled_objective(sol: SolutionView, g: nat, rs: Seq<RelationshipPair>) -> int {
    spread(sol, g, g) + 2 * g * g * g * violation_count(sol, rs)
}

/// The sizes for which scoring fits in 128 bits.
pub open spec fn objective_fits(num_students: nat, num_groups: nat, num_pairs: nat) -> bool {
    &&& num_groups * num_groups * num_groups <= u128::MAX
    &&& num_groups * num_groups * num_groups * (num_students * num_students + 2 * num_pairs)
        <= u128::MAX
}

/// The violations of `restrictions` in `solution`.
pub fn get_violations(solution: &Solution, restrictions: &[RelationshipPair]) -> (r: Vec<Violation>)
    requires
        solution@.wf(),
        references_known(solution@, restrictions@),
    ensures
        r@ == violations_of(solution@, restrictions@),
{
    let mut found: Vec<Violation> = Vec::new();
    let mut i: usize = 0;
    while i < restrictions.len()
        invariant
            i <= restrictions.len(),
            solution@.wf(),
            references_known(solution@, restrictions@),
            found@ == violations_of(solution@, restrictions@.take(i as int)),
        decreases restrictions.len() - i,
    {
        let pair = restrictions[i];
        assert(restrictions@.take(i + 1).drop_last() =~= restrictions@.take(i as int));
        assert(sol_has_pair(solution@, pair)) by {
            assert(restrictions@[i as int] == pair);
        }
        let a = solution.get(pair.first_student_id);
        let b = solution.get(pair.second_student_id);
        match (a, b) {
            (Some(ga), Some(gb)) => {
                if ga == gb {
                    found.push(Violation { relationship_pair: pair, group: ga });
                }
            },
            _ => {},
        }
        i = i + 1;
    }
    assert(restrictions@.take(i as int) =~= restrictions@);
    found
}

pub open spec fn sol_has_pair(sol: SolutionView, p: RelationshipPair) -> bool {
    sol.has_student(p.first_student_id) && sol.has_student(p.second_student_id)
}

/// Scores `solution`: the population variance of the group sizes around
/// `n / num_groups`, plus two for every pair whose students share a group.
/// Fails when a pair names a student outside the solution.
pub fn objective(solution: &Solution, num_groups: usize, restrictions: &[RelationshipPair]) -> (r:
    Result<Score, GroupingError>)
    requires
        solution@.wf(),
        num_groups > 0,
        solution@.in_range(num_groups as nat),
        objective_fits(solution.students.len() as nat, num_groups as nat, restrictions.len() as nat),
    ensures
        r.is_err() <==> !references_known(solution@, restrictions@),
        r matches Err(e) ==> e == GroupingError::UnknownStudentReference,
        r matches Ok(s) ==> {
            &&& s.denominator == num_groups * num_groups * num_groups
            &&& s.numerator == scaled_objective(solution@, num_groups as nat, restrictions@)
        },
{
    let ghost rs = restrictions@;
    let mut violations: u128 = 0;
    let mut i: usize = 0;
    while i < restrictions.len()
        invariant
            i <= restrictions.len(),
            rs == restrictions@,
            solution@.wf(),
            references_known(solution@, rs.take(i as int)),
            violations == violation_count(solution@, rs.take(i as int)),
            violations <= i,
        decreases restrictions.len() - i,
    {
        let pair = restrictions[i];
        assert(rs.take(i + 1).drop_last() =~= rs.take(i as int));
        let a = solution.get(pair.first_student_id);
        let b = solution.get(pair.second_student_id);
        match (a, b) {
            (Some(ga), Some(gb)) => {
                if ga == gb {
                    violations = violations + 1;
                }
            },
            _ => {
                assert(rs[i as int] == pair);
                return Err(GroupingError::UnknownStudentReference);
            },
        }
        assert forall|j: int| 0 <= j < i + 1 implies sol_has_pair(solution@, #[trigger] rs.take(i + 1)[j]) by {
            if j < i {
                assert(rs.take(i + 1)[j] == rs.take(i as int)[j]);
            }
        }
        i = i + 1;
    }
    assert(rs.take(i as int) =~= rs);
    let n = solution.students.len();
    let sizes = group_sizes(solution, num_groups);
    let ghost g = num_groups as nat;
    let ghost nn = n as nat;
    let gg: u128 = num_groups as u128;
    let total: u128 = n as u128;
    proof {
        assert(g * g * g * (nn * nn + 2 * rs.len()) <= u128::MAX);
        assert(g * g * g * (nn * nn) <= g * g * g * (nn * nn + 2 * rs.len())) by (nonlinear_arith)
            requires
                g >= 1,
        ;
        assert(g <= g * g * g * (nn * nn + 2 * rs.len()) || nn == 0) by (nonlinear_arith)
            requires
                g >= 1,
        ;
        assert(nn <= g * g * g * (nn * nn + 2 * rs.len())) by (nonlinear_arith)
            requires
                g >= 1,
        ;
    }
    let mut acc: u128 = 0;
    let mut k: usize = 0;
    while k < num_groups
        invariant
            k <= num_groups,
            g == num_groups,
            nn == n,
            n == solution.students.len(),
            gg == g,
            total == nn,
            g >= 1,
            g * g * g * (nn * nn) <= u128::MAX,
            sizes.len() == num_groups,
            forall|j: int| 0 <= j < num_groups ==> sizes@[j] == solution@.size(j as usize),
            acc == spread(solution@, g, k as nat),
            acc <= k * (g * g * (nn * nn)),
        decreases num_groups - k,
    {
        let s = sizes[k];
        let ghost ss = s as nat;
        proof {
            solution@.lemma_members_upto_len(k, nn);
            assert(ss <= nn);
            assert(g * ss <= g * nn) by (nonlinear_arith)
                requires
                    ss <= nn,
            ;
            assert(g * nn <= g * g * g * (nn * nn) || nn == 0) by (nonlinear_arith)
                requires
                    g >= 1,
            ;
            assert(g * ss <= u128::MAX) by (nonlinear_arith)
                requires
                    g * ss <= g * nn,
                    g * nn <= g * g * g * (nn * nn) || nn == 0,
                    g * g * g * (nn * nn) <= u128::MAX,
                    ss <= nn,
            ;
        }
        let scaled = gg * (s as u128);
        let d: u128 = if scaled >= total {
            scaled - total
        } else {
            total - scaled
        };
        proof {
            let dd = d as int;
            assert(dd <= g * nn) by (nonlinear_arith)
                requires
                    dd == g * ss - nn || dd == nn - g * ss,
                    0 <= dd,
                    g * ss <= g * nn,
                    g >= 1,
            ;
            assert(dd * dd <= g * g * (nn * nn)) by (nonlinear_arith)
                requires
                    0 <= dd <= g * nn,
            ;
            assert(k * (g * g * (nn * nn)) + g * g * (nn * nn) <= g * g * g * (nn * nn))
                by (nonlinear_arith)
                requires
                    k + 1 <= g,
            ;
            assert(dd * dd == (g * ss - nn) * (g * ss - nn)) by (nonlinear_arith)
                requires
                    dd == g * ss - nn || dd == nn - g * ss,
            ;
        }
        acc = acc + d * d;
        k = k + 1;
        proof {
            assert((k - 1) as nat + 1 == k);
            assert(k * (g * g * (nn * nn)) == (k - 1) * (g * g * (nn * nn)) + g * g * (nn * nn))
                by (nonlinear_arith);
        }
    }
    proof {
        assert(g * g * g * (nn * nn) + g * g * g * (2 * rs.len()) <= u128::MAX) by (nonlinear_arith)
            requires
                g * g * g * (nn * nn + 2 * rs.len()) <= u128::MAX,
        ;
        assert(violations <= rs.len());
        assert(g * g * g * (2 * violations) <= g * g * g * (2 * rs.len())) by (nonlinear_arith)
            requires
                violations <= rs.len(),
        ;
        assert(g * g <= g * g * g) by (nonlinear_arith)
            requires
                g >= 1,
        ;
    }
    let cube: u128 = gg * gg * gg;
    let penalty: u128 = cube * (2 * violations);
    proof {
        assert(k * (g * g * (nn * nn)) == g * g * g * (nn * nn)) by (nonlinear_arith)
            requires
                k == g,
        ;
        let v = violations as int;
        assert(penalty == 2 * g * g * g * v) by (nonlinear_arith)
            requires
                penalty == cube * (2 * v),
                cube == g * g * g,
        ;
    }
    Ok(Score { numerator: acc + penalty, denominator: cube })
}

/// One more pair whose students share a group raises the objective by
/// exactly two: its numerator by `2 g³` over the denominator `g³`.
pub proof fn lemma_violated_pair_adds_two(
    sol: SolutionView,
    g: nat,
    rs: Seq<RelationshipPair>,
    p: RelationshipPair,
)
    requires
        co_placed(sol, p),
    ensures
        scaled_objective(sol, g, rs.push(p)) == scaled_objective(sol, g, rs) + 2 * g * g * g,
{
    assert(rs.push(p).drop_last() =~= rs);
    assert(violation_count(sol, rs.push(p)) == violation_count(sol, rs) + 1);
    assert(2 * g * g * g * (violation_count(sol, rs) + 1) == 2 * g * g * g * violation_count(sol, rs)
        + 2 * g * g * g) by (nonlinear_arith);
}

/// `a` and `b` place the same students, each in the same group, whatever
/// the order of their entries.
pub open spec fn same_assignment(a: SolutionView, b: SolutionView) -> bool {
    &&& forall|s: StudentId| a.has_student(s) <==> b.has_student(s)
    &&& forall|s: StudentId| a.has_student(s) ==> a.group_of(s) == b.group_of(s)
}

/// Membership in group `k` reads only the assignment of the students.
proof fn lemma_members_set(a: SolutionView, k: usize, s: StudentId)
    requires
        a.wf(),
    ensures
        a.members(k).contains(s) <==> a.has_student(s) && a.group_of(s) == GroupId(k),
{
    a.lemma_members_upto_contains(k, a.students.len() as nat, s);
    if a.has_student(s) {
        let i = choose|i: int| 0 <= i < a.students.len() && a.students[i] == s;
        a.lemma_group_of(i);
    }
    if a.members(k).contains(s) {
        let i = choose|i: int|
            0 <= i < a.students.len() && a.students[i] == s && a.groups[i] == GroupId(k);
        a.lemma_group_of(i);
    }
}

proof fn lemma_same_sizes(a: SolutionView, b: SolutionView, k: usize)
    requires
        a.wf(),
        b.wf(),
        same_assignment(a, b),
    ensures
        a.size(k) == b.size(k),
{
    assert forall|s: StudentId| a.members(k).to_set().contains(s) <==> b.members(k).to_set().contains(s) by {
        lemma_members_set(a, k, s);
        lemma_members_set(b, k, s);
    }
    assert(a.members(k).to_set() =~= b.members(k).to_set());
    a.lemma_members_upto_distinct(k, a.students.len() as nat);
    b.lemma_members_upto_distinct(k, b.students.len() as nat);
    a.members(k).unique_seq_to_set();
    b.members(k).unique_seq_to_set();
}

proof fn lemma_same_spread(a: SolutionView, b: SolutionView, g: nat, k: nat)
    requires
        a.wf(),
        b.wf(),
        same_assignment(a, b),
        a.students.len() == b.students.len(),
    ensures
        spread(a, g, k) == spread(b, g, k),
    decreases k,
{
    if k > 0 {
        lemma_same_spread(a, b, g, (k - 1) as nat);
        lemma_same_sizes(a, b, (k - 1) as usize);
    }
}

proof fn lemma_same_violations(a: SolutionView, b: SolutionView, rs: Seq<RelationshipPair>)
    requires
        same_assignment(a, b),
        references_known(a, rs),
    ensures
        violation_count(a, rs) == violation_count(b, rs),
    decreases rs.len(),
{
    if rs.len() > 0 {
        let t = rs.drop_last();
        assert forall|i: int| 0 <= i < t.len() implies a.has_student(#[trigger] t[i].first_student_id)
            && a.has_student(t[i].second_student_id) by {
            assert(t[i] == rs[i]);
        }
        lemma_same_violations(a, b, t);
        assert(a.has_student(rs[rs.len() - 1].first_student_id));
        assert(a.has_student(rs[rs.len() - 1].second_student_id));
    }
}

/// The objective does not depend on the order in which a solution lists
/// its students: two solutions that assign every student alike score the
/// same.
pub proof fn lemma_objective_ignores_order(
    a: SolutionView,
    b: SolutionView,
    g: nat,
    rs: Seq<RelationshipPair>,
)
    requires
        a.wf(),
        b.wf(),
        same_assignment(a, b),
        references_known(a, rs),
    ensures
        scaled_objective(a, g, rs) == scaled_objective(b, g, rs),
{
    assert forall|s: StudentId| a.students.to_set().contains(s) <==> b.students.to_set().contains(s) by {
        assert(a.has_student(s) <==> b.has_student(s));
    }
    assert(a.students.to_set() =~= b.students.to_set());
    a.students.unique_seq_to_set();
    b.students.unique_seq_to_set();
    lemma_same_spread(a, b, g, g);
    lemma_same_violations(a, b, rs);
}

} // verus!
