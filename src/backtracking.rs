//! The exact solver: depth-first search over the students in input order,
//! each tried in the groups `0, 1, ...` that still have room under the quota
//! and hold none of its partners.

use crate::ids::{RelationshipPair, StudentId};
use crate::random::draw_index;
use rand::rngs::StdRng;
use vstd::prelude::*;

verus! {

/// The room of group `j` when `n` students fill `g` groups: `n / g`, plus one
/// for each of the first `n % g` groups.
pub open spec fn capacity(j: int, n: int, g: int) -> int {
    n / g + if j < n % g {
        1int
    } else {
        0int
    }
}

/// Some pair of `cs` joins `s` with a member of `group`.
pub open spec fn clashes(s: StudentId, group: Seq<StudentId>, cs: Seq<RelationshipPair>) -> bool {
    exists|c: int, m: int|
        0 <= c < cs.len() && 0 <= m < group.len() && (#[trigger] cs[c]).links(s, #[trigger] group[m])
}

/// No pair of `cs` joins two members of `group`.
pub open spec fn clash_free(group: Seq<StudentId>, cs: Seq<RelationshipPair>) -> bool {
    forall|q: int| 0 <= q < group.len() ==> !clashes(#[trigger] group[q], group.take(q), cs)
}

/// Some pair of `cs` has both students in one of `groups`.
pub open spec fn any_violation(groups: Seq<Vec<StudentId>>, cs: Seq<RelationshipPair>) -> bool {
    exists|c: int, j: int|
        0 <= c < cs.len() && 0 <= j < groups.len() && groups[j]@.contains(
            (#[trigger] cs[c]).first_student_id,
        ) && (#[trigger] groups[j])@.contains(cs[c].second_student_id)
}

pub proof fn lemma_clash_free_push(group: Seq<StudentId>, s: StudentId, cs: Seq<RelationshipPair>)
    requires
        clash_free(group, cs),
        !clashes(s, group, cs),
    ensures
        clash_free(group.push(s), cs),
{
    let g2 = group.push(s);
    assert forall|q: int| 0 <= q < g2.len() implies !clashes(#[trigger] g2[q], g2.take(q), cs) by {
        if q < group.len() {
            assert(g2.take(q) =~= group.take(q));
            assert(g2[q] == group[q]);
        } else {
            assert(g2.take(q) =~= group);
        }
    }
}

/// Whether `v` holds `s`.
fn holds(v: &Vec<StudentId>, s: StudentId) -> (r: bool)
    ensures
        r == v@.contains(s),
{
    let mut i: usize = 0;
    while i < v.len()
        invariant
            i <= v.len(),
            forall|j: int| 0 <= j < i ==> v@[j] != s,
        decreases v.len() - i,
    {
        if v[i] == s {
            return true;
        }
        i = i + 1;
    }
    false
}

/// Whether `student` may join `groups[group]`: the group is below
/// `students_per_group` and holds none of the student's partners.
fn is_valid_assignment(
    student: StudentId,
    group: usize,
    constraints: &[RelationshipPair],
    groups: &Vec<Vec<StudentId>>,
    students_per_group: usize,
) -> (r: bool)
    requires
        group < groups.len(),
    ensures
        r == (groups@[group as int].len() < students_per_group && !clashes(
            student,
            groups@[group as int]@,
            constraints@,
        )),
{
    let members = &groups[group];
    if members.len() >= students_per_group {
        return false;
    }
    let mut i: usize = 0;
    while i < constraints.len()
        invariant
            i <= constraints.len(),
            members@ == groups@[group as int]@,
            forall|c: int, m: int|
                0 <= c < i && 0 <= m < members@.len() ==> !(#[trigger] constraints@[c]).links(
                    student,
                    #[trigger] members@[m],
                ),
        decreases constraints.len() - i,
    {
        let constraint = constraints[i];
        let first = constraint.first_student_id;
        let second = constraint.second_student_id;
        if student == first && holds(members, second) {
            proof {
                let m = choose|m: int| 0 <= m < members@.len() && members@[m] == second;
                assert(constraints@[i as int].links(student, members@[m]));
            }
            return false;
        }
        if student == second && holds(members, first) {
            proof {
                let m = choose|m: int| 0 <= m < members@.len() && members@[m] == first;
                assert(constraints@[i as int].links(student, members@[m]));
            }
            return false;
        }
        i = i + 1;
    }
    true
}

/// `after` is `before` with, possibly, more students placed after the
/// existing ones, every new one taken from `incoming`, none beyond its
/// group's capacity, and no new pair of `cs` brought together.
pub open spec fn extends(
    before: Seq<Vec<StudentId>>,
    after: Seq<Vec<StudentId>>,
    incoming: Seq<StudentId>,
    cs: Seq<RelationshipPair>,
    n: int,
) -> bool {
    let g = before.len() as int;
    &&& after.len() == g
    &&& forall|j: int|
        0 <= j < g ==> (#[trigger] after[j])@.len() >= before[j]@.len() && after[j]@.take(
            before[j]@.len() as int,
        ) == before[j]@
    &&& forall|j: int|
        0 <= j < g && (#[trigger] after[j])@.len() > before[j]@.len() ==> after[j]@.len()
            <= capacity(j, n, g)
    &&& forall|j: int, p: int|
        0 <= j < g && before[j]@.len() <= p < after[j]@.len() ==> incoming.contains(
            #[trigger] after[j]@[p],
        )
    &&& forall|j: int|
        0 <= j < g && clash_free(before[j]@, cs) ==> clash_free((#[trigger] after[j])@, cs)
}

/// The contents of each group.
pub open spec fn contents(groups: Seq<Vec<StudentId>>) -> Seq<Seq<StudentId>> {
    groups.map_values(|v: Vec<StudentId>| v@)
}

/// `assign` places the students of `rest`, in order, into `groups`: each
/// joins a group that is below its capacity and holds none of its partners
/// at that moment. Group `j` holds at most `capacity(j, n, g)` students.
pub open spec fn completes(
    groups: Seq<Seq<StudentId>>,
    rest: Seq<StudentId>,
    assign: Seq<int>,
    cs: Seq<RelationshipPair>,
    n: int,
) -> bool
    decreases rest.len(),
{
    if rest.len() == 0 {
        assign.len() == 0
    } else {
        let j = assign[0];
        &&& assign.len() == rest.len()
        &&& 0 <= j < groups.len()
        &&& groups[j].len() < capacity(j, n, groups.len() as int)
        &&& !clashes(rest[0], groups[j], cs)
        &&& completes(
            groups.update(j, groups[j].push(rest[0])),
            rest.drop_first(),
            assign.drop_first(),
            cs,
            n,
        )
    }
}

/// Whether `s` may join group `j`: the group is below its capacity and
/// holds none of the partners of `s`.
pub open spec fn admits(
    groups: Seq<Seq<StudentId>>,
    j: int,
    s: StudentId,
    cs: Seq<RelationshipPair>,
    n: int,
) -> bool {
    groups[j].len() < capacity(j, n, groups.len() as int) && !clashes(s, groups[j], cs)
}

/// The groups that the depth-first search ends with, trying group `j` and
/// the later ones for the first student of `rest`: the first group, in
/// index order, that admits the student and from which the remaining
/// students can all be placed, the later students being placed the same
/// way. `None` when no group from `j` on leads to a full placement.
pub open spec fn search_from(
    groups: Seq<Seq<StudentId>>,
    rest: Seq<StudentId>,
    cs: Seq<RelationshipPair>,
    n: int,
    j: int,
) -> Option<Seq<Seq<StudentId>>>
    decreases rest.len(), groups.len() - j,
{
    if rest.len() == 0 {
        Some(groups)
    } else if j < 0 || j >= groups.len() {
        None
    } else if admits(groups, j, rest[0], cs, n) && search_from(
        groups.update(j, groups[j].push(rest[0])),
        rest.drop_first(),
        cs,
        n,
        0,
    ).is_some() {
        search_from(groups.update(j, groups[j].push(rest[0])), rest.drop_first(), cs, n, 0)
    } else {
        search_from(groups, rest, cs, n, j + 1)
    }
}

/// The students that `after` holds beyond `before` in the groups `0..k`,
/// group by group.
pub open spec fn added(before: Seq<Seq<StudentId>>, after: Seq<Seq<StudentId>>, k: int) -> Seq<
    StudentId,
>
    decreases k,
{
    if k <= 0 {
        Seq::empty()
    } else {
        added(before, after, k - 1) + after[k - 1].subrange(
            before[k - 1].len() as int,
            after[k - 1].len() as int,
        )
    }
}

proof fn lemma_added_nothing(groups: Seq<Seq<StudentId>>, k: int)
    requires
        k <= groups.len(),
    ensures
        added(groups, groups, k) =~= Seq::<StudentId>::empty(),
    decreases k,
{
    if k > 0 {
        lemma_added_nothing(groups, k - 1);
        assert(groups[k - 1].subrange(groups[k - 1].len() as int, groups[k - 1].len() as int)
            =~= Seq::<StudentId>::empty());
    }
}

/// Placing `s` first in group `j` inserts it once among the added students.
proof fn lemma_added_push(
    before: Seq<Seq<StudentId>>,
    after: Seq<Seq<StudentId>>,
    j: int,
    s: StudentId,
    k: int,
)
    requires
        0 <= j < before.len(),
        after.len() == before.len(),
        0 <= k <= before.len(),
        forall|i: int| 0 <= i < before.len() ==> #[trigger] after[i].len() >= before.update(j, before[j].push(s))[i].len(),
        after[j][before[j].len() as int] == s,
    ensures
        k <= j ==> added(before, after, k) == added(before.update(j, before[j].push(s)), after, k),
        k > j ==> added(before, after, j).len() <= added(
            before.update(j, before[j].push(s)),
            after,
            k,
        ).len(),
        k > j ==> added(before, after, k) == added(before.update(j, before[j].push(s)), after, k).insert(
            added(before, after, j).len() as int,
            s,
        ),
    decreases k,
{
    let pushed = before.update(j, before[j].push(s));
    if k > 0 {
        lemma_added_push(before, after, j, s, k - 1);
        let i = k - 1;
        assert(after[i].len() >= pushed[i].len());
        if i == j {
            let l = before[j].len() as int;
            let e = after[j].len() as int;
            let a = added(before, after, j);
            assert(pushed[j].len() == l + 1);
            assert(added(pushed, after, j) == a);
            let rest = after[j].subrange(l + 1, e);
            assert(after[j].subrange(l, e) =~= seq![s] + rest);
            assert(added(before, after, k) == a + after[j].subrange(l, e));
            assert(added(pushed, after, k) == a + rest);
            assert(a + (seq![s] + rest) =~= (a + rest).insert(a.len() as int, s));
        } else if i > j {
            assert(pushed[i] == before[i]);
            assert(added(before, after, k) =~= added(pushed, after, k).insert(
                added(before, after, j).len() as int,
                s,
            ));
        }
    }
}

/// Every student of `incoming` sits in one of `groups`.
pub open spec fn places_all(groups: Seq<Vec<StudentId>>, incoming: Seq<StudentId>) -> bool {
    forall|i: int|
        0 <= i < incoming.len() ==> exists|j: int|
            0 <= j < groups.len() && (#[trigger] groups[j])@.contains(#[trigger] incoming[i])
}

/// Places `students[index..]` into `groups`, one at a time in input order,
/// each into the first group that has room under the quota and holds none
/// of its partners, backtracking on a dead end. On success every student
/// from `index` on has been added, exactly once, after the existing members,
/// and the groups are the first full placement in search order (students in
/// input order, groups in index order), so equal inputs give equal groups.
/// It fails only when no such placement of those students exists, and then
/// leaves `groups` as it was.
///
/// The quota is the same at every node of the search: with `n` students in
/// `g` groups the extra slots of the remainder `n % g` always go to the
/// lowest-numbered groups, so group `j` holds at most `capacity(j, n, g)`.
/// Which feasible assignment is found first follows from that choice.
pub fn assign_students(
    students: &[StudentId],
    constraints: &[RelationshipPair],
    groups: &mut Vec<Vec<StudentId>>,
    n_groups: usize,
    index: usize,
) -> (r: bool)
    requires
        n_groups > 0,
        old(groups).len() == n_groups,
        index <= students.len(),
    ensures
        final(groups).len() == n_groups,
        r == search_from(
            contents(old(groups)@),
            students@.subrange(index as int, students.len() as int),
            constraints@,
            students.len() as int,
            0,
        ).is_some(),
        r ==> contents(final(groups)@) == search_from(
            contents(old(groups)@),
            students@.subrange(index as int, students.len() as int),
            constraints@,
            students.len() as int,
            0,
        ).unwrap(),
        r ==> added(
            contents(old(groups)@),
            contents(final(groups)@),
            n_groups as int,
        ).to_multiset() == students@.subrange(index as int, students.len() as int).to_multiset(),
        r ==> extends(
            old(groups)@,
            final(groups)@,
            students@.subrange(index as int, students.len() as int),
            constraints@,
            students.len() as int,
        ),
        r ==> places_all(final(groups)@, students@.subrange(index as int, students.len() as int)),
        !r ==> forall|j: int| 0 <= j < n_groups ==> (#[trigger] final(groups)@[j])@ == old(groups)@[j]@,
        !r ==> !exists|assign: Seq<int>|
            completes(
                contents(old(groups)@),
                students@.subrange(index as int, students.len() as int),
                assign,
                constraints@,
                students.len() as int,
            ),
    decreases students.len() - index,
{
    let ghost start = groups@;
    let ghost incoming = students@.subrange(index as int, students.len() as int);
    let ghost n = students.len() as int;
    if index == students.len() {
        proof {
            assert forall|j: int| 0 <= j < n_groups implies (#[trigger] groups@[j])@.take(
                start[j]@.len() as int,
            ) == start[j]@ by {
                assert(groups@[j]@.take(start[j]@.len() as int) =~= start[j]@);
            }
        }
        proof {
            assert(contents(groups@) =~= contents(start));
            lemma_added_nothing(contents(start), n_groups as int);
            assert(incoming =~= Seq::<StudentId>::empty());
        }
        return true;
    }
    let total_students = students.len();
    let base_students_per_group = total_students / n_groups;
    let mut extra_students_needed = total_students % n_groups;
    let student = students[index];
    let mut group: usize = 0;
    while group < n_groups
        invariant
            group <= n_groups,
            n_groups > 0,
            index < students.len(),
            total_students == students.len(),
            student == students@[index as int],
            base_students_per_group == total_students / n_groups,
            extra_students_needed == if group < total_students % n_groups {
                total_students % n_groups - group
            } else {
                0
            },
            groups.len() == n_groups,
            start.len() == n_groups,
            start == old(groups)@,
            incoming == students@.subrange(index as int, students.len() as int),
            n == students.len(),
            forall|j: int| 0 <= j < n_groups ==> (#[trigger] groups@[j])@ == start[j]@,
            forall|a: Seq<int>|
                #[trigger] completes(contents(start), incoming, a, constraints@, n) ==> a[0] >= group,
            search_from(contents(start), incoming, constraints@, n, 0) == search_from(
                contents(start),
                incoming,
                constraints@,
                n,
                group as int,
            ),
        decreases n_groups - group,
    {
        let allowed_students_in_group = if extra_students_needed > 0 {
            assert(base_students_per_group < total_students) by (nonlinear_arith)
                requires
                    base_students_per_group == total_students / n_groups,
                    total_students % n_groups > 0,
                    n_groups > 0,
            ;
            extra_students_needed = extra_students_needed - 1;
            base_students_per_group + 1
        } else {
            base_students_per_group
        };
        assert(allowed_students_in_group == capacity(group as int, n, n_groups as int));
        let valid = is_valid_assignment(student, group, constraints, groups, allowed_students_in_group);
        if valid {
            let ghost before = groups@;
            groups[group].push(student);
            let ghost pushed = groups@;
            if assign_students(students, constraints, groups, n_groups, index + 1) {
                proof {
                    let rest = students@.subrange(index + 1, students.len() as int);
                    let fin = groups@;
                    assert(contents(pushed) =~= contents(start).update(
                        group as int,
                        contents(start)[group as int].push(student),
                    ));
                    assert(rest =~= incoming.drop_first());
                    assert(contents(start)[group as int] == start[group as int]@);
                    assert(admits(contents(start), group as int, incoming[0], constraints@, n));
                    assert(incoming =~= seq![student] + rest);
                    assert forall|i: int| 0 <= i < n_groups implies #[trigger] contents(fin)[i].len()
                        >= contents(pushed)[i].len() by {
                        assert(fin[i]@.len() >= pushed[i]@.len());
                    }
                    assert(fin[group as int]@.take(pushed[group as int]@.len() as int)
                        == pushed[group as int]@);
                    assert(pushed[group as int]@ =~= start[group as int]@.push(student));
                    assert(contents(fin)[group as int][contents(start)[group as int].len() as int]
                        == student) by {
                        assert(fin[group as int]@.take(pushed[group as int]@.len() as int)[start[group as int]@.len() as int] == student);
                    }
                    lemma_added_push(contents(start), contents(fin), group as int, student, n_groups as int);
                    let pos = added(contents(start), contents(fin), group as int).len() as int;
                    vstd::seq_lib::to_multiset_insert(added(contents(pushed), contents(fin), n_groups as int), pos, student);
                    assert(incoming =~= rest.insert(0, student));
                    vstd::seq_lib::to_multiset_insert(rest, 0, student);
                    assert forall|x: StudentId| rest.contains(x) implies incoming.contains(x) by {
                        let i = choose|i: int| 0 <= i < rest.len() && rest[i] == x;
                        assert(incoming[i + 1] == x);
                    }
                    assert(incoming[0] == student);
                    assert forall|j: int| 0 <= j < n_groups implies (#[trigger] fin[j])@.len()
                        >= start[j]@.len() && fin[j]@.take(start[j]@.len() as int) == start[j]@ by {
                        assert(fin[j]@.take(pushed[j]@.len() as int) == pushed[j]@);
                        if j == group {
                            assert(pushed[j]@ =~= start[j]@.push(student));
                            assert(fin[j]@.take(start[j]@.len() as int) =~= pushed[j]@.take(
                                start[j]@.len() as int,
                            ));
                            assert(pushed[j]@.take(start[j]@.len() as int) =~= start[j]@);
                        } else {
                            assert(pushed[j]@ == start[j]@);
                        }
                    }
                    assert forall|j: int|
                        0 <= j < n_groups && (#[trigger] fin[j])@.len() > start[j]@.len() implies fin[j]@.len()
                        <= capacity(j, n, n_groups as int) by {
                        if j == group {
                            assert(pushed[j]@.len() == start[j]@.len() + 1);
                        } else {
                            assert(pushed[j]@ == start[j]@);
                        }
                    }
                    assert forall|j: int, p: int|
                        0 <= j < n_groups && start[j]@.len() <= p < fin[j]@.len() implies incoming.contains(
                        #[trigger] fin[j]@[p],
                    ) by {
                        if j == group && p == start[j]@.len() {
                            assert(fin[j]@.take(pushed[j]@.len() as int)[p] == fin[j]@[p]);
                            assert(pushed[j]@[p] == student);
                        } else if j == group {
                            assert(pushed[j]@.len() == start[j]@.len() + 1);
                            assert(rest.contains(fin[j]@[p]));
                        } else {
                            assert(pushed[j]@ == start[j]@);
                            assert(rest.contains(fin[j]@[p]));
                        }
                    }
                    assert forall|j: int|
                        0 <= j < n_groups && clash_free(start[j]@, constraints@) implies clash_free(
                        (#[trigger] fin[j])@,
                        constraints@,
                    ) by {
                        if j == group {
                            assert(pushed[j]@ =~= start[j]@.push(student));
                            lemma_clash_free_push(start[j]@, student, constraints@);
                        } else {
                            assert(pushed[j]@ == start[j]@);
                        }
                    }
                    assert forall|i: int| 0 <= i < incoming.len() implies exists|j: int|
                        0 <= j < fin.len() && (#[trigger] fin[j])@.contains(
                            #[trigger] incoming[i],
                        ) by {
                        if i == 0 {
                            let p = start[group as int]@.len() as int;
                            assert(fin[group as int]@.take(pushed[group as int]@.len() as int)[p]
                                == fin[group as int]@[p]);
                            assert(pushed[group as int]@[p] == student);
                            assert(fin[group as int]@[p] == incoming[i]);
                        } else {
                            assert(incoming[i] == rest[i - 1]);
                        }
                    }
                }
                return true;
            }
            proof {
                let rest = students@.subrange(index + 1, students.len() as int);
                assert(rest =~= incoming.drop_first());
                assert(contents(pushed) =~= contents(start).update(
                    group as int,
                    contents(start)[group as int].push(student),
                ));
                assert(incoming[0] == student);
                assert forall|a: Seq<int>|
                    #[trigger] completes(contents(start), incoming, a, constraints@, n) implies a[0]
                    != group by {
                    if a[0] == group {
                        assert(completes(contents(pushed), rest, a.drop_first(), constraints@, n));
                    }
                }
            }
            groups[group].pop();
            proof {
                assert forall|j: int| 0 <= j < n_groups implies (#[trigger] groups@[j])@
                    == start[j]@ by {
                    if j == group {
                        assert(pushed[j]@ =~= start[j]@.push(student));
                        assert(groups@[j]@ =~= start[j]@);
                    }
                }
            }
        }
        proof {
            assert(contents(start)[group as int] == start[group as int]@);
            assert(incoming[0] == student);
            if !valid {
                assert forall|a: Seq<int>|
                    #[trigger] completes(contents(start), incoming, a, constraints@, n) implies a[0]
                    != group by {
                    if a[0] == group {
                        assert(contents(start).len() == n_groups);
                    }
                }
            }
        }
        group = group + 1;
    }
    proof {
        assert forall|a: Seq<int>| !completes(contents(start), incoming, a, constraints@, n) by {
            if completes(contents(start), incoming, a, constraints@, n) {
                assert(a[0] >= n_groups);
            }
        }
    }
    false
}

/// Whether some pair of `constraints` has both students in one group.
pub fn check_for_constraint_violations(
    groups: &[Vec<StudentId>],
    constraints: &Vec<RelationshipPair>,
) -> (r: bool)
    ensures
        r == any_violation(groups@, constraints@),
{
    let mut violated = false;
    let mut c: usize = 0;
    while c < constraints.len()
        invariant
            c <= constraints.len(),
            violated == exists|k: int, j: int|
                0 <= k < c && 0 <= j < groups@.len() && groups@[j]@.contains(
                    (#[trigger] constraints@[k]).first_student_id,
                ) && (#[trigger] groups@[j])@.contains(constraints@[k].second_student_id),
        decreases constraints.len() - c,
    {
        let first_student = constraints[c].first_student_id;
        let second_student = constraints[c].second_student_id;
        let mut j: usize = 0;
        let mut found = false;
        while j < groups.len()
            invariant
                j <= groups.len(),
                first_student == constraints@[c as int].first_student_id,
                second_student == constraints@[c as int].second_student_id,
                found == exists|i: int|
                    0 <= i < j && (#[trigger] groups@[i])@.contains(first_student) && groups@[i]@.contains(
                        second_student,
                    ),
            decreases groups.len() - j,
        {
            if holds(&groups[j], first_student) && holds(&groups[j], second_student) {
                found = true;
            }
            j = j + 1;
        }
        if found {
            violated = true;
        }
        c = c + 1;
    }
    violated
}

/// `n_constraints` random pairs of two different students of `students`.
pub fn generate_random_constraints(
    students: &[StudentId],
    n_constraints: usize,
    rng: &mut StdRng,
) -> (r: Vec<RelationshipPair>)
    requires
        students@.len() >= 2,
        students@.no_duplicates(),
    ensures
        r.len() == n_constraints,
        forall|i: int|
            0 <= i < r.len() ==> (#[trigger] r@[i]).wf() && students@.contains(r@[i].first_student_id)
                && students@.contains(r@[i].second_student_id),
{
    let mut pairs: Vec<RelationshipPair> = Vec::new();
    let mut k: usize = 0;
    while k < n_constraints
        invariant
            k <= n_constraints,
            pairs.len() == k,
            students@.len() >= 2,
            students@.no_duplicates(),
            forall|i: int|
                0 <= i < pairs.len() ==> (#[trigger] pairs@[i]).wf() && students@.contains(
                    pairs@[i].first_student_id,
                ) && students@.contains(pairs@[i].second_student_id),
        decreases n_constraints - k,
    {
        let a = draw_index(rng, students.len());
        let mut b = draw_index(rng, students.len() - 1);
        if b >= a {
            b = b + 1;
        }
        let pair = RelationshipPair::new(students[a], students[b]);
        assert(students@.contains(students@[a as int]));
        assert(students@.contains(students@[b as int]));
        pairs.push(pair);
        k = k + 1;
    }
    pairs
}

} // verus!
