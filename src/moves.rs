//! The neighbour move of the annealing search.

use crate::balance::{
    all_equal, as_ints, count_eq, identify_groups, is_balanced, is_first_largest, is_first_smallest,
    lemma_corrective_move_closes_gap, lemma_corrective_move_progress, lemma_count_absent,
    lemma_sums_update, sum_of, sum_of_squares, total_misfit,
};
use crate::error::GroupingError;
use crate::ids::GroupId;
use crate::random::draw_index;
use crate::solution::{group_sizes, member_positions, Solution, SolutionView};
use rand::rngs::StdRng;
use vstd::prelude::*;

verus! {

/// `new` is `old`, or `old` with the groups of two entries from different
/// groups exchanged.
pub open spec fn is_swap_or_same(old: Seq<GroupId>, new: Seq<GroupId>) -> bool {
    ||| new == old
    ||| exists|i: int, j: int|
        0 <= i < old.len() && 0 <= j < old.len() && old[i] != old[j] && new == old.update(
            i,
            old[j],
        ).update(j, old[i])
}

/// `new` is `old` with one entry of group `from` moved to group `to`.
pub open spec fn moves_one_from(old: Seq<GroupId>, new: Seq<GroupId>, from: int, to: int) -> bool {
    exists|i: int|
        0 <= i < old.len() && old[i].0 == from && new == old.update(i, GroupId(to as usize))
}

/// The move taken when the sizes are not yet balanced: one student of the
/// first largest group goes to the first smallest group.
pub open spec fn is_corrective_move(old: SolutionView, new: SolutionView, num_groups: nat) -> bool {
    forall|l: int, m: int|
        is_first_largest(old.sizes(num_groups), l) && is_first_smallest(old.sizes(num_groups), m)
            ==> #[trigger] moves_one_from(old.groups, new.groups, l, m)
}

/// Two first-largest (or first-smallest) indices are the same.
pub proof fn lemma_first_extremes_unique(sizes: Seq<int>, a: int, b: int)
    ensures
        is_first_largest(sizes, a) && is_first_largest(sizes, b) ==> a == b,
        is_first_smallest(sizes, a) && is_first_smallest(sizes, b) ==> a == b,
{
    if is_first_largest(sizes, a) && is_first_largest(sizes, b) && a != b {
        assert(sizes[a] <= sizes[b] && sizes[b] <= sizes[a]);
    }
    if is_first_smallest(sizes, a) && is_first_smallest(sizes, b) && a != b {
        assert(sizes[a] <= sizes[b] && sizes[b] <= sizes[a]);
    }
}

/// Exchanges the `pick1`-th student of group `group1` with the
/// `pick2`-th student of group `group2` (counting in entry order); leaves the
/// solution as it is when either group is empty.
pub fn swap_members(
    solution: &Solution,
    group1: usize,
    group2: usize,
    pick1: usize,
    pick2: usize,
) -> (r: Solution)
    requires
        solution@.wf(),
        group1 != group2,
        pick1 < solution@.size(group1) || solution@.size(group1) == 0,
        pick2 < solution@.size(group2) || solution@.size(group2) == 0,
    ensures
        r.students@ == solution.students@,
        solution@.size(group1) > 0 && solution@.size(group2) > 0 ==> r.groups@
            == solution.groups@.update(solution@.positions(group1)[pick1 as int], GroupId(group2)).update(
            solution@.positions(group2)[pick2 as int],
            GroupId(group1),
        ),
        solution@.size(group1) == 0 || solution@.size(group2) == 0 ==> r.groups@ == solution.groups@,
{
    let mut new_solution = solution.duplicate();
    let in_group1 = member_positions(solution, group1);
    let in_group2 = member_positions(solution, group2);
    if in_group1.len() > 0 && in_group2.len() > 0 {
        let i = in_group1[pick1];
        let j = in_group2[pick2];
        new_solution.groups.set(i, GroupId(group2));
        new_solution.groups.set(j, GroupId(group1));
    }
    new_solution
}

/// Exchanges one random student of a random group with one random student of
/// another random group; leaves the solution as it is when either group is
/// empty.
fn swap_students_between_groups(solution: &Solution, num_groups: usize, rng: &mut StdRng) -> (r:
    Solution)
    requires
        solution@.wf(),
        solution@.in_range(num_groups as nat),
        num_groups >= 2,
    ensures
        r@.wf(),
        r@.in_range(num_groups as nat),
        r.students@ == solution.students@,
        is_swap_or_same(solution.groups@, r.groups@),
        (forall|k: int| 0 <= k < num_groups ==> #[trigger] solution@.size(k as usize) > 0) ==> r.groups@
            != solution.groups@,
{
    let group1 = draw_index(rng, num_groups);
    let mut group2 = draw_index(rng, num_groups - 1);
    if group2 >= group1 {
        group2 = group2 + 1;
    }
    let size1 = member_positions(solution, group1).len();
    let size2 = member_positions(solution, group2).len();
    let pick1 = if size1 > 0 {
        draw_index(rng, size1)
    } else {
        0
    };
    let pick2 = if size2 > 0 {
        draw_index(rng, size2)
    } else {
        0
    };
    let new_solution = swap_members(solution, group1, group2, pick1, pick2);
    proof {
        let old = solution.groups@;
        if size1 > 0 && size2 > 0 {
            solution@.lemma_positions_upto(group1, solution.students.len() as nat);
            solution@.lemma_positions_upto(group2, solution.students.len() as nat);
            let i = solution@.positions(group1)[pick1 as int];
            let j = solution@.positions(group2)[pick2 as int];
            assert(old[i] == GroupId(group1));
            assert(old[j] == GroupId(group2));
            assert(new_solution.groups@ =~= old.update(i, old[j]).update(j, old[i]));
            assert(new_solution.groups@[i] != old[i]);
        } else {
            assert(!(solution@.size(group1) > 0 && solution@.size(group2) > 0));
            assert(solution@.size((group1 as int) as usize) == solution@.size(group1));
            assert(solution@.size((group2 as int) as usize) == solution@.size(group2));
        }
    }
    new_solution
}

/// Moves one random student of the first largest group to the first
/// smallest group.
fn move_from_large_group(solution: &Solution, num_groups: usize, rng: &mut StdRng) -> (r: Solution)
    requires
        solution@.wf(),
        solution@.in_range(num_groups as nat),
        num_groups > 0,
        !is_balanced(solution@.sizes(num_groups as nat), solution.students.len() as nat, num_groups as nat),
    ensures
        r@.wf(),
        r@.in_range(num_groups as nat),
        r.students@ == solution.students@,
        is_corrective_move(solution@, r@, num_groups as nat),
{
    let group_sizes = group_sizes(solution, num_groups);
    let ghost sizes = solution@.sizes(num_groups as nat);
    assert(as_ints(group_sizes@) =~= sizes);
    let (largest, smallest) = identify_groups(&group_sizes);
    let in_largest = member_positions(solution, largest);
    proof {
        let n = solution.students.len();
        if n == 0 {
            assert forall|i: int| 0 <= i < sizes.len() implies sizes[i] != 1 by {
                assert(sizes[i] == solution@.size(i as usize));
            }
            lemma_count_absent(sizes, 1);
            assert(is_balanced(sizes, 0, num_groups as nat));
        } else {
            let k = solution.groups@[0].0;
            solution@.lemma_member_present(k, n as nat, 0);
            assert(sizes[k as int] > 0);
            assert(sizes[largest as int] >= sizes[k as int]);
        }
    }
    let i = in_largest[draw_index(rng, in_largest.len())];
    let mut new_solution = solution.duplicate();
    new_solution.groups.set(i, GroupId(smallest));
    proof {
        let old = solution.groups@;
        assert(new_solution.groups@ =~= old.update(i as int, GroupId(smallest)));
        assert forall|l: int, m: int|
            is_first_largest(sizes, l) && is_first_smallest(sizes, m) implies #[trigger] moves_one_from(
            old,
            new_solution.groups@,
            l,
            m,
        ) by {
            lemma_first_extremes_unique(sizes, l, largest as int);
            lemma_first_extremes_unique(sizes, m, smallest as int);
            assert(old[i as int].0 == l);
        }
    }
    new_solution
}

/// Proposes a neighbouring solution; `solution` itself is left as it is.
/// With one group there is no move. With balanced sizes two students of
/// different groups may trade places; otherwise one student of the first
/// largest group moves to the first smallest group.
pub fn make_move(solution: &Solution, num_groups: usize, rng: &mut StdRng) -> (r: Result<
    Solution,
    GroupingError,
>)
    requires
        solution@.wf(),
        num_groups > 0 ==> solution@.in_range(num_groups as nat),
    ensures
        num_groups == 0 <==> r == Err::<Solution, GroupingError>(GroupingError::InvalidGroupCount),
        num_groups > 0 ==> r.is_ok(),
        r matches Ok(s) ==> {
            &&& s@.wf()
            &&& s@.in_range(num_groups as nat)
            &&& s.students@ == solution.students@
            &&& num_groups == 1 ==> s.groups@ == solution.groups@
            &&& num_groups > 1 && is_balanced(
                solution@.sizes(num_groups as nat),
                solution.students.len() as nat,
                num_groups as nat,
            ) ==> is_swap_or_same(solution.groups@, s.groups@) && s@.sizes(num_groups as nat)
                == solution@.sizes(num_groups as nat) && ((forall|k: int|
                0 <= k < num_groups ==> #[trigger] solution@.size(k as usize) > 0) ==> s.groups@
                != solution.groups@)
            &&& num_groups > 1 && !is_balanced(
                solution@.sizes(num_groups as nat),
                solution.students.len() as nat,
                num_groups as nat,
            ) ==> is_corrective_move(solution@, s@, num_groups as nat)
        },
{
    if num_groups == 1 {
        return Ok(solution.duplicate());
    }
    if num_groups == 0 {
        return Err(GroupingError::InvalidGroupCount);
    }
    let group_sizes = group_sizes(solution, num_groups);
    assert(as_ints(group_sizes@) =~= solution@.sizes(num_groups as nat));
    if all_equal(num_groups, solution.len(), &group_sizes) {
        let swapped = swap_students_between_groups(solution, num_groups, rng);
        proof {
            assert forall|k: int| 0 <= k < num_groups implies swapped@.sizes(num_groups as nat)[k]
                == solution@.sizes(num_groups as nat)[k] by {
                lemma_swap_keeps_sizes(solution@, swapped@, k as usize);
            }
            assert(swapped@.sizes(num_groups as nat) =~= solution@.sizes(num_groups as nat));
        }
        return Ok(swapped);
    }
    Ok(move_from_large_group(solution, num_groups, rng))
}

/// The group sizes counted over the first `n` entries.
pub open spec fn sizes_upto(v: SolutionView, g: nat, n: nat) -> Seq<int> {
    Seq::new(g, |k: int| v.members_upto(k as usize, n).len() as int)
}

pub proof fn lemma_sum_of_zeros(s: Seq<int>)
    requires
        forall|i: int| 0 <= i < s.len() ==> s[i] == 0,
    ensures
        sum_of(s) == 0,
    decreases s.len(),
{
    if s.len() > 0 {
        lemma_sum_of_zeros(s.drop_last());
    }
}

/// The sizes of the groups add up to the number of entries counted.
pub proof fn lemma_sizes_upto_sum(v: SolutionView, g: nat, n: nat)
    requires
        n <= v.students.len(),
        v.wf(),
        v.in_range(g),
        g <= usize::MAX,
    ensures
        sum_of(sizes_upto(v, g, n)) == n,
    decreases n,
{
    if n == 0 {
        lemma_sum_of_zeros(sizes_upto(v, g, 0));
    } else {
        let m = (n - 1) as nat;
        let j = v.groups[m as int].0 as int;
        lemma_sizes_upto_sum(v, g, m);
        let before = sizes_upto(v, g, m);
        assert forall|k: int| 0 <= k < g implies sizes_upto(v, g, n)[k] == before.update(
            j,
            before[j] + 1,
        )[k] by {
            assert((k as usize) as int == k);
            assert(v.groups[m as int] == GroupId(k as usize) <==> k == j);
        }
        assert(sizes_upto(v, g, n) =~= before.update(j, before[j] + 1));
        lemma_sums_update(before, j, before[j] + 1);
    }
}

/// Moving entry `i` from group `l` to group `m` changes only those two
/// counts.
pub proof fn lemma_move_counts(a: SolutionView, b: SolutionView, i: int, l: usize, m: usize, k: usize, n: nat)
    requires
        n <= a.students.len(),
        a.wf(),
        b.students == a.students,
        0 <= i < a.groups.len(),
        a.groups[i] == GroupId(l),
        b.groups == a.groups.update(i, GroupId(m)),
        l != m,
    ensures
        b.members_upto(k, n).len() == a.members_upto(k, n).len() + if i < n && k == m {
            1int
        } else {
            0int
        } - if i < n && k == l {
            1int
        } else {
            0int
        },
    decreases n,
{
    if n > 0 {
        lemma_move_counts(a, b, i, l, m, k, (n - 1) as nat);
    }
}

/// A move made while the sizes are unbalanced keeps the number of students,
/// brings the sizes at least one student closer to the balanced shape, and
/// lowers the sum of the squared group sizes by at least two; since that
/// sum cannot fall below zero, repeated moves reach the balanced shape.
pub proof fn lemma_corrective_move_lowers_squares(
    old: SolutionView,
    new: SolutionView,
    g: nat,
    l: int,
    m: int,
)
    requires
        0 < g <= usize::MAX,
        old.wf(),
        old.in_range(g),
        new.students == old.students,
        !is_balanced(old.sizes(g), old.students.len() as nat, g),
        is_first_largest(old.sizes(g), l),
        is_first_smallest(old.sizes(g), m),
        is_corrective_move(old, new, g),
    ensures
        sum_of(new.sizes(g)) == old.students.len(),
        sum_of_squares(new.sizes(g)) <= sum_of_squares(old.sizes(g)) - 2,
        total_misfit(new.sizes(g), (old.students.len() / g) as int) <= total_misfit(
            old.sizes(g),
            (old.students.len() / g) as int,
        ) - 1,
{
    let n = old.students.len() as nat;
    let sizes = old.sizes(g);
    assert(sizes =~= sizes_upto(old, g, n));
    lemma_sizes_upto_sum(old, g, n);
    lemma_corrective_move_progress(sizes, n, g, l, m);
    lemma_corrective_move_closes_gap(sizes, n, g, l, m);
    assert(moves_one_from(old.groups, new.groups, l, m));
    let i = choose|i: int|
        0 <= i < old.groups.len() && old.groups[i].0 == l && new.groups == old.groups.update(
            i,
            GroupId(m as usize),
        );
    assert(old.groups[i] == GroupId(l as usize));
    let moved = sizes.update(l, sizes[l] - 1).update(m, sizes[m] + 1);
    assert forall|k: int| 0 <= k < g implies new.sizes(g)[k] == moved[k] by {
        assert((k as usize) as int == k);
        lemma_move_counts(old, new, i, l as usize, m as usize, k as usize, n);
        if k == l {
            assert(moved[k] == sizes[l] - 1);
        } else if k == m {
            assert(moved[k] == sizes[m] + 1);
        } else {
            assert(moved[k] == sizes[k]);
        }
        assert(sizes[k] == old.size(k as usize));
    }
    assert(new.sizes(g) =~= moved);
}

/// Exchanging the groups of two students leaves every group size as it was.
pub proof fn lemma_swap_keeps_sizes(old: SolutionView, new: SolutionView, k: usize)
    requires
        old.wf(),
        new.students == old.students,
        is_swap_or_same(old.groups, new.groups),
    ensures
        new.size(k) == old.size(k),
{
    if new.groups != old.groups {
        let (i, j) = choose|i: int, j: int|
            0 <= i < old.groups.len() && 0 <= j < old.groups.len() && old.groups[i] != old.groups[j]
                && new.groups == old.groups.update(i, old.groups[j]).update(j, old.groups[i]);
        let (gi, gj) = (old.groups[i], old.groups[j]);
        let mid = SolutionView { students: old.students, groups: old.groups.update(i, gj) };
        let n = old.students.len() as nat;
        lemma_move_counts(old, mid, i, gi.0, gj.0, k, n);
        assert(mid.groups[j] == gj);
        lemma_move_counts(mid, new, j, gj.0, gi.0, k, n);
    }
}

} // verus!
