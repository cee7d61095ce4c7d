use grouping::annealing::{annealing_step, simulated_annealing};
use grouping::backtracking::{
    assign_students, check_for_constraint_violations, generate_random_constraints,
};
use grouping::balance::{all_equal, identify_groups};
use grouping::error::GroupingError;
use grouping::ids::{GroupId, RelationshipPair, StudentId};
use grouping::moves::{make_move, swap_members};
use grouping::objective::{get_violations, objective, Score, Violation};
use grouping::request::CreateGroupsRequest;
use grouping::solution::{create_group_list, group_sizes, Solution};
use grouping::temperature::change_temp;
use rand::rngs::StdRng;
use rand::SeedableRng;

fn ids(v: &[usize]) -> Vec<StudentId> {
    v.iter().map(|&i| StudentId(i)).collect()
}

fn pair(a: usize, b: usize) -> RelationshipPair {
    RelationshipPair::new(StudentId(a), StudentId(b))
}

fn solution_of(entries: &[(usize, usize)]) -> Solution {
    let mut s = Solution::new();
    for &(st, g) in entries {
        s.insert(StudentId(st), GroupId(g));
    }
    s
}

fn sizes_of(s: &Solution, g: usize) -> Vec<usize> {
    group_sizes(s, g)
}

#[test]
fn balanced_shape_accepts_floor_ceil_split() {
    assert!(all_equal(3, 7, &[3, 2, 2]));
    assert!(all_equal(3, 7, &[2, 2, 3]));
    assert!(all_equal(3, 6, &[2, 2, 2]));
    assert!(all_equal(2, 0, &[0, 0]));
}

#[test]
fn balanced_shape_rejects_other_vectors() {
    assert!(!all_equal(3, 7, &[3, 3, 1]));
    assert!(!all_equal(3, 7, &[4, 2, 1]));
    assert!(!all_equal(3, 8, &[3, 3, 3]));
    // too few of the larger size
    assert!(!all_equal(2, 3, &[1, 1]));
    // wrong length
    assert!(!all_equal(3, 6, &[3, 3]));
}

#[test]
fn identify_groups_breaks_ties_to_the_left() {
    assert_eq!(identify_groups(&[1, 4, 4, 0, 0]), (1, 3));
    assert_eq!(identify_groups(&[2, 2, 2]), (0, 0));
    assert_eq!(identify_groups(&[5]), (0, 0));
}

#[test]
fn move_with_zero_groups_fails() {
    let s = solution_of(&[(1, 0)]);
    let mut rng = StdRng::seed_from_u64(1);
    assert_eq!(make_move(&s, 0, &mut rng).unwrap_err(), GroupingError::InvalidGroupCount);
    let empty = Solution::new();
    assert_eq!(make_move(&empty, 0, &mut rng).unwrap_err(), GroupingError::InvalidGroupCount);
}

#[test]
fn move_with_one_group_changes_nothing() {
    let s = solution_of(&[(1, 0), (2, 0), (3, 0)]);
    let mut rng = StdRng::seed_from_u64(2);
    let t = make_move(&s, 1, &mut rng).unwrap();
    assert_eq!(t.students, s.students);
    assert_eq!(t.groups, s.groups);
}

#[test]
fn unbalanced_move_goes_from_largest_to_smallest() {
    // sizes [3, 0, 1]: one student of group 0 moves to group 1
    let s = solution_of(&[(1, 0), (2, 0), (3, 0), (4, 2)]);
    let mut rng = StdRng::seed_from_u64(3);
    for _ in 0..20 {
        let t = make_move(&s, 3, &mut rng).unwrap();
        assert_eq!(t.students, s.students);
        assert_eq!(sizes_of(&t, 3), vec![2, 1, 1]);
        let changed: Vec<usize> = (0..4).filter(|&i| t.groups[i] != s.groups[i]).collect();
        assert_eq!(changed.len(), 1);
        assert_eq!(s.groups[changed[0]], GroupId(0));
        assert_eq!(t.groups[changed[0]], GroupId(1));
    }
}

#[test]
fn unbalanced_moves_reach_the_balanced_shape() {
    let entries: Vec<(usize, usize)> = (0..10).map(|i| (i, 0)).collect();
    let mut s = solution_of(&entries);
    let mut rng = StdRng::seed_from_u64(4);
    let mut moves = 0;
    while !all_equal(3, 10, &sizes_of(&s, 3)) {
        s = make_move(&s, 3, &mut rng).unwrap();
        moves += 1;
    }
    assert_eq!(moves, 6);
    let mut sizes = sizes_of(&s, 3);
    sizes.sort();
    assert_eq!(sizes, vec![3, 3, 4]);
}

#[test]
fn balanced_move_keeps_students_and_sizes() {
    let s = solution_of(&[(1, 0), (2, 0), (3, 1), (4, 1), (5, 2)]);
    let mut rng = StdRng::seed_from_u64(5);
    let mut swapped = false;
    for _ in 0..50 {
        let t = make_move(&s, 3, &mut rng).unwrap();
        assert_eq!(t.students, s.students);
        assert_eq!(sizes_of(&t, 3), vec![2, 2, 1]);
        let changed = (0..5).filter(|&i| t.groups[i] != s.groups[i]).count();
        assert!(changed == 0 || changed == 2);
        swapped |= changed == 2;
    }
    assert!(swapped);
}

#[test]
fn temperature_endpoints_and_middle() {
    let t0 = change_temp(10_000, 100, 100, 0).unwrap();
    assert_eq!(t0.numerator, 10_000 * 100);
    assert_eq!(t0.denominator, 100);
    let t100 = change_temp(10_000, 100, 100, 100).unwrap();
    assert_eq!(t100.numerator / t100.denominator, 100);
    assert_eq!(t100.numerator % t100.denominator, 0);
    let t50 = change_temp(10_000, 100, 100, 50).unwrap();
    assert_eq!(t50.numerator, 505_000);
}

#[test]
fn temperature_does_not_rise() {
    let mut last = i128::MAX;
    for step in 0..=100 {
        let t = change_temp(5_000, -300, 100, step).unwrap();
        assert!(t.numerator <= last);
        last = t.numerator;
    }
}

#[test]
fn temperature_with_zero_steps_fails() {
    assert_eq!(change_temp(10, 1, 0, 0).unwrap_err(), GroupingError::InvalidStepCount);
}

#[test]
fn objective_of_uneven_groups() {
    // sizes [3, 1] around mean 2: variance 1; pair (1,2) co-placed: +2
    let s = solution_of(&[(1, 0), (2, 0), (3, 0), (4, 1)]);
    let r = objective(&s, 2, &[pair(1, 2), pair(3, 4)]).unwrap();
    assert_eq!(r.denominator, 8);
    assert_eq!(r.numerator, 24);
}

#[test]
fn objective_of_non_integer_variance() {
    // sizes [2, 0, 0], mean 2/3: variance 8/9; numerator (6-2)^2 + 2^2 + 2^2 = 24 over 27
    let s = solution_of(&[(1, 0), (2, 0)]);
    let r = objective(&s, 3, &[]).unwrap();
    assert_eq!(r.numerator, 24);
    assert_eq!(r.denominator, 27);
}

#[test]
fn objective_rises_by_two_per_violated_pair() {
    let s = solution_of(&[(1, 0), (2, 0), (3, 1), (4, 1)]);
    let a = objective(&s, 2, &[pair(1, 3)]).unwrap();
    let b = objective(&s, 2, &[pair(1, 3), pair(3, 4)]).unwrap();
    assert_eq!(a.numerator, 0);
    assert_eq!(b.numerator - a.numerator, 2 * b.denominator);
}

#[test]
fn objective_ignores_entry_order() {
    let a = solution_of(&[(1, 0), (2, 1), (3, 1), (4, 0), (5, 0)]);
    let b = solution_of(&[(5, 0), (3, 1), (1, 0), (4, 0), (2, 1)]);
    let rs = [pair(1, 4), pair(2, 5), pair(3, 2)];
    assert_eq!(objective(&a, 2, &rs).unwrap(), objective(&b, 2, &rs).unwrap());
}

#[test]
fn objective_rejects_unknown_student() {
    let s = solution_of(&[(1, 0), (2, 1)]);
    assert_eq!(
        objective(&s, 2, &[pair(1, 9)]).unwrap_err(),
        GroupingError::UnknownStudentReference
    );
}

#[test]
fn violations_and_group_list() {
    let s = solution_of(&[(1, 0), (2, 0), (3, 1), (4, 1)]);
    let v = get_violations(&s, &[pair(1, 2), pair(1, 3), pair(4, 3)]);
    assert_eq!(
        v,
        vec![
            Violation { relationship_pair: pair(1, 2), group: GroupId(0) },
            Violation { relationship_pair: pair(4, 3), group: GroupId(1) },
        ]
    );
    let groups = create_group_list(&s, 3);
    assert_eq!(groups, vec![ids(&[1, 2]), ids(&[3, 4]), vec![]]);
    assert_eq!(group_sizes(&s, 3), vec![2, 2, 0]);
}

#[test]
fn solution_insert_and_get() {
    let mut s = Solution::new();
    assert_eq!(s.insert(StudentId(7), GroupId(1)), None);
    assert_eq!(s.insert(StudentId(8), GroupId(0)), None);
    assert_eq!(s.insert(StudentId(7), GroupId(2)), Some(GroupId(1)));
    assert_eq!(s.len(), 2);
    assert_eq!(s.get(StudentId(7)), Some(GroupId(2)));
    assert_eq!(s.get(StudentId(9)), None);
    assert_eq!(s.find(StudentId(8)), Some(1));
}

#[test]
fn backtracking_three_pairs_in_three_groups() {
    let students = ids(&[1, 2, 3, 4, 5, 6]);
    let constraints = vec![pair(1, 2), pair(3, 4), pair(5, 6)];
    let mut groups: Vec<Vec<StudentId>> = vec![Vec::new(); 3];
    assert!(assign_students(&students, &constraints, &mut groups, 3, 0));
    assert!(!check_for_constraint_violations(&groups, &constraints));
    assert_eq!(groups.iter().map(|g| g.len()).collect::<Vec<_>>(), vec![2, 2, 2]);
    assert_eq!(groups, vec![ids(&[1, 3]), ids(&[2, 5]), ids(&[4, 6])]);
}

#[test]
fn backtracking_fails_on_four_mutual_rivals() {
    let students = ids(&[1, 2, 3, 4]);
    let mut constraints = Vec::new();
    for a in 1..=4 {
        for b in (a + 1)..=4 {
            constraints.push(pair(a, b));
        }
    }
    let mut groups: Vec<Vec<StudentId>> = vec![Vec::new(); 2];
    assert!(!assign_students(&students, &constraints, &mut groups, 2, 0));
    assert_eq!(groups, vec![Vec::<StudentId>::new(), Vec::new()]);
}

#[test]
fn backtracking_respects_uneven_quota() {
    let students = ids(&[1, 2, 3, 4, 5, 6, 7]);
    let mut groups: Vec<Vec<StudentId>> = vec![Vec::new(); 3];
    assert!(assign_students(&students, &[], &mut groups, 3, 0));
    assert_eq!(groups.iter().map(|g| g.len()).collect::<Vec<_>>(), vec![3, 2, 2]);
}

#[test]
fn constraint_violation_check() {
    let groups = vec![ids(&[1, 2]), ids(&[3])];
    assert!(check_for_constraint_violations(&groups, &vec![pair(2, 1)]));
    assert!(!check_for_constraint_violations(&groups, &vec![pair(1, 3)]));
    assert!(!check_for_constraint_violations(&groups, &vec![]));
}

#[test]
fn random_constraints_name_distinct_students() {
    let students = ids(&[1, 2, 3]);
    let mut rng = StdRng::seed_from_u64(6);
    let cs = generate_random_constraints(&students, 50, &mut rng);
    assert_eq!(cs.len(), 50);
    for c in cs {
        assert_ne!(c.first_student_id, c.second_student_id);
        assert!(students.contains(&c.first_student_id));
        assert!(students.contains(&c.second_student_id));
    }
}

#[test]
fn annealing_with_zero_groups_fails() {
    let mut rng = StdRng::seed_from_u64(7);
    let r = simulated_annealing(ids(&[1, 2]), 0, &[], 10_000, 100, 10, &mut rng);
    assert_eq!(r.unwrap_err(), GroupingError::InvalidGroupCount);
}

#[test]
fn annealing_rejects_unknown_student() {
    let mut rng = StdRng::seed_from_u64(8);
    let r = simulated_annealing(ids(&[1, 2]), 2, &[pair(1, 3)], 10_000, 100, 10, &mut rng);
    assert_eq!(r.unwrap_err(), GroupingError::UnknownStudentReference);
}

#[test]
fn annealing_separates_three_pairs() {
    let mut rng = StdRng::seed_from_u64(9);
    let constraints = vec![pair(1, 2), pair(3, 4), pair(5, 6)];
    let mut zero = 0;
    for _ in 0..20 {
        let r = simulated_annealing(ids(&[1, 2, 3, 4, 5, 6]), 3, &constraints, 10_000, 100, 1000, &mut rng)
            .unwrap();
        if r.objective.numerator == 0 {
            zero += 1;
            assert!(r.violations.is_empty());
            assert_eq!(r.groups.iter().map(|g| g.len()).collect::<Vec<_>>(), vec![2, 2, 2]);
        }
    }
    assert!(zero >= 15);
}

#[test]
fn annealing_with_zero_steps_reports_the_start() {
    let mut rng = StdRng::seed_from_u64(10);
    let r = simulated_annealing(ids(&[1, 2, 3]), 2, &[], 10_000, 100, 0, &mut rng).unwrap();
    assert_eq!(r.groups.iter().map(|g| g.len()).sum::<usize>(), 3);
    assert_eq!(r.objective.denominator, 8);
}

#[test]
fn request_parts() {
    let req = CreateGroupsRequest {
        num_groups: 2,
        students: ids(&[1, 2]),
        relationship_pairs: vec![pair(1, 2)],
    };
    let (g, s, p) = req.into_parts();
    assert_eq!(g, 2);
    assert_eq!(s, ids(&[1, 2]));
    assert_eq!(p, vec![pair(1, 2)]);
}

#[test]
fn identifiers_from_numbers() {
    assert_eq!(StudentId::from(4).value(), 4);
    assert_eq!(GroupId::from(2).value(), 2);
}

#[test]
fn swap_members_exchanges_the_picked_students() {
    let s = solution_of(&[(1, 0), (2, 1), (3, 0), (4, 1), (5, 2)]);
    let t = swap_members(&s, 0, 1, 1, 0);
    assert_eq!(t.students, s.students);
    // second member of group 0 is student 3, first of group 1 is student 2
    assert_eq!(t.groups, vec![GroupId(0), GroupId(0), GroupId(1), GroupId(1), GroupId(2)]);
}

#[test]
fn swap_members_with_an_empty_group_changes_nothing() {
    let s = solution_of(&[(1, 0), (2, 0)]);
    let t = swap_members(&s, 0, 1, 1, 0);
    assert_eq!(t.groups, s.groups);
}

#[test]
fn balanced_move_with_no_empty_group_always_swaps() {
    let s = solution_of(&[(1, 0), (2, 1), (3, 2), (4, 0), (5, 1), (6, 2)]);
    let mut rng = StdRng::seed_from_u64(11);
    for _ in 0..50 {
        let t = make_move(&s, 3, &mut rng).unwrap();
        assert_ne!(t.groups, s.groups);
    }
}

fn score(n: u128) -> Score {
    Score { numerator: n, denominator: 8 }
}

#[test]
fn annealing_step_takes_a_better_candidate_as_best() {
    let cur = solution_of(&[(1, 0)]);
    let best = solution_of(&[(1, 1)]);
    let cand = solution_of(&[(1, 2)]);
    let (s, b, bs) = annealing_step(cur, best, score(10), cand.clone(), score(4), false);
    assert_eq!(s.groups, cand.groups);
    assert_eq!(b.groups, cand.groups);
    assert_eq!(bs, score(4));
}

#[test]
fn annealing_step_accepts_a_worse_candidate_only_when_drawn() {
    let cur = solution_of(&[(1, 0)]);
    let best = solution_of(&[(1, 1)]);
    let cand = solution_of(&[(1, 2)]);
    let (s, b, bs) =
        annealing_step(cur.clone(), best.clone(), score(4), cand.clone(), score(10), true);
    assert_eq!(s.groups, cand.groups);
    assert_eq!(b.groups, best.groups);
    assert_eq!(bs, score(4));
    let (s, b, bs) = annealing_step(cur.clone(), best.clone(), score(4), cand, score(4), false);
    assert_eq!(s.groups, cur.groups);
    assert_eq!(b.groups, best.groups);
    assert_eq!(bs, score(4));
}

#[test]
fn backtracking_is_deterministic() {
    let students = ids(&[1, 2, 3, 4, 5, 6, 7, 8]);
    let constraints = vec![pair(1, 5), pair(2, 6), pair(3, 4), pair(7, 8)];
    let mut a: Vec<Vec<StudentId>> = vec![Vec::new(); 3];
    let mut b: Vec<Vec<StudentId>> = vec![Vec::new(); 3];
    let ra = assign_students(&students, &constraints, &mut a, 3, 0);
    let rb = assign_students(&students, &constraints, &mut b, 3, 0);
    assert_eq!(ra, rb);
    assert_eq!(a, b);
}

#[test]
fn backtracking_adds_each_remaining_student_once() {
    let students = ids(&[1, 2, 3, 4, 5, 6]);
    let mut groups = vec![ids(&[1]), ids(&[2])];
    assert!(assign_students(&students, &[], &mut groups, 2, 2));
    let mut added: Vec<StudentId> = vec![];
    added.extend_from_slice(&groups[0][1..]);
    added.extend_from_slice(&groups[1][1..]);
    added.sort_by_key(|s| s.0);
    assert_eq!(added, ids(&[3, 4, 5, 6]));
    assert_eq!(groups, vec![ids(&[1, 3, 4]), ids(&[2, 5, 6])]);
}

#[test]
fn balanced_shape_ignores_group_order() {
    assert_eq!(all_equal(4, 10, &[3, 3, 2, 2]), all_equal(4, 10, &[2, 3, 2, 3]));
    assert!(all_equal(4, 10, &[2, 2, 3, 3]));
}
