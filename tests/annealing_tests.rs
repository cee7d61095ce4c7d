use grouping::annealing::simulated_annealing;
use grouping::balance::all_equal;
use grouping::ids::{GroupId, RelationshipPair, Student, StudentId};
use grouping::objective::objective;
use grouping::solution::Solution;
use rand::rngs::StdRng;
use rand::{Rng, SeedableRng};

fn generate_random_restriction_pairs(
    rng: &mut StdRng,
    num_pairs: usize,
    num_students: usize,
) -> Vec<RelationshipPair> {
    (0..num_pairs)
        .map(|_| {
            let first_student_id = StudentId(rng.gen_range(1..num_students));
            let mut second_student_id = StudentId(rng.gen_range(1..num_students));
            while first_student_id == second_student_id {
                second_student_id = StudentId(rng.gen_range(1..num_students));
            }
            RelationshipPair::new(first_student_id, second_student_id)
        })
        .collect()
}

fn value(score: grouping::objective::Score) -> f64 {
    score.numerator as f64 / score.denominator as f64
}

#[test]
fn mod_test_annealing() {
    let mut rng = StdRng::seed_from_u64(21);
    let students: Vec<StudentId> = (0..21).map(StudentId).collect();
    for _ in 0..1000 {
        let restrictions = generate_random_restriction_pairs(&mut rng, 5, 21);
        let num_groups = 4;
        let result = simulated_annealing(
            students.clone(),
            num_groups,
            &restrictions,
            10_000,
            100,
            1000,
            &mut rng,
        )
        .unwrap();
        let group_sizes = result.groups.iter().map(|group| group.len()).collect::<Vec<_>>();
        assert!(all_equal(num_groups, students.len(), &group_sizes));
    }
}

fn six_in_pairs() -> (Solution, Vec<RelationshipPair>) {
    let mut solution = Solution::new();
    solution.insert(StudentId(1), GroupId(0));
    solution.insert(StudentId(2), GroupId(0));
    solution.insert(StudentId(3), GroupId(1));
    solution.insert(StudentId(4), GroupId(1));
    solution.insert(StudentId(5), GroupId(2));
    solution.insert(StudentId(6), GroupId(2));
    let restrictions = vec![
        RelationshipPair::new(1.into(), 2.into()),
        RelationshipPair::new(3.into(), 4.into()),
        RelationshipPair::new(5.into(), 6.into()),
    ];
    (solution, restrictions)
}

#[test]
fn objective_test_objective_function() {
    let (solution, restrictions) = six_in_pairs();
    let result = objective(&solution, 3, &restrictions).unwrap();
    assert_eq!(value(result), 6.0);
}

#[test]
fn lib_test_objective_function() {
    let (solution, restrictions) = six_in_pairs();
    let result = objective(&solution, 3, &restrictions).unwrap();
    assert_eq!(value(result), 6.0);
}

#[test]
fn lib_test_annealing() {
    let names = [
        ("Alice", "Smith"),
        ("Bob", "Jones"),
        ("Charlie", "Brown"),
        ("David", "Lee"),
        ("Eve", "Wong"),
        ("Frank", "Chan"),
        ("Grace", "Chen"),
        ("Helen", "Cheng"),
        ("Ivy", "Chu"),
        ("Jack", "Chui"),
        ("Karl", "Chow"),
        ("Lily", "Chang"),
        ("Mandy", "Chiu"),
        ("Nancy", "Chen"),
        ("Oscar", "Chen"),
        ("Peter", "Chen"),
        ("Queenie", "Chen"),
        ("Rachel", "Chen"),
        ("Sandy", "Chen"),
        ("Tom", "Chen"),
        ("Uma", "Chen"),
    ];
    let students: Vec<Student> = names
        .iter()
        .enumerate()
        .map(|(i, (first, last))| {
            Student::new(StudentId(i + 1), first.to_string(), last.to_string())
        })
        .collect();
    let mut rng = StdRng::seed_from_u64(1000);
    let restrictions = generate_random_restriction_pairs(&mut rng, 15, 21);
    let num_groups = 3;
    let ids: Vec<StudentId> = students.iter().map(|s| s.id).collect();
    let result =
        simulated_annealing(ids, num_groups, &restrictions, 100_000, 100, 1000, &mut rng).unwrap();
    assert_eq!(value(result.objective), 0.0);
}
