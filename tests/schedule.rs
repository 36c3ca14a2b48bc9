use std::collections::HashMap;
use timetable::fitness::average;
use timetable::model::{ConfigError, Dna, Problem, Timetable, HOURS};
use timetable::operators::{recombine, Crossover};

fn problem(
    groups: Vec<(usize, Vec<(usize, usize)>)>,
    lecturers: Vec<(usize, usize)>,
    subjects: Vec<(usize, Vec<usize>)>,
) -> Problem {
    Problem::new(
        groups.into_iter().collect::<HashMap<_, _>>(),
        lecturers.into_iter().collect::<HashMap<_, _>>(),
        subjects.into_iter().collect::<HashMap<_, _>>(),
    )
}

fn small_example() -> Timetable {
    let p = problem(
        vec![
            (0, vec![(0, 2), (1, 5), (2, 2), (3, 1)]),
            (1, vec![(0, 1), (3, 2), (4, 6), (2, 1)]),
            (2, vec![(0, 1), (2, 8), (3, 1)]),
        ],
        vec![(0, 6), (1, 6), (2, 10), (3, 4), (4, 4)],
        vec![(0, vec![3]), (1, vec![0, 2]), (2, vec![0, 1]), (3, vec![4]), (4, vec![1, 2])],
    );
    Timetable::new(p, vec![0, 1, 2]).unwrap()
}

/// Two groups; subject 0 taught by lecturer 0 (quota 2), subject 1 by lecturer 1 (quota 1).
fn tiny() -> Timetable {
    let p = problem(
        vec![(0, vec![(0, 1), (1, 1)]), (1, vec![(0, 1)])],
        vec![(0, 2), (1, 1)],
        vec![(0, vec![0]), (1, vec![1])],
    );
    Timetable::new(p, vec![0, 1]).unwrap()
}

fn seed_rng() -> genevo::random::Prng {
    genevo::random::get_rng([7u8; 32])
}

#[test]
fn meetings_expand_in_group_order() {
    let t = tiny();
    assert_eq!(t.meetings, vec![(0, 0), (0, 1), (1, 0)]);
    let t2 = Timetable::new(t.problem.clone(), vec![1, 0]).unwrap();
    assert_eq!(t2.meetings, vec![(1, 0), (0, 0), (0, 1)]);
}

#[test]
fn small_example_has_thirty_meetings() {
    let t = small_example();
    assert_eq!(t.meetings.len(), 30);
    assert_eq!(t.highest_possible_fitness(), 30);
    assert_eq!(t.lowest_possible_fitness(), -30);
}

#[test]
fn unknown_group_is_rejected() {
    let t = tiny();
    assert_eq!(
        Timetable::new(t.problem.clone(), vec![0, 5]).unwrap_err(),
        ConfigError::UnknownGroup(5)
    );
}

#[test]
fn subject_without_lecturer_is_rejected() {
    let p = problem(vec![(0, vec![(0, 1), (9, 2)])], vec![(0, 1)], vec![(0, vec![0]), (9, vec![])]);
    assert_eq!(Timetable::new(p, vec![0]).unwrap_err(), ConfigError::NoLecturerFor(9));
    let p = problem(vec![(0, vec![(3, 1)])], vec![(0, 1)], vec![(0, vec![0])]);
    assert_eq!(Timetable::new(p, vec![0]).unwrap_err(), ConfigError::NoLecturerFor(3));
}

#[test]
fn conflict_free_genome_is_perfect() {
    let t = tiny();
    let g = vec![Dna((0, 0, 0)), Dna((1, 1, 1)), Dna((0, 0, 2))];
    assert_eq!(t.fitness_of(&g), 3);
}

#[test]
fn group_and_lecturer_conflict_costs_a_point() {
    let t = tiny();
    // meeting 2 (group 1) shares hour 0 with lecturer 0: lecturer conflict only.
    let g = vec![Dna((0, 0, 0)), Dna((1, 1, 1)), Dna((0, 0, 0))];
    assert_eq!(t.fitness_of(&g), 2);
    // meeting 1 shares group 0's hour 0: group conflict only.
    let g = vec![Dna((0, 0, 0)), Dna((1, 1, 0)), Dna((0, 0, 2))];
    assert_eq!(t.fitness_of(&g), 2);
}

#[test]
fn both_conflicts_score_minus_one() {
    let p = problem(vec![(0, vec![(0, 3)])], vec![(0, 1)], vec![(0, vec![0])]);
    let t = Timetable::new(p, vec![0]).unwrap();
    // first: +1; second and third: same group hour, lecturer out of hours: -1 each.
    let g = vec![Dna((0, 0, 4)), Dna((0, 0, 4)), Dna((0, 0, 4))];
    assert_eq!(t.fitness_of(&g), -1);
}

#[test]
fn exhausted_lecturers_score_minus_repeated_slots() {
    let p = problem(vec![(0, vec![(0, 4)])], vec![(0, 0)], vec![(0, vec![0])]);
    let t = Timetable::new(p, vec![0]).unwrap();
    let g = vec![Dna((0, 0, 1)), Dna((0, 0, 1)), Dna((0, 0, 2)), Dna((0, 0, 1))];
    assert_eq!(t.fitness_of(&g), -2);
}

#[test]
fn quota_is_claimed_in_meeting_order() {
    let p = problem(vec![(0, vec![(0, 1)]), (1, vec![(0, 1)])], vec![(0, 1)], vec![(0, vec![0])]);
    let t = Timetable::new(p, vec![0, 1]).unwrap();
    // the first meeting takes the single hour; the second scores nothing.
    let g = vec![Dna((0, 0, 0)), Dna((0, 0, 1))];
    assert_eq!(t.fitness_of(&g), 1);
}

#[test]
fn unlisted_lecturer_has_no_hours() {
    let p = problem(vec![(0, vec![(0, 1)])], vec![], vec![(0, vec![7])]);
    let t = Timetable::new(p, vec![0]).unwrap();
    assert_eq!(t.fitness_of(&vec![Dna((0, 7, 0))]), 0);
}

#[test]
fn fitness_stays_within_bounds() {
    let t = small_example();
    let draws: Vec<(usize, usize)> = (0..30).map(|i| (0, i % 3)).collect();
    let g = t.build_genome(&draws);
    let f = t.fitness_of(&g);
    assert!(f >= -30 && f <= 30);
}

#[test]
fn average_rounds_half_away_from_zero() {
    assert_eq!(average(&vec![1, 2]), 2);
    assert_eq!(average(&vec![-1, -2]), -2);
    assert_eq!(average(&vec![1, 1, 2]), 1);
    assert_eq!(average(&vec![10, 20, 31]), 20);
    assert_eq!(average(&vec![]), 0);
    assert_eq!(average(&vec![i64::MIN, i64::MIN]), i64::MIN);
    assert_eq!(average(&vec![i64::MAX, i64::MAX]), i64::MAX);
}

#[test]
fn build_genome_follows_draws() {
    let t = small_example();
    let draws: Vec<(usize, usize)> = t
        .meetings
        .iter()
        .enumerate()
        .map(|(i, (_, s))| (if *s == 1 || *s == 2 || *s == 4 { 1 } else { 0 }, i % HOURS))
        .collect();
    let g = t.build_genome(&draws);
    assert_eq!(g.len(), 30);
    for (i, d) in g.iter().enumerate() {
        let subject = t.meetings[i].1;
        assert_eq!(d.0 .0, subject);
        assert_eq!(d.0 .1, t.problem.subject_requirements[&subject][draws[i].0]);
        assert_eq!(d.0 .2, i % HOURS);
    }
}

#[test]
fn mutation_keeps_subject() {
    let t = small_example();
    let d = Dna((1, 0, 3));
    let m = d.random_mutated(&t.problem, 19, 1);
    assert_eq!(m, Dna((1, 2, 19)));
    let m = d.random_mutated(&t.problem, 0, 0);
    assert_eq!(m, Dna((1, 0, 0)));
}

fn two_parents() -> Vec<Vec<Dna>> {
    let a: Vec<Dna> = (0..6).map(|i| Dna((0, 0, i))).collect();
    let b: Vec<Dna> = (0..6).map(|i| Dna((0, 1, 10 + i))).collect();
    vec![a, b]
}

fn check_children(parents: &Vec<Vec<Dna>>, children: &Vec<Vec<Dna>>) {
    assert_eq!(children.len(), parents.len());
    for c in children {
        assert_eq!(c.len(), parents[0].len());
        for (i, d) in c.iter().enumerate() {
            assert!(parents.iter().any(|p| p[i] == *d));
        }
    }
}

#[test]
fn uniform_crossover_keeps_length() {
    let t = tiny();
    let parents = two_parents();
    let children = recombine(&t, Crossover::Uniform, parents.clone(), &mut seed_rng()).unwrap();
    check_children(&parents, &children);
}

#[test]
fn single_point_crossover_keeps_length() {
    let t = tiny();
    let parents = two_parents();
    let children = recombine(&t, Crossover::SinglePoint, parents.clone(), &mut seed_rng()).unwrap();
    check_children(&parents, &children);
}

#[test]
fn multi_point_crossover_keeps_length() {
    let t = tiny();
    let parents = two_parents();
    let children = recombine(&t, Crossover::MultiPoint(2), parents.clone(), &mut seed_rng()).unwrap();
    check_children(&parents, &children);
    let children = recombine(&t, Crossover::MultiPoint(3), parents.clone(), &mut seed_rng()).unwrap();
    check_children(&parents, &children);
}

#[test]
fn crossover_refuses_unfit_parents() {
    let t = tiny();
    let mut parents = two_parents();
    assert!(recombine(&t, Crossover::Uniform, vec![], &mut seed_rng()).is_none());
    assert!(recombine(&t, Crossover::SinglePoint, vec![parents[0].clone()], &mut seed_rng()).is_none());
    assert!(recombine(&t, Crossover::MultiPoint(0), parents.clone(), &mut seed_rng()).is_none());
    assert!(recombine(&t, Crossover::MultiPoint(4), parents.clone(), &mut seed_rng()).is_none());
    parents[1].pop();
    assert!(recombine(&t, Crossover::Uniform, parents, &mut seed_rng()).is_none());
}

#[test]
fn group_order_must_list_each_group_once() {
    let t = tiny();
    assert_eq!(Timetable::new(t.problem.clone(), vec![0]).unwrap_err(), ConfigError::GroupOrder);
    assert_eq!(Timetable::new(t.problem.clone(), vec![0, 0]).unwrap_err(), ConfigError::GroupOrder);
    assert_eq!(Timetable::new(t.problem.clone(), vec![0, 1, 1]).unwrap_err(), ConfigError::GroupOrder);
}
