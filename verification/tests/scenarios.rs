use course_scheduler::data::{
    Assignment, Course, Instructor, Room, SchedulingInput, SchedulingOutput,
};
use course_scheduler::decode::decode_solution;
use course_scheduler::error::SolveError;
use course_scheduler::model::{build_model, Model, Relation};

/// A reference optimizer for small models: tries every valuation of the
/// candidate variables and keeps the first one with the highest objective.
/// The penalty variables are free and only cost, so it leaves them unset.
fn reference_optimum(model: &Model) -> Result<Vec<bool>, String> {
    let n = model.candidates.len();
    assert!(n <= 20, "the reference optimizer enumerates all valuations");
    let mut best: Option<(u32, u64)> = None;
    for mask in 0u64..(1u64 << n) {
        let set = |v: usize| mask & (1 << v) != 0;
        let feasible = model.constraints.iter().all(|c| {
            let sum = c.variables.iter().filter(|&&v| set(v)).count() as u32;
            match c.relation {
                Relation::Equal => sum == c.bound,
                Relation::AtMost => sum <= c.bound,
            }
        });
        if !feasible {
            continue;
        }
        let objective =
            model.morning_reward_halves * model.morning.iter().filter(|&&v| set(v)).count() as u32;
        if best.map_or(true, |(value, _)| objective > value) {
            best = Some((objective, mask));
        }
    }
    match best {
        Some((_, mask)) => Ok((0..n).map(|v| mask & (1 << v) != 0).collect()),
        None => Err("infeasible".to_string()),
    }
}

fn solve(input: &SchedulingInput) -> Result<SchedulingOutput, SolveError> {
    let model = build_model(input)?;
    decode_solution(input, reference_optimum(&model))
}

fn place(course_id: u32, room_id: u32, start_slot: u32) -> Assignment {
    Assignment { course_id, room_id, start_slot }
}

fn one_course_input() -> SchedulingInput {
    SchedulingInput {
        rooms: vec![Room { id: 1, capacity: 30 }],
        courses: vec![Course { id: 1, instructor_id: 1, duration_slots: 1, required_capacity: 20 }],
        instructors: vec![Instructor { id: 1, unavailable_slots: vec![] }],
        total_timeslots: 4,
    }
}

fn two_course_input() -> SchedulingInput {
    SchedulingInput {
        rooms: vec![Room { id: 1, capacity: 30 }, Room { id: 2, capacity: 30 }],
        courses: vec![
            Course { id: 1, instructor_id: 1, duration_slots: 1, required_capacity: 20 },
            Course { id: 2, instructor_id: 1, duration_slots: 1, required_capacity: 20 },
        ],
        instructors: vec![Instructor { id: 1, unavailable_slots: vec![] }],
        total_timeslots: 4,
    }
}

#[test]
fn single_course_is_placed_in_the_first_morning_slot() {
    let output = solve(&one_course_input()).unwrap();
    assert_eq!(output.assignments, vec![place(1, 1, 0)]);
    assert_eq!(output.score, 1);
    assert!(output.unmet_soft_constraints.is_empty());
}

#[test]
fn rooms_too_small_for_every_course_give_an_empty_candidate_set() {
    let input = SchedulingInput {
        rooms: vec![Room { id: 1, capacity: 5 }, Room { id: 2, capacity: 5 }],
        courses: vec![
            Course { id: 1, instructor_id: 1, duration_slots: 1, required_capacity: 20 },
            Course { id: 2, instructor_id: 1, duration_slots: 1, required_capacity: 20 },
        ],
        instructors: vec![Instructor { id: 1, unavailable_slots: vec![] }],
        total_timeslots: 4,
    };
    assert!(matches!(build_model(&input), Err(SolveError::EmptyCandidateSet)));
    assert!(matches!(
        decode_solution(&input, Ok(vec![])),
        Err(SolveError::EmptyCandidateSet)
    ));
    assert!(matches!(
        decode_solution(&input, Err("unused".to_string())),
        Err(SolveError::EmptyCandidateSet)
    ));
}

#[test]
fn same_instructor_courses_land_in_both_morning_slots_and_are_reported() {
    let input = two_course_input();
    let output = solve(&input).unwrap();
    assert_eq!(output.assignments.len(), 2);
    assert_eq!(output.assignments[0].course_id, 1);
    assert_eq!(output.assignments[1].course_id, 2);
    let mut starts: Vec<u32> = output.assignments.iter().map(|a| a.start_slot).collect();
    starts.sort();
    assert_eq!(starts, vec![0, 1]);
    // Two morning starts, one touching pair.
    assert_eq!(output.score, 1);
    assert_eq!(output.unmet_soft_constraints.len(), 1);
    let unmet = &output.unmet_soft_constraints[0];
    assert_eq!(unmet.constraint_type, "Avoid Back-to-Back Classes");
    let (first, second) = if output.assignments[0].start_slot == 0 { (1, 2) } else { (2, 1) };
    assert_eq!(
        unmet.description,
        format!(
            "Instructor 1 has back-to-back classes: Course {} (ends at slot 1) and Course {} (starts at slot 1).",
            first, second
        )
    );
}

#[test]
fn course_longer_than_the_horizon_gives_an_empty_candidate_set() {
    let input = SchedulingInput {
        rooms: vec![Room { id: 1, capacity: 30 }, Room { id: 2, capacity: 40 }],
        courses: vec![Course { id: 1, instructor_id: 1, duration_slots: 5, required_capacity: 20 }],
        instructors: vec![Instructor { id: 1, unavailable_slots: vec![] }],
        total_timeslots: 4,
    };
    assert!(matches!(solve(&input), Err(SolveError::EmptyCandidateSet)));
}

#[test]
fn one_course_without_candidates_is_a_solver_failure() {
    let mut input = two_course_input();
    input.courses[1].required_capacity = 31;
    match solve(&input) {
        Err(SolveError::SolverFailure(detail)) => assert_eq!(detail, "infeasible"),
        other => panic!("expected a solver failure, got {:?}", other.map(|o| o.assignments)),
    }
}

#[test]
fn solver_failure_text_is_passed_on() {
    let input = one_course_input();
    match decode_solution(&input, Err("model is infeasible".to_string())) {
        Err(error) => assert_eq!(
            error.message(),
            "No solution found. The problem might be too constrained. Solver error: model is infeasible"
        ),
        Ok(_) => panic!("expected a failure"),
    }
}

fn rejected(input: &SchedulingInput, active: Vec<bool>) -> bool {
    match decode_solution(input, Ok(active)) {
        Err(SolveError::SolverFailure(detail)) => {
            assert_eq!(detail, "the valuation breaks a hard constraint");
            true
        }
        _ => false,
    }
}

fn valuation(input: &SchedulingInput, chosen: &[Assignment]) -> Vec<bool> {
    let model = build_model(input).unwrap();
    model.candidates.iter().map(|c| chosen.contains(c)).collect()
}

#[test]
fn valuation_of_the_wrong_length_is_rejected() {
    let input = one_course_input();
    assert!(rejected(&input, vec![true]));
    assert!(rejected(&input, vec![true, false, false, false, false]));
}

#[test]
fn valuation_that_leaves_a_course_out_is_rejected() {
    let input = two_course_input();
    assert!(rejected(&input, valuation(&input, &[place(1, 1, 0)])));
    assert!(rejected(&input, valuation(&input, &[])));
}

#[test]
fn valuation_that_places_a_course_twice_is_rejected() {
    let input = one_course_input();
    assert!(rejected(&input, valuation(&input, &[place(1, 1, 0), place(1, 1, 2)])));
}

#[test]
fn valuation_that_shares_a_room_is_rejected() {
    let mut input = two_course_input();
    input.courses[1].instructor_id = 2;
    input.instructors.push(Instructor { id: 2, unavailable_slots: vec![] });
    input.courses[0].duration_slots = 2;
    assert!(rejected(&input, valuation(&input, &[place(1, 1, 0), place(2, 1, 1)])));
    let output = decode_solution(&input, Ok(valuation(&input, &[place(1, 1, 0), place(2, 2, 1)])));
    assert_eq!(output.unwrap().assignments, vec![place(1, 1, 0), place(2, 2, 1)]);
    let output = decode_solution(&input, Ok(valuation(&input, &[place(1, 1, 0), place(2, 1, 2)])));
    assert_eq!(output.unwrap().assignments, vec![place(1, 1, 0), place(2, 1, 2)]);
}

#[test]
fn valuation_that_shares_an_instructor_is_rejected() {
    let input = two_course_input();
    assert!(rejected(&input, valuation(&input, &[place(1, 1, 2), place(2, 2, 2)])));
}

#[test]
fn returned_assignments_are_ordered_by_course_room_and_start() {
    let input = SchedulingInput {
        rooms: vec![Room { id: 2, capacity: 30 }, Room { id: 1, capacity: 30 }],
        courses: vec![
            Course { id: 9, instructor_id: 1, duration_slots: 1, required_capacity: 20 },
            Course { id: 3, instructor_id: 2, duration_slots: 1, required_capacity: 20 },
            Course { id: 5, instructor_id: 3, duration_slots: 1, required_capacity: 20 },
        ],
        instructors: vec![
            Instructor { id: 1, unavailable_slots: vec![] },
            Instructor { id: 2, unavailable_slots: vec![] },
            Instructor { id: 3, unavailable_slots: vec![] },
        ],
        total_timeslots: 2,
    };
    let chosen = [place(9, 2, 0), place(3, 1, 0), place(5, 2, 1)];
    let output = decode_solution(&input, Ok(valuation(&input, &chosen))).unwrap();
    assert_eq!(output.assignments, vec![place(3, 1, 0), place(5, 2, 1), place(9, 2, 0)]);
    // Morning cutoff is slot 1: two morning starts, one late start.
    assert_eq!(output.score, 1);
    assert_eq!(output.unmet_soft_constraints.len(), 1);
    assert_eq!(output.unmet_soft_constraints[0].constraint_type, "Prefer Mornings");
}

#[test]
fn reference_optimum_meets_every_hard_rule() {
    let input = SchedulingInput {
        rooms: vec![Room { id: 1, capacity: 30 }, Room { id: 2, capacity: 10 }],
        courses: vec![
            Course { id: 1, instructor_id: 1, duration_slots: 2, required_capacity: 20 },
            Course { id: 2, instructor_id: 2, duration_slots: 1, required_capacity: 25 },
            Course { id: 3, instructor_id: 1, duration_slots: 1, required_capacity: 5 },
        ],
        instructors: vec![
            Instructor { id: 1, unavailable_slots: vec![0] },
            Instructor { id: 2, unavailable_slots: vec![] },
        ],
        total_timeslots: 4,
    };
    let output = solve(&input).unwrap();
    assert_eq!(output.assignments.len(), 3);
    for (assignment, course) in output.assignments.iter().zip(&input.courses) {
        assert_eq!(assignment.course_id, course.id);
        let room = input.rooms.iter().find(|r| r.id == assignment.room_id).unwrap();
        assert!(room.capacity >= course.required_capacity);
        assert!(assignment.start_slot + course.duration_slots <= input.total_timeslots);
    }
    for (i, a) in output.assignments.iter().enumerate() {
        for (j, b) in output.assignments.iter().enumerate() {
            if i < j {
                let (ca, cb) = (&input.courses[i], &input.courses[j]);
                let apart = a.start_slot + ca.duration_slots <= b.start_slot
                    || b.start_slot + cb.duration_slots <= a.start_slot;
                if a.room_id == b.room_id || ca.instructor_id == cb.instructor_id {
                    assert!(apart);
                }
            }
        }
    }
    // Instructor 1 cannot teach at slot 0, so neither of their courses starts there.
    assert!(output.assignments[0].start_slot >= 1);
    assert!(output.assignments[2].start_slot >= 1);
}

#[test]
fn valuations_that_meet_the_model_are_exactly_those_that_are_decoded() {
    let input = SchedulingInput {
        rooms: vec![Room { id: 1, capacity: 30 }, Room { id: 2, capacity: 30 }],
        courses: vec![
            Course { id: 1, instructor_id: 1, duration_slots: 2, required_capacity: 20 },
            Course { id: 2, instructor_id: 1, duration_slots: 1, required_capacity: 20 },
            Course { id: 3, instructor_id: 2, duration_slots: 1, required_capacity: 20 },
        ],
        instructors: vec![
            Instructor { id: 1, unavailable_slots: vec![] },
            Instructor { id: 2, unavailable_slots: vec![2] },
        ],
        total_timeslots: 3,
    };
    let model = build_model(&input).unwrap();
    let n = model.candidates.len();
    assert_eq!(n, 14);
    let mut accepted = 0;
    for mask in 0u32..(1 << n) {
        let active: Vec<bool> = (0..n).map(|v| mask & (1 << v) != 0).collect();
        let meets_model = model.constraints.iter().all(|c| {
            let sum = c.variables.iter().filter(|&&v| active[v]).count() as u32;
            match c.relation {
                Relation::Equal => sum == c.bound,
                Relation::AtMost => sum <= c.bound,
            }
        });
        let decoded = decode_solution(&input, Ok(active)).is_ok();
        assert_eq!(meets_model, decoded, "valuation {:#b}", mask);
        if decoded {
            accepted += 1;
        }
    }
    assert!(accepted > 0);
}
