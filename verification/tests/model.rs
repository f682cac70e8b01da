use course_scheduler::data::{Assignment, Course, Instructor, Room, SchedulingInput};
use course_scheduler::error::SolveError;
use course_scheduler::grouping::first_mentions;
use course_scheduler::model::{build_model, LinearConstraint, PenaltyVariable, Relation};

fn place(course_id: u32, room_id: u32, start_slot: u32) -> Assignment {
    Assignment { course_id, room_id, start_slot }
}

fn two_course_input() -> SchedulingInput {
    SchedulingInput {
        rooms: vec![Room { id: 1, capacity: 30 }],
        courses: vec![
            Course { id: 10, instructor_id: 7, duration_slots: 2, required_capacity: 20 },
            Course { id: 11, instructor_id: 7, duration_slots: 1, required_capacity: 20 },
        ],
        instructors: vec![
            Instructor { id: 7, unavailable_slots: vec![] },
            Instructor { id: 8, unavailable_slots: vec![] },
        ],
        total_timeslots: 3,
    }
}

fn parts(constraint: &LinearConstraint) -> (Vec<usize>, Relation, u32) {
    (constraint.variables.clone(), constraint.relation, constraint.bound)
}

#[test]
fn model_lists_one_variable_per_candidate() {
    let model = build_model(&two_course_input()).unwrap();
    assert_eq!(
        model.candidates,
        vec![place(10, 1, 0), place(10, 1, 1), place(11, 1, 0), place(11, 1, 1), place(11, 1, 2)]
    );
}

#[test]
fn model_constraints_come_by_course_then_room_slot_then_instructor_slot() {
    let model = build_model(&two_course_input()).unwrap();
    let got: Vec<(Vec<usize>, Relation, u32)> = model.constraints.iter().map(parts).collect();
    let expected = vec![
        // Each course exactly once.
        (vec![0, 1], Relation::Equal, 1),
        (vec![2, 3, 4], Relation::Equal, 1),
        // Room 1 at slots 0, 1, 2.
        (vec![0, 2], Relation::AtMost, 1),
        (vec![0, 1, 3], Relation::AtMost, 1),
        (vec![1, 4], Relation::AtMost, 1),
        // Instructor 7 at slots 0, 1, 2; instructor 8 teaches nothing.
        (vec![0, 2], Relation::AtMost, 1),
        (vec![0, 1, 3], Relation::AtMost, 1),
        (vec![1, 4], Relation::AtMost, 1),
    ];
    assert_eq!(got, expected);
}

#[test]
fn model_objective_rewards_starts_before_the_cutoff() {
    let model = build_model(&two_course_input()).unwrap();
    // The cutoff of a three-slot horizon is slot 1.
    assert_eq!(model.morning, vec![0, 2]);
    assert_eq!(model.morning_reward_halves, 2);
    assert_eq!(model.penalty_cost_halves, 1);
}

#[test]
fn model_has_one_penalty_variable_per_instructor_and_boundary() {
    let mut input = two_course_input();
    input.courses.push(Course { id: 12, instructor_id: 3, duration_slots: 1, required_capacity: 1 });
    let model = build_model(&input).unwrap();
    let expected = vec![
        PenaltyVariable { instructor_id: 7, boundary_slot: 0 },
        PenaltyVariable { instructor_id: 7, boundary_slot: 1 },
        PenaltyVariable { instructor_id: 3, boundary_slot: 0 },
        PenaltyVariable { instructor_id: 3, boundary_slot: 1 },
    ];
    assert_eq!(model.penalties, expected);
}

#[test]
fn single_slot_horizon_has_no_penalty_variables() {
    let mut input = two_course_input();
    input.total_timeslots = 1;
    let model = build_model(&input).unwrap();
    assert_eq!(model.candidates, vec![place(11, 1, 0)]);
    assert!(model.penalties.is_empty());
    assert_eq!(model.morning, Vec::<usize>::new());
}

#[test]
fn course_without_candidates_still_gets_its_constraint() {
    let mut input = two_course_input();
    input.courses[0].required_capacity = 31;
    let model = build_model(&input).unwrap();
    assert_eq!(model.candidates, vec![place(11, 1, 0), place(11, 1, 1), place(11, 1, 2)]);
    assert_eq!(parts(&model.constraints[0]), (vec![], Relation::Equal, 1));
    assert_eq!(parts(&model.constraints[1]), (vec![0, 1, 2], Relation::Equal, 1));
}

#[test]
fn instructor_constraints_cover_all_courses_of_the_instructor() {
    let input = SchedulingInput {
        rooms: vec![Room { id: 1, capacity: 30 }, Room { id: 2, capacity: 30 }],
        courses: vec![
            Course { id: 1, instructor_id: 5, duration_slots: 1, required_capacity: 1 },
            Course { id: 2, instructor_id: 6, duration_slots: 1, required_capacity: 1 },
            Course { id: 3, instructor_id: 5, duration_slots: 1, required_capacity: 1 },
        ],
        instructors: vec![
            Instructor { id: 6, unavailable_slots: vec![] },
            Instructor { id: 5, unavailable_slots: vec![] },
        ],
        total_timeslots: 1,
    };
    let model = build_model(&input).unwrap();
    // Candidates: (1,1,0) (1,2,0) (2,1,0) (2,2,0) (3,1,0) (3,2,0).
    assert_eq!(model.candidates.len(), 6);
    // 3 course constraints, 2 room constraints, then instructor 6, then 5.
    assert_eq!(model.constraints.len(), 7);
    assert_eq!(parts(&model.constraints[3]), (vec![0, 2, 4], Relation::AtMost, 1));
    assert_eq!(parts(&model.constraints[4]), (vec![1, 3, 5], Relation::AtMost, 1));
    assert_eq!(parts(&model.constraints[5]), (vec![2, 3], Relation::AtMost, 1));
    assert_eq!(parts(&model.constraints[6]), (vec![0, 1, 4, 5], Relation::AtMost, 1));
}

#[test]
fn no_candidate_at_all_is_an_error() {
    let mut input = two_course_input();
    input.rooms[0].capacity = 5;
    match build_model(&input) {
        Err(SolveError::EmptyCandidateSet) => {}
        other => panic!("expected an empty candidate set, got {:?}", other.map(|m| m.candidates)),
    }
}

#[test]
fn keys_are_listed_once_in_order_of_first_mention() {
    let pairs = vec![(4u32, 'a'), (2, 'b'), (4, 'c'), (9, 'd'), (2, 'e')];
    assert_eq!(first_mentions(&pairs), vec![4, 2, 9]);
    assert_eq!(first_mentions(&Vec::<(u32, char)>::new()), Vec::<u32>::new());
}
