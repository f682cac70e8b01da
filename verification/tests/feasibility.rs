use course_scheduler::data::{Assignment, Course, Instructor, Room, SchedulingInput};
use course_scheduler::feasibility::{generate_candidates, is_assignment_possible};
use course_scheduler::lookup::{index_courses, index_instructors};

fn input_with(unavailable: Vec<u32>, total_timeslots: u32) -> SchedulingInput {
    SchedulingInput {
        rooms: vec![Room { id: 1, capacity: 30 }],
        courses: vec![Course { id: 10, instructor_id: 7, duration_slots: 2, required_capacity: 20 }],
        instructors: vec![Instructor { id: 7, unavailable_slots: unavailable }],
        total_timeslots,
    }
}

#[test]
fn placement_inside_the_horizon_is_possible() {
    let input = input_with(vec![], 4);
    let instructors = index_instructors(&input);
    assert!(is_assignment_possible(&input.courses[0], &input.rooms[0], 0, &input, &instructors));
    assert!(is_assignment_possible(&input.courses[0], &input.rooms[0], 2, &input, &instructors));
}

#[test]
fn placement_running_past_the_horizon_is_rejected() {
    let input = input_with(vec![], 4);
    let instructors = index_instructors(&input);
    assert!(!is_assignment_possible(&input.courses[0], &input.rooms[0], 3, &input, &instructors));
    assert!(!is_assignment_possible(&input.courses[0], &input.rooms[0], 4, &input, &instructors));
}

#[test]
fn start_and_duration_near_the_integer_limit_are_rejected() {
    let mut input = input_with(vec![], u32::MAX);
    input.courses[0].duration_slots = u32::MAX;
    let instructors = index_instructors(&input);
    assert!(is_assignment_possible(&input.courses[0], &input.rooms[0], 0, &input, &instructors));
    assert!(!is_assignment_possible(&input.courses[0], &input.rooms[0], 1, &input, &instructors));
    assert!(!is_assignment_possible(
        &input.courses[0],
        &input.rooms[0],
        u32::MAX,
        &input,
        &instructors
    ));
}

#[test]
fn room_that_is_too_small_is_rejected() {
    let mut input = input_with(vec![], 4);
    input.rooms[0].capacity = 19;
    let instructors = index_instructors(&input);
    assert!(!is_assignment_possible(&input.courses[0], &input.rooms[0], 0, &input, &instructors));
    input.rooms[0].capacity = 20;
    let instructors = index_instructors(&input);
    assert!(is_assignment_possible(&input.courses[0], &input.rooms[0], 0, &input, &instructors));
}

#[test]
fn course_without_instructor_record_is_rejected() {
    let mut input = input_with(vec![], 4);
    input.instructors[0].id = 8;
    let instructors = index_instructors(&input);
    assert!(!is_assignment_possible(&input.courses[0], &input.rooms[0], 0, &input, &instructors));
}

#[test]
fn unavailable_slot_inside_the_session_is_rejected() {
    let input = input_with(vec![2], 6);
    let instructors = index_instructors(&input);
    let course = &input.courses[0];
    let room = &input.rooms[0];
    // The session occupies [start, start + 2).
    assert!(is_assignment_possible(course, room, 0, &input, &instructors));
    assert!(!is_assignment_possible(course, room, 1, &input, &instructors));
    assert!(!is_assignment_possible(course, room, 2, &input, &instructors));
    assert!(is_assignment_possible(course, room, 3, &input, &instructors));
}

#[test]
fn last_instructor_record_with_an_identity_wins() {
    let mut input = input_with(vec![0], 4);
    input.instructors.push(Instructor { id: 7, unavailable_slots: vec![3] });
    let instructors = index_instructors(&input);
    assert_eq!(instructors.len(), 1);
    assert_eq!(instructors[&7].unavailable_slots, vec![3]);
    let course = &input.courses[0];
    let room = &input.rooms[0];
    assert!(is_assignment_possible(course, room, 0, &input, &instructors));
    assert!(!is_assignment_possible(course, room, 2, &input, &instructors));
}

#[test]
fn last_course_record_with_an_identity_wins() {
    let mut input = input_with(vec![], 4);
    input.courses.push(Course { id: 10, instructor_id: 9, duration_slots: 1, required_capacity: 5 });
    let courses = index_courses(&input);
    assert_eq!(courses.len(), 1);
    assert_eq!(courses[&10].instructor_id, 9);
    assert_eq!(courses[&10].duration_slots, 1);
}

#[test]
fn candidates_come_by_course_then_room_then_start() {
    let input = SchedulingInput {
        rooms: vec![Room { id: 2, capacity: 10 }, Room { id: 1, capacity: 50 }],
        courses: vec![
            Course { id: 20, instructor_id: 1, duration_slots: 2, required_capacity: 40 },
            Course { id: 10, instructor_id: 2, duration_slots: 1, required_capacity: 5 },
        ],
        instructors: vec![
            Instructor { id: 1, unavailable_slots: vec![] },
            Instructor { id: 2, unavailable_slots: vec![1] },
        ],
        total_timeslots: 3,
    };
    let instructors = index_instructors(&input);
    let found = generate_candidates(&input, &instructors);
    let expected = vec![
        Assignment { course_id: 20, room_id: 1, start_slot: 0 },
        Assignment { course_id: 20, room_id: 1, start_slot: 1 },
        Assignment { course_id: 10, room_id: 2, start_slot: 0 },
        Assignment { course_id: 10, room_id: 2, start_slot: 2 },
        Assignment { course_id: 10, room_id: 1, start_slot: 0 },
        Assignment { course_id: 10, room_id: 1, start_slot: 2 },
    ];
    assert_eq!(found, expected);
}

#[test]
fn empty_horizon_has_no_candidates() {
    let input = input_with(vec![], 0);
    let instructors = index_instructors(&input);
    assert!(generate_candidates(&input, &instructors).is_empty());
}
