use course_scheduler::data::{Assignment, Course, Instructor, Room, SchedulingInput};
use course_scheduler::lookup::index_courses;
use course_scheduler::ordering::{sort_placements, Order};
use course_scheduler::score::calculate_score_and_unmet_constraints;

fn place(course_id: u32, room_id: u32, start_slot: u32) -> Assignment {
    Assignment { course_id, room_id, start_slot }
}

fn campus(courses: Vec<Course>, total_timeslots: u32) -> SchedulingInput {
    SchedulingInput {
        rooms: vec![Room { id: 1, capacity: 100 }, Room { id: 2, capacity: 100 }],
        courses,
        instructors: vec![
            Instructor { id: 1, unavailable_slots: vec![] },
            Instructor { id: 2, unavailable_slots: vec![] },
        ],
        total_timeslots,
    }
}

fn course(id: u32, instructor_id: u32, duration_slots: u32) -> Course {
    Course { id, instructor_id, duration_slots, required_capacity: 10 }
}

#[test]
fn morning_start_scores_one_point() {
    let input = campus(vec![course(5, 1, 1)], 4);
    let courses = index_courses(&input);
    let (score, unmet) = calculate_score_and_unmet_constraints(&[place(5, 1, 1)], &input, &courses);
    assert_eq!(score, 1);
    assert!(unmet.is_empty());
}

#[test]
fn start_at_the_cutoff_is_not_a_morning_start() {
    let input = campus(vec![course(5, 1, 1)], 5);
    let courses = index_courses(&input);
    // The cutoff of a five-slot horizon is slot 2.
    let (score, unmet) = calculate_score_and_unmet_constraints(&[place(5, 1, 2)], &input, &courses);
    assert_eq!(score, -1);
    assert_eq!(unmet.len(), 1);
    assert_eq!(unmet[0].constraint_type, "Prefer Mornings");
    assert_eq!(
        unmet[0].description,
        "Course 5 is scheduled at slot 2, which is not in the morning. Morning starts at 6 am (slot 0) and ends at 12 pm (slot 6)"
    );
}

#[test]
fn empty_schedule_scores_zero() {
    let input = campus(vec![course(5, 1, 1)], 4);
    let courses = index_courses(&input);
    let (score, unmet) = calculate_score_and_unmet_constraints(&[], &input, &courses);
    assert_eq!(score, 0);
    assert!(unmet.is_empty());
}

#[test]
fn back_to_back_classes_cost_a_point_and_are_reported() {
    let input = campus(vec![course(11, 2, 2), course(12, 2, 1)], 8);
    let courses = index_courses(&input);
    let schedule = [place(11, 1, 0), place(12, 2, 2)];
    let (score, unmet) = calculate_score_and_unmet_constraints(&schedule, &input, &courses);
    // Two morning starts, one adjacent pair that touches.
    assert_eq!(score, 1);
    assert_eq!(unmet.len(), 1);
    assert_eq!(unmet[0].constraint_type, "Avoid Back-to-Back Classes");
    assert_eq!(
        unmet[0].description,
        "Instructor 2 has back-to-back classes: Course 11 (ends at slot 2) and Course 12 (starts at slot 2)."
    );
}

#[test]
fn a_gap_between_classes_earns_a_point() {
    let input = campus(vec![course(11, 2, 2), course(12, 2, 1)], 8);
    let courses = index_courses(&input);
    let schedule = [place(11, 1, 0), place(12, 2, 3)];
    let (score, unmet) = calculate_score_and_unmet_constraints(&schedule, &input, &courses);
    assert_eq!(score, 3);
    assert!(unmet.is_empty());
}

#[test]
fn only_consecutive_classes_of_an_instructor_are_compared() {
    let input = campus(vec![course(1, 1, 1), course(2, 1, 1), course(3, 1, 1)], 6);
    let courses = index_courses(&input);
    // Given out of order; the instructor's day is 0, 1, 2.
    let schedule = [place(3, 1, 2), place(1, 1, 0), place(2, 1, 1)];
    let (score, unmet) = calculate_score_and_unmet_constraints(&schedule, &input, &courses);
    // Morning: +1, +1, +1. Pairs (0,1) and (1,2) both touch: -2.
    assert_eq!(score, 1);
    assert_eq!(unmet.len(), 2);
    assert_eq!(
        unmet[0].description,
        "Instructor 1 has back-to-back classes: Course 1 (ends at slot 1) and Course 2 (starts at slot 1)."
    );
    assert_eq!(
        unmet[1].description,
        "Instructor 1 has back-to-back classes: Course 2 (ends at slot 2) and Course 3 (starts at slot 2)."
    );
}

#[test]
fn instructors_are_reported_in_order_of_first_mention() {
    let input = campus(
        vec![course(1, 2, 1), course(2, 1, 1), course(3, 2, 1), course(4, 1, 1)],
        8,
    );
    let courses = index_courses(&input);
    let schedule = [place(1, 1, 4), place(2, 2, 0), place(3, 1, 5), place(4, 2, 1)];
    let (score, unmet) = calculate_score_and_unmet_constraints(&schedule, &input, &courses);
    // Morning: -1, +1, -1, +1. Both instructors have one touching pair: -2.
    assert_eq!(score, -2);
    let kinds: Vec<&str> = unmet.iter().map(|u| u.constraint_type.as_str()).collect();
    assert_eq!(
        kinds,
        vec![
            "Prefer Mornings",
            "Prefer Mornings",
            "Avoid Back-to-Back Classes",
            "Avoid Back-to-Back Classes"
        ]
    );
    assert!(unmet[2].description.starts_with("Instructor 2 "));
    assert!(unmet[3].description.starts_with("Instructor 1 "));
}

#[test]
fn placement_of_an_unknown_course_counts_for_the_morning_only() {
    let input = campus(vec![course(1, 1, 1)], 4);
    let courses = index_courses(&input);
    let schedule = [place(1, 1, 0), place(99, 1, 1)];
    let (score, unmet) = calculate_score_and_unmet_constraints(&schedule, &input, &courses);
    assert_eq!(score, 2);
    assert!(unmet.is_empty());
}

#[test]
fn classes_with_the_same_start_keep_their_order() {
    let input = campus(vec![course(1, 1, 1), course(2, 1, 2), course(3, 1, 1)], 8);
    let courses = index_courses(&input);
    let schedule = [place(1, 1, 0), place(2, 2, 0), place(3, 1, 1)];
    let (score, unmet) = calculate_score_and_unmet_constraints(&schedule, &input, &courses);
    // Day: course 1, course 2, course 3. Course 1 ends at 1, course 2 starts
    // at 0: +1. Course 2 ends at 2, course 3 starts at 1: +1.
    assert_eq!(score, 5);
    assert!(unmet.is_empty());
    let swapped = [place(2, 2, 0), place(1, 1, 0), place(3, 1, 1)];
    let (score, unmet) = calculate_score_and_unmet_constraints(&swapped, &input, &courses);
    // Day: course 2, course 1, course 3. Course 1 ends at 1 where course 3 starts.
    assert_eq!(score, 3);
    assert_eq!(unmet.len(), 1);
}

#[test]
fn scoring_twice_gives_the_same_result() {
    let input = campus(
        vec![course(1, 2, 1), course(2, 1, 1), course(3, 2, 1), course(4, 1, 1)],
        8,
    );
    let courses = index_courses(&input);
    let schedule = [place(1, 1, 4), place(2, 2, 0), place(3, 1, 5), place(4, 2, 1)];
    let (first_score, first_unmet) =
        calculate_score_and_unmet_constraints(&schedule, &input, &courses);
    let (second_score, second_unmet) =
        calculate_score_and_unmet_constraints(&schedule, &input, &courses);
    assert_eq!(first_score, second_score);
    let first: Vec<String> = first_unmet.iter().map(|u| u.to_string()).collect();
    let second: Vec<String> = second_unmet.iter().map(|u| u.to_string()).collect();
    assert_eq!(first, second);
}

#[test]
fn ordering_by_start_is_stable() {
    let items = vec![place(1, 1, 3), place(2, 1, 0), place(3, 1, 3), place(4, 1, 0)];
    let sorted = sort_placements(Order::ByStart, &items);
    assert_eq!(sorted, vec![place(2, 1, 0), place(4, 1, 0), place(1, 1, 3), place(3, 1, 3)]);
}

#[test]
fn ordering_by_placement_compares_course_then_room_then_start() {
    let items = vec![place(2, 1, 0), place(1, 2, 0), place(1, 1, 5), place(1, 1, 2)];
    let sorted = sort_placements(Order::ByPlacement, &items);
    assert_eq!(sorted, vec![place(1, 1, 2), place(1, 1, 5), place(1, 2, 0), place(2, 1, 0)]);
}
