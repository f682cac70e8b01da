//! Decoding of an optimizer's valuation into a schedule, and the hard rules
//! that a schedule has to meet before it is returned.

use crate::data::{
    unmet_texts, Assignment, Course, CourseId, SchedulingInput, SchedulingOutput,
};
use crate::error::SolveError;
use crate::feasibility::{admissible, generate_candidates, lemma_candidates_are_the_admissible};
use crate::lookup::{course_index, index_courses, index_instructors, instructor_index};
use crate::model::{feasible_candidates, in_session, is_in_session};
use crate::ordering::{
    ascending, lemma_sorted_by, lemma_sorted_by_contains, sort_placements, sorted_by, Order,
};
use crate::score::{
    calculate_score_and_unmet_constraints, schedule_score, schedule_unmet, MAX_SCORED_ASSIGNMENTS,
};
use std::collections::HashMap;
use vstd::prelude::*;
use vstd::string::StringExecFns;

verus! {

broadcast use vstd::std_specs::hash::group_hash_axioms;

/// The candidates whose variable the valuation sets, in candidate order.
pub open spec fn selected(cands: Seq<Assignment>, active: Seq<bool>) -> Seq<Assignment>
    decreases cands.len(),
{
    if cands.len() == 0 {
        Seq::empty()
    } else {
        let front = selected(cands.drop_last(), active);
        if active[cands.len() - 1] {
            front.push(cands.last())
        } else {
            front
        }
    }
}

/// The schedule that a valuation stands for: the selected candidates by
/// course, then room, then start slot.
pub open spec fn decoded(cands: Seq<Assignment>, active: Seq<bool>) -> Seq<Assignment> {
    sorted_by(Order::ByPlacement, selected(cands, active))
}

/// How many placements the schedule has for a course.
pub open spec fn placements_of(schedule: Seq<Assignment>, course_id: CourseId) -> nat
    decreases schedule.len(),
{
    if schedule.len() == 0 {
        0
    } else {
        placements_of(schedule.drop_last(), course_id) + if schedule.last().course_id
            == course_id {
            1nat
        } else {
            0nat
        }
    }
}

/// Whether two placements are in session at the same time: at the later of
/// their two starts, both are.
pub open spec fn overlap(course_map: Map<CourseId, &Course>, a: Assignment, b: Assignment) -> bool {
    let later_start = if a.start_slot >= b.start_slot {
        a.start_slot
    } else {
        b.start_slot
    };
    in_session(course_map, a, later_start) && in_session(course_map, b, later_start)
}

/// Whether the courses of two placements are on record with the same
/// instructor.
pub open spec fn same_instructor(
    course_map: Map<CourseId, &Course>,
    a: Assignment,
    b: Assignment,
) -> bool {
    &&& course_map.contains_key(a.course_id)
    &&& course_map.contains_key(b.course_id)
    &&& course_map[a.course_id].instructor_id == course_map[b.course_id].instructor_id
}

/// Every placement is admissible.
pub open spec fn all_admissible(input: &SchedulingInput, schedule: Seq<Assignment>) -> bool {
    forall|i: int|
        0 <= i < schedule.len() ==> admissible(
            #[trigger] schedule[i],
            input.courses@,
            input.rooms@,
            input.total_timeslots,
            instructor_index(&input.instructors@),
        )
}

/// Every course of the request has exactly one placement.
pub open spec fn every_course_once(courses: Seq<Course>, schedule: Seq<Assignment>) -> bool {
    forall|c: int| 0 <= c < courses.len() ==> placements_of(schedule, (#[trigger] courses[c]).id) == 1
}

/// No two placements in the same room overlap.
pub open spec fn rooms_never_shared(
    course_map: Map<CourseId, &Course>,
    schedule: Seq<Assignment>,
) -> bool {
    forall|i: int, j: int|
        0 <= i < j < schedule.len() && (#[trigger] schedule[i]).room_id == (
        #[trigger] schedule[j]).room_id ==> !overlap(course_map, schedule[i], schedule[j])
}

/// No two placements of the same instructor overlap.
pub open spec fn instructors_never_shared(
    course_map: Map<CourseId, &Course>,
    schedule: Seq<Assignment>,
) -> bool {
    forall|i: int, j: int|
        0 <= i < j < schedule.len() && same_instructor(
            course_map,
            #[trigger] schedule[i],
            #[trigger] schedule[j],
        ) ==> !overlap(course_map, schedule[i], schedule[j])
}

/// The hard rules of a schedule for a request.
pub open spec fn hard_rules_hold(input: &SchedulingInput, schedule: Seq<Assignment>) -> bool {
    let course_map = course_index(&input.courses@);
    &&& all_admissible(input, schedule)
    &&& every_course_once(input.courses@, schedule)
    &&& rooms_never_shared(course_map, schedule)
    &&& instructors_never_shared(course_map, schedule)
}

/// Whether a valuation is taken for a schedule: it has one value per
/// candidate, and the schedule it stands for is small enough to be scored,
/// places every course once and shares no room and no instructor.
pub open spec fn accepts(input: &SchedulingInput, active: Seq<bool>) -> bool {
    let course_map = course_index(&input.courses@);
    let schedule = decoded(feasible_candidates(input), active);
    &&& active.len() == feasible_candidates(input).len()
    &&& schedule.len() <= MAX_SCORED_ASSIGNMENTS
    &&& every_course_once(input.courses@, schedule)
    &&& rooms_never_shared(course_map, schedule)
    &&& instructors_never_shared(course_map, schedule)
}

/// What is reported when a valuation is not taken for a schedule.
pub open spec fn rejected_valuation_text() -> Seq<char> {
    "the valuation breaks a hard constraint"@
}

/// Every selected candidate is a candidate.
pub proof fn lemma_selected_are_candidates(
    cands: Seq<Assignment>,
    active: Seq<bool>,
    placement: Assignment,
)
    requires
        selected(cands, active).contains(placement),
    ensures
        cands.contains(placement),
    decreases cands.len(),
{
    if cands.len() > 0 {
        let front = selected(cands.drop_last(), active);
        let chosen = selected(cands, active);
        let i = choose|i: int| 0 <= i < chosen.len() && chosen[i] == placement;
        if i < front.len() {
            assert(front[i] == placement);
            lemma_selected_are_candidates(cands.drop_last(), active, placement);
            let k = choose|k: int|
                0 <= k < cands.drop_last().len() && cands.drop_last()[k] == placement;
            assert(cands[k] == placement);
        } else {
            assert(cands[cands.len() - 1] == placement);
        }
    }
}

/// Whatever the valuation, the schedule it stands for is ordered and holds
/// admissible placements only.
pub proof fn lemma_decoded(input: &SchedulingInput, active: Seq<bool>)
    ensures
        ascending(Order::ByPlacement, decoded(feasible_candidates(input), active)),
        all_admissible(input, decoded(feasible_candidates(input), active)),
{
    let cands = feasible_candidates(input);
    let chosen = selected(cands, active);
    let schedule = decoded(cands, active);
    lemma_sorted_by(Order::ByPlacement, chosen);
    assert forall|i: int| 0 <= i < schedule.len() implies admissible(
        #[trigger] schedule[i],
        input.courses@,
        input.rooms@,
        input.total_timeslots,
        instructor_index(&input.instructors@),
    ) by {
        assert(schedule.contains(schedule[i]));
        lemma_sorted_by_contains(Order::ByPlacement, chosen, schedule[i]);
        lemma_selected_are_candidates(cands, active, schedule[i]);
        lemma_candidates_are_the_admissible(
            input.courses@,
            input.rooms@,
            input.total_timeslots,
            instructor_index(&input.instructors@),
            schedule[i],
        );
    }
}

fn select_active(cands: &Vec<Assignment>, active: &Vec<bool>) -> (chosen: Vec<Assignment>)
    requires
        active@.len() == cands@.len(),
    ensures
        chosen@ == selected(cands@, active@),
{
    let mut chosen: Vec<Assignment> = Vec::new();
    let mut i: usize = 0;
    while i < cands.len()
        invariant
            i <= cands.len(),
            active@.len() == cands@.len(),
            chosen@ == selected(cands@.take(i as int), active@),
        decreases cands.len() - i,
    {
        proof {
            assert(cands@.take(i + 1).drop_last() == cands@.take(i as int));
        }
        if active[i] {
            chosen.push(cands[i]);
        }
        i += 1;
    }
    proof {
        assert(cands@.take(i as int) == cands@);
    }
    chosen
}

fn count_placements(schedule: &Vec<Assignment>, course_id: CourseId) -> (count: usize)
    ensures
        count == placements_of(schedule@, course_id),
{
    let mut count: usize = 0;
    let mut i: usize = 0;
    while i < schedule.len()
        invariant
            i <= schedule.len(),
            count <= i,
            count == placements_of(schedule@.take(i as int), course_id),
        decreases schedule.len() - i,
    {
        proof {
            assert(schedule@.take(i + 1).drop_last() == schedule@.take(i as int));
        }
        if schedule[i].course_id == course_id {
            count += 1;
        }
        i += 1;
    }
    proof {
        assert(schedule@.take(i as int) == schedule@);
    }
    count
}

fn places_every_course_once(input: &SchedulingInput, schedule: &Vec<Assignment>) -> (yes: bool)
    ensures
        yes == every_course_once(input.courses@, schedule@),
{
    let mut c: usize = 0;
    while c < input.courses.len()
        invariant
            c <= input.courses.len(),
            forall|d: int|
                0 <= d < c ==> placements_of(schedule@, (#[trigger] input.courses@[d]).id) == 1,
        decreases input.courses.len() - c,
    {
        if count_placements(schedule, input.courses[c].id) != 1 {
            return false;
        }
        c += 1;
    }
    true
}

fn in_conflict(course_map: &HashMap<CourseId, &Course>, a: &Assignment, b: &Assignment) -> (yes:
    bool)
    ensures
        yes == ((a.room_id == b.room_id || same_instructor(course_map@, *a, *b)) && overlap(
            course_map@,
            *a,
            *b,
        )),
{
    let later_start = if a.start_slot >= b.start_slot {
        a.start_slot
    } else {
        b.start_slot
    };
    if !(is_in_session(course_map, a, later_start) && is_in_session(course_map, b, later_start)) {
        return false;
    }
    if a.room_id == b.room_id {
        return true;
    }
    match (course_map.get(&a.course_id), course_map.get(&b.course_id)) {
        (Some(first), Some(second)) => first.instructor_id == second.instructor_id,
        _ => false,
    }
}

fn shares_nothing(course_map: &HashMap<CourseId, &Course>, schedule: &Vec<Assignment>) -> (yes:
    bool)
    ensures
        yes == (rooms_never_shared(course_map@, schedule@) && instructors_never_shared(
            course_map@,
            schedule@,
        )),
{
    let mut j: usize = 0;
    while j < schedule.len()
        invariant
            j <= schedule.len(),
            forall|p: int, q: int|
                0 <= p < q < j ==> !((#[trigger] schedule@[p]).room_id == (
                #[trigger] schedule@[q]).room_id && overlap(course_map@, schedule@[p], schedule@[q])),
            forall|p: int, q: int|
                0 <= p < q < j ==> !(same_instructor(
                    course_map@,
                    #[trigger] schedule@[p],
                    #[trigger] schedule@[q],
                ) && overlap(course_map@, schedule@[p], schedule@[q])),
        decreases schedule.len() - j,
    {
        let mut i: usize = 0;
        while i < j
            invariant
                i <= j < schedule.len(),
                forall|p: int|
                    0 <= p < i ==> !((#[trigger] schedule@[p]).room_id == schedule@[j as int].room_id
                        && overlap(course_map@, schedule@[p], schedule@[j as int])),
                forall|p: int|
                    0 <= p < i ==> !(same_instructor(
                        course_map@,
                        #[trigger] schedule@[p],
                        schedule@[j as int],
                    ) && overlap(course_map@, schedule@[p], schedule@[j as int])),
            decreases j - i,
        {
            if in_conflict(course_map, &schedule[i], &schedule[j]) {
                return false;
            }
            i += 1;
        }
        j += 1;
    }
    true
}

/// Turns the outcome of an optimizer run on the model of `input` into the
/// result of the solve. `outcome` is the optimizer's failure text, or one
/// value per candidate of the model, in candidate order: whether the
/// optimizer set that candidate's variable.
///
/// The candidates are enumerated afresh from `input`, and the schedule is
/// returned only if it meets the hard rules, whatever the optimizer did.
pub fn decode_solution(input: &SchedulingInput, outcome: Result<Vec<bool>, String>) -> (result:
    Result<SchedulingOutput, SolveError>)
    ensures
        match result {
            Ok(output) => {
                &&& feasible_candidates(input).len() > 0
                &&& outcome matches Ok(active) && accepts(input, active@) && output.assignments@
                    == decoded(feasible_candidates(input), active@)
                &&& hard_rules_hold(input, output.assignments@)
                &&& ascending(Order::ByPlacement, output.assignments@)
                &&& output.score == schedule_score(
                    output.assignments@,
                    input.total_timeslots,
                    course_index(&input.courses@),
                )
                &&& unmet_texts(output.unmet_soft_constraints@) == schedule_unmet(
                    output.assignments@,
                    input.total_timeslots,
                    course_index(&input.courses@),
                )
            },
            Err(SolveError::EmptyCandidateSet) => feasible_candidates(input).len() == 0,
            Err(SolveError::SolverFailure(detail)) => {
                &&& feasible_candidates(input).len() > 0
                &&& match outcome {
                    Ok(active) => !accepts(input, active@) && detail@ == rejected_valuation_text(),
                    Err(said) => detail == said,
                }
            },
        },
{
    let instructor_map = index_instructors(input);
    let cands = generate_candidates(input, &instructor_map);
    if cands.len() == 0 {
        return Err(SolveError::EmptyCandidateSet);
    }
    let active = match outcome {
        Err(said) => {
            return Err(SolveError::SolverFailure(said));
        },
        Ok(active) => active,
    };
    if active.len() != cands.len() {
        return Err(SolveError::SolverFailure(rejected_valuation()));
    }
    let chosen = select_active(&cands, &active);
    let assignments = sort_placements(Order::ByPlacement, &chosen);
    let course_map = index_courses(input);
    proof {
        lemma_decoded(input, active@);
    }
    if assignments.len() > MAX_SCORED_ASSIGNMENTS || !places_every_course_once(input, &assignments)
        || !shares_nothing(&course_map, &assignments) {
        return Err(SolveError::SolverFailure(rejected_valuation()));
    }
    let (score, unmet_soft_constraints) = calculate_score_and_unmet_constraints(
        assignments.as_slice(),
        input,
        &course_map,
    );
    Ok(SchedulingOutput { assignments, score, unmet_soft_constraints })
}

fn rejected_valuation() -> (text: String)
    ensures
        text@ == rejected_valuation_text(),
{
    String::from_str("the valuation breaks a hard constraint")
}

} // verus!
