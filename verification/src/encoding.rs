//! Why the model encodes the hard rules: for a request whose courses carry
//! distinct identities, a valuation meets every constraint of the model
//! exactly when the schedule it stands for places every course once and
//! shares no room and no instructor.

use crate::data::{Assignment, Course, CourseId, Instructor, Room, SchedulingInput};
use crate::decode::{
    accepts, decoded, every_course_once, hard_rules_hold, instructors_never_shared,
    lemma_decoded, overlap, placements_of, rooms_never_shared, same_instructor, selected,
};
use crate::feasibility::{assignment_possible, lemma_candidates_are_the_admissible};
use crate::grouping::lemma_values_with_key;
use crate::lookup::{course_index, instructor_index, lemma_course_index, lemma_instructor_index};
use crate::model::{
    course_constraints, course_pairs, feasible_candidates, in_scope, in_session,
    instructor_constraints,
    model_of, room_constraints, scope_variables, sum_constraint, taught_by, ConstraintView, Model,
    ModelView, Relation, Scope,
};
use crate::ordering::{at_most, insert_ordered, lemma_sorted_by_contains, sorted_by, Order};
use crate::score::MAX_SCORED_ASSIGNMENTS;
use vstd::prelude::*;

verus! {

/// How many of the listed variables the valuation sets.
pub open spec fn set_count(variables: Seq<usize>, active: Seq<bool>) -> nat
    decreases variables.len(),
{
    if variables.len() == 0 {
        0
    } else {
        set_count(variables.drop_last(), active) + if active[variables.last() as int] {
            1nat
        } else {
            0nat
        }
    }
}

/// Whether the valuation meets the constraint.
pub open spec fn satisfies(constraint: ConstraintView, active: Seq<bool>) -> bool {
    match constraint.relation {
        Relation::Equal => set_count(constraint.variables, active) == constraint.bound,
        Relation::AtMost => set_count(constraint.variables, active) <= constraint.bound,
    }
}

/// Whether the valuation has one value per candidate and meets every
/// constraint of the model.
pub open spec fn feasible(model: ModelView, active: Seq<bool>) -> bool {
    &&& active.len() == model.candidates.len()
    &&& forall|k: int|
        0 <= k < model.constraints.len() ==> satisfies(#[trigger] model.constraints[k], active)
}

/// Whether no two courses of the request carry the same identity.
pub open spec fn distinct_course_ids(courses: Seq<Course>) -> bool {
    forall|i: int, j: int|
        0 <= i < j < courses.len() ==> (#[trigger] courses[i]).id != (#[trigger] courses[j]).id
}

proof fn lemma_selected_index(cands: Seq<Assignment>, active: Seq<bool>, placement: Assignment)
    requires
        selected(cands, active).contains(placement),
    ensures
        exists|p: int| 0 <= p < cands.len() && active[p] && #[trigger] cands[p] == placement,
    decreases cands.len(),
{
    if cands.len() > 0 {
        let front = selected(cands.drop_last(), active);
        let chosen = selected(cands, active);
        let i = choose|i: int| 0 <= i < chosen.len() && chosen[i] == placement;
        if i < front.len() {
            assert(front[i] == placement);
            lemma_selected_index(cands.drop_last(), active, placement);
            let p = choose|p: int|
                0 <= p < cands.drop_last().len() && active[p] && #[trigger] cands.drop_last()[p]
                    == placement;
            assert(cands[p] == placement);
        } else {
            assert(cands[cands.len() - 1] == placement);
        }
    }
}

proof fn lemma_selected_count(
    cands: Seq<Assignment>,
    course_map: Map<CourseId, &Course>,
    active: Seq<bool>,
    course_id: CourseId,
)
    requires
        cands.len() <= usize::MAX,
    ensures
        placements_of(selected(cands, active), course_id) == set_count(
            scope_variables(cands, course_map, Scope::Course(course_id)),
            active,
        ),
    decreases cands.len(),
{
    if cands.len() > 0 {
        let front = cands.drop_last();
        lemma_selected_count(front, course_map, active, course_id);
        let variables = scope_variables(front, course_map, Scope::Course(course_id));
        let chosen = selected(front, active);
        let last = (cands.len() - 1) as usize;
        assert(variables.push(last).drop_last() == variables);
        assert(chosen.push(cands.last()).drop_last() == chosen);
    }
}

proof fn lemma_inserted_count(
    order: Order,
    items: Seq<Assignment>,
    item: Assignment,
    course_id: CourseId,
)
    ensures
        placements_of(insert_ordered(order, items, item), course_id) == placements_of(
            items,
            course_id,
        ) + if item.course_id == course_id {
            1nat
        } else {
            0nat
        },
    decreases items.len(),
{
    if items.len() == 0 {
        assert(seq![item].drop_last() == items);
    } else if at_most(order, items.last(), item) {
        assert(items.push(item).drop_last() == items);
    } else {
        lemma_inserted_count(order, items.drop_last(), item, course_id);
        let inner = insert_ordered(order, items.drop_last(), item);
        assert(inner.push(items.last()).drop_last() == inner);
    }
}

proof fn lemma_sorted_count(order: Order, items: Seq<Assignment>, course_id: CourseId)
    ensures
        placements_of(sorted_by(order, items), course_id) == placements_of(items, course_id),
    decreases items.len(),
{
    if items.len() > 0 {
        lemma_sorted_count(order, items.drop_last(), course_id);
        lemma_inserted_count(order, sorted_by(order, items.drop_last()), items.last(), course_id);
    }
}

proof fn lemma_two_placements(schedule: Seq<Assignment>, i: int, j: int)
    requires
        0 <= i < j < schedule.len(),
        schedule[i].course_id == schedule[j].course_id,
    ensures
        placements_of(schedule, schedule[i].course_id) >= 2,
    decreases schedule.len(),
{
    let front = schedule.drop_last();
    if j < schedule.len() - 1 {
        assert(front[i] == schedule[i] && front[j] == schedule[j]);
        lemma_two_placements(front, i, j);
    } else {
        assert(front[i] == schedule[i]);
        lemma_one_placement(front, i);
    }
}

proof fn lemma_one_placement(schedule: Seq<Assignment>, i: int)
    requires
        0 <= i < schedule.len(),
    ensures
        placements_of(schedule, schedule[i].course_id) >= 1,
    decreases schedule.len(),
{
    let front = schedule.drop_last();
    if i < schedule.len() - 1 {
        assert(front[i] == schedule[i]);
        lemma_one_placement(front, i);
    }
}

proof fn lemma_set_count_step(
    cands: Seq<Assignment>,
    course_map: Map<CourseId, &Course>,
    scope: Scope,
    active: Seq<bool>,
    n: int,
)
    requires
        0 <= n < cands.len() <= usize::MAX,
    ensures
        set_count(scope_variables(cands.take(n + 1), course_map, scope), active) == set_count(
            scope_variables(cands.take(n), course_map, scope),
            active,
        ) + if in_scope(scope, course_map, cands[n]) && active[n] {
            1nat
        } else {
            0nat
        },
{
    assert(cands.take(n + 1).drop_last() == cands.take(n));
    let variables = scope_variables(cands.take(n), course_map, scope);
    assert(variables.push(n as usize).drop_last() == variables);
}

proof fn lemma_set_count_grows(
    cands: Seq<Assignment>,
    course_map: Map<CourseId, &Course>,
    scope: Scope,
    active: Seq<bool>,
    n: int,
    m: int,
)
    requires
        0 <= n <= m <= cands.len() <= usize::MAX,
    ensures
        set_count(scope_variables(cands.take(n), course_map, scope), active) <= set_count(
            scope_variables(cands.take(m), course_map, scope),
            active,
        ),
    decreases m - n,
{
    if n < m {
        lemma_set_count_step(cands, course_map, scope, active, m - 1);
        lemma_set_count_grows(cands, course_map, scope, active, n, m - 1);
    }
}

proof fn lemma_two_set_variables(
    cands: Seq<Assignment>,
    course_map: Map<CourseId, &Course>,
    scope: Scope,
    active: Seq<bool>,
    p: int,
    q: int,
)
    requires
        0 <= p < q < cands.len() <= usize::MAX,
        in_scope(scope, course_map, cands[p]) && active[p],
        in_scope(scope, course_map, cands[q]) && active[q],
    ensures
        set_count(scope_variables(cands, course_map, scope), active) >= 2,
{
    lemma_set_count_step(cands, course_map, scope, active, p);
    lemma_set_count_grows(cands, course_map, scope, active, p + 1, q);
    lemma_set_count_step(cands, course_map, scope, active, q);
    lemma_set_count_grows(cands, course_map, scope, active, q + 1, cands.len() as int);
    assert(cands.take(cands.len() as int) == cands);
}

proof fn lemma_room_constraint_listed(
    rooms: Seq<Room>,
    total_timeslots: u32,
    cands: Seq<Assignment>,
    course_map: Map<CourseId, &Course>,
    r: int,
    slot: int,
) -> (at: int)
    requires
        0 <= r < rooms.len(),
        0 <= slot < total_timeslots,
    ensures
        0 <= at < room_constraints(rooms, total_timeslots, cands, course_map).len(),
        room_constraints(rooms, total_timeslots, cands, course_map)[at] == sum_constraint(
            cands,
            course_map,
            Scope::RoomAt(rooms[r].id, slot as u32),
            Relation::AtMost,
        ),
    decreases rooms.len(),
{
    let front = rooms.drop_last();
    if r < rooms.len() - 1 {
        assert(front[r] == rooms[r]);
        lemma_room_constraint_listed(front, total_timeslots, cands, course_map, r, slot)
    } else {
        room_constraints(front, total_timeslots, cands, course_map).len() + slot
    }
}

proof fn lemma_instructor_constraint_listed(
    instructors: Seq<Instructor>,
    courses: Seq<Course>,
    total_timeslots: u32,
    cands: Seq<Assignment>,
    course_map: Map<CourseId, &Course>,
    i: int,
    slot: int,
) -> (at: int)
    requires
        0 <= i < instructors.len(),
        0 <= slot < total_timeslots,
        taught_by(courses, instructors[i].id).len() > 0,
    ensures
        0 <= at < instructor_constraints(
            instructors,
            courses,
            total_timeslots,
            cands,
            course_map,
        ).len(),
        instructor_constraints(instructors, courses, total_timeslots, cands, course_map)[at]
            == sum_constraint(
            cands,
            course_map,
            Scope::TaughtAt(taught_by(courses, instructors[i].id), slot as u32),
            Relation::AtMost,
        ),
    decreases instructors.len(),
{
    let front = instructors.drop_last();
    if i < instructors.len() - 1 {
        assert(front[i] == instructors[i]);
        lemma_instructor_constraint_listed(
            front,
            courses,
            total_timeslots,
            cands,
            course_map,
            i,
            slot,
        )
    } else {
        instructor_constraints(front, courses, total_timeslots, cands, course_map).len() + slot
    }
}

/// With distinct course identities, the record on file for an identity is the
/// one course that carries it.
proof fn lemma_course_on_record(courses: Seq<Course>, c: int)
    requires
        distinct_course_ids(courses),
        0 <= c < courses.len(),
    ensures
        course_index(&courses).contains_key(courses[c].id),
        *course_index(&courses)[courses[c].id] == courses[c],
{
    lemma_course_index(&courses, courses[c].id);
    let d = choose|d: int|
        0 <= d < courses.len() && #[trigger] courses[d].id == courses[c].id && courses[d]
            == *course_index(&courses)[courses[c].id];
    if d < c {
        assert(courses[d].id != courses[c].id);
    } else if c < d {
        assert(courses[c].id != courses[d].id);
    }
}

/// Every course once: each course constraint counts the placements of its
/// course.
proof fn lemma_courses_placed_once(input: &SchedulingInput, model: &Model, active: Seq<bool>)
    requires
        model@ == model_of(input),
        feasible(model@, active),
    ensures
        every_course_once(input.courses@, decoded(feasible_candidates(input), active)),
{
    let cands = feasible_candidates(input);
    let course_map = course_index(&input.courses@);
    let schedule = decoded(cands, active);
    assert(cands == model.candidates@);
    assert(model.candidates.len() == model.candidates@.len());
    assert forall|c: int| 0 <= c < input.courses@.len() implies placements_of(
        schedule,
        (#[trigger] input.courses@[c]).id,
    ) == 1 by {
        let course_id = input.courses@[c].id;
        let rows = course_constraints(input.courses@, cands, course_map);
        assert(model@.constraints[c] == rows[c]);
        assert(satisfies(model@.constraints[c], active));
        lemma_selected_count(cands, course_map, active, course_id);
        lemma_sorted_count(Order::ByPlacement, selected(cands, active), course_id);
    }
}

/// Two different places of the schedule hold two different candidates, both
/// set by the valuation.
proof fn lemma_two_candidates(
    input: &SchedulingInput,
    active: Seq<bool>,
    i: int,
    j: int,
) -> (found: (int, int))
    requires
        every_course_once(input.courses@, decoded(feasible_candidates(input), active)),
        0 <= i < j < decoded(feasible_candidates(input), active).len(),
    ensures
        0 <= found.0 < feasible_candidates(input).len(),
        0 <= found.1 < feasible_candidates(input).len(),
        found.0 != found.1,
        active[found.0] && active[found.1],
        feasible_candidates(input)[found.0] == decoded(feasible_candidates(input), active)[i],
        feasible_candidates(input)[found.1] == decoded(feasible_candidates(input), active)[j],
{
    let cands = feasible_candidates(input);
    let chosen = selected(cands, active);
    let schedule = decoded(cands, active);
    lemma_decoded(input, active);
    assert(schedule.contains(schedule[i]));
    assert(schedule.contains(schedule[j]));
    lemma_sorted_by_contains(Order::ByPlacement, chosen, schedule[i]);
    lemma_sorted_by_contains(Order::ByPlacement, chosen, schedule[j]);
    lemma_selected_index(cands, active, schedule[i]);
    lemma_selected_index(cands, active, schedule[j]);
    let p = choose|p: int| 0 <= p < cands.len() && active[p] && #[trigger] cands[p] == schedule[i];
    let q = choose|q: int| 0 <= q < cands.len() && active[q] && #[trigger] cands[q] == schedule[j];
    if schedule[i].course_id == schedule[j].course_id {
        lemma_two_placements(schedule, i, j);
        let (c, r) = choose|c: int, r: int|
            0 <= c < input.courses@.len() && 0 <= r < input.rooms@.len() && (
            #[trigger] input.courses@[c]).id == schedule[i].course_id && (
            #[trigger] input.rooms@[r]).id == schedule[i].room_id && assignment_possible(
                &input.courses@[c],
                &input.rooms@[r],
                schedule[i].start_slot,
                input.total_timeslots,
                instructor_index(&input.instructors@),
            );
        assert(placements_of(schedule, input.courses@[c].id) == 1);
    }
    (p, q)
}

/// A valuation that meets every constraint of the model of a request whose
/// courses carry distinct identities stands for a schedule that meets every
/// hard rule.
pub proof fn lemma_feasible_valuation_meets_hard_rules(
    input: &SchedulingInput,
    model: &Model,
    active: Seq<bool>,
)
    requires
        model@ == model_of(input),
        distinct_course_ids(input.courses@),
        feasible(model@, active),
    ensures
        hard_rules_hold(input, decoded(feasible_candidates(input), active)),
{
    let cands = feasible_candidates(input);
    let course_map = course_index(&input.courses@);
    let instructor_map = instructor_index(&input.instructors@);
    let total = input.total_timeslots;
    let schedule = decoded(cands, active);
    let course_rows = course_constraints(input.courses@, cands, course_map);
    let room_rows = room_constraints(input.rooms@, total, cands, course_map);
    let instructor_rows = instructor_constraints(
        input.instructors@,
        input.courses@,
        total,
        cands,
        course_map,
    );
    assert(cands == model.candidates@);
    assert(model.candidates.len() == model.candidates@.len());
    lemma_decoded(input, active);
    lemma_courses_placed_once(input, model, active);

    assert forall|i: int, j: int|
        0 <= i < j < schedule.len() && (#[trigger] schedule[i]).room_id == (
        #[trigger] schedule[j]).room_id implies !overlap(course_map, schedule[i], schedule[j]) by {
        if overlap(course_map, schedule[i], schedule[j]) {
            let (p, q) = lemma_two_candidates(input, active, i, j);
            let slot = if schedule[i].start_slot >= schedule[j].start_slot {
                schedule[i].start_slot
            } else {
                schedule[j].start_slot
            };
            let (c, r) = choose|c: int, r: int|
                0 <= c < input.courses@.len() && 0 <= r < input.rooms@.len() && (
                #[trigger] input.courses@[c]).id == schedule[i].course_id && (
                #[trigger] input.rooms@[r]).id == schedule[i].room_id && assignment_possible(
                    &input.courses@[c],
                    &input.rooms@[r],
                    schedule[i].start_slot,
                    total,
                    instructor_map,
                );
            let at = lemma_room_constraint_listed(
                input.rooms@,
                total,
                cands,
                course_map,
                r,
                slot as int,
            );
            let scope = Scope::RoomAt(input.rooms@[r].id, slot);
            assert(model@.constraints[course_rows.len() + at] == room_rows[at]);
            assert(satisfies(model@.constraints[course_rows.len() + at], active));
            if p < q {
                lemma_two_set_variables(cands, course_map, scope, active, p, q);
            } else {
                lemma_two_set_variables(cands, course_map, scope, active, q, p);
            }
        }
    }

    assert forall|i: int, j: int|
        0 <= i < j < schedule.len() && same_instructor(
            course_map,
            #[trigger] schedule[i],
            #[trigger] schedule[j],
        ) implies !overlap(course_map, schedule[i], schedule[j]) by {
        if overlap(course_map, schedule[i], schedule[j]) {
            let (p, q) = lemma_two_candidates(input, active, i, j);
            let slot = if schedule[i].start_slot >= schedule[j].start_slot {
                schedule[i].start_slot
            } else {
                schedule[j].start_slot
            };
            let (c, r) = choose|c: int, r: int|
                0 <= c < input.courses@.len() && 0 <= r < input.rooms@.len() && (
                #[trigger] input.courses@[c]).id == schedule[i].course_id && (
                #[trigger] input.rooms@[r]).id == schedule[i].room_id && assignment_possible(
                    &input.courses@[c],
                    &input.rooms@[r],
                    schedule[i].start_slot,
                    total,
                    instructor_map,
                );
            let (d, s) = choose|d: int, s: int|
                0 <= d < input.courses@.len() && 0 <= s < input.rooms@.len() && (
                #[trigger] input.courses@[d]).id == schedule[j].course_id && (
                #[trigger] input.rooms@[s]).id == schedule[j].room_id && assignment_possible(
                    &input.courses@[d],
                    &input.rooms@[s],
                    schedule[j].start_slot,
                    total,
                    instructor_map,
                );
            lemma_course_on_record(input.courses@, c);
            lemma_course_on_record(input.courses@, d);
            let instructor_id = input.courses@[c].instructor_id;
            assert(input.courses@[d].instructor_id == instructor_id);
            lemma_instructor_index(&input.instructors@, instructor_id);
            let n = choose|n: int|
                0 <= n < input.instructors@.len() && #[trigger] input.instructors@[n].id
                    == instructor_id;
            let pairs = course_pairs(input.courses@);
            let taught = taught_by(input.courses@, instructor_id);
            assert(pairs[c] == (instructor_id, schedule[i].course_id));
            assert(pairs[d] == (instructor_id, schedule[j].course_id));
            lemma_values_with_key(pairs, instructor_id, schedule[i].course_id);
            lemma_values_with_key(pairs, instructor_id, schedule[j].course_id);
            assert(taught.contains(schedule[i].course_id));
            assert(taught.contains(schedule[j].course_id));
            let at = lemma_instructor_constraint_listed(
                input.instructors@,
                input.courses@,
                total,
                cands,
                course_map,
                n,
                slot as int,
            );
            let scope = Scope::TaughtAt(taught, slot);
            let offset = course_rows.len() + room_rows.len();
            assert(model@.constraints[offset + at] == instructor_rows[at]);
            assert(satisfies(model@.constraints[offset + at], active));
            if p < q {
                lemma_two_set_variables(cands, course_map, scope, active, p, q);
            } else {
                lemma_two_set_variables(cands, course_map, scope, active, q, p);
            }
        }
    }
}

/// How many of the courses carry the identity.
spec fn carriers(courses: Seq<Course>, course_id: CourseId) -> nat
    decreases courses.len(),
{
    if courses.len() == 0 {
        0
    } else {
        carriers(courses.drop_last(), course_id) + if courses.last().id == course_id {
            1nat
        } else {
            0nat
        }
    }
}

/// How many placements the courses have between them.
spec fn placements_in_all(courses: Seq<Course>, schedule: Seq<Assignment>) -> nat
    decreases courses.len(),
{
    if courses.len() == 0 {
        0
    } else {
        placements_in_all(courses.drop_last(), schedule) + placements_of(
            schedule,
            courses.last().id,
        )
    }
}

proof fn lemma_one_carrier(courses: Seq<Course>, c: int)
    requires
        distinct_course_ids(courses),
        0 <= c < courses.len(),
    ensures
        carriers(courses, courses[c].id) == 1,
    decreases courses.len(),
{
    let front = courses.drop_last();
    assert forall|i: int, j: int| 0 <= i < j < front.len() implies (#[trigger] front[i]).id != (
    #[trigger] front[j]).id by {
        assert(courses[i].id != courses[j].id);
    }
    if c < courses.len() - 1 {
        assert(front[c] == courses[c]);
        lemma_one_carrier(front, c);
        assert(courses[c].id != courses[courses.len() - 1].id);
    } else {
        lemma_no_carrier(front, courses[c].id);
        assert forall|i: int| 0 <= i < front.len() implies (#[trigger] front[i]).id
            != courses[c].id by {
            assert(courses[i].id != courses[c].id);
        }
    }
}

proof fn lemma_no_carrier(courses: Seq<Course>, course_id: CourseId)
    ensures
        (forall|i: int| 0 <= i < courses.len() ==> (#[trigger] courses[i]).id != course_id)
            ==> carriers(courses, course_id) == 0,
    decreases courses.len(),
{
    if courses.len() > 0 {
        let front = courses.drop_last();
        lemma_no_carrier(front, course_id);
        if forall|i: int| 0 <= i < courses.len() ==> (#[trigger] courses[i]).id != course_id {
            assert forall|i: int| 0 <= i < front.len() implies (#[trigger] front[i]).id
                != course_id by {
                assert(courses[i].id != course_id);
            }
            assert(courses[courses.len() - 1].id != course_id);
        }
    }
}

proof fn lemma_placements_in_all_push(
    courses: Seq<Course>,
    schedule: Seq<Assignment>,
    placement: Assignment,
)
    ensures
        placements_in_all(courses, schedule.push(placement)) == placements_in_all(
            courses,
            schedule,
        ) + carriers(courses, placement.course_id),
    decreases courses.len(),
{
    assert(schedule.push(placement).drop_last() == schedule);
    if courses.len() > 0 {
        lemma_placements_in_all_push(courses.drop_last(), schedule, placement);
    }
}

proof fn lemma_placements_in_all_once(courses: Seq<Course>, schedule: Seq<Assignment>, n: int)
    requires
        every_course_once(courses, schedule),
        0 <= n <= courses.len(),
    ensures
        placements_in_all(courses.take(n), schedule) == n,
    decreases n,
{
    if n > 0 {
        lemma_placements_in_all_once(courses, schedule, n - 1);
        assert(courses.take(n).drop_last() == courses.take(n - 1));
        assert(courses.take(n).last() == courses[n - 1]);
    }
}

proof fn lemma_placements_in_all_known(courses: Seq<Course>, schedule: Seq<Assignment>)
    requires
        distinct_course_ids(courses),
        forall|i: int|
            0 <= i < schedule.len() ==> exists|c: int|
                0 <= c < courses.len() && (#[trigger] courses[c]).id == (
                #[trigger] schedule[i]).course_id,
    ensures
        placements_in_all(courses, schedule) == schedule.len(),
    decreases schedule.len(),
{
    if schedule.len() == 0 {
        lemma_placements_in_all_empty(courses, schedule);
    } else {
        let front = schedule.drop_last();
        let last = schedule.last();
        assert forall|i: int| 0 <= i < front.len() implies exists|c: int|
            0 <= c < courses.len() && (#[trigger] courses[c]).id == (
            #[trigger] front[i]).course_id by {
            let c = choose|c: int|
                0 <= c < courses.len() && (#[trigger] courses[c]).id == schedule[i].course_id;
            assert(courses[c].id == front[i].course_id);
        }
        lemma_placements_in_all_known(courses, front);
        lemma_placements_in_all_push(courses, front, last);
        assert(front.push(last) == schedule);
        let c = choose|c: int|
            0 <= c < courses.len() && (#[trigger] courses[c]).id == schedule[schedule.len()
                - 1].course_id;
        lemma_one_carrier(courses, c);
    }
}

proof fn lemma_placements_in_all_empty(courses: Seq<Course>, schedule: Seq<Assignment>)
    requires
        schedule.len() == 0,
    ensures
        placements_in_all(courses, schedule) == 0,
    decreases courses.len(),
{
    if courses.len() > 0 {
        lemma_placements_in_all_empty(courses.drop_last(), schedule);
    }
}

/// A schedule that meets the hard rules of a request whose courses carry
/// distinct identities has as many placements as the request has courses.
pub proof fn lemma_one_placement_per_course(input: &SchedulingInput, schedule: Seq<Assignment>)
    requires
        distinct_course_ids(input.courses@),
        hard_rules_hold(input, schedule),
    ensures
        schedule.len() == input.courses@.len(),
{
    let courses = input.courses@;
    assert forall|i: int| 0 <= i < schedule.len() implies exists|c: int|
        0 <= c < courses.len() && (#[trigger] courses[c]).id == (
        #[trigger] schedule[i]).course_id by {
        let (c, r) = choose|c: int, r: int|
            0 <= c < input.courses@.len() && 0 <= r < input.rooms@.len() && (
            #[trigger] input.courses@[c]).id == schedule[i].course_id && (
            #[trigger] input.rooms@[r]).id == schedule[i].room_id && assignment_possible(
                &input.courses@[c],
                &input.rooms@[r],
                schedule[i].start_slot,
                input.total_timeslots,
                instructor_index(&input.instructors@),
            );
        assert(courses[c].id == schedule[i].course_id);
    }
    lemma_placements_in_all_known(courses, schedule);
    lemma_placements_in_all_once(courses, schedule, courses.len() as int);
    assert(courses.take(courses.len() as int) == courses);
}

/// A valuation that meets every constraint of the model is taken for a
/// schedule, provided the courses carry distinct identities and are few
/// enough to be scored.
pub proof fn lemma_feasible_valuation_is_accepted(
    input: &SchedulingInput,
    model: &Model,
    active: Seq<bool>,
)
    requires
        model@ == model_of(input),
        distinct_course_ids(input.courses@),
        input.courses@.len() <= MAX_SCORED_ASSIGNMENTS,
        feasible(model@, active),
    ensures
        accepts(input, active),
{
    lemma_feasible_valuation_meets_hard_rules(input, model, active);
    lemma_one_placement_per_course(input, decoded(feasible_candidates(input), active));
}

proof fn lemma_active_is_selected(cands: Seq<Assignment>, active: Seq<bool>, p: int)
    requires
        0 <= p < cands.len(),
        active[p],
    ensures
        selected(cands, active).contains(cands[p]),
    decreases cands.len(),
{
    let front = selected(cands.drop_last(), active);
    let chosen = selected(cands, active);
    if p < cands.len() - 1 {
        lemma_active_is_selected(cands.drop_last(), active, p);
        let i = choose|i: int| 0 <= i < front.len() && front[i] == cands.drop_last()[p];
        assert(chosen[i] == cands[p]);
    } else {
        assert(chosen.last() == cands[p]);
    }
}

proof fn lemma_set_variables_found(
    cands: Seq<Assignment>,
    course_map: Map<CourseId, &Course>,
    scope: Scope,
    active: Seq<bool>,
    n: int,
)
    requires
        0 <= n <= cands.len() <= usize::MAX,
    ensures
        set_count(scope_variables(cands.take(n), course_map, scope), active) >= 1 ==> exists|
            p: int,
        |
            0 <= p < n && in_scope(scope, course_map, #[trigger] cands[p]) && active[p],
        set_count(scope_variables(cands.take(n), course_map, scope), active) >= 2 ==> exists|
            p: int,
            q: int,
        |
            0 <= p < q < n && in_scope(scope, course_map, #[trigger] cands[p]) && active[p]
                && in_scope(scope, course_map, #[trigger] cands[q]) && active[q],
    decreases n,
{
    if n > 0 {
        lemma_set_variables_found(cands, course_map, scope, active, n - 1);
        lemma_set_count_step(cands, course_map, scope, active, n - 1);
        let before = set_count(scope_variables(cands.take(n - 1), course_map, scope), active);
        let here = in_scope(scope, course_map, cands[n - 1]) && active[n - 1];
        if before >= 1 {
            let p = choose|p: int|
                0 <= p < n - 1 && in_scope(scope, course_map, #[trigger] cands[p]) && active[p];
            if here {
                assert(0 <= p < n - 1 < n && in_scope(scope, course_map, cands[p]) && active[p]
                    && in_scope(scope, course_map, cands[n - 1]) && active[n - 1]);
            }
        }
        if before >= 2 {
            let (p, q) = choose|p: int, q: int|
                0 <= p < q < n - 1 && in_scope(scope, course_map, #[trigger] cands[p]) && active[p]
                    && in_scope(scope, course_map, #[trigger] cands[q]) && active[q];
            assert(0 <= p < q < n);
        }
        if here {
            assert(in_scope(scope, course_map, cands[n - 1]) && active[n - 1]);
        }
    }
}

proof fn lemma_room_constraint_origin(
    rooms: Seq<Room>,
    total_timeslots: u32,
    cands: Seq<Assignment>,
    course_map: Map<CourseId, &Course>,
    at: int,
) -> (origin: (int, int))
    requires
        0 <= at < room_constraints(rooms, total_timeslots, cands, course_map).len(),
    ensures
        0 <= origin.0 < rooms.len(),
        0 <= origin.1 < total_timeslots,
        room_constraints(rooms, total_timeslots, cands, course_map)[at] == sum_constraint(
            cands,
            course_map,
            Scope::RoomAt(rooms[origin.0].id, origin.1 as u32),
            Relation::AtMost,
        ),
    decreases rooms.len(),
{
    let front = rooms.drop_last();
    let before = room_constraints(front, total_timeslots, cands, course_map);
    if at < before.len() {
        let origin = lemma_room_constraint_origin(front, total_timeslots, cands, course_map, at);
        assert(front[origin.0] == rooms[origin.0]);
        origin
    } else {
        (rooms.len() - 1, at - before.len())
    }
}

proof fn lemma_instructor_constraint_origin(
    instructors: Seq<Instructor>,
    courses: Seq<Course>,
    total_timeslots: u32,
    cands: Seq<Assignment>,
    course_map: Map<CourseId, &Course>,
    at: int,
) -> (origin: (int, int))
    requires
        0 <= at < instructor_constraints(
            instructors,
            courses,
            total_timeslots,
            cands,
            course_map,
        ).len(),
    ensures
        0 <= origin.0 < instructors.len(),
        0 <= origin.1 < total_timeslots,
        instructor_constraints(instructors, courses, total_timeslots, cands, course_map)[at]
            == sum_constraint(
            cands,
            course_map,
            Scope::TaughtAt(taught_by(courses, instructors[origin.0].id), origin.1 as u32),
            Relation::AtMost,
        ),
    decreases instructors.len(),
{
    let front = instructors.drop_last();
    let before = instructor_constraints(front, courses, total_timeslots, cands, course_map);
    if at < before.len() {
        let origin = lemma_instructor_constraint_origin(
            front,
            courses,
            total_timeslots,
            cands,
            course_map,
            at,
        );
        assert(front[origin.0] == instructors[origin.0]);
        origin
    } else {
        (instructors.len() - 1, at - before.len())
    }
}

/// Two candidates that the valuation both sets stand at two different places
/// of a schedule that places every course once.
proof fn lemma_two_places(
    input: &SchedulingInput,
    model: &Model,
    active: Seq<bool>,
    p: int,
    q: int,
) -> (places: (int, int))
    requires
        model@ == model_of(input),
        active.len() == feasible_candidates(input).len(),
        every_course_once(input.courses@, decoded(feasible_candidates(input), active)),
        0 <= p < q < feasible_candidates(input).len(),
        active[p] && active[q],
    ensures
        0 <= places.0 < decoded(feasible_candidates(input), active).len(),
        0 <= places.1 < decoded(feasible_candidates(input), active).len(),
        places.0 != places.1,
        decoded(feasible_candidates(input), active)[places.0] == feasible_candidates(input)[p],
        decoded(feasible_candidates(input), active)[places.1] == feasible_candidates(input)[q],
{
    let cands = feasible_candidates(input);
    let course_map = course_index(&input.courses@);
    let chosen = selected(cands, active);
    let schedule = decoded(cands, active);
    assert(cands == model.candidates@);
    assert(model.candidates.len() == model.candidates@.len());
    lemma_active_is_selected(cands, active, p);
    lemma_active_is_selected(cands, active, q);
    lemma_sorted_by_contains(Order::ByPlacement, chosen, cands[p]);
    lemma_sorted_by_contains(Order::ByPlacement, chosen, cands[q]);
    let i = choose|i: int| 0 <= i < schedule.len() && schedule[i] == cands[p];
    let j = choose|j: int| 0 <= j < schedule.len() && schedule[j] == cands[q];
    if cands[p].course_id == cands[q].course_id {
        let course_id = cands[p].course_id;
        lemma_two_set_variables(cands, course_map, Scope::Course(course_id), active, p, q);
        lemma_selected_count(cands, course_map, active, course_id);
        lemma_sorted_count(Order::ByPlacement, chosen, course_id);
        assert(cands.contains(cands[p]));
        lemma_candidates_are_the_admissible(
            input.courses@,
            input.rooms@,
            input.total_timeslots,
            instructor_index(&input.instructors@),
            cands[p],
        );
        let (c, r) = choose|c: int, r: int|
            0 <= c < input.courses@.len() && 0 <= r < input.rooms@.len() && (
            #[trigger] input.courses@[c]).id == cands[p].course_id && (
            #[trigger] input.rooms@[r]).id == cands[p].room_id && assignment_possible(
                &input.courses@[c],
                &input.rooms@[r],
                cands[p].start_slot,
                input.total_timeslots,
                instructor_index(&input.instructors@),
            );
        assert(placements_of(schedule, input.courses@[c].id) == 1);
    }
    (i, j)
}

/// Two placements that are both in session at some slot overlap.
proof fn lemma_in_session_together(
    course_map: Map<CourseId, &Course>,
    a: Assignment,
    b: Assignment,
    slot: u32,
)
    requires
        in_session(course_map, a, slot),
        in_session(course_map, b, slot),
    ensures
        overlap(course_map, a, b),
        overlap(course_map, b, a),
{
}

/// A valuation with one value per candidate whose schedule places every
/// course once and shares no room and no instructor meets every constraint
/// of the model, provided the courses carry distinct identities.
pub proof fn lemma_accepted_valuation_is_feasible(
    input: &SchedulingInput,
    model: &Model,
    active: Seq<bool>,
)
    requires
        model@ == model_of(input),
        distinct_course_ids(input.courses@),
        active.len() == feasible_candidates(input).len(),
        every_course_once(input.courses@, decoded(feasible_candidates(input), active)),
        rooms_never_shared(
            course_index(&input.courses@),
            decoded(feasible_candidates(input), active),
        ),
        instructors_never_shared(
            course_index(&input.courses@),
            decoded(feasible_candidates(input), active),
        ),
    ensures
        feasible(model@, active),
{
    let cands = feasible_candidates(input);
    let course_map = course_index(&input.courses@);
    let total = input.total_timeslots;
    let schedule = decoded(cands, active);
    let course_rows = course_constraints(input.courses@, cands, course_map);
    let room_rows = room_constraints(input.rooms@, total, cands, course_map);
    let instructor_rows = instructor_constraints(
        input.instructors@,
        input.courses@,
        total,
        cands,
        course_map,
    );
    assert(cands == model.candidates@);
    assert(model.candidates.len() == model.candidates@.len());
    assert forall|k: int| 0 <= k < model@.constraints.len() implies satisfies(
        #[trigger] model@.constraints[k],
        active,
    ) by {
        if k < course_rows.len() {
            let course_id = input.courses@[k].id;
            assert(model@.constraints[k] == course_rows[k]);
            lemma_selected_count(cands, course_map, active, course_id);
            lemma_sorted_count(Order::ByPlacement, selected(cands, active), course_id);
        } else if k < course_rows.len() + room_rows.len() {
            let at = k - course_rows.len();
            assert(model@.constraints[k] == room_rows[at]);
            let (r, slot) = lemma_room_constraint_origin(
                input.rooms@,
                total,
                cands,
                course_map,
                at,
            );
            let scope = Scope::RoomAt(input.rooms@[r].id, slot as u32);
            lemma_set_variables_found(cands, course_map, scope, active, cands.len() as int);
            assert(cands.take(cands.len() as int) == cands);
            if set_count(scope_variables(cands, course_map, scope), active) >= 2 {
                let (p, q) = choose|p: int, q: int|
                    0 <= p < q < cands.len() && in_scope(scope, course_map, #[trigger] cands[p])
                        && active[p] && in_scope(scope, course_map, #[trigger] cands[q])
                        && active[q];
                let (i, j) = lemma_two_places(input, model, active, p, q);
                lemma_in_session_together(course_map, cands[p], cands[q], slot as u32);
                if i < j {
                    assert(!overlap(course_map, schedule[i], schedule[j]));
                } else {
                    assert(!overlap(course_map, schedule[j], schedule[i]));
                }
            }
        } else {
            let at = k - course_rows.len() - room_rows.len();
            assert(model@.constraints[k] == instructor_rows[at]);
            let (n, slot) = lemma_instructor_constraint_origin(
                input.instructors@,
                input.courses@,
                total,
                cands,
                course_map,
                at,
            );
            let instructor_id = input.instructors@[n].id;
            let taught = taught_by(input.courses@, instructor_id);
            let scope = Scope::TaughtAt(taught, slot as u32);
            lemma_set_variables_found(cands, course_map, scope, active, cands.len() as int);
            assert(cands.take(cands.len() as int) == cands);
            if set_count(scope_variables(cands, course_map, scope), active) >= 2 {
                let (p, q) = choose|p: int, q: int|
                    0 <= p < q < cands.len() && in_scope(scope, course_map, #[trigger] cands[p])
                        && active[p] && in_scope(scope, course_map, #[trigger] cands[q])
                        && active[q];
                let (i, j) = lemma_two_places(input, model, active, p, q);
                lemma_in_session_together(course_map, cands[p], cands[q], slot as u32);
                let pairs = course_pairs(input.courses@);
                lemma_values_with_key(pairs, instructor_id, cands[p].course_id);
                lemma_values_with_key(pairs, instructor_id, cands[q].course_id);
                let c = choose|c: int|
                    0 <= c < pairs.len() && #[trigger] pairs[c] == (
                        instructor_id,
                        cands[p].course_id,
                    );
                let d = choose|d: int|
                    0 <= d < pairs.len() && #[trigger] pairs[d] == (
                        instructor_id,
                        cands[q].course_id,
                    );
                lemma_course_on_record(input.courses@, c);
                lemma_course_on_record(input.courses@, d);
                assert(same_instructor(course_map, cands[p], cands[q]));
                if i < j {
                    assert(!overlap(course_map, schedule[i], schedule[j]));
                } else {
                    assert(same_instructor(course_map, schedule[j], schedule[i]));
                    assert(!overlap(course_map, schedule[j], schedule[i]));
                }
            }
        }
    }
}

} // verus!
