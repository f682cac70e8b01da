//! The 0/1 linear model of a request: one decision variable per candidate
//! placement, the hard rules as linear constraints over those variables, the
//! free back-to-back penalty variables, and the objective.

use crate::data::{
    Assignment, Course, CourseId, Instructor, InstructorId, Room, RoomId, SchedulingInput, Timeslot,
};
use crate::error::SolveError;
use crate::feasibility::{candidates, generate_candidates, occupies};
use crate::grouping::{distinct_keys, first_mentions, group_by_key, values_with_key};
use crate::lookup::{course_index, index_courses, index_instructors, instructor_index};
use std::collections::HashMap;
use vstd::prelude::*;

verus! {

broadcast use vstd::std_specs::hash::group_hash_axioms;

/// How the sum of a constraint's variables relates to its bound.
#[derive(Debug, Clone, Copy, PartialEq, Eq, Structural)]
pub enum Relation {
    Equal,
    AtMost,
}

/// A linear constraint in which every listed variable has coefficient one.
/// A variable is named by the position of its candidate.
#[derive(Debug, Clone)]
pub struct LinearConstraint {
    pub variables: Vec<usize>,
    pub relation: Relation,
    pub bound: u32,
}

/// The mathematical content of a [`LinearConstraint`].
pub struct ConstraintView {
    pub variables: Seq<usize>,
    pub relation: Relation,
    pub bound: u32,
}

impl View for LinearConstraint {
    type V = ConstraintView;

    open spec fn view(&self) -> ConstraintView {
        ConstraintView { variables: self.variables@, relation: self.relation, bound: self.bound }
    }
}

/// A free binary variable that stands for "this instructor has one class
/// ending at the boundary slot and another starting right after it". No
/// constraint ties it to the placements; it only appears in the objective.
#[derive(Debug, Clone, Copy, PartialEq, Eq, Structural)]
pub struct PenaltyVariable {
    pub instructor_id: InstructorId,
    pub boundary_slot: Timeslot,
}

/// The model handed to an optimizer. All variables are binary. The objective,
/// to be maximised, is `morning_reward_halves / 2` for each variable listed in
/// `morning`, minus `penalty_cost_halves / 2` for each penalty variable.
#[derive(Debug, Clone)]
pub struct Model {
    pub candidates: Vec<Assignment>,
    pub penalties: Vec<PenaltyVariable>,
    pub constraints: Vec<LinearConstraint>,
    pub morning: Vec<usize>,
    pub morning_reward_halves: u32,
    pub penalty_cost_halves: u32,
}

/// The mathematical content of a [`Model`].
pub struct ModelView {
    pub candidates: Seq<Assignment>,
    pub penalties: Seq<PenaltyVariable>,
    pub constraints: Seq<ConstraintView>,
    pub morning: Seq<usize>,
    pub morning_reward_halves: u32,
    pub penalty_cost_halves: u32,
}

/// The constraints of a vector, each by its content.
pub open spec fn constraint_views(constraints: Seq<LinearConstraint>) -> Seq<ConstraintView> {
    constraints.map_values(|c: LinearConstraint| c@)
}

impl View for Model {
    type V = ModelView;

    open spec fn view(&self) -> ModelView {
        ModelView {
            candidates: self.candidates@,
            penalties: self.penalties@,
            constraints: constraint_views(self.constraints@),
            morning: self.morning@,
            morning_reward_halves: self.morning_reward_halves,
            penalty_cost_halves: self.penalty_cost_halves,
        }
    }
}

/// Which candidates a linear sum ranges over.
pub enum Scope {
    /// Placements of one course.
    Course(CourseId),
    /// Placements in one room that are in session at one slot.
    RoomAt(RoomId, Timeslot),
    /// Placements of any of the listed courses that are in session at one slot.
    TaughtAt(Seq<CourseId>, Timeslot),
    /// Placements that start before the cutoff slot.
    Morning(Timeslot),
}

/// Whether the placement's course, with the duration on record for it, is in
/// session during `slot`.
pub open spec fn in_session(
    course_map: Map<CourseId, &Course>,
    placement: Assignment,
    slot: Timeslot,
) -> bool {
    course_map.contains_key(placement.course_id) && occupies(
        placement.start_slot,
        course_map[placement.course_id].duration_slots,
        slot,
    )
}

/// Whether the placement is one of those the scope ranges over.
pub open spec fn in_scope(
    scope: Scope,
    course_map: Map<CourseId, &Course>,
    placement: Assignment,
) -> bool {
    match scope {
        Scope::Course(course_id) => placement.course_id == course_id,
        Scope::RoomAt(room_id, slot) => placement.room_id == room_id && in_session(
            course_map,
            placement,
            slot,
        ),
        Scope::TaughtAt(taught, slot) => taught.contains(placement.course_id) && in_session(
            course_map,
            placement,
            slot,
        ),
        Scope::Morning(cutoff) => placement.start_slot < cutoff,
    }
}

/// The variables of the candidates in scope, ascending.
pub open spec fn scope_variables(
    cands: Seq<Assignment>,
    course_map: Map<CourseId, &Course>,
    scope: Scope,
) -> Seq<usize>
    decreases cands.len(),
{
    if cands.len() == 0 {
        Seq::empty()
    } else {
        let front = scope_variables(cands.drop_last(), course_map, scope);
        if in_scope(scope, course_map, cands.last()) {
            front.push((cands.len() - 1) as usize)
        } else {
            front
        }
    }
}

/// The constraint that bounds the sum over a scope by one.
pub open spec fn sum_constraint(
    cands: Seq<Assignment>,
    course_map: Map<CourseId, &Course>,
    scope: Scope,
    relation: Relation,
) -> ConstraintView {
    ConstraintView { variables: scope_variables(cands, course_map, scope), relation, bound: 1 }
}

/// For every course, in input order: its placements sum to exactly one.
pub open spec fn course_constraints(
    courses: Seq<Course>,
    cands: Seq<Assignment>,
    course_map: Map<CourseId, &Course>,
) -> Seq<ConstraintView> {
    Seq::new(
        courses.len(),
        |i: int| sum_constraint(cands, course_map, Scope::Course(courses[i].id), Relation::Equal),
    )
}

/// For one room and every slot of the horizon, ascending: the placements in
/// that room that are in session at the slot sum to at most one.
pub open spec fn room_slot_constraints(
    room_id: RoomId,
    total_timeslots: u32,
    cands: Seq<Assignment>,
    course_map: Map<CourseId, &Course>,
) -> Seq<ConstraintView> {
    Seq::new(
        total_timeslots as nat,
        |k: int| sum_constraint(cands, course_map, Scope::RoomAt(room_id, k as u32), Relation::AtMost),
    )
}

/// The room constraints of all rooms, room by room in input order.
pub open spec fn room_constraints(
    rooms: Seq<Room>,
    total_timeslots: u32,
    cands: Seq<Assignment>,
    course_map: Map<CourseId, &Course>,
) -> Seq<ConstraintView>
    decreases rooms.len(),
{
    if rooms.len() == 0 {
        Seq::empty()
    } else {
        room_constraints(rooms.drop_last(), total_timeslots, cands, course_map)
            + room_slot_constraints(rooms.last().id, total_timeslots, cands, course_map)
    }
}

/// Each course as the pair of its instructor and its own identity.
pub open spec fn course_pairs(courses: Seq<Course>) -> Seq<(InstructorId, CourseId)> {
    courses.map_values(|c: Course| (c.instructor_id, c.id))
}

/// The courses that name `instructor_id` as their instructor, in input order.
pub open spec fn taught_by(courses: Seq<Course>, instructor_id: InstructorId) -> Seq<CourseId> {
    values_with_key(course_pairs(courses), instructor_id)
}

/// For one list of courses and every slot of the horizon, ascending: the
/// placements of those courses that are in session at the slot sum to at most
/// one.
pub open spec fn taught_slot_constraints(
    taught: Seq<CourseId>,
    total_timeslots: u32,
    cands: Seq<Assignment>,
    course_map: Map<CourseId, &Course>,
) -> Seq<ConstraintView> {
    Seq::new(
        total_timeslots as nat,
        |k: int| sum_constraint(cands, course_map, Scope::TaughtAt(taught, k as u32), Relation::AtMost),
    )
}

/// The instructor constraints, instructor by instructor in input order; an
/// instructor whom no course names contributes none.
pub open spec fn instructor_constraints(
    instructors: Seq<Instructor>,
    courses: Seq<Course>,
    total_timeslots: u32,
    cands: Seq<Assignment>,
    course_map: Map<CourseId, &Course>,
) -> Seq<ConstraintView>
    decreases instructors.len(),
{
    if instructors.len() == 0 {
        Seq::empty()
    } else {
        let front = instructor_constraints(
            instructors.drop_last(),
            courses,
            total_timeslots,
            cands,
            course_map,
        );
        let taught = taught_by(courses, instructors.last().id);
        if taught.len() > 0 {
            front + taught_slot_constraints(taught, total_timeslots, cands, course_map)
        } else {
            front
        }
    }
}

/// The number of boundaries between consecutive slots of the horizon.
pub open spec fn boundary_count(total_timeslots: u32) -> nat {
    if total_timeslots > 1 {
        (total_timeslots - 1) as nat
    } else {
        0
    }
}

/// One penalty variable per boundary for one instructor, ascending.
pub open spec fn boundary_penalties(instructor_id: InstructorId, total_timeslots: u32) -> Seq<
    PenaltyVariable,
> {
    Seq::new(
        boundary_count(total_timeslots),
        |k: int| PenaltyVariable { instructor_id, boundary_slot: k as u32 },
    )
}

/// The penalty variables of the listed instructors, instructor by instructor.
pub open spec fn penalties_for(instructor_ids: Seq<InstructorId>, total_timeslots: u32) -> Seq<
    PenaltyVariable,
>
    decreases instructor_ids.len(),
{
    if instructor_ids.len() == 0 {
        Seq::empty()
    } else {
        penalties_for(instructor_ids.drop_last(), total_timeslots) + boundary_penalties(
            instructor_ids.last(),
            total_timeslots,
        )
    }
}

/// The slot from which on a start no longer counts as a morning start.
pub open spec fn morning_cutoff(total_timeslots: u32) -> Timeslot {
    total_timeslots / 2
}

/// The candidates of a request.
pub open spec fn feasible_candidates(input: &SchedulingInput) -> Seq<Assignment> {
    candidates(
        input.courses@,
        input.rooms@,
        input.total_timeslots,
        instructor_index(&input.instructors@),
    )
}

/// The model of a request.
pub open spec fn model_of(input: &SchedulingInput) -> ModelView {
    let cands = feasible_candidates(input);
    let course_map = course_index(&input.courses@);
    let total = input.total_timeslots;
    ModelView {
        candidates: cands,
        penalties: penalties_for(distinct_keys(course_pairs(input.courses@)), total),
        constraints: course_constraints(input.courses@, cands, course_map) + room_constraints(
            input.rooms@,
            total,
            cands,
            course_map,
        ) + instructor_constraints(input.instructors@, input.courses@, total, cands, course_map),
        morning: scope_variables(cands, course_map, Scope::Morning(morning_cutoff(total))),
        morning_reward_halves: 2,
        penalty_cost_halves: 1,
    }
}

enum Filter<'a> {
    Course(CourseId),
    RoomAt(RoomId, Timeslot),
    TaughtAt(&'a Vec<CourseId>, Timeslot),
    Morning(Timeslot),
}

impl<'a> View for Filter<'a> {
    type V = Scope;

    closed spec fn view(&self) -> Scope {
        match self {
            Filter::Course(course_id) => Scope::Course(*course_id),
            Filter::RoomAt(room_id, slot) => Scope::RoomAt(*room_id, *slot),
            Filter::TaughtAt(taught, slot) => Scope::TaughtAt(taught@, *slot),
            Filter::Morning(cutoff) => Scope::Morning(*cutoff),
        }
    }
}

pub(crate) fn is_in_session(
    course_map: &HashMap<CourseId, &Course>,
    placement: &Assignment,
    slot: Timeslot,
) -> (yes: bool)
    ensures
        yes == in_session(course_map@, *placement, slot),
{
    match course_map.get(&placement.course_id) {
        None => false,
        Some(course) => {
            let end: u64 = placement.start_slot as u64 + course.duration_slots as u64;
            placement.start_slot <= slot && (slot as u64) < end
        },
    }
}

fn lists_course(taught: &Vec<CourseId>, course_id: CourseId) -> (yes: bool)
    ensures
        yes == taught@.contains(course_id),
{
    let mut i: usize = 0;
    while i < taught.len()
        invariant
            i <= taught.len(),
            forall|j: int| 0 <= j < i ==> taught@[j] != course_id,
        decreases taught.len() - i,
    {
        if taught[i] == course_id {
            return true;
        }
        i += 1;
    }
    false
}

fn passes(filter: &Filter, course_map: &HashMap<CourseId, &Course>, placement: &Assignment) -> (yes:
    bool)
    ensures
        yes == in_scope(filter@, course_map@, *placement),
{
    match filter {
        Filter::Course(course_id) => placement.course_id == *course_id,
        Filter::RoomAt(room_id, slot) => placement.room_id == *room_id && is_in_session(
            course_map,
            placement,
            *slot,
        ),
        Filter::TaughtAt(taught, slot) => lists_course(taught, placement.course_id)
            && is_in_session(course_map, placement, *slot),
        Filter::Morning(cutoff) => placement.start_slot < *cutoff,
    }
}

fn select_variables(
    cands: &Vec<Assignment>,
    course_map: &HashMap<CourseId, &Course>,
    filter: &Filter,
) -> (variables: Vec<usize>)
    ensures
        variables@ == scope_variables(cands@, course_map@, filter@),
{
    let mut variables: Vec<usize> = Vec::new();
    let mut i: usize = 0;
    while i < cands.len()
        invariant
            i <= cands.len(),
            variables@ == scope_variables(cands@.take(i as int), course_map@, filter@),
        decreases cands.len() - i,
    {
        proof {
            assert(cands@.take(i + 1).drop_last() == cands@.take(i as int));
        }
        if passes(filter, course_map, &cands[i]) {
            variables.push(i);
        }
        i += 1;
    }
    proof {
        assert(cands@.take(i as int) == cands@);
    }
    variables
}

fn push_sum_constraint(
    out: &mut Vec<LinearConstraint>,
    cands: &Vec<Assignment>,
    course_map: &HashMap<CourseId, &Course>,
    filter: &Filter,
    relation: Relation,
)
    ensures
        constraint_views(final(out)@) == constraint_views(old(out)@).push(
            sum_constraint(cands@, course_map@, filter@, relation),
        ),
{
    let variables = select_variables(cands, course_map, filter);
    let constraint = LinearConstraint { variables, relation, bound: 1 };
    let ghost content = constraint@;
    out.push(constraint);
    proof {
        assert(constraint_views(out@) =~= constraint_views(old(out)@).push(content));
    }
}

fn push_course_constraints(
    out: &mut Vec<LinearConstraint>,
    input: &SchedulingInput,
    cands: &Vec<Assignment>,
    course_map: &HashMap<CourseId, &Course>,
)
    ensures
        constraint_views(final(out)@) == constraint_views(old(out)@) + course_constraints(
            input.courses@,
            cands@,
            course_map@,
        ),
{
    let mut i: usize = 0;
    proof {
        assert(constraint_views(out@) =~= constraint_views(old(out)@) + course_constraints(
            input.courses@.take(0),
            cands@,
            course_map@,
        ));
    }
    while i < input.courses.len()
        invariant
            i <= input.courses.len(),
            constraint_views(out@) == constraint_views(old(out)@) + course_constraints(
                input.courses@.take(i as int),
                cands@,
                course_map@,
            ),
        decreases input.courses.len() - i,
    {
        let filter = Filter::Course(input.courses[i].id);
        push_sum_constraint(out, cands, course_map, &filter, Relation::Equal);
        proof {
            let done = course_constraints(input.courses@.take(i as int), cands@, course_map@);
            let next = course_constraints(input.courses@.take(i + 1), cands@, course_map@);
            assert(next =~= done.push(
                sum_constraint(cands@, course_map@, filter@, Relation::Equal),
            ));
            assert(constraint_views(out@) =~= constraint_views(old(out)@) + next);
        }
        i += 1;
    }
    proof {
        assert(input.courses@.take(i as int) == input.courses@);
    }
}

fn push_room_slot_constraints(
    out: &mut Vec<LinearConstraint>,
    cands: &Vec<Assignment>,
    course_map: &HashMap<CourseId, &Course>,
    room_id: RoomId,
    total: u32,
)
    ensures
        constraint_views(final(out)@) == constraint_views(old(out)@) + room_slot_constraints(
            room_id,
            total,
            cands@,
            course_map@,
        ),
{
    let mut k: Timeslot = 0;
    let ghost all = room_slot_constraints(room_id, total, cands@, course_map@);
    proof {
        assert(constraint_views(out@) =~= constraint_views(old(out)@) + all.take(0));
    }
    while k < total
        invariant
            k <= total,
            all == room_slot_constraints(room_id, total, cands@, course_map@),
            constraint_views(out@) == constraint_views(old(out)@) + all.take(k as int),
        decreases total - k,
    {
        let filter = Filter::RoomAt(room_id, k);
        push_sum_constraint(out, cands, course_map, &filter, Relation::AtMost);
        proof {
            assert(all.take(k + 1) =~= all.take(k as int).push(
                sum_constraint(cands@, course_map@, filter@, Relation::AtMost),
            ));
            assert(constraint_views(out@) =~= constraint_views(old(out)@) + all.take(k + 1));
        }
        k += 1;
    }
    proof {
        assert(all.take(k as int) == all);
    }
}

fn push_room_constraints(
    out: &mut Vec<LinearConstraint>,
    input: &SchedulingInput,
    cands: &Vec<Assignment>,
    course_map: &HashMap<CourseId, &Course>,
)
    ensures
        constraint_views(final(out)@) == constraint_views(old(out)@) + room_constraints(
            input.rooms@,
            input.total_timeslots,
            cands@,
            course_map@,
        ),
{
    let total = input.total_timeslots;
    let mut r: usize = 0;
    proof {
        assert(constraint_views(out@) =~= constraint_views(old(out)@) + room_constraints(
            input.rooms@.take(0),
            total,
            cands@,
            course_map@,
        ));
    }
    while r < input.rooms.len()
        invariant
            r <= input.rooms.len(),
            total == input.total_timeslots,
            constraint_views(out@) == constraint_views(old(out)@) + room_constraints(
                input.rooms@.take(r as int),
                total,
                cands@,
                course_map@,
            ),
        decreases input.rooms.len() - r,
    {
        let room_id = input.rooms[r].id;
        push_room_slot_constraints(out, cands, course_map, room_id, total);
        proof {
            assert(input.rooms@.take(r + 1).drop_last() == input.rooms@.take(r as int));
            let done = room_constraints(input.rooms@.take(r as int), total, cands@, course_map@);
            let here = room_slot_constraints(room_id, total, cands@, course_map@);
            assert(constraint_views(out@) =~= constraint_views(old(out)@) + (done + here));
        }
        r += 1;
    }
    proof {
        assert(input.rooms@.take(r as int) == input.rooms@);
    }
}

fn push_taught_slot_constraints(
    out: &mut Vec<LinearConstraint>,
    cands: &Vec<Assignment>,
    course_map: &HashMap<CourseId, &Course>,
    taught: &Vec<CourseId>,
    total: u32,
)
    ensures
        constraint_views(final(out)@) == constraint_views(old(out)@) + taught_slot_constraints(
            taught@,
            total,
            cands@,
            course_map@,
        ),
{
    let mut k: Timeslot = 0;
    let ghost all = taught_slot_constraints(taught@, total, cands@, course_map@);
    proof {
        assert(constraint_views(out@) =~= constraint_views(old(out)@) + all.take(0));
    }
    while k < total
        invariant
            k <= total,
            all == taught_slot_constraints(taught@, total, cands@, course_map@),
            constraint_views(out@) == constraint_views(old(out)@) + all.take(k as int),
        decreases total - k,
    {
        let filter = Filter::TaughtAt(taught, k);
        push_sum_constraint(out, cands, course_map, &filter, Relation::AtMost);
        proof {
            assert(all.take(k + 1) =~= all.take(k as int).push(
                sum_constraint(cands@, course_map@, filter@, Relation::AtMost),
            ));
            assert(constraint_views(out@) =~= constraint_views(old(out)@) + all.take(k + 1));
        }
        k += 1;
    }
    proof {
        assert(all.take(k as int) == all);
    }
}

fn push_instructor_constraints(
    out: &mut Vec<LinearConstraint>,
    input: &SchedulingInput,
    cands: &Vec<Assignment>,
    course_map: &HashMap<CourseId, &Course>,
    taught_map: &HashMap<InstructorId, Vec<CourseId>>,
)
    requires
        forall|id: InstructorId| #[trigger]
            taught_map@.contains_key(id) <==> taught_by(input.courses@, id).len() > 0,
        forall|id: InstructorId| #[trigger]
            taught_map@.contains_key(id) ==> taught_map@[id]@ == taught_by(input.courses@, id),
    ensures
        constraint_views(final(out)@) == constraint_views(old(out)@) + instructor_constraints(
            input.instructors@,
            input.courses@,
            input.total_timeslots,
            cands@,
            course_map@,
        ),
{
    let total = input.total_timeslots;
    let mut i: usize = 0;
    proof {
        assert(constraint_views(out@) =~= constraint_views(old(out)@) + instructor_constraints(
            input.instructors@.take(0),
            input.courses@,
            total,
            cands@,
            course_map@,
        ));
    }
    while i < input.instructors.len()
        invariant
            i <= input.instructors.len(),
            total == input.total_timeslots,
            forall|id: InstructorId| #[trigger]
                taught_map@.contains_key(id) <==> taught_by(input.courses@, id).len() > 0,
            forall|id: InstructorId| #[trigger]
                taught_map@.contains_key(id) ==> taught_map@[id]@ == taught_by(
                    input.courses@,
                    id,
                ),
            constraint_views(out@) == constraint_views(old(out)@) + instructor_constraints(
                input.instructors@.take(i as int),
                input.courses@,
                total,
                cands@,
                course_map@,
            ),
        decreases input.instructors.len() - i,
    {
        let instructor_id = input.instructors[i].id;
        proof {
            assert(input.instructors@.take(i + 1).drop_last() == input.instructors@.take(
                i as int,
            ));
            assert(taught_map@.contains_key(instructor_id) <==> taught_by(
                input.courses@,
                instructor_id,
            ).len() > 0);
        }
        match taught_map.get(&instructor_id) {
            None => {},
            Some(taught) => {
                push_taught_slot_constraints(out, cands, course_map, taught, total);
                proof {
                    let done = instructor_constraints(
                        input.instructors@.take(i as int),
                        input.courses@,
                        total,
                        cands@,
                        course_map@,
                    );
                    let here = taught_slot_constraints(taught@, total, cands@, course_map@);
                    assert(constraint_views(out@) =~= constraint_views(old(out)@) + (done + here));
                }
            },
        }
        i += 1;
    }
    proof {
        assert(input.instructors@.take(i as int) == input.instructors@);
    }
}

fn pair_courses(input: &SchedulingInput) -> (pairs: Vec<(InstructorId, CourseId)>)
    ensures
        pairs@ == course_pairs(input.courses@),
{
    let mut pairs: Vec<(InstructorId, CourseId)> = Vec::new();
    let mut i: usize = 0;
    while i < input.courses.len()
        invariant
            i <= input.courses.len(),
            pairs@ == course_pairs(input.courses@.take(i as int)),
        decreases input.courses.len() - i,
    {
        let course = &input.courses[i];
        pairs.push((course.instructor_id, course.id));
        proof {
            assert(pairs@ =~= course_pairs(input.courses@.take(i + 1)));
        }
        i += 1;
    }
    proof {
        assert(input.courses@.take(i as int) == input.courses@);
    }
    pairs
}

fn build_penalties(instructor_ids: &Vec<InstructorId>, total: u32) -> (penalties: Vec<
    PenaltyVariable,
>)
    ensures
        penalties@ == penalties_for(instructor_ids@, total),
{
    let boundaries: u32 = if total > 1 {
        total - 1
    } else {
        0
    };
    let mut penalties: Vec<PenaltyVariable> = Vec::new();
    let mut i: usize = 0;
    while i < instructor_ids.len()
        invariant
            i <= instructor_ids.len(),
            boundaries == boundary_count(total),
            penalties@ == penalties_for(instructor_ids@.take(i as int), total),
        decreases instructor_ids.len() - i,
    {
        let instructor_id = instructor_ids[i];
        let ghost done = penalties@;
        let ghost here = boundary_penalties(instructor_id, total);
        let mut k: Timeslot = 0;
        proof {
            assert(penalties@ =~= done + here.take(0));
        }
        while k < boundaries
            invariant
                k <= boundaries,
                boundaries == boundary_count(total),
                here == boundary_penalties(instructor_id, total),
                penalties@ == done + here.take(k as int),
            decreases boundaries - k,
        {
            penalties.push(PenaltyVariable { instructor_id, boundary_slot: k });
            proof {
                assert(penalties@ =~= done + here.take(k + 1));
            }
            k += 1;
        }
        proof {
            assert(here.take(k as int) == here);
            assert(instructor_ids@.take(i + 1).drop_last() == instructor_ids@.take(i as int));
        }
        i += 1;
    }
    proof {
        assert(instructor_ids@.take(i as int) == instructor_ids@);
    }
    penalties
}

/// Builds the model of a request, or reports that it has no candidate at all.
pub fn build_model(input: &SchedulingInput) -> (built: Result<Model, SolveError>)
    ensures
        match built {
            Ok(model) => model@ == model_of(input) && model@.candidates.len() > 0,
            Err(error) => error is EmptyCandidateSet && feasible_candidates(input).len() == 0,
        },
{
    let instructor_map = index_instructors(input);
    let course_map = index_courses(input);
    let cands = generate_candidates(input, &instructor_map);
    if cands.len() == 0 {
        return Err(SolveError::EmptyCandidateSet);
    }
    let pairs = pair_courses(input);
    let instructor_ids = first_mentions(&pairs);
    let taught_map = group_by_key(pairs);
    let mut constraints: Vec<LinearConstraint> = Vec::new();
    proof {
        assert(constraint_views(constraints@) =~= Seq::empty());
    }
    push_course_constraints(&mut constraints, input, &cands, &course_map);
    push_room_constraints(&mut constraints, input, &cands, &course_map);
    push_instructor_constraints(&mut constraints, input, &cands, &course_map, &taught_map);
    let cutoff = input.total_timeslots / 2;
    let morning = select_variables(&cands, &course_map, &Filter::Morning(cutoff));
    let penalties = build_penalties(&instructor_ids, input.total_timeslots);
    let model = Model {
        candidates: cands,
        penalties,
        constraints,
        morning,
        morning_reward_halves: 2,
        penalty_cost_halves: 1,
    };
    proof {
        assert(model@.constraints =~= model_of(input).constraints);
    }
    Ok(model)
}

} // verus!
