//! The static admissibility rule for one placement, and the enumeration of
//! every placement that passes it.

use crate::data::{Assignment, Course, Instructor, InstructorId, Room, SchedulingInput, Timeslot};
use std::collections::HashMap;
use vstd::prelude::*;

verus! {

broadcast use vstd::std_specs::hash::group_hash_axioms;

/// Whether a course of `duration` slots that starts at `start` is in session
/// during `slot`.
pub open spec fn occupies(start: Timeslot, duration: u32, slot: Timeslot) -> bool {
    start <= slot < start + duration
}

/// Whether none of the instructor's unavailable slots falls inside
/// `[start, start + duration)`.
pub open spec fn instructor_free(instructor: &Instructor, start: Timeslot, duration: u32) -> bool {
    forall|i: int|
        0 <= i < instructor.unavailable_slots@.len() ==> !occupies(
            start,
            duration,
            #[trigger] instructor.unavailable_slots@[i],
        )
}

/// The static admissibility rule for placing `course` in `room` at `start`.
pub open spec fn assignment_possible(
    course: &Course,
    room: &Room,
    start: Timeslot,
    total_timeslots: u32,
    instructors: Map<InstructorId, &Instructor>,
) -> bool {
    &&& start + course.duration_slots <= total_timeslots
    &&& room.capacity >= course.required_capacity
    &&& instructors.contains_key(course.instructor_id)
    &&& instructor_free(instructors[course.instructor_id], start, course.duration_slots)
}

/// Decides the admissibility rule: the course fits into the horizon from
/// `start_slot`, the room seats it, and its instructor is on record and free
/// during the whole session.
pub fn is_assignment_possible(
    course: &Course,
    room: &Room,
    start_slot: Timeslot,
    input: &SchedulingInput,
    instructor_map: &HashMap<InstructorId, &Instructor>,
) -> (possible: bool)
    ensures
        possible == assignment_possible(
            course,
            room,
            start_slot,
            input.total_timeslots,
            instructor_map@,
        ),
{
    let end: u64 = start_slot as u64 + course.duration_slots as u64;
    if end > input.total_timeslots as u64 {
        return false;
    }
    if room.capacity < course.required_capacity {
        return false;
    }
    match instructor_map.get(&course.instructor_id) {
        None => false,
        Some(instructor) => {
            let slots = &instructor.unavailable_slots;
            let mut i: usize = 0;
            while i < slots.len()
                invariant
                    i <= slots.len(),
                    end == start_slot + course.duration_slots,
                    instructor_map@.contains_key(course.instructor_id),
                    instructor_map@[course.instructor_id].unavailable_slots@ == slots@,
                    forall|j: int|
                        0 <= j < i ==> !occupies(
                            start_slot,
                            course.duration_slots,
                            #[trigger] slots@[j],
                        ),
                decreases slots.len() - i,
            {
                let slot: Timeslot = slots[i];
                if start_slot <= slot && (slot as u64) < end {
                    return false;
                }
                i += 1;
            }
            true
        },
    }
}

/// The admissible placements of `course` in `room` with a start slot below
/// `upto`, by ascending start slot.
pub open spec fn slot_candidates(
    course: &Course,
    room: &Room,
    upto: int,
    total_timeslots: u32,
    instructors: Map<InstructorId, &Instructor>,
) -> Seq<Assignment>
    decreases upto,
{
    if upto <= 0 {
        Seq::empty()
    } else {
        let earlier = slot_candidates(course, room, upto - 1, total_timeslots, instructors);
        let start = (upto - 1) as u32;
        if assignment_possible(course, room, start, total_timeslots, instructors) {
            earlier.push(Assignment { course_id: course.id, room_id: room.id, start_slot: start })
        } else {
            earlier
        }
    }
}

/// The admissible placements of `course` in the given rooms, room by room.
pub open spec fn room_candidates(
    course: &Course,
    rooms: Seq<Room>,
    total_timeslots: u32,
    instructors: Map<InstructorId, &Instructor>,
) -> Seq<Assignment>
    decreases rooms.len(),
{
    if rooms.len() == 0 {
        Seq::empty()
    } else {
        room_candidates(course, rooms.drop_last(), total_timeslots, instructors) + slot_candidates(
            course,
            &rooms.last(),
            total_timeslots as int,
            total_timeslots,
            instructors,
        )
    }
}

/// Every admissible placement of the given courses: ordered by course, then
/// by room, then by start slot, each in input order.
pub open spec fn candidates(
    courses: Seq<Course>,
    rooms: Seq<Room>,
    total_timeslots: u32,
    instructors: Map<InstructorId, &Instructor>,
) -> Seq<Assignment>
    decreases courses.len(),
{
    if courses.len() == 0 {
        Seq::empty()
    } else {
        candidates(courses.drop_last(), rooms, total_timeslots, instructors) + room_candidates(
            &courses.last(),
            rooms,
            total_timeslots,
            instructors,
        )
    }
}

/// Whether the placement starts inside the horizon and names a course and a
/// room of the request, by identity, for which the admissibility rule holds
/// at its start slot.
pub open spec fn admissible(
    placement: Assignment,
    courses: Seq<Course>,
    rooms: Seq<Room>,
    total_timeslots: u32,
    instructors: Map<InstructorId, &Instructor>,
) -> bool {
    &&& placement.start_slot < total_timeslots
    &&& exists|c: int, r: int|
        0 <= c < courses.len() && 0 <= r < rooms.len() && (#[trigger] courses[c]).id
            == placement.course_id && (#[trigger] rooms[r]).id == placement.room_id
            && assignment_possible(
            &courses[c],
            &rooms[r],
            placement.start_slot,
            total_timeslots,
            instructors,
        )
}

proof fn lemma_slot_candidates(
    course: &Course,
    room: &Room,
    upto: int,
    total_timeslots: u32,
    instructors: Map<InstructorId, &Instructor>,
    placement: Assignment,
)
    requires
        upto <= total_timeslots,
    ensures
        slot_candidates(course, room, upto, total_timeslots, instructors).contains(placement) <==> {
            &&& placement.course_id == course.id
            &&& placement.room_id == room.id
            &&& placement.start_slot < upto
            &&& assignment_possible(
                course,
                room,
                placement.start_slot,
                total_timeslots,
                instructors,
            )
        },
    decreases upto,
{
    if upto > 0 {
        lemma_slot_candidates(course, room, upto - 1, total_timeslots, instructors, placement);
        let earlier = slot_candidates(course, room, upto - 1, total_timeslots, instructors);
        let start = (upto - 1) as u32;
        let here = Assignment { course_id: course.id, room_id: room.id, start_slot: start };
        if assignment_possible(course, room, start, total_timeslots, instructors) {
            assert(earlier.push(here).last() == here);
            assert forall|i: int| 0 <= i < earlier.len() implies earlier.push(here)[i]
                == earlier[i] by {}
            if earlier.push(here).contains(placement) {
                let i = choose|i: int|
                    0 <= i < earlier.push(here).len() && earlier.push(here)[i] == placement;
                if i < earlier.len() {
                    assert(earlier[i] == placement);
                }
            }
            if earlier.contains(placement) {
                let i = choose|i: int| 0 <= i < earlier.len() && earlier[i] == placement;
                assert(earlier.push(here)[i] == placement);
            }
        }
    }
}

proof fn lemma_concat_contains<T>(a: Seq<T>, b: Seq<T>, x: T)
    ensures
        (a + b).contains(x) <==> a.contains(x) || b.contains(x),
{
    if (a + b).contains(x) {
        let i = choose|i: int| 0 <= i < (a + b).len() && (a + b)[i] == x;
        if i < a.len() {
            assert(a[i] == x);
        } else {
            assert(b[i - a.len()] == x);
        }
    }
    if a.contains(x) {
        let i = choose|i: int| 0 <= i < a.len() && a[i] == x;
        assert((a + b)[i] == x);
    }
    if b.contains(x) {
        let i = choose|i: int| 0 <= i < b.len() && b[i] == x;
        assert((a + b)[a.len() + i] == x);
    }
}

proof fn lemma_room_candidates(
    course: &Course,
    rooms: Seq<Room>,
    total_timeslots: u32,
    instructors: Map<InstructorId, &Instructor>,
    placement: Assignment,
)
    ensures
        room_candidates(course, rooms, total_timeslots, instructors).contains(placement) <==> {
            &&& placement.course_id == course.id
            &&& placement.start_slot < total_timeslots
            &&& exists|r: int|
                0 <= r < rooms.len() && (#[trigger] rooms[r]).id == placement.room_id
                    && assignment_possible(
                    course,
                    &rooms[r],
                    placement.start_slot,
                    total_timeslots,
                    instructors,
                )
        },
    decreases rooms.len(),
{
    if rooms.len() > 0 {
        let front = rooms.drop_last();
        let last = rooms.len() - 1;
        lemma_room_candidates(course, front, total_timeslots, instructors, placement);
        lemma_slot_candidates(
            course,
            &rooms.last(),
            total_timeslots as int,
            total_timeslots,
            instructors,
            placement,
        );
        lemma_concat_contains(
            room_candidates(course, front, total_timeslots, instructors),
            slot_candidates(
                course,
                &rooms.last(),
                total_timeslots as int,
                total_timeslots,
                instructors,
            ),
            placement,
        );
        let found = exists|r: int|
            0 <= r < rooms.len() && (#[trigger] rooms[r]).id == placement.room_id
                && assignment_possible(
                course,
                &rooms[r],
                placement.start_slot,
                total_timeslots,
                instructors,
            );
        let found_front = exists|r: int|
            0 <= r < front.len() && (#[trigger] front[r]).id == placement.room_id
                && assignment_possible(
                course,
                &front[r],
                placement.start_slot,
                total_timeslots,
                instructors,
            );
        let ok_last = rooms[last].id == placement.room_id && assignment_possible(
            course,
            &rooms[last],
            placement.start_slot,
            total_timeslots,
            instructors,
        );
        if found_front {
            let r = choose|r: int|
                0 <= r < front.len() && (#[trigger] front[r]).id == placement.room_id
                    && assignment_possible(
                    course,
                    &front[r],
                    placement.start_slot,
                    total_timeslots,
                    instructors,
                );
            assert(rooms[r] == front[r]);
            assert(found);
        }
        if ok_last {
            assert(found);
        }
        if found {
            let r = choose|r: int|
                0 <= r < rooms.len() && (#[trigger] rooms[r]).id == placement.room_id
                    && assignment_possible(
                    course,
                    &rooms[r],
                    placement.start_slot,
                    total_timeslots,
                    instructors,
                );
            if r < last {
                assert(front[r] == rooms[r]);
                assert(found_front);
            } else {
                assert(ok_last);
            }
        }
    }
}

/// A placement is among the candidates exactly when it is admissible.
pub proof fn lemma_candidates_are_the_admissible(
    courses: Seq<Course>,
    rooms: Seq<Room>,
    total_timeslots: u32,
    instructors: Map<InstructorId, &Instructor>,
    placement: Assignment,
)
    ensures
        candidates(courses, rooms, total_timeslots, instructors).contains(placement)
            <==> admissible(placement, courses, rooms, total_timeslots, instructors),
    decreases courses.len(),
{
    if courses.len() > 0 {
        let front = courses.drop_last();
        let last = courses.len() - 1;
        lemma_candidates_are_the_admissible(front, rooms, total_timeslots, instructors, placement);
        lemma_room_candidates(&courses.last(), rooms, total_timeslots, instructors, placement);
        lemma_concat_contains(
            candidates(front, rooms, total_timeslots, instructors),
            room_candidates(&courses.last(), rooms, total_timeslots, instructors),
            placement,
        );
        let whole = admissible(placement, courses, rooms, total_timeslots, instructors);
        let in_front = admissible(placement, front, rooms, total_timeslots, instructors);
        let in_last = room_candidates(&courses.last(), rooms, total_timeslots, instructors).contains(
            placement,
        );
        if in_front {
            let (c, r) = choose|c: int, r: int|
                0 <= c < front.len() && 0 <= r < rooms.len() && (#[trigger] front[c]).id
                    == placement.course_id && (#[trigger] rooms[r]).id == placement.room_id
                    && assignment_possible(
                    &front[c],
                    &rooms[r],
                    placement.start_slot,
                    total_timeslots,
                    instructors,
                );
            assert(courses[c] == front[c]);
            assert(whole);
        }
        if in_last {
            let r = choose|r: int|
                0 <= r < rooms.len() && (#[trigger] rooms[r]).id == placement.room_id
                    && assignment_possible(
                    &courses.last(),
                    &rooms[r],
                    placement.start_slot,
                    total_timeslots,
                    instructors,
                );
            assert(courses[last].id == placement.course_id);
            assert(whole);
        }
        if whole {
            let (c, r) = choose|c: int, r: int|
                0 <= c < courses.len() && 0 <= r < rooms.len() && (#[trigger] courses[c]).id
                    == placement.course_id && (#[trigger] rooms[r]).id == placement.room_id
                    && assignment_possible(
                    &courses[c],
                    &rooms[r],
                    placement.start_slot,
                    total_timeslots,
                    instructors,
                );
            if c < last {
                assert(front[c] == courses[c]);
                assert(in_front);
            } else {
                assert(in_last);
            }
        }
    }
}

/// Enumerates every admissible placement of the request.
pub fn generate_candidates(
    input: &SchedulingInput,
    instructor_map: &HashMap<InstructorId, &Instructor>,
) -> (found: Vec<Assignment>)
    ensures
        found@ == candidates(
            input.courses@,
            input.rooms@,
            input.total_timeslots,
            instructor_map@,
        ),
{
    let total = input.total_timeslots;
    let mut found: Vec<Assignment> = Vec::new();
    let mut c: usize = 0;
    while c < input.courses.len()
        invariant
            c <= input.courses.len(),
            total == input.total_timeslots,
            found@ == candidates(input.courses@.take(c as int), input.rooms@, total, instructor_map@),
        decreases input.courses.len() - c,
    {
        let course = &input.courses[c];
        let ghost before_course = found@;
        let mut r: usize = 0;
        while r < input.rooms.len()
            invariant
                r <= input.rooms.len(),
                total == input.total_timeslots,
                found@ == before_course + room_candidates(
                    course,
                    input.rooms@.take(r as int),
                    total,
                    instructor_map@,
                ),
            decreases input.rooms.len() - r,
        {
            let room = &input.rooms[r];
            let ghost before_room = found@;
            let mut start: Timeslot = 0;
            while start < total
                invariant
                    start <= total,
                    total == input.total_timeslots,
                    found@ == before_room + slot_candidates(
                        course,
                        room,
                        start as int,
                        total,
                        instructor_map@,
                    ),
                decreases total - start,
            {
                if is_assignment_possible(course, room, start, input, instructor_map) {
                    found.push(
                        Assignment { course_id: course.id, room_id: room.id, start_slot: start },
                    );
                }
                start += 1;
            }
            proof {
                assert(input.rooms@.take(r + 1).drop_last() == input.rooms@.take(r as int));
                assert(input.rooms@.take(r + 1).last() == *room);
            }
            r += 1;
        }
        proof {
            assert(input.rooms@.take(r as int) == input.rooms@);
            assert(input.courses@.take(c + 1).drop_last() == input.courses@.take(c as int));
            assert(input.courses@.take(c + 1).last() == *course);
        }
        c += 1;
    }
    proof {
        assert(input.courses@.take(c as int) == input.courses@);
    }
    found
}

} // verus!
