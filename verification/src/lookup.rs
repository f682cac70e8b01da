//! Identity-keyed lookup tables over the courses and instructors of a request.
//! When an identity occurs more than once, the last record carrying it wins.

use crate::data::{Course, CourseId, Instructor, InstructorId, SchedulingInput};
use std::collections::HashMap;
use vstd::prelude::*;

verus! {

broadcast use vstd::std_specs::hash::group_hash_axioms;

/// The table from instructor identity to instructor record.
pub open spec fn instructor_index<'a>(instructors: &'a Seq<Instructor>) -> Map<
    InstructorId,
    &'a Instructor,
>
    decreases instructors.len(),
{
    if instructors.len() == 0 {
        Map::empty()
    } else {
        instructor_index(&instructors.drop_last()).insert(
            instructors.last().id,
            &instructors[instructors.len() - 1],
        )
    }
}

/// The table from course identity to course record.
pub open spec fn course_index<'a>(courses: &'a Seq<Course>) -> Map<CourseId, &'a Course>
    decreases courses.len(),
{
    if courses.len() == 0 {
        Map::empty()
    } else {
        course_index(&courses.drop_last()).insert(courses.last().id, &courses[courses.len() - 1])
    }
}

/// An identity is in the instructor table exactly when some record carries
/// it, and the table then holds one of the records that do.
pub proof fn lemma_instructor_index(instructors: &Seq<Instructor>, id: InstructorId)
    ensures
        instructor_index(instructors).contains_key(id) <==> exists|i: int|
            0 <= i < instructors.len() && #[trigger] instructors[i].id == id,
        instructor_index(instructors).contains_key(id) ==> exists|i: int|
            0 <= i < instructors.len() && #[trigger] instructors[i].id == id && instructors[i]
                == *instructor_index(instructors)[id],
    decreases instructors.len(),
{
    if instructors.len() > 0 {
        let front = instructors.drop_last();
        lemma_instructor_index(&front, id);
        let last = instructors.len() - 1;
        if instructors[last].id == id {
            assert(instructors[last] == *instructor_index(instructors)[id]);
        } else if instructor_index(&front).contains_key(id) {
            let i = choose|i: int|
                0 <= i < front.len() && #[trigger] front[i].id == id && front[i]
                    == *instructor_index(&front)[id];
            assert(instructors[i].id == id && instructors[i] == *instructor_index(
                instructors,
            )[id]);
        } else {
            assert forall|i: int| 0 <= i < instructors.len() implies #[trigger] instructors[i].id
                != id by {
                if i < last {
                    assert(front[i].id != id);
                }
            }
        }
    }
}

/// An identity is in the course table exactly when some record carries it,
/// and the table then holds one of the records that do.
pub proof fn lemma_course_index(courses: &Seq<Course>, id: CourseId)
    ensures
        course_index(courses).contains_key(id) <==> exists|i: int|
            0 <= i < courses.len() && #[trigger] courses[i].id == id,
        course_index(courses).contains_key(id) ==> exists|i: int|
            0 <= i < courses.len() && #[trigger] courses[i].id == id && courses[i] == *course_index(
                courses,
            )[id],
    decreases courses.len(),
{
    if courses.len() > 0 {
        let front = courses.drop_last();
        lemma_course_index(&front, id);
        let last = courses.len() - 1;
        if courses[last].id == id {
            assert(courses[last] == *course_index(courses)[id]);
        } else if course_index(&front).contains_key(id) {
            let i = choose|i: int|
                0 <= i < front.len() && #[trigger] front[i].id == id && front[i] == *course_index(
                    &front,
                )[id];
            assert(courses[i].id == id && courses[i] == *course_index(courses)[id]);
        } else {
            assert forall|i: int| 0 <= i < courses.len() implies #[trigger] courses[i].id
                != id by {
                if i < last {
                    assert(front[i].id != id);
                }
            }
        }
    }
}

/// Builds the instructor table of a request.
pub fn index_instructors<'a>(input: &'a SchedulingInput) -> (table: HashMap<
    InstructorId,
    &'a Instructor,
>)
    ensures
        table@ == instructor_index(&input.instructors@),
{
    let mut table: HashMap<InstructorId, &'a Instructor> = HashMap::new();
    let mut i: usize = 0;
    while i < input.instructors.len()
        invariant
            i <= input.instructors.len(),
            table@ == instructor_index(&input.instructors@.take(i as int)),
        decreases input.instructors.len() - i,
    {
        let instructor = &input.instructors[i];
        proof {
            assert(input.instructors@.take(i + 1).drop_last() == input.instructors@.take(
                i as int,
            ));
        }
        table.insert(instructor.id, instructor);
        i += 1;
    }
    proof {
        assert(input.instructors@.take(i as int) == input.instructors@);
    }
    table
}

/// Builds the course table of a request.
pub fn index_courses<'a>(input: &'a SchedulingInput) -> (table: HashMap<CourseId, &'a Course>)
    ensures
        table@ == course_index(&input.courses@),
{
    let mut table: HashMap<CourseId, &'a Course> = HashMap::new();
    let mut i: usize = 0;
    while i < input.courses.len()
        invariant
            i <= input.courses.len(),
            table@ == course_index(&input.courses@.take(i as int)),
        decreases input.courses.len() - i,
    {
        let course = &input.courses[i];
        proof {
            assert(input.courses@.take(i + 1).drop_last() == input.courses@.take(i as int));
        }
        table.insert(course.id, course);
        i += 1;
    }
    proof {
        assert(input.courses@.take(i as int) == input.courses@);
    }
    table
}

} // verus!
