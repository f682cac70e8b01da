//! The entities of a scheduling request and of its result.

use vstd::prelude::*;
use vstd::string::StringExecFns;

verus! {

/// The identity of a room.
pub type RoomId = u32;

/// The identity of a course.
pub type CourseId = u32;

/// The identity of an instructor.
pub type InstructorId = u32;

/// The number of a timeslot, counted from zero.
pub type Timeslot = u32;

/// A physical room with a seating capacity.
#[derive(Debug, Clone, Copy)]
pub struct Room {
    pub id: RoomId,
    pub capacity: u32,
}

/// A course to be placed: who teaches it, how many consecutive timeslots it
/// takes, and how many seats it needs.
#[derive(Debug, Clone, Copy)]
pub struct Course {
    pub id: CourseId,
    pub instructor_id: InstructorId,
    pub duration_slots: u32,
    pub required_capacity: u32,
}

/// An instructor together with the timeslots in which they cannot teach.
#[derive(Debug, Clone)]
pub struct Instructor {
    pub id: InstructorId,
    pub unavailable_slots: Vec<Timeslot>,
}

/// Everything one scheduling request consists of. Timeslots are numbered
/// `0 .. total_timeslots`.
#[derive(Debug, Clone)]
pub struct SchedulingInput {
    pub rooms: Vec<Room>,
    pub courses: Vec<Course>,
    pub instructors: Vec<Instructor>,
    pub total_timeslots: u32,
}

/// A course placed in a room, starting at a timeslot.
#[derive(Debug, Clone, Copy, PartialEq, Eq, Structural, Hash, PartialOrd, Ord)]
pub struct Assignment {
    pub course_id: CourseId,
    pub room_id: RoomId,
    pub start_slot: Timeslot,
}

/// A soft preference that the schedule does not meet.
#[derive(Debug, Clone)]
pub struct UnmetSoftConstraint {
    pub constraint_type: String,
    pub description: String,
}

/// The two texts of an [`UnmetSoftConstraint`].
pub struct UnmetText {
    pub constraint_type: Seq<char>,
    pub description: Seq<char>,
}

impl View for UnmetSoftConstraint {
    type V = UnmetText;

    open spec fn view(&self) -> UnmetText {
        UnmetText { constraint_type: self.constraint_type@, description: self.description@ }
    }
}

impl UnmetSoftConstraint {
    /// The one-line form: the constraint type in square brackets, a space,
    /// and the description.
    pub open spec fn line(&self) -> Seq<char> {
        "["@ + self.constraint_type@ + "] "@ + self.description@
    }

    /// Renders the one-line form.
    pub fn to_string(&self) -> (text: String)
        ensures
            text@ == self.line(),
    {
        let mut text = String::from_str("[");
        text.append(self.constraint_type.as_str());
        text.append("] ");
        text.append(self.description.as_str());
        text
    }
}

/// The diagnostics of a vector, each by its texts.
pub open spec fn unmet_texts(unmet: Seq<UnmetSoftConstraint>) -> Seq<UnmetText> {
    unmet.map_values(|u: UnmetSoftConstraint| u@)
}

/// What a successful solve returns.
#[derive(Debug, Clone)]
pub struct SchedulingOutput {
    pub assignments: Vec<Assignment>,
    pub score: i32,
    pub unmet_soft_constraints: Vec<UnmetSoftConstraint>,
}

} // verus!
