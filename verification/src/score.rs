//! The preference score of a schedule and the list of preferences it misses,
//! computed from the placements alone.

use crate::data::{
    unmet_texts, Assignment, Course, CourseId, InstructorId, SchedulingInput, Timeslot,
    UnmetSoftConstraint, UnmetText,
};
use crate::grouping::{
    distinct_keys, first_mentions, group_by_key, grouped_len, lemma_grouped_len_prefix,
    lemma_grouped_len_total, values_with_key,
};
use crate::model::morning_cutoff;
use crate::ordering::{lemma_sorted_by, sort_placements, sorted_by, Order};
use crate::text::{decimal, render_decimal};
use std::collections::HashMap;
use vstd::prelude::*;
use vstd::string::StringExecFns;

verus! {

broadcast use vstd::std_specs::hash::group_hash_axioms;

/// The most placements a score can be computed for: each contributes at most
/// two points, and the score is a 32-bit integer.
pub const MAX_SCORED_ASSIGNMENTS: usize = 0x3fff_ffff;

/// The diagnostic for a placement that does not start in the morning.
pub open spec fn morning_miss(placement: Assignment) -> UnmetText {
    UnmetText {
        constraint_type: "Prefer Mornings"@,
        description: "Course "@ + decimal(placement.course_id as nat) + " is scheduled at slot "@
            + decimal(placement.start_slot as nat)
            + ", which is not in the morning. Morning starts at 6 am (slot 0) and ends at 12 pm (slot 6)"@,
    }
}

/// The diagnostic for an instructor whose class ends at `boundary` and whose
/// next class starts there.
pub open spec fn back_to_back_miss(
    instructor_id: InstructorId,
    first_course: CourseId,
    boundary: nat,
    second_course: CourseId,
    second_start: Timeslot,
) -> UnmetText {
    UnmetText {
        constraint_type: "Avoid Back-to-Back Classes"@,
        description: "Instructor "@ + decimal(instructor_id as nat)
            + " has back-to-back classes: Course "@ + decimal(first_course as nat)
            + " (ends at slot "@ + decimal(boundary) + ") and Course "@ + decimal(
            second_course as nat,
        ) + " (starts at slot "@ + decimal(second_start as nat) + ")."@,
    }
}

/// One point for every placement that starts before the cutoff, minus one
/// for every other.
pub open spec fn morning_score(placements: Seq<Assignment>, cutoff: Timeslot) -> int
    decreases placements.len(),
{
    if placements.len() == 0 {
        0
    } else {
        morning_score(placements.drop_last(), cutoff) + if placements.last().start_slot < cutoff {
            1int
        } else {
            -1int
        }
    }
}

/// The diagnostics of the placements that do not start before the cutoff,
/// in the order of the placements.
pub open spec fn morning_unmet(placements: Seq<Assignment>, cutoff: Timeslot) -> Seq<UnmetText>
    decreases placements.len(),
{
    if placements.len() == 0 {
        Seq::empty()
    } else {
        let front = morning_unmet(placements.drop_last(), cutoff);
        if placements.last().start_slot < cutoff {
            front
        } else {
            front.push(morning_miss(placements.last()))
        }
    }
}

/// Each placement whose course is on record, paired with that course's
/// instructor, in the order of the placements.
pub open spec fn taught_pairs(
    placements: Seq<Assignment>,
    course_map: Map<CourseId, &Course>,
) -> Seq<(InstructorId, Assignment)>
    decreases placements.len(),
{
    if placements.len() == 0 {
        Seq::empty()
    } else {
        let front = taught_pairs(placements.drop_last(), course_map);
        let last = placements.last();
        if course_map.contains_key(last.course_id) {
            front.push((course_map[last.course_id].instructor_id, last))
        } else {
            front
        }
    }
}

/// The slot right after the last one of the placement, with the duration on
/// record for its course.
pub open spec fn session_end(course_map: Map<CourseId, &Course>, placement: Assignment) -> int {
    placement.start_slot + if course_map.contains_key(placement.course_id) {
        course_map[placement.course_id].duration_slots as int
    } else {
        0
    }
}

/// Over the consecutive pairs of one instructor's placements: one point
/// where the second does not start right when the first ends, minus one
/// where it does.
pub open spec fn adjacent_score(ordered: Seq<Assignment>, course_map: Map<CourseId, &Course>) -> int
    decreases ordered.len(),
{
    if ordered.len() < 2 {
        0
    } else {
        let first = ordered[ordered.len() - 2];
        let second = ordered[ordered.len() - 1];
        adjacent_score(ordered.drop_last(), course_map) + if session_end(course_map, first)
            != second.start_slot {
            1int
        } else {
            -1int
        }
    }
}

/// The diagnostics of the consecutive pairs in which the second placement
/// starts right when the first ends.
pub open spec fn adjacent_unmet(
    instructor_id: InstructorId,
    ordered: Seq<Assignment>,
    course_map: Map<CourseId, &Course>,
) -> Seq<UnmetText>
    decreases ordered.len(),
{
    if ordered.len() < 2 {
        Seq::empty()
    } else {
        let first = ordered[ordered.len() - 2];
        let second = ordered[ordered.len() - 1];
        let front = adjacent_unmet(instructor_id, ordered.drop_last(), course_map);
        if session_end(course_map, first) != second.start_slot {
            front
        } else {
            front.push(
                back_to_back_miss(
                    instructor_id,
                    first.course_id,
                    session_end(course_map, first) as nat,
                    second.course_id,
                    second.start_slot,
                ),
            )
        }
    }
}

/// The placements of one instructor, by ascending start slot; placements
/// with the same start keep the order of the schedule.
pub open spec fn instructor_day(
    pairs: Seq<(InstructorId, Assignment)>,
    instructor_id: InstructorId,
) -> Seq<Assignment> {
    sorted_by(Order::ByStart, values_with_key(pairs, instructor_id))
}

/// The back-to-back points of the listed instructors.
pub open spec fn back_to_back_score(
    instructor_ids: Seq<InstructorId>,
    pairs: Seq<(InstructorId, Assignment)>,
    course_map: Map<CourseId, &Course>,
) -> int
    decreases instructor_ids.len(),
{
    if instructor_ids.len() == 0 {
        0
    } else {
        back_to_back_score(instructor_ids.drop_last(), pairs, course_map) + adjacent_score(
            instructor_day(pairs, instructor_ids.last()),
            course_map,
        )
    }
}

/// The back-to-back diagnostics of the listed instructors, instructor by
/// instructor.
pub open spec fn back_to_back_unmet(
    instructor_ids: Seq<InstructorId>,
    pairs: Seq<(InstructorId, Assignment)>,
    course_map: Map<CourseId, &Course>,
) -> Seq<UnmetText>
    decreases instructor_ids.len(),
{
    if instructor_ids.len() == 0 {
        Seq::empty()
    } else {
        back_to_back_unmet(instructor_ids.drop_last(), pairs, course_map) + adjacent_unmet(
            instructor_ids.last(),
            instructor_day(pairs, instructor_ids.last()),
            course_map,
        )
    }
}

/// The score of a schedule: the morning points plus the back-to-back points
/// of every instructor with a placement.
pub open spec fn schedule_score(
    placements: Seq<Assignment>,
    total_timeslots: u32,
    course_map: Map<CourseId, &Course>,
) -> int {
    let pairs = taught_pairs(placements, course_map);
    morning_score(placements, morning_cutoff(total_timeslots)) + back_to_back_score(
        distinct_keys(pairs),
        pairs,
        course_map,
    )
}

/// The diagnostics of a schedule: the morning ones in the order of the
/// placements, then the back-to-back ones, instructors in the order in which
/// the schedule first mentions them.
pub open spec fn schedule_unmet(
    placements: Seq<Assignment>,
    total_timeslots: u32,
    course_map: Map<CourseId, &Course>,
) -> Seq<UnmetText> {
    let pairs = taught_pairs(placements, course_map);
    morning_unmet(placements, morning_cutoff(total_timeslots)) + back_to_back_unmet(
        distinct_keys(pairs),
        pairs,
        course_map,
    )
}

/// The score and the diagnostics are determined by the placements, the
/// horizon and the course table: whatever the calculator returns for them,
/// it returns every time.
pub proof fn lemma_score_is_determined(
    placements: Seq<Assignment>,
    total_timeslots: u32,
    course_map: Map<CourseId, &Course>,
    first: (i32, Seq<UnmetSoftConstraint>),
    second: (i32, Seq<UnmetSoftConstraint>),
)
    requires
        first.0 == schedule_score(placements, total_timeslots, course_map),
        unmet_texts(first.1) == schedule_unmet(placements, total_timeslots, course_map),
        second.0 == schedule_score(placements, total_timeslots, course_map),
        unmet_texts(second.1) == schedule_unmet(placements, total_timeslots, course_map),
    ensures
        first.0 == second.0,
        first.1.len() == second.1.len(),
        forall|i: int| 0 <= i < first.1.len() ==> (#[trigger] first.1[i])@ == second.1[i]@,
{
    assert(unmet_texts(first.1).len() == first.1.len());
    assert(unmet_texts(second.1).len() == second.1.len());
    assert forall|i: int| 0 <= i < first.1.len() implies (#[trigger] first.1[i])@
        == second.1[i]@ by {
        assert(unmet_texts(first.1)[i] == first.1[i]@);
        assert(unmet_texts(second.1)[i] == second.1[i]@);
    }
}

proof fn lemma_adjacent_score_bound(ordered: Seq<Assignment>, course_map: Map<CourseId, &Course>)
    ensures
        -(ordered.len() as int) <= adjacent_score(ordered, course_map) <= ordered.len(),
    decreases ordered.len(),
{
    if ordered.len() >= 2 {
        lemma_adjacent_score_bound(ordered.drop_last(), course_map);
    }
}

fn describe_morning_miss(placement: &Assignment) -> (unmet: UnmetSoftConstraint)
    ensures
        unmet@ == morning_miss(*placement),
{
    let mut description = String::from_str("Course ");
    description.append(render_decimal(placement.course_id).as_str());
    description.append(" is scheduled at slot ");
    description.append(render_decimal(placement.start_slot).as_str());
    description.append(
        ", which is not in the morning. Morning starts at 6 am (slot 0) and ends at 12 pm (slot 6)",
    );
    let unmet = UnmetSoftConstraint {
        constraint_type: String::from_str("Prefer Mornings"),
        description,
    };
    proof {
        assert(unmet@.description =~= morning_miss(*placement).description);
    }
    unmet
}

fn describe_back_to_back(
    instructor_id: InstructorId,
    first_course: CourseId,
    boundary: Timeslot,
    second_course: CourseId,
    second_start: Timeslot,
) -> (unmet: UnmetSoftConstraint)
    ensures
        unmet@ == back_to_back_miss(
            instructor_id,
            first_course,
            boundary as nat,
            second_course,
            second_start,
        ),
{
    let mut description = String::from_str("Instructor ");
    description.append(render_decimal(instructor_id).as_str());
    description.append(" has back-to-back classes: Course ");
    description.append(render_decimal(first_course).as_str());
    description.append(" (ends at slot ");
    description.append(render_decimal(boundary).as_str());
    description.append(") and Course ");
    description.append(render_decimal(second_course).as_str());
    description.append(" (starts at slot ");
    description.append(render_decimal(second_start).as_str());
    description.append(").");
    let unmet = UnmetSoftConstraint {
        constraint_type: String::from_str("Avoid Back-to-Back Classes"),
        description,
    };
    proof {
        assert(unmet@.description =~= back_to_back_miss(
            instructor_id,
            first_course,
            boundary as nat,
            second_course,
            second_start,
        ).description);
    }
    unmet
}

fn ends_at(course_map: &HashMap<CourseId, &Course>, placement: &Assignment) -> (end: u64)
    ensures
        end == session_end(course_map@, *placement),
{
    match course_map.get(&placement.course_id) {
        None => placement.start_slot as u64,
        Some(course) => placement.start_slot as u64 + course.duration_slots as u64,
    }
}

/// Scores a schedule and lists the preferences it misses.
pub fn calculate_score_and_unmet_constraints(
    assignments: &[Assignment],
    input: &SchedulingInput,
    course_map: &HashMap<CourseId, &Course>,
) -> (result: (i32, Vec<UnmetSoftConstraint>))
    requires
        assignments@.len() <= MAX_SCORED_ASSIGNMENTS,
    ensures
        result.0 == schedule_score(assignments@, input.total_timeslots, course_map@),
        unmet_texts(result.1@) == schedule_unmet(
            assignments@,
            input.total_timeslots,
            course_map@,
        ),
{
    let cutoff = input.total_timeslots / 2;
    let count = assignments.len();
    let mut score: i32 = 0;
    let mut unmet: Vec<UnmetSoftConstraint> = Vec::new();
    let mut pairs: Vec<(InstructorId, Assignment)> = Vec::new();
    let mut i: usize = 0;
    proof {
        assert(unmet_texts(unmet@) =~= morning_unmet(assignments@.take(0), cutoff));
    }
    while i < count
        invariant
            i <= count,
            count == assignments@.len(),
            count <= MAX_SCORED_ASSIGNMENTS,
            cutoff == morning_cutoff(input.total_timeslots),
            score == morning_score(assignments@.take(i as int), cutoff),
            -(i as int) <= score <= i,
            unmet_texts(unmet@) == morning_unmet(assignments@.take(i as int), cutoff),
            pairs@ == taught_pairs(assignments@.take(i as int), course_map@),
            pairs@.len() <= i,
        decreases count - i,
    {
        let placement = assignments[i];
        let ghost texts = unmet_texts(unmet@);
        proof {
            assert(assignments@.take(i + 1).drop_last() == assignments@.take(i as int));
        }
        if placement.start_slot < cutoff {
            score = score + 1;
        } else {
            score = score - 1;
            let miss = describe_morning_miss(&placement);
            unmet.push(miss);
            proof {
                assert(unmet_texts(unmet@) =~= texts.push(miss@));
            }
        }
        match course_map.get(&placement.course_id) {
            None => {},
            Some(course) => {
                pairs.push((course.instructor_id, placement));
            },
        }
        i += 1;
    }
    proof {
        assert(assignments@.take(i as int) == assignments@);
    }
    let instructor_ids = first_mentions(&pairs);
    let ghost all_pairs = pairs@;
    let groups = group_by_key(pairs);
    let ghost morning_points = score as int;
    let ghost morning_texts = unmet_texts(unmet@);
    proof {
        lemma_grouped_len_total(all_pairs);
        assert(unmet_texts(unmet@) =~= morning_texts + back_to_back_unmet(
            instructor_ids@.take(0),
            all_pairs,
            course_map@,
        ));
    }
    let mut g: usize = 0;
    while g < instructor_ids.len()
        invariant
            g <= instructor_ids.len(),
            count <= MAX_SCORED_ASSIGNMENTS,
            -(count as int) <= morning_points <= count,
            all_pairs.len() <= count,
            instructor_ids@ == distinct_keys(all_pairs),
            grouped_len(instructor_ids@, all_pairs) == all_pairs.len(),
            forall|key: u32| #[trigger]
                groups@.contains_key(key) <==> values_with_key(all_pairs, key).len() > 0,
            forall|key: u32| #[trigger]
                groups@.contains_key(key) ==> groups@[key]@ == values_with_key(all_pairs, key),
            score == morning_points + back_to_back_score(
                instructor_ids@.take(g as int),
                all_pairs,
                course_map@,
            ),
            -(grouped_len(instructor_ids@.take(g as int), all_pairs) as int) <= back_to_back_score(
                instructor_ids@.take(g as int),
                all_pairs,
                course_map@,
            ) <= grouped_len(instructor_ids@.take(g as int), all_pairs),
            unmet_texts(unmet@) == morning_texts + back_to_back_unmet(
                instructor_ids@.take(g as int),
                all_pairs,
                course_map@,
            ),
        decreases instructor_ids.len() - g,
    {
        let instructor_id = instructor_ids[g];
        let ghost done_ids = instructor_ids@.take(g as int);
        let ghost done_points = back_to_back_score(done_ids, all_pairs, course_map@);
        let ghost done_texts = unmet_texts(unmet@);
        let ghost day = instructor_day(all_pairs, instructor_id);
        proof {
            assert(instructor_ids@.take(g + 1).drop_last() == done_ids);
            lemma_grouped_len_prefix(instructor_ids@, all_pairs, g + 1);
            lemma_sorted_by(Order::ByStart, values_with_key(all_pairs, instructor_id));
            lemma_adjacent_score_bound(day, course_map@);
            assert(groups@.contains_key(instructor_id) <==> values_with_key(
                all_pairs,
                instructor_id,
            ).len() > 0);
        }
        match groups.get(&instructor_id) {
            None => {
                proof {
                    assert(day.len() == 0);
                    assert(unmet_texts(unmet@) =~= morning_texts + back_to_back_unmet(
                        instructor_ids@.take(g + 1),
                        all_pairs,
                        course_map@,
                    ));
                }
            },
            Some(group) => {
                let ordered = sort_placements(Order::ByStart, group);
                let mut j: usize = 1;
                proof {
                    assert(ordered@ == day);
                    assert(unmet_texts(unmet@) =~= done_texts + adjacent_unmet(
                        instructor_id,
                        day.take(1),
                        course_map@,
                    ));
                }
                while j < ordered.len()
                    invariant
                        1 <= j,
                        j <= ordered.len() || ordered.len() == 0,
                        ordered@ == day,
                        count <= MAX_SCORED_ASSIGNMENTS,
                        -(count as int) <= morning_points <= count,
                        -(grouped_len(done_ids, all_pairs) as int) <= done_points <= grouped_len(
                            done_ids,
                            all_pairs,
                        ),
                        grouped_len(done_ids, all_pairs) + day.len() <= count,
                        score == morning_points + done_points + adjacent_score(
                            day.take(j as int),
                            course_map@,
                        ),
                        -(j as int) <= adjacent_score(day.take(j as int), course_map@) <= j,
                        unmet_texts(unmet@) == done_texts + adjacent_unmet(
                            instructor_id,
                            day.take(j as int),
                            course_map@,
                        ),
                    decreases ordered.len() - j,
                {
                    let first = ordered[j - 1];
                    let second = ordered[j];
                    let ghost texts = unmet_texts(unmet@);
                    proof {
                        assert(day.take(j + 1).drop_last() == day.take(j as int));
                        lemma_adjacent_score_bound(day.take(j + 1), course_map@);
                        lemma_adjacent_score_bound(day.take(j as int), course_map@);
                    }
                    if ends_at(course_map, &first) != second.start_slot as u64 {
                        score = score + 1;
                    } else {
                        score = score - 1;
                        let miss = describe_back_to_back(
                            instructor_id,
                            first.course_id,
                            second.start_slot,
                            second.course_id,
                            second.start_slot,
                        );
                        unmet.push(miss);
                        proof {
                            assert(unmet_texts(unmet@) =~= texts.push(miss@));
                        }
                    }
                    j += 1;
                }
                proof {
                    if ordered.len() >= 1 {
                        assert(day.take(j as int) == day);
                    }
                    assert(unmet_texts(unmet@) =~= morning_texts + back_to_back_unmet(
                        instructor_ids@.take(g + 1),
                        all_pairs,
                        course_map@,
                    ));
                }
            },
        }
        g += 1;
    }
    proof {
        assert(instructor_ids@.take(g as int) == instructor_ids@);
    }
    (score, unmet)
}

} // verus!
