use course_scheduler::data::UnmetSoftConstraint;
use course_scheduler::error::SolveError;
use course_scheduler::text::render_decimal;

#[test]
fn decimal_of_single_digits() {
    assert_eq!(render_decimal(0), "0");
    assert_eq!(render_decimal(7), "7");
    assert_eq!(render_decimal(9), "9");
}

#[test]
fn decimal_of_longer_numbers() {
    assert_eq!(render_decimal(10), "10");
    assert_eq!(render_decimal(1234567890), "1234567890");
    assert_eq!(render_decimal(u32::MAX), "4294967295");
}

#[test]
fn decimal_agrees_with_the_standard_rendering() {
    for n in [1u32, 19, 100, 101, 999, 1000, 65535, 65536, 4000000000] {
        assert_eq!(render_decimal(n), format!("{}", n));
    }
}

#[test]
fn unmet_constraint_renders_as_one_line() {
    let unmet = UnmetSoftConstraint {
        constraint_type: "Prefer Mornings".to_string(),
        description: "Course 3 is late".to_string(),
    };
    assert_eq!(unmet.to_string(), "[Prefer Mornings] Course 3 is late");
}

#[test]
fn empty_candidate_set_message() {
    assert_eq!(
        SolveError::EmptyCandidateSet.message(),
        "No possible assignments found after pre-filtering. The problem might be too constrained."
    );
}

#[test]
fn solver_failure_message_appends_the_detail() {
    assert_eq!(
        SolveError::SolverFailure("infeasible".to_string()).message(),
        "No solution found. The problem might be too constrained. Solver error: infeasible"
    );
}
