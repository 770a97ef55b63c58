use remap_engine::{
    Block, DedupeEventsDropped, Expr, LocalEnv, TestError, UnitTestSinkCheck, Value,
    run_unit_test_sink,
};

/// A condition: passes on every event that does not equal the given
/// integer.
fn not_equal_condition(i: i64) -> Block {
    Block::new(
        vec![Expr::FailIf {
            condition: Box::new(Expr::Equals(
                Box::new(Expr::Target),
                Box::new(Expr::Literal(Value::Integer(i))),
            )),
            code: 5,
        }],
        LocalEnv::new(),
    )
}

#[test]
fn passing_check_reports_nothing() {
    let check = UnitTestSinkCheck::Checks(vec![vec![not_equal_condition(0)]]);
    let events = vec![Value::Integer(1), Value::Integer(2)];
    assert_eq!(check.run(&events), vec![]);
}

/// A condition passes when it holds of at least one received event.
#[test]
fn one_passing_event_satisfies_a_condition() {
    let check = UnitTestSinkCheck::Checks(vec![vec![not_equal_condition(0)]]);
    let events = vec![Value::Integer(0), Value::Integer(1)];
    assert_eq!(check.run(&events), vec![]);
}

#[test]
fn failing_check_reports_preamble_and_each_event() {
    let check = UnitTestSinkCheck::Checks(vec![vec![not_equal_condition(0)]]);
    let events = vec![Value::Integer(0), Value::Integer(0)];
    assert_eq!(
        check.run(&events),
        vec![
            TestError::CheckFailed { check: 0 },
            TestError::ConditionFailed { check: 0, condition: 0, event: 0, code: 5 },
            TestError::ConditionFailed { check: 0, condition: 0, event: 1, code: 5 },
        ]
    );
}

#[test]
fn checks_with_no_events_report_no_events() {
    let check = UnitTestSinkCheck::Checks(vec![vec![not_equal_condition(0)]]);
    assert_eq!(check.run(&vec![]), vec![TestError::NoEvents]);
}

#[test]
fn no_outputs_check() {
    assert_eq!(
        UnitTestSinkCheck::NoOutputs.run(&vec![Value::Null]),
        vec![TestError::UnexpectedOutputs]
    );
    assert_eq!(UnitTestSinkCheck::NoOutputs.run(&vec![]), vec![]);
}

#[test]
fn noop_check_reports_nothing() {
    assert_eq!(UnitTestSinkCheck::NoOp.run(&vec![Value::Null]), vec![]);
}

#[test]
fn sink_result_carries_test_name_and_errors() {
    let check = UnitTestSinkCheck::NoOp;
    let result = run_unit_test_sink(
        "smoke".to_string(),
        vec!["transform_a".to_string()],
        &check,
        &vec![Value::Null],
    );
    assert_eq!(result.test_name, "smoke");
    assert_eq!(result.transform_ids, vec!["transform_a".to_string()]);
    assert!(result.test_errors.is_empty());
}

#[test]
fn dedupe_drop_counts_its_events() {
    let dropped = DedupeEventsDropped { events: [Value::Null, Value::Integer(1)] };
    assert_eq!(dropped.discarded_count(), 2);
}

#[test]
fn default_check_is_noop() {
    let check = UnitTestSinkCheck::default();
    assert!(matches!(check, UnitTestSinkCheck::NoOp));
    assert_eq!(check.run(&vec![Value::Null]), vec![]);
}
