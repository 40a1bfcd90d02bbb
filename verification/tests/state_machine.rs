use sam::state::{Assertion, SharedState, SuiteOutcome, TestId, TestReport};

fn assertion(message: &str, success: bool) -> Assertion {
    Assertion {
        message: message.to_string(),
        success,
        file: "spec.rhai".to_string(),
        line: 1,
    }
}

#[test]
fn fresh_state_is_empty() {
    let state = SharedState::new();
    assert_eq!(state.indention_level, 1);
    assert_eq!(state.test_count, 0);
    assert_eq!(state.error_count, 0);
    assert!(state.current_test_stack.is_empty());
    assert!(state.assertions.is_empty());
    assert!(!state.current_test_failed);
}

#[test]
fn suite_enter_exit_balances_stack() {
    let mut state = SharedState::new();
    state.enter_suite("outer".to_string());
    assert_eq!(state.current_test_stack.len(), 1);
    state.enter_suite("inner".to_string());
    assert_eq!(state.current_test_stack.len(), 2);
    // the inner body fails; the exits still run and restore the stack
    state.exit_suite();
    state.exit_suite();
    assert_eq!(state.current_test_stack.len(), 0);
    assert_eq!(state.nested_test_counts.len(), 0);
    assert_eq!(state.indention_level, 1);
}

#[test]
fn suite_with_no_cases_reports_skipped() {
    let mut state = SharedState::new();
    state.enter_suite("empty".to_string());
    let outcome = state.exit_suite();
    assert_eq!(outcome, SuiteOutcome::Skipped);
}

#[test]
fn suite_with_passing_case_reports_succeeded() {
    let mut state = SharedState::new();
    state.enter_suite("suite".to_string());
    let skipped = state.enter_case("case".to_string());
    assert!(!skipped);
    state.record_assertion("holds".to_string(), true, "f".to_string(), 3);
    let failed = state.exit_case(true);
    assert!(!failed);
    let outcome = state.exit_suite();
    assert_eq!(outcome, SuiteOutcome::Succeeded);
}

#[test]
fn failed_assertion_fails_the_case_and_suite() {
    let mut state = SharedState::new();
    state.enter_suite("suite".to_string());
    let skipped = state.enter_case("case".to_string());
    assert!(!skipped);
    state.record_assertion("broken".to_string(), false, "f".to_string(), 9);
    assert!(state.current_test_failed);
    let failed = state.exit_case(true);
    assert!(failed);
    assert_eq!(state.error_count, 1);
    let outcome = state.exit_suite();
    assert_eq!(outcome, SuiteOutcome::Failed);
}

#[test]
fn exit_suite_folds_counts_back_into_parent() {
    let mut state = SharedState::new();
    state.enter_suite("outer".to_string());
    state.enter_case("first".to_string());
    state.exit_case(true);
    state.enter_suite("inner".to_string());
    state.enter_case("second".to_string());
    state.exit_case(false);
    state.exit_suite();
    // the inner counts joined the outer scope
    assert_eq!(state.test_count, 2);
    assert_eq!(state.error_count, 1);
    state.exit_suite();
}

#[test]
fn filter_allows_matching_path_only() {
    // filter "checkout": cart.checkout runs, cart.wishlist is skipped
    let mut state = SharedState::new();
    state.filter_expression = Some("checkout".to_string());
    state.enter_suite("cart".to_string());
    let skipped_checkout = state.enter_case("checkout".to_string());
    assert!(!skipped_checkout);
    state.exit_case(true);
    let skipped_wishlist = state.enter_case("wishlist".to_string());
    assert!(skipped_wishlist);
    let outcome = state.exit_suite();
    assert_eq!(outcome, SuiteOutcome::Succeeded);
    assert_eq!(state.test_count, 1);
}

#[test]
fn skip_wins_over_filter() {
    // skip "flaky" skips flaky.retry even though the filter would allow it
    let mut state = SharedState::new();
    state.filter_expression = Some("retry".to_string());
    state.skip_expression = Some("flaky".to_string());
    state.enter_suite("flaky".to_string());
    let skipped = state.enter_case("retry".to_string());
    assert!(skipped);
    assert_eq!(state.test_count, 0);
    let outcome = state.exit_suite();
    assert_eq!(outcome, SuiteOutcome::Skipped);
}

#[test]
fn invalid_pattern_falls_back_to_substring() {
    let mut state = SharedState::new();
    // an unclosed group does not compile as a regular expression
    state.skip_expression = Some("suite.(case".to_string());
    state.enter_suite("suite.(case".to_string());
    let skipped = state.enter_case("x".to_string());
    assert!(skipped);
    state.exit_suite();
}

#[test]
fn skipped_case_is_not_counted() {
    let mut state = SharedState::new();
    state.skip_expression = Some("slow".to_string());
    state.enter_suite("suite".to_string());
    let skipped = state.enter_case("slow".to_string());
    assert!(skipped);
    assert_eq!(state.test_count, 0);
    assert_eq!(state.current_test_stack.len(), 1);
    state.exit_suite();
}

#[test]
fn required_assertion_aborts_on_failure() {
    let mut state = SharedState::new();
    state.enter_suite("suite".to_string());
    state.enter_case("case".to_string());
    let ok = state.record_required("must hold".to_string(), true, "f".to_string(), 1);
    assert!(ok.is_ok());
    let err = state.record_required("must also hold".to_string(), false, "f".to_string(), 2);
    let e = err.expect_err("a failed required assertion is an error");
    assert_eq!(e.message(), "must also hold");
    state.exit_case(false);
    state.exit_suite();
}

#[test]
fn error_count_counts_failed_assertions() {
    let mut state = SharedState::new();
    state.enter_suite("s".to_string());
    state.enter_case("c".to_string());
    state.record_assertion("one".to_string(), true, "f".to_string(), 1);
    state.record_assertion("two".to_string(), false, "f".to_string(), 2);
    state.record_assertion("three".to_string(), false, "f".to_string(), 3);
    assert_eq!(state.get_error_count(), 2);
    state.exit_case(true);
    state.exit_suite();
}

#[test]
fn push_assertion_keys_by_current_path() {
    let mut state = SharedState::new();
    state.current_test_stack.push("a".to_string());
    state.current_test_stack.push("b".to_string());
    state.push_assertion(assertion("recorded", true));
    assert_eq!(state.assertions.len(), 1);
    assert_eq!(state.assertions[0].0 .0, vec!["a".to_string(), "b".to_string()]);
    assert_eq!(state.assertions[0].1.message, "recorded");
}

#[test]
fn test_id_keeps_its_path() {
    let id = TestId::new(vec!["x".to_string(), "y".to_string()]);
    assert_eq!(id.0, vec!["x".to_string(), "y".to_string()]);
}

#[test]
fn test_report_from_state_complex() {
    let mut state = SharedState::new();
    state.current_test_stack.push("test".to_string());
    state.current_test_stack.push("nested".to_string());
    state.current_test_stack.push("grandchild_1".to_string());
    state.push_assertion(assertion("test", true));
    state.current_test_stack.pop();
    state.current_test_stack.push("grandchild_2".to_string());
    state.push_assertion(assertion("test", false));
    let report = TestReport::from_state(&state);
    println!("{:#?}", report);
    assert_eq!(report.name, "root");
    assert_eq!(report.children.len(), 1);
    let test = &report.children[0];
    assert_eq!(test.name, "test");
    let nested = &test.children[0];
    assert_eq!(nested.name, "nested");
    assert_eq!(nested.children.len(), 2);
    assert_eq!(nested.children[0].name, "grandchild_1");
    assert_eq!(nested.children[1].name, "grandchild_2");
    assert!(!report.success);
    assert_eq!(report.test_count, 2);
    assert_eq!(report.error_count, 1);
}

#[test]
fn invalid_filter_falls_back_to_substring() {
    // an unclosed group does not compile; as a substring it allows only
    // paths that contain it
    let mut state = SharedState::new();
    state.filter_expression = Some("suite.(case".to_string());
    state.enter_suite("suite.(case".to_string());
    let kept = state.enter_case("x".to_string());
    assert!(!kept);
    state.exit_case(true);
    state.exit_suite();

    let mut other = SharedState::new();
    other.filter_expression = Some("suite.(case".to_string());
    other.enter_suite("plain".to_string());
    let skipped = other.enter_case("x".to_string());
    assert!(skipped);
    other.exit_suite();
}

#[test]
fn explicit_failure_result_counts_as_error() {
    let mut state = SharedState::new();
    state.enter_suite("suite".to_string());
    state.enter_case("case".to_string());
    // the case body raised: no assertion failed, but the result is failure
    let failed = state.exit_case(false);
    assert!(failed);
    assert_eq!(state.error_count, 1);
    assert_eq!(state.exit_suite(), SuiteOutcome::Failed);
}

#[test]
fn failed_assertions_are_filtered_by_exact_path() {
    let mut state = SharedState::new();
    state.current_test_stack.push("suite".to_string());
    state.current_test_stack.push("case".to_string());
    state.push_assertion(assertion("ok here", true));
    state.push_assertion(assertion("broken here", false));
    state.current_test_stack.pop();
    state.current_test_stack.push("other".to_string());
    state.push_assertion(assertion("broken elsewhere", false));
    let id = TestId::new(vec!["suite".to_string(), "case".to_string()]);
    let failed = state.failed_assertions_for(&id);
    assert_eq!(failed.len(), 1);
    assert_eq!(failed[0].message, "broken here");
}

#[test]
fn equality_assertion_passes_on_equal_texts() {
    let mut state = SharedState::new();
    state.enter_suite("suite".to_string());
    state.enter_case("case".to_string());
    state.record_assert_eq("same", "same", "values agree".to_string(), "f".to_string(), 4);
    assert!(!state.current_test_failed);
    let last = &state.assertions[state.assertions.len() - 1].1;
    assert!(last.success);
    assert_eq!(last.message, "values agree");
    state.exit_case(true);
    state.exit_suite();
}

#[test]
fn equality_assertion_fails_with_a_diff_appended() {
    let mut state = SharedState::new();
    state.enter_suite("suite".to_string());
    state.enter_case("case".to_string());
    state.record_assert_eq("left", "right", "values agree".to_string(), "f".to_string(), 5);
    assert!(state.current_test_failed);
    let last = &state.assertions[state.assertions.len() - 1].1;
    assert!(!last.success);
    assert!(last.message.starts_with("values agree:\n"));
    assert!(last.message.len() > "values agree:\n".len());
    let failed = state.exit_case(true);
    assert!(failed);
    state.exit_suite();
}
