use sam::state::{Assertion, TestId, TestReport};

fn passing(message: &str) -> Assertion {
    Assertion { message: message.to_string(), success: true, file: "f".to_string(), line: 1 }
}

fn failing(message: &str) -> Assertion {
    Assertion { message: message.to_string(), success: false, file: "f".to_string(), line: 2 }
}

fn id(parts: &[&str]) -> TestId {
    TestId::new(parts.iter().map(|p| p.to_string()).collect())
}

#[test]
fn new_node_counts_itself() {
    let passed = TestReport::new("unit".to_string(), true);
    assert_eq!(passed.test_count, 1);
    assert_eq!(passed.error_count, 0);
    assert!(passed.success);
    let failed = TestReport::new("unit".to_string(), false);
    assert_eq!(failed.error_count, 1);
    assert!(!failed.success);
}

#[test]
fn report_counts_are_derived_bottom_up() {
    // assertions at ["a","x"] (pass) and ["a","y"] (fail): node "a" has
    // error_count 1, test_count 2, success false; the root is unsuccessful
    let mut report = TestReport::new("root".to_string(), true);
    report.insert(&id(&["a", "x"]), &vec![passing("x holds")]);
    report.insert(&id(&["a", "y"]), &vec![failing("y holds")]);
    assert_eq!(report.children.len(), 1);
    let a = &report.children[0];
    assert_eq!(a.name, "a");
    assert_eq!(a.error_count, 1);
    assert_eq!(a.test_count, 2);
    assert!(!a.success);
    assert!(!report.success);
    assert_eq!(report.error_count, 1);
    assert_eq!(report.test_count, 2);
}

#[test]
fn insertion_order_does_not_change_counts() {
    let mut one = TestReport::new("root".to_string(), true);
    one.insert(&id(&["a", "x"]), &vec![passing("p")]);
    one.insert(&id(&["a", "y"]), &vec![failing("q")]);
    let mut two = TestReport::new("root".to_string(), true);
    two.insert(&id(&["a", "y"]), &vec![failing("q")]);
    two.insert(&id(&["a", "x"]), &vec![passing("p")]);
    assert_eq!(one.error_count, two.error_count);
    assert_eq!(one.test_count, two.test_count);
    assert_eq!(one.success, two.success);
}

#[test]
fn leaves_carry_the_assertion_result() {
    let mut report = TestReport::new("root".to_string(), true);
    report.insert(&id(&["suite"]), &vec![passing("fine"), failing("broken")]);
    let suite = &report.children[0];
    assert_eq!(suite.children.len(), 2);
    assert_eq!(suite.children[0].name, "fine");
    assert!(suite.children[0].success);
    assert_eq!(suite.children[1].name, "broken");
    assert!(!suite.children[1].success);
    assert_eq!(suite.test_count, 2);
    assert_eq!(suite.error_count, 1);
}

#[test]
fn sibling_paths_merge_under_one_parent() {
    let mut report = TestReport::new("root".to_string(), true);
    report.insert(&id(&["s", "a"]), &vec![passing("1")]);
    report.insert(&id(&["s", "b"]), &vec![passing("2")]);
    report.insert(&id(&["t"]), &vec![passing("3")]);
    assert_eq!(report.children.len(), 2);
    assert_eq!(report.children[0].name, "s");
    assert_eq!(report.children[0].children.len(), 2);
    assert_eq!(report.children[1].name, "t");
    assert!(report.success);
    assert_eq!(report.test_count, 3);
    assert_eq!(report.error_count, 0);
}
