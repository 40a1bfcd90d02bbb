use sam::commands::{
    build_url, command_outcome, diff, driver_outcome, random_int, random_string, run_wait_trace,
    WaitAction, WaitLoop,
};

#[test]
fn wait_until_succeeds_when_condition_turns_true_in_time() {
    // the condition becomes true after 2 poll intervals; the timeout is longer
    let conds = vec![false, false, true];
    let outcome = run_wait_trace(&conds, 1000);
    assert_eq!(outcome, Some(WaitAction::Finished));
}

#[test]
fn wait_until_times_out_when_condition_stays_false() {
    // two polls pass 150 ms of waiting; the third finds the deadline gone
    let conds = vec![false, false, false];
    let outcome = run_wait_trace(&conds, 150);
    assert_eq!(outcome, Some(WaitAction::TimedOut));
}

#[test]
fn wait_observe_steps() {
    let mut w = WaitLoop::new(100);
    assert_eq!(w.observe(false), WaitAction::Sleep);
    assert_eq!(w.elapsed_ms, 100);
    assert_eq!(w.observe(false), WaitAction::Sleep);
    assert_eq!(w.elapsed_ms, 200);
    assert_eq!(w.observe(false), WaitAction::TimedOut);
    assert_eq!(w.observe(true), WaitAction::Finished);
}

#[test]
fn duration_text_sets_the_deadline() {
    let w = WaitLoop::from_duration_str("2s").expect("a valid duration");
    assert_eq!(w.timeout_ms, 2000);
    assert_eq!(w.elapsed_ms, 0);
    let w2 = WaitLoop::from_duration_str("1min 5s").expect("a valid duration");
    assert_eq!(w2.timeout_ms, 65000);
    let err = WaitLoop::from_duration_str("soon").expect_err("not a duration");
    assert!(err.message().contains("Invalid duration"));
}

#[test]
fn random_string_has_length_and_alphabet() {
    let s = random_string(32);
    assert_eq!(s.chars().count(), 32);
    assert!(s.chars().all(|c| c.is_ascii_digit() || c.is_ascii_lowercase()));
    assert_eq!(random_string(0), "");
}

#[test]
fn random_int_stays_in_range() {
    for _ in 0..100 {
        let v = random_int(-3, 4);
        assert!((-3..4).contains(&v));
    }
}

#[test]
fn build_url_appends_query_parameters() {
    let none: Vec<(String, String)> = vec![];
    assert_eq!(build_url("http://host/x", &none), "http://host/x");
    let params = vec![
        ("a".to_string(), "1".to_string()),
        ("b".to_string(), "2".to_string()),
    ];
    assert_eq!(build_url("http://host/x", &params), "http://host/x?a=1&b=2");
}

#[test]
fn command_outcome_maps_exit_status() {
    let ok = command_outcome(true, "output".to_string(), "".to_string());
    assert_eq!(ok.expect("success hands stdout back"), "output");
    let err = command_outcome(false, "".to_string(), "boom".to_string());
    let e = err.expect_err("non-zero exit is an error");
    assert_eq!(e.message(), "Command failed: boom");
}

#[test]
fn diff_renders_both_sides() {
    let d = diff("hello", "world");
    assert_ne!(d, "hello");
    assert!(d.contains("EXPECTED"));
    assert!(d.contains("ACTUAL"));
}

#[test]
fn driver_outcome_maps_exit_status() {
    assert!(driver_outcome(true, String::new()).is_ok());
    let err = driver_outcome(false, "no such image".to_string());
    let e = err.expect_err("a failed invocation is a driver error");
    assert!(matches!(e, sam::Error::Podman(_)));
    assert_eq!(e.message(), "no such image");
}
