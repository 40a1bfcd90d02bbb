use sam::tasks::{task_outcome, TaskRegistry};

#[test]
fn ids_are_dense_from_zero() {
    let mut reg = TaskRegistry::new();
    assert_eq!(reg.register(), 0);
    assert_eq!(reg.register(), 1);
    assert_eq!(reg.register(), 2);
    assert_eq!(reg.live, vec![0, 1, 2]);
}

#[test]
fn join_returns_the_background_error() {
    let mut reg = TaskRegistry::new();
    let id = reg.register();
    reg.claim(id).expect("a live id can be claimed");
    let err = task_outcome(false, "script blew up".to_string());
    let e = err.expect_err("the background failure propagates");
    assert_eq!(e.message(), "Task failed: script blew up");
    assert!(task_outcome(true, String::new()).is_ok());
}

#[test]
fn joining_an_id_twice_is_an_unknown_id_error() {
    let mut reg = TaskRegistry::new();
    let id = reg.register();
    reg.claim(id).expect("first join claims the id");
    let err = reg.claim(id).expect_err("the id was already joined");
    assert_eq!(err.message(), "No such task");
}

#[test]
fn joining_an_unknown_id_is_an_error() {
    let mut reg = TaskRegistry::new();
    let err = reg.claim(7).expect_err("never assigned");
    assert_eq!(err.message(), "No such task");
}

#[test]
fn batch_join_short_circuits_on_first_failure() {
    // joining [id1, id2] where id1's task failed never claims id2
    let mut reg = TaskRegistry::new();
    let id1 = reg.register();
    let id2 = reg.register();
    let ids = vec![id1, id2];
    let mut batch_error = None;
    for id in ids {
        if let Err(e) = reg.claim(id) {
            batch_error = Some(e);
            break;
        }
        // id1's background task failed; the batch stops here
        let outcome = task_outcome(id != id1, "failed".to_string());
        if let Err(e) = outcome {
            batch_error = Some(e);
            break;
        }
    }
    assert!(batch_error.is_some());
    // id2 was never attempted: it is still live and joinable
    assert_eq!(reg.live, vec![id2]);
    assert!(reg.claim(id2).is_ok());
}
