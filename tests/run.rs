use tree_copy::queue::{Operation, Subscribe, WorkItem};
use tree_copy::run::{
    check_root, parse_process, progress_hundredths, work_item, worker_step, RunError, WorkerStep,
};

fn item(p: &[&str]) -> WorkItem {
    work_item(p.iter().map(|s| s.to_string()).collect(), Operation::Copy)
}

#[test]
fn process_names() {
    assert_eq!(parse_process(&"copy".to_string()), Ok(Operation::Copy));
    assert_eq!(parse_process(&"move".to_string()), Ok(Operation::Move));
    assert_eq!(parse_process(&"Copy".to_string()), Err(RunError::UnknownProcess));
    assert_eq!(parse_process(&"".to_string()), Err(RunError::UnknownProcess));
}

#[test]
fn empty_root_is_refused() {
    assert_eq!(check_root(0), Err(RunError::NothingToProcess));
    assert_eq!(check_root(3), Ok(()));
}

#[test]
fn move_does_not_copy() {
    assert!(Operation::Copy.performs_copy());
    assert!(!Operation::Move.performs_copy());
}

#[test]
fn progress_values() {
    assert_eq!(progress_hundredths(1, 3), 3333);
    assert_eq!(progress_hundredths(2, 2), 10000);
    assert_eq!(progress_hundredths(5, 2), 10000);
    assert_eq!(progress_hundredths(0, 4), 0);
    assert_eq!(progress_hundredths(3, 0), 0);
    assert_eq!(progress_hundredths(u64::MAX, u64::MAX), 10000);
}

#[test]
fn queue_is_fifo() {
    let s = Subscribe::new();
    s.assign_work(item(&["a"]));
    s.assign_work(item(&["b", "c"]));
    let first = s.get_work().unwrap();
    assert_eq!(first.relative, vec!["a".to_string()]);
    let second = s.get_work().unwrap();
    assert_eq!(second.relative, vec!["b".to_string(), "c".to_string()]);
    assert!(s.get_work().is_none());
}

#[test]
fn handles_share_queue_and_flag() {
    let s = Subscribe::new();
    let h = s.duplicate_handle();
    assert!(!h.get_all_files_shared_status());
    s.assign_work(item(&["x"]));
    assert_eq!(h.get_work().unwrap().relative, vec!["x".to_string()]);
    s.set_all_files_shared_status(true);
    assert!(h.get_all_files_shared_status());
    assert!(s.get_work().is_none());
}

#[test]
fn worker_decisions() {
    assert!(matches!(worker_step(None, true), WorkerStep::Stop));
    assert!(matches!(worker_step(None, false), WorkerStep::Wait));
    match worker_step(Some(item(&["f"])), true) {
        WorkerStep::Run(w) => assert_eq!(w.relative, vec!["f".to_string()]),
        other => panic!("expected a run, got {:?}", other),
    }
}

#[test]
fn work_item_keeps_fields() {
    let w = work_item(vec!["d".to_string(), "f".to_string()], Operation::Move);
    assert_eq!(w.operation, Operation::Move);
    assert_eq!(w.relative, vec!["d".to_string(), "f".to_string()]);
}
