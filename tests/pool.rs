use tree_copy::pool::{clamp_percentage, worker_count};

#[test]
fn workers_for_eight_cores() {
    assert_eq!(worker_count(8, 0), 1);
    assert_eq!(worker_count(8, 50), 4);
    assert_eq!(worker_count(8, 100), 8);
    assert_eq!(worker_count(8, 150), 8);
}

#[test]
fn workers_round_up() {
    assert_eq!(worker_count(8, 30), 3);
    assert_eq!(worker_count(3, 1), 1);
    assert_eq!(worker_count(250, 37), 93);
}

#[test]
fn workers_on_no_cores() {
    assert_eq!(worker_count(0, 50), 0);
}

#[test]
fn workers_on_huge_machine() {
    assert_eq!(worker_count(usize::MAX, 100), usize::MAX);
}

#[test]
fn clamp_bounds() {
    assert_eq!(clamp_percentage(0), 10);
    assert_eq!(clamp_percentage(1), 1);
    assert_eq!(clamp_percentage(100), 100);
    assert_eq!(clamp_percentage(101), 100);
    assert_eq!(clamp_percentage(1000), 100);
}
