use proddle::operation::Operation;
use proddle::schedule::{JobQueue, OperationJob};

fn operation(name: &str, interval: u32) -> Operation {
    Operation::new(name.to_string(), "example.org".to_string(), interval, Some(vec!["eu".to_string()]))
}

fn job(name: &str, interval: u32, next_deadline: u64) -> OperationJob {
    OperationJob { next_deadline, operation: operation(name, interval) }
}

fn names(jobs: &[OperationJob]) -> Vec<String> {
    jobs.iter().map(|job| job.operation.script_name.clone()).collect()
}

fn deadlines(jobs: &[OperationJob]) -> Vec<u64> {
    jobs.iter().map(|job| job.next_deadline).collect()
}

#[test]
fn first_deadline_is_the_next_multiple_of_the_interval() {
    assert_eq!(OperationJob::scheduled(operation("a", 60), 125).next_deadline, 180);
    assert_eq!(OperationJob::scheduled(operation("a", 60), 0).next_deadline, 60);
    assert_eq!(OperationJob::scheduled(operation("a", 1), 41).next_deadline, 42);
    assert_eq!(OperationJob::scheduled(operation("a", 14400), 1_500_000_000).next_deadline, 1_500_004_800);
}

#[test]
fn first_deadline_lies_after_now_even_on_an_aligned_second() {
    assert_eq!(OperationJob::scheduled(operation("a", 60), 120).next_deadline, 180);
    assert_eq!(OperationJob::scheduled(operation("a", 2), 100).next_deadline, 102);
}

#[test]
fn new_reads_the_clock_and_aligns_the_deadline() {
    let job = OperationJob::new(operation("a", 7)).unwrap();
    assert_eq!(job.next_deadline % 7, 0);
    assert!(job.next_deadline > 1_600_000_000);
    assert_eq!(job.operation.script_name, "a");
    assert_eq!(job.operation.interval, 7);
}

#[test]
fn epoch_seconds_is_the_present_time() {
    let now = proddle::clock::epoch_seconds().unwrap();
    let expected = std::time::SystemTime::now()
        .duration_since(std::time::UNIX_EPOCH)
        .unwrap()
        .as_secs();
    assert!(now <= expected + 2 && expected <= now + 2);
}

#[test]
fn advance_adds_one_interval() {
    let later = job("a", 30, 100).advance();
    assert_eq!(later.next_deadline, 130);
    assert_eq!(later.operation.script_name, "a");
    assert_eq!(later.operation.interval, 30);
}

#[test]
fn advanced_deadline_passes_now_only_with_a_long_enough_interval() {
    // due at 100, run at 107: late by 7
    assert!(job("a", 8, 100).advance().next_deadline > 107);
    assert!(job("a", 7, 100).advance().next_deadline <= 107);
    assert!(job("a", 2, 100).advance().next_deadline <= 107);
}

#[test]
fn queue_hands_out_the_earliest_deadline_first() {
    let mut queue = JobQueue::new();
    queue.push(job("c", 10, 300));
    queue.push(job("a", 10, 100));
    queue.push(job("b", 10, 200));
    assert_eq!(queue.len(), 3);
    assert_eq!(queue.peek().unwrap().operation.script_name, "a");
    assert_eq!(deadlines(&queue.handles()), vec![100, 200, 300]);
    assert_eq!(queue.pop().unwrap().next_deadline, 100);
    assert_eq!(queue.pop().unwrap().next_deadline, 200);
    assert_eq!(queue.pop().unwrap().next_deadline, 300);
    assert!(queue.pop().is_none());
    assert!(queue.is_empty());
}

#[test]
fn queue_keeps_equal_deadlines_in_the_order_of_arrival() {
    let mut queue = JobQueue::new();
    queue.push(job("first", 10, 100));
    queue.push(job("second", 10, 100));
    queue.push(job("early", 10, 50));
    queue.push(job("third", 10, 100));
    assert_eq!(names(&queue.handles()), vec!["early", "first", "second", "third"]);
}

#[test]
fn empty_queue_has_no_head() {
    let mut queue = JobQueue::new();
    assert!(queue.peek().is_none());
    assert!(queue.pop().is_none());
    assert!(queue.take_due(u64::MAX).is_empty());
    assert_eq!(queue.len(), 0);
}

#[test]
fn take_due_takes_deadlines_up_to_now() {
    let mut queue = JobQueue::new();
    queue.push(job("a", 10, 100));
    queue.push(job("b", 10, 200));
    queue.push(job("c", 10, 201));
    let due = queue.take_due(200);
    assert_eq!(names(&due), vec!["a", "b"]);
    assert_eq!(names(&queue.handles()), vec!["c"]);
    assert!(queue.take_due(200).is_empty());
}

#[test]
fn tick_runs_each_due_handle_once_and_puts_it_back_later() {
    let mut queue = JobQueue::new();
    queue.push(job("a", 10, 100));
    queue.push(job("b", 500, 150));
    queue.push(job("c", 10, 400));
    let due = queue.tick(200);
    assert_eq!(names(&due), vec!["a", "b"]);
    assert_eq!(deadlines(&due), vec![100, 150]);
    assert_eq!(names(&queue.handles()), vec!["a", "c", "b"]);
    assert_eq!(deadlines(&queue.handles()), vec![110, 400, 650]);
}

#[test]
fn tick_fires_a_late_handle_once_however_late_it_is() {
    let mut queue = JobQueue::new();
    queue.push(job("a", 2, 100));
    let due = queue.tick(130);
    assert_eq!(due.len(), 1);
    assert_eq!(deadlines(&queue.handles()), vec![102]);
    let again = queue.tick(135);
    assert_eq!(again.len(), 1);
    assert_eq!(deadlines(&queue.handles()), vec![104]);
}

#[test]
fn tick_leaves_a_queue_alone_where_nothing_is_due() {
    let mut queue = JobQueue::new();
    queue.push(job("a", 10, 100));
    assert!(queue.tick(99).is_empty());
    assert_eq!(deadlines(&queue.handles()), vec![100]);
    assert_eq!(queue.tick(100).len(), 1);
}

#[test]
fn since_epoch_takes_readings_from_the_epoch_on() {
    assert_eq!(proddle::clock::since_epoch(0), Some(0));
    assert_eq!(proddle::clock::since_epoch(1_500_000_000), Some(1_500_000_000));
    assert_eq!(proddle::clock::since_epoch(i64::MAX), Some(i64::MAX as u64));
    assert_eq!(proddle::clock::since_epoch(-1), None);
    assert_eq!(proddle::clock::since_epoch(i64::MIN), None);
}

#[test]
fn scheduler_wakes_every_five_seconds() {
    assert_eq!(proddle::schedule::TICK_SECONDS, 5);
}
