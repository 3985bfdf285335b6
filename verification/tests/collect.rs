use measurements::aggregate::{aggregate, WorkerFailure};
use measurements::collect::{Collector, RunError};
use measurements::row::MalformedRow;
use measurements::stats::Stats;

#[test]
fn collector_waits_for_every_worker() {
    let mut collector = Collector::new(2);
    assert!(!collector.is_done());
    collector.accept(aggregate(b"a;1.0\nb;2.0\n"));
    assert!(!collector.is_done());
    collector.accept(aggregate(b"a;3.0\n"));
    assert!(collector.is_done());
    let result = collector.finish().unwrap();
    assert_eq!(result.len(), 2);
    assert_eq!(result.get(b"a"), Some(Stats { min: 10, max: 30, sum: 40, count: 2 }));
    assert_eq!(result.get(b"b"), Some(Stats { min: 20, max: 20, sum: 20, count: 1 }));
}

#[test]
fn collector_for_no_worker_is_done_at_once() {
    let collector = Collector::new(0);
    assert!(collector.is_done());
    assert_eq!(collector.finish().unwrap().len(), 0);
}

#[test]
fn worker_failure_fails_the_run() {
    let failure = WorkerFailure { offset: 0, reason: MalformedRow::InvalidValue };
    let mut collector = Collector::new(3);
    collector.accept(aggregate(b"a;1.0\n"));
    collector.accept(aggregate(b"Oslo;abc"));
    assert!(collector.is_done());
    // What comes after the failure changes nothing.
    collector.accept(aggregate(b"a;3.0\n"));
    collector.accept(Err(WorkerFailure { offset: 9, reason: MalformedRow::MissingSeparator }));
    collector.disconnected();
    assert_eq!(collector.finish().err(), Some(RunError::WorkerFailure(failure)));
}

#[test]
fn missing_worker_fails_the_run() {
    let mut collector = Collector::new(2);
    collector.accept(aggregate(b"a;1.0\n"));
    collector.disconnected();
    assert!(collector.is_done());
    assert_eq!(collector.finish().err(), Some(RunError::CollectionFailure));
}

#[test]
fn ending_early_fails_the_run() {
    let mut collector = Collector::new(2);
    collector.accept(aggregate(b"a;1.0\n"));
    assert_eq!(collector.finish().err(), Some(RunError::CollectionFailure));
}

#[test]
fn disconnect_after_the_last_worker_is_harmless() {
    let mut collector = Collector::new(1);
    collector.accept(aggregate(b"a;1.0\n"));
    collector.disconnected();
    assert_eq!(collector.finish().unwrap().len(), 1);
}

#[test]
fn message_beyond_the_expected_ones_is_ignored() {
    let mut collector = Collector::new(1);
    collector.accept(aggregate(b"a;1.0\n"));
    collector.accept(aggregate(b"a;9.0\nb;1.0\n"));
    let result = collector.finish().unwrap();
    assert_eq!(result.len(), 1);
    assert_eq!(result.get(b"a"), Some(Stats { min: 10, max: 10, sum: 10, count: 1 }));
}
