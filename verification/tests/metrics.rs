use minimint_benchmark::events::{submission, EventType, LogCollector, LogEvent, OutPoint, CLIENT};
use minimint_benchmark::metrics::{
    benchmark_metrics, group_metrics, max_latency, nth_smallest, transaction_metrics,
};

fn event(tx: u8, peer: u16, action: EventType, time: u128) -> LogEvent {
    LogEvent { out_point: OutPoint { txid: [tx; 32], out_idx: 0 }, peer, action, time }
}

/// The events of a transaction in a federation of four, one of which is offline.
fn transaction(tx: u8, start: u128) -> Vec<LogEvent> {
    vec![
        submission([tx; 32], start),
        event(tx, 1, EventType::Agreed, start + 40),
        event(tx, 0, EventType::Agreed, start + 20),
        event(tx, 0, EventType::Final, start + 90),
        event(tx, 2, EventType::Agreed, start + 30),
        event(tx, 2, EventType::Final, start + 70),
        event(tx, 1, EventType::Final, start + 80),
    ]
}

#[test]
fn nth_smallest_of_unsorted_numbers() {
    let numbers = vec![5, 1, 4, 1, 3];
    assert_eq!(nth_smallest(&numbers, 0), 1);
    assert_eq!(nth_smallest(&numbers, 1), 1);
    assert_eq!(nth_smallest(&numbers, 2), 3);
    assert_eq!(nth_smallest(&numbers, 3), 4);
    assert_eq!(nth_smallest(&numbers, 4), 5);
}

#[test]
fn largest_latency() {
    assert_eq!(max_latency(&vec![3]), 3);
    assert_eq!(max_latency(&vec![2, 9, 9, 4]), 9);
}

#[test]
fn metrics_of_one_transaction() {
    let metrics = transaction_metrics(&transaction(7, 1000), 4).unwrap();
    assert_eq!(metrics.accept_latency, 40);
    assert_eq!(metrics.coin_latency, 70);
}

#[test]
fn a_larger_quorum_takes_longer() {
    let mut logs = transaction(7, 1000);
    logs.push(event(7, 3, EventType::Agreed, 1010));
    assert_eq!(transaction_metrics(&logs, 4).unwrap().accept_latency, 30);
    assert_eq!(transaction_metrics(&logs, 5).unwrap().accept_latency, 40);
    assert_eq!(transaction_metrics(&logs, 1).unwrap().accept_latency, 10);
}

#[test]
fn events_before_the_submission_take_no_time() {
    let mut logs = transaction(7, 1000);
    logs.push(event(7, 3, EventType::Final, 999));
    assert_eq!(transaction_metrics(&logs, 4).unwrap().coin_latency, 0);
}

#[test]
fn the_first_submission_counts() {
    let mut logs = transaction(7, 1000);
    logs.push(submission([7; 32], 5));
    assert_eq!(transaction_metrics(&logs, 4).unwrap().accept_latency, 40);
}

#[test]
fn incomplete_transactions_have_no_metrics() {
    let full = transaction(7, 1000);
    let without = |action: EventType| -> Vec<LogEvent> {
        full.iter().copied().filter(|log| log.action != action).collect()
    };
    assert!(transaction_metrics(&without(EventType::Submitted), 4).is_none());
    assert!(transaction_metrics(&without(EventType::Agreed), 4).is_none());
    assert!(transaction_metrics(&without(EventType::Final), 4).is_none());
    assert!(transaction_metrics(&full, 5).is_none());
    assert!(transaction_metrics(&vec![], 1).is_none());
}

#[test]
fn metrics_of_interleaved_transactions() {
    let mut log = Vec::new();
    for (a, b) in transaction(1, 100).into_iter().zip(transaction(2, 5000)) {
        log.push(a);
        log.push(b);
    }
    // Another output of the first transaction is a case of its own.
    for mut other in transaction(1, 200) {
        other.out_point.out_idx = 1;
        other.time = if other.action == EventType::Submitted { 200 } else { other.time + 500 };
        log.push(other);
    }
    let metrics = benchmark_metrics(log, 4).unwrap();
    let mut latencies: Vec<(u128, u128)> =
        metrics.iter().map(|m| (m.accept_latency, m.coin_latency)).collect();
    latencies.sort();
    assert_eq!(latencies, vec![(40, 70), (40, 70), (540, 570)]);
}

#[test]
fn one_incomplete_transaction_spoils_the_run() {
    let mut log = transaction(1, 100);
    log.push(submission([2; 32], 150));
    assert!(benchmark_metrics(log, 4).is_none());
    assert_eq!(benchmark_metrics(vec![], 4).unwrap().len(), 0);
}

#[test]
fn metrics_of_given_groups_keep_their_order() {
    let point = |tx: u8| OutPoint { txid: [tx; 32], out_idx: 0 };
    let mut slow = transaction(9, 0);
    for log in slow.iter_mut().skip(1) {
        log.time += 1000;
    }
    let groups = vec![(point(9), slow), (point(3), transaction(3, 10))];
    let metrics = group_metrics(&groups, 4).unwrap();
    assert_eq!(metrics[0].accept_latency, 1040);
    assert_eq!(metrics[1].accept_latency, 40);
    assert!(group_metrics(&groups, 7).is_none());
}

#[test]
fn the_client_submits() {
    let log = submission([3; 32], 12);
    assert_eq!(log.out_point.txid, [3; 32]);
    assert_eq!(log.out_point.out_idx, 0);
    assert_eq!(log.peer, 0xffff);
    assert_eq!(CLIENT, 0xffff);
    assert_eq!(log.action, EventType::Submitted);
    assert_eq!(log.time, 12);
}

#[test]
fn the_collector_is_complete_with_the_expected_events() {
    let mut collector = LogCollector::new(2);
    assert!(!collector.receive(None));
    assert!(!collector.receive(Some(submission([1; 32], 1))));
    assert!(!collector.receive(None));
    assert!(collector.receive(Some(submission([2; 32], 2))));
    assert_eq!(collector.logs.len(), 2);
    assert_eq!(collector.logs[1].time, 2);
    assert!(!collector.receive(Some(submission([3; 32], 3))));
    assert!(LogCollector::new(0).receive(None));
}
