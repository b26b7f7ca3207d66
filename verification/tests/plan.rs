use minimint_benchmark::client::{run_client, ClientAction, ClientEvent, ClientState};
use minimint_benchmark::events::EventType;
use minimint_benchmark::plan::{BenchmarkArgs, BenchmarkPlan};
use minimint_benchmark::report::{csv_line, LatencySummary};

fn args() -> BenchmarkArgs {
    BenchmarkArgs {
        num_peers: 4,
        offline_peers: 1,
        latency_ms: 30,
        coins_per_tx: 5,
        num_tx: 10,
    }
}

#[test]
fn plan_of_a_run() {
    assert!(args().is_valid());
    let plan = BenchmarkPlan::new(&args());
    assert_eq!(plan.peers, vec![0, 1, 2, 3]);
    assert_eq!(plan.offline_peers, vec![3]);
    assert_eq!(plan.online_peers, vec![0, 1, 2]);
    assert_eq!(plan.latency, 30_000_000);
    assert_eq!(plan.coins_to_issue, 50);
    assert_eq!(plan.payment, 5);
    assert_eq!(plan.max_faulty, 1);
    assert_eq!(plan.expected_logs, 70);
    assert_eq!(plan.log_capacity, 120);
}

#[test]
fn expected_logs_count_every_report() {
    let plan = BenchmarkPlan::new(&args());
    assert_eq!(plan.expected_logs, 10 + 2 * 10 * plan.online_peers.len());
}

#[test]
fn impossible_runs_are_rejected() {
    assert!(!BenchmarkArgs { num_peers: 0, offline_peers: 0, ..args() }.is_valid());
    assert!(!BenchmarkArgs { offline_peers: 5, ..args() }.is_valid());
    assert!(BenchmarkArgs { offline_peers: 4, ..args() }.is_valid());
    assert!(!BenchmarkArgs { num_tx: usize::MAX, coins_per_tx: 2, ..args() }.is_valid());
    assert!(!BenchmarkArgs { num_tx: usize::MAX / 4, coins_per_tx: 1, ..args() }.is_valid());
    assert!(BenchmarkArgs { num_tx: 0, coins_per_tx: usize::MAX, ..args() }.is_valid());
}

#[test]
fn the_longest_latency() {
    let plan = BenchmarkPlan::new(&BenchmarkArgs { latency_ms: u64::MAX, ..args() });
    assert_eq!(plan.latency, 18_446_744_073_709_551_615_000_000);
}

fn step(state: ClientState, event: ClientEvent) -> (ClientState, ClientAction) {
    run_client(5, state, event).unwrap_or_else(|_| panic!("unexpected event"))
}

#[test]
fn the_client_spends_all_its_coins() {
    let plan = BenchmarkPlan::new(&args());
    let mut funds = plan.coins_to_issue as u64;
    let mut submitted = 0u8;
    let mut state = ClientState::Waiting;
    loop {
        let (next, action) = step(state, ClientEvent::Tick);
        let amount = match action {
            ClientAction::SelectCoins(amount) => amount,
            _ => panic!("no coins are selected"),
        };
        assert_eq!(amount, plan.payment);
        let enough = funds >= amount;
        let (next, action) = step(next, ClientEvent::CoinsSelected(enough));
        if !enough {
            assert!(matches!(action, ClientAction::Stop));
            assert!(run_client(5, next, ClientEvent::Tick).is_err());
            break;
        }
        funds -= amount;
        assert!(matches!(action, ClientAction::Reissue));
        let (next, action) = step(next, ClientEvent::Reissued([submitted; 32]));
        assert!(matches!(action, ClientAction::SendTransaction));
        let (next, action) = step(next, ClientEvent::Sent(1000 + submitted as u128));
        match action {
            ClientAction::Record(log) => {
                assert_eq!(log.out_point.txid, [submitted; 32]);
                assert_eq!(log.out_point.out_idx, 0);
                assert_eq!(log.peer, 0xffff);
                assert_eq!(log.action, EventType::Submitted);
                assert_eq!(log.time, 1000 + submitted as u128);
            }
            _ => panic!("nothing is recorded"),
        }
        submitted += 1;
        state = next;
    }
    assert_eq!(submitted, 10);
    assert_eq!(funds, 0);
}

#[test]
fn the_client_rejects_events_out_of_turn() {
    assert!(run_client(1, ClientState::Waiting, ClientEvent::Sent(0)).is_err());
    assert!(run_client(1, ClientState::Selecting, ClientEvent::Tick).is_err());
    assert!(run_client(1, ClientState::Done, ClientEvent::CoinsSelected(true)).is_err());
}

#[test]
fn a_report_is_one_line_of_six_values() {
    let summary = |mean: &str, deviation: &str, max: &str| LatencySummary {
        mean: mean.to_string(),
        standard_deviation: deviation.to_string(),
        max: max.to_string(),
    };
    let line = csv_line(&summary("1.5", "0.25", "2"), &summary("3", "", "7.125"));
    assert_eq!(line, "1.5,0.25,2,3,,7.125");
    assert_eq!(line.split(',').count(), 6);
}
