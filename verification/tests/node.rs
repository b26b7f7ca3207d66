use minimint_benchmark::items::{filter_proposal, ConsensusItem, ConsensusOutcome, ItemSet};
use minimint_benchmark::node::{
    run_minimint_node, start_node, NodeAction, NodeEvent, NodeState, UnexpectedEvent,
};
use std::collections::BTreeMap;

fn item(text: &str) -> ConsensusItem {
    ConsensusItem { wallet: false, encoded: text.as_bytes().to_vec() }
}

fn wallet_item(text: &str) -> ConsensusItem {
    ConsensusItem { wallet: true, encoded: text.as_bytes().to_vec() }
}

fn names(items: &[ConsensusItem]) -> Vec<(bool, String)> {
    items
        .iter()
        .map(|i| (i.wallet, String::from_utf8(i.encoded.clone()).unwrap()))
        .collect()
}

fn outcome(contributions: Vec<(u16, Vec<ConsensusItem>)>) -> ConsensusOutcome {
    ConsensusOutcome { epoch: 3, contributions }
}

#[test]
fn agreed_items_are_not_proposed_again() {
    let agreed = outcome(vec![
        (0, vec![item("tx1"), wallet_item("round")]),
        (2, vec![item("tx2"), item("tx1")]),
    ]);
    assert_eq!(agreed.item_count(), 4);
    let proposal = vec![
        item("tx3"),
        item("tx1"),
        wallet_item("round"),
        item("round"),
        wallet_item("tx2"),
        item("tx2"),
        item("tx4"),
    ];
    let left = filter_proposal(proposal, &agreed);
    let expected = vec![
        (false, "tx3".to_string()),
        (true, "round".to_string()),
        (false, "round".to_string()),
        (true, "tx2".to_string()),
        (false, "tx4".to_string()),
    ];
    assert_eq!(names(&left), expected);
    assert_eq!(names(&filter_proposal(left, &agreed)), expected);
}

#[test]
fn an_empty_outcome_settles_nothing() {
    let nothing = outcome(vec![]);
    assert_eq!(nothing.item_count(), 0);
    let left = filter_proposal(vec![item("a"), item("a")], &nothing);
    assert_eq!(names(&left), vec![(false, "a".to_string()), (false, "a".to_string())]);
    assert!(filter_proposal(vec![], &nothing).is_empty());
}

#[test]
fn items_with_the_same_fingerprint_are_told_apart() {
    // 31 * 0 + 31 and 31 * 1 + 0
    let a = ConsensusItem { wallet: false, encoded: vec![0, 31] };
    let b = ConsensusItem { wallet: false, encoded: vec![1, 0] };
    let mut set = ItemSet::new();
    assert!(!set.contains(&a));
    set.insert(&a);
    assert!(set.contains(&a));
    assert!(!set.contains(&b));
    set.insert(&b);
    assert!(set.contains(&b));
    assert!(!set.contains(&ConsensusItem { wallet: true, encoded: vec![0, 31] }));
    assert!(!set.contains(&ConsensusItem { wallet: false, encoded: vec![0, 31, 0] }));
}

#[test]
fn a_member_starts_with_the_threshold_of_its_federation() {
    let peers: BTreeMap<u16, &str> = (0..4).map(|id| (id, "peer")).collect();
    let start = start_node(&peers, 1);
    assert_eq!(start.threshold, 3);
    assert!(matches!(start.state, NodeState::Starting));
    assert!(matches!(start.action, NodeAction::RequestProposal));
}

#[test]
fn a_member_exchanges_proposals_for_outcomes() {
    let first = NodeEvent::Proposal(vec![item("tx1")]);
    let (state, action) = run_minimint_node(NodeState::Starting, first).unwrap_or_else(|_| panic!());
    match action {
        NodeAction::SpawnConsensus(items) => {
            assert_eq!(names(&items), vec![(false, "tx1".to_string())])
        }
        _ => panic!("consensus is not started"),
    }
    let (mut state, mut action) =
        run_minimint_node(state, NodeEvent::ConsensusSpawned).unwrap_or_else(|_| panic!());
    for round in 0..3u64 {
        assert!(matches!(action, NodeAction::RequestProposal));
        let proposal = vec![item("tx1"), item("tx2"), wallet_item("round")];
        let (next, wanted) =
            run_minimint_node(state, NodeEvent::Proposal(proposal)).unwrap_or_else(|_| panic!());
        assert!(matches!(wanted, NodeAction::ReceiveOutcome));
        let agreed = ConsensusOutcome {
            epoch: round,
            contributions: vec![(1, vec![item("tx1"), wallet_item("round")])],
        };
        let (next, wanted) =
            run_minimint_node(next, NodeEvent::Outcome(agreed)).unwrap_or_else(|_| panic!());
        match wanted {
            NodeAction::SendProposal(left) => assert_eq!(
                names(&left),
                vec![(false, "tx2".to_string()), (true, "round".to_string())]
            ),
            _ => panic!("the proposal is not handed over"),
        }
        let (next, wanted) =
            run_minimint_node(next, NodeEvent::ProposalSent).unwrap_or_else(|_| panic!());
        match wanted {
            NodeAction::ProcessOutcome(outcome) => assert_eq!(outcome.epoch, round),
            _ => panic!("the outcome is not processed"),
        }
        let (next, wanted) =
            run_minimint_node(next, NodeEvent::OutcomeProcessed).unwrap_or_else(|_| panic!());
        state = next;
        action = wanted;
    }
    assert!(matches!(state, NodeState::AwaitingProposal));
}

#[test]
fn a_member_rejects_events_out_of_turn() {
    let result = run_minimint_node(NodeState::Starting, NodeEvent::ProposalSent);
    assert!(matches!(result, Err(UnexpectedEvent)));
    let result = run_minimint_node(NodeState::Processing, NodeEvent::Outcome(outcome(vec![])));
    assert!(matches!(result, Err(UnexpectedEvent)));
    let waiting = NodeState::AwaitingOutcome { proposal: vec![] };
    let result = run_minimint_node(waiting, NodeEvent::Proposal(vec![]));
    assert!(matches!(result, Err(UnexpectedEvent)));
}
