use hbbft::crypto::poly::Poly;
use hbbft::crypto::{PublicKeySet, SecretKey, SecretKeySet};
use hbbft::honey_badger::FaultKind;
use minimint_benchmark::consensus::{
    spawn_hbbft, Fault, HbbftAction, HbbftEvent, HbbftState, HbbftStep, Readings,
};
use minimint_benchmark::engine::{
    advance_consensus, go_on, start_consensus, Consensus, ConsensusError, ConsensusMessage,
    KeyError, MemberKeys, Progress,
};
use minimint_benchmark::items::{
    encode, filter_proposal, read_outcome, ConsensusItem, ConsensusOutcome, EncodedOutcome,
};
use minimint_benchmark::network::{start_latency_network, LatencyNetwork, Target};
use rand::rngs::OsRng;
use rand::Rng;
use std::collections::{BTreeMap, VecDeque};

fn item(text: &str) -> ConsensusItem {
    ConsensusItem { wallet: false, encoded: text.as_bytes().to_vec() }
}

fn texts(items: &[ConsensusItem]) -> Vec<String> {
    items.iter().map(|i| String::from_utf8(i.encoded.clone()).unwrap()).collect()
}

fn epoch(epoch: u64) -> EncodedOutcome {
    EncodedOutcome { epoch, contributions: vec![] }
}

/// Text can be decoded, and is an item of the wallet module if it starts with `w`. Spaces at its end
/// make no difference.
fn read(bytes: &Vec<u8>) -> Option<ConsensusItem> {
    let text = String::from_utf8(bytes.clone()).ok()?;
    let wallet = text.starts_with('w');
    Some(ConsensusItem { wallet, encoded: text.trim_end().as_bytes().to_vec() })
}

fn read_all(state: &HbbftState) -> Readings {
    match state {
        HbbftState::Reading { output, .. } => output
            .iter()
            .map(|o| o.contributions.iter().map(|c| c.1.iter().map(read).collect()).collect())
            .collect(),
        _ => panic!("there is nothing to read"),
    }
}

fn step<M>(state: HbbftState, event: HbbftEvent<M>) -> (HbbftState, HbbftAction<M>) {
    match spawn_hbbft(state, event) {
        Ok(result) => result,
        Err(_) => panic!("unexpected event"),
    }
}

#[test]
fn messages_go_out_before_anything_else() {
    let made = HbbftStep {
        output: vec![],
        faults: vec![],
        messages: vec![(Target::All, "a"), (Target::Node(2), "b")],
    };
    let (state, action) = step(HbbftState::Stepping, HbbftEvent::Step(made));
    match action {
        HbbftAction::SendMessages(messages) => {
            assert_eq!(messages.len(), 2);
            assert!(matches!(messages[0], (Target::All, "a")));
            assert!(matches!(messages[1], (Target::Node(2), "b")));
        }
        _ => panic!("no messages"),
    }
    let (state, action) = step(state, HbbftEvent::<&str>::MessagesSent);
    assert!(matches!(action, HbbftAction::ReceiveMessage));
    let (state, action) = step(state, HbbftEvent::Message(3, "c"));
    assert!(matches!(action, HbbftAction::Handle(3, "c")));
    assert!(matches!(state, HbbftState::Stepping));
}

#[test]
fn the_newest_of_several_proposals_is_contributed() {
    let made: HbbftStep<u8> = HbbftStep {
        output: vec![epoch(4), epoch(5), epoch(6)],
        faults: vec![],
        messages: vec![],
    };
    let (state, _) = step(HbbftState::Stepping, HbbftEvent::Step(made));
    let (state, action) = step(state, HbbftEvent::<u8>::MessagesSent);
    assert!(matches!(action, HbbftAction::ReadOutcomes));
    let readings = read_all(&state);
    let (mut state, mut action) = step(state, HbbftEvent::<u8>::OutcomesRead(readings));
    for expected in 4..7u64 {
        match action {
            HbbftAction::SendOutcome(outcome) => assert_eq!(outcome.epoch, expected),
            _ => panic!("no outcome"),
        }
        let (next, wanted) = step(state, HbbftEvent::<u8>::OutcomeSent);
        assert!(matches!(wanted, HbbftAction::ReceiveProposal));
        let proposal = vec![item(&format!("after {}", expected))];
        let (next, wanted) = step(next, HbbftEvent::Proposal(proposal));
        state = next;
        action = wanted;
    }
    match action {
        HbbftAction::Propose(items) => assert_eq!(texts(&items), vec!["after 6"]),
        _ => panic!("nothing is proposed"),
    }
    assert!(matches!(state, HbbftState::Stepping));
}

#[test]
fn faults_are_reported_before_outcomes() {
    let made: HbbftStep<u8> = HbbftStep {
        output: vec![
            EncodedOutcome {
                epoch: 7,
                contributions: vec![
                    (0, vec![b"a".to_vec(), b"w".to_vec()]),
                    (1, vec![b"b".to_vec(), vec![0xff]]),
                    (2, vec![]),
                ],
            },
            EncodedOutcome { epoch: 8, contributions: vec![(3, vec![vec![0xfe]])] },
        ],
        faults: vec![(5, Fault::Algorithm(FaultKind::InvalidCiphertext))],
        messages: vec![],
    };
    let (state, _) = step(HbbftState::Stepping, HbbftEvent::Step(made));
    let (state, _) = step(state, HbbftEvent::<u8>::MessagesSent);
    let readings = read_all(&state);
    let (state, action) = step(state, HbbftEvent::<u8>::OutcomesRead(readings));
    match action {
        HbbftAction::ReportFaults(faults) => {
            assert_eq!(faults.len(), 3);
            assert!(matches!(
                faults[0],
                (5, Fault::Algorithm(FaultKind::InvalidCiphertext))
            ));
            assert!(matches!(faults[1], (1, Fault::Undecodable)));
            assert!(matches!(faults[2], (3, Fault::Undecodable)));
        }
        _ => panic!("no faults"),
    }
    let (state, action) = step(state, HbbftEvent::<u8>::FaultsReported);
    match action {
        HbbftAction::SendOutcome(outcome) => {
            assert_eq!(outcome.epoch, 7);
            let members: Vec<u16> = outcome.contributions.iter().map(|c| c.0).collect();
            assert_eq!(members, vec![0, 2]);
            assert_eq!(texts(&outcome.contributions[0].1), vec!["a", "w"]);
            assert!(!outcome.contributions[0].1[0].wallet);
            assert!(outcome.contributions[0].1[1].wallet);
            assert!(outcome.contributions[1].1.is_empty());
        }
        _ => panic!("no outcome"),
    }
    let (state, _) = step(state, HbbftEvent::<u8>::OutcomeSent);
    let (_, action) = step(state, HbbftEvent::<u8>::Proposal(vec![]));
    match action {
        HbbftAction::SendOutcome(outcome) => {
            assert_eq!(outcome.epoch, 8);
            assert!(outcome.contributions.is_empty());
        }
        _ => panic!("no outcome"),
    }
}

#[test]
fn faults_without_an_outcome_are_reported_too() {
    let made: HbbftStep<u8> = HbbftStep {
        output: vec![],
        faults: vec![(5, Fault::Algorithm(FaultKind::UnexpectedDecryptionShare))],
        messages: vec![],
    };
    let (state, _) = step(HbbftState::Stepping, HbbftEvent::Step(made));
    let (state, action) = step(state, HbbftEvent::<u8>::MessagesSent);
    assert!(matches!(action, HbbftAction::ReportFaults(_)));
    let (state, action) = step(state, HbbftEvent::<u8>::FaultsReported);
    assert!(matches!(action, HbbftAction::ReceiveMessage));
    assert!(matches!(state, HbbftState::Receiving));
}

#[test]
fn what_was_not_read_cannot_be_decoded() {
    let encoded = || EncodedOutcome {
        epoch: 2,
        contributions: vec![(0, vec![b"a".to_vec()]), (4, vec![b"b".to_vec()]), (6, vec![])],
    };
    let (outcome, blamed) = read_outcome(encoded(), vec![vec![read(&b"wax".to_vec())]]);
    assert_eq!(outcome.epoch, 2);
    assert_eq!(outcome.contributions.len(), 2);
    assert_eq!(outcome.contributions[0].0, 0);
    assert!(outcome.contributions[0].1[0].wallet);
    assert_eq!(texts(&outcome.contributions[0].1), vec!["wax"]);
    assert_eq!(outcome.contributions[1].0, 6);
    assert_eq!(blamed, vec![4]);
    let (outcome, blamed) = read_outcome(encoded(), vec![]);
    assert_eq!(outcome.contributions.len(), 1);
    assert_eq!(blamed, vec![0, 4]);
    let twice = vec![vec![Some(item("a")), Some(item("b"))]];
    let (_, blamed) = read_outcome(encoded(), twice);
    assert_eq!(blamed, vec![0, 4]);
}

#[test]
fn equal_items_are_recognised_however_they_were_sent() {
    let made: HbbftStep<u8> = HbbftStep {
        output: vec![EncodedOutcome {
            epoch: 1,
            contributions: vec![(2, vec![b"tx  ".to_vec(), b"w ".to_vec()])],
        }],
        faults: vec![],
        messages: vec![],
    };
    let (state, _) = step(HbbftState::Stepping, HbbftEvent::Step(made));
    let (state, _) = step(state, HbbftEvent::<u8>::MessagesSent);
    let readings = read_all(&state);
    let (_, action) = step(state, HbbftEvent::<u8>::OutcomesRead(readings));
    let outcome = match action {
        HbbftAction::SendOutcome(outcome) => outcome,
        _ => panic!("no outcome"),
    };
    assert_eq!(texts(&outcome.contributions[0].1), vec!["tx", "w"]);
    let wallet = ConsensusItem { wallet: true, encoded: b"w".to_vec() };
    let left = filter_proposal(vec![item("tx"), wallet, item("other")], &outcome);
    assert_eq!(texts(&left), vec!["w", "other"]);
}

#[test]
fn consensus_rejects_events_out_of_turn() {
    assert!(spawn_hbbft(HbbftState::Stepping, HbbftEvent::<u8>::MessagesSent).is_err());
    assert!(spawn_hbbft(HbbftState::Receiving, HbbftEvent::<u8>::OutcomeSent).is_err());
    let waiting = HbbftState::AwaitingProposal { rest: vec![] };
    assert!(spawn_hbbft(waiting, HbbftEvent::<u8>::Message(0, 1)).is_err());
    let reading = HbbftState::Reading { output: vec![], faults: vec![] };
    assert!(spawn_hbbft(reading, HbbftEvent::<u8>::FaultsReported).is_err());
    let reporting = HbbftState::Reporting { rest: vec![] };
    assert!(spawn_hbbft(reporting, HbbftEvent::<u8>::OutcomesRead(vec![])).is_err());
}

#[test]
fn only_encodings_are_sent() {
    let items = vec![item("a"), ConsensusItem { wallet: true, encoded: vec![0, 255] }];
    assert_eq!(encode(items), vec![b"a".to_vec(), vec![0, 255]]);
}

#[test]
fn a_step_of_the_algorithm_is_gone_on_with() {
    let made = HbbftStep {
        output: vec![epoch(9)],
        faults: vec![(1, Fault::Algorithm(FaultKind::InvalidCiphertext))],
        messages: vec![],
    };
    match go_on(Ok(made)) {
        Ok((HbbftState::Sending { output, faults }, HbbftAction::SendMessages(messages))) => {
            assert_eq!(output.len(), 1);
            assert_eq!(output[0].epoch, 9);
            assert_eq!(faults.len(), 1);
            assert!(messages.is_empty());
        }
        _ => panic!("consensus does not go on"),
    }
    let failed = go_on(Err(hbbft::honey_badger::Error::UnknownSender));
    assert!(matches!(failed, Err(ConsensusError::Algorithm)));
}

fn federation(n: u16) -> BTreeMap<u16, MemberKeys> {
    let mut rng = OsRng::new().unwrap();
    let shares = SecretKeySet::random(hbbft::util::max_faulty(n as usize), &mut rng);
    let secrets: BTreeMap<u16, SecretKey> = (0..n).map(|id| (id, SecretKey::random())).collect();
    let keys = |id: u16| MemberKeys {
        identity: id,
        secret_key_share: shares.secret_key_share(id as usize),
        public_key_set: shares.public_keys(),
        secret_key: secrets[&id].clone(),
        public_keys: secrets.iter().map(|(id, key)| (*id, key.public_key())).collect(),
    };
    (0..n).map(|id| (id, keys(id))).collect()
}

fn start(keys: MemberKeys, initial: Vec<ConsensusItem>, rng: &mut OsRng) -> (Consensus, Progress) {
    start_consensus(keys, initial, rng).unwrap_or_else(|_| panic!("the keys are not usable"))
}

#[test]
fn consensus_needs_members_and_a_master_key() {
    let mut rng = OsRng::new().unwrap();
    let mut keys = federation(1).remove(&0).unwrap();
    keys.public_keys.clear();
    assert!(matches!(start_consensus(keys, vec![], &mut rng), Err(KeyError::NoMembers)));
    let mut keys = federation(4).remove(&2).unwrap();
    keys.public_key_set = PublicKeySet::from(Poly::zero().commitment());
    assert!(matches!(start_consensus(keys, vec![], &mut rng), Err(KeyError::NoMasterKey)));
    let mut keys = federation(4).remove(&2).unwrap();
    keys.public_key_set = PublicKeySet::from(Poly::one().commitment());
    match start_consensus(keys, vec![], &mut rng) {
        Ok((consensus, _)) => assert!(consensus.is_keyed()),
        Err(_) => panic!("the keys are not usable"),
    }
}

#[test]
fn an_onlooker_contributes_nothing() {
    let mut rng = OsRng::new().unwrap();
    for keyed in [true, false] {
        let mut keys = federation(4).remove(&2).unwrap();
        keys.identity = 9;
        if !keyed {
            keys.public_key_set = PublicKeySet::from(Poly::zero().commitment());
        }
        let (consensus, progress) = start(keys, vec![item("tx")], &mut rng);
        assert_eq!(consensus.is_keyed(), keyed);
        let (state, action) = progress.unwrap_or_else(|_| panic!("consensus failed"));
        match action {
            HbbftAction::SendMessages(messages) => assert!(messages.is_empty()),
            _ => panic!("unexpected action"),
        }
        let (_, state, action) = advance(consensus, &mut rng, state, HbbftEvent::MessagesSent);
        assert!(matches!(state, HbbftState::Receiving));
        assert!(matches!(action, HbbftAction::ReceiveMessage));
    }
}

fn advance(
    consensus: Consensus,
    rng: &mut OsRng,
    state: HbbftState,
    event: HbbftEvent<ConsensusMessage>,
) -> (Consensus, HbbftState, HbbftAction<ConsensusMessage>) {
    let (consensus, progress) = advance_consensus(consensus, rng, state, event);
    let (state, action) = progress.unwrap_or_else(|_| panic!("consensus failed"));
    (consensus, state, action)
}

#[test]
fn a_single_member_agrees_with_itself() {
    let mut rng = OsRng::new().unwrap();
    let keys = federation(1).remove(&0).unwrap();
    let (mut consensus, progress) = start(keys, vec![item("tx"), item("wallet")], &mut rng);
    let (mut state, mut action) = progress.unwrap_or_else(|_| panic!());
    for round in 0..3u64 {
        assert!(matches!(action, HbbftAction::SendMessages(_)));
        let (c, s, a) = advance(consensus, &mut rng, state, HbbftEvent::MessagesSent);
        assert!(matches!(a, HbbftAction::ReadOutcomes));
        let read = HbbftEvent::OutcomesRead(read_all(&s));
        let (c, s, a) = advance(c, &mut rng, s, read);
        match a {
            HbbftAction::SendOutcome(outcome) => {
                assert_eq!(outcome.epoch, round);
                assert_eq!(outcome.contributions.len(), 1);
                assert_eq!(outcome.contributions[0].0, 0);
                assert_eq!(texts(&outcome.contributions[0].1), vec!["tx", "wallet"]);
                assert!(!outcome.contributions[0].1[0].wallet);
                assert!(outcome.contributions[0].1[1].wallet);
            }
            _ => panic!("no outcome"),
        }
        let (c, s, a) = advance(c, &mut rng, s, HbbftEvent::OutcomeSent);
        assert!(matches!(a, HbbftAction::ReceiveProposal));
        let proposal = HbbftEvent::Proposal(vec![item("tx"), item("wallet")]);
        let (c, s, a) = advance(c, &mut rng, s, proposal);
        consensus = c;
        state = s;
        action = a;
    }
}

#[test]
fn undecodable_contributions_are_left_out() {
    let mut rng = OsRng::new().unwrap();
    let keys = federation(1).remove(&0).unwrap();
    let garbage = ConsensusItem { wallet: false, encoded: vec![0xff] };
    let (consensus, progress) = start(keys, vec![garbage], &mut rng);
    let (state, _) = progress.unwrap_or_else(|_| panic!());
    let (c, s, _) = advance(consensus, &mut rng, state, HbbftEvent::MessagesSent);
    let read = HbbftEvent::OutcomesRead(read_all(&s));
    let (c, s, a) = advance(c, &mut rng, s, read);
    match a {
        HbbftAction::ReportFaults(faults) => {
            assert_eq!(faults.len(), 1);
            assert!(matches!(faults[0], (0, Fault::Undecodable)));
        }
        _ => panic!("no faults"),
    }
    let (_, _, a) = advance(c, &mut rng, s, HbbftEvent::FaultsReported);
    match a {
        HbbftAction::SendOutcome(outcome) => assert!(outcome.contributions.is_empty()),
        _ => panic!("no outcome"),
    }
}

#[test]
fn the_algorithm_rejects_messages_of_strangers() {
    let mut rng = OsRng::new().unwrap();
    let mut members = federation(2);
    let (_, progress) = start(members.remove(&0).unwrap(), vec![item("tx")], &mut rng);
    let message = match progress {
        Ok((_, HbbftAction::SendMessages(mut messages))) => messages.remove(0).1,
        _ => panic!("no messages"),
    };
    let (consensus, _) = start(members.remove(&1).unwrap(), vec![], &mut rng);
    let stranger = HbbftEvent::Message(77, message);
    let (consensus, progress) =
        advance_consensus(consensus, &mut rng, HbbftState::Receiving, stranger);
    assert!(matches!(progress, Err(ConsensusError::Algorithm)));
    let early = HbbftEvent::OutcomeSent;
    let (_, progress) = advance_consensus(consensus, &mut rng, HbbftState::Receiving, early);
    assert!(matches!(progress, Err(ConsensusError::UnexpectedEvent)));
}

#[test]
fn the_algorithm_notices_messages_from_the_future() {
    let mut rng = OsRng::new().unwrap();
    let (consensus, _) = start(federation(2).remove(&1).unwrap(), vec![], &mut rng);
    let mut message: ConsensusMessage = rng.gen();
    while message.epoch() < 1000 {
        message = rng.gen();
    }
    let event = HbbftEvent::Message(0, message);
    let (c, s, _) = advance(consensus, &mut rng, HbbftState::Receiving, event);
    let (_, _, a) = advance(c, &mut rng, s, HbbftEvent::MessagesSent);
    match a {
        HbbftAction::ReportFaults(faults) => {
            assert_eq!(faults.len(), 1);
            assert!(matches!(
                faults[0],
                (0, Fault::Algorithm(FaultKind::UnexpectedHbMessageEpoch))
            ));
        }
        _ => panic!("no faults"),
    }
}

struct Member {
    net: LatencyNetwork<(), ()>,
    consensus: Option<Consensus>,
    state: Option<HbbftState>,
    outcomes: Vec<ConsensusOutcome>,
}

type InFlight = VecDeque<(u16, u16, ConsensusMessage)>;

/// Carries out actions until the member waits for a message or has an outcome.
fn settle(member: &mut Member, progress: Progress, rng: &mut OsRng, in_flight: &mut InFlight) {
    let (mut state, mut action) = progress.unwrap_or_else(|_| panic!("consensus failed"));
    loop {
        let event = match action {
            HbbftAction::SendMessages(messages) => {
                for (target, message) in messages {
                    for (to, packet) in member.net.send(0, target, message) {
                        in_flight.push_back((to, packet.sender, packet.msg));
                    }
                }
                HbbftEvent::MessagesSent
            }
            HbbftAction::ReadOutcomes => HbbftEvent::OutcomesRead(read_all(&state)),
            HbbftAction::SendOutcome(outcome) => {
                member.outcomes.push(outcome);
                return;
            }
            HbbftAction::ReceiveMessage => {
                member.state = Some(state);
                return;
            }
            _ => panic!("unexpected action"),
        };
        let (c, s, a) = advance(member.consensus.take().unwrap(), rng, state, event);
        member.consensus = Some(c);
        state = s;
        action = a;
    }
}

#[test]
fn three_of_four_members_agree() {
    let mut rng = OsRng::new().unwrap();
    let ids = [0, 1, 2, 3];
    let channels = vec![((), ()); 4];
    let mut nets = start_latency_network(5, &ids, vec![3], channels);
    let mut in_flight: InFlight = VecDeque::new();
    let mut members = BTreeMap::new();
    for (id, keys) in federation(4) {
        if id == 3 {
            continue;
        }
        let contribution = vec![item(&format!("tx of {}", id))];
        let (consensus, progress) = start(keys, contribution, &mut rng);
        let net = nets.remove(&id).unwrap();
        let consensus = Some(consensus);
        let mut member = Member { net, consensus, state: None, outcomes: vec![] };
        settle(&mut member, progress, &mut rng, &mut in_flight);
        members.insert(id, member);
    }
    while let Some((to, from, message)) = in_flight.pop_front() {
        let member = members.get_mut(&to).unwrap();
        if let Some(state) = member.state.take() {
            let event = HbbftEvent::Message(from, message);
            let consensus = member.consensus.take().unwrap();
            let (consensus, progress) = advance_consensus(consensus, &mut rng, state, event);
            member.consensus = Some(consensus);
            settle(member, progress, &mut rng, &mut in_flight);
        }
    }
    let reference = &members[&0].outcomes[0];
    assert_eq!(reference.epoch, 0);
    assert!(reference.contributions.len() >= 3);
    for member in members.values() {
        assert_eq!(member.outcomes.len(), 1);
        let outcome = &member.outcomes[0];
        assert_eq!(outcome.contributions.len(), reference.contributions.len());
        for (mine, theirs) in outcome.contributions.iter().zip(reference.contributions.iter()) {
            assert_eq!(mine.0, theirs.0);
            assert_eq!(texts(&mine.1), vec![format!("tx of {}", mine.0)]);
            assert_eq!(texts(&mine.1), texts(&theirs.1));
        }
        assert!(outcome.contributions.windows(2).all(|w| w[0].0 < w[1].0));
    }
}
