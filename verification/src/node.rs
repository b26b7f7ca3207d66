//! A federation member: how it exchanges proposals for consensus outcomes.
//!
//! The member's decisions are made here; whoever runs it carries out the actions, and reports
//! back what came of them as events.

use crate::federation::{numbered_from_zero, PeerId};
use crate::items::{
    filter_proposal, law_only_agreed_items_are_dropped, unsettled, ConsensusItem, ConsensusOutcome,
};
use std::collections::BTreeMap;
use vstd::prelude::*;

verus! {

/// Where a member stands.
pub enum NodeState {
    /// It waits for the first proposal of its modules.
    Starting,
    /// It waits for consensus to start on the first proposal.
    Spawning,
    /// It waits for the next proposal of its modules.
    AwaitingProposal,
    /// It is ready to exchange its proposal for a consensus outcome.
    AwaitingOutcome { proposal: Vec<ConsensusItem> },
    /// It waits until what is left of its proposal is handed over. The outcome is still to be
    /// processed.
    SendingProposal { outcome: ConsensusOutcome },
    /// It waits until the outcome is processed.
    Processing,
}

/// What a member is told.
pub enum NodeEvent {
    /// The modules have made a proposal.
    Proposal(Vec<ConsensusItem>),
    /// Consensus has started.
    ConsensusSpawned,
    /// The federation has agreed on the outcome of an epoch.
    Outcome(ConsensusOutcome),
    /// Consensus has got the proposal for its next epoch.
    ProposalSent,
    /// The outcome is processed.
    OutcomeProcessed,
}

/// What a member wants done next.
pub enum NodeAction {
    /// Ask the modules for a proposal.
    RequestProposal,
    /// Start consensus with this contribution to the first epoch.
    SpawnConsensus(Vec<ConsensusItem>),
    /// Wait for the outcome of an epoch.
    ReceiveOutcome,
    /// Hand this proposal to consensus, as the contribution to the next epoch.
    SendProposal(Vec<ConsensusItem>),
    /// Process this outcome.
    ProcessOutcome(ConsensusOutcome),
}

/// The event does not fit the state that the member is in.
#[derive(Debug, PartialEq, Eq)]
pub struct UnexpectedEvent;

/// A member as it starts.
pub struct NodeStart {
    /// How many members have to take part in signing a coin.
    pub threshold: usize,
    pub state: NodeState,
    pub action: NodeAction,
}

/// Starts a member of a federation of `peers` that tolerates `max_faulty` faults. The members have
/// to be numbered from zero.
pub fn start_node<P>(peers: &BTreeMap<PeerId, P>, max_faulty: usize) -> (start: NodeStart)
    requires
        numbered_from_zero(peers@.dom()),
        max_faulty <= peers@.len(),
    ensures
        start.threshold == peers@.len() - max_faulty,
        start.state is Starting,
        start.action is RequestProposal,
{
    proof {
        crate::federation::lemma_peer_ids_are_ordered();
    }
    let threshold: usize = peers.len() - max_faulty;
    NodeStart { threshold, state: NodeState::Starting, action: NodeAction::RequestProposal }
}

/// The member waits for this kind of event.
pub open spec fn expects(state: NodeState, event: NodeEvent) -> bool {
    match state {
        NodeState::Starting => event is Proposal,
        NodeState::Spawning => event is ConsensusSpawned,
        NodeState::AwaitingProposal => event is Proposal,
        NodeState::AwaitingOutcome { .. } => event is Outcome,
        NodeState::SendingProposal { .. } => event is ProposalSent,
        NodeState::Processing => event is OutcomeProcessed,
    }
}

/// On `event` the member goes from `state` to `next`, and wants `action` done.
pub open spec fn node_step(
    state: NodeState,
    event: NodeEvent,
    next: NodeState,
    action: NodeAction,
) -> bool {
    match (state, event) {
        (NodeState::Starting, NodeEvent::Proposal(first)) => {
            &&& next is Spawning
            &&& action == NodeAction::SpawnConsensus(first)
        },
        (NodeState::Spawning, NodeEvent::ConsensusSpawned) => {
            &&& next is AwaitingProposal
            &&& action is RequestProposal
        },
        (NodeState::AwaitingProposal, NodeEvent::Proposal(proposal)) => {
            &&& next == (NodeState::AwaitingOutcome { proposal })
            &&& action is ReceiveOutcome
        },
        (NodeState::AwaitingOutcome { proposal }, NodeEvent::Outcome(outcome)) => {
            &&& next == (NodeState::SendingProposal { outcome })
            &&& action matches NodeAction::SendProposal(left)
            &&& left@ == unsettled(proposal@, outcome)
        },
        (NodeState::SendingProposal { outcome }, NodeEvent::ProposalSent) => {
            &&& next is Processing
            &&& action == NodeAction::ProcessOutcome(outcome)
        },
        (NodeState::Processing, NodeEvent::OutcomeProcessed) => {
            &&& next is AwaitingProposal
            &&& action is RequestProposal
        },
        _ => false,
    }
}

/// One step of a running member.
///
/// The proposal that goes to consensus has lost the items that were just agreed on, so that they
/// are not proposed twice. It is handed over before the outcome is processed.
pub fn run_minimint_node(state: NodeState, event: NodeEvent) -> (result: Result<
    (NodeState, NodeAction),
    UnexpectedEvent,
>)
    ensures
        result is Ok <==> expects(state, event),
        result matches Ok((next, action)) ==> node_step(state, event, next, action),
        state is Starting ==> (event matches NodeEvent::Proposal(first) ==> result == Ok::<
            _,
            UnexpectedEvent,
        >((NodeState::Spawning, NodeAction::SpawnConsensus(first)))),
        state is AwaitingProposal ==> (event matches NodeEvent::Proposal(proposal) ==> result
            == Ok::<_, UnexpectedEvent>(
            (NodeState::AwaitingOutcome { proposal }, NodeAction::ReceiveOutcome),
        )),
        state matches NodeState::AwaitingOutcome { proposal } ==> (event matches NodeEvent::Outcome(
            outcome,
        ) ==> {
            &&& result matches Ok((next, NodeAction::SendProposal(filtered)))
            &&& next == (NodeState::SendingProposal { outcome })
            &&& filtered@ == unsettled(proposal@, outcome)
        }),
        state matches NodeState::SendingProposal { outcome } ==> (event is ProposalSent ==> result
            == Ok::<_, UnexpectedEvent>(
            (NodeState::Processing, NodeAction::ProcessOutcome(outcome)),
        )),
        state is Spawning && event is ConsensusSpawned || state is Processing
            && event is OutcomeProcessed ==> result == Ok::<_, UnexpectedEvent>(
            (NodeState::AwaitingProposal, NodeAction::RequestProposal),
        ),
{
    match (state, event) {
        (NodeState::Starting, NodeEvent::Proposal(first)) => Ok(
            (NodeState::Spawning, NodeAction::SpawnConsensus(first)),
        ),
        (NodeState::Spawning, NodeEvent::ConsensusSpawned) => Ok(
            (NodeState::AwaitingProposal, NodeAction::RequestProposal),
        ),
        (NodeState::AwaitingProposal, NodeEvent::Proposal(proposal)) => Ok(
            (NodeState::AwaitingOutcome { proposal }, NodeAction::ReceiveOutcome),
        ),
        (NodeState::AwaitingOutcome { proposal }, NodeEvent::Outcome(outcome)) => {
            let left = filter_proposal(proposal, &outcome);
            Ok((NodeState::SendingProposal { outcome }, NodeAction::SendProposal(left)))
        },
        (NodeState::SendingProposal { outcome }, NodeEvent::ProposalSent) => Ok(
            (NodeState::Processing, NodeAction::ProcessOutcome(outcome)),
        ),
        (NodeState::Processing, NodeEvent::OutcomeProcessed) => Ok(
            (NodeState::AwaitingProposal, NodeAction::RequestProposal),
        ),
        _ => Err(UnexpectedEvent),
    }
}

/// A member that started in `states[0]` went through `states` on `events`, and wanted `actions`
/// done.
pub open spec fn node_run(
    states: Seq<NodeState>,
    events: Seq<NodeEvent>,
    actions: Seq<NodeAction>,
) -> bool {
    &&& states.len() == events.len() + 1
    &&& actions.len() == events.len()
    &&& states[0] is Starting
    &&& forall|i: int|
        #![trigger events[i]]
        0 <= i < events.len() ==> node_step(states[i], events[i], states[i + 1], actions[i])
}

/// The proposals that the modules have made, in order.
pub open spec fn proposals(events: Seq<NodeEvent>) -> Seq<Vec<ConsensusItem>>
    decreases events.len(),
{
    if events.len() == 0 {
        Seq::empty()
    } else {
        match events.last() {
            NodeEvent::Proposal(proposal) => proposals(events.drop_last()).push(proposal),
            _ => proposals(events.drop_last()),
        }
    }
}

/// The outcomes that the federation has agreed on, in order.
pub open spec fn outcomes(events: Seq<NodeEvent>) -> Seq<ConsensusOutcome>
    decreases events.len(),
{
    if events.len() == 0 {
        Seq::empty()
    } else {
        match events.last() {
            NodeEvent::Outcome(outcome) => outcomes(events.drop_last()).push(outcome),
            _ => outcomes(events.drop_last()),
        }
    }
}

/// The contributions that consensus was given: the one it was started with, and those sent to it.
pub open spec fn contributed(actions: Seq<NodeAction>) -> Seq<Seq<ConsensusItem>>
    decreases actions.len(),
{
    if actions.len() == 0 {
        Seq::empty()
    } else {
        match actions.last() {
            NodeAction::SpawnConsensus(items) => contributed(actions.drop_last()).push(items@),
            NodeAction::SendProposal(items) => contributed(actions.drop_last()).push(items@),
            _ => contributed(actions.drop_last()),
        }
    }
}

/// The outcomes that were to be processed, in order.
pub open spec fn processed(actions: Seq<NodeAction>) -> Seq<ConsensusOutcome>
    decreases actions.len(),
{
    if actions.len() == 0 {
        Seq::empty()
    } else {
        match actions.last() {
            NodeAction::ProcessOutcome(outcome) => processed(actions.drop_last()).push(outcome),
            _ => processed(actions.drop_last()),
        }
    }
}

/// The outcome that a member has received and not yet processed.
pub open spec fn pending(state: NodeState) -> Seq<ConsensusOutcome> {
    match state {
        NodeState::SendingProposal { outcome } => seq![outcome],
        _ => Seq::empty(),
    }
}

/// How the proposals relate to what consensus was given, in every state that a run can reach.
spec fn bookkeeping(
    state: NodeState,
    made: Seq<Vec<ConsensusItem>>,
    agreed: Seq<ConsensusOutcome>,
    given: Seq<Seq<ConsensusItem>>,
) -> bool {
    &&& match state {
        NodeState::Starting => made.len() == 0 && given.len() == 0,
        NodeState::AwaitingOutcome { proposal } => {
            &&& given.len() > 0
            &&& made.len() == given.len() + 1
            &&& made.last() == proposal
        },
        _ => given.len() > 0 && made.len() == given.len(),
    }
    &&& agreed.len() + 1 == given.len() || (given.len() == 0 && agreed.len() == 0)
    &&& given.len() > 0 ==> given[0] == made[0]@
    &&& forall|k: int|
        0 < k < given.len() ==> #[trigger] given[k] == unsettled(made[k]@, agreed[k - 1])
}

proof fn lemma_bookkeeping(
    states: Seq<NodeState>,
    events: Seq<NodeEvent>,
    actions: Seq<NodeAction>,
)
    requires
        node_run(states, events, actions),
    ensures
        bookkeeping(states.last(), proposals(events), outcomes(events), contributed(actions)),
        processed(actions) + pending(states.last()) == outcomes(events),
    decreases events.len(),
{
    if events.len() == 0 {
        assert(processed(actions) + pending(states.last()) =~= outcomes(events));
    } else {
        let n = events.len() - 1;
        let (states0, events0, actions0) = (
            states.drop_last(),
            events.drop_last(),
            actions.drop_last(),
        );
        assert forall|i: int| #![trigger events0[i]] 0 <= i < events0.len() implies node_step(
            states0[i],
            events0[i],
            states0[i + 1],
            actions0[i],
        ) by {
            assert(node_step(states[i], events[i], states[i + 1], actions[i]));
        }
        lemma_bookkeeping(states0, events0, actions0);
        assert(node_step(states[n], events[n], states[n + 1], actions[n]));
        assert(states0.last() == states[n]);
        assert(states.last() == states[n + 1]);
        assert(processed(actions) + pending(states.last()) =~= outcomes(events));
    }
}

/// Every outcome is processed exactly once and in the order in which they came; at most the last
/// one is still to be processed.
pub proof fn law_outcomes_are_processed_in_order(
    states: Seq<NodeState>,
    events: Seq<NodeEvent>,
    actions: Seq<NodeAction>,
)
    requires
        node_run(states, events, actions),
    ensures
        processed(actions) + pending(states.last()) == outcomes(events),
{
    lemma_bookkeeping(states, events, actions);
}

/// Consensus is given every proposal once: the first one as it is, and each later one without the
/// items that the outcome it was exchanged for has settled.
pub proof fn law_proposals_are_exchanged_for_outcomes(
    states: Seq<NodeState>,
    events: Seq<NodeEvent>,
    actions: Seq<NodeAction>,
)
    requires
        node_run(states, events, actions),
        contributed(actions).len() > 0,
    ensures
        contributed(actions).len() == outcomes(events).len() + 1,
        contributed(actions).len() <= proposals(events).len() <= contributed(actions).len() + 1,
        contributed(actions)[0] == proposals(events)[0]@,
        forall|k: int|
            0 < k < contributed(actions).len() ==> #[trigger] contributed(actions)[k] == unsettled(
                proposals(events)[k]@,
                outcomes(events)[k - 1],
            ),
{
    lemma_bookkeeping(states, events, actions);
}

/// What was agreed on is not proposed again: apart from the items of the wallet module, nothing in
/// a contribution is part of the outcome that it was exchanged for.
pub proof fn law_agreed_items_are_not_proposed_again(
    states: Seq<NodeState>,
    events: Seq<NodeEvent>,
    actions: Seq<NodeAction>,
    k: int,
    item: ConsensusItem,
)
    requires
        node_run(states, events, actions),
        0 < k < contributed(actions).len(),
        contributed(actions)[k].contains(item),
        !item.wallet,
    ensures
        !outcomes(events)[k - 1].includes(item@),
{
    lemma_bookkeeping(states, events, actions);
    law_only_agreed_items_are_dropped(proposals(events)[k]@, outcomes(events)[k - 1], item);
}

/// Whenever an outcome arrives there is a proposal at hand to exchange for it.
pub proof fn law_a_proposal_is_always_at_hand(
    states: Seq<NodeState>,
    events: Seq<NodeEvent>,
    actions: Seq<NodeAction>,
    i: int,
)
    requires
        node_run(states, events, actions),
        0 <= i < events.len(),
        events[i] is Outcome,
    ensures
        states[i] is AwaitingOutcome,
        proposals(events.take(i)).len() > 0,
        proposals(events.take(i)).last() == states[i]->proposal,
{
    assert(node_step(states[i], events[i], states[i + 1], actions[i]));
    let (states0, events0, actions0) = (states.take(i + 1), events.take(i), actions.take(i));
    assert forall|j: int| #![trigger events0[j]] 0 <= j < events0.len() implies node_step(
        states0[j],
        events0[j],
        states0[j + 1],
        actions0[j],
    ) by {
        assert(node_step(states[j], events[j], states[j + 1], actions[j]));
    }
    lemma_bookkeeping(states0, events0, actions0);
    assert(states0.last() == states[i]);
}

/// A member takes whatever its modules propose when it waits for a proposal, whatever the federation
/// has agreed on when it waits for an outcome, and otherwise that what it wanted is done.
pub proof fn law_the_member_waits_for_one_kind_of_event(state: NodeState, event: NodeEvent)
    ensures
        expects(state, event) <==> {
            ||| state is Starting && event is Proposal
            ||| state is Spawning && event is ConsensusSpawned
            ||| state is AwaitingProposal && event is Proposal
            ||| state is AwaitingOutcome && event is Outcome
            ||| state is SendingProposal && event is ProposalSent
            ||| state is Processing && event is OutcomeProcessed
        },
{
}

/// Whatever the member wants done, it takes the answer to it.
pub proof fn law_the_member_takes_every_answer(
    state: NodeState,
    event: NodeEvent,
    next: NodeState,
    action: NodeAction,
    answer: NodeEvent,
)
    requires
        node_step(state, event, next, action),
    ensures
        action is RequestProposal && answer is Proposal ==> expects(next, answer),
        action is SpawnConsensus && answer is ConsensusSpawned ==> expects(next, answer),
        action is ReceiveOutcome && answer is Outcome ==> expects(next, answer),
        action is SendProposal && answer is ProposalSent ==> expects(next, answer),
        action is ProcessOutcome && answer is OutcomeProcessed ==> expects(next, answer),
{
}

/// In every run, the first proposal starts consensus as it is. Each outcome comes after a proposal,
/// is answered by what it leaves of that proposal, and is processed itself right after that is sent.
pub proof fn law_each_outcome_is_answered_and_processed(
    states: Seq<NodeState>,
    events: Seq<NodeEvent>,
    actions: Seq<NodeAction>,
    i: int,
)
    requires
        node_run(states, events, actions),
        0 <= i < events.len(),
    ensures
        i == 0 ==> {
            &&& events[i] matches NodeEvent::Proposal(first)
            &&& actions[i] == NodeAction::SpawnConsensus(first)
        },
        events[i] matches NodeEvent::Outcome(outcome) ==> {
            &&& i > 0
            &&& events[i - 1] matches NodeEvent::Proposal(proposal)
            &&& actions[i] matches NodeAction::SendProposal(left)
            &&& left@ == unsettled(proposal@, outcome)
            &&& i + 1 < events.len() ==> actions[i + 1] == NodeAction::ProcessOutcome(outcome)
        },
        actions[i] is ProcessOutcome ==> i > 0 && events[i - 1] is Outcome,
        actions[i] is SendProposal ==> events[i] is Outcome,
        events[i] is OutcomeProcessed ==> actions[i] is RequestProposal,
{
    assert(node_step(states[i], events[i], states[i + 1], actions[i]));
    if i > 0 {
        assert(node_step(states[i - 1], events[i - 1], states[i], actions[i - 1]));
    }
    if i + 1 < events.len() {
        assert(node_step(states[i + 1], events[i + 1], states[i + 2], actions[i + 1]));
    }
}

/// On an outcome, an item of the proposal is sent on exactly if it is one of the wallet module or no
/// member has contributed the same to the outcome; and nothing is sent on that was not proposed.
pub proof fn law_an_outcome_takes_its_items_out_of_the_proposal(
    proposal: Vec<ConsensusItem>,
    outcome: ConsensusOutcome,
    next: NodeState,
    action: NodeAction,
    item: ConsensusItem,
)
    requires
        node_step(
            NodeState::AwaitingOutcome { proposal },
            NodeEvent::Outcome(outcome),
            next,
            action,
        ),
    ensures
        action matches NodeAction::SendProposal(left) && (left@.contains(item)
            <==> proposal@.contains(item) && (item.wallet || forall|i: int, j: int|
            0 <= i < outcome.contributions.len() && 0 <= j < outcome.contributions[i].1.len() ==> (
            #[trigger] outcome.contributions[i].1[j]).wallet
                || outcome.contributions[i].1[j].encoded@ != item.encoded@)),
        next == (NodeState::SendingProposal { outcome }),
{
    law_only_agreed_items_are_dropped(proposal@, outcome, item);
    if !item.wallet {
        if outcome.includes(item@) {
            let (i, j) = choose|i: int, j: int|
                0 <= i < outcome.contributions.len() && 0 <= j < outcome.contributions[i].1.len()
                    && (#[trigger] outcome.contributions[i].1[j])@ == item@;
            assert(!outcome.contributions[i].1[j].wallet);
        } else {
            assert forall|i: int, j: int|
                0 <= i < outcome.contributions.len() && 0 <= j
                    < outcome.contributions[i].1.len() implies (
            #[trigger] outcome.contributions[i].1[j]).wallet
                || outcome.contributions[i].1[j].encoded@ != item.encoded@ by {
                assert(outcome.contributions[i].1[j]@ != item@);
            }
        }
    }
}

} // verus!
