//! Consensus among the federation members: how a member drives its Honey Badger instance.
//!
//! As for the members themselves, the decisions are made here. Sending, receiving, decoding and
//! waiting are left to whoever runs consensus.

use crate::federation::PeerId;
use crate::items::{
    all_read, item_views, law_decodable_outcomes_are_read_in_full, read_contributions, read_outcome, readings_at, undecodable, ConsensusItem, ConsensusOutcome,
    EncodedOutcome, EncodedView, OutcomeView, Reading,
};
use crate::network::Target;
use crate::node::UnexpectedEvent;
use hbbft::honey_badger::FaultKind;
use vstd::prelude::*;

verus! {

/// What the consensus algorithm can blame a member for. It is not modelled.
#[verifier::external_type_specification]
#[verifier::external_body]
pub struct ExFaultKind(FaultKind);

/// What a member is blamed for.
#[derive(Debug)]
pub enum Fault {
    /// Something that the algorithm has noticed.
    Algorithm(FaultKind),
    /// A contribution that cannot be decoded.
    Undecodable,
}

/// What one call of the consensus algorithm gives: the epochs that it has finished, the faults
/// that it has noticed, and messages of type `M` that have to be sent to other members.
pub struct HbbftStep<M> {
    pub output: Vec<EncodedOutcome>,
    pub faults: Vec<(PeerId, Fault)>,
    pub messages: Vec<(Target, M)>,
}

/// What a step consists of: outcomes, faults and messages.
pub type StepView<M> = (Seq<EncodedView>, Seq<(PeerId, Fault)>, Seq<(Target, M)>);

/// What encoded outcomes hold.
pub open spec fn encoded_views(outcomes: Seq<EncodedOutcome>) -> Seq<EncodedView> {
    outcomes.map_values(|outcome: EncodedOutcome| outcome@)
}

/// What outcomes hold.
pub open spec fn outcome_views(outcomes: Seq<ConsensusOutcome>) -> Seq<OutcomeView> {
    outcomes.map_values(|outcome: ConsensusOutcome| outcome@)
}

impl<M> View for HbbftStep<M> {
    type V = StepView<M>;

    open spec fn view(&self) -> StepView<M> {
        (encoded_views(self.output@), self.faults@, self.messages@)
    }
}

/// What the recipient makes of the items of outcomes: a reading for each item of each contribution
/// of each outcome.
pub type Readings = Vec<Vec<Vec<Reading>>>;

/// Outcomes as they were read, without the contributions that cannot be decoded.
pub open spec fn read_outcomes(
    output: Seq<EncodedView>,
    readings: Seq<Vec<Vec<Reading>>>,
) -> Seq<OutcomeView> {
    Seq::new(
        output.len(),
        |i: int| (output[i].0, read_contributions(output[i].1, readings_at(readings, i))),
    )
}

/// The members are blamed for contributions that cannot be decoded.
pub open spec fn blame(peers: Seq<PeerId>) -> Seq<(PeerId, Fault)> {
    peers.map_values(|peer: PeerId| (peer, Fault::Undecodable))
}

/// The faults that come to light when outcomes are read, in order.
pub open spec fn reading_faults(
    output: Seq<EncodedView>,
    readings: Seq<Vec<Vec<Reading>>>,
) -> Seq<(PeerId, Fault)>
    decreases output.len(),
{
    if output.len() == 0 {
        Seq::empty()
    } else {
        reading_faults(output.drop_last(), readings) + blame(
            undecodable(output.last().1, readings_at(readings, output.len() - 1)),
        )
    }
}

/// Where consensus stands.
pub enum HbbftState {
    /// The algorithm was called; its step is to come.
    Stepping,
    /// The messages of a step are being sent. It has finished the epochs of `output`.
    Sending { output: Vec<EncodedOutcome>, faults: Vec<(PeerId, Fault)> },
    /// The items in the outcomes of a step are being decoded.
    Reading { output: Vec<EncodedOutcome>, faults: Vec<(PeerId, Fault)> },
    /// Faults are being reported. The outcomes are still to be handed over.
    Reporting { rest: Vec<ConsensusOutcome> },
    /// It waits for a message of another member.
    Receiving,
    /// An outcome is being handed over. Those in `rest` are still to be.
    Exchanging { rest: Vec<ConsensusOutcome> },
    /// It waits for the proposal that an outcome is exchanged for.
    AwaitingProposal { rest: Vec<ConsensusOutcome> },
}

/// What consensus is told.
pub enum HbbftEvent<M> {
    /// The algorithm has made a step.
    Step(HbbftStep<M>),
    /// All messages of the step are sent.
    MessagesSent,
    /// What the items in the outcomes of the step are.
    OutcomesRead(Readings),
    /// The faults are reported.
    FaultsReported,
    /// A message of another member has arrived.
    Message(PeerId, M),
    /// An outcome is handed over.
    OutcomeSent,
    /// The proposal for the next epoch.
    Proposal(Vec<ConsensusItem>),
}

/// What consensus wants done next.
pub enum HbbftAction<M> {
    /// Have the algorithm propose this contribution.
    Propose(Vec<ConsensusItem>),
    /// Have the algorithm handle the message of a member.
    Handle(PeerId, M),
    /// Send these messages, in order.
    SendMessages(Vec<(Target, M)>),
    /// Decode the items in the outcomes that the state holds.
    ReadOutcomes,
    /// Warn of these faults.
    ReportFaults(Vec<(PeerId, Fault)>),
    /// Wait for a message.
    ReceiveMessage,
    /// Hand over the outcome of an epoch.
    SendOutcome(ConsensusOutcome),
    /// Wait for the proposal for the next epoch.
    ReceiveProposal,
}

/// Consensus waits for this kind of event.
pub open spec fn hbbft_expects<M>(state: HbbftState, event: HbbftEvent<M>) -> bool {
    match state {
        HbbftState::Stepping => event is Step,
        HbbftState::Sending { .. } => event is MessagesSent,
        HbbftState::Reading { .. } => event is OutcomesRead,
        HbbftState::Reporting { .. } => event is FaultsReported,
        HbbftState::Receiving => event is Message,
        HbbftState::Exchanging { .. } => event is OutcomeSent,
        HbbftState::AwaitingProposal { .. } => event is Proposal,
    }
}

/// The first of `outcomes` is handed over next.
pub open spec fn hands_over<M>(
    outcomes: Seq<OutcomeView>,
    next: HbbftState,
    action: HbbftAction<M>,
) -> bool {
    &&& outcomes.len() > 0
    &&& action matches HbbftAction::SendOutcome(outcome)
    &&& outcome@ == outcomes[0]
    &&& next matches HbbftState::Exchanging { rest }
    &&& outcome_views(rest@) == outcomes.drop_first()
}

/// The outcomes of a step are handed over next, or if it has none then a message is awaited.
pub open spec fn delivers<M>(
    outcomes: Seq<OutcomeView>,
    next: HbbftState,
    action: HbbftAction<M>,
) -> bool {
    if outcomes.len() == 0 {
        &&& next is Receiving
        &&& action is ReceiveMessage
    } else {
        hands_over(outcomes, next, action)
    }
}

/// The faults of a step are reported next, if it has any. Its outcomes come after that.
pub open spec fn concludes<M>(
    faults: Seq<(PeerId, Fault)>,
    outcomes: Seq<OutcomeView>,
    next: HbbftState,
    action: HbbftAction<M>,
) -> bool {
    if faults.len() == 0 {
        delivers(outcomes, next, action)
    } else {
        &&& action matches HbbftAction::ReportFaults(reported)
        &&& reported@ == faults
        &&& next matches HbbftState::Reporting { rest }
        &&& outcome_views(rest@) == outcomes
    }
}

/// On `event` consensus goes from `state` to `next`, and wants `action` done.
pub open spec fn hbbft_step<M>(
    state: HbbftState,
    event: HbbftEvent<M>,
    next: HbbftState,
    action: HbbftAction<M>,
) -> bool {
    match (state, event) {
        (HbbftState::Stepping, HbbftEvent::Step(step)) => {
            &&& next == (HbbftState::Sending { output: step.output, faults: step.faults })
            &&& action == HbbftAction::SendMessages(step.messages)
        },
        (HbbftState::Sending { output, faults }, HbbftEvent::MessagesSent) => if output.len()
            == 0 {
            concludes(faults@, Seq::empty(), next, action)
        } else {
            &&& next == (HbbftState::Reading { output, faults })
            &&& action is ReadOutcomes
        },
        (HbbftState::Reading { output, faults }, HbbftEvent::OutcomesRead(readings)) => concludes(
            faults@ + reading_faults(encoded_views(output@), readings@),
            read_outcomes(encoded_views(output@), readings@),
            next,
            action,
        ),
        (HbbftState::Reporting { rest }, HbbftEvent::FaultsReported) => delivers(
            outcome_views(rest@),
            next,
            action,
        ),
        (HbbftState::Receiving, HbbftEvent::Message(peer, message)) => {
            &&& next is Stepping
            &&& action == HbbftAction::Handle(peer, message)
        },
        (HbbftState::Exchanging { rest }, HbbftEvent::OutcomeSent) => {
            &&& next == (HbbftState::AwaitingProposal { rest })
            &&& action is ReceiveProposal
        },
        (HbbftState::AwaitingProposal { rest }, HbbftEvent::Proposal(proposal)) => if rest.len()
            == 0 {
            &&& next is Stepping
            &&& action == HbbftAction::<M>::Propose(proposal)
        } else {
            hands_over(outcome_views(rest@), next, action)
        },
        _ => false,
    }
}

fn hand_over<M>(outcomes: Vec<ConsensusOutcome>) -> (result: (HbbftState, HbbftAction<M>))
    requires
        outcomes.len() > 0,
    ensures
        hands_over(outcome_views(outcomes@), result.0, result.1),
        result.0 matches HbbftState::Exchanging { rest } && rest.len() == outcomes.len() - 1
            && forall|i: int| 0 <= i < rest.len() ==> (#[trigger] rest[i])@ == outcomes[i + 1]@,
        result.1 matches HbbftAction::SendOutcome(outcome) && outcome@ == outcomes[0]@,
{
    let mut rest = outcomes;
    let first = rest.remove(0);
    assert(outcome_views(rest@) =~= outcome_views(outcomes@).drop_first());
    (HbbftState::Exchanging { rest }, HbbftAction::SendOutcome(first))
}

fn deliver<M>(outcomes: Vec<ConsensusOutcome>) -> (result: (HbbftState, HbbftAction<M>))
    ensures
        delivers(outcome_views(outcomes@), result.0, result.1),
        outcomes.len() > 0 ==> (result.0 matches HbbftState::Exchanging { rest } && rest.len()
            == outcomes.len() - 1 && forall|i: int|
            0 <= i < rest.len() ==> (#[trigger] rest[i])@ == outcomes[i + 1]@),
        outcomes.len() > 0 ==> (result.1 matches HbbftAction::SendOutcome(outcome) && outcome@
            == outcomes[0]@),
{
    if outcomes.len() == 0 {
        (HbbftState::Receiving, HbbftAction::ReceiveMessage)
    } else {
        hand_over(outcomes)
    }
}

fn conclude<M>(faults: Vec<(PeerId, Fault)>, outcomes: Vec<ConsensusOutcome>) -> (result: (
    HbbftState,
    HbbftAction<M>,
))
    ensures
        concludes(faults@, outcome_views(outcomes@), result.0, result.1),
        faults.len() > 0 ==> (result.0 matches HbbftState::Reporting { rest } && rest == outcomes),
        faults.len() > 0 ==> (result.1 matches HbbftAction::ReportFaults(reported) && reported@
            == faults@),
{
    if faults.len() == 0 {
        deliver(outcomes)
    } else {
        (HbbftState::Reporting { rest: outcomes }, HbbftAction::ReportFaults(faults))
    }
}

/// Takes the outcomes of a step as they were read, and adds the faults that come to light to those
/// of the step.
fn take_readings(
    output: Vec<EncodedOutcome>,
    faults: Vec<(PeerId, Fault)>,
    readings: Readings,
) -> (result: (Vec<(PeerId, Fault)>, Vec<ConsensusOutcome>))
    ensures
        result.0@ == faults@ + reading_faults(encoded_views(output@), readings@),
        outcome_views(result.1@) == read_outcomes(encoded_views(output@), readings@),
{
    let ghost all = output@;
    let ghost views = encoded_views(output@);
    let total: usize = output.len();
    let ghost noted = faults@;
    let ghost given = readings@;
    let mut readings = readings;
    let mut faults = faults;
    let mut outcomes: Vec<ConsensusOutcome> = Vec::new();
    let mut i: usize = 0;
    assert(faults@ =~= noted + reading_faults(views.take(0), given));
    for encoded in it: output.into_iter()
        invariant
            it.seq() == all,
            all.len() == total,
            views == encoded_views(all),
            i == it.index(),
            readings@ == given.skip(if i < given.len() { i as int } else { given.len() as int }),
            faults@ == noted + reading_faults(views.take(i as int), given),
            outcomes.len() == i,
            forall|j: int|
                0 <= j < i ==> (#[trigger] outcomes[j])@ == read_outcomes(views, given)[j],
    {
        let read: Vec<Vec<Reading>> = if readings.len() > 0 {
            readings.remove(0)
        } else {
            Vec::new()
        };
        proof {
            assert(read@ =~= readings_at(given, i as int));
            assert(readings@ =~= given.skip(
                if i + 1 < given.len() { i + 1 } else { given.len() as int },
            ));
        }
        let (outcome, blamed) = read_outcome(encoded, read);
        outcomes.push(outcome);
        let ghost before = faults@;
        for k in 0..blamed.len()
            invariant
                faults@ == before + blame(blamed@.take(k as int)),
        {
            faults.push((blamed[k], Fault::Undecodable));
            assert(blame(blamed@.take(k + 1)) =~= blame(blamed@.take(k as int)).push(
                (blamed@[k as int], Fault::Undecodable),
            ));
        }
        proof {
            assert(blamed@.take(blamed.len() as int) =~= blamed@);
            assert(views.take(i + 1).drop_last() =~= views.take(i as int));
            assert(views.take(i + 1).last() == views[i as int]);
            assert(faults@ =~= noted + reading_faults(views.take(i + 1), given));
        }
        i = i + 1;
    }
    assert(views.take(views.len() as int) =~= views);
    assert(outcome_views(outcomes@) =~= read_outcomes(views, given));
    (faults, outcomes)
}

/// One step of running consensus.
///
/// When the messages of a step are sent, its outcomes are decoded, and faults are reported before
/// any outcome is handed over. If several epochs finish at once, each outcome is exchanged for a
/// proposal, and only the last of these proposals is contributed to the next epoch, so that it does
/// not repeat items that were agreed on in the meantime.
pub fn spawn_hbbft<M>(state: HbbftState, event: HbbftEvent<M>) -> (result: Result<
    (HbbftState, HbbftAction<M>),
    UnexpectedEvent,
>)
    ensures
        result is Ok <==> hbbft_expects(state, event),
        result matches Ok((next, action)) ==> hbbft_step(state, event, next, action),
        state is Stepping ==> (event matches HbbftEvent::Step(step) ==> result == Ok::<
            _,
            UnexpectedEvent,
        >(
            (
                HbbftState::Sending { output: step.output, faults: step.faults },
                HbbftAction::SendMessages(step.messages),
            ),
        )),
        state matches HbbftState::Sending { output, faults } ==> (event is MessagesSent ==> {
            &&& output.len() > 0 ==> result == Ok::<_, UnexpectedEvent>(
                (HbbftState::Reading { output, faults }, HbbftAction::<M>::ReadOutcomes),
            )
            &&& output.len() == 0 && faults.len() == 0 ==> result == Ok::<_, UnexpectedEvent>(
                (HbbftState::Receiving, HbbftAction::<M>::ReceiveMessage),
            )
            &&& output.len() == 0 && faults.len() > 0 ==> {
                &&& result matches Ok((
                    HbbftState::Reporting { rest },
                    HbbftAction::ReportFaults(reported),
                ))
                &&& rest.len() == 0
                &&& reported@ == faults@
            }
        }),
        state is Receiving ==> (event matches HbbftEvent::Message(peer, message) ==> result == Ok::<
            _,
            UnexpectedEvent,
        >((HbbftState::Stepping, HbbftAction::Handle(peer, message)))),
        state matches HbbftState::Reporting { rest } ==> (event is FaultsReported ==> {
            &&& rest.len() == 0 ==> result == Ok::<_, UnexpectedEvent>(
                (HbbftState::Receiving, HbbftAction::<M>::ReceiveMessage),
            )
            &&& rest.len() > 0 ==> {
                &&& result matches Ok((
                    HbbftState::Exchanging { rest: others },
                    HbbftAction::SendOutcome(outcome),
                ))
                &&& outcome@ == rest[0]@
                &&& others.len() == rest.len() - 1
                &&& forall|i: int|
                    0 <= i < others.len() ==> (#[trigger] others[i])@ == rest[i + 1]@
            }
        }),
        state matches HbbftState::Exchanging { rest } ==> (event is OutcomeSent ==> result == Ok::<
            _,
            UnexpectedEvent,
        >((HbbftState::AwaitingProposal { rest }, HbbftAction::<M>::ReceiveProposal))),
        state matches HbbftState::AwaitingProposal { rest } ==> (event matches HbbftEvent::Proposal(
            proposal,
        ) ==> {
            &&& rest.len() == 0 ==> result == Ok::<_, UnexpectedEvent>(
                (HbbftState::Stepping, HbbftAction::<M>::Propose(proposal)),
            )
            &&& rest.len() > 0 ==> {
                &&& result matches Ok((
                    HbbftState::Exchanging { rest: others },
                    HbbftAction::SendOutcome(outcome),
                ))
                &&& outcome@ == rest[0]@
                &&& others.len() == rest.len() - 1
                &&& forall|i: int|
                    0 <= i < others.len() ==> (#[trigger] others[i])@ == rest[i + 1]@
            }
        }),
{
    match (state, event) {
        (HbbftState::Stepping, HbbftEvent::Step(step)) => Ok(
            (
                HbbftState::Sending { output: step.output, faults: step.faults },
                HbbftAction::SendMessages(step.messages),
            ),
        ),
        (HbbftState::Sending { output, faults }, HbbftEvent::MessagesSent) => {
            if output.len() == 0 {
                let outcomes: Vec<ConsensusOutcome> = Vec::new();
                assert(outcome_views(outcomes@) =~= Seq::empty());
                Ok(conclude(faults, outcomes))
            } else {
                Ok((HbbftState::Reading { output, faults }, HbbftAction::ReadOutcomes))
            }
        },
        (HbbftState::Reading { output, faults }, HbbftEvent::OutcomesRead(readings)) => {
            let (faults, outcomes) = take_readings(output, faults, readings);
            Ok(conclude(faults, outcomes))
        },
        (HbbftState::Reporting { rest }, HbbftEvent::FaultsReported) => Ok(deliver(rest)),
        (HbbftState::Receiving, HbbftEvent::Message(peer, message)) => Ok(
            (HbbftState::Stepping, HbbftAction::Handle(peer, message)),
        ),
        (HbbftState::Exchanging { rest }, HbbftEvent::OutcomeSent) => Ok(
            (HbbftState::AwaitingProposal { rest }, HbbftAction::ReceiveProposal),
        ),
        (HbbftState::AwaitingProposal { rest }, HbbftEvent::Proposal(proposal)) => {
            if rest.len() == 0 {
                Ok((HbbftState::Stepping, HbbftAction::Propose(proposal)))
            } else {
                Ok(hand_over(rest))
            }
        },
        _ => Err(UnexpectedEvent),
    }
}

/// How the algorithm is called on `event`, if it is.
pub open spec fn calls<M>(state: HbbftState, event: HbbftEvent<M>) -> Option<HbbftAction<M>> {
    match (state, event) {
        (HbbftState::Receiving, HbbftEvent::Message(peer, message)) => Some(
            HbbftAction::Handle(peer, message),
        ),
        (HbbftState::AwaitingProposal { rest }, HbbftEvent::Proposal(proposal)) => if rest.len()
            == 0 {
            Some(HbbftAction::Propose(proposal))
        } else {
            None
        },
        _ => None,
    }
}

/// On `event` consensus goes from `state` to `next`, and wants `action` done, with the call of the
/// algorithm carried out that `event` may lead to. That call has made the step `made`.
pub open spec fn hbbft_move<M>(
    state: HbbftState,
    event: HbbftEvent<M>,
    made: Option<HbbftStep<M>>,
    next: HbbftState,
    action: HbbftAction<M>,
) -> bool {
    match calls(state, event) {
        Some(call) => {
            &&& hbbft_step(state, event, HbbftState::Stepping, call)
            &&& made matches Some(step)
            &&& hbbft_step(HbbftState::Stepping, HbbftEvent::Step(step), next, action)
        },
        None => {
            &&& made is None
            &&& hbbft_step(state, event, next, action)
        },
    }
}

/// Consensus started with the step `first`, which brought it to `states[0]` and made it want
/// `actions[0]`. It then went through `states` on `events`, with the steps `made`, and wanted
/// `actions` done.
pub open spec fn hbbft_run<M>(
    first: HbbftStep<M>,
    states: Seq<HbbftState>,
    events: Seq<HbbftEvent<M>>,
    made: Seq<Option<HbbftStep<M>>>,
    actions: Seq<HbbftAction<M>>,
) -> bool {
    &&& states.len() == events.len() + 1
    &&& actions.len() == events.len() + 1
    &&& made.len() == events.len()
    &&& hbbft_step(HbbftState::Stepping, HbbftEvent::Step(first), states[0], actions[0])
    &&& forall|i: int|
        #![trigger events[i]]
        0 <= i < events.len() ==> hbbft_move(
            states[i],
            events[i],
            made[i],
            states[i + 1],
            actions[i + 1],
        )
}

/// The outcomes of all steps as the algorithm gave them, in order.
pub open spec fn finished<M>(first: HbbftStep<M>, made: Seq<Option<HbbftStep<M>>>) -> Seq<
    EncodedView,
>
    decreases made.len(),
{
    if made.len() == 0 {
        first@.0
    } else {
        match made.last() {
            Some(step) => finished(first, made.drop_last()) + step@.0,
            None => finished(first, made.drop_last()),
        }
    }
}

/// The faults that the algorithm has noticed, and those that came to light when outcomes were
/// read, in order.
pub open spec fn noticed<M>(
    first: HbbftStep<M>,
    states: Seq<HbbftState>,
    events: Seq<HbbftEvent<M>>,
    made: Seq<Option<HbbftStep<M>>>,
) -> Seq<(PeerId, Fault)>
    decreases made.len(),
{
    if made.len() == 0 {
        first.faults@
    } else {
        let before = noticed(first, states, events.drop_last(), made.drop_last());
        match made.last() {
            Some(step) => before + step.faults@,
            None => match (states[events.len() - 1], events.last()) {
                (HbbftState::Reading { output, .. }, HbbftEvent::OutcomesRead(readings)) => before
                    + reading_faults(encoded_views(output@), readings@),
                _ => before,
            },
        }
    }
}

/// The messages of all steps, in order.
pub open spec fn stepped_messages<M>(
    first: HbbftStep<M>,
    made: Seq<Option<HbbftStep<M>>>,
) -> Seq<(Target, M)>
    decreases made.len(),
{
    if made.len() == 0 {
        first.messages@
    } else {
        match made.last() {
            Some(step) => stepped_messages(first, made.drop_last()) + step.messages@,
            None => stepped_messages(first, made.drop_last()),
        }
    }
}

/// The outcomes that were given out to be read, in order.
pub open spec fn given_out<M>(states: Seq<HbbftState>, events: Seq<HbbftEvent<M>>) -> Seq<
    EncodedView,
>
    decreases events.len(),
{
    if events.len() == 0 {
        Seq::empty()
    } else {
        let before = given_out(states, events.drop_last());
        match (states[events.len() - 1], events.last()) {
            (HbbftState::Reading { output, .. }, HbbftEvent::OutcomesRead(_)) => before
                + encoded_views(output@),
            _ => before,
        }
    }
}

/// The outcomes as they were read, in order.
pub open spec fn read_back<M>(states: Seq<HbbftState>, events: Seq<HbbftEvent<M>>) -> Seq<
    OutcomeView,
>
    decreases events.len(),
{
    if events.len() == 0 {
        Seq::empty()
    } else {
        let before = read_back(states, events.drop_last());
        match (states[events.len() - 1], events.last()) {
            (HbbftState::Reading { output, .. }, HbbftEvent::OutcomesRead(readings)) => before
                + read_outcomes(encoded_views(output@), readings@),
            _ => before,
        }
    }
}

/// The proposals that were received, in order.
pub open spec fn received<M>(events: Seq<HbbftEvent<M>>) -> Seq<Vec<ConsensusItem>>
    decreases events.len(),
{
    if events.len() == 0 {
        Seq::empty()
    } else {
        match events.last() {
            HbbftEvent::Proposal(proposal) => received(events.drop_last()).push(proposal),
            _ => received(events.drop_last()),
        }
    }
}

/// The outcomes that were handed over, in order.
pub open spec fn handed_over<M>(actions: Seq<HbbftAction<M>>) -> Seq<OutcomeView>
    decreases actions.len(),
{
    if actions.len() == 0 {
        Seq::empty()
    } else {
        match actions.last() {
            HbbftAction::SendOutcome(outcome) => handed_over(actions.drop_last()).push(outcome@),
            _ => handed_over(actions.drop_last()),
        }
    }
}

/// The faults that were reported, in order.
pub open spec fn reported<M>(actions: Seq<HbbftAction<M>>) -> Seq<(PeerId, Fault)>
    decreases actions.len(),
{
    if actions.len() == 0 {
        Seq::empty()
    } else {
        match actions.last() {
            HbbftAction::ReportFaults(faults) => reported(actions.drop_last()) + faults@,
            _ => reported(actions.drop_last()),
        }
    }
}

/// The messages that were sent, in order.
pub open spec fn sent_messages<M>(actions: Seq<HbbftAction<M>>) -> Seq<(Target, M)>
    decreases actions.len(),
{
    if actions.len() == 0 {
        Seq::empty()
    } else {
        match actions.last() {
            HbbftAction::SendMessages(messages) => sent_messages(actions.drop_last()) + messages@,
            _ => sent_messages(actions.drop_last()),
        }
    }
}

/// The outcomes that are still to be read.
pub open spec fn unread(state: HbbftState) -> Seq<EncodedView> {
    match state {
        HbbftState::Sending { output, .. } => encoded_views(output@),
        HbbftState::Reading { output, .. } => encoded_views(output@),
        _ => Seq::empty(),
    }
}

/// The faults that are still to be reported.
pub open spec fn unreported(state: HbbftState) -> Seq<(PeerId, Fault)> {
    match state {
        HbbftState::Sending { faults, .. } => faults@,
        HbbftState::Reading { faults, .. } => faults@,
        _ => Seq::empty(),
    }
}

/// The outcomes that are still to be handed over.
pub open spec fn outstanding(state: HbbftState) -> Seq<OutcomeView> {
    match state {
        HbbftState::Reporting { rest } => outcome_views(rest@),
        HbbftState::Exchanging { rest } => outcome_views(rest@),
        HbbftState::AwaitingProposal { rest } => outcome_views(rest@),
        _ => Seq::empty(),
    }
}

/// Whether an outcome is handed over whose proposal has not come yet.
pub open spec fn mid_exchange(state: HbbftState) -> bool {
    state is Exchanging || state is AwaitingProposal
}

/// A run up to its `n`-th event is a run.
proof fn lemma_shorter_run<M>(
    first: HbbftStep<M>,
    states: Seq<HbbftState>,
    events: Seq<HbbftEvent<M>>,
    made: Seq<Option<HbbftStep<M>>>,
    actions: Seq<HbbftAction<M>>,
    n: int,
)
    requires
        hbbft_run(first, states, events, made, actions),
        0 <= n <= events.len(),
    ensures
        hbbft_run(
            first,
            states.take(n + 1),
            events.take(n),
            made.take(n),
            actions.take(n + 1),
        ),
        states.take(n + 1).last() == states[n],
{
    let (states0, events0, made0, actions0) = (
        states.take(n + 1),
        events.take(n),
        made.take(n),
        actions.take(n + 1),
    );
    assert forall|i: int| #![trigger events0[i]] 0 <= i < events0.len() implies hbbft_move(
        states0[i],
        events0[i],
        made0[i],
        states0[i + 1],
        actions0[i + 1],
    ) by {
        assert(hbbft_move(states[i], events[i], made[i], states[i + 1], actions[i + 1]));
    }
}

/// What was given out and read back does not depend on states that come later.
proof fn lemma_states_prefix<M>(
    first: HbbftStep<M>,
    states: Seq<HbbftState>,
    events: Seq<HbbftEvent<M>>,
    made: Seq<Option<HbbftStep<M>>>,
    n: int,
)
    requires
        events.len() <= n <= states.len(),
        made.len() == events.len(),
    ensures
        given_out(states.take(n), events) == given_out(states, events),
        read_back(states.take(n), events) == read_back(states, events),
        noticed(first, states.take(n), events, made) == noticed(first, states, events, made),
    decreases events.len(),
{
    if events.len() > 0 {
        lemma_states_prefix(first, states, events.drop_last(), made.drop_last(), n);
    }
}

/// Every message of every step is sent once and in order.
pub proof fn law_messages_are_sent_in_order<M>(
    first: HbbftStep<M>,
    states: Seq<HbbftState>,
    events: Seq<HbbftEvent<M>>,
    made: Seq<Option<HbbftStep<M>>>,
    actions: Seq<HbbftAction<M>>,
)
    requires
        hbbft_run(first, states, events, made, actions),
    ensures
        sent_messages(actions) == stepped_messages(first, made),
    decreases events.len(),
{
    if events.len() == 0 {
        assert(sent_messages(actions.drop_last()) =~= Seq::empty());
        assert(sent_messages(actions) =~= stepped_messages(first, made));
    } else {
        let n = events.len() - 1;
        lemma_shorter_run(first, states, events, made, actions, n);
        law_messages_are_sent_in_order(
            first,
            states.take(n + 1),
            events.take(n),
            made.take(n),
            actions.take(n + 1),
        );
        assert(made.drop_last() =~= made.take(n));
        assert(actions.drop_last() =~= actions.take(n + 1));
        assert(!(states[n] is Stepping)) by {
            if n > 0 {
                assert(hbbft_move(
                    states[n - 1],
                    events[n - 1],
                    made[n - 1],
                    states[n],
                    actions[n],
                ));
            }
        }
        assert(hbbft_move(states[n], events[n], made[n], states[n + 1], actions[n + 1]));
    }
}

/// Every outcome of every step is given out to be decoded, once and in order, up to those that are
/// still unread. What is read of them is handed over once and in order, up to what is still
/// outstanding.
pub proof fn law_outcomes_are_handed_over_in_order<M>(
    first: HbbftStep<M>,
    states: Seq<HbbftState>,
    events: Seq<HbbftEvent<M>>,
    made: Seq<Option<HbbftStep<M>>>,
    actions: Seq<HbbftAction<M>>,
)
    requires
        hbbft_run(first, states, events, made, actions),
    ensures
        given_out(states, events) + unread(states.last()) == finished(first, made),
        handed_over(actions) + outstanding(states.last()) == read_back(states, events),
    decreases events.len(),
{
    if events.len() == 0 {
        assert(handed_over(actions.drop_last()) =~= Seq::empty());
        assert(given_out(states, events) + unread(states.last()) =~= finished(first, made));
        assert(handed_over(actions) + outstanding(states.last()) =~= read_back(states, events));
    } else {
        let n = events.len() - 1;
        lemma_shorter_run(first, states, events, made, actions, n);
        law_outcomes_are_handed_over_in_order(
            first,
            states.take(n + 1),
            events.take(n),
            made.take(n),
            actions.take(n + 1),
        );
        assert(events.drop_last() =~= events.take(n));
        assert(made.drop_last() =~= made.take(n));
        assert(actions.drop_last() =~= actions.take(n + 1));
        lemma_states_prefix(first, states, events.take(n), made.take(n), n + 1);
        assert(hbbft_move(states[n], events[n], made[n], states[n + 1], actions[n + 1]));
        assert(given_out(states, events) + unread(states.last()) =~= finished(first, made));
        assert(handed_over(actions) + outstanding(states.last()) =~= read_back(states, events));
    }
}

/// Every fault, be it noticed by the algorithm or when an outcome was decoded, is reported once
/// and in order, up to those that are still unreported.
pub proof fn law_faults_are_reported_in_order<M>(
    first: HbbftStep<M>,
    states: Seq<HbbftState>,
    events: Seq<HbbftEvent<M>>,
    made: Seq<Option<HbbftStep<M>>>,
    actions: Seq<HbbftAction<M>>,
)
    requires
        hbbft_run(first, states, events, made, actions),
    ensures
        reported(actions) + unreported(states.last()) == noticed(first, states, events, made),
    decreases events.len(),
{
    if events.len() == 0 {
        assert(reported(actions.drop_last()) =~= Seq::empty());
        assert(reported(actions) + unreported(states.last()) =~= noticed(
            first,
            states,
            events,
            made,
        ));
    } else {
        let n = events.len() - 1;
        lemma_shorter_run(first, states, events, made, actions, n);
        law_faults_are_reported_in_order(
            first,
            states.take(n + 1),
            events.take(n),
            made.take(n),
            actions.take(n + 1),
        );
        assert(events.drop_last() =~= events.take(n));
        assert(made.drop_last() =~= made.take(n));
        assert(actions.drop_last() =~= actions.take(n + 1));
        lemma_states_prefix(first, states, events.take(n), made.take(n), n + 1);
        assert(hbbft_move(states[n], events[n], made[n], states[n + 1], actions[n + 1]));
        assert(reported(actions) + unreported(states.last()) =~= noticed(
            first,
            states,
            events,
            made,
        ));
    }
}

/// One proposal is taken for every outcome that is handed over.
pub proof fn law_outcomes_are_exchanged_for_proposals<M>(
    first: HbbftStep<M>,
    states: Seq<HbbftState>,
    events: Seq<HbbftEvent<M>>,
    made: Seq<Option<HbbftStep<M>>>,
    actions: Seq<HbbftAction<M>>,
)
    requires
        hbbft_run(first, states, events, made, actions),
    ensures
        handed_over(actions).len() == received(events).len() + if mid_exchange(states.last()) {
            1int
        } else {
            0int
        },
    decreases events.len(),
{
    if events.len() == 0 {
        assert(handed_over(actions.drop_last()) =~= Seq::empty());
    } else {
        let n = events.len() - 1;
        lemma_shorter_run(first, states, events, made, actions, n);
        law_outcomes_are_exchanged_for_proposals(
            first,
            states.take(n + 1),
            events.take(n),
            made.take(n),
            actions.take(n + 1),
        );
        assert(events.drop_last() =~= events.take(n));
        assert(actions.drop_last() =~= actions.take(n + 1));
        assert(hbbft_move(states[n], events[n], made[n], states[n + 1], actions[n + 1]));
    }
}

/// Faults change nothing but that they are reported: what consensus goes on with after the report
/// is what it would have gone on with right away if there had been none.
pub proof fn law_faults_are_only_reported<M>(
    faults: Seq<(PeerId, Fault)>,
    outcomes: Seq<OutcomeView>,
    reporting: HbbftState,
    report: HbbftAction<M>,
    next: HbbftState,
    action: HbbftAction<M>,
)
    requires
        faults.len() > 0,
        concludes(faults, outcomes, reporting, report),
        hbbft_step(reporting, HbbftEvent::FaultsReported, next, action),
    ensures
        report is ReportFaults,
        concludes(Seq::empty(), outcomes, next, action),
{
}

/// What is contributed to an epoch is the newest proposal, and by then every outcome of every step
/// has been handed over and exchanged for one.
pub proof fn law_the_newest_proposal_is_contributed<M>(
    first: HbbftStep<M>,
    states: Seq<HbbftState>,
    events: Seq<HbbftEvent<M>>,
    made: Seq<Option<HbbftStep<M>>>,
    actions: Seq<HbbftAction<M>>,
    i: int,
)
    requires
        hbbft_run(first, states, events, made, actions),
        0 <= i < events.len(),
        calls(states[i], events[i]) matches Some(call) && call is Propose,
    ensures
        received(events.take(i + 1)).len() > 0,
        calls(states[i], events[i]) == Some(
            HbbftAction::<M>::Propose(received(events.take(i + 1)).last()),
        ),
        given_out(states, events.take(i)) == finished(first, made.take(i)),
        handed_over(actions.take(i + 1)) == read_back(states, events.take(i)),
        received(events.take(i + 1)).len() == handed_over(actions.take(i + 1)).len(),
{
    assert(hbbft_move(states[i], events[i], made[i], states[i + 1], actions[i + 1]));
    lemma_shorter_run(first, states, events, made, actions, i);
    let (states0, events0, made0, actions0) = (
        states.take(i + 1),
        events.take(i),
        made.take(i),
        actions.take(i + 1),
    );
    law_outcomes_are_handed_over_in_order(first, states0, events0, made0, actions0);
    law_outcomes_are_exchanged_for_proposals(first, states0, events0, made0, actions0);
    lemma_states_prefix(first, states, events0, made0, i + 1);
    assert(states0.last() == states[i]);
    assert(events.take(i + 1).drop_last() =~= events0);
    assert(events.take(i + 1).last() == events[i]);
    assert(given_out(states0, events0) =~= given_out(states0, events0) + unread(states0.last()));
    assert(handed_over(actions0) =~= handed_over(actions0) + outstanding(states0.last()));
}

/// Consensus takes the step that follows a call, whatever it is, the messages of the other members
/// and the proposals when it waits for them, and otherwise that what it wanted is done.
pub proof fn law_consensus_waits_for_one_kind_of_event<M>(state: HbbftState, event: HbbftEvent<M>)
    ensures
        hbbft_expects(state, event) <==> {
            ||| state is Stepping && event is Step
            ||| state is Sending && event is MessagesSent
            ||| state is Reading && event is OutcomesRead
            ||| state is Reporting && event is FaultsReported
            ||| state is Receiving && event is Message
            ||| state is Exchanging && event is OutcomeSent
            ||| state is AwaitingProposal && event is Proposal
        },
{
}

/// Whatever consensus wants done, it takes the answer to it.
pub proof fn law_consensus_takes_every_answer<M>(
    state: HbbftState,
    event: HbbftEvent<M>,
    next: HbbftState,
    action: HbbftAction<M>,
    answer: HbbftEvent<M>,
)
    requires
        hbbft_step(state, event, next, action),
    ensures
        (action is Propose || action is Handle) && answer is Step ==> hbbft_expects(next, answer),
        action is SendMessages && answer is MessagesSent ==> hbbft_expects(next, answer),
        action is ReadOutcomes && answer is OutcomesRead ==> hbbft_expects(next, answer),
        action is ReportFaults && answer is FaultsReported ==> hbbft_expects(next, answer),
        action is ReceiveMessage && answer is Message ==> hbbft_expects(next, answer),
        action is SendOutcome && answer is OutcomeSent ==> hbbft_expects(next, answer),
        action is ReceiveProposal && answer is Proposal ==> hbbft_expects(next, answer),
{
}

/// A step is all that the algorithm gave: its outcomes, its faults and its messages.
pub proof fn law_steps_are_whole<M>(step: HbbftStep<M>, i: int)
    ensures
        step@.0.len() == step.output.len(),
        0 <= i < step.output.len() ==> step@.0[i] == step.output[i]@,
        step@.1 == step.faults@,
        step@.2 == step.messages@,
{
}

/// Outcomes are looked at one by one, and none is left out.
pub proof fn law_all_outcomes_are_looked_at(
    encoded: Seq<EncodedOutcome>,
    outcomes: Seq<ConsensusOutcome>,
    i: int,
)
    ensures
        encoded_views(encoded).len() == encoded.len(),
        outcome_views(outcomes).len() == outcomes.len(),
        0 <= i < encoded.len() ==> encoded_views(encoded)[i] == encoded[i]@,
        0 <= i < outcomes.len() ==> outcome_views(outcomes)[i] == outcomes[i]@,
{
}

/// Reading leaves every outcome in its place and keeps its epoch, and what it makes of its
/// contributions depends on its own readings alone.
pub proof fn law_outcomes_are_read_in_place(
    output: Seq<EncodedView>,
    readings: Seq<Vec<Vec<Reading>>>,
    i: int,
)
    requires
        0 <= i < output.len(),
        i < readings.len(),
    ensures
        read_outcomes(output, readings).len() == output.len(),
        read_outcomes(output, readings)[i].0 == output[i].0,
        read_outcomes(output, readings)[i].1 == read_contributions(output[i].1, readings[i]@),
{
}

/// Every member that is blamed is blamed for a contribution that cannot be decoded.
pub proof fn law_blame_names_every_member(peers: Seq<PeerId>, i: int)
    requires
        0 <= i < peers.len(),
    ensures
        blame(peers).len() == peers.len(),
        blame(peers)[i].0 == peers[i],
        blame(peers)[i].1 is Undecodable,
{
}

/// One more outcome adds the faults that come to light in it, behind those of the others.
pub proof fn law_faults_come_to_light_in_order(
    output: Seq<EncodedView>,
    readings: Seq<Vec<Vec<Reading>>>,
    outcome: EncodedView,
    own: Vec<Vec<Reading>>,
)
    requires
        readings.len() == output.len(),
    ensures
        reading_faults(Seq::empty(), readings).len() == 0,
        reading_faults(output.push(outcome), readings.push(own)) == reading_faults(output, readings)
            + blame(undecodable(outcome.1, own@)),
{
    assert(output.push(outcome).drop_last() =~= output);
    lemma_later_readings(output, readings, own);
    assert(readings_at(readings.push(own), output.len() as int) == own@);
}

/// Readings of later outcomes make no difference.
proof fn lemma_later_readings(
    output: Seq<EncodedView>,
    readings: Seq<Vec<Vec<Reading>>>,
    own: Vec<Vec<Reading>>,
)
    requires
        output.len() <= readings.len(),
    ensures
        reading_faults(output, readings.push(own)) == reading_faults(output, readings),
    decreases output.len(),
{
    if output.len() > 0 {
        lemma_later_readings(output.drop_last(), readings, own);
        let last = output.len() - 1;
        assert(readings_at(readings.push(own), last) == readings_at(readings, last));
    }
}

/// If every item of every outcome was decoded, there are no faults in the outcomes.
proof fn lemma_no_reading_faults(
    output: Seq<EncodedOutcome>,
    readings: Seq<Vec<Vec<Reading>>>,
    n: int,
)
    requires
        readings.len() == output.len(),
        forall|k: int| 0 <= k < output.len() ==> all_read(#[trigger] output[k], readings[k]@),
        0 <= n <= output.len(),
    ensures
        reading_faults(encoded_views(output).take(n), readings).len() == 0,
    decreases n,
{
    let views = encoded_views(output);
    if n > 0 {
        lemma_no_reading_faults(output, readings, n - 1);
        assert(views.take(n).drop_last() =~= views.take(n - 1));
        assert(views.take(n).last() == output[n - 1]@);
        assert(all_read(output[n - 1], readings[n - 1]@));
        if output[n - 1].contributions.len() > 0 {
            law_decodable_outcomes_are_read_in_full(output[n - 1], readings[n - 1]@, 0);
        } else {
            assert(output[n - 1]@.1.len() == 0);
        }
    }
}

/// If a step has no faults and every item of its outcomes was decoded, then the first outcome is
/// handed over next and the others are kept, all of them with every contribution and every item.
pub proof fn law_decoded_outcomes_are_handed_over_in_full<M>(
    output: Vec<EncodedOutcome>,
    faults: Vec<(PeerId, Fault)>,
    readings: Readings,
    next: HbbftState,
    action: HbbftAction<M>,
    i: int,
    j: int,
)
    requires
        hbbft_step(
            HbbftState::Reading { output, faults },
            HbbftEvent::OutcomesRead(readings),
            next,
            action,
        ),
        faults.len() == 0,
        readings.len() == output.len(),
        forall|k: int| 0 <= k < output.len() ==> all_read(#[trigger] output[k], readings[k]@),
        output.len() > 0,
    ensures
        action matches HbbftAction::SendOutcome(outcome) && {
            &&& outcome.epoch == output[0].epoch
            &&& outcome.contributions.len() == output[0].contributions.len()
            &&& 0 <= i < output[0].contributions.len() ==> {
                &&& outcome.contributions[i].0 == output[0].contributions[i].0
                &&& outcome.contributions[i].1.len() == readings[0][i].len()
                &&& 0 <= j < readings[0][i].len() ==> {
                    &&& outcome.contributions[i].1[j].wallet == readings[0][i][j]->0.wallet
                    &&& outcome.contributions[i].1[j].encoded@ == readings[0][i][j]->0.encoded@
                }
            }
        },
        next matches HbbftState::Exchanging { rest } && {
            &&& rest.len() == output.len() - 1
            &&& forall|k: int|
                0 <= k < rest.len() ==> {
                    &&& (#[trigger] rest[k]).epoch == output[k + 1].epoch
                    &&& rest[k]@.1 == read_contributions(output[k + 1]@.1, readings[k + 1]@)
                }
        },
{
    let views = encoded_views(output@);
    lemma_no_reading_faults(output@, readings@, output.len() as int);
    assert(views.take(views.len() as int) =~= views);
    let outcomes = read_outcomes(views, readings@);
    assert(faults@ + reading_faults(views, readings@) =~= Seq::empty());
    assert(hands_over(outcomes, next, action));
    let outcome = action->SendOutcome_0;
    assert(all_read(output[0], readings[0]@));
    assert(outcome@ == (output[0].epoch, read_contributions(output[0]@.1, readings[0]@)));
    if output[0].contributions.len() == 0 {
        assert(output[0]@.1.len() == 0);
        assert(outcome@.1.len() == 0);
    } else {
        law_decodable_outcomes_are_read_in_full(output[0], readings[0]@, 0);
    }
    if 0 <= i < output[0].contributions.len() {
        law_decodable_outcomes_are_read_in_full(output[0], readings[0]@, i);
        assert(outcome@.1[i] == (outcome.contributions[i].0, item_views(
            outcome.contributions[i].1@,
        )));
        if 0 <= j < readings[0][i].len() {
            assert(item_views(outcome.contributions[i].1@)[j] == outcome.contributions[i].1[j]@);
        }
    }
    let rest = next->Exchanging_rest;
    assert(outcome_views(rest@) == outcomes.drop_first());
    assert(outcome_views(rest@).len() == rest.len());
    assert forall|k: int| 0 <= k < rest.len() implies {
        &&& (#[trigger] rest[k]).epoch == output[k + 1].epoch
        &&& rest[k]@.1 == read_contributions(output[k + 1]@.1, readings[k + 1]@)
    } by {
        assert(outcome_views(rest@)[k] == rest[k]@);
        assert(outcome_views(rest@)[k] == outcomes[k + 1]);
    }
}

/// The faults of a step are reported in full before anything that came to light later, and all of
/// its outcomes are kept for after that.
pub proof fn law_faults_of_a_step_are_reported_in_full<M>(
    output: Vec<EncodedOutcome>,
    faults: Vec<(PeerId, Fault)>,
    readings: Readings,
    next: HbbftState,
    action: HbbftAction<M>,
    i: int,
)
    requires
        hbbft_step(
            HbbftState::Reading { output, faults },
            HbbftEvent::OutcomesRead(readings),
            next,
            action,
        ),
        0 <= i < faults.len(),
    ensures
        action matches HbbftAction::ReportFaults(reported) && {
            &&& reported.len() >= faults.len()
            &&& reported[i] == faults[i]
        },
        next matches HbbftState::Reporting { rest } && {
            &&& rest.len() == output.len()
            &&& forall|k: int|
                0 <= k < rest.len() ==> (#[trigger] rest[k]).epoch == output[k].epoch
        },
{
    let views = encoded_views(output@);
    let rest = next->Reporting_rest;
    assert(outcome_views(rest@).len() == views.len());
    assert forall|k: int| 0 <= k < rest.len() implies (#[trigger] rest[k]).epoch
        == output[k].epoch by {
        assert(outcome_views(rest@)[k] == rest[k]@);
        assert(read_outcomes(views, readings@)[k].0 == views[k].0);
    }
}

/// The algorithm is called to handle each message of another member as it came, and to propose what
/// was received when no outcome is left to be handed over, and at no other time.
pub proof fn law_the_algorithm_is_called_as_events_ask<M>(state: HbbftState, event: HbbftEvent<M>)
    ensures
        state is Receiving ==> (event matches HbbftEvent::Message(peer, message) ==> calls(
            state,
            event,
        ) == Some(HbbftAction::Handle(peer, message))),
        state matches HbbftState::AwaitingProposal { rest } ==> (event matches HbbftEvent::Proposal(
            proposal,
        ) ==> if rest.len() == 0 {
            calls(state, event) == Some(HbbftAction::<M>::Propose(proposal))
        } else {
            calls(state, event) is None
        }),
        !(event is Message || event is Proposal) ==> calls(state, event) is None,
{
}

/// In every run, whatever step the algorithm has made, its messages are what is to be sent next and
/// its outcomes and faults are what is kept, all of them.
pub proof fn law_each_step_is_taken_in_full<M>(
    first: HbbftStep<M>,
    states: Seq<HbbftState>,
    events: Seq<HbbftEvent<M>>,
    made: Seq<Option<HbbftStep<M>>>,
    actions: Seq<HbbftAction<M>>,
    i: int,
)
    requires
        hbbft_run(first, states, events, made, actions),
        0 <= i < events.len(),
    ensures
        actions[0] == HbbftAction::SendMessages(first.messages),
        states[0] == (HbbftState::Sending { output: first.output, faults: first.faults }),
        made[i] matches Some(step) ==> {
            &&& actions[i + 1] == HbbftAction::SendMessages(step.messages)
            &&& states[i + 1] == (HbbftState::Sending { output: step.output, faults: step.faults })
        },
        made[i] is Some <==> calls(states[i], events[i]) is Some,
{
    assert(hbbft_move(states[i], events[i], made[i], states[i + 1], actions[i + 1]));
}

/// A message is handed on as it came, an outcome that is handed over is exchanged for a proposal, and
/// a proposal is proposed as it came once all outcomes are handed over; before that, the next outcome
/// is.
pub proof fn law_what_comes_in_is_passed_on<M>(
    state: HbbftState,
    event: HbbftEvent<M>,
    next: HbbftState,
    action: HbbftAction<M>,
    i: int,
)
    requires
        hbbft_step(state, event, next, action),
    ensures
        event matches HbbftEvent::Message(peer, message) ==> action == HbbftAction::Handle(
            peer,
            message,
        ),
        event is OutcomeSent ==> action is ReceiveProposal && outstanding(next) == outstanding(
            state,
        ),
        event matches HbbftEvent::Proposal(proposal) ==> (state matches
            HbbftState::AwaitingProposal { rest } && if rest.len() == 0 {
            action == HbbftAction::<M>::Propose(proposal)
        } else {
            &&& action matches HbbftAction::SendOutcome(outcome)
            &&& outcome@ == rest[0]@
            &&& next matches HbbftState::Exchanging { rest: others }
            &&& others.len() == rest.len() - 1
            &&& 0 <= i < others.len() ==> others[i]@ == rest[i + 1]@
        }),
        event is MessagesSent ==> unread(next) == unread(state),
{
    if let HbbftState::AwaitingProposal { rest } = state {
        assert(outcome_views(rest@).len() == rest.len());
        if rest.len() > 0 {
            assert(outcome_views(rest@)[0] == rest[0]@);
            if let HbbftState::Exchanging { rest: others } = next {
                assert(outcome_views(others@).len() == others.len());
                if 0 <= i < others.len() {
                    assert(outcome_views(others@)[i] == others[i]@);
                    assert(outcome_views(rest@)[i + 1] == rest[i + 1]@);
                }
            }
        }
    }
    if event is MessagesSent {
        assert(unread(next) =~= unread(state));
    }
}

} // verus!
