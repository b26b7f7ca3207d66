//! The Honey Badger instance of a member, and how it is called.

use crate::consensus::{
    calls, finished, given_out, handed_over, hbbft_expects, hbbft_run, hbbft_step,
    law_faults_are_reported_in_order, law_messages_are_sent_in_order,
    law_outcomes_are_handed_over_in_order, law_the_newest_proposal_is_contributed, noticed,
    outstanding, read_back, received, reported, sent_messages, spawn_hbbft, stepped_messages,
    unread, unreported, Fault, HbbftAction, HbbftEvent, HbbftState, HbbftStep, StepView,
};
use crate::federation::{ascending, lemma_peer_ids_are_ordered, PeerId};
use crate::items::{byte_strings, encode, encodings, ConsensusItem, EncodedOutcome};
use crate::network::Target;
use hbbft::crypto::{PublicKey, PublicKeySet, SecretKey, SecretKeyShare};
use hbbft::honey_badger::{HoneyBadger, Message};
use hbbft::NetworkInfo;
use rand::rngs::OsRng;
use std::collections::BTreeMap;
use vstd::prelude::*;

verus! {

/// A message of the consensus algorithm.
pub type ConsensusMessage = Message<PeerId>;

/// The consensus algorithm of one member. A contribution to it is a list of encoded items.
pub type Engine = HoneyBadger<Vec<Vec<u8>>, PeerId>;

/// An instance of the consensus algorithm. Its state is not modelled.
#[verifier::external_type_specification]
#[verifier::external_body]
#[verifier::reject_recursive_types(C)]
#[verifier::reject_recursive_types(N)]
pub struct ExHoneyBadger<C, N>(HoneyBadger<C, N>);

/// A message of the consensus algorithm. Its content is not modelled.
#[verifier::external_type_specification]
#[verifier::external_body]
#[verifier::reject_recursive_types(N)]
pub struct ExMessage<N>(Message<N>);

/// The keys of the federation and of one member, as the algorithm takes them.
#[verifier::external_type_specification]
#[verifier::external_body]
#[verifier::reject_recursive_types(N)]
pub struct ExNetworkInfo<N>(NetworkInfo<N>);

/// The reasons for which the consensus algorithm can fail. They are not modelled.
#[verifier::external_type_specification]
#[verifier::external_body]
pub struct ExHbbftError(hbbft::honey_badger::Error);

/// The operating system's random number generator.
#[verifier::external_type_specification]
#[verifier::external_body]
pub struct ExOsRng(OsRng);

/// The public key of one member.
#[verifier::external_type_specification]
#[verifier::external_body]
pub struct ExPublicKey(PublicKey);

/// The public keys of the federation as a whole.
#[verifier::external_type_specification]
#[verifier::external_body]
pub struct ExPublicKeySet(PublicKeySet);

/// The secret key of one member.
#[verifier::external_type_specification]
#[verifier::external_body]
pub struct ExSecretKey(SecretKey);

/// One member's share of the federation's secret key.
#[verifier::external_type_specification]
#[verifier::external_body]
pub struct ExSecretKeyShare(SecretKeyShare);

/// What one member knows of the federation's keys.
pub struct MemberKeys {
    pub identity: PeerId,
    pub secret_key_share: SecretKeyShare,
    pub public_key_set: PublicKeySet,
    pub secret_key: SecretKey,
    /// The public keys of all members.
    pub public_keys: BTreeMap<PeerId, PublicKey>,
}

impl MemberKeys {
    /// What the algorithm takes these keys as.
    pub open spec fn info(self) -> NetworkInfo<PeerId> {
        network_info(
            self.identity,
            self.secret_key_share,
            self.public_key_set,
            self.secret_key,
            self.public_keys@,
        )
    }
}

/// What `NetworkInfo::new` makes of the keys of a member.
pub uninterp spec fn network_info(
    identity: PeerId,
    secret_key_share: SecretKeyShare,
    public_key_set: PublicKeySet,
    secret_key: SecretKey,
    public_keys: Map<PeerId, PublicKey>,
) -> NetworkInfo<PeerId>;

/// What `NetworkInfo::public_key_set` gives.
pub uninterp spec fn key_set(info: NetworkInfo<PeerId>) -> PublicKeySet;

/// What `NetworkInfo::is_validator` gives.
pub uninterp spec fn is_validator(info: NetworkInfo<PeerId>) -> bool;

/// Calls `NetworkInfo::new`, which panics without any member. The same keys make the same result.
/// It holds the key set as it was given, and the node is a validator if it is one of the members.
#[verifier::external_body]
fn make_network_info(keys: MemberKeys) -> (info: NetworkInfo<PeerId>)
    requires
        keys.public_keys@.len() > 0,
    ensures
        info == network_info(
            keys.identity,
            keys.secret_key_share,
            keys.public_key_set,
            keys.secret_key,
            keys.public_keys@,
        ),
        key_set(info) == keys.public_key_set,
        is_validator(info) == keys.public_keys@.contains_key(keys.identity),
{
    NetworkInfo::new(
        keys.identity,
        keys.secret_key_share,
        keys.public_key_set,
        keys.secret_key,
        keys.public_keys,
    )
}

/// The key set is not equal to that of the zero polynomial, which is the only one without a master
/// key.
pub uninterp spec fn has_master_key(set: PublicKeySet) -> bool;

/// Compares a key set with that of `Poly::zero`, by `PublicKeySet`'s own equality. That polynomial
/// has no coefficients, and a key set's master key is the first one.
#[verifier::external_body]
fn check_master_key(set: &PublicKeySet) -> (ok: bool)
    ensures
        ok == has_master_key(*set),
{
    *set != PublicKeySet::from(hbbft::crypto::poly::Poly::zero().commitment())
}

/// `HoneyBadger::propose` does not panic on the instance: it was made by
/// `HoneyBadgerBuilder::build` with everything but the keys left as the builder has it, for a node
/// that is no validator or on keys with a master key, and has since done nothing but propose and
/// handle messages. On other instances the algorithm can divide by zero, for an encryption schedule
/// of no epochs, or have nothing to encrypt with.
pub uninterp spec fn proposable(engine: Engine) -> bool;

/// `HoneyBadger::handle_message` does not panic on the instance either: the same holds of it, and
/// its keys have a master key. Without one the algorithm can fail to combine the shares of other
/// members, be the node a validator or not.
pub uninterp spec fn operable(engine: Engine) -> bool;

/// The instance that `HoneyBadgerBuilder::build` makes for the given keys.
pub uninterp spec fn fresh_engine(info: NetworkInfo<PeerId>) -> Engine;

/// Calls `HoneyBadgerBuilder::build`, with everything but the keys left as the builder has it. The
/// same keys make the same instance.
#[verifier::external_body]
fn build_engine(info: NetworkInfo<PeerId>) -> (engine: Engine)
    ensures
        engine == fresh_engine(info),
        !is_validator(info) || has_master_key(key_set(info)) ==> proposable(engine),
        has_master_key(key_set(info)) ==> operable(engine),
{
    HoneyBadger::builder(std::sync::Arc::new(info)).build()
}

/// In every outcome the contributions are sorted by member, with at most one of each.
pub open spec fn sorted_by_member(step: StepView<ConsensusMessage>) -> bool {
    forall|i: int|
        0 <= i < step.0.len() ==> ascending(
            (#[trigger] step.0[i]).1.map_values(|c: (PeerId, Seq<Seq<u8>>)| c.0),
        )
}

/// The step that a call of the algorithm has made, if it has not failed.
pub open spec fn made_step(
    result: Result<HbbftStep<ConsensusMessage>, hbbft::honey_badger::Error>,
) -> Option<StepView<ConsensusMessage>> {
    match result {
        Ok(step) => Some(step@),
        Err(_) => None,
    }
}

/// `HoneyBadger::propose` can make `step`, or fail if that is `None`, and leave the instance as
/// `after`. It encrypts with random numbers, so that more than one step is possible.
pub uninterp spec fn can_propose(
    engine: Engine,
    contribution: Seq<Seq<u8>>,
    step: Option<StepView<ConsensusMessage>>,
    after: Engine,
) -> bool;

/// Calls `HoneyBadger::propose` on an instance that it does not panic on, and leaves such an
/// instance. The step is one of those that are possible for the instance and
/// the contribution; which one is left to chance. The contributions of an epoch come sorted by
/// member, as they are in the map that the algorithm keeps them in.
#[verifier::external_body]
fn propose(engine: &mut Engine, contribution: &Vec<Vec<u8>>, rng: &mut OsRng) -> (result: Result<
    HbbftStep<ConsensusMessage>,
    hbbft::honey_badger::Error,
>)
    requires
        proposable(*old(engine)),
    ensures
        proposable(*final(engine)),
        operable(*old(engine)) ==> operable(*final(engine)),
        can_propose(
            *old(engine),
            byte_strings(contribution@),
            made_step(result),
            *final(engine),
        ),
        result matches Ok(step) ==> sorted_by_member(step@),
{
    let s = engine.propose(contribution, rng)?;
    let to_outcome = |b: hbbft::honey_badger::Batch<Vec<Vec<u8>>, PeerId>| EncodedOutcome {
        epoch: b.epoch,
        contributions: b.contributions.into_iter().collect(),
    };
    let output = s.output.into_iter().map(to_outcome).collect();
    let faults = s.fault_log.into_iter().map(|f| (f.node_id, Fault::Algorithm(f.kind))).collect();
    let messages = s.messages.into_iter().map(|m| match m.target {
        hbbft::Target::All => (Target::All, m.message),
        hbbft::Target::Node(peer) => (Target::Node(peer), m.message),
    });
    Ok(HbbftStep { output, faults, messages: messages.collect() })
}

/// What `HoneyBadger::handle_message` does: the step that it makes, or `None` if it fails, and the
/// instance that it leaves behind.
pub uninterp spec fn handled(
    engine: Engine,
    sender: PeerId,
    message: ConsensusMessage,
) -> (Option<StepView<ConsensusMessage>>, Engine);

/// Calls `HoneyBadger::handle_message` on an instance that it does not panic on, and leaves such an
/// instance. It draws no random numbers: the same instance makes the same step of the same message.
/// The contributions of an epoch come sorted by member, as they are
/// in the map that the algorithm keeps them in.
#[verifier::external_body]
fn handle_message(engine: &mut Engine, sender: PeerId, message: ConsensusMessage) -> (result:
    Result<HbbftStep<ConsensusMessage>, hbbft::honey_badger::Error>)
    requires
        operable(*old(engine)),
    ensures
        operable(*final(engine)),
        proposable(*final(engine)),
        (made_step(result), *final(engine)) == handled(*old(engine), sender, message),
        result matches Ok(step) ==> sorted_by_member(step@),
{
    let s = engine.handle_message(&sender, message)?;
    let to_outcome = |b: hbbft::honey_badger::Batch<Vec<Vec<u8>>, PeerId>| EncodedOutcome {
        epoch: b.epoch,
        contributions: b.contributions.into_iter().collect(),
    };
    let output = s.output.into_iter().map(to_outcome).collect();
    let faults = s.fault_log.into_iter().map(|f| (f.node_id, Fault::Algorithm(f.kind))).collect();
    let messages = s.messages.into_iter().map(|m| match m.target {
        hbbft::Target::All => (Target::All, m.message),
        hbbft::Target::Node(peer) => (Target::Node(peer), m.message),
    });
    Ok(HbbftStep { output, faults, messages: messages.collect() })
}

/// Why consensus cannot go on.
#[derive(Debug, PartialEq, Eq)]
pub enum ConsensusError {
    /// The algorithm has failed.
    Algorithm,
    /// The event does not fit the state that consensus is in.
    UnexpectedEvent,
}

/// Why consensus cannot start.
#[derive(Debug, PartialEq, Eq)]
pub enum KeyError {
    /// The federation has no members.
    NoMembers,
    /// The node is a member, and the federation's public keys lack the master key.
    NoMasterKey,
}

/// What comes of a step of consensus: where it stands then, and what it wants done.
pub type Progress = Result<(HbbftState, HbbftAction<ConsensusMessage>), ConsensusError>;

/// Consensus goes on with what the algorithm has given: the messages of its step are sent next,
/// and the outcomes and faults in it are kept for later. It cannot go on if the algorithm has
/// failed.
pub open spec fn goes_on_with(
    step: Option<StepView<ConsensusMessage>>,
    progress: Progress,
) -> bool {
    match (step, progress) {
        (Some(step), Ok((next, action))) => exists|s: HbbftStep<ConsensusMessage>|
            s@ == step && #[trigger] hbbft_step(
                HbbftState::Stepping,
                HbbftEvent::Step(s),
                next,
                action,
            ),
        (None, Err(error)) => error is Algorithm,
        _ => false,
    }
}

/// The algorithm, called as consensus wants it to be, can make `step`, or fail if that is `None`,
/// and leave the instance as `after`. The contributions in the step's outcomes are sorted.
pub open spec fn can_make(
    engine: Engine,
    call: HbbftAction<ConsensusMessage>,
    step: Option<StepView<ConsensusMessage>>,
    after: Engine,
) -> bool {
    &&& match call {
        HbbftAction::Propose(items) => can_propose(engine, encodings(items@), step, after),
        HbbftAction::Handle(sender, message) => (step, after) == handled(engine, sender, message),
        _ => false,
    }
    &&& step matches Some(step) ==> sorted_by_member(step)
}

/// The algorithm was called, and consensus goes on with one of the steps that are possible.
pub open spec fn has_called(
    engine: Engine,
    call: HbbftAction<ConsensusMessage>,
    after: Engine,
    progress: Progress,
) -> bool {
    exists|step: Option<StepView<ConsensusMessage>>| #[trigger]
        can_make(engine, call, step, after) && goes_on_with(step, progress)
}

/// On `event` consensus goes on from `state`, with the call of the algorithm carried out that
/// `event` may lead to.
pub open spec fn advances(
    engine: Engine,
    state: HbbftState,
    event: HbbftEvent<ConsensusMessage>,
    after: Engine,
    progress: Progress,
) -> bool {
    match calls(state, event) {
        Some(call) => has_called(engine, call, after, progress),
        None => {
            &&& after == engine
            &&& match progress {
                Ok((next, action)) => hbbft_step(state, event, next, action),
                Err(error) => error is UnexpectedEvent && !hbbft_expects(state, event),
            }
        },
    }
}

/// Goes on with what the algorithm has given. This is all that follows a call of it.
pub fn go_on(
    called: Result<HbbftStep<ConsensusMessage>, hbbft::honey_badger::Error>,
) -> (progress: Progress)
    ensures
        goes_on_with(made_step(called), progress),
{
    match called {
        Ok(step) => match spawn_hbbft(HbbftState::Stepping, HbbftEvent::Step(step)) {
            Ok(result) => Ok(result),
            Err(_) => Err(ConsensusError::UnexpectedEvent),
        },
        Err(_) => Err(ConsensusError::Algorithm),
    }
}

/// One member's part in consensus: an instance of the algorithm that nothing else can get at.
pub struct Consensus {
    engine: Engine,
    /// Whether the federation's keys have a master key.
    keyed: bool,
}

impl Consensus {
    #[verifier::type_invariant]
    spec fn well_formed(self) -> bool {
        &&& proposable(self.engine)
        &&& self.keyed ==> operable(self.engine)
    }

    /// The instance of the algorithm.
    pub closed spec fn engine(self) -> Engine {
        self.engine
    }

    /// Whether messages of other members can be handled.
    pub closed spec fn keyed(self) -> bool {
        self.keyed
    }

    /// Whether messages of other members can be handled. They can unless consensus was started on
    /// keys without a master key, for a node that only looks on.
    pub fn is_keyed(&self) -> (keyed: bool)
        ensures
            keyed == self.keyed(),
    {
        self.keyed
    }
}

/// Starts consensus for the node that the keys belong to, with `initial` as its contribution to the
/// first epoch. The algorithm cannot be run without members, nor by one of them without a master
/// key.
pub fn start_consensus(keys: MemberKeys, initial: Vec<ConsensusItem>, rng: &mut OsRng) -> (result:
    Result<(Consensus, Progress), KeyError>)
    ensures
        match result {
            Ok((consensus, progress)) => {
                &&& keys.public_keys@.len() > 0
                &&& !keys.public_keys@.contains_key(keys.identity) || has_master_key(
                    keys.public_key_set,
                )
                &&& consensus.keyed() == has_master_key(keys.public_key_set)
                &&& has_called(
                    fresh_engine(keys.info()),
                    HbbftAction::Propose(initial),
                    consensus.engine(),
                    progress,
                )
            },
            Err(KeyError::NoMembers) => keys.public_keys@.len() == 0,
            Err(KeyError::NoMasterKey) => keys.public_keys@.contains_key(keys.identity)
                && !has_master_key(keys.public_key_set),
        },
{
    proof {
        lemma_peer_ids_are_ordered();
    }
    if keys.public_keys.len() == 0 {
        return Err(KeyError::NoMembers);
    }
    let keyed = check_master_key(&keys.public_key_set);
    if !keyed && keys.public_keys.contains_key(&keys.identity) {
        return Err(KeyError::NoMasterKey);
    }
    let ghost info = keys.info();
    let mut engine = build_engine(make_network_info(keys));
    let called = propose(&mut engine, &encode(initial), rng);
    assert(can_make(
        fresh_engine(info),
        HbbftAction::Propose(initial),
        made_step(called),
        engine,
    ));
    let progress = go_on(called);
    Ok((Consensus { engine, keyed }, progress))
}

/// One step of running consensus, with the calls of the algorithm carried out. It is called to
/// handle a message of another member, and to propose what the last outcome of a step was
/// exchanged for. Without a master key the algorithm can panic on a message.
pub fn advance_consensus(
    consensus: Consensus,
    rng: &mut OsRng,
    state: HbbftState,
    event: HbbftEvent<ConsensusMessage>,
) -> (result: (Consensus, Progress))
    requires
        calls(state, event) matches Some(call) && call is Handle ==> consensus.keyed(),
    ensures
        advances(consensus.engine(), state, event, result.0.engine(), result.1),
        result.0.keyed() == consensus.keyed(),
{
    proof {
        use_type_invariant(&consensus);
    }
    let ghost before = consensus.engine;
    let keyed = consensus.keyed;
    let mut engine = consensus.engine;
    match spawn_hbbft(state, event) {
        Ok((next, action)) => match action {
            HbbftAction::Propose(items) => {
                let called = propose(&mut engine, &encode(items), rng);
                assert(can_make(before, HbbftAction::Propose(items), made_step(called), engine));
                (Consensus { engine, keyed }, go_on(called))
            },
            HbbftAction::Handle(sender, message) => {
                let called = handle_message(&mut engine, sender, message);
                assert(can_make(
                    before,
                    HbbftAction::Handle(sender, message),
                    made_step(called),
                    engine,
                ));
                (Consensus { engine, keyed }, go_on(called))
            },
            action => (Consensus { engine, keyed }, Ok((next, action))),
        },
        Err(_) => (Consensus { engine, keyed }, Err(ConsensusError::UnexpectedEvent)),
    }
}

/// Consensus was started on `info` with the contribution `initial`, which brought it to
/// `states[0]` and made it want `actions[0]`. It was then advanced on `events`, went through
/// `states`, and wanted `actions` done. The instance went through `engines`.
pub open spec fn consensus_run(
    info: NetworkInfo<PeerId>,
    initial: Vec<ConsensusItem>,
    engines: Seq<Engine>,
    states: Seq<HbbftState>,
    events: Seq<HbbftEvent<ConsensusMessage>>,
    actions: Seq<HbbftAction<ConsensusMessage>>,
) -> bool {
    &&& engines.len() == events.len() + 1
    &&& states.len() == events.len() + 1
    &&& actions.len() == events.len() + 1
    &&& has_called(
        fresh_engine(info),
        HbbftAction::Propose(initial),
        engines[0],
        Ok((states[0], actions[0])),
    )
    &&& forall|i: int|
        #![trigger events[i]]
        0 <= i < events.len() ==> advances(
            engines[i],
            states[i],
            events[i],
            engines[i + 1],
            Ok((states[i + 1], actions[i + 1])),
        )
}

/// `first` and `made` are steps that the algorithm can make when it is called as consensus wants
/// it to be: to propose `initial` first, and then whenever an event leads to a call.
pub open spec fn made_by_algorithm(
    info: NetworkInfo<PeerId>,
    initial: Vec<ConsensusItem>,
    engines: Seq<Engine>,
    states: Seq<HbbftState>,
    events: Seq<HbbftEvent<ConsensusMessage>>,
    first: HbbftStep<ConsensusMessage>,
    made: Seq<Option<HbbftStep<ConsensusMessage>>>,
) -> bool {
    &&& can_make(fresh_engine(info), HbbftAction::Propose(initial), Some(first@), engines[0])
    &&& forall|i: int|
        #![trigger events[i]]
        0 <= i < events.len() ==> match (calls(states[i], events[i]), made[i]) {
            (Some(call), Some(step)) => can_make(engines[i], call, Some(step@), engines[i + 1]),
            (None, None) => engines[i + 1] == engines[i],
            _ => false,
        }
}

/// All that the steps have given is accounted for: every message is sent, every outcome is decoded
/// and handed over, and every fault is reported, once and in order, up to what is still to be done.
/// What is proposed is always the newest proposal, after all outcomes are handed over.
pub open spec fn accounted_for(
    states: Seq<HbbftState>,
    events: Seq<HbbftEvent<ConsensusMessage>>,
    actions: Seq<HbbftAction<ConsensusMessage>>,
    first: HbbftStep<ConsensusMessage>,
    made: Seq<Option<HbbftStep<ConsensusMessage>>>,
) -> bool {
    &&& sent_messages(actions) == stepped_messages(first, made)
    &&& given_out(states, events) + unread(states.last()) == finished(first, made)
    &&& handed_over(actions) + outstanding(states.last()) == read_back(states, events)
    &&& reported(actions) + unreported(states.last()) == noticed(first, states, events, made)
    &&& forall|i: int|
        #![trigger events[i]]
        0 <= i < events.len() ==> match calls(states[i], events[i]) {
            Some(HbbftAction::Propose(proposal)) => {
                &&& received(events.take(i + 1)).len() > 0
                &&& proposal == received(events.take(i + 1)).last()
                &&& given_out(states, events.take(i)) == finished(first, made.take(i))
                &&& handed_over(actions.take(i + 1)) == read_back(states, events.take(i))
            },
            _ => true,
        }
}

/// Consensus can have gone on with this step.
spec fn explains(
    engine: Engine,
    call: HbbftAction<ConsensusMessage>,
    step: HbbftStep<ConsensusMessage>,
    after: Engine,
    next: HbbftState,
    action: HbbftAction<ConsensusMessage>,
) -> bool {
    &&& can_make(engine, call, Some(step@), after)
    &&& hbbft_step(HbbftState::Stepping, HbbftEvent::Step(step), next, action)
}

proof fn lemma_explained(
    engine: Engine,
    call: HbbftAction<ConsensusMessage>,
    after: Engine,
    next: HbbftState,
    action: HbbftAction<ConsensusMessage>,
) -> (step: HbbftStep<ConsensusMessage>)
    requires
        has_called(engine, call, after, Ok((next, action))),
    ensures
        explains(engine, call, step, after, next, action),
{
    let progress: Progress = Ok((next, action));
    let view = choose|view: Option<StepView<ConsensusMessage>>| #[trigger]
        can_make(engine, call, view, after) && goes_on_with(view, progress);
    choose|s: HbbftStep<ConsensusMessage>|
        s@ == view->0 && #[trigger] hbbft_step(
            HbbftState::Stepping,
            HbbftEvent::Step(s),
            next,
            action,
        )
}

/// However consensus is run, there are steps that the algorithm can have made in the course of it,
/// and all that they have given is accounted for.
pub proof fn law_runs_account_for_all_steps(
    info: NetworkInfo<PeerId>,
    initial: Vec<ConsensusItem>,
    engines: Seq<Engine>,
    states: Seq<HbbftState>,
    events: Seq<HbbftEvent<ConsensusMessage>>,
    actions: Seq<HbbftAction<ConsensusMessage>>,
)
    requires
        consensus_run(info, initial, engines, states, events, actions),
    ensures
        exists|
            first: HbbftStep<ConsensusMessage>,
            made: Seq<Option<HbbftStep<ConsensusMessage>>>,
        |
            made_by_algorithm(info, initial, engines, states, events, first, made)
                && #[trigger] hbbft_run(first, states, events, made, actions) && accounted_for(
                states,
                events,
                actions,
                first,
                made,
            ),
{
    let first = lemma_explained(
        fresh_engine(info),
        HbbftAction::Propose(initial),
        engines[0],
        states[0],
        actions[0],
    );
    let made = Seq::new(
        events.len(),
        |i: int|
            match calls(states[i], events[i]) {
                Some(call) => Some(
                    choose|step: HbbftStep<ConsensusMessage>| #[trigger]
                        explains(
                            engines[i],
                            call,
                            step,
                            engines[i + 1],
                            states[i + 1],
                            actions[i + 1],
                        ),
                ),
                None => None,
            },
    );
    assert forall|i: int| #![trigger events[i]] 0 <= i < events.len() implies {
        &&& crate::consensus::hbbft_move(
            states[i],
            events[i],
            made[i],
            states[i + 1],
            actions[i + 1],
        )
        &&& match (calls(states[i], events[i]), made[i]) {
            (Some(call), Some(step)) => can_make(engines[i], call, Some(step@), engines[i + 1]),
            (None, None) => engines[i + 1] == engines[i],
            _ => false,
        }
    } by {
        let progress: Progress = Ok((states[i + 1], actions[i + 1]));
        assert(advances(engines[i], states[i], events[i], engines[i + 1], progress));
        match calls(states[i], events[i]) {
            Some(call) => {
                let step = lemma_explained(
                    engines[i],
                    call,
                    engines[i + 1],
                    states[i + 1],
                    actions[i + 1],
                );
                assert(explains(
                    engines[i],
                    call,
                    made[i]->0,
                    engines[i + 1],
                    states[i + 1],
                    actions[i + 1],
                ));
            },
            None => {},
        }
    }
    assert(hbbft_run(first, states, events, made, actions));
    law_messages_are_sent_in_order(first, states, events, made, actions);
    law_outcomes_are_handed_over_in_order(first, states, events, made, actions);
    law_faults_are_reported_in_order(first, states, events, made, actions);
    assert forall|i: int| #![trigger events[i]] 0 <= i < events.len() implies match calls(
        states[i],
        events[i],
    ) {
        Some(HbbftAction::Propose(proposal)) => {
            &&& received(events.take(i + 1)).len() > 0
            &&& proposal == received(events.take(i + 1)).last()
            &&& given_out(states, events.take(i)) == finished(first, made.take(i))
            &&& handed_over(actions.take(i + 1)) == read_back(states, events.take(i))
        },
        _ => true,
    } by {
        if calls(states[i], events[i]) matches Some(call) && call is Propose {
            law_the_newest_proposal_is_contributed(first, states, events, made, actions, i);
        }
    }
}

/// The algorithm takes a member's keys as they are.
pub proof fn law_keys_are_taken_as_they_are(keys: MemberKeys)
    ensures
        keys.info() == network_info(
            keys.identity,
            keys.secret_key_share,
            keys.public_key_set,
            keys.secret_key,
            keys.public_keys@,
        ),
{
}

/// A call that did not fail has made the step that it gave, in full.
pub proof fn law_a_made_step_is_whole(
    step: HbbftStep<ConsensusMessage>,
    error: hbbft::honey_badger::Error,
)
    ensures
        made_step(Ok(step)) matches Some(made) && {
            &&& made.0.len() == step.output.len()
            &&& made.1 == step.faults@
            &&& made.2 == step.messages@
        },
        made_step(Err(error)) is None,
{
}

/// What consensus goes on with is all that the algorithm has given: every message is sent next, and
/// every outcome and every fault is kept. If the algorithm has failed, that is the error.
pub proof fn law_consensus_goes_on_with_all_of_a_step(
    step: Option<StepView<ConsensusMessage>>,
    progress: Progress,
    i: int,
)
    requires
        goes_on_with(step, progress),
    ensures
        step is None ==> progress == Err::<
            (HbbftState, HbbftAction<ConsensusMessage>),
            ConsensusError,
        >(ConsensusError::Algorithm),
        step matches Some(given) ==> (progress matches Ok((
            HbbftState::Sending { output, faults },
            HbbftAction::SendMessages(messages),
        )) && {
            &&& messages@ == given.2
            &&& faults@ == given.1
            &&& output.len() == given.0.len()
            &&& 0 <= i < output.len() ==> output[i]@ == given.0[i]
        }),
{
    if step is Some {
        let given = step->0;
        let (next, action) = progress->Ok_0;
        let s = choose|s: HbbftStep<ConsensusMessage>|
            s@ == given && #[trigger] hbbft_step(
                HbbftState::Stepping,
                HbbftEvent::Step(s),
                next,
                action,
            );
        assert(s@.0.len() == s.output.len());
        if 0 <= i < s.output.len() {
            assert(s@.0[i] == s.output[i]@);
        }
    }
}

/// A message is handled as it came, from the member that it came from: the instance that is left
/// behind and all that is gone on with are what the algorithm makes of it.
pub proof fn law_messages_are_handled_as_they_came(
    engine: Engine,
    sender: PeerId,
    message: ConsensusMessage,
    after: Engine,
    progress: Progress,
)
    requires
        advances(
            engine,
            HbbftState::Receiving,
            HbbftEvent::Message(sender, message),
            after,
            progress,
        ),
    ensures
        after == handled(engine, sender, message).1,
        handled(engine, sender, message).0 is None <==> progress is Err,
        progress is Err ==> progress->Err_0 is Algorithm,
        handled(engine, sender, message).0 matches Some(given) ==> (progress matches Ok((
            HbbftState::Sending { output, faults },
            HbbftAction::SendMessages(messages),
        )) && {
            &&& messages@ == given.2
            &&& faults@ == given.1
            &&& output.len() == given.0.len()
            &&& forall|i: int| 0 <= i < output.len() ==> (#[trigger] output[i])@ == given.0[i]
        }),
{
    let call = HbbftAction::Handle(sender, message);
    let step = choose|step: Option<StepView<ConsensusMessage>>| #[trigger]
        can_make(engine, call, step, after) && goes_on_with(step, progress);
    law_consensus_goes_on_with_all_of_a_step(step, progress, 0);
    if step is Some {
        let (next, action) = progress->Ok_0;
        let output = next->Sending_output;
        let given = step->0;
        assert forall|i: int| 0 <= i < output.len() implies (#[trigger] output[i])@
            == given.0[i] by {
            law_consensus_goes_on_with_all_of_a_step(step, progress, i);
        }
    }
}

/// What the algorithm is made to propose is every item that was to be proposed, with all its bytes,
/// in order; and all of a step that it can make of that is gone on with.
pub proof fn law_all_items_are_proposed(
    engine: Engine,
    items: Vec<ConsensusItem>,
    after: Engine,
    progress: Progress,
)
    requires
        has_called(engine, HbbftAction::Propose(items), after, progress),
    ensures
        exists|contribution: Seq<Seq<u8>>, step: Option<StepView<ConsensusMessage>>| #[trigger]
            can_propose(engine, contribution, step, after) && {
                &&& contribution.len() == items.len()
                &&& forall|i: int|
                    0 <= i < items.len() ==> #[trigger] contribution[i] == items[i].encoded@
                &&& step is None <==> progress is Err
                &&& step matches Some(given) ==> (progress matches Ok((
                    HbbftState::Sending { output, faults },
                    HbbftAction::SendMessages(messages),
                )) && messages@ == given.2 && faults@ == given.1 && output.len() == given.0.len())
            },
{
    let step = choose|step: Option<StepView<ConsensusMessage>>| #[trigger]
        can_make(engine, HbbftAction::Propose(items), step, after) && goes_on_with(step, progress);
    law_consensus_goes_on_with_all_of_a_step(step, progress, 0);
    let contribution = encodings(items@);
    assert(can_propose(engine, contribution, step, after));
}

/// Advancing consensus proposes what was received if no outcome is left to be handed over, and
/// without a call of the algorithm leaves its instance alone.
pub proof fn law_consensus_advances_as_events_ask(
    engine: Engine,
    state: HbbftState,
    event: HbbftEvent<ConsensusMessage>,
    after: Engine,
    progress: Progress,
)
    requires
        advances(engine, state, event, after, progress),
    ensures
        state matches HbbftState::AwaitingProposal { rest } ==> (event matches HbbftEvent::Proposal(
            proposal,
        ) ==> (rest.len() == 0 ==> has_called(
            engine,
            HbbftAction::Propose(proposal),
            after,
            progress,
        ))),
        !(event is Message || event is Proposal) ==> after == engine,
        !(event is Message || event is Proposal) ==> match progress {
            Ok((next, action)) => hbbft_step(state, event, next, action),
            Err(error) => error is UnexpectedEvent && !hbbft_expects(state, event),
        },
{
}

/// In every outcome of a sorted step a member that comes before another one has the lower number.
pub proof fn law_contributions_come_sorted(
    step: StepView<ConsensusMessage>,
    i: int,
    j: int,
    k: int,
)
    requires
        sorted_by_member(step),
        0 <= i < step.0.len(),
        0 <= j < k < step.0[i].1.len(),
    ensures
        step.0[i].1[j].0 < step.0[i].1[k].0,
{
    let members = step.0[i].1.map_values(|c: (PeerId, Seq<Seq<u8>>)| c.0);
    assert(ascending(members));
    assert(members[j] < members[k]);
}

} // verus!
