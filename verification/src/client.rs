//! The client of a benchmark run: it spends coins at a steady rate until it runs out of them.
//!
//! Waiting, spending and sending are left to whoever runs the client, who reports back what came
//! of it.

use crate::events::{submission, EventType, LogEvent, CLIENT};
use crate::federation::Amount;
use crate::node::UnexpectedEvent;
use vstd::prelude::*;

verus! {

/// Where the client stands.
pub enum ClientState {
    /// It waits until it is time for the next transaction.
    Waiting,
    /// It waits for the coins to spend.
    Selecting,
    /// It waits for the transaction that spends them.
    Reissuing,
    /// It waits until the transaction is sent.
    Sending { txid: [u8; 32] },
    /// It has run out of coins.
    Done,
}

/// What the client is told.
pub enum ClientEvent {
    /// It is time for the next transaction.
    Tick,
    /// Whether there are enough coins for it.
    CoinsSelected(bool),
    /// The transaction is made.
    Reissued([u8; 32]),
    /// The transaction was sent at this time.
    Sent(u128),
}

/// What the client wants done next.
pub enum ClientAction {
    /// Take coins worth this amount out of the wallet.
    SelectCoins(Amount),
    /// Make a transaction that spends the coins.
    Reissue,
    /// Send the transaction to the federation.
    SendTransaction,
    /// Record this event, and wait until it is time for the next transaction.
    Record(LogEvent),
    /// Stop.
    Stop,
}

/// The client waits for this kind of event.
pub open spec fn client_expects(state: ClientState, event: ClientEvent) -> bool {
    match state {
        ClientState::Waiting => event is Tick,
        ClientState::Selecting => event is CoinsSelected,
        ClientState::Reissuing => event is Reissued,
        ClientState::Sending { .. } => event is Sent,
        ClientState::Done => false,
    }
}

/// The event records that the client submitted a transaction.
pub open spec fn records_submission(event: LogEvent, txid: [u8; 32], time: u128) -> bool {
    &&& event.out_point.txid == txid
    &&& event.out_point.out_idx == 0
    &&& event.peer == CLIENT
    &&& event.action == EventType::Submitted
    &&& event.time == time
}

/// On `event` the client goes from `state` to `next`, and wants `action` done. It spends `payment`
/// in each transaction.
pub open spec fn client_step(
    payment: Amount,
    state: ClientState,
    event: ClientEvent,
    next: ClientState,
    action: ClientAction,
) -> bool {
    match (state, event) {
        (ClientState::Waiting, ClientEvent::Tick) => {
            &&& next is Selecting
            &&& action == ClientAction::SelectCoins(payment)
        },
        (ClientState::Selecting, ClientEvent::CoinsSelected(enough)) => if enough {
            next is Reissuing && action is Reissue
        } else {
            next is Done && action is Stop
        },
        (ClientState::Reissuing, ClientEvent::Reissued(txid)) => {
            &&& next == (ClientState::Sending { txid })
            &&& action is SendTransaction
        },
        (ClientState::Sending { txid }, ClientEvent::Sent(time)) => {
            &&& next is Waiting
            &&& action matches ClientAction::Record(log)
            &&& records_submission(log, txid, time)
        },
        _ => false,
    }
}

/// One step of the client.
pub fn run_client(payment: Amount, state: ClientState, event: ClientEvent) -> (result: Result<
    (ClientState, ClientAction),
    UnexpectedEvent,
>)
    ensures
        result is Ok <==> client_expects(state, event),
        result matches Ok((next, action)) ==> client_step(payment, state, event, next, action),
        state is Waiting && event is Tick ==> {
            &&& result matches Ok((next, ClientAction::SelectCoins(amount)))
            &&& next is Selecting
            &&& amount == payment
        },
        state is Selecting && event == ClientEvent::CoinsSelected(true) ==> result == Ok::<
            _,
            UnexpectedEvent,
        >((ClientState::Reissuing, ClientAction::Reissue)),
        state is Selecting && event == ClientEvent::CoinsSelected(false) ==> result == Ok::<
            _,
            UnexpectedEvent,
        >((ClientState::Done, ClientAction::Stop)),
        state is Reissuing ==> (event matches ClientEvent::Reissued(txid) ==> result == Ok::<
            _,
            UnexpectedEvent,
        >((ClientState::Sending { txid }, ClientAction::SendTransaction))),
        state matches ClientState::Sending { txid } ==> (event matches ClientEvent::Sent(time) ==> {
            &&& result matches Ok((next, ClientAction::Record(log)))
            &&& next is Waiting
            &&& log.out_point.txid == txid
            &&& log.out_point.out_idx == 0
            &&& log.peer == CLIENT
            &&& log.action is Submitted
            &&& log.time == time
        }),
        state is Done ==> result is Err,
{
    match (state, event) {
        (ClientState::Waiting, ClientEvent::Tick) => Ok(
            (ClientState::Selecting, ClientAction::SelectCoins(payment)),
        ),
        (ClientState::Selecting, ClientEvent::CoinsSelected(enough)) => {
            if enough {
                Ok((ClientState::Reissuing, ClientAction::Reissue))
            } else {
                Ok((ClientState::Done, ClientAction::Stop))
            }
        },
        (ClientState::Reissuing, ClientEvent::Reissued(txid)) => Ok(
            (ClientState::Sending { txid }, ClientAction::SendTransaction),
        ),
        (ClientState::Sending { txid }, ClientEvent::Sent(time)) => Ok(
            (ClientState::Waiting, ClientAction::Record(submission(txid, time))),
        ),
        _ => Err(UnexpectedEvent),
    }
}

/// A client that started in `states[0]` went through `states` on `events`, and wanted `actions`
/// done.
pub open spec fn client_run(
    payment: Amount,
    states: Seq<ClientState>,
    events: Seq<ClientEvent>,
    actions: Seq<ClientAction>,
) -> bool {
    &&& states.len() == events.len() + 1
    &&& actions.len() == events.len()
    &&& states[0] is Waiting
    &&& forall|i: int|
        #![trigger events[i]]
        0 <= i < events.len() ==> client_step(
            payment,
            states[i],
            events[i],
            states[i + 1],
            actions[i],
        )
}

/// The transactions that were made, in order.
pub open spec fn reissued(events: Seq<ClientEvent>) -> Seq<[u8; 32]>
    decreases events.len(),
{
    if events.len() == 0 {
        Seq::empty()
    } else {
        match events.last() {
            ClientEvent::Reissued(txid) => reissued(events.drop_last()).push(txid),
            _ => reissued(events.drop_last()),
        }
    }
}

/// How often there were enough coins.
pub open spec fn spent(events: Seq<ClientEvent>) -> nat
    decreases events.len(),
{
    if events.len() == 0 {
        0
    } else {
        spent(events.drop_last()) + if events.last() == ClientEvent::CoinsSelected(true) {
            1nat
        } else {
            0nat
        }
    }
}

/// The events that were recorded, in order.
pub open spec fn recorded(actions: Seq<ClientAction>) -> Seq<LogEvent>
    decreases actions.len(),
{
    if actions.len() == 0 {
        Seq::empty()
    } else {
        match actions.last() {
            ClientAction::Record(log) => recorded(actions.drop_last()).push(log),
            _ => recorded(actions.drop_last()),
        }
    }
}

/// The transaction that is made and not yet recorded.
pub open spec fn unrecorded(state: ClientState) -> Seq<[u8; 32]> {
    match state {
        ClientState::Sending { txid } => seq![txid],
        _ => Seq::empty(),
    }
}

/// Every transaction is recorded as submitted once and in order, and coins are spent once for every
/// transaction.
pub proof fn law_every_transaction_is_recorded(
    payment: Amount,
    states: Seq<ClientState>,
    events: Seq<ClientEvent>,
    actions: Seq<ClientAction>,
)
    requires
        client_run(payment, states, events, actions),
    ensures
        recorded(actions).map_values(|log: LogEvent| log.out_point.txid) + unrecorded(
            states.last(),
        ) == reissued(events),
        forall|i: int|
            0 <= i < recorded(actions).len() ==> {
                &&& (#[trigger] recorded(actions)[i]).action is Submitted
                &&& recorded(actions)[i].peer == CLIENT
                &&& recorded(actions)[i].out_point.out_idx == 0
            },
        spent(events) == reissued(events).len() + if states.last() is Reissuing {
            1int
        } else {
            0int
        },
    decreases events.len(),
{
    let txid = |log: LogEvent| log.out_point.txid;
    if events.len() == 0 {
        assert(recorded(actions).map_values(txid) + unrecorded(states.last()) =~= reissued(events));
    } else {
        let n = events.len() - 1;
        let (states0, events0, actions0) = (
            states.drop_last(),
            events.drop_last(),
            actions.drop_last(),
        );
        assert forall|i: int| #![trigger events0[i]] 0 <= i < events0.len() implies client_step(
            payment,
            states0[i],
            events0[i],
            states0[i + 1],
            actions0[i],
        ) by {
            assert(client_step(payment, states[i], events[i], states[i + 1], actions[i]));
        }
        law_every_transaction_is_recorded(payment, states0, events0, actions0);
        assert(client_step(payment, states[n], events[n], states[n + 1], actions[n]));
        assert(states0.last() == states[n]);
        assert(states.last() == states[n + 1]);
        assert(recorded(actions).map_values(txid) + unrecorded(states.last()) =~= reissued(events));
    }
}

/// The client stops when there are not enough coins for another transaction, and not before.
pub proof fn law_the_client_stops_without_coins(
    payment: Amount,
    states: Seq<ClientState>,
    events: Seq<ClientEvent>,
    actions: Seq<ClientAction>,
    i: int,
)
    requires
        client_run(payment, states, events, actions),
        0 <= i < events.len(),
    ensures
        actions[i] is Stop <==> events[i] == ClientEvent::CoinsSelected(false),
        actions[i] is Stop ==> i == events.len() - 1,
{
    assert(client_step(payment, states[i], events[i], states[i + 1], actions[i]));
    if actions[i] is Stop && i < events.len() - 1 {
        assert(client_step(
            payment,
            states[i + 1],
            events[i + 1],
            states[i + 2],
            actions[i + 1],
        ));
    }
}

/// The client takes a tick when it waits, then whether there are coins, then the transaction, then
/// when it was sent, each with whatever it says; and nothing once it is done.
pub proof fn law_the_client_waits_for_one_kind_of_event(state: ClientState, event: ClientEvent)
    ensures
        client_expects(state, event) <==> {
            ||| state is Waiting && event is Tick
            ||| state is Selecting && event is CoinsSelected
            ||| state is Reissuing && event is Reissued
            ||| state is Sending && event is Sent
        },
{
}

/// Whatever the client wants done, it takes the answer to it: after coins are asked for, whether
/// there are any; after a transaction is asked for, the transaction; after it is to be sent, the
/// time; and after a record, the next tick.
pub proof fn law_the_client_takes_every_answer(
    payment: Amount,
    state: ClientState,
    event: ClientEvent,
    next: ClientState,
    action: ClientAction,
    answer: ClientEvent,
)
    requires
        client_step(payment, state, event, next, action),
    ensures
        action is SelectCoins && answer is CoinsSelected ==> client_expects(next, answer),
        action is Reissue && answer is Reissued ==> client_expects(next, answer),
        action is SendTransaction && answer is Sent ==> client_expects(next, answer),
        action is Record && answer is Tick ==> client_expects(next, answer),
        action is Stop ==> !client_expects(next, answer),
{
}

/// In every run, coins are asked for at each tick and at no other time, and always for the whole
/// payment.
pub proof fn law_the_client_asks_for_the_payment(
    payment: Amount,
    states: Seq<ClientState>,
    events: Seq<ClientEvent>,
    actions: Seq<ClientAction>,
    i: int,
)
    requires
        client_run(payment, states, events, actions),
        0 <= i < events.len(),
    ensures
        events[i] is Tick <==> actions[i] is SelectCoins,
        actions[i] matches ClientAction::SelectCoins(amount) ==> amount == payment,
{
    assert(client_step(payment, states[i], events[i], states[i + 1], actions[i]));
}

/// In every run, each tick is followed by the answer on coins, and if there are enough, by the
/// transaction, by its being sent, and by the record of just that transaction at just that time.
pub proof fn law_each_round_records_its_transaction(
    payment: Amount,
    states: Seq<ClientState>,
    events: Seq<ClientEvent>,
    actions: Seq<ClientAction>,
    i: int,
)
    requires
        client_run(payment, states, events, actions),
        0 <= i < events.len(),
    ensures
        events[i] is Tick && i + 1 < events.len() ==> events[i + 1] is CoinsSelected,
        events[i] is CoinsSelected ==> i > 0 && actions[i - 1] is SelectCoins,
        events[i] == ClientEvent::CoinsSelected(true) ==> actions[i] is Reissue,
        events[i] is Reissued ==> {
            &&& i > 0
            &&& events[i - 1] == ClientEvent::CoinsSelected(true)
            &&& actions[i] is SendTransaction
        },
        events[i] matches ClientEvent::Sent(time) ==> {
            &&& i > 0
            &&& events[i - 1] matches ClientEvent::Reissued(txid)
            &&& actions[i] matches ClientAction::Record(log)
            &&& log.out_point.txid == txid
            &&& log.out_point.out_idx == 0
            &&& log.peer == 0xffff
            &&& log.action is Submitted
            &&& log.time == time
        },
        actions[i] is Record ==> events[i] is Sent,
{
    assert(client_step(payment, states[i], events[i], states[i + 1], actions[i]));
    if i > 0 {
        assert(client_step(payment, states[i - 1], events[i - 1], states[i], actions[i - 1]));
    }
    if i + 1 < events.len() {
        assert(client_step(payment, states[i + 1], events[i + 1], states[i + 2], actions[i + 1]));
    }
}

/// What the client has paid with in the first `n` events: the amounts that it asked for and that
/// were found.
pub open spec fn paid_out(events: Seq<ClientEvent>, actions: Seq<ClientAction>, n: int) -> nat
    decreases n,
{
    if n <= 1 {
        0
    } else {
        paid_out(events, actions, n - 1) + match (actions[n - 2], events[n - 1]) {
            (ClientAction::SelectCoins(amount), ClientEvent::CoinsSelected(true)) => amount as nat,
            _ => 0nat,
        }
    }
}

/// The client pays the same in each of its transactions: all that it has paid is the payment times
/// how often there were enough coins.
pub proof fn law_all_payments_are_alike(
    payment: Amount,
    states: Seq<ClientState>,
    events: Seq<ClientEvent>,
    actions: Seq<ClientAction>,
    n: int,
)
    requires
        client_run(payment, states, events, actions),
        0 <= n <= events.len(),
    ensures
        paid_out(events, actions, n) == spent(events.take(n)) * payment,
    decreases n,
{
    if n == 0 {
        assert(spent(events.take(0)) == 0);
    } else {
        law_all_payments_are_alike(payment, states, events, actions, n - 1);
        law_spending_is_counted(events.take(n - 1), events[n - 1]);
        assert(events.take(n) =~= events.take(n - 1).push(events[n - 1]));
        assert(client_step(payment, states[n - 1], events[n - 1], states[n], actions[n - 1]));
        if n > 1 {
            assert(client_step(
                payment,
                states[n - 2],
                events[n - 2],
                states[n - 1],
                actions[n - 2],
            ));
        }
        let before = spent(events.take(n - 1));
        assert((before + 1) * payment == before * payment + payment) by (nonlinear_arith);
    }
}

/// Coins are spent once more with every answer that there are enough, and with nothing else.
pub proof fn law_spending_is_counted(events: Seq<ClientEvent>, event: ClientEvent)
    ensures
        spent(Seq::empty()) == 0,
        event == ClientEvent::CoinsSelected(true) ==> spent(events.push(event)) == spent(events)
            + 1,
        event != ClientEvent::CoinsSelected(true) ==> spent(events.push(event)) == spent(events),
{
    assert(events.push(event).drop_last() =~= events);
}

/// Each record adds the event that it records, each transaction that is made is counted, and nothing
/// else is.
pub proof fn law_records_come_one_by_one(
    events: Seq<ClientEvent>,
    event: ClientEvent,
    actions: Seq<ClientAction>,
    action: ClientAction,
)
    ensures
        recorded(Seq::empty()).len() == 0,
        reissued(Seq::empty()).len() == 0,
        match action {
            ClientAction::Record(log) => recorded(actions.push(action)) == recorded(actions).push(
                log,
            ),
            _ => recorded(actions.push(action)) == recorded(actions),
        },
        match event {
            ClientEvent::Reissued(txid) => reissued(events.push(event)) == reissued(events).push(
                txid,
            ),
            _ => reissued(events.push(event)) == reissued(events),
        },
{
    assert(actions.push(action).drop_last() =~= actions);
    assert(events.push(event).drop_last() =~= events);
}

} // verus!
