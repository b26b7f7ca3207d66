//! What happens to the transactions of a benchmark run, and how it is recorded.

use crate::federation::{peers_spec, PeerId};
use vstd::prelude::*;

verus! {

/// The output of a transaction.
#[derive(Clone, Copy, Debug)]
pub struct OutPoint {
    pub txid: [u8; 32],
    pub out_idx: u64,
}

/// What tells one transaction output from another.
pub type OutPointView = (Seq<u8>, u64);

impl View for OutPoint {
    type V = OutPointView;

    open spec fn view(&self) -> OutPointView {
        (self.txid@, self.out_idx)
    }
}

/// What can happen to a transaction output.
#[derive(Clone, Copy, Debug, PartialEq, Eq, Structural)]
pub enum EventType {
    /// The client has submitted the transaction.
    Submitted,
    /// The federation has accepted the transaction, as one of its members sees it.
    Agreed,
    /// One of the members has the final e-cash tokens.
    Final,
}

/// Something has happened to a transaction output. The time is in nanoseconds since the start of
/// the benchmark.
#[derive(Clone, Copy, Debug)]
pub struct LogEvent {
    pub out_point: OutPoint,
    pub peer: PeerId,
    pub action: EventType,
    pub time: u128,
}

/// Stands for the client, which is not a member of the federation.
pub const CLIENT: PeerId = 0xffff;

/// The client is never mistaken for a member of the federation.
pub proof fn law_the_client_is_no_member(num_peers: u16)
    ensures
        !peers_spec(num_peers).contains(CLIENT),
{
}

/// Records that the client has submitted a transaction.
pub fn submission(txid: [u8; 32], time: u128) -> (event: LogEvent)
    ensures
        event.out_point.txid == txid,
        event.out_point.out_idx == 0,
        event.peer == CLIENT,
        event.action is Submitted,
        event.time == time,
{
    LogEvent {
        out_point: OutPoint { txid, out_idx: 0 },
        peer: CLIENT,
        action: EventType::Submitted,
        time,
    }
}

/// Collects the events of a run until it has as many as are expected.
pub struct LogCollector {
    pub logs: Vec<LogEvent>,
    pub expected: usize,
}

/// What came out of the channel of events takes the collector from `before` to `after`.
pub open spec fn collects(
    before: LogCollector,
    event: Option<LogEvent>,
    after: LogCollector,
) -> bool {
    &&& after.expected == before.expected
    &&& after.logs@ == match event {
        Some(log) => before.logs@.push(log),
        None => before.logs@,
    }
}

impl LogCollector {
    /// A collector without events.
    pub fn new(expected: usize) -> (collector: Self)
        ensures
            collector.logs@ == Seq::<LogEvent>::empty(),
            collector.expected == expected,
    {
        LogCollector { logs: Vec::new(), expected }
    }

    /// Takes what came out of the channel of events: an event, or nothing. Tells whether all the
    /// events are there.
    pub fn receive(&mut self, event: Option<LogEvent>) -> (complete: bool)
        ensures
            collects(*old(self), event, *final(self)),
            event matches Some(log) ==> final(self).logs@ == old(self).logs@.push(log),
            event is None ==> final(self).logs@ == old(self).logs@,
            final(self).expected == old(self).expected,
            complete == (final(self).logs.len() == final(self).expected),
    {
        match event {
            Some(log) => {
                self.logs.push(log);
            },
            None => {},
        }
        self.logs.len() == self.expected
    }
}

/// The events among what came out of a channel, in order.
pub open spec fn received_events(items: Seq<Option<LogEvent>>) -> Seq<LogEvent>
    decreases items.len(),
{
    if items.len() == 0 {
        Seq::empty()
    } else {
        match items.last() {
            Some(log) => received_events(items.drop_last()).push(log),
            None => received_events(items.drop_last()),
        }
    }
}

/// A collector that starts empty keeps every event, in the order in which they come, and goes on
/// expecting as many as it was told to.
pub proof fn law_the_collector_keeps_every_event(
    states: Seq<LogCollector>,
    items: Seq<Option<LogEvent>>,
)
    requires
        states.len() == items.len() + 1,
        states[0].logs@ == Seq::<LogEvent>::empty(),
        forall|i: int|
            #![trigger items[i]]
            0 <= i < items.len() ==> collects(states[i], items[i], states[i + 1]),
    ensures
        states.last().logs@ == received_events(items),
        states.last().expected == states[0].expected,
    decreases items.len(),
{
    if items.len() > 0 {
        let n = items.len() - 1;
        let (states0, items0) = (states.drop_last(), items.drop_last());
        assert forall|i: int| #![trigger items0[i]] 0 <= i < items0.len() implies collects(
            states0[i],
            items0[i],
            states0[i + 1],
        ) by {
            assert(collects(states[i], items[i], states[i + 1]));
        }
        law_the_collector_keeps_every_event(states0, items0);
        assert(collects(states[n], items[n], states[n + 1]));
        assert(states0.last() == states[n]);
    }
}

/// Outputs are told apart by their transaction and their index in it, and by nothing less.
pub proof fn law_out_points_are_told_apart(a: OutPoint, b: OutPoint)
    ensures
        a@ == b@ <==> a.txid@ == b.txid@ && a.out_idx == b.out_idx,
        a@.0 == a.txid@,
        a@.1 == a.out_idx,
{
}

/// Collecting an event makes the log one event longer and leaves what was collected before as it
/// is; collecting nothing changes nothing.
pub proof fn law_the_log_only_grows(
    before: LogCollector,
    event: Option<LogEvent>,
    after: LogCollector,
    i: int,
)
    requires
        collects(before, event, after),
    ensures
        0 <= i < before.logs.len() ==> i < after.logs.len() && after.logs[i] == before.logs[i],
        event is None ==> after.logs.len() == before.logs.len(),
        event matches Some(log) ==> after.logs.len() == before.logs.len() + 1 && after.logs[
            before.logs.len() as int
        ] == log,
        after.expected == before.expected,
{
}

/// If something comes out of the channel every time, the events are just that.
pub proof fn law_all_that_comes_is_an_event(items: Seq<Option<LogEvent>>, i: int)
    requires
        forall|j: int| 0 <= j < items.len() ==> #[trigger] items[j] is Some,
        0 <= i < items.len(),
    ensures
        received_events(items).len() == items.len(),
        Some(received_events(items)[i]) == items[i],
    decreases items.len(),
{
    let rest = items.drop_last();
    assert(items[items.len() - 1] is Some);
    assert forall|j: int| 0 <= j < rest.len() implies #[trigger] rest[j] is Some by {
        assert(items[j] is Some);
    }
    if i < rest.len() {
        law_all_that_comes_is_an_event(rest, i);
    } else if rest.len() > 0 {
        law_all_that_comes_is_an_event(rest, 0);
    } else {
        assert(received_events(rest).len() == 0);
    }
}

/// What comes next is the next event, if it is one, and nothing that came before changes.
pub proof fn law_events_come_one_by_one(items: Seq<Option<LogEvent>>, log: LogEvent)
    ensures
        received_events(Seq::empty()).len() == 0,
        received_events(items.push(None)) == received_events(items),
        received_events(items.push(Some(log))) == received_events(items).push(log),
{
    assert(items.push(None).drop_last() =~= items);
    assert(items.push(Some(log)).drop_last() =~= items);
}

} // verus!
