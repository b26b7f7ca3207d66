//! How long transactions take to be accepted, and until their e-cash tokens are received.

use crate::events::{EventType, LogEvent, OutPoint, OutPointView};
use crate::federation::{signing_threshold, threshold, tolerated_faults};
use crate::sequences::{lemma_filter_congruent, lemma_filter_members, lemma_filter_push};
use itertools::Itertools;
use vstd::prelude::*;

verus! {

/// How many nanoseconds lie between two points in time, or none if they are the other way round.
pub open spec fn elapsed_spec(from: u128, to: u128) -> u128 {
    if to > from {
        (to - from) as u128
    } else {
        0
    }
}

fn elapsed(from: u128, to: u128) -> (nanos: u128)
    ensures
        nanos == elapsed_spec(from, to),
{
    if to > from {
        to - from
    } else {
        0
    }
}

/// How many of the numbers are smaller than `x`.
pub open spec fn below(numbers: Seq<u128>, x: u128) -> nat {
    numbers.filter(|y: u128| y < x).len()
}

/// How many of the numbers are not larger than `x`.
pub open spec fn up_to(numbers: Seq<u128>, x: u128) -> nat {
    numbers.filter(|y: u128| y <= x).len()
}

/// `x` is the number that has exactly `k` of the numbers before it if they are put in order.
pub open spec fn is_nth_smallest(numbers: Seq<u128>, k: int, x: u128) -> bool {
    &&& numbers.contains(x)
    &&& below(numbers, x) <= k < up_to(numbers, x)
}

/// Inserting a number adds it to what a filter lets through, if it lets the number through.
proof fn lemma_filter_insert(numbers: Seq<u128>, i: int, y: u128, pred: spec_fn(u128) -> bool)
    requires
        0 <= i <= numbers.len(),
    ensures
        numbers.insert(i, y).filter(pred).len() == numbers.filter(pred).len() + if pred(y) {
            1int
        } else {
            0int
        },
{
    reveal(Seq::filter);
    let (left, right) = (numbers.take(i), numbers.skip(i));
    assert(numbers =~= left + right);
    assert(numbers.insert(i, y) =~= left.push(y) + right);
    assert(left.push(y).drop_last() =~= left);
    Seq::filter_distributes_over_add(left, right, pred);
    Seq::filter_distributes_over_add(left.push(y), right, pred);
}

/// A filter that lets everything through changes nothing, and one that lets nothing through leaves
/// nothing.
proof fn lemma_filter_all_or_none(numbers: Seq<u128>, pred: spec_fn(u128) -> bool)
    ensures
        (forall|i: int| 0 <= i < numbers.len() ==> pred(#[trigger] numbers[i])) ==> numbers.filter(
            pred,
        ) == numbers,
        (forall|i: int| 0 <= i < numbers.len() ==> !pred(#[trigger] numbers[i]))
            ==> numbers.filter(pred).len() == 0,
        numbers.filter(pred).len() <= numbers.len(),
    decreases numbers.len(),
{
    reveal(Seq::filter);
    if numbers.len() > 0 {
        let rest = numbers.drop_last();
        lemma_filter_all_or_none(rest, pred);
        assert forall|i: int| 0 <= i < rest.len() implies #[trigger] rest[i] == numbers[i] by {}
        if forall|i: int| 0 <= i < numbers.len() ==> pred(#[trigger] numbers[i]) {
            assert(forall|i: int| 0 <= i < rest.len() ==> pred(#[trigger] rest[i]));
            assert(rest.push(numbers.last()) =~= numbers);
        }
        if forall|i: int| 0 <= i < numbers.len() ==> !pred(#[trigger] numbers[i]) {
            assert(forall|i: int| 0 <= i < rest.len() ==> !pred(#[trigger] rest[i]));
        }
    }
}

/// The numbers are in ascending order.
spec fn ordered(numbers: Seq<u128>) -> bool {
    forall|i: int, j: int| 0 <= i <= j < numbers.len() ==> numbers[i] <= numbers[j]
}

/// Two sequences hold the same numbers, up to their order.
spec fn same_counts(a: Seq<u128>, b: Seq<u128>) -> bool {
    &&& a.len() == b.len()
    &&& forall|x: u128| #[trigger] below(a, x) == below(b, x)
    &&& forall|x: u128| #[trigger] up_to(a, x) == up_to(b, x)
    &&& forall|x: u128| #[trigger] a.contains(x) <==> b.contains(x)
}

proof fn lemma_same_counts_insert(a: Seq<u128>, b: Seq<u128>, i: int, y: u128)
    requires
        same_counts(a, b),
        0 <= i <= a.len(),
    ensures
        same_counts(a.insert(i, y), b.push(y)),
{
    assert(b.push(y) =~= b.insert(b.len() as int, y));
    assert forall|x: u128| #[trigger] below(a.insert(i, y), x) == below(b.push(y), x) by {
        assert(below(a, x) == below(b, x));
        lemma_filter_insert(a, i, y, |z: u128| z < x);
        lemma_filter_insert(b, b.len() as int, y, |z: u128| z < x);
    }
    assert forall|x: u128| #[trigger] up_to(a.insert(i, y), x) == up_to(b.push(y), x) by {
        assert(up_to(a, x) == up_to(b, x));
        lemma_filter_insert(a, i, y, |z: u128| z <= x);
        lemma_filter_insert(b, b.len() as int, y, |z: u128| z <= x);
    }
    assert forall|x: u128| #[trigger]
        a.insert(i, y).contains(x) <==> b.push(y).contains(x) by {
        crate::sequences::lemma_push_members(b, y, x);
        assert(a.contains(x) <==> b.contains(x));
        if a.contains(x) {
            let j = choose|j: int| 0 <= j < a.len() && a[j] == x;
            if j < i {
                assert(a.insert(i, y)[j] == x);
            } else {
                assert(a.insert(i, y)[j + 1] == x);
            }
        }
        if x == y {
            assert(a.insert(i, y)[i] == x);
        }
        if a.insert(i, y).contains(x) && x != y {
            let j = choose|j: int| 0 <= j < a.insert(i, y).len() && a.insert(i, y)[j] == x;
            if j < i {
                assert(a[j] == x);
            } else {
                assert(a[j - 1] == x);
            }
        }
    }
}

/// Puts numbers in ascending order.
fn sort(numbers: &Vec<u128>) -> (sorted: Vec<u128>)
    ensures
        ordered(sorted@),
        same_counts(sorted@, numbers@),
{
    let mut sorted: Vec<u128> = Vec::new();
    for i in 0..numbers.len()
        invariant
            ordered(sorted@),
            same_counts(sorted@, numbers@.take(i as int)),
    {
        let number: u128 = numbers[i];
        let mut at: usize = sorted.len();
        while at > 0 && sorted[at - 1] > number
            invariant
                at <= sorted.len(),
                ordered(sorted@),
                forall|j: int| at <= j < sorted.len() ==> sorted[j] > number,
            decreases at,
        {
            at = at - 1;
        }
        proof {
            lemma_same_counts_insert(sorted@, numbers@.take(i as int), at as int, number);
            assert(numbers@.take(i as int).push(number) =~= numbers@.take(i + 1));
        }
        sorted.insert(at, number);
    }
    assert(numbers@.take(numbers.len() as int) =~= numbers@);
    sorted
}

/// In ordered numbers, the one at position `k` is the `k`-th smallest.
proof fn lemma_nth_of_ordered(numbers: Seq<u128>, k: int)
    requires
        ordered(numbers),
        0 <= k < numbers.len(),
    ensures
        is_nth_smallest(numbers, k, numbers[k]),
{
    let x = numbers[k];
    let smaller = |y: u128| y < x;
    let at_most = |y: u128| y <= x;
    assert(numbers =~= numbers.take(k) + numbers.skip(k));
    Seq::filter_distributes_over_add(numbers.take(k), numbers.skip(k), smaller);
    lemma_filter_all_or_none(numbers.take(k), smaller);
    assert forall|i: int| 0 <= i < numbers.skip(k).len() implies !smaller(
        #[trigger] numbers.skip(k)[i],
    ) by {
        assert(numbers[k] <= numbers[k + i]);
    }
    lemma_filter_all_or_none(numbers.skip(k), smaller);
    assert(numbers =~= numbers.take(k + 1) + numbers.skip(k + 1));
    Seq::filter_distributes_over_add(numbers.take(k + 1), numbers.skip(k + 1), at_most);
    assert forall|i: int| 0 <= i < numbers.take(k + 1).len() implies at_most(
        #[trigger] numbers.take(k + 1)[i],
    ) by {
        assert(numbers[i] <= numbers[k]);
    }
    lemma_filter_all_or_none(numbers.take(k + 1), at_most);
}

/// The `k`-th smallest of numbers, counted from zero.
pub fn nth_smallest(numbers: &Vec<u128>, k: usize) -> (x: u128)
    requires
        k < numbers.len(),
    ensures
        is_nth_smallest(numbers@, k as int, x),
{
    let sorted = sort(numbers);
    proof {
        lemma_nth_of_ordered(sorted@, k as int);
        let x = sorted[k as int];
        assert(sorted@.contains(x));
        assert(below(sorted@, x) == below(numbers@, x));
        assert(up_to(sorted@, x) == up_to(numbers@, x));
    }
    sorted[k]
}

/// The smallest of numbers.
pub open spec fn is_smallest(numbers: Seq<u128>, x: u128) -> bool {
    &&& numbers.contains(x)
    &&& forall|i: int| 0 <= i < numbers.len() ==> x <= #[trigger] numbers[i]
}

/// The largest of numbers.
pub open spec fn is_largest(numbers: Seq<u128>, x: u128) -> bool {
    &&& numbers.contains(x)
    &&& forall|i: int| 0 <= i < numbers.len() ==> #[trigger] numbers[i] <= x
}

fn smallest(numbers: &Vec<u128>) -> (x: u128)
    requires
        numbers.len() > 0,
    ensures
        is_smallest(numbers@, x),
{
    let mut x: u128 = numbers[0];
    for i in 1..numbers.len()
        invariant
            numbers@.contains(x),
            forall|j: int| 0 <= j < i ==> x <= #[trigger] numbers[j],
    {
        if numbers[i] < x {
            x = numbers[i];
        }
    }
    x
}

/// The largest of the latencies.
pub fn max_latency(numbers: &Vec<u128>) -> (x: u128)
    requires
        numbers.len() > 0,
    ensures
        is_largest(numbers@, x),
        exists|i: int| 0 <= i < numbers.len() && #[trigger] numbers[i] == x,
        forall|i: int| 0 <= i < numbers.len() ==> #[trigger] numbers[i] <= x,
{
    let mut x: u128 = numbers[0];
    for i in 1..numbers.len()
        invariant
            numbers@.contains(x),
            forall|j: int| 0 <= j < i ==> #[trigger] numbers[j] <= x,
    {
        if numbers[i] > x {
            x = numbers[i];
        }
    }
    x
}

/// The events of one kind, in their order.
pub open spec fn events_of(logs: Seq<LogEvent>, action: EventType) -> Seq<LogEvent> {
    logs.filter(|log: LogEvent| log.action == action)
}

/// When the transaction was submitted: the time of the first such event.
pub open spec fn submit_time(logs: Seq<LogEvent>) -> u128 {
    events_of(logs, EventType::Submitted)[0].time
}

/// How long after the submission the events of one kind came.
pub open spec fn latencies(logs: Seq<LogEvent>, action: EventType) -> Seq<u128> {
    events_of(logs, action).map_values(
        |log: LogEvent| elapsed_spec(submit_time(logs), log.time),
    )
}

/// The events of a transaction suffice for its metrics: it was submitted, enough of `num_peers`
/// members have accepted it, and some member has the final tokens.
pub open spec fn complete(logs: Seq<LogEvent>, num_peers: nat) -> bool {
    &&& events_of(logs, EventType::Submitted).len() > 0
    &&& events_of(logs, EventType::Agreed).len() >= threshold(num_peers)
    &&& events_of(logs, EventType::Final).len() > 0
}

/// How long a transaction took, in nanoseconds.
#[derive(Clone, Copy, Debug)]
pub struct TransactionMetrics {
    /// Until it was accepted.
    pub accept_latency: u128,
    /// Until the e-cash tokens were received.
    pub coin_latency: u128,
}

/// The metrics of the transaction that `logs` are about. It counts as accepted when all members
/// but those that may misbehave have accepted it, and its tokens as received when the first member
/// has them.
pub open spec fn is_metrics(
    logs: Seq<LogEvent>,
    num_peers: nat,
    metrics: TransactionMetrics,
) -> bool {
    &&& is_nth_smallest(
        latencies(logs, EventType::Agreed),
        threshold(num_peers) - 1,
        metrics.accept_latency,
    )
    &&& is_smallest(latencies(logs, EventType::Final), metrics.coin_latency)
}

/// When the transaction was submitted, if it was.
fn find_submit_time(logs: &Vec<LogEvent>) -> (time: Option<u128>)
    ensures
        time == if events_of(logs@, EventType::Submitted).len() > 0 {
            Some(submit_time(logs@))
        } else {
            None
        },
{
    let ghost submitted = |log: LogEvent| log.action == EventType::Submitted;
    for i in 0..logs.len()
        invariant
            submitted == (|log: LogEvent| log.action == EventType::Submitted),
            logs@.take(i as int).filter(submitted).len() == 0,
    {
        proof {
            reveal(Seq::filter);
            assert(logs@.take(i + 1).drop_last() =~= logs@.take(i as int));
        }
        if logs[i].action == EventType::Submitted {
            proof {
                let (left, right) = (logs@.take(i + 1), logs@.skip(i + 1));
                assert(logs@ =~= left + right);
                Seq::filter_distributes_over_add(left, right, submitted);
                assert(left.filter(submitted) =~= seq![logs@[i as int]]);
                assert((left.filter(submitted) + right.filter(submitted))[0] == logs@[i as int]);
            }
            return Some(logs[i].time);
        }
    }
    assert(logs@.take(logs.len() as int) =~= logs@);
    None
}

/// How long after `from` the events of one kind came.
fn find_latencies(logs: &Vec<LogEvent>, action: EventType, from: u128) -> (found: Vec<u128>)
    ensures
        found@ == events_of(logs@, action).map_values(
            |log: LogEvent| elapsed_spec(from, log.time),
        ),
{
    let ghost wanted = |log: LogEvent| log.action == action;
    let ghost since = |log: LogEvent| elapsed_spec(from, log.time);
    let mut found: Vec<u128> = Vec::new();
    assert(logs@.take(0).filter(wanted).map_values(since) =~= found@) by {
        reveal(Seq::filter);
    }
    for i in 0..logs.len()
        invariant
            wanted == (|log: LogEvent| log.action == action),
            since == (|log: LogEvent| elapsed_spec(from, log.time)),
            found@ == logs@.take(i as int).filter(wanted).map_values(since),
    {
        proof {
            reveal(Seq::filter);
            assert(logs@.take(i + 1).drop_last() =~= logs@.take(i as int));
        }
        if logs[i].action == action {
            found.push(elapsed(from, logs[i].time));
            assert(found@ =~= logs@.take(i + 1).filter(wanted).map_values(since));
        }
    }
    assert(logs@.take(logs.len() as int) =~= logs@);
    found
}

/// Computes the metrics of one transaction out of its events. There are none if the events do not
/// suffice.
pub fn transaction_metrics(logs: &Vec<LogEvent>, num_peers: usize) -> (metrics: Option<
    TransactionMetrics,
>)
    requires
        num_peers > 0,
    ensures
        metrics is Some <==> complete(logs@, num_peers as nat),
        metrics matches Some(m) ==> is_metrics(logs@, num_peers as nat, m),
{
    let quorum: usize = signing_threshold(num_peers);
    let submitted: u128 = match find_submit_time(logs) {
        Some(time) => time,
        None => {
            return None;
        },
    };
    let accepted = find_latencies(logs, EventType::Agreed, submitted);
    let received = find_latencies(logs, EventType::Final, submitted);
    if accepted.len() < quorum || received.len() == 0 {
        return None;
    }
    let accept_latency: u128 = nth_smallest(&accepted, quorum - 1);
    let coin_latency: u128 = smallest(&received);
    Some(TransactionMetrics { accept_latency, coin_latency })
}

/// Tells whether an event is about a transaction output.
pub open spec fn is_about(out_point: OutPointView) -> spec_fn(LogEvent) -> bool {
    |event: LogEvent| event.out_point@ == out_point
}

/// The events about one transaction output, in their order.
pub open spec fn events_about(log: Seq<LogEvent>, out_point: OutPointView) -> Seq<LogEvent> {
    log.filter(is_about(out_point))
}

/// Some event is about the transaction output.
pub open spec fn occurs(log: Seq<LogEvent>, out_point: OutPointView) -> bool {
    exists|i: int| 0 <= i < log.len() && (#[trigger] log[i]).out_point@ == out_point
}

/// `groups` splits a log by transaction output: every output that occurs has one group, which holds
/// the events about it in their order. The groups come in no particular order.
pub open spec fn splits(log: Seq<LogEvent>, groups: Seq<(OutPoint, Vec<LogEvent>)>) -> bool {
    &&& forall|g: int|
        0 <= g < groups.len() ==> {
            &&& occurs(log, (#[trigger] groups[g]).0@)
            &&& groups[g].1@ == events_about(log, groups[g].0@)
        }
    &&& forall|g: int, h: int|
        0 <= g < h < groups.len() ==> (#[trigger] groups[g]).0@ != (#[trigger] groups[h]).0@
    &&& forall|i: int|
        0 <= i < log.len() ==> exists|g: int|
            0 <= g < groups.len() && (#[trigger] groups[g]).0@ == (#[trigger] log[i]).out_point@
}

/// Calls `Itertools::into_group_map_by` on the events, with the parts of the transaction output as
/// the key. Every key that occurs is mapped to the events that have it, in the order in which they
/// came. The map is then walked in whatever order it has.
#[verifier::external_body]
fn group_by_out_point(log: Vec<LogEvent>) -> (groups: Vec<(OutPoint, Vec<LogEvent>)>)
    ensures
        splits(log@, groups@),
{
    log.into_iter()
        .into_group_map_by(|event| (event.out_point.txid, event.out_point.out_idx))
        .into_iter()
        .map(|((txid, out_idx), events)| (OutPoint { txid, out_idx }, events))
        .collect()
}

/// Computes the metrics of each group of events. There are none if the events of some group do not
/// suffice.
pub fn group_metrics(groups: &Vec<(OutPoint, Vec<LogEvent>)>, num_peers: usize) -> (metrics:
    Option<Vec<TransactionMetrics>>)
    requires
        num_peers > 0,
    ensures
        metrics is Some <==> forall|g: int|
            0 <= g < groups.len() ==> complete((#[trigger] groups[g]).1@, num_peers as nat),
        metrics matches Some(all) ==> {
            &&& all.len() == groups.len()
            &&& forall|g: int|
                0 <= g < groups.len() ==> is_metrics(
                    groups[g].1@,
                    num_peers as nat,
                    #[trigger] all[g],
                )
        },
{
    let mut all: Vec<TransactionMetrics> = Vec::new();
    for i in 0..groups.len()
        invariant
            num_peers > 0,
            all.len() == i,
            forall|g: int|
                0 <= g < i ==> complete((#[trigger] groups[g]).1@, num_peers as nat),
            forall|g: int|
                0 <= g < i ==> is_metrics(groups[g].1@, num_peers as nat, #[trigger] all[g]),
    {
        match transaction_metrics(&groups[i].1, num_peers) {
            Some(metrics) => {
                all.push(metrics);
            },
            None => {
                assert(!complete(groups[i as int].1@, num_peers as nat));
                return None;
            },
        }
    }
    Some(all)
}

/// `points` lists every transaction output that the log is about, once.
pub open spec fn covers(log: Seq<LogEvent>, points: Seq<OutPointView>) -> bool {
    &&& points.no_duplicates()
    &&& forall|p: OutPointView| #[trigger] points.contains(p) <==> occurs(log, p)
}

/// The metrics of all the transactions in a log, in the order of `points`.
pub open spec fn are_metrics(
    log: Seq<LogEvent>,
    num_peers: nat,
    points: Seq<OutPointView>,
    metrics: Seq<TransactionMetrics>,
) -> bool {
    &&& metrics.len() == points.len()
    &&& forall|i: int|
        0 <= i < points.len() ==> is_metrics(
            events_about(log, points[i]),
            num_peers,
            #[trigger] metrics[i],
        )
}

/// The groups of a log are about the transaction outputs that occur in it, once each.
proof fn lemma_groups_cover(log: Seq<LogEvent>, groups: Seq<(OutPoint, Vec<LogEvent>)>)
    requires
        splits(log, groups),
    ensures
        covers(log, groups.map_values(|g: (OutPoint, Vec<LogEvent>)| g.0@)),
{
    let points = groups.map_values(|g: (OutPoint, Vec<LogEvent>)| g.0@);
    assert forall|p: OutPointView| #[trigger] points.contains(p) <==> occurs(log, p) by {
        if points.contains(p) {
            let g = choose|g: int| 0 <= g < points.len() && points[g] == p;
            assert(groups[g].0@ == p);
        }
        if occurs(log, p) {
            let i = choose|i: int| 0 <= i < log.len() && (#[trigger] log[i]).out_point@ == p;
            let g = choose|g: int|
                0 <= g < groups.len() && (#[trigger] groups[g]).0@ == log[i].out_point@;
            assert(points[g] == p);
        }
    }
    assert forall|g: int, h: int|
        0 <= g < points.len() && 0 <= h < points.len() && g != h implies points[g]
        != points[h] by {
        if g < h {
            assert(groups[g].0@ != groups[h].0@);
        } else {
            assert(groups[h].0@ != groups[g].0@);
        }
    }
}

/// Computes the metrics of all the transactions in a log. There are none if the events of some
/// transaction do not suffice. The order of the transactions is left open.
pub fn benchmark_metrics(log: Vec<LogEvent>, num_peers: usize) -> (metrics: Option<
    Vec<TransactionMetrics>,
>)
    requires
        num_peers > 0,
    ensures
        metrics is Some <==> forall|p: OutPointView| #[trigger]
            occurs(log@, p) ==> complete(events_about(log@, p), num_peers as nat),
        metrics matches Some(all) ==> exists|points: Seq<OutPointView>|
            covers(log@, points) && #[trigger] are_metrics(
                log@,
                num_peers as nat,
                points,
                all@,
            ),
{
    let ghost events = log@;
    let groups = group_by_out_point(log);
    let metrics = group_metrics(&groups, num_peers);
    proof {
        lemma_groups_cover(events, groups@);
        let points = groups@.map_values(|g: (OutPoint, Vec<LogEvent>)| g.0@);
        if metrics is Some {
            assert forall|p: OutPointView| #[trigger] occurs(events, p) implies complete(
                events_about(events, p),
                num_peers as nat,
            ) by {
                assert(points.contains(p));
                let g = choose|g: int| 0 <= g < points.len() && points[g] == p;
                assert(complete(groups[g].1@, num_peers as nat));
            }
            assert(are_metrics(events, num_peers as nat, points, metrics->0@));
        } else {
            let g = choose|g: int|
                0 <= g < groups.len() && !complete((#[trigger] groups[g]).1@, num_peers as nat);
            assert(occurs(events, groups[g].0@));
        }
    }
    metrics
}

/// What a stricter filter lets through is no more.
proof fn lemma_filter_monotone(
    numbers: Seq<u128>,
    strict: spec_fn(u128) -> bool,
    lax: spec_fn(u128) -> bool,
)
    requires
        forall|x: u128| #[trigger] strict(x) ==> lax(x),
    ensures
        numbers.filter(strict).len() <= numbers.filter(lax).len(),
    decreases numbers.len(),
{
    reveal(Seq::filter);
    if numbers.len() > 0 {
        lemma_filter_monotone(numbers.drop_last(), strict, lax);
    }
}

/// There is only one `k`-th smallest number.
pub proof fn law_nth_smallest_is_unique(numbers: Seq<u128>, k: int, x: u128, y: u128)
    requires
        is_nth_smallest(numbers, k, x),
        is_nth_smallest(numbers, k, y),
    ensures
        x == y,
{
    if x < y {
        lemma_filter_monotone(numbers, |z: u128| z <= x, |z: u128| z < y);
    } else if y < x {
        lemma_filter_monotone(numbers, |z: u128| z <= y, |z: u128| z < x);
    }
}

/// The metrics of a transaction are determined by its events.
pub proof fn law_metrics_are_unique(
    logs: Seq<LogEvent>,
    num_peers: nat,
    a: TransactionMetrics,
    b: TransactionMetrics,
)
    requires
        is_metrics(logs, num_peers, a),
        is_metrics(logs, num_peers, b),
    ensures
        a == b,
{
    let accepted = latencies(logs, EventType::Agreed);
    let received = latencies(logs, EventType::Final);
    law_nth_smallest_is_unique(
        accepted,
        threshold(num_peers) - 1,
        a.accept_latency,
        b.accept_latency,
    );
    let i = choose|i: int| 0 <= i < received.len() && received[i] == a.coin_latency;
    let j = choose|j: int| 0 <= j < received.len() && received[j] == b.coin_latency;
    assert(b.coin_latency <= received[i]);
    assert(a.coin_latency <= received[j]);
}

/// The accept latency is when the acceptance of the last member that was needed came: within it
/// all but the members that may misbehave have accepted, and before it fewer had.
pub proof fn law_accepted_when_all_but_faulty_agree(
    logs: Seq<LogEvent>,
    num_peers: nat,
    metrics: TransactionMetrics,
)
    requires
        num_peers > 0,
        is_metrics(logs, num_peers, metrics),
    ensures
        up_to(latencies(logs, EventType::Agreed), metrics.accept_latency) >= threshold(num_peers),
        below(latencies(logs, EventType::Agreed), metrics.accept_latency) < threshold(num_peers),
{
}

/// If all the members that are online report that they have accepted a transaction and have its
/// tokens, then there are metrics for it as long as no more members are offline than may
/// misbehave, and otherwise there are none.
pub proof fn law_metrics_need_enough_members_online(
    logs: Seq<LogEvent>,
    num_peers: nat,
    offline: nat,
)
    requires
        offline <= num_peers,
        num_peers > 0,
        events_of(logs, EventType::Submitted).len() > 0,
        events_of(logs, EventType::Agreed).len() == num_peers - offline,
        events_of(logs, EventType::Final).len() == num_peers - offline,
    ensures
        complete(logs, num_peers) <==> offline <= tolerated_faults(num_peers),
{
}

/// A latency is the time from the submission until the event: the two make up the time of the event,
/// if it did not come before. Otherwise there is none.
pub proof fn law_submission_and_latency_make_up_the_time(submitted: u128, time: u128)
    ensures
        submitted <= time ==> submitted + elapsed_spec(submitted, time) == time,
        time <= submitted ==> elapsed_spec(submitted, time) == 0,
{
}

/// An event that comes later by some time has a latency that is longer by that time.
pub proof fn law_latencies_grow_with_time(submitted: u128, time: u128, more: u128)
    requires
        submitted <= time,
        time + more <= u128::MAX,
    ensures
        elapsed_spec(submitted, (time + more) as u128) == elapsed_spec(submitted, time) + more,
{
}

/// Each number counts for itself.
pub proof fn law_numbers_are_counted_one_by_one(numbers: Seq<u128>, y: u128, x: u128)
    ensures
        below(Seq::empty(), x) == 0,
        up_to(Seq::empty(), x) == 0,
        below(numbers.push(y), x) == below(numbers, x) + if y < x {
            1nat
        } else {
            0nat
        },
        up_to(numbers.push(y), x) == up_to(numbers, x) + if y <= x {
            1nat
        } else {
            0nat
        },
{
    lemma_filter_push(numbers, y, |z: u128| z < x);
    lemma_filter_push(numbers, y, |z: u128| z <= x);
}

/// Numbers that are the same up to their order are counted alike.
proof fn lemma_counts_ignore_order(a: Seq<u128>, b: Seq<u128>, pred: spec_fn(u128) -> bool)
    requires
        a.to_multiset() == b.to_multiset(),
    ensures
        a.len() == b.len(),
        a.filter(pred).len() == b.filter(pred).len(),
    decreases a.len(),
{
    a.to_multiset_ensures();
    b.to_multiset_ensures();
    assert(a.len() == b.len());
    if a.len() > 0 {
        let x = a.last();
        assert(a.contains(x));
        assert(a.to_multiset().count(x) > 0);
        assert(b.contains(x));
        let j = choose|j: int| 0 <= j < b.len() && b[j] == x;
        let rest = b.remove(j);
        assert(a.remove(a.len() - 1) =~= a.drop_last());
        assert(a.drop_last().to_multiset() =~= a.to_multiset().remove(x));
        assert(rest.to_multiset() =~= b.to_multiset().remove(x));
        lemma_counts_ignore_order(a.drop_last(), rest, pred);
        assert(rest.insert(j, x) =~= b);
        lemma_filter_insert(rest, j, x, pred);
        assert(a.drop_last().push(x) =~= a);
        lemma_filter_push(a.drop_last(), x, pred);
    } else {
        assert(a =~= b);
    }
}

/// The `k`-th smallest number is the one that is found at that position once the numbers are sorted.
pub proof fn law_the_nth_smallest_is_found_by_sorting(
    numbers: Seq<u128>,
    sorted: Seq<u128>,
    k: int,
    x: u128,
)
    requires
        sorted.to_multiset() == numbers.to_multiset(),
        forall|i: int, j: int| 0 <= i <= j < sorted.len() ==> sorted[i] <= sorted[j],
        0 <= k < numbers.len(),
    ensures
        sorted.len() == numbers.len(),
        is_nth_smallest(numbers, k, x) <==> x == sorted[k],
{
    let y = sorted[k];
    numbers.to_multiset_ensures();
    sorted.to_multiset_ensures();
    lemma_counts_ignore_order(numbers, sorted, |z: u128| z < y);
    lemma_counts_ignore_order(numbers, sorted, |z: u128| z <= y);
    lemma_nth_of_ordered(sorted, k);
    assert(sorted.contains(y));
    assert(sorted.to_multiset().count(y) > 0);
    assert(numbers.contains(y));
    assert(is_nth_smallest(numbers, k, y));
    if is_nth_smallest(numbers, k, x) {
        law_nth_smallest_is_unique(numbers, k, x, y);
    }
}

/// The smallest and the largest of numbers are among them, and no other is smaller or larger.
pub proof fn law_extremes_are_attained(numbers: Seq<u128>, low: u128, high: u128, i: int)
    requires
        is_smallest(numbers, low),
        is_largest(numbers, high),
        0 <= i < numbers.len(),
    ensures
        low <= numbers[i] <= high,
        exists|j: int| 0 <= j < numbers.len() && numbers[j] == low,
        exists|j: int| 0 <= j < numbers.len() && numbers[j] == high,
{
}

/// The events of a kind are just those events, in their order.
pub proof fn law_events_are_picked_one_by_one(
    logs: Seq<LogEvent>,
    log: LogEvent,
    action: EventType,
)
    ensures
        events_of(Seq::empty(), action).len() == 0,
        log.action == action ==> events_of(logs.push(log), action) == events_of(logs, action).push(
            log,
        ),
        log.action != action ==> events_of(logs.push(log), action) == events_of(logs, action),
{
    lemma_filter_push(logs, log, |l: LogEvent| l.action == action);
}

/// A transaction was submitted when the first event says that it was.
pub proof fn law_the_first_submission_counts(logs: Seq<LogEvent>, s: int)
    requires
        0 <= s < logs.len(),
        logs[s].action is Submitted,
        forall|j: int| 0 <= j < s ==> !((#[trigger] logs[j]).action is Submitted),
    ensures
        events_of(logs, EventType::Submitted).len() > 0,
        submit_time(logs) == logs[s].time,
{
    let submitted = |log: LogEvent| log.action == EventType::Submitted;
    let (left, right) = (logs.take(s), logs.skip(s + 1));
    assert(logs =~= left.push(logs[s]) + right);
    Seq::filter_distributes_over_add(left.push(logs[s]), right, submitted);
    lemma_filter_push(left, logs[s], submitted);
    if left.filter(submitted).len() > 0 {
        let found = left.filter(submitted);
        assert(found.contains(found[0]));
        lemma_filter_members(left, submitted, found[0]);
        let j = choose|j: int| 0 <= j < left.len() && left[j] == found[0];
        assert(!(logs[j].action is Submitted));
    }
    assert(left.filter(submitted) =~= Seq::empty());
    assert(events_of(logs, EventType::Submitted)[0] == logs[s]);
}

/// Every event of a kind has its latency, behind those of the earlier events of that kind, and the
/// time of the submission and the latency make up the time of the event.
pub proof fn law_every_event_has_its_latency(
    logs: Seq<LogEvent>,
    action: EventType,
    s: int,
    i: int,
)
    requires
        0 <= s < logs.len(),
        logs[s].action is Submitted,
        forall|j: int| 0 <= j < s ==> !((#[trigger] logs[j]).action is Submitted),
        0 <= i < logs.len(),
        logs[i].action == action,
    ensures
        ({
            let k = logs.take(i).filter(|log: LogEvent| log.action == action).len() as int;
            &&& k < latencies(logs, action).len()
            &&& logs[s].time <= logs[i].time ==> logs[s].time + latencies(logs, action)[k]
                == logs[i].time
            &&& logs[i].time <= logs[s].time ==> latencies(logs, action)[k] == 0
        }),
        latencies(logs, action).len() == logs.filter(|log: LogEvent| log.action == action).len(),
{
    law_the_first_submission_counts(logs, s);
    let wanted = |log: LogEvent| log.action == action;
    let (left, right) = (logs.take(i), logs.skip(i + 1));
    assert(logs =~= left.push(logs[i]) + right);
    Seq::filter_distributes_over_add(left.push(logs[i]), right, wanted);
    lemma_filter_push(left, logs[i], wanted);
    let k = left.filter(wanted).len() as int;
    assert(events_of(logs, action)[k] == logs[i]);
}

/// The latencies of the events of a kind that pass a test are as many as those events.
proof fn lemma_latencies_are_counted(
    logs: Seq<LogEvent>,
    action: EventType,
    from: u128,
    pred: spec_fn(u128) -> bool,
)
    ensures
        logs.filter(|log: LogEvent| log.action == action).map_values(
            |log: LogEvent| elapsed_spec(from, log.time),
        ).filter(pred).len() == logs.filter(
            |log: LogEvent| log.action == action && pred(elapsed_spec(from, log.time)),
        ).len(),
    decreases logs.len(),
{
    let wanted = |log: LogEvent| log.action == action;
    let since = |log: LogEvent| elapsed_spec(from, log.time);
    let both = |log: LogEvent| log.action == action && pred(elapsed_spec(from, log.time));
    if logs.len() == 0 {
        reveal(Seq::filter);
        assert(logs.filter(wanted).map_values(since) =~= Seq::empty());
    } else {
        let (rest, log) = (logs.drop_last(), logs.last());
        lemma_latencies_are_counted(rest, action, from, pred);
        assert(rest.push(log) =~= logs);
        lemma_filter_push(rest, log, wanted);
        lemma_filter_push(rest, log, both);
        if wanted(log) {
            let before = rest.filter(wanted).map_values(since);
            assert(logs.filter(wanted).map_values(since) =~= before.push(since(log)));
            lemma_filter_push(before, since(log), pred);
        }
    }
}

/// What the metrics of a transaction say, in terms of its events alone. Counted from its submission,
/// the accept latency leads to an acceptance by which fewer than a third of the members were still
/// missing, and before which a third or more were. The coin latency leads to the first receipt of
/// the tokens.
pub proof fn law_metrics_lead_to_the_events(
    logs: Seq<LogEvent>,
    num_peers: nat,
    metrics: TransactionMetrics,
    s: int,
)
    requires
        num_peers > 0,
        is_metrics(logs, num_peers, metrics),
        0 <= s < logs.len(),
        logs[s].action is Submitted,
        forall|j: int| 0 <= j < s ==> !((#[trigger] logs[j]).action is Submitted),
        forall|j: int| 0 <= j < logs.len() ==> logs[s].time <= (#[trigger] logs[j]).time,
    ensures
        exists|i: int|
            0 <= i < logs.len() && (#[trigger] logs[i]).action is Agreed && logs[i].time
                == logs[s].time + metrics.accept_latency,
        3 * (num_peers - logs.filter(
            |log: LogEvent|
                log.action == EventType::Agreed && log.time <= logs[s].time
                    + metrics.accept_latency,
        ).len()) < num_peers,
        3 * (num_peers - logs.filter(
            |log: LogEvent|
                log.action == EventType::Agreed && log.time < logs[s].time
                    + metrics.accept_latency,
        ).len()) >= num_peers,
        exists|i: int|
            0 <= i < logs.len() && (#[trigger] logs[i]).action is Final && logs[i].time
                == logs[s].time + metrics.coin_latency,
        forall|i: int|
            0 <= i < logs.len() && (#[trigger] logs[i]).action is Final ==> logs[s].time
                + metrics.coin_latency <= logs[i].time,
{
    let from = logs[s].time;
    let (accept, coin) = (metrics.accept_latency, metrics.coin_latency);
    law_the_first_submission_counts(logs, s);
    let accepted = latencies(logs, EventType::Agreed);
    let received = latencies(logs, EventType::Final);
    lemma_latency_comes_from_an_event(logs, EventType::Agreed, from, accept);
    lemma_latency_comes_from_an_event(logs, EventType::Final, from, coin);
    lemma_latencies_are_counted(logs, EventType::Agreed, from, |y: u128| y <= accept);
    lemma_latencies_are_counted(logs, EventType::Agreed, from, |y: u128| y < accept);
    lemma_filter_congruent(
        logs,
        |log: LogEvent|
            log.action == EventType::Agreed && (|y: u128| y <= accept)(
                elapsed_spec(from, log.time),
            ),
        |log: LogEvent| log.action == EventType::Agreed && log.time <= from + accept,
    );
    lemma_filter_congruent(
        logs,
        |log: LogEvent|
            log.action == EventType::Agreed && (|y: u128| y < accept)(
                elapsed_spec(from, log.time),
            ),
        |log: LogEvent| log.action == EventType::Agreed && log.time < from + accept,
    );
    assert forall|i: int|
        0 <= i < logs.len() && (#[trigger] logs[i]).action is Final implies logs[s].time
        + metrics.coin_latency <= logs[i].time by {
        law_every_event_has_its_latency(logs, EventType::Final, s, i);
        let k = logs.take(i).filter(|log: LogEvent| log.action == EventType::Final).len() as int;
        assert(coin <= received[k]);
    }
}

/// A latency is that of some event.
proof fn lemma_latency_comes_from_an_event(
    logs: Seq<LogEvent>,
    action: EventType,
    from: u128,
    latency: u128,
)
    requires
        events_of(logs, action).map_values(
            |log: LogEvent| elapsed_spec(from, log.time),
        ).contains(latency),
        forall|j: int| 0 <= j < logs.len() ==> from <= (#[trigger] logs[j]).time,
    ensures
        exists|i: int|
            0 <= i < logs.len() && (#[trigger] logs[i]).action == action && logs[i].time == from
                + latency,
{
    let found = events_of(logs, action);
    let mapped = found.map_values(|log: LogEvent| elapsed_spec(from, log.time));
    let k = choose|k: int| 0 <= k < mapped.len() && mapped[k] == latency;
    assert(found.contains(found[k]));
    lemma_filter_members(logs, |log: LogEvent| log.action == action, found[k]);
    let i = choose|i: int| 0 <= i < logs.len() && logs[i] == found[k];
    assert(logs[i].action == action && logs[i].time == from + latency);
}

/// There are metrics for a transaction exactly if it was submitted, fewer than a third of the
/// members have not accepted it, and some member has its tokens.
pub proof fn law_what_metrics_need(logs: Seq<LogEvent>, num_peers: nat)
    requires
        num_peers > 0,
    ensures
        complete(logs, num_peers) <==> {
            &&& exists|i: int| 0 <= i < logs.len() && (#[trigger] logs[i]).action is Submitted
            &&& 3 * (num_peers - logs.filter(
                |log: LogEvent| log.action == EventType::Agreed,
            ).len()) < num_peers
            &&& exists|i: int| 0 <= i < logs.len() && (#[trigger] logs[i]).action is Final
        },
{
    lemma_some_event(logs, EventType::Submitted);
    lemma_some_event(logs, EventType::Final);
}

proof fn lemma_some_event(logs: Seq<LogEvent>, action: EventType)
    ensures
        events_of(logs, action).len() > 0 <==> exists|i: int|
            0 <= i < logs.len() && (#[trigger] logs[i]).action == action,
{
    let found = events_of(logs, action);
    let wanted = |log: LogEvent| log.action == action;
    if found.len() > 0 {
        assert(found.contains(found[0]));
        lemma_filter_members(logs, wanted, found[0]);
        let i = choose|i: int| 0 <= i < logs.len() && logs[i] == found[0];
        assert(logs[i].action == action);
    }
    if exists|i: int| 0 <= i < logs.len() && (#[trigger] logs[i]).action == action {
        let i = choose|i: int| 0 <= i < logs.len() && (#[trigger] logs[i]).action == action;
        assert(logs.contains(logs[i]));
        lemma_filter_members(logs, wanted, logs[i]);
        assert(found.contains(logs[i]));
    }
}

/// An event is about an output exactly if it names its transaction and its index, and the events
/// about an output keep their order.
pub proof fn law_events_are_sorted_one_by_one(
    log: Seq<LogEvent>,
    next: LogEvent,
    out_point: OutPointView,
)
    ensures
        events_about(Seq::empty(), out_point).len() == 0,
        if next.out_point.txid@ == out_point.0 && next.out_point.out_idx == out_point.1 {
            events_about(log.push(next), out_point) == events_about(log, out_point).push(next)
        } else {
            events_about(log.push(next), out_point) == events_about(log, out_point)
        },
        occurs(log, out_point) <==> events_about(log, out_point).len() > 0,
{
    let about = is_about(out_point);
    lemma_filter_push(log, next, about);
    let found = events_about(log, out_point);
    if found.len() > 0 {
        assert(found.contains(found[0]));
        lemma_filter_members(log, about, found[0]);
        let i = choose|i: int| 0 <= i < log.len() && log[i] == found[0];
        assert(log[i].out_point@ == out_point);
    }
    if occurs(log, out_point) {
        let i = choose|i: int| 0 <= i < log.len() && (#[trigger] log[i]).out_point@ == out_point;
        assert(log.contains(log[i]));
        lemma_filter_members(log, about, log[i]);
        assert(found.contains(log[i]));
    }
}

/// The groups of a log hold every event once: an event is in the group of its own output, and no
/// two groups are of the same output.
pub proof fn law_groups_hold_every_event(
    log: Seq<LogEvent>,
    groups: Seq<(OutPoint, Vec<LogEvent>)>,
    i: int,
    g: int,
    h: int,
)
    requires
        splits(log, groups),
        0 <= i < log.len(),
        0 <= g < groups.len(),
        0 <= h < groups.len(),
    ensures
        exists|k: int|
            0 <= k < groups.len() && (#[trigger] groups[k]).1@.contains(log[i])
                && groups[k].0.txid@ == log[i].out_point.txid@ && groups[k].0.out_idx
                == log[i].out_point.out_idx,
        g != h ==> groups[g].0.txid@ != groups[h].0.txid@ || groups[g].0.out_idx
            != groups[h].0.out_idx,
        groups[g].1@ == log.filter(
            |e: LogEvent|
                e.out_point.txid@ == groups[g].0.txid@ && e.out_point.out_idx
                    == groups[g].0.out_idx,
        ),
{
    assert(log[i] == log[i]);
    let k = choose|k: int|
        0 <= k < groups.len() && (#[trigger] groups[k]).0@ == log[i].out_point@;
    assert(log.contains(log[i]));
    lemma_filter_members(log, is_about(groups[k].0@), log[i]);
    assert(groups[k].1@ == events_about(log, groups[k].0@));
    assert(groups[k].1@.contains(log[i]));
    lemma_filter_congruent(
        log,
        is_about(groups[g].0@),
        |e: LogEvent|
            e.out_point.txid@ == groups[g].0.txid@ && e.out_point.out_idx == groups[g].0.out_idx,
    );
    if g < h {
        assert(groups[g].0@ != groups[h].0@);
    } else if h < g {
        assert(groups[h].0@ != groups[g].0@);
    }
}

/// Every transaction output in a log has its metrics, once, and they are those of the events about
/// that output and of no others.
pub proof fn law_every_output_has_its_metrics(
    log: Seq<LogEvent>,
    num_peers: nat,
    points: Seq<OutPointView>,
    metrics: Seq<TransactionMetrics>,
    i: int,
)
    requires
        covers(log, points),
        are_metrics(log, num_peers, points, metrics),
        0 <= i < log.len(),
    ensures
        metrics.len() == points.len(),
        exists|g: int|
            0 <= g < points.len() && (#[trigger] points[g]).0 == log[i].out_point.txid@
                && points[g].1 == log[i].out_point.out_idx && is_metrics(
                log.filter(
                    |e: LogEvent|
                        e.out_point.txid@ == log[i].out_point.txid@ && e.out_point.out_idx
                            == log[i].out_point.out_idx,
                ),
                num_peers,
                metrics[g],
            ),
        forall|g: int, h: int| 0 <= g < h < points.len() ==> points[g] != points[h],
        forall|g: int|
            0 <= g < points.len() ==> exists|j: int|
                0 <= j < log.len() && (#[trigger] log[j]).out_point@ == #[trigger] points[g],
{
    let point = log[i].out_point@;
    assert(occurs(log, point));
    assert(points.contains(point));
    let g = choose|g: int| 0 <= g < points.len() && points[g] == point;
    assert(is_metrics(events_about(log, points[g]), num_peers, metrics[g]));
    lemma_filter_congruent(
        log,
        is_about(point),
        |e: LogEvent|
            e.out_point.txid@ == log[i].out_point.txid@ && e.out_point.out_idx
                == log[i].out_point.out_idx,
    );
    assert(events_about(log, point) == log.filter(
        |e: LogEvent|
            e.out_point.txid@ == log[i].out_point.txid@ && e.out_point.out_idx
                == log[i].out_point.out_idx,
    ));
    assert(points[g].0 == log[i].out_point.txid@);
    assert forall|g: int| 0 <= g < points.len() implies exists|j: int|
        0 <= j < log.len() && (#[trigger] log[j]).out_point@ == #[trigger] points[g] by {
        assert(points.contains(points[g]));
        assert(occurs(log, points[g]));
    }
}

/// If every acceptance of a transaction comes later by some time, it is accepted later by that time,
/// and nothing else changes.
pub proof fn law_later_acceptances_are_a_later_acceptance(
    logs: Seq<LogEvent>,
    later: Seq<LogEvent>,
    num_peers: nat,
    a: TransactionMetrics,
    b: TransactionMetrics,
    s: int,
    more: u128,
)
    requires
        num_peers > 0,
        is_metrics(logs, num_peers, a),
        is_metrics(later, num_peers, b),
        later.len() == logs.len(),
        forall|j: int|
            0 <= j < logs.len() ==> {
                &&& (#[trigger] later[j]).action == logs[j].action
                &&& later[j].time == logs[j].time + if logs[j].action is Agreed {
                    more as int
                } else {
                    0int
                }
            },
        0 <= s < logs.len(),
        logs[s].action is Submitted,
        forall|j: int| 0 <= j < s ==> !((#[trigger] logs[j]).action is Submitted),
        forall|j: int| 0 <= j < logs.len() ==> logs[s].time <= (#[trigger] logs[j]).time,
    ensures
        b.accept_latency == a.accept_latency + more,
        b.coin_latency == a.coin_latency,
{
    assert(later[s].action is Submitted);
    assert forall|j: int| 0 <= j < s implies !((#[trigger] later[j]).action is Submitted) by {
        assert(!(logs[j].action is Submitted));
    }
    assert forall|j: int| 0 <= j < later.len() implies later[s].time <= (
    #[trigger] later[j]).time by {
        assert(logs[s].time <= logs[j].time);
    }
    law_the_first_submission_counts(logs, s);
    law_the_first_submission_counts(later, s);
    let from = logs[s].time;
    let (x, y) = (latencies(logs, EventType::Agreed), latencies(later, EventType::Agreed));
    lemma_shifted_latencies(logs, later, EventType::Agreed, from, more);
    lemma_shifted_latencies(logs, later, EventType::Final, from, more);
    let moved = (a.accept_latency + more) as u128;
    let k = threshold(num_peers) - 1;
    let at = choose|i: int| 0 <= i < x.len() && x[i] == a.accept_latency;
    assert(y[at] == x[at] + more);
    assert(y.contains(moved));
    lemma_shifted_counts(x, y, more, a.accept_latency);
    assert(is_nth_smallest(y, k, moved));
    law_nth_smallest_is_unique(y, k, moved, b.accept_latency);
    let (p, q) = (latencies(logs, EventType::Final), latencies(later, EventType::Final));
    assert(p =~= q);
    let i = choose|i: int| 0 <= i < p.len() && p[i] == a.coin_latency;
    let j = choose|j: int| 0 <= j < q.len() && q[j] == b.coin_latency;
    assert(b.coin_latency <= q[i]);
    assert(a.coin_latency <= p[j]);
}

proof fn lemma_shifted_latencies(
    logs: Seq<LogEvent>,
    later: Seq<LogEvent>,
    action: EventType,
    from: u128,
    more: u128,
)
    requires
        later.len() == logs.len(),
        forall|j: int|
            0 <= j < logs.len() ==> {
                &&& (#[trigger] later[j]).action == logs[j].action
                &&& later[j].time == logs[j].time + if logs[j].action is Agreed {
                    more as int
                } else {
                    0int
                }
            },
        forall|j: int| 0 <= j < logs.len() ==> from <= (#[trigger] logs[j]).time,
    ensures
        ({
            let since = |log: LogEvent| elapsed_spec(from, log.time);
            let x = events_of(logs, action).map_values(since);
            let y = events_of(later, action).map_values(since);
            &&& x.len() == y.len()
            &&& forall|i: int|
                0 <= i < x.len() ==> #[trigger] y[i] == x[i] + if action is Agreed {
                    more as int
                } else {
                    0int
                }
        }),
    decreases logs.len(),
{
    let wanted = |log: LogEvent| log.action == action;
    let since = |log: LogEvent| elapsed_spec(from, log.time);
    if logs.len() == 0 {
        reveal(Seq::filter);
    } else {
        let (l0, e) = (logs.drop_last(), logs.last());
        let (m0, f) = (later.drop_last(), later.last());
        assert forall|j: int| 0 <= j < l0.len() implies {
            &&& (#[trigger] m0[j]).action == l0[j].action
            &&& m0[j].time == l0[j].time + if l0[j].action is Agreed {
                more as int
            } else {
                0int
            }
        } by {
            assert(later[j].action == logs[j].action);
        }
        assert forall|j: int| 0 <= j < l0.len() implies from <= (#[trigger] l0[j]).time by {
            assert(from <= logs[j].time);
        }
        lemma_shifted_latencies(l0, m0, action, from, more);
        assert(l0.push(e) =~= logs);
        assert(m0.push(f) =~= later);
        lemma_filter_push(l0, e, wanted);
        lemma_filter_push(m0, f, wanted);
        assert(later[logs.len() - 1].action == logs[logs.len() - 1].action);
        assert(from <= logs[logs.len() - 1].time);
        let x0 = l0.filter(wanted).map_values(since);
        let y0 = m0.filter(wanted).map_values(since);
        let x = logs.filter(wanted).map_values(since);
        let y = later.filter(wanted).map_values(since);
        if wanted(e) {
            assert(x =~= x0.push(since(e)));
            assert(y =~= y0.push(since(f)));
        }
        assert forall|i: int| 0 <= i < x.len() implies #[trigger] y[i] == x[i]
            + if action is Agreed {
            more as int
        } else {
            0int
        } by {
            if i < x0.len() {
                assert(y0[i] == x0[i] + if action is Agreed {
                    more as int
                } else {
                    0int
                });
            }
        }
    }
}

proof fn lemma_shifted_counts(x: Seq<u128>, y: Seq<u128>, more: u128, at: u128)
    requires
        x.len() == y.len(),
        forall|i: int| 0 <= i < x.len() ==> #[trigger] y[i] == x[i] + more,
        at + more <= u128::MAX,
    ensures
        below(y, (at + more) as u128) == below(x, at),
        up_to(y, (at + more) as u128) == up_to(x, at),
    decreases x.len(),
{
    let moved = (at + more) as u128;
    if x.len() == 0 {
        reveal(Seq::filter);
    } else {
        let (x0, y0) = (x.drop_last(), y.drop_last());
        assert forall|i: int| 0 <= i < x0.len() implies #[trigger] y0[i] == x0[i] + more by {
            assert(y[i] == x[i] + more);
        }
        lemma_shifted_counts(x0, y0, more, at);
        assert(x0.push(x.last()) =~= x);
        assert(y0.push(y.last()) =~= y);
        assert(y[y.len() - 1] == x[x.len() - 1] + more);
        law_numbers_are_counted_one_by_one(x0, x.last(), at);
        law_numbers_are_counted_one_by_one(y0, y.last(), moved);
    }
}

} // verus!
