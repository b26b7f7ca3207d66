//! What a benchmark run does, as the command line asks for it.

use crate::client::{
    client_run, client_step, law_all_payments_are_alike, law_every_transaction_is_recorded,
    paid_out, recorded, spent, ClientAction, ClientEvent, ClientState,
};
use crate::federation::{
    all_peers, choose_offline, choose_online, law_offline_peers_are_the_last_ones,
    offline_spec, online_spec, peers_spec, tolerated_faults, Amount, PeerId, DENOMINATION,
};
use vstd::prelude::*;

verus! {

/// The arguments of a benchmark run, but for the transaction rate.
#[derive(Clone, Copy, Debug)]
pub struct BenchmarkArgs {
    pub num_peers: u16,
    pub offline_peers: usize,
    pub latency_ms: u64,
    pub coins_per_tx: usize,
    pub num_tx: usize,
}

/// How many nanoseconds a millisecond has.
pub const NANOS_PER_MILLI: u128 = 1_000_000;

impl BenchmarkArgs {
    /// How many events a run leaves in the log: each transaction is submitted once, and each
    /// member that is online reports that it was accepted and that it has the tokens.
    pub open spec fn expected_logs(self) -> int {
        self.num_tx * (1 + 2 * (self.num_peers - self.offline_peers))
    }

    /// The run can be carried out: there is a federation, no more of its members are offline than
    /// it has, and the numbers of coins and of log entries fit the machine.
    pub open spec fn valid(self) -> bool {
        &&& self.num_peers > 0
        &&& self.offline_peers <= self.num_peers
        &&& self.num_tx * self.coins_per_tx <= usize::MAX
        &&& 3 * self.num_peers * self.num_tx <= usize::MAX
    }

    /// Whether the run can be carried out.
    pub fn is_valid(&self) -> (ok: bool)
        ensures
            ok == self.valid(),
    {
        if self.num_peers == 0 || self.offline_peers > self.num_peers as usize {
            return false;
        }
        let peers: usize = self.num_peers as usize;
        assert(3 * self.num_peers * self.num_tx == (3 * peers) * self.num_tx) by (nonlinear_arith)
            requires
                peers == self.num_peers,
        ;
        self.num_tx.checked_mul(self.coins_per_tx).is_some() && (3 * peers).checked_mul(
            self.num_tx,
        ).is_some()
    }
}

/// A benchmark run.
pub struct BenchmarkPlan {
    pub peers: Vec<PeerId>,
    pub offline_peers: Vec<PeerId>,
    pub online_peers: Vec<PeerId>,
    /// The delay of the virtual network, in nanoseconds.
    pub latency: u128,
    /// How many coins the client starts with.
    pub coins_to_issue: usize,
    /// What the client spends in each transaction.
    pub payment: Amount,
    /// How many members may misbehave.
    pub max_faulty: usize,
    /// How many events to expect in the log.
    pub expected_logs: usize,
    /// How much room to make for events.
    pub log_capacity: usize,
}

impl BenchmarkPlan {
    /// Plans the run that the arguments ask for.
    pub fn new(args: &BenchmarkArgs) -> (plan: Self)
        requires
            args.valid(),
        ensures
            plan.peers@ == peers_spec(args.num_peers),
            plan.offline_peers@ == offline_spec(plan.peers@, args.offline_peers as nat),
            plan.online_peers@ == online_spec(plan.peers@, plan.offline_peers@),
            plan.latency == args.latency_ms * NANOS_PER_MILLI,
            plan.coins_to_issue == args.num_tx * args.coins_per_tx,
            plan.payment == DENOMINATION * args.coins_per_tx,
            plan.max_faulty == tolerated_faults(args.num_peers as nat),
            plan.expected_logs == args.expected_logs(),
            plan.log_capacity == 3 * args.num_peers * args.num_tx,
            plan.peers.len() == args.num_peers,
            forall|i: int| 0 <= i < args.num_peers ==> plan.peers[i] == i,
            plan.offline_peers.len() == args.offline_peers,
            forall|i: int|
                0 <= i < args.offline_peers ==> plan.offline_peers[i] == args.num_peers - 1 - i,
            plan.online_peers.len() == args.num_peers - args.offline_peers,
            forall|i: int|
                0 <= i < args.num_peers - args.offline_peers ==> plan.online_peers[i] == i,
            plan.latency == args.latency_ms * 1_000_000,
            plan.payment == args.coins_per_tx,
            3 * plan.max_faulty < args.num_peers <= 3 * plan.max_faulty + 3,
            plan.expected_logs == args.num_tx + args.num_tx * (2 * (args.num_peers
                - args.offline_peers)),
    {
        let peers = all_peers(args.num_peers);
        let offline_peers = choose_offline(&peers, args.offline_peers);
        let online_peers = choose_online(&peers, &offline_peers);
        let num_peers: usize = peers.len();
        let online: usize = num_peers - args.offline_peers;
        let per_tx: usize = 1 + 2 * online;
        assert(args.num_tx * per_tx <= 3 * args.num_peers * args.num_tx) by (nonlinear_arith)
            requires
                per_tx <= 3 * args.num_peers,
        ;
        assert(3 * args.num_peers * args.num_tx == (3 * num_peers) * args.num_tx)
            by (nonlinear_arith)
            requires
                num_peers == args.num_peers,
        ;
        proof {
            law_offline_peers_are_the_last_ones(args.num_peers, args.offline_peers as nat);
            assert(args.num_tx * per_tx == args.num_tx + args.num_tx * (2 * online))
                by (nonlinear_arith)
                requires
                    per_tx == 1 + 2 * online,
            ;
        }
        BenchmarkPlan {
            peers,
            offline_peers,
            online_peers,
            latency: args.latency_ms as u128 * NANOS_PER_MILLI,
            coins_to_issue: args.num_tx * args.coins_per_tx,
            payment: DENOMINATION * args.coins_per_tx as u64,
            max_faulty: hbbft::util::max_faulty(num_peers),
            expected_logs: args.num_tx * per_tx,
            log_capacity: 3 * num_peers * args.num_tx,
        }
    }
}

/// The expected events are one submission for every transaction, and for every transaction and
/// every member that is online one acceptance and one receipt of the tokens.
pub proof fn law_expected_logs(args: BenchmarkArgs)
    requires
        args.valid(),
    ensures
        args.expected_logs() == args.num_tx + 2 * (args.num_tx * online_spec(
            peers_spec(args.num_peers),
            offline_spec(peers_spec(args.num_peers), args.offline_peers as nat),
        ).len()),
{
    law_offline_peers_are_the_last_ones(args.num_peers, args.offline_peers as nat);
    let online = args.num_peers - args.offline_peers;
    assert(args.num_tx * (1 + 2 * online) == args.num_tx + 2 * (args.num_tx * online))
        by (nonlinear_arith);
}

/// The coins that the client starts with pay for exactly `num_tx` transactions: the client can
/// make another payment as long as it has made fewer, and then it has spent them all.
pub proof fn law_coins_pay_for_all_transactions(args: BenchmarkArgs, paid: nat)
    requires
        args.valid(),
        args.coins_per_tx > 0,
        paid <= args.num_tx,
    ensures
        ({
            let funds = args.num_tx * args.coins_per_tx * DENOMINATION;
            let payment = DENOMINATION * args.coins_per_tx;
            let left = funds - paid * payment;
            &&& payment <= left <==> paid < args.num_tx
            &&& paid == args.num_tx ==> left == 0
        }),
{
    let payment = args.coins_per_tx as int;
    let left = args.num_tx * payment - paid * payment;
    assert(left == (args.num_tx - paid) * payment) by (nonlinear_arith)
        requires
            left == args.num_tx * payment - paid * payment,
    ;
    assert((args.num_tx - paid) * payment >= payment <==> args.num_tx - paid >= 1)
        by (nonlinear_arith)
        requires
            payment > 0,
            args.num_tx - paid >= 0,
    ;
}

/// Coins are found for a payment exactly as long as what is left of the client's funds after the
/// payments that it has made suffices for it.
pub open spec fn coins_are_found(args: BenchmarkArgs, events: Seq<ClientEvent>) -> bool {
    let funds = args.num_tx * args.coins_per_tx * DENOMINATION;
    let payment = DENOMINATION * args.coins_per_tx;
    forall|i: int|
        0 <= i < events.len() ==> match #[trigger] events[i] {
            ClientEvent::CoinsSelected(enough) => enough == (payment <= funds - spent(
                events.take(i),
            ) * payment),
            _ => true,
        }
}

/// The client never makes more payments than it was asked for.
proof fn lemma_no_more_payments(args: BenchmarkArgs, events: Seq<ClientEvent>, n: int)
    requires
        args.valid(),
        args.coins_per_tx > 0,
        coins_are_found(args, events),
        0 <= n <= events.len(),
    ensures
        spent(events.take(n)) <= args.num_tx,
    decreases n,
{
    if n > 0 {
        lemma_no_more_payments(args, events, n - 1);
        assert(events.take(n).drop_last() =~= events.take(n - 1));
        assert(events.take(n).last() == events[n - 1]);
        if events[n - 1] == ClientEvent::CoinsSelected(true) {
            law_coins_pay_for_all_transactions(args, spent(events.take(n - 1)));
        }
    }
}

/// A run of the client that has come to its end has submitted exactly as many transactions as it
/// was asked for.
pub proof fn law_as_many_transactions_as_asked_for(
    args: BenchmarkArgs,
    states: Seq<ClientState>,
    events: Seq<ClientEvent>,
    actions: Seq<ClientAction>,
)
    requires
        args.valid(),
        args.coins_per_tx > 0,
        client_run((DENOMINATION * args.coins_per_tx) as Amount, states, events, actions),
        coins_are_found(args, events),
        events.len() > 0,
        actions.last() is Stop,
    ensures
        recorded(actions).len() == args.num_tx,
{
    let payment = (DENOMINATION * args.coins_per_tx) as Amount;
    let n = events.len() - 1;
    assert(client_step(payment, states[n], events[n], states[n + 1], actions[n]));
    assert(events[n] == ClientEvent::CoinsSelected(false));
    assert(events.drop_last() =~= events.take(n));
    lemma_no_more_payments(args, events, n);
    law_coins_pay_for_all_transactions(args, spent(events.take(n)));
    law_every_transaction_is_recorded(payment, states, events, actions);
    assert(states.last() == states[n + 1]);
}

/// What can be run: a federation with members, no more of them offline than there are, and numbers
/// of coins and of events that can be counted.
pub proof fn law_what_can_be_run(args: BenchmarkArgs)
    ensures
        args.valid() <==> {
            &&& 1 <= args.num_peers
            &&& args.offline_peers <= args.num_peers
            &&& args.num_tx * args.coins_per_tx <= usize::MAX
            &&& 3 * args.num_peers * args.num_tx <= usize::MAX
        },
{
}

/// One transaction more is one submission more, and two events more for each member that is online.
pub proof fn law_each_transaction_adds_its_events(args: BenchmarkArgs, more: BenchmarkArgs)
    requires
        args.offline_peers <= args.num_peers,
        more.num_peers == args.num_peers,
        more.offline_peers == args.offline_peers,
        more.num_tx == args.num_tx + 1,
    ensures
        args.num_tx == 0 ==> args.expected_logs() == 0,
        more.expected_logs() == args.expected_logs() + 1 + 2 * (args.num_peers
            - args.offline_peers),
{
    let per_tx = 1 + 2 * (args.num_peers - args.offline_peers);
    assert((args.num_tx + 1) * per_tx == args.num_tx * per_tx + per_tx) by (nonlinear_arith);
}

/// The wallet finds coins for an amount exactly if it still has that much: what the client was
/// issued, less what it has paid.
pub open spec fn wallet_answers(
    args: BenchmarkArgs,
    events: Seq<ClientEvent>,
    actions: Seq<ClientAction>,
) -> bool {
    forall|i: int|
        0 < i < events.len() ==> match (actions[i - 1], #[trigger] events[i]) {
            (ClientAction::SelectCoins(amount), ClientEvent::CoinsSelected(enough)) => enough == (
            amount <= args.num_tx * args.coins_per_tx - paid_out(events, actions, i)),
            _ => true,
        }
}

/// A run of the client that has come to its end has used up all the coins that it was issued, and
/// has submitted exactly as many transactions as it was asked for.
pub proof fn law_a_finished_run_has_used_up_all_coins(
    args: BenchmarkArgs,
    states: Seq<ClientState>,
    events: Seq<ClientEvent>,
    actions: Seq<ClientAction>,
)
    requires
        args.valid(),
        args.coins_per_tx > 0,
        client_run(args.coins_per_tx as Amount, states, events, actions),
        wallet_answers(args, events, actions),
        events.len() > 0,
        actions.last() is Stop,
    ensures
        recorded(actions).len() == args.num_tx,
        paid_out(events, actions, events.len() as int) == args.num_tx * args.coins_per_tx,
{
    let payment = args.coins_per_tx as Amount;
    assert forall|i: int| 0 <= i < events.len() implies match #[trigger] events[i] {
        ClientEvent::CoinsSelected(enough) => enough == (DENOMINATION * args.coins_per_tx
            <= args.num_tx * args.coins_per_tx * DENOMINATION - spent(events.take(i)) * (
        DENOMINATION * args.coins_per_tx)),
        _ => true,
    } by {
        assert(client_step(payment, states[i], events[i], states[i + 1], actions[i]));
        if i > 0 {
            assert(client_step(payment, states[i - 1], events[i - 1], states[i], actions[i - 1]));
            law_all_payments_are_alike(payment, states, events, actions, i);
        }
    }
    assert(coins_are_found(args, events));
    law_as_many_transactions_as_asked_for(args, states, events, actions);
    let n = events.len() - 1;
    assert(client_step(payment, states[n], events[n], states[n + 1], actions[n]));
    law_every_transaction_is_recorded(payment, states, events, actions);
    assert(states.last() == states[n + 1]);
    law_all_payments_are_alike(payment, states, events, actions, events.len() as int);
    assert(events.take(events.len() as int) =~= events);
}

} // verus!
