//! A virtual network that connects all federation members and delivers every message after a
//! fixed delay.

use crate::federation::{
    is_offline, lemma_peer_ids_are_ordered, lists, peer_ids, peer_ids_are_ordered, PeerId,
};
use std::collections::BTreeMap;
use vstd::prelude::*;

verus! {

/// The intended recipients of a message.
#[derive(Clone, Copy, Debug)]
pub enum Target {
    /// All members the network connects to.
    All,
    /// A single member.
    Node(PeerId),
}

/// A message on its way. Points in time are in nanoseconds since the start of the benchmark.
pub struct Packet<M> {
    pub sender: PeerId,
    pub delivery_at: u128,
    pub msg: M,
}

/// A message that has arrived, and how many nanoseconds to wait before it may be handed over.
pub struct Arrival<M> {
    pub wait: u128,
    pub sender: PeerId,
    pub msg: M,
}

/// One member's end of the virtual network. `S` is the sending and `R` the receiving half of a
/// channel.
pub struct LatencyNetwork<S, R> {
    pub id: PeerId,
    pub offline_peers: Vec<PeerId>,
    /// The delay of every message, in nanoseconds.
    pub latency: u128,
    pub peers: BTreeMap<PeerId, S>,
    pub receive: R,
}

/// How long a packet that is due at `delivery_at` still has to wait at `now`.
pub open spec fn waiting_time(now: u128, delivery_at: u128) -> u128 {
    if delivery_at > now {
        (delivery_at - now) as u128
    } else {
        0
    }
}

impl<S, R> LatencyNetwork<S, R> {
    /// The members that a message to all of them goes out to: those that this end connects to,
    /// except for the ones that are offline.
    pub open spec fn reachable(&self) -> Set<PeerId> {
        self.peers@.dom().filter(|p: PeerId| !self.offline_peers@.contains(p))
    }

    /// Addresses a message to its recipients. It is due one latency from `now`. Nothing is sent
    /// to a member that is offline.
    pub fn send<M: Clone>(&self, now: u128, target: Target, msg: M) -> (outgoing: Vec<
        (PeerId, Packet<M>),
    >)
        requires
            now + self.latency <= u128::MAX,
            target matches Target::Node(peer) ==> self.offline_peers@.contains(peer)
                || self.peers@.contains_key(peer),
        ensures
            match target {
                Target::All => {
                    &&& lists(outgoing@.map_values(|o: (PeerId, Packet<M>)| o.0), self.reachable())
                    &&& forall|i: int|
                        0 <= i < outgoing.len() ==> {
                            &&& (#[trigger] outgoing[i]).1.sender == self.id
                            &&& outgoing[i].1.delivery_at == now + self.latency
                            &&& cloned(msg, outgoing[i].1.msg)
                        }
                    &&& forall|i: int, j: int|
                        0 <= i < j < outgoing.len() ==> (#[trigger] outgoing[i]).0 < (
                        #[trigger] outgoing[j]).0
                    &&& forall|i: int|
                        0 <= i < outgoing.len() ==> {
                            &&& self.peers@.contains_key((#[trigger] outgoing[i]).0)
                            &&& !self.offline_peers@.contains(outgoing[i].0)
                        }
                    &&& forall|p: PeerId| #[trigger]
                        self.peers@.contains_key(p) && !self.offline_peers@.contains(p)
                            ==> exists|i: int|
                            0 <= i < outgoing.len() && (#[trigger] outgoing[i]).0 == p
                },
                Target::Node(peer) => outgoing@ == if self.offline_peers@.contains(peer) {
                    Seq::<(PeerId, Packet<M>)>::empty()
                } else {
                    seq![
                        (
                            peer,
                            Packet {
                                sender: self.id,
                                delivery_at: (now + self.latency) as u128,
                                msg,
                            },
                        ),
                    ]
                },
            },
    {
        let delivery_at: u128 = now + self.latency;
        let mut outgoing: Vec<(PeerId, Packet<M>)> = Vec::new();
        match target {
            Target::All => {
                let ids = peer_ids(&self.peers);
                let ghost mut taken: Seq<int> = Seq::empty();
                for i in 0..ids.len()
                    invariant
                        lists(ids@, self.peers@.dom()),
                        delivery_at == now + self.latency,
                        taken.len() == outgoing.len(),
                        forall|j: int| 0 <= j < taken.len() ==> 0 <= #[trigger] taken[j] < i,
                        forall|j: int, k: int|
                            0 <= j < k < taken.len() ==> taken[j] < taken[k],
                        forall|j: int|
                            #![trigger outgoing[j]]
                            #![trigger taken[j]]
                            0 <= j < outgoing.len() ==> {
                                &&& outgoing[j].0 == ids[taken[j]]
                                &&& outgoing[j].1.sender == self.id
                                &&& outgoing[j].1.delivery_at == now + self.latency
                                &&& cloned(msg, outgoing[j].1.msg)
                                &&& !self.offline_peers@.contains(outgoing[j].0)
                            },
                        forall|m: int|
                            0 <= m < i && !self.offline_peers@.contains(#[trigger] ids[m])
                                ==> taken.contains(m),
                {
                    let id: PeerId = ids[i];
                    if !is_offline(&self.offline_peers, id) {
                        let ghost before = taken;
                        outgoing.push((id, Packet { sender: self.id, delivery_at, msg: msg.clone() }));
                        proof {
                            taken = taken.push(i as int);
                            assert(taken[before.len() as int] == i);
                            assert forall|m: int|
                                0 <= m < i + 1 && !self.offline_peers@.contains(
                                    #[trigger] ids[m],
                                ) implies taken.contains(m) by {
                                if m < i {
                                    let j = choose|j: int| 0 <= j < before.len() && before[j] == m;
                                    assert(taken[j] == m);
                                }
                            }
                        }
                    }
                }
                proof {
                    let to = outgoing@.map_values(|o: (PeerId, Packet<M>)| o.0);
                    assert forall|j: int, k: int| 0 <= j < k < to.len() implies to[j] < to[k] by {
                        assert(taken[j] < taken[k]);
                        assert(outgoing[j].0 == ids[taken[j]]);
                        assert(outgoing[k].0 == ids[taken[k]]);
                    }
                    assert forall|p: PeerId| to.contains(p) <==> self.reachable().contains(p) by {
                        if to.contains(p) {
                            let j = choose|j: int| 0 <= j < to.len() && to[j] == p;
                            assert(outgoing[j].0 == p);
                            assert(ids@.contains(p));
                        }
                        if self.reachable().contains(p) {
                            assert(ids@.contains(p));
                            let m = choose|m: int| 0 <= m < ids.len() && ids[m] == p;
                            let j = choose|j: int| 0 <= j < taken.len() && taken[j] == m;
                            assert(to[j] == p);
                        }
                    }
                    assert forall|i: int, j: int| 0 <= i < j < outgoing.len() implies (
                    #[trigger] outgoing[i]).0 < (#[trigger] outgoing[j]).0 by {
                        assert(to[i] < to[j]);
                    }
                    assert forall|i: int| 0 <= i < outgoing.len() implies {
                        &&& self.peers@.contains_key((#[trigger] outgoing[i]).0)
                        &&& !self.offline_peers@.contains(outgoing[i].0)
                    } by {
                        assert(to.contains(to[i]));
                        assert(self.reachable().contains(to[i]));
                    }
                    assert forall|p: PeerId| #[trigger]
                        self.peers@.contains_key(p) && !self.offline_peers@.contains(
                            p,
                        ) implies exists|i: int|
                        0 <= i < outgoing.len() && (#[trigger] outgoing[i]).0 == p by {
                        assert(self.reachable().contains(p));
                        assert(to.contains(p));
                        let j = choose|j: int| 0 <= j < to.len() && to[j] == p;
                        assert(outgoing[j].0 == p);
                    }
                }
            },
            Target::Node(peer) => {
                if !is_offline(&self.offline_peers, peer) {
                    outgoing.push((peer, Packet { sender: self.id, delivery_at, msg }));
                }
            },
        }
        outgoing
    }

    /// Takes a packet off the channel at `now`. Its message may not be handed over before the
    /// packet is due.
    pub fn receive<M>(&self, now: u128, packet: Packet<M>) -> (arrival: Arrival<M>)
        ensures
            arrival.wait == waiting_time(now, packet.delivery_at),
            arrival.sender == packet.sender,
            arrival.msg == packet.msg,
    {
        let wait: u128 = if packet.delivery_at > now { packet.delivery_at - now } else { 0 };
        Arrival { wait, sender: packet.sender, msg: packet.msg }
    }
}

/// The position of the last occurrence of `p`, or `-1` if there is none.
pub open spec fn last_position(nodes: Seq<PeerId>, p: PeerId) -> int
    decreases nodes.len(),
{
    if nodes.len() == 0 {
        -1
    } else if nodes.last() == p {
        nodes.len() - 1
    } else {
        last_position(nodes.drop_last(), p)
    }
}

/// `last_position` is what its name says.
proof fn lemma_last_position(nodes: Seq<PeerId>, p: PeerId)
    ensures
        nodes.contains(p) <==> 0 <= last_position(nodes, p),
        nodes.contains(p) ==> {
            &&& last_position(nodes, p) < nodes.len()
            &&& nodes[last_position(nodes, p)] == p
        },
        forall|i: int| 0 <= i < nodes.len() && last_position(nodes, p) < i ==> nodes[i] != p,
    decreases nodes.len(),
{
    if nodes.len() > 0 {
        let rest = nodes.drop_last();
        lemma_last_position(rest, p);
        if nodes.last() == p {
            assert(nodes[nodes.len() - 1] == p);
        } else {
            if rest.contains(p) {
                assert(nodes[last_position(rest, p)] == p);
            }
            if nodes.contains(p) {
                let i = choose|i: int| 0 <= i < nodes.len() && nodes[i] == p;
                assert(rest[i] == p);
            }
            assert forall|i: int|
                0 <= i < nodes.len() && last_position(nodes, p) < i implies nodes[i] != p by {
                if i < rest.len() {
                    assert(rest[i] != p);
                }
            }
        }
    }
}

/// What one more node does to the last positions and to the set of nodes.
proof fn lemma_one_more_node(nodes: Seq<PeerId>, i: int)
    requires
        0 <= i < nodes.len(),
    ensures
        forall|p: PeerId| #[trigger]
            last_position(nodes.take(i + 1), p) == if nodes[i] == p {
                i
            } else {
                last_position(nodes.take(i), p)
            },
        nodes.take(i + 1).to_set() == nodes.take(i).to_set().insert(nodes[i]),
{
    let shorter = nodes.take(i);
    let longer = nodes.take(i + 1);
    assert(longer.drop_last() =~= shorter);
    assert forall|p: PeerId| #[trigger]
        longer.to_set().contains(p) <==> shorter.to_set().insert(nodes[i]).contains(p) by {
        if shorter.contains(p) {
            let j = choose|j: int| 0 <= j < shorter.len() && shorter[j] == p;
            assert(longer[j] == p);
        }
        if nodes[i] == p {
            assert(longer[i] == p);
        }
        if longer.contains(p) && nodes[i] != p {
            let j = choose|j: int| 0 <= j < longer.len() && longer[j] == p;
            assert(shorter[j] == p);
        }
    }
    assert(longer.to_set() =~= shorter.to_set().insert(nodes[i]));
}

/// `net` is the end of the network that belongs to `id`: it connects to every other node through
/// that node's own channel, and listens on the channel of `id`. A node that is listed more than
/// once has the channel of its last occurrence.
pub open spec fn wired<S: Clone, R>(
    net: LatencyNetwork<S, R>,
    id: PeerId,
    latency: u128,
    nodes: Seq<PeerId>,
    offline_peers: Seq<PeerId>,
    channels: Seq<(S, R)>,
) -> bool {
    &&& net.id == id
    &&& net.latency == latency
    &&& net.offline_peers@ == offline_peers
    &&& net.peers@.dom() == nodes.to_set().remove(id)
    &&& forall|p: PeerId| #[trigger]
        net.peers@.contains_key(p) ==> cloned(
            channels[last_position(nodes, p)].0,
            net.peers@[p],
        )
    &&& net.receive == channels[last_position(nodes, id)].1
}

/// Connects `id` to all the other nodes.
fn other_senders<S: Clone>(senders: &BTreeMap<PeerId, S>, id: PeerId) -> (others: BTreeMap<
    PeerId,
    S,
>)
    ensures
        others@.dom() == senders@.dom().remove(id),
        forall|p: PeerId| #[trigger]
            others@.contains_key(p) ==> cloned(senders@[p], others@[p]),
{
    proof {
        lemma_peer_ids_are_ordered();
    }
    let ids = peer_ids(senders);
    let mut others: BTreeMap<PeerId, S> = BTreeMap::new();
    for i in 0..ids.len()
        invariant
            peer_ids_are_ordered(),
            lists(ids@, senders@.dom()),
            forall|p: PeerId| #[trigger]
                others@.contains_key(p) ==> {
                    &&& p != id
                    &&& senders@.contains_key(p)
                    &&& cloned(senders@[p], others@[p])
                },
            forall|j: int|
                0 <= j < i && #[trigger] ids[j] != id ==> others@.contains_key(ids[j]),
    {
        let peer: PeerId = ids[i];
        if peer != id {
            assert(ids@.contains(peer));
            match senders.get(&peer) {
                Some(sender) => {
                    others.insert(peer, sender.clone());
                },
                None => {},
            }
        }
    }
    proof {
        assert forall|p: PeerId| #[trigger]
            others@.dom().contains(p) <==> senders@.dom().remove(id).contains(p) by {
            if senders@.dom().remove(id).contains(p) {
                assert(ids@.contains(p));
                let j = choose|j: int| 0 <= j < ids.len() && ids[j] == p;
                assert(others@.contains_key(ids[j]));
            }
        }
        assert(others@.dom() =~= senders@.dom().remove(id));
    }
    others
}

/// Connects all nodes with each other. `channels` holds one channel for each entry of `nodes`.
pub fn start_latency_network<S: Clone, R>(
    latency: u128,
    nodes: &[PeerId],
    offline_peers: Vec<PeerId>,
    channels: Vec<(S, R)>,
) -> (nets: BTreeMap<PeerId, LatencyNetwork<S, R>>)
    requires
        channels.len() == nodes@.len(),
    ensures
        nets@.dom() == nodes@.to_set(),
        forall|id: PeerId| #[trigger]
            nets@.contains_key(id) ==> wired(
                nets@[id],
                id,
                latency,
                nodes@,
                offline_peers@,
                channels@,
            ),
        forall|id: PeerId| #[trigger] nets@.contains_key(id) <==> nodes@.contains(id),
        forall|id: PeerId| #[trigger]
            nets@.contains_key(id) ==> {
                &&& nets@[id].id == id
                &&& nets@[id].latency == latency
                &&& nets@[id].offline_peers@ == offline_peers@
            },
        forall|id: PeerId, p: PeerId|
            #![trigger nets@[id].peers@.contains_key(p)]
            nets@.contains_key(id) ==> (nets@[id].peers@.contains_key(p) <==> nodes@.contains(p)
                && p != id),
{
    proof {
        lemma_peer_ids_are_ordered();
    }
    let ghost all = channels@;
    let mut senders: BTreeMap<PeerId, S> = BTreeMap::new();
    let mut receivers: Vec<(PeerId, R)> = Vec::new();
    assert(nodes@.take(0).to_set() =~= Set::<PeerId>::empty());
    let mut i: usize = 0;
    for channel in it: channels.into_iter()
        invariant
            peer_ids_are_ordered(),
            it.seq() == all,
            all.len() == nodes@.len(),
            i == it.index(),
            senders@.dom() == nodes@.take(i as int).to_set(),
            forall|p: PeerId| #[trigger]
                senders@.contains_key(p) ==> senders@[p] == all[last_position(
                    nodes@.take(i as int),
                    p,
                )].0,
            receivers.len() == i,
            forall|j: int|
                0 <= j < i ==> (#[trigger] receivers[j]).0 == nodes@[j] && receivers[j].1
                    == all[j].1,
    {
        proof {
            lemma_one_more_node(nodes@, i as int);
        }
        let peer: PeerId = nodes[i];
        let (send, receive) = channel;
        senders.insert(peer, send);
        receivers.push((peer, receive));
        i = i + 1;
    }
    assert(nodes@.take(nodes@.len() as int) =~= nodes@);
    let count: usize = nodes.len();
    let ghost listening = receivers@;
    let mut nets: BTreeMap<PeerId, LatencyNetwork<S, R>> = BTreeMap::new();
    let mut k: usize = 0;
    for entry in it: receivers.into_iter()
        invariant
            peer_ids_are_ordered(),
            it.seq() == listening,
            count == nodes@.len(),
            listening.len() == nodes@.len(),
            all.len() == nodes@.len(),
            k == it.index(),
            forall|j: int|
                0 <= j < nodes@.len() ==> (#[trigger] listening[j]).0 == nodes@[j]
                    && listening[j].1 == all[j].1,
            senders@.dom() == nodes@.to_set(),
            forall|p: PeerId| #[trigger]
                senders@.contains_key(p) ==> senders@[p] == all[last_position(nodes@, p)].0,
            nets@.dom() == nodes@.take(k as int).to_set(),
            forall|id: PeerId| #[trigger]
                nets@.contains_key(id) ==> {
                    let net = nets@[id];
                    &&& net.id == id
                    &&& net.latency == latency
                    &&& net.offline_peers@ == offline_peers@
                    &&& net.peers@.dom() == nodes@.to_set().remove(id)
                    &&& forall|p: PeerId| #[trigger]
                        net.peers@.contains_key(p) ==> cloned(senders@[p], net.peers@[p])
                    &&& net.receive == all[last_position(nodes@.take(k as int), id)].1
                },
    {
        proof {
            lemma_one_more_node(nodes@, k as int);
        }
        let (id, receive) = entry;
        let offline: Vec<PeerId> = offline_peers.clone();
        assert(offline@ =~= offline_peers@);
        let net = LatencyNetwork {
            id,
            offline_peers: offline,
            latency,
            peers: other_senders(&senders, id),
            receive,
        };
        nets.insert(id, net);
        k = k + 1;
    }
    proof {
        assert forall|id: PeerId| #[trigger] nets@.contains_key(id) implies wired(
            nets@[id],
            id,
            latency,
            nodes@,
            offline_peers@,
            channels@,
        ) by {
            let net = nets@[id];
            assert forall|p: PeerId| #[trigger] net.peers@.contains_key(p) implies cloned(
                all[last_position(nodes@, p)].0,
                net.peers@[p],
            ) by {
                assert(nodes@.to_set().contains(p));
                assert(senders@.contains_key(p));
            }
        }
        assert forall|id: PeerId| #[trigger] nets@.contains_key(id) <==> nodes@.contains(id) by {
            assert(nets@.dom().contains(id) <==> nodes@.to_set().contains(id));
        }
        assert forall|id: PeerId, p: PeerId|
            #![trigger nets@[id].peers@.contains_key(p)]
            nets@.contains_key(id) implies (nets@[id].peers@.contains_key(p) <==> nodes@.contains(p)
            && p != id) by {
            assert(wired(nets@[id], id, latency, nodes@, offline_peers@, channels@));
            assert(nets@[id].peers@.dom().contains(p) <==> nodes@.to_set().remove(id).contains(p));
        }
    }
    nets
}

/// Every member can send to every other one: what it holds for the other member is the sending
/// half of the very channel that the other member listens on. No member sends to itself.
pub proof fn law_members_are_connected<S: Clone, R>(
    nets: Map<PeerId, LatencyNetwork<S, R>>,
    latency: u128,
    nodes: Seq<PeerId>,
    offline_peers: Seq<PeerId>,
    channels: Seq<(S, R)>,
    from: PeerId,
    to: PeerId,
)
    requires
        channels.len() == nodes.len(),
        nets.dom() == nodes.to_set(),
        forall|id: PeerId| #[trigger]
            nets.contains_key(id) ==> wired(
                nets[id],
                id,
                latency,
                nodes,
                offline_peers,
                channels,
            ),
        nets.contains_key(from),
        nets.contains_key(to),
    ensures
        nets[from].peers@.contains_key(to) <==> from != to,
        from != to ==> exists|i: int|
            0 <= i < channels.len() && nodes[i] == to && cloned(
                (#[trigger] channels[i]).0,
                nets[from].peers@[to],
            ) && nets[to].receive == channels[i].1,
{
    lemma_last_position(nodes, to);
    assert(nodes.to_set().contains(to));
    let i = last_position(nodes, to);
    assert(wired(nets[from], from, latency, nodes, offline_peers, channels));
    assert(wired(nets[to], to, latency, nodes, offline_peers, channels));
    if from != to {
        assert(nets[from].peers@.contains_key(to));
        assert(cloned(channels[i].0, nets[from].peers@[to]));
    }
}

/// A message to all goes out to exactly the other members of the network that are not offline.
pub proof fn law_broadcast_reaches_all_that_are_online<S: Clone, R>(
    net: LatencyNetwork<S, R>,
    id: PeerId,
    latency: u128,
    nodes: Seq<PeerId>,
    offline_peers: Seq<PeerId>,
    channels: Seq<(S, R)>,
    peer: PeerId,
)
    requires
        wired(net, id, latency, nodes, offline_peers, channels),
    ensures
        net.reachable().contains(peer) <==> {
            &&& nodes.contains(peer)
            &&& peer != id
            &&& !offline_peers.contains(peer)
        },
{
}

/// A message is handed over as soon as one latency has passed since it was sent, and never
/// before. `now` is when the recipient takes it off its channel.
pub proof fn law_messages_take_one_latency(sent: u128, latency: u128, now: u128)
    requires
        sent + latency <= u128::MAX,
    ensures
        now + waiting_time(now, (sent + latency) as u128) == if now < sent + latency {
            sent + latency
        } else {
            now as int
        },
{
}

/// Every end of the network is its member's own, and delays every message by the latency that was
/// asked for: what is sent at some time through any end, and taken off the channel at once, has to
/// wait for just that long.
pub proof fn law_every_end_has_the_latency_asked_for<S: Clone, R>(
    nets: Map<PeerId, LatencyNetwork<S, R>>,
    latency: u128,
    nodes: Seq<PeerId>,
    offline_peers: Seq<PeerId>,
    channels: Seq<(S, R)>,
    id: PeerId,
    sent: u128,
)
    requires
        nets.contains_key(id),
        wired(nets[id], id, latency, nodes, offline_peers, channels),
        sent + latency <= u128::MAX,
    ensures
        nets[id].id == id,
        nets[id].latency == latency,
        nets[id].offline_peers@ == offline_peers,
        sent + nets[id].latency == sent + latency,
        waiting_time(sent, (sent + nets[id].latency) as u128) == latency,
{
}

/// The last position of a node is one that it is at, and it is at no later one.
pub proof fn law_the_last_position_is_the_last(nodes: Seq<PeerId>, p: PeerId, i: int)
    requires
        0 <= i < nodes.len(),
        nodes[i] == p,
    ensures
        i <= last_position(nodes, p) < nodes.len(),
        nodes[last_position(nodes, p)] == p,
{
    lemma_last_position(nodes, p);
    assert(nodes.contains(p));
}

/// Through any end a member can be reached exactly if the end connects to it and it is not offline.
pub proof fn law_reachable_means_connected_and_online<S, R>(
    net: LatencyNetwork<S, R>,
    peer: PeerId,
)
    ensures
        net.reachable().contains(peer) <==> net.peers@.contains_key(peer)
            && !net.offline_peers@.contains(peer),
{
}

} // verus!
