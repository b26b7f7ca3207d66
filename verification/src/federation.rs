//! The members of a simulated federation: who takes part, who is offline, and how many members
//! may misbehave.

use std::collections::BTreeMap;
use vstd::prelude::*;
use vstd::std_specs::cmp::OrdSpec;
use vstd::std_specs::iter::IteratorSpec;

verus! {

/// Identifies a federation member.
pub type PeerId = u16;

/// The sequence is sorted in strictly ascending order.
pub open spec fn ascending(ids: Seq<PeerId>) -> bool {
    forall|i: int, j: int| 0 <= i < j < ids.len() ==> ids[i] < ids[j]
}

/// `ids` lists exactly the members of `set`, each once and in ascending order.
pub open spec fn lists(ids: Seq<PeerId>, set: Set<PeerId>) -> bool {
    &&& ascending(ids)
    &&& forall|p: PeerId| ids.contains(p) <==> set.contains(p)
}

/// Member identifiers are ordered as a sorted map needs its keys to be.
pub open spec fn peer_ids_are_ordered() -> bool {
    vstd::std_specs::btree::key_obeys_cmp_spec::<PeerId>()
}

pub(crate) proof fn lemma_peer_ids_are_ordered()
    ensures
        peer_ids_are_ordered(),
        forall|keys: Seq<&PeerId>| #[trigger]
            vstd::std_specs::btree::increasing_seq(keys) ==> ascending(keys.unref()),
{
    broadcast use vstd::laws_cmp::group_laws_cmp;

    assert(vstd::laws_cmp::obeys_cmp::<PeerId>());
    assert(vstd::laws_cmp::obeys_cmp::<&PeerId>());
    assert forall|keys: Seq<&PeerId>| #[trigger]
        vstd::std_specs::btree::increasing_seq(keys) implies ascending(keys.unref()) by {
        assert forall|i: int, j: int| 0 <= i < j < keys.unref().len() implies keys.unref()[i]
            < keys.unref()[j] by {
            assert(OrdSpec::cmp_spec(&keys[i], &keys[j]) is Less);
        }
    }
}

/// Lists the keys of a map of federation members in ascending order.
pub fn peer_ids<P>(peers: &BTreeMap<PeerId, P>) -> (ids: Vec<PeerId>)
    ensures
        lists(ids@, peers@.dom()),
        ids.len() == peers@.len(),
        forall|i: int, j: int| 0 <= i < j < ids.len() ==> ids[i] < ids[j],
        forall|p: PeerId| ids@.contains(p) <==> peers@.contains_key(p),
{
    proof {
        lemma_peer_ids_are_ordered();
    }
    let mut ids: Vec<PeerId> = Vec::new();
    for id in it: peers.keys()
        invariant
            ids@ == it.seq().unref().take(it.index()),
    {
        ids.push(*id);
    }
    proof {
        let keys = vstd::std_specs::btree::spec_keys_iter(peers).remaining();
        assert(ids@ =~= keys.unref());
        assert forall|p: PeerId| ids@.contains(p) <==> peers@.dom().contains(p) by {
            assert(keys.unref().to_set().contains(p) <==> ids@.contains(p));
        }
    }
    ids
}

/// In an ascending sequence every element is at least its own position, and leaves room for the
/// elements behind it.
proof fn lemma_ascending_bounds(ids: Seq<PeerId>, i: int)
    requires
        ascending(ids),
        0 <= i < ids.len(),
    ensures
        i <= ids[i],
        ids[i] + (ids.len() - 1 - i) <= ids.last(),
{
    lemma_ascending_lower(ids, i);
    lemma_ascending_upper(ids, i);
}

proof fn lemma_ascending_lower(ids: Seq<PeerId>, i: int)
    requires
        ascending(ids),
        0 <= i < ids.len(),
    ensures
        i <= ids[i],
    decreases i,
{
    if i > 0 {
        lemma_ascending_lower(ids, i - 1);
    }
}

proof fn lemma_ascending_upper(ids: Seq<PeerId>, i: int)
    requires
        ascending(ids),
        0 <= i < ids.len(),
    ensures
        ids[i] + (ids.len() - 1 - i) <= ids.last(),
    decreases ids.len() - i,
{
    if i < ids.len() - 1 {
        lemma_ascending_upper(ids, i + 1);
    }
}

/// The members are numbered `0`, `1`, ... without a gap, and there is at least one.
pub open spec fn numbered_from_zero(members: Set<PeerId>) -> bool {
    &&& members.len() > 0
    &&& forall|p: PeerId| members.contains(p) <==> p < members.len()
}

/// Whether the members of a federation are numbered `0`, `1`, ... without a gap.
///
/// It is enough to look at the smallest and at the largest identifier.
pub fn peers_are_numbered<P>(peers: &BTreeMap<PeerId, P>) -> (ok: bool)
    ensures
        ok == numbered_from_zero(peers@.dom()),
        ok == (peers@.len() > 0 && forall|p: PeerId|
            peers@.contains_key(p) <==> p < peers@.len()),
{
    let ids = peer_ids(peers);
    let count: usize = ids.len();
    if count == 0 {
        return false;
    }
    let smallest: PeerId = ids[0];
    let largest: PeerId = ids[count - 1];
    let ok = largest as usize == count - 1 && smallest == 0;
    proof {
        assert forall|i: int| 0 <= i < ids.len() implies i <= #[trigger] ids[i] && ids[i] + (count
            - 1 - i) <= largest by {
            lemma_ascending_bounds(ids@, i);
        }
        if ok {
            assert forall|p: PeerId| peers@.dom().contains(p) <==> p < count by {
                if p < count {
                    assert(ids[p as int] == p);
                    assert(ids@.contains(p));
                }
            }
        } else if numbered_from_zero(peers@.dom()) {
            assert(ids@.contains(largest));
            assert(peers@.dom().contains(largest));
            assert(ids@.contains(smallest));
        }
    }
    ok
}

/// The specification of `hbbft::util::max_faulty`: the greatest number less than one third of
/// `n`. The function panics for an empty network.
pub assume_specification[ hbbft::util::max_faulty ](n: usize) -> (f: usize)
    requires
        n > 0,
    ensures
        f == tolerated_faults(n as nat),
;

/// How many of `n` members may misbehave: the greatest number less than one third of `n`.
pub open spec fn tolerated_faults(n: nat) -> nat {
    ((n - 1) / 3) as nat
}

/// How many of `n` members have to take part in a signature: all but those that may misbehave.
pub open spec fn threshold(n: nat) -> nat {
    (n - tolerated_faults(n)) as nat
}

/// How many of the members have to take part in a signature.
pub fn signing_threshold(num_peers: usize) -> (t: usize)
    requires
        num_peers > 0,
    ensures
        t == threshold(num_peers as nat),
{
    num_peers - hbbft::util::max_faulty(num_peers)
}

/// The tolerated faults are as many as can be while they stay below one third of the members.
pub proof fn law_tolerated_faults_are_below_a_third(n: nat, f: nat)
    requires
        n > 0,
    ensures
        3 * f < n <==> f <= tolerated_faults(n),
{
}

/// Any two groups of signers share a member that does not misbehave: their overlap is larger than
/// the number of members that may.
pub proof fn law_thresholds_overlap(n: nat)
    requires
        n > 0,
    ensures
        0 < threshold(n) <= n,
        threshold(n) + threshold(n) - n > tolerated_faults(n),
{
}

/// An amount of money in milli-satoshi.
pub type Amount = u64;

/// The only coin denomination of the benchmark, in milli-satoshi.
pub const DENOMINATION: Amount = 1;

/// What the trusted dealer is asked to generate a federation from.
pub struct ServerConfigParams {
    pub hbbft_base_port: u16,
    pub api_base_port: u16,
    pub amount_tiers: Vec<Amount>,
}

/// The trusted dealer's request for a federation: how many faults it tolerates, and its
/// parameters.
pub struct ConfigRequest {
    pub max_evil: usize,
    pub params: ServerConfigParams,
}

/// Prepares the configuration of a federation with a single coin denomination.
pub fn generate_cfg(peers: &[PeerId]) -> (request: ConfigRequest)
    requires
        peers@.len() > 0,
    ensures
        request.max_evil == tolerated_faults(peers@.len()),
        request.params.hbbft_base_port == 4000,
        request.params.api_base_port == 5000,
        request.params.amount_tiers@ == seq![DENOMINATION],
{
    let max_evil: usize = hbbft::util::max_faulty(peers.len());
    ConfigRequest {
        max_evil,
        params: ServerConfigParams {
            hbbft_base_port: 4000,
            api_base_port: 5000,
            amount_tiers: vec![DENOMINATION],
        },
    }
}

/// The members of a federation of `num_peers`: `0`, `1`, ..., `num_peers - 1`.
pub open spec fn peers_spec(num_peers: u16) -> Seq<PeerId> {
    Seq::new(num_peers as nat, |i: int| i as PeerId)
}

/// The members of a federation of `num_peers`.
pub fn all_peers(num_peers: u16) -> (peers: Vec<PeerId>)
    ensures
        peers@ == peers_spec(num_peers),
{
    let mut peers: Vec<PeerId> = Vec::new();
    for id in 0..num_peers
        invariant
            peers@ == peers_spec(id),
    {
        peers.push(id);
    }
    peers
}

/// The last `count` of the members, or all of them if there are fewer, from the last one on.
pub open spec fn offline_spec(peers: Seq<PeerId>, count: nat) -> Seq<PeerId> {
    peers.reverse().take(if count < peers.len() { count as int } else { peers.len() as int })
}

/// Picks the members that are offline: the last `count` of them.
pub fn choose_offline(peers: &Vec<PeerId>, count: usize) -> (offline: Vec<PeerId>)
    ensures
        offline@ == offline_spec(peers@, count as nat),
{
    let mut offline: Vec<PeerId> = Vec::new();
    let total: usize = peers.len();
    let taken: usize = if count < total { count } else { total };
    for i in 0..taken
        invariant
            total == peers.len(),
            taken <= total,
            offline@ == peers@.reverse().take(i as int),
    {
        offline.push(peers[total - 1 - i]);
        assert(peers@.reverse().take(i + 1) =~= peers@.reverse().take(i as int).push(
            peers@.reverse()[i as int],
        ));
    }
    offline
}

/// Whether a member is among those that are offline.
pub fn is_offline(offline: &Vec<PeerId>, peer: PeerId) -> (found: bool)
    ensures
        found == offline@.contains(peer),
{
    for i in 0..offline.len()
        invariant
            forall|j: int| 0 <= j < i ==> offline@[j] != peer,
    {
        if offline[i] == peer {
            return true;
        }
    }
    false
}

/// The members that are not offline, in their order.
pub open spec fn online_spec(peers: Seq<PeerId>, offline: Seq<PeerId>) -> Seq<PeerId> {
    peers.filter(|p: PeerId| !offline.contains(p))
}

/// Picks the members that are not offline.
pub fn choose_online(peers: &Vec<PeerId>, offline: &Vec<PeerId>) -> (online: Vec<PeerId>)
    ensures
        online@ == online_spec(peers@, offline@),
{
    let mut online: Vec<PeerId> = Vec::new();
    let ghost up = |p: PeerId| !offline@.contains(p);
    for i in 0..peers.len()
        invariant
            up == (|p: PeerId| !offline@.contains(p)),
            online@ == peers@.take(i as int).filter(up),
    {
        proof {
            reveal(Seq::filter);
            assert(peers@.take(i + 1).drop_last() =~= peers@.take(i as int));
        }
        if !is_offline(offline, peers[i]) {
            online.push(peers[i]);
        }
    }
    assert(peers@.take(peers.len() as int) =~= peers@);
    online
}

/// Of `num_peers` members, as many are offline as asked for, and exactly those with the highest
/// identifiers; the others are online, in ascending order.
pub proof fn law_offline_peers_are_the_last_ones(num_peers: u16, count: nat)
    requires
        count <= num_peers,
    ensures
        offline_spec(peers_spec(num_peers), count).len() == count,
        forall|p: PeerId|
            offline_spec(peers_spec(num_peers), count).contains(p) <==> num_peers - count <= p
                < num_peers,
        online_spec(peers_spec(num_peers), offline_spec(peers_spec(num_peers), count))
            == peers_spec((num_peers - count) as u16),
{
    let peers = peers_spec(num_peers);
    let offline = offline_spec(peers, count);
    assert forall|p: PeerId| offline.contains(p) <==> num_peers - count <= p < num_peers by {
        if num_peers - count <= p < num_peers {
            assert(offline[num_peers - 1 - p] == p);
        }
    }
    lemma_online_prefix(num_peers, count, num_peers as int);
    assert(peers.take(num_peers as int) =~= peers);
}

proof fn lemma_online_prefix(num_peers: u16, count: nat, i: int)
    requires
        count <= num_peers,
        0 <= i <= num_peers,
        forall|p: PeerId|
            offline_spec(peers_spec(num_peers), count).contains(p) <==> num_peers - count <= p
                < num_peers,
    ensures
        online_spec(peers_spec(num_peers).take(i), offline_spec(peers_spec(num_peers), count))
            == peers_spec((if i < num_peers - count { i } else { num_peers - count }) as u16),
    decreases i,
{
    reveal(Seq::filter);
    let prefix = peers_spec(num_peers).take(i);
    if i > 0 {
        lemma_online_prefix(num_peers, count, i - 1);
        assert(prefix.drop_last() =~= peers_spec(num_peers).take(i - 1));
    }
}

/// The members are numbered without a gap: with a member there are all that have lower numbers, and
/// the highest number is one less than there are members.
pub proof fn law_members_have_no_gaps(members: Set<PeerId>, p: PeerId, q: PeerId)
    requires
        numbered_from_zero(members),
    ensures
        members.contains(0),
        members.contains(p) && q <= p ==> members.contains(q),
        members.contains(p) ==> p + 1 <= members.len(),
        p + 1 == members.len() ==> members.contains(p),
{
}

/// As many members have to take part as leave fewer than a third of them out, and no more.
pub proof fn law_threshold_leaves_out_less_than_a_third(n: nat, t: nat)
    requires
        n > 0,
        t <= n,
    ensures
        threshold(n) <= t <==> 3 * (n - t) < n,
        threshold(n) + tolerated_faults(n) == n,
{
}

/// The coins of the benchmark are worth one milli-satoshi each.
pub proof fn law_the_denomination_is_the_smallest_amount(amount: Amount)
    ensures
        DENOMINATION == 1,
        amount > 0 <==> DENOMINATION <= amount,
{
}

/// A federation has as many members as asked for, and each has its position as its number.
pub proof fn law_peers_are_numbered_by_position(num_peers: u16, i: int)
    requires
        0 <= i < num_peers,
    ensures
        peers_spec(num_peers).len() == num_peers,
        peers_spec(num_peers)[i] == i,
{
}

/// Counted from the end, the members that are offline are just the members, as far as they go.
pub proof fn law_offline_peers_are_counted_from_the_end(peers: Seq<PeerId>, count: nat, i: int)
    requires
        0 <= i < peers.len(),
    ensures
        count <= peers.len() ==> offline_spec(peers, count).len() == count,
        count >= peers.len() ==> offline_spec(peers, count).len() == peers.len(),
        i < count ==> offline_spec(peers, count)[i] == peers[peers.len() - 1 - i],
{
}

/// Every member is online or offline, whatever the other members are, and those that are online
/// keep their order.
pub proof fn law_online_peers_are_picked_one_by_one(
    peers: Seq<PeerId>,
    peer: PeerId,
    offline: Seq<PeerId>,
)
    ensures
        online_spec(Seq::empty(), offline).len() == 0,
        offline.contains(peer) ==> online_spec(peers.push(peer), offline) == online_spec(
            peers,
            offline,
        ),
        !offline.contains(peer) ==> online_spec(peers.push(peer), offline) == online_spec(
            peers,
            offline,
        ).push(peer),
{
    crate::sequences::lemma_filter_push(peers, peer, |p: PeerId| !offline.contains(p));
}

/// There is one way to list members: no member is left out, none is listed twice, and a member comes
/// before another one if its number is lower.
pub proof fn law_lists_are_complete_and_ascending(
    ids: Seq<PeerId>,
    set: Set<PeerId>,
    i: int,
    j: int,
    p: PeerId,
)
    requires
        lists(ids, set),
        0 <= i < ids.len(),
        0 <= j < ids.len(),
    ensures
        i < j <==> ids[i] < ids[j],
        set.contains(ids[i]),
        set.contains(p) ==> exists|k: int| 0 <= k < ids.len() && ids[k] == p,
{
    assert(ids.contains(ids[i]));
    if set.contains(p) {
        assert(ids.contains(p));
    }
}

/// Members that are as many as the lowest numbers they have, and have no others, are numbered from
/// zero.
pub proof fn law_members_without_gaps_are_numbered(members: Set<PeerId>)
    requires
        members.len() > 0,
        forall|p: PeerId| p < members.len() ==> #[trigger] members.contains(p),
        forall|p: PeerId| #[trigger] members.contains(p) ==> p < members.len(),
    ensures
        numbered_from_zero(members),
{
}

} // verus!
