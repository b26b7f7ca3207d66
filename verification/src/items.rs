//! Consensus items, and which of them still have to be proposed.

use crate::federation::PeerId;
use crate::sequences::{lemma_filter_members, lemma_push_members};
use std::collections::HashMap;
use vstd::prelude::*;

verus! {

/// An item that the federation can agree on, in its serialised form. Items count as equal if their
/// encodings are, so an item is always encoded by the member that holds it: what another member has
/// sent may be a different encoding of an equal item.
#[derive(Debug)]
pub struct ConsensusItem {
    /// Whether this is an item of the wallet module.
    pub wallet: bool,
    pub encoded: Vec<u8>,
}

/// What tells one consensus item from another.
pub type ItemView = (bool, Seq<u8>);

impl View for ConsensusItem {
    type V = ItemView;

    open spec fn view(&self) -> ItemView {
        (self.wallet, self.encoded@)
    }
}

/// What the federation agreed on in one epoch: the contributions of its members.
pub struct ConsensusOutcome {
    pub epoch: u64,
    pub contributions: Vec<(PeerId, Vec<ConsensusItem>)>,
}

/// The epoch of an outcome, and the contributions of the members.
pub type OutcomeView = (u64, Seq<(PeerId, Seq<ItemView>)>);

/// What tells one sequence of consensus items from another.
pub open spec fn item_views(items: Seq<ConsensusItem>) -> Seq<ItemView> {
    items.map_values(|item: ConsensusItem| item@)
}

impl View for ConsensusOutcome {
    type V = OutcomeView;

    open spec fn view(&self) -> OutcomeView {
        (
            self.epoch,
            self.contributions@.map_values(
                |c: (PeerId, Vec<ConsensusItem>)| (c.0, item_views(c.1@)),
            ),
        )
    }
}

impl ConsensusOutcome {
    /// The item is part of one of the contributions.
    pub open spec fn includes(self, item: ItemView) -> bool {
        exists|i: int, j: int|
            0 <= i < self.contributions.len() && 0 <= j < self.contributions[i].1.len()
                && (#[trigger] self.contributions[i].1[j])@ == item
    }

    /// The items that need not be proposed again: all that were agreed on, except for those of
    /// the wallet module, which proposes anew in every epoch.
    pub open spec fn settled(self) -> Set<ItemView> {
        Set::new(|item: ItemView| !item.0 && self.includes(item))
    }

    /// How many items the first `k` contributions hold together.
    pub open spec fn items_in(self, k: int) -> nat
        decreases k,
    {
        if k <= 0 {
            0
        } else {
            self.items_in(k - 1) + self.contributions[k - 1].1.len() as nat
        }
    }

    /// How many items all contributions hold together, counting repeated ones.
    pub fn item_count(&self) -> (count: u128)
        ensures
            count == self.items_in(self.contributions.len() as int),
    {
        let mut count: u128 = 0;
        let total: usize = self.contributions.len();
        for i in 0..total
            invariant
                total == self.contributions.len(),
                count == self.items_in(i as int),
                count <= i * usize::MAX,
        {
            let more: usize = self.contributions[i].1.len();
            assert((i + 1) * usize::MAX == i * usize::MAX + usize::MAX) by (nonlinear_arith);
            assert((i + 1) * usize::MAX <= u128::MAX) by (nonlinear_arith)
                requires
                    i + 1 <= usize::MAX,
            ;
            count = count + more as u128;
        }
        count
    }
}

/// The encodings of items.
pub open spec fn encodings(items: Seq<ConsensusItem>) -> Seq<Seq<u8>> {
    items.map_values(|item: ConsensusItem| item.encoded@)
}

/// Takes the encodings out of items. That is all that is sent of them.
pub fn encode(items: Vec<ConsensusItem>) -> (encoded: Vec<Vec<u8>>)
    ensures
        byte_strings(encoded@) == encodings(items@),
        encoded.len() == items.len(),
        forall|i: int| 0 <= i < items.len() ==> (#[trigger] encoded[i])@ == items[i].encoded@,
{
    let ghost all = items@;
    let mut encoded: Vec<Vec<u8>> = Vec::new();
    for item in it: items.into_iter()
        invariant
            it.seq() == all,
            encoded.len() == it.index(),
            forall|i: int|
                0 <= i < encoded.len() ==> #[trigger] encoded[i] == all[i].encoded,
    {
        encoded.push(item.encoded);
    }
    assert(byte_strings(encoded@) =~= encodings(all));
    encoded
}

/// What byte strings hold.
pub open spec fn byte_strings(encoded: Seq<Vec<u8>>) -> Seq<Seq<u8>> {
    encoded.map_values(|bytes: Vec<u8>| bytes@)
}

/// What the federation agreed on in one epoch, as its members have sent it: nothing is known of
/// what they have sent but its bytes.
#[derive(Debug)]
pub struct EncodedOutcome {
    pub epoch: u64,
    pub contributions: Vec<(PeerId, Vec<Vec<u8>>)>,
}

/// What the members have contributed to an epoch.
pub type EncodedContributions = Seq<(PeerId, Seq<Seq<u8>>)>;

/// The epoch of an outcome, and what the members have contributed to it.
pub type EncodedView = (u64, EncodedContributions);

impl View for EncodedOutcome {
    type V = EncodedView;

    open spec fn view(&self) -> EncodedView {
        (
            self.epoch,
            self.contributions@.map_values(
                |c: (PeerId, Vec<Vec<u8>>)| (c.0, byte_strings(c.1@)),
            ),
        )
    }
}

/// What the recipient makes of an encoded item: the item, in the recipient's own encoding, or
/// `None` if it cannot be decoded.
pub type Reading = Option<ConsensusItem>;

/// The readings at a position, or none if there are not so many.
pub open spec fn readings_at<T>(readings: Seq<Vec<T>>, i: int) -> Seq<T> {
    if 0 <= i < readings.len() {
        readings[i]@
    } else {
        Seq::empty()
    }
}

/// A contribution as it was read, or `None` if one of its items cannot be decoded or was not read.
pub open spec fn read_items(encoded: Seq<Seq<u8>>, readings: Seq<Reading>) -> Option<
    Seq<ItemView>,
> {
    if readings.len() == encoded.len() && forall|i: int|
        0 <= i < readings.len() ==> #[trigger] readings[i] is Some {
        Some(readings.map_values(|reading: Reading| reading->0@))
    } else {
        None
    }
}

/// The contributions that could be read, in their order.
pub open spec fn read_contributions(
    contributions: EncodedContributions,
    readings: Seq<Vec<Reading>>,
) -> Seq<(PeerId, Seq<ItemView>)>
    decreases contributions.len(),
{
    if contributions.len() == 0 {
        Seq::empty()
    } else {
        let (peer, encoded) = contributions.last();
        let before = read_contributions(contributions.drop_last(), readings);
        match read_items(encoded, readings_at(readings, contributions.len() - 1)) {
            Some(items) => before.push((peer, items)),
            None => before,
        }
    }
}

/// The members whose contributions could not be read, in their order.
pub open spec fn undecodable(
    contributions: EncodedContributions,
    readings: Seq<Vec<Reading>>,
) -> Seq<PeerId>
    decreases contributions.len(),
{
    if contributions.len() == 0 {
        Seq::empty()
    } else {
        let (peer, encoded) = contributions.last();
        let before = undecodable(contributions.drop_last(), readings);
        match read_items(encoded, readings_at(readings, contributions.len() - 1)) {
            Some(_) => before,
            None => before.push(peer),
        }
    }
}

fn read_contribution(encoded: &Vec<Vec<u8>>, readings: Vec<Reading>) -> (items: Option<
    Vec<ConsensusItem>,
>)
    ensures
        match items {
            Some(items) => read_items(byte_strings(encoded@), readings@) == Some(
                item_views(items@),
            ),
            None => read_items(byte_strings(encoded@), readings@) is None,
        },
{
    if readings.len() != encoded.len() {
        return None;
    }
    let ghost all = readings@;
    let mut items: Vec<ConsensusItem> = Vec::new();
    for reading in it: readings.into_iter()
        invariant
            it.seq() == all,
            all.len() == encoded.len(),
            items.len() == it.index(),
            forall|j: int| 0 <= j < items.len() ==> #[trigger] all[j] == Some(items[j]),
    {
        match reading {
            Some(item) => {
                items.push(item);
            },
            None => {
                assert(!(all[it.index()] is Some));
                return None;
            },
        }
    }
    assert(item_views(items@) =~= all.map_values(|reading: Reading| reading->0@));
    Some(items)
}

/// Every item of every contribution was read and could be decoded.
pub open spec fn all_read(outcome: EncodedOutcome, readings: Seq<Vec<Reading>>) -> bool {
    &&& readings.len() == outcome.contributions.len()
    &&& forall|i: int|
        0 <= i < readings.len() ==> (#[trigger] readings[i]).len()
            == outcome.contributions[i].1.len()
    &&& forall|i: int, j: int|
        0 <= i < readings.len() && 0 <= j < readings[i].len() ==> #[trigger] readings[i][j] is Some
}

/// Takes an outcome as it was read, and lists the members whose contributions could not be read.
/// A contribution that holds an item that cannot be decoded is not part of the outcome.
pub fn read_outcome(outcome: EncodedOutcome, readings: Vec<Vec<Reading>>) -> (result: (
    ConsensusOutcome,
    Vec<PeerId>,
))
    ensures
        result.0@ == (outcome.epoch, read_contributions(outcome@.1, readings@)),
        result.1@ == undecodable(outcome@.1, readings@),
        result.0.epoch == outcome.epoch,
        result.0.contributions.len() + result.1.len() == outcome.contributions.len(),
        all_read(outcome, readings@) ==> result.1.len() == 0,
        all_read(outcome, readings@) ==> forall|i: int|
            0 <= i < outcome.contributions.len() ==> {
                &&& (#[trigger] result.0.contributions[i]).0 == outcome.contributions[i].0
                &&& result.0.contributions[i].1.len() == readings[i].len()
                &&& forall|j: int|
                    0 <= j < readings[i].len() ==> {
                        &&& (#[trigger] result.0.contributions[i].1[j]).wallet
                            == readings[i][j]->0.wallet
                        &&& result.0.contributions[i].1[j].encoded@ == readings[i][j]->0.encoded@
                    }
            },
{
    let ghost sent = outcome@.1;
    let ghost given = readings@;
    let ghost seen = |c: (PeerId, Vec<ConsensusItem>)| (c.0, item_views(c.1@));
    let mut readings = readings;
    let mut contributions: Vec<(PeerId, Vec<ConsensusItem>)> = Vec::new();
    let mut blamed: Vec<PeerId> = Vec::new();
    assert(contributions@.map_values(seen) =~= read_contributions(sent.take(0), given));
    for i in 0..outcome.contributions.len()
        invariant
            sent == outcome@.1,
            seen == (|c: (PeerId, Vec<ConsensusItem>)| (c.0, item_views(c.1@))),
            readings@ == given.skip(if i < given.len() { i as int } else { given.len() as int }),
            contributions@.map_values(seen) == read_contributions(sent.take(i as int), given),
            blamed@ == undecodable(sent.take(i as int), given),
    {
        let peer: PeerId = outcome.contributions[i].0;
        let read: Vec<Reading> = if readings.len() > 0 { readings.remove(0) } else { Vec::new() };
        proof {
            assert(sent.take(i + 1).drop_last() =~= sent.take(i as int));
            assert(sent.take(i + 1).last() == sent[i as int]);
            assert(read@ =~= readings_at(given, i as int));
            assert(readings@ =~= given.skip(
                if i + 1 < given.len() { i + 1 } else { given.len() as int },
            ));
        }
        match read_contribution(&outcome.contributions[i].1, read) {
            Some(items) => {
                let ghost before = contributions@;
                contributions.push((peer, items));
                assert(contributions@.map_values(seen) =~= before.map_values(seen).push(
                    (peer, item_views(items@)),
                ));
            },
            None => {
                blamed.push(peer);
            },
        }
    }
    assert(sent.take(sent.len() as int) =~= sent);
    let read = ConsensusOutcome { epoch: outcome.epoch, contributions };
    proof {
        if sent.len() > 0 {
            law_contributions_are_kept_or_blamed(sent, given, 0);
        }
        if all_read(outcome, given) {
            assert forall|i: int| 0 <= i < outcome.contributions.len() implies {
                &&& (#[trigger] read.contributions[i]).0 == outcome.contributions[i].0
                &&& read.contributions[i].1.len() == given[i].len()
                &&& forall|j: int|
                    0 <= j < given[i].len() ==> {
                        &&& (#[trigger] read.contributions[i].1[j]).wallet
                            == given[i][j]->0.wallet
                        &&& read.contributions[i].1[j].encoded@ == given[i][j]->0.encoded@
                    }
            } by {
                law_decodable_outcomes_are_read_in_full(outcome, given, i);
                assert(read@.1[i] == (read.contributions[i].0, item_views(
                    read.contributions[i].1@,
                )));
                assert forall|j: int| 0 <= j < given[i].len() implies {
                    &&& (#[trigger] read.contributions[i].1[j]).wallet == given[i][j]->0.wallet
                    &&& read.contributions[i].1[j].encoded@ == given[i][j]->0.encoded@
                } by {
                    assert(item_views(read.contributions[i].1@)[j]
                        == read.contributions[i].1[j]@);
                }
            }
            if sent.len() > 0 {
                law_decodable_outcomes_are_read_in_full(outcome, given, 0);
            }
        }
    }
    (read, blamed)
}

/// Every contribution is either kept or blamed on its member, and if all its items can be decoded
/// it is kept.
pub proof fn law_contributions_are_kept_or_blamed(
    contributions: EncodedContributions,
    readings: Seq<Vec<Reading>>,
    i: int,
)
    requires
        0 <= i < contributions.len(),
    ensures
        read_contributions(contributions, readings).len() + undecodable(contributions, readings).len()
            == contributions.len(),
        match read_items(contributions[i].1, readings_at(readings, i)) {
            Some(items) => read_contributions(contributions, readings).contains(
                (contributions[i].0, items),
            ),
            None => undecodable(contributions, readings).contains(contributions[i].0),
        },
    decreases contributions.len(),
{
    let rest = contributions.drop_last();
    let (peer, encoded) = contributions.last();
    let read = read_contributions(rest, readings);
    let blamed = undecodable(rest, readings);
    if i < rest.len() {
        law_contributions_are_kept_or_blamed(rest, readings, i);
        assert(rest[i] == contributions[i]);
        match read_items(encoded, readings_at(readings, rest.len() as int)) {
            Some(items) => {
                match read_items(contributions[i].1, readings_at(readings, i)) {
                    Some(mine) => {
                        lemma_push_members(read, (peer, items), (contributions[i].0, mine));
                    },
                    None => {},
                }
            },
            None => {
                lemma_push_members(blamed, peer, contributions[i].0);
            },
        }
    } else {
        if rest.len() > 0 {
            law_contributions_are_kept_or_blamed(rest, readings, 0);
        }
        match read_items(encoded, readings_at(readings, rest.len() as int)) {
            Some(items) => {
                lemma_push_members(read, (peer, items), (peer, items));
            },
            None => {
                lemma_push_members(blamed, peer, peer);
            },
        }
    }
}

/// A number that equal byte strings share.
pub open spec fn fingerprint_spec(bytes: Seq<u8>) -> u64
    decreases bytes.len(),
{
    if bytes.len() == 0 {
        0
    } else {
        fingerprint_spec(bytes.drop_last()).wrapping_mul(31).wrapping_add(bytes.last() as u64)
    }
}

fn fingerprint(bytes: &Vec<u8>) -> (h: u64)
    ensures
        h == fingerprint_spec(bytes@),
{
    let mut h: u64 = 0;
    assert(bytes@.take(0) =~= Seq::<u8>::empty());
    for i in 0..bytes.len()
        invariant
            h == fingerprint_spec(bytes@.take(i as int)),
    {
        assert(bytes@.take(i + 1).drop_last() =~= bytes@.take(i as int));
        h = h.wrapping_mul(31).wrapping_add(bytes[i] as u64);
    }
    assert(bytes@.take(bytes.len() as int) =~= bytes@);
    h
}

/// Whether two items are the same.
fn same_item(a: &ConsensusItem, b: &ConsensusItem) -> (same: bool)
    ensures
        same == (a@ == b@),
{
    if a.wallet != b.wallet || a.encoded.len() != b.encoded.len() {
        return false;
    }
    for i in 0..a.encoded.len()
        invariant
            a.encoded.len() == b.encoded.len(),
            forall|j: int| 0 <= j < i ==> a.encoded[j] == b.encoded[j],
    {
        if a.encoded[i] != b.encoded[i] {
            return false;
        }
    }
    assert(a.encoded@ =~= b.encoded@);
    true
}

/// A set of consensus items, kept in buckets of items with the same fingerprint.
pub struct ItemSet<'a> {
    buckets: HashMap<u64, Vec<&'a ConsensusItem>>,
}

impl<'a> View for ItemSet<'a> {
    type V = Set<ItemView>;

    closed spec fn view(&self) -> Set<ItemView> {
        Set::new(|item: ItemView| self.holds(item))
    }
}

impl<'a> ItemSet<'a> {
    closed spec fn holds(&self, item: ItemView) -> bool {
        let h = fingerprint_spec(item.1);
        self.buckets@.contains_key(h) && in_bucket(self.buckets@[h]@, item)
    }

    pub fn new() -> (set: Self)
        ensures
            set@ == Set::<ItemView>::empty(),
    {
        let set = ItemSet { buckets: HashMap::new() };
        assert(set@ =~= Set::<ItemView>::empty());
        set
    }

    pub fn insert(&mut self, item: &'a ConsensusItem)
        ensures
            final(self)@ == old(self)@.insert(item@),
    {
        let h: u64 = fingerprint(&item.encoded);
        let mut bucket: Vec<&'a ConsensusItem> = match self.buckets.remove(&h) {
            Some(bucket) => bucket,
            None => Vec::new(),
        };
        let ghost before = bucket@;
        bucket.push(item);
        self.buckets.insert(h, bucket);
        proof {
            lemma_bucket_push(before, item);
            assert(self@ =~= old(self)@.insert(item@));
        }
    }

    pub fn contains(&self, item: &ConsensusItem) -> (found: bool)
        ensures
            found == self@.contains(item@),
    {
        let h: u64 = fingerprint(&item.encoded);
        match self.buckets.get(&h) {
            Some(bucket) => {
                for i in 0..bucket.len()
                    invariant
                        self.buckets@.contains_key(h),
                        *bucket == self.buckets@[h],
                        h == fingerprint_spec(item.encoded@),
                        forall|j: int| 0 <= j < i ==> (#[trigger] bucket[j])@ != item@,
                {
                    if same_item(bucket[i], item) {
                        assert(in_bucket(bucket@, item@));
                        return true;
                    }
                }
                false
            },
            None => false,
        }
    }
}

/// The bucket holds the item.
spec fn in_bucket(bucket: Seq<&ConsensusItem>, item: ItemView) -> bool {
    exists|i: int| 0 <= i < bucket.len() && (#[trigger] bucket[i])@ == item
}

proof fn lemma_bucket_push(bucket: Seq<&ConsensusItem>, item: &ConsensusItem)
    ensures
        forall|other: ItemView| #[trigger]
            in_bucket(bucket.push(item), other) <==> in_bucket(bucket, other) || other == item@,
{
    assert forall|other: ItemView| #[trigger]
        in_bucket(bucket.push(item), other) <==> in_bucket(bucket, other) || other == item@ by {
        if in_bucket(bucket, other) {
            let i = choose|i: int| 0 <= i < bucket.len() && (#[trigger] bucket[i])@ == other;
            assert(bucket.push(item)[i]@ == other);
        }
        if other == item@ {
            assert(bucket.push(item)[bucket.len() as int]@ == other);
        }
        if in_bucket(bucket.push(item), other) && other != item@ {
            let i = choose|i: int|
                0 <= i < bucket.push(item).len() && (#[trigger] bucket.push(item)[i])@ == other;
            assert(bucket[i]@ == other);
        }
    }
}

/// Collects the items that need not be proposed again after `outcome`.
fn settled_items<'a>(outcome: &'a ConsensusOutcome) -> (set: ItemSet<'a>)
    ensures
        set@ == outcome.settled(),
{
    let mut set: ItemSet<'a> = ItemSet::new();
    for i in 0..outcome.contributions.len()
        invariant
            forall|item: ItemView|
                set@.contains(item) ==> outcome.settled().contains(item),
            forall|k: int, j: int|
                0 <= k < i && 0 <= j < outcome.contributions[k].1.len() && !(
                #[trigger] outcome.contributions[k].1[j]).wallet ==> set@.contains(
                    outcome.contributions[k].1[j]@,
                ),
    {
        let items: &'a Vec<ConsensusItem> = &outcome.contributions[i].1;
        for j in 0..items.len()
            invariant
                i < outcome.contributions.len(),
                *items == outcome.contributions[i as int].1,
                forall|item: ItemView|
                    set@.contains(item) ==> outcome.settled().contains(item),
                forall|k: int, l: int|
                    0 <= k < i && 0 <= l < outcome.contributions[k].1.len() && !(
                    #[trigger] outcome.contributions[k].1[l]).wallet ==> set@.contains(
                        outcome.contributions[k].1[l]@,
                    ),
                forall|l: int|
                    0 <= l < j && !(#[trigger] items[l]).wallet ==> set@.contains(items[l]@),
        {
            if !items[j].wallet {
                assert(outcome.contributions[i as int].1[j as int]@ == items[j as int]@);
                assert(outcome.includes(items[j as int]@));
                set.insert(&items[j]);
            }
        }
    }
    assert(set@ =~= outcome.settled());
    set
}

/// What is left of a proposal after `outcome`: the items that it did not settle, in their order.
pub open spec fn unsettled(
    proposal: Seq<ConsensusItem>,
    outcome: ConsensusOutcome,
) -> Seq<ConsensusItem> {
    proposal.filter(|item: ConsensusItem| !outcome.settled().contains(item@))
}

/// Takes the items that were already agreed on out of a proposal, so that they are not proposed
/// twice.
pub fn filter_proposal(
    proposal: Vec<ConsensusItem>,
    outcome: &ConsensusOutcome,
) -> (filtered: Vec<ConsensusItem>)
    ensures
        filtered@ == unsettled(proposal@, *outcome),
{
    let settled = settled_items(outcome);
    let ghost full = proposal@;
    let ghost keep = |item: ConsensusItem| !outcome.settled().contains(item@);
    let mut filtered: Vec<ConsensusItem> = Vec::new();
    for item in it: proposal.into_iter()
        invariant
            it.seq() == full,
            settled@ == outcome.settled(),
            keep == (|item: ConsensusItem| !outcome.settled().contains(item@)),
            filtered@ == full.take(it.index()).filter(keep),
    {
        proof {
            reveal(Seq::filter);
            assert(full.take(it.index() + 1).drop_last() =~= full.take(it.index()));
        }
        if !settled.contains(&item) {
            filtered.push(item);
        }
    }
    assert(full.take(full.len() as int) =~= full);
    filtered
}

/// An item stays in the proposal exactly if it was proposed, and is one of the wallet module or
/// was not agreed on.
pub proof fn law_only_agreed_items_are_dropped(
    proposal: Seq<ConsensusItem>,
    outcome: ConsensusOutcome,
    item: ConsensusItem,
)
    ensures
        unsettled(proposal, outcome).contains(item) <==> proposal.contains(item) && (item.wallet
            || !outcome.includes(item@)),
{
    lemma_filter_members(
        proposal,
        |i: ConsensusItem| !outcome.settled().contains(i@),
        item,
    );
}

/// Filtering a proposal with the same outcome again changes nothing.
pub proof fn law_filtering_is_idempotent(proposal: Seq<ConsensusItem>, outcome: ConsensusOutcome)
    ensures
        unsettled(unsettled(proposal, outcome), outcome) == unsettled(proposal, outcome),
    decreases proposal.len(),
{
    reveal(Seq::filter);
    let keep = |item: ConsensusItem| !outcome.settled().contains(item@);
    if proposal.len() > 0 {
        law_filtering_is_idempotent(proposal.drop_last(), outcome);
        let rest = proposal.drop_last().filter(keep);
        if keep(proposal.last()) {
            assert(rest.push(proposal.last()).drop_last() =~= rest);
        }
    }
}

/// Items are told apart by whether they are of the wallet module and by their whole encoding.
pub proof fn law_items_are_told_apart(a: ConsensusItem, b: ConsensusItem)
    ensures
        a@ == b@ <==> a.wallet == b.wallet && a.encoded@ == b.encoded@,
        a@.0 == a.wallet,
        a@.1 == a.encoded@,
{
}

/// Every item is sent in full: there are as many encodings as items, each holds all the bytes of
/// its item and no others, and other items are sent as other bytes.
pub proof fn law_items_are_sent_in_full(
    items: Seq<ConsensusItem>,
    others: Seq<ConsensusItem>,
    i: int,
    b: int,
)
    requires
        0 <= i < items.len(),
        0 <= b < items[i].encoded.len(),
    ensures
        encodings(items).len() == items.len(),
        encodings(items)[i].len() == items[i].encoded.len(),
        encodings(items)[i][b] == items[i].encoded[b],
        encodings(items) == encodings(others) ==> others.len() == items.len()
            && others[i].encoded@ == items[i].encoded@,
{
    if encodings(items) == encodings(others) {
        assert(encodings(items).len() == encodings(others).len());
        assert(encodings(others).len() == others.len());
        assert(encodings(others)[i] == others[i].encoded@);
    }
}

/// Byte strings are what they hold, byte by byte.
pub proof fn law_byte_strings_are_whole(encoded: Seq<Vec<u8>>, i: int)
    requires
        0 <= i < encoded.len(),
    ensures
        byte_strings(encoded).len() == encoded.len(),
        byte_strings(encoded)[i] == encoded[i]@,
{
}

/// An outcome is its epoch and, for every member that has contributed, all the items of the
/// contribution.
pub proof fn law_outcomes_are_whole(outcome: ConsensusOutcome, i: int, j: int)
    requires
        0 <= i < outcome.contributions.len(),
        0 <= j < outcome.contributions[i].1.len(),
    ensures
        outcome@.0 == outcome.epoch,
        outcome@.1.len() == outcome.contributions.len(),
        outcome@.1[i].0 == outcome.contributions[i].0,
        outcome@.1[i].1.len() == outcome.contributions[i].1.len(),
        outcome@.1[i].1[j].0 == outcome.contributions[i].1[j].wallet,
        outcome@.1[i].1[j].1 == outcome.contributions[i].1[j].encoded@,
{
}

/// An encoded outcome is its epoch and, for every member that has contributed, all the bytes of the
/// contribution.
pub proof fn law_encoded_outcomes_are_whole(outcome: EncodedOutcome, i: int, j: int)
    requires
        0 <= i < outcome.contributions.len(),
        0 <= j < outcome.contributions[i].1.len(),
    ensures
        outcome@.0 == outcome.epoch,
        outcome@.1.len() == outcome.contributions.len(),
        outcome@.1[i].0 == outcome.contributions[i].0,
        outcome@.1[i].1.len() == outcome.contributions[i].1.len(),
        outcome@.1[i].1[j] == outcome.contributions[i].1[j]@,
{
}

/// If every item of a contribution was decoded, the contribution has exactly the items that were
/// decoded, each where it was.
pub proof fn law_a_decodable_contribution_is_read_in_full(
    encoded: Seq<Seq<u8>>,
    readings: Seq<Reading>,
    i: int,
)
    requires
        readings.len() == encoded.len(),
        forall|j: int| 0 <= j < readings.len() ==> #[trigger] readings[j] is Some,
    ensures
        read_items(encoded, readings) is Some,
        read_items(encoded, readings)->0.len() == readings.len(),
        0 <= i < readings.len() ==> {
            &&& read_items(encoded, readings)->0[i].0 == readings[i]->0.wallet
            &&& read_items(encoded, readings)->0[i].1 == readings[i]->0.encoded@
        },
{
}

/// If one item of a contribution could not be decoded, or was not read, nothing of it is read.
pub proof fn law_an_undecodable_item_spoils_its_contribution(
    encoded: Seq<Seq<u8>>,
    readings: Seq<Reading>,
    i: int,
)
    requires
        readings.len() != encoded.len() || (0 <= i < readings.len() && readings[i] is None),
    ensures
        read_items(encoded, readings) is None,
{
}

/// One more contribution is kept behind the others or its member is blamed after the others,
/// by its own readings alone: it is kept if all of its items were decoded.
pub proof fn law_contributions_are_read_one_by_one(
    contributions: EncodedContributions,
    readings: Seq<Vec<Reading>>,
    peer: PeerId,
    encoded: Seq<Seq<u8>>,
    own: Vec<Reading>,
)
    requires
        readings.len() == contributions.len(),
    ensures
        ({
            let more = contributions.push((peer, encoded));
            let read = read_contributions(more, readings.push(own));
            let blamed = undecodable(more, readings.push(own));
            let before = read_contributions(contributions, readings);
            if own.len() == encoded.len() && forall|i: int|
                0 <= i < own.len() ==> #[trigger] own[i] is Some {
                &&& read.len() == before.len() + 1
                &&& read.drop_last() == before
                &&& read.last().0 == peer
                &&& read.last().1.len() == own.len()
                &&& forall|i: int|
                    0 <= i < own.len() ==> (#[trigger] read.last().1[i]).0 == own[i]->0.wallet
                        && read.last().1[i].1 == own[i]->0.encoded@
                &&& blamed == undecodable(contributions, readings)
            } else {
                &&& read == before
                &&& blamed == undecodable(contributions, readings).push(peer)
            }
        }),
{
    let more = contributions.push((peer, encoded));
    let all = readings.push(own);
    assert(more.drop_last() =~= contributions);
    lemma_later_readings(contributions, readings, own);
    assert(readings_at(all, contributions.len() as int) == own@);
    let before = read_contributions(contributions, readings);
    match read_items(encoded, own@) {
        Some(items) => {
            assert(before.push((peer, items)).drop_last() =~= before);
        },
        None => {},
    }
}

/// Readings of later contributions make no difference.
proof fn lemma_later_readings(
    contributions: EncodedContributions,
    readings: Seq<Vec<Reading>>,
    own: Vec<Reading>,
)
    requires
        contributions.len() <= readings.len(),
    ensures
        read_contributions(contributions, readings.push(own)) == read_contributions(
            contributions,
            readings,
        ),
        undecodable(contributions, readings.push(own)) == undecodable(contributions, readings),
    decreases contributions.len(),
{
    if contributions.len() > 0 {
        lemma_later_readings(contributions.drop_last(), readings, own);
        let last = contributions.len() - 1;
        assert(readings_at(readings.push(own), last) == readings_at(readings, last));
    }
}

/// If every item of an outcome was decoded, the outcome has every contribution, under its member
/// and in its place, with exactly the items that were decoded; and nobody is blamed.
pub proof fn law_decodable_outcomes_are_read_in_full(
    outcome: EncodedOutcome,
    readings: Seq<Vec<Reading>>,
    i: int,
)
    requires
        all_read(outcome, readings),
        0 <= i < outcome.contributions.len(),
    ensures
        undecodable(outcome@.1, readings).len() == 0,
        read_contributions(outcome@.1, readings).len() == outcome.contributions.len(),
        ({
            let (peer, items) = read_contributions(outcome@.1, readings)[i];
            &&& peer == outcome.contributions[i].0
            &&& items.len() == readings[i].len()
            &&& forall|j: int|
                0 <= j < readings[i].len() ==> {
                    &&& (#[trigger] items[j]).0 == readings[i][j]->0.wallet
                    &&& items[j].1 == readings[i][j]->0.encoded@
                }
        }),
{
    lemma_read_prefix(outcome, readings, outcome.contributions.len() as int);
    assert(outcome@.1.take(outcome.contributions.len() as int) =~= outcome@.1);
}

proof fn lemma_read_prefix(outcome: EncodedOutcome, readings: Seq<Vec<Reading>>, n: int)
    requires
        all_read(outcome, readings),
        0 <= n <= outcome.contributions.len(),
    ensures
        undecodable(outcome@.1.take(n), readings).len() == 0,
        read_contributions(outcome@.1.take(n), readings).len() == n,
        forall|i: int|
            0 <= i < n ==> {
                let (peer, items) = #[trigger] read_contributions(outcome@.1.take(n), readings)[i];
                &&& peer == outcome.contributions[i].0
                &&& items == readings[i]@.map_values(|reading: Reading| reading->0@)
            },
    decreases n,
{
    if n > 0 {
        lemma_read_prefix(outcome, readings, n - 1);
        let own = readings[n - 1];
        assert(outcome@.1.take(n).drop_last() =~= outcome@.1.take(n - 1));
        assert(outcome@.1.take(n).last() == outcome@.1[n - 1]);
        assert forall|j: int| 0 <= j < own.len() implies #[trigger] own[j] is Some by {
            assert(readings[n - 1][j] is Some);
        }
        assert(read_items(outcome@.1[n - 1].1, readings_at(readings, n - 1)) == Some(
            own@.map_values(|reading: Reading| reading->0@),
        ));
    }
}

/// Whether an item stays in a proposal does not depend on the other items, and those that stay keep
/// their order: an item goes exactly if it is not one of the wallet module and some member has
/// contributed the same bytes, also not as an item of the wallet module.
pub proof fn law_items_are_dropped_one_by_one(
    proposal: Seq<ConsensusItem>,
    item: ConsensusItem,
    outcome: ConsensusOutcome,
)
    ensures
        unsettled(Seq::empty(), outcome).len() == 0,
        if !item.wallet && exists|i: int, j: int|
            0 <= i < outcome.contributions.len() && 0 <= j < outcome.contributions[i].1.len()
                && !(#[trigger] outcome.contributions[i].1[j]).wallet
                && outcome.contributions[i].1[j].encoded@ == item.encoded@ {
            unsettled(proposal.push(item), outcome) == unsettled(proposal, outcome)
        } else {
            unsettled(proposal.push(item), outcome) == unsettled(proposal, outcome).push(item)
        },
{
    let keep = |item: ConsensusItem| !outcome.settled().contains(item@);
    crate::sequences::lemma_filter_push(proposal, item, keep);
    if !item.wallet {
        if outcome.includes(item@) {
            let (i, j) = choose|i: int, j: int|
                0 <= i < outcome.contributions.len() && 0 <= j < outcome.contributions[i].1.len()
                    && (#[trigger] outcome.contributions[i].1[j])@ == item@;
            assert(!outcome.contributions[i].1[j].wallet);
        }
        if exists|i: int, j: int|
            0 <= i < outcome.contributions.len() && 0 <= j < outcome.contributions[i].1.len()
                && !(#[trigger] outcome.contributions[i].1[j]).wallet
                && outcome.contributions[i].1[j].encoded@ == item.encoded@ {
            let (i, j) = choose|i: int, j: int|
                0 <= i < outcome.contributions.len() && 0 <= j < outcome.contributions[i].1.len()
                    && !(#[trigger] outcome.contributions[i].1[j]).wallet
                    && outcome.contributions[i].1[j].encoded@ == item.encoded@;
            assert(outcome.contributions[i].1[j]@ == item@);
            assert(outcome.includes(item@));
        }
    }
}

/// Every contribution adds all of its items to the count.
pub proof fn law_every_contribution_is_counted(outcome: ConsensusOutcome, k: int)
    requires
        0 <= k < outcome.contributions.len(),
    ensures
        outcome.items_in(0) == 0,
        outcome.items_in(k + 1) - outcome.items_in(k) == outcome.contributions[k].1.len(),
{
}

/// A contribution that was not read at all is kept only if there is nothing in it.
pub proof fn law_what_was_not_read_is_blamed(
    contributions: EncodedContributions,
    readings: Seq<Vec<Reading>>,
    peer: PeerId,
    encoded: Seq<Seq<u8>>,
)
    requires
        readings.len() <= contributions.len(),
        encoded.len() > 0,
    ensures
        ({
            let more = contributions.push((peer, encoded));
            &&& read_contributions(more, readings) == read_contributions(contributions, readings)
            &&& undecodable(more, readings) == undecodable(contributions, readings).push(peer)
        }),
{
    assert(contributions.push((peer, encoded)).drop_last() =~= contributions);
}

} // verus!
