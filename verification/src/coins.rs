//! The coins that the benchmark spends. They are issued out of nothing: every member signs for
//! them without being paid.

use crate::federation::{
    lists, peer_ids, signing_threshold, threshold, Amount, PeerId, DENOMINATION,
};
use std::collections::BTreeMap;
use vstd::prelude::*;

verus! {

/// The keys that a coin is spent with.
pub struct SpendKeys {
    pub secret: [u8; 32],
    pub public: [u8; 32],
}

impl SpendKeys {
    /// The keys belong together.
    pub open spec fn matching(self) -> bool {
        self.public@ == public_key(self.secret@)
    }
}

/// A coin: its nonce, which is the public key that it is spent with, and the federation's
/// signature of type `G`. With it goes the secret key that it is spent with.
pub struct SpendableCoin<G> {
    pub nonce: [u8; 32],
    pub signature: G,
    pub spend_key: [u8; 32],
}

/// The serialised Schnorr public key that `XOnlyPublicKey::from_keypair` derives from a secret
/// key.
pub uninterp spec fn public_key(secret: Seq<u8>) -> Seq<u8>;

/// Calls `Secp256k1::generate_schnorrsig_keypair` with the thread's random number generator. The
/// secret key is left to chance; the public key is the one that is derived from it.
#[verifier::external_body]
#[allow(deprecated)]
fn generate_keys() -> (keys: SpendKeys)
    ensures
        keys.public@ == public_key(keys.secret@),
{
    let mut rng = rand::thread_rng();
    let (pair, public) = secp256k1_zkp::SECP256K1.generate_schnorrsig_keypair(&mut rng);
    SpendKeys { secret: pair.secret_bytes(), public: public.serialize() }
}

/// Draws the keys of a new coin. Its public key is what the federation signs blindly.
pub fn new_coin_keys() -> (keys: SpendKeys)
    ensures
        keys.matching(),
{
    generate_keys()
}

/// What the federation's signature is combined from: shares of type `S`, each with the index of
/// the member that made it, and how many of them it takes.
pub struct CombineRequest<S> {
    pub shares: Vec<(usize, S)>,
    pub threshold: usize,
}

/// Prepares the signature shares of a coin for being combined. `shares` holds one share of every
/// member of the federation, in the order of their identifiers.
pub fn combine_request<P, S>(peers: &BTreeMap<PeerId, P>, shares: Vec<S>) -> (request:
    CombineRequest<S>)
    requires
        peers@.len() > 0,
        shares.len() == peers@.len(),
    ensures
        request.threshold == threshold(peers@.len()),
        request.shares.len() == shares.len(),
        lists(request.shares@.map_values(|s: (usize, S)| s.0 as PeerId), peers@.dom()),
        forall|i: int|
            0 <= i < shares.len() ==> (#[trigger] request.shares[i]).0 <= PeerId::MAX
                && request.shares[i].1 == shares[i],
        forall|i: int|
            0 <= i < shares.len() ==> peers@.contains_key(
                (#[trigger] request.shares[i]).0 as PeerId,
            ),
        forall|i: int, j: int|
            0 <= i < j < shares.len() ==> (#[trigger] request.shares[i]).0 < (
            #[trigger] request.shares[j]).0,
        3 * (peers@.len() - request.threshold) < peers@.len(),
        3 * (peers@.len() - request.threshold + 1) >= peers@.len(),
{
    let ids = peer_ids(peers);
    let threshold: usize = signing_threshold(ids.len());
    let ghost all = shares@;
    let mut labelled: Vec<(usize, S)> = Vec::new();
    let mut i: usize = 0;
    for share in it: shares.into_iter()
        invariant
            it.seq() == all,
            all.len() == ids.len(),
            i == it.index(),
            labelled.len() == i,
            forall|j: int|
                0 <= j < i ==> (#[trigger] labelled[j]).0 == ids[j] && labelled[j].1 == all[j],
    {
        labelled.push((ids[i] as usize, share));
        i = i + 1;
    }
    assert(labelled@.map_values(|s: (usize, S)| s.0 as PeerId) =~= ids@);
    assert forall|j: int| 0 <= j < labelled.len() implies peers@.contains_key(
        (#[trigger] labelled[j]).0 as PeerId,
    ) by {
        assert(ids@.contains(ids@[j]));
    }
    CombineRequest { shares: labelled, threshold }
}

/// The coin that was signed for under these keys.
pub open spec fn signed_coin<G>(keys: SpendKeys, signature: G) -> SpendableCoin<G> {
    SpendableCoin { nonce: keys.public, signature, spend_key: keys.secret }
}

/// Makes coins out of keys and the federation's signatures for them, all of the benchmark's only
/// denomination.
pub fn free_money<G>(signed: Vec<(SpendKeys, G)>) -> (coins: Vec<(Amount, SpendableCoin<G>)>)
    ensures
        coins@ == signed@.map_values(
            |s: (SpendKeys, G)| (DENOMINATION, signed_coin(s.0, s.1)),
        ),
        coins.len() == signed.len(),
        forall|i: int|
            0 <= i < signed.len() ==> {
                &&& (#[trigger] coins[i]).0 == DENOMINATION
                &&& coins[i].1.nonce == signed[i].0.public
                &&& coins[i].1.spend_key == signed[i].0.secret
                &&& coins[i].1.signature == signed[i].1
            },
{
    let ghost all = signed@;
    let mut coins: Vec<(Amount, SpendableCoin<G>)> = Vec::new();
    for entry in it: signed.into_iter()
        invariant
            it.seq() == all,
            coins.len() == it.index(),
            forall|i: int|
                0 <= i < coins.len() ==> #[trigger] coins[i] == (
                    DENOMINATION,
                    signed_coin(all[i].0, all[i].1),
                ),
    {
        let (keys, signature) = entry;
        let coin = SpendableCoin { nonce: keys.public, signature, spend_key: keys.secret };
        coins.push((DENOMINATION, coin));
    }
    assert(coins@ =~= all.map_values(
        |s: (SpendKeys, G)| (DENOMINATION, signed_coin(s.0, s.1)),
    ));
    coins
}

/// What coins are worth together.
pub open spec fn value<G>(coins: Seq<(Amount, SpendableCoin<G>)>) -> nat
    decreases coins.len(),
{
    if coins.len() == 0 {
        0
    } else {
        value(coins.drop_last()) + coins.last().0 as nat
    }
}

/// As many coins are made as were signed for, and together they are worth as many times the
/// denomination.
pub proof fn law_value_of_free_money<G>(signed: Seq<(SpendKeys, G)>)
    ensures
        value(
            signed.map_values(|s: (SpendKeys, G)| (DENOMINATION, signed_coin(s.0, s.1))),
        ) == signed.len() * DENOMINATION,
    decreases signed.len(),
{
    let make = |s: (SpendKeys, G)| (DENOMINATION, signed_coin(s.0, s.1));
    if signed.len() > 0 {
        law_value_of_free_money(signed.drop_last());
        assert(signed.map_values(make).drop_last() =~= signed.drop_last().map_values(make));
    }
}

/// The holder of a coin can spend it: its nonce is the public key that belongs to its spend key.
pub proof fn law_coins_are_spendable<G>(keys: SpendKeys, signature: G)
    requires
        keys.matching(),
    ensures
        signed_coin(keys, signature).nonce@ == public_key(
            signed_coin(keys, signature).spend_key@,
        ),
{
}

/// A coin holds the signature that was made for its keys, and two coins are the same only if their
/// keys and their signatures are.
pub proof fn law_coins_hold_their_keys_and_signature<G>(
    a: SpendKeys,
    x: G,
    b: SpendKeys,
    y: G,
)
    ensures
        signed_coin(a, x).signature == x,
        signed_coin(a, x).nonce == a.public,
        signed_coin(a, x).spend_key == a.secret,
        signed_coin(a, x) == signed_coin(b, y) <==> a == b && x == y,
{
}

/// Keys belong together exactly if the public one is derived from the secret one.
pub proof fn law_matching_keys_are_derived(keys: SpendKeys)
    ensures
        keys.matching() <==> keys.public@ == public_key(keys.secret@),
{
}

/// One more coin makes coins worth more by its own amount.
pub proof fn law_every_coin_adds_its_amount<G>(
    coins: Seq<(Amount, SpendableCoin<G>)>,
    coin: (Amount, SpendableCoin<G>),
)
    ensures
        value(Seq::<(Amount, SpendableCoin<G>)>::empty()) == 0,
        value(coins.push(coin)) == value(coins) + coin.0,
{
    assert(coins.push(coin).drop_last() =~= coins);
}

} // verus!
