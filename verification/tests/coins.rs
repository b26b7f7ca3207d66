use minimint_benchmark::coins::{combine_request, free_money, new_coin_keys, SpendKeys};
use secp256k1_zkp::{KeyPair, XOnlyPublicKey, SECP256K1};
use std::collections::BTreeMap;

#[test]
fn the_keys_of_a_coin_belong_together() {
    let keys = new_coin_keys();
    let pair = KeyPair::from_seckey_slice(SECP256K1, &keys.secret).unwrap();
    assert_eq!(XOnlyPublicKey::from_keypair(&pair).serialize(), keys.public);
    assert_ne!(keys.secret, keys.public);
    assert_ne!(new_coin_keys().secret, keys.secret);
}

#[test]
fn every_member_contributes_a_share() {
    let mut peers = BTreeMap::new();
    for id in [3u16, 0, 1, 2] {
        peers.insert(id, ());
    }
    let request = combine_request(&peers, vec!["s0", "s1", "s2", "s3"]);
    assert_eq!(request.shares, vec![(0, "s0"), (1, "s1"), (2, "s2"), (3, "s3")]);
    assert_eq!(request.threshold, 3);

    let alone: BTreeMap<u16, ()> = [(9, ())].into_iter().collect();
    let request = combine_request(&alone, vec!['x']);
    assert_eq!(request.shares, vec![(9, 'x')]);
    assert_eq!(request.threshold, 1);
}

#[test]
fn free_money_is_made_of_signed_keys() {
    let signed = vec![
        (SpendKeys { secret: [1; 32], public: [2; 32] }, "first"),
        (SpendKeys { secret: [3; 32], public: [4; 32] }, "second"),
    ];
    let coins = free_money(signed);
    assert_eq!(coins.len(), 2);
    assert_eq!(coins.iter().map(|c| c.0).sum::<u64>(), 2);
    assert_eq!(coins[0].1.nonce, [2; 32]);
    assert_eq!(coins[0].1.spend_key, [1; 32]);
    assert_eq!(coins[0].1.signature, "first");
    assert_eq!(coins[1].1.nonce, [4; 32]);
    assert_eq!(coins[1].1.spend_key, [3; 32]);
    assert_eq!(coins[1].1.signature, "second");
    assert!(free_money(Vec::<(SpendKeys, u8)>::new()).is_empty());
}

#[test]
fn free_coins_are_spendable() {
    let coins = free_money(vec![(new_coin_keys(), ())]);
    let pair = KeyPair::from_seckey_slice(SECP256K1, &coins[0].1.spend_key).unwrap();
    assert_eq!(XOnlyPublicKey::from_keypair(&pair).serialize(), coins[0].1.nonce);
}
