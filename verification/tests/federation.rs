use minimint_benchmark::federation::{
    all_peers, choose_offline, choose_online, generate_cfg, is_offline, peer_ids,
    peers_are_numbered, signing_threshold, DENOMINATION,
};
use std::collections::BTreeMap;

#[test]
fn peer_ids_are_ascending() {
    let mut peers = BTreeMap::new();
    peers.insert(7, "seven");
    peers.insert(2, "two");
    peers.insert(300, "three hundred");
    assert_eq!(peer_ids(&peers), vec![2, 7, 300]);
    let nobody: BTreeMap<u16, ()> = BTreeMap::new();
    assert!(peer_ids(&nobody).is_empty());
}

#[test]
fn members_have_to_be_numbered_from_zero() {
    let numbered = |ids: &[u16]| {
        let peers: BTreeMap<u16, ()> = ids.iter().map(|id| (*id, ())).collect();
        peers_are_numbered(&peers)
    };
    assert!(numbered(&[0]));
    assert!(numbered(&[2, 0, 1]));
    assert!(!numbered(&[]));
    assert!(!numbered(&[1]));
    assert!(!numbered(&[0, 2]));
    assert!(!numbered(&[1, 2, 3]));
}

#[test]
fn threshold_leaves_out_those_that_may_misbehave() {
    assert_eq!(signing_threshold(1), 1);
    assert_eq!(signing_threshold(3), 3);
    assert_eq!(signing_threshold(4), 3);
    assert_eq!(signing_threshold(6), 5);
    assert_eq!(signing_threshold(7), 5);
    assert_eq!(signing_threshold(10), 7);
}

#[test]
fn two_thresholds_share_an_honest_member() {
    for n in 1..200usize {
        let t = signing_threshold(n);
        let faulty = n - t;
        assert!(3 * faulty < n && n <= 3 * (faulty + 1));
        assert!(2 * t - n > faulty);
    }
}

#[test]
fn configuration_of_seven_members() {
    let request = generate_cfg(&all_peers(7));
    assert_eq!(request.max_evil, 2);
    assert_eq!(request.params.hbbft_base_port, 4000);
    assert_eq!(request.params.api_base_port, 5000);
    assert_eq!(request.params.amount_tiers, vec![DENOMINATION]);
    assert_eq!(DENOMINATION, 1);
}

#[test]
fn the_last_members_are_offline() {
    let peers = all_peers(5);
    assert_eq!(peers, vec![0, 1, 2, 3, 4]);
    let offline = choose_offline(&peers, 2);
    assert_eq!(offline, vec![4, 3]);
    assert_eq!(choose_online(&peers, &offline), vec![0, 1, 2]);
    assert!(is_offline(&offline, 3));
    assert!(!is_offline(&offline, 2));
}

#[test]
fn no_more_members_are_offline_than_there_are() {
    let peers = all_peers(3);
    assert_eq!(choose_offline(&peers, 10), vec![2, 1, 0]);
    assert!(choose_online(&peers, &choose_offline(&peers, 10)).is_empty());
    assert!(choose_offline(&peers, 0).is_empty());
    assert_eq!(choose_online(&peers, &choose_offline(&peers, 0)), peers);
    assert!(all_peers(0).is_empty());
}
