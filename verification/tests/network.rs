use minimint_benchmark::network::{start_latency_network, LatencyNetwork, Packet, Target};
use std::collections::BTreeMap;

fn channels(names: &[&'static str]) -> Vec<(String, &'static str)> {
    names.iter().map(|name| (format!("to {}", name), *name)).collect()
}

fn three_nodes(offline: Vec<u16>) -> BTreeMap<u16, LatencyNetwork<String, &'static str>> {
    start_latency_network(50, &[0, 1, 2], offline, channels(&["a", "b", "c"]))
}

#[test]
fn all_members_are_connected() {
    let nets = three_nodes(vec![2]);
    assert_eq!(nets.keys().copied().collect::<Vec<_>>(), vec![0, 1, 2]);
    let names = ["a", "b", "c"];
    for (id, net) in nets.iter() {
        assert_eq!(net.id, *id);
        assert_eq!(net.latency, 50);
        assert_eq!(net.offline_peers, vec![2]);
        assert_eq!(net.receive, names[*id as usize]);
        assert_eq!(net.peers.len(), 2);
        for (peer, sender) in net.peers.iter() {
            assert_ne!(peer, id);
            assert_eq!(*sender, format!("to {}", nets[peer].receive));
        }
    }
}

#[test]
fn a_repeated_member_has_its_last_channel() {
    let nets = start_latency_network(1, &[5, 3, 5], vec![], channels(&["x", "y", "z"]));
    assert_eq!(nets.len(), 2);
    assert_eq!(nets[&5].receive, "z");
    assert_eq!(nets[&3].peers[&5], "to z");
    assert_eq!(nets[&5].peers[&3], "to y");
}

#[test]
fn a_network_without_members() {
    let nets = start_latency_network(1, &[], vec![], Vec::<(u8, u8)>::new());
    assert!(nets.is_empty());
}

#[test]
fn a_broadcast_skips_the_sender_and_those_offline() {
    let nets = three_nodes(vec![2]);
    let outgoing = nets[&0].send(100, Target::All, "hello".to_string());
    assert_eq!(outgoing.len(), 1);
    assert_eq!(outgoing[0].0, 1);
    assert_eq!(outgoing[0].1.sender, 0);
    assert_eq!(outgoing[0].1.delivery_at, 150);
    assert_eq!(outgoing[0].1.msg, "hello");

    let nets = three_nodes(vec![]);
    let outgoing = nets[&1].send(7, Target::All, 9u8);
    assert_eq!(outgoing.iter().map(|o| o.0).collect::<Vec<_>>(), vec![0, 2]);
    assert!(outgoing.iter().all(|o| o.1.sender == 1 && o.1.msg == 9 && o.1.delivery_at == 57));
}

#[test]
fn a_message_to_a_single_member() {
    let nets = three_nodes(vec![2]);
    let outgoing = nets[&0].send(1, Target::Node(1), 3u8);
    assert_eq!(outgoing.len(), 1);
    assert_eq!(outgoing[0].0, 1);
    assert_eq!(outgoing[0].1.delivery_at, 51);
    assert_eq!(outgoing[0].1.msg, 3);
    assert!(nets[&0].send(1, Target::Node(2), 3u8).is_empty());
}

#[test]
fn messages_take_one_latency() {
    let nets = three_nodes(vec![]);
    let packet = Packet { sender: 2, delivery_at: 150, msg: "m" };
    let early = nets[&0].receive(120, packet);
    assert_eq!(early.wait, 30);
    assert_eq!(early.sender, 2);
    assert_eq!(early.msg, "m");
    let due = nets[&0].receive(150, Packet { sender: 2, delivery_at: 150, msg: "m" });
    assert_eq!(due.wait, 0);
    let late = nets[&0].receive(1000, Packet { sender: 2, delivery_at: 150, msg: "m" });
    assert_eq!(late.wait, 0);
}
