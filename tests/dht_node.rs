use std::cmp::Ordering;
use tox::crypto::{distance, PublicKey};
use tox::dht_node::{
    replace_order, DhtNode, IpAddress, NodeStatus, PackedNode, ReplaceOrder, SocketAddress,
};

fn local_addr() -> SocketAddress {
    SocketAddress { ip: IpAddress::V4([127, 0, 0, 1]), port: 33445 }
}

fn random_pk() -> PublicKey {
    PublicKey(rand::random::<[u8; 32]>())
}

fn node_at(pk: PublicKey, now: u64) -> DhtNode {
    DhtNode::new(PackedNode { pk, saddr: local_addr() }, now)
}

#[test]
fn client_data_clonable() {
    let pn = PackedNode { pk: random_pk(), saddr: local_addr() };
    let client = DhtNode::new(pn, 0);
    let _ = client.clone();
}

#[test]
fn client_data_insert_new_ping_id_test() {
    let pn = PackedNode { pk: random_pk(), saddr: local_addr() };
    let mut client = DhtNode::new(pn, 0);

    let ping_id = client.insert_new_ping_id(0);

    assert!(client.ping_hash.contains_key(&ping_id));
}

#[test]
fn client_data_check_ping_id_test() {
    let pn = PackedNode { pk: random_pk(), saddr: local_addr() };
    let mut client = DhtNode::new(pn, 0);

    let ping_id = client.insert_new_ping_id(0);

    let dur = 1000;
    // give incorrect ping_id
    assert!(!client.check_ping_id(0, dur, 0));
    assert!(!client.check_ping_id(ping_id.wrapping_add(1), dur, 0));

    // Though ping_id is correct, it is timed-out
    let dur = 0;
    assert!(!client.check_ping_id(ping_id, dur, 1));

    // Now, timeout duration is 5 seconds
    let dur = 5000;

    let ping_id = client.insert_new_ping_id(1);
    assert!(client.check_ping_id(ping_id, dur, 1));
}

#[test]
fn client_data_clear_timedout_pings_test() {
    let pn = PackedNode { pk: random_pk(), saddr: local_addr() };
    let mut client = DhtNode::new(pn, 0);

    // ping_id should be removed
    let ping_id = client.insert_new_ping_id(0);
    client.clear_timedout_pings(0, 1);
    assert!(!client.check_ping_id(ping_id, 1000, 1));

    // ping_id should remain
    let ping_id = client.insert_new_ping_id(1);
    client.clear_timedout_pings(1000, 1);
    assert!(client.check_ping_id(ping_id, 1000, 1));
}

#[test]
fn new_node_starts_clean() {
    let pk = PublicKey([7; 32]);
    let node = node_at(pk, 42);
    assert_eq!(node.pk, pk);
    assert_eq!(node.saddr, local_addr());
    assert!(node.ping_hash.is_empty());
    assert_eq!(node.last_resp_time, 42);
    assert_eq!(node.last_ping_req_time, 42);
}

#[test]
fn calc_status_at_threshold() {
    let node = node_at(PublicKey([0; 32]), 1_000);
    assert_eq!(node.calc_status(162_000, 1_000), NodeStatus::Good);
    assert_eq!(node.calc_status(162_000, 163_000), NodeStatus::Good);
    assert_eq!(node.calc_status(162_000, 163_001), NodeStatus::Bad);
    // a clock that went backwards counts as no time elapsed
    assert_eq!(node.calc_status(0, 500), NodeStatus::Good);
}

#[test]
fn calc_status_stays_bad_later() {
    let node = node_at(PublicKey([0; 32]), 0);
    let mut now: u64 = 0;
    let mut seen_bad = false;
    while now < 400_000 {
        let status = node.calc_status(162_000, now);
        if seen_bad {
            assert_eq!(status, NodeStatus::Bad);
        }
        seen_bad = status == NodeStatus::Bad;
        now += 1_000;
    }
    assert!(seen_bad);
}

#[test]
fn issued_ping_ids_distinct_and_checked_once() {
    let mut node = node_at(random_pk(), 0);
    let mut ids: Vec<u64> = Vec::new();
    for _ in 0..50 {
        let id = node.insert_new_ping_id(0);
        assert_ne!(id, 0);
        assert!(!ids.contains(&id));
        ids.push(id);
    }
    assert_eq!(node.ping_hash.len(), 50);
    for id in &ids {
        assert!(node.check_ping_id(*id, 5_000, 1_000));
    }
    for id in &ids {
        assert!(!node.check_ping_id(*id, 5_000, 1_000));
    }
    assert!(node.ping_hash.is_empty());
}

#[test]
fn zero_ping_id_never_valid() {
    let mut node = node_at(random_pk(), 0);
    let id = node.insert_new_ping_id(0);
    assert!(!node.check_ping_id(0, u64::MAX, 0));
    assert_eq!(node.ping_hash.len(), 1);
    assert!(node.ping_hash.contains_key(&id));
}

#[test]
fn ping_checked_at_three_seconds_then_again() {
    let mut node = node_at(random_pk(), 0);
    let x = node.insert_new_ping_id(0);
    assert_eq!(node.last_ping_req_time, 0);
    assert!(node.check_ping_id(x, 5_000, 3_000));
    assert!(!node.ping_hash.contains_key(&x));
    assert!(!node.check_ping_id(x, 5_000, 4_000));
}

#[test]
fn expired_ping_cleared_at_ten_seconds() {
    let mut node = node_at(random_pk(), 0);
    let x = node.insert_new_ping_id(0);
    node.clear_timedout_pings(5_000, 10_000);
    assert!(!node.ping_hash.contains_key(&x));
    assert!(node.ping_hash.is_empty());
}

#[test]
fn late_ping_removed_and_rejected() {
    let mut node = node_at(random_pk(), 0);
    let x = node.insert_new_ping_id(0);
    assert!(!node.check_ping_id(x, 5_000, 6_000));
    assert!(!node.ping_hash.contains_key(&x));
}

#[test]
fn distance_compares_xor() {
    let base = PublicKey([0x0f; 32]);
    let mut a = [0x0f; 32];
    a[31] = 0x0e; // distance ...01
    let mut b = [0x0f; 32];
    b[0] = 0x0e; // distance 01...
    assert_eq!(distance(&base, &PublicKey(a), &PublicKey(b)), Ordering::Less);
    assert_eq!(distance(&base, &PublicKey(b), &PublicKey(a)), Ordering::Greater);
    assert_eq!(distance(&base, &PublicKey(a), &PublicKey(a)), Ordering::Equal);
    assert_eq!(distance(&base, &base, &PublicKey(a)), Ordering::Less);
}

#[test]
fn replace_order_prefers_good_then_close() {
    let base = PublicKey([0; 32]);
    let near = PublicKey([1; 32]);
    let far = PublicKey([2; 32]);
    let timeout = 162_000;
    let now = 200_000;
    let good_near = node_at(near, now);
    let good_far = node_at(far, now);
    let bad_near = node_at(near, 0);
    let bad_far = node_at(far, 0);

    assert_eq!(replace_order(&base, &good_near, &good_far, timeout, now), Ordering::Less);
    assert_eq!(replace_order(&base, &good_far, &good_near, timeout, now), Ordering::Greater);
    assert_eq!(replace_order(&base, &good_far, &bad_near, timeout, now), Ordering::Less);
    assert_eq!(replace_order(&base, &bad_near, &good_far, timeout, now), Ordering::Greater);
    assert_eq!(replace_order(&base, &bad_near, &bad_far, timeout, now), Ordering::Less);
    assert_eq!(replace_order(&base, &bad_far, &bad_far, timeout, now), Ordering::Equal);
    assert_eq!(base.replace_order(&good_near, &good_far, timeout, now), Ordering::Less);
    assert_eq!(base.replace_order(&bad_near, &good_far, timeout, now), Ordering::Greater);
}

#[test]
fn replace_order_is_consistent() {
    let base = random_pk();
    let timeout = 162_000;
    let now = 200_000;
    let nodes: Vec<DhtNode> = (0..6)
        .map(|i| node_at(random_pk(), if i % 2 == 0 { now } else { 0 }))
        .collect();
    for a in &nodes {
        assert_eq!(replace_order(&base, a, a, timeout, now), Ordering::Equal);
        for b in &nodes {
            let ab = replace_order(&base, a, b, timeout, now);
            let ba = replace_order(&base, b, a, timeout, now);
            assert_eq!(ab, ba.reverse());
            for c in &nodes {
                let bc = replace_order(&base, b, c, timeout, now);
                if ab == Ordering::Less && bc == Ordering::Less {
                    assert_eq!(replace_order(&base, a, c, timeout, now), Ordering::Less);
                }
            }
        }
    }
}
