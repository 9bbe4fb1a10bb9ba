use rustydht::addr::{Addr, Node};
use rustydht::address_source::AddressSource;
use rustydht::dht::{keep_subscriber, screen_packet, PacketAction, SendOutcome};
use rustydht::id::Id;
use rustydht::messages::{PeersOrNodes, Response, ResponseKind};
use rustydht::node_storage::{bucket_for, NodeStorage, NodeWrapper};
use rustydht::operations::{
    announce_request, announce_targets, GetPeersResponder, GetPeersResult, Lookup, RoundAction,
};
use rustydht::peer_storage::PeerStorage;
use rustydht::messages::RequestKind;
use rustydht::throttler::Throttler;
use rustydht::token::{calculate_token, make_token_secret, TokenSecrets};
use rustydht::transactions::TransactionTable;

fn id_from_hex(s: &str) -> Id {
    let b = s.as_bytes();
    let mut bytes = [0u8; 20];
    for i in 0..20 {
        let hi = (b[2 * i] as char).to_digit(16).unwrap() as u8;
        let lo = (b[2 * i + 1] as char).to_digit(16).unwrap() as u8;
        bytes[i] = hi * 16 + lo;
    }
    Id::new(bytes)
}

fn id_with_first(b: u8) -> Id {
    let mut bytes = [0u8; 20];
    bytes[0] = b;
    Id::new(bytes)
}

fn ip(a: u8, b: u8, c: u8, d: u8) -> u32 {
    u32::from_be_bytes([a, b, c, d])
}

#[test]
fn xor_is_symmetric_and_zero_on_self() {
    for _ in 0..50 {
        let a = Id::from_random();
        let b = Id::from_random();
        assert_eq!(a.xor(&b), b.xor(&a));
        assert_eq!(a.xor(&a), Id::zero());
    }
    let a = id_from_hex("0011223344556677889900112233445566778899");
    let b = id_from_hex("ff00ff00ff00ff00ff00ff00ff00ff00ff00ff00");
    assert_eq!(a.xor(&b), id_from_hex("ff11dd33bb5599777799ff11dd33bb5599777799"));
}

#[test]
fn distance_order_is_big_endian() {
    let t = Id::zero();
    assert!(id_with_first(1).nearer_to(&id_with_first(2), &t));
    assert!(!id_with_first(2).nearer_to(&id_with_first(1), &t));
    let mut low = [0u8; 20];
    low[19] = 0xff;
    assert!(Id::new(low).nearer_to(&id_with_first(1), &t));
    assert!(Id::new(low).less_than(&id_with_first(1)));
}

#[test]
fn secure_id_test_vectors() {
    assert!(id_from_hex("5fbfbff10c5d6a4ec8a88e4c6ab4c28b95eee401").is_valid_for_ip(ip(124, 31, 75, 21)));
    assert!(id_from_hex("5a3ce9c14e7a08645677bbd1cfe7d8f956d53256").is_valid_for_ip(ip(21, 75, 31, 124)));
    assert!(id_from_hex("a5d43220bc8f112a3d426c84764f8c2a1150e616").is_valid_for_ip(ip(65, 23, 51, 170)));
    assert!(id_from_hex("1b0321dd1bb1fe518101ceef99462b947a01ff41").is_valid_for_ip(ip(84, 124, 73, 14)));
    assert!(id_from_hex("e56f6cbf5b7c4be0237986d5243b87aa6d51305a").is_valid_for_ip(ip(43, 213, 53, 83)));
    assert!(!id_from_hex("0011223344556677889900112233445566778899").is_valid_for_ip(ip(124, 31, 75, 21)));
}

#[test]
fn private_addresses_accept_any_id() {
    let any = id_from_hex("0011223344556677889900112233445566778899");
    assert!(any.is_valid_for_ip(ip(127, 0, 0, 1)));
    assert!(any.is_valid_for_ip(ip(10, 1, 2, 3)));
    assert!(any.is_valid_for_ip(ip(172, 20, 0, 1)));
    assert!(any.is_valid_for_ip(ip(192, 168, 1, 1)));
    assert!(any.is_valid_for_ip(ip(169, 254, 3, 4)));
}

#[test]
fn from_ip_is_valid_for_ip() {
    for a in [ip(1, 2, 3, 4), ip(8, 8, 8, 8), ip(124, 31, 75, 21), ip(203, 0, 113, 9)] {
        for _ in 0..20 {
            assert!(Id::from_ip(a).is_valid_for_ip(a));
        }
    }
}

#[test]
fn make_mutant_keeps_high_bits() {
    let id = id_from_hex("0011223344556677889900112233445566778899");
    for _ in 0..20 {
        let m = id.make_mutant(12).unwrap();
        assert_eq!(m.bytes[..18], id.bytes[..18]);
        assert_eq!(m.bytes[18] >> 4, id.bytes[18] >> 4);
    }
    assert_eq!(id.make_mutant(0).unwrap(), id);
    assert!(id.make_mutant(161).is_none());
}

#[test]
fn token_is_crc32c_of_address_and_secret() {
    // CRC-32C of "123456789" is e3069283.
    let remote = Addr::from_octets(b'1', b'2', b'3', b'4', 6881);
    assert_eq!(calculate_token(&remote, b"56789"), [0xe3, 0x06, 0x92, 0x83]);
}

#[test]
fn token_checked_against_both_secrets() {
    let mut secrets = TokenSecrets::new(20);
    let remote = Addr::from_octets(1, 2, 3, 4, 1);
    let t0 = calculate_token(&remote, &secrets.current);
    assert!(secrets.is_token_valid(&remote, &t0));
    secrets.rotate_to(make_token_secret(20));
    assert!(secrets.is_token_valid(&remote, &t0));
    secrets.rotate_to(make_token_secret(20));
    assert!(!secrets.is_token_valid(&remote, &t0));
    assert!(!secrets.is_token_valid(&remote, &t0[..3]));
}

#[test]
fn peer_storage_respects_caps() {
    let mut ps = PeerStorage::new(2, 3);
    let hashes: Vec<Id> = (1..=4).map(id_with_first).collect();
    for (n, h) in hashes.iter().enumerate() {
        for p in 0..5u16 {
            ps.announce_peer(*h, Addr::from_octets(10, 0, 0, 1, 1000 + p), (n as u64) * 10 + p as u64);
            assert!(ps.torrents.len() <= 2);
            assert!(ps.torrents.iter().all(|t| t.peers.len() <= 3));
        }
    }
    // The two most recently announced info-hashes remain, each with its three latest peers.
    assert_eq!(ps.get_info_hashes(), vec![hashes[2], hashes[3]]);
    let ports: Vec<u16> = ps.get_peers(&hashes[3], None).iter().map(|a| a.port).collect();
    assert_eq!(ports, vec![1002, 1003, 1004]);
    assert!(ps.get_peers(&hashes[0], None).is_empty());
    // Freshness filter.
    let fresh: Vec<u16> = ps.get_peers(&hashes[3], Some(34)).iter().map(|a| a.port).collect();
    assert_eq!(fresh, vec![1004]);
}

#[test]
fn peer_storage_reannounce_moves_peer_last() {
    let mut ps = PeerStorage::new(5, 5);
    let h = id_with_first(9);
    let a = Addr::from_octets(1, 1, 1, 1, 1);
    let b = Addr::from_octets(2, 2, 2, 2, 2);
    ps.announce_peer(h, a, 1);
    ps.announce_peer(h, b, 2);
    ps.announce_peer(h, a, 3);
    assert_eq!(ps.get_peers(&h, None), vec![b, a]);
    let info = ps.get_peers_info(&h, None);
    assert_eq!(info[1].last_updated, 3);
}

#[test]
fn peer_storage_with_zero_cap_stores_nothing() {
    let mut ps = PeerStorage::new(0, 5);
    ps.announce_peer(id_with_first(1), Addr::from_octets(1, 1, 1, 1, 1), 1);
    assert!(ps.get_info_hashes().is_empty());
}

#[test]
fn nearest_nodes_sorted_and_capped() {
    let our = Id::zero();
    let mut st = NodeStorage::new(our);
    let mut all = Vec::new();
    for i in 0..40 {
        let n = Node::new(Id::from_random(), Addr::from_octets(10, 0, 0, 1, 2000 + i));
        st.add_or_update(n, i % 3 != 0, 5);
        all.push(n);
    }
    let target = Id::from_random();
    let near = st.get_nearest_nodes(&target, None);
    assert!(near.len() <= 8);
    for w in near.windows(2) {
        assert!(w[0].node.id.nearer_to(&w[1].node.id, &target));
    }
    assert!(near.iter().all(|w| w.is_verified()));
    let verified = st.get_all_verified();
    assert_eq!(near.len(), verified.len().min(8));
    if let Some(last) = near.last() {
        for v in &verified {
            assert!(near.iter().any(|w| w.node.id == v.node.id) || last.node.id.nearer_to(&v.node.id, &target));
        }
    }
    let excluded = near.first().map(|w| w.node.id);
    let near2 = st.get_nearest_nodes(&target, excluded);
    assert!(near2.iter().all(|w| Some(w.node.id) != excluded));
}

#[test]
fn bucket_fills_then_evicts_oldest_unverified() {
    let our = Id::zero();
    let mut st = NodeStorage::new(our);
    // All these ids share no leading bit with zero: bucket 0.
    let ids: Vec<Id> = (0..10).map(|i| id_with_first(0x80 + i)).collect();
    for id in &ids {
        assert_eq!(bucket_for(&our, id), 0);
    }
    for (i, id) in ids.iter().take(8).enumerate() {
        st.add_or_update(Node::new(*id, Addr::from_octets(10, 0, 0, 1, 1)), i != 2 && i != 5, 100 + i as u64);
    }
    assert_eq!(st.count(), (2, 6));
    // Full: the ninth node replaces the least recently seen unverified entry (index 2).
    st.add_or_update(Node::new(ids[8], Addr::from_octets(10, 0, 0, 1, 1)), false, 200);
    assert!(!st.contains(&ids[2]));
    assert!(st.contains(&ids[5]));
    assert!(st.contains(&ids[8]));
    assert_eq!(st.count(), (2, 6));
    // Updating an existing entry as verified.
    st.add_or_update(Node::new(ids[5], Addr::from_octets(10, 0, 0, 1, 1)), true, 300);
    assert_eq!(st.count(), (1, 7));
    st.add_or_update(Node::new(ids[8], Addr::from_octets(10, 0, 0, 1, 1)), true, 300);
    assert_eq!(st.count(), (0, 8));
    // Full of verified entries: a new node is dropped.
    st.add_or_update(Node::new(ids[9], Addr::from_octets(10, 0, 0, 1, 1)), true, 400);
    assert!(!st.contains(&ids[9]));
    assert_eq!(bucket_for(&our, &our), 160);
}

#[test]
fn set_id_rebuckets_entries() {
    let mut st = NodeStorage::new(Id::zero());
    let a = id_with_first(0x01);
    st.add_or_update(Node::new(a, Addr::from_octets(10, 0, 0, 1, 1)), true, 1);
    st.set_id(id_with_first(0x80));
    assert!(st.contains(&a));
    assert_eq!(st.count(), (0, 1));
    assert_eq!(st.our_id, id_with_first(0x80));
}

#[test]
fn prune_drops_expired_entries() {
    let mut st = NodeStorage::new(Id::zero());
    let v = id_with_first(0x10);
    let u = id_with_first(0x20);
    st.add_or_update(Node::new(v, Addr::from_octets(10, 0, 0, 1, 1)), true, 100);
    st.add_or_update(Node::new(u, Addr::from_octets(10, 0, 0, 1, 2)), false, 100);
    st.prune(50, 10, 110);
    assert_eq!(st.count(), (1, 1));
    st.prune(50, 10, 111);
    assert_eq!(st.count(), (0, 1));
    st.prune(50, 10, 151);
    assert_eq!(st.count(), (0, 0));
    let w = NodeWrapper::new(Node::new(v, Addr::from_octets(1, 1, 1, 1, 1)), 5);
    assert!(!w.is_verified());
}

#[test]
fn address_source_plurality_and_decay() {
    let mut src = AddressSource::new_voting(2, 2);
    assert_eq!(src.get_best_ipv4(), None);
    src.add_vote(ip(9, 9, 9, 1), ip(5, 5, 5, 5));
    // One vote of weight 2 reaches the quorum of 2.
    assert_eq!(src.get_best_ipv4(), Some(ip(5, 5, 5, 5)));
    src.add_vote(ip(9, 9, 9, 2), ip(6, 6, 6, 6));
    src.add_vote(ip(9, 9, 9, 3), ip(6, 6, 6, 6));
    assert_eq!(src.get_best_ipv4(), Some(ip(6, 6, 6, 6)));
    // A voter changing its mind replaces its vote.
    src.add_vote(ip(9, 9, 9, 3), ip(5, 5, 5, 5));
    assert_eq!(src.votes.len(), 3);
    src.decay();
    assert!(src.votes.iter().all(|v| v.weight == 1));
    src.decay();
    assert!(src.votes.is_empty());
    assert_eq!(src.get_best_ipv4(), None);
    assert_eq!(AddressSource::new_static(ip(1, 2, 3, 4)).get_best_ipv4(), Some(ip(1, 2, 3, 4)));
}

#[test]
fn transaction_reply_delivered_once() {
    let mut t = TransactionTable::new();
    let dest = Id::from_random();
    assert!(t.register(0xaaaa, Some(dest), ip(1, 1, 1, 1), 10));
    assert!(!t.register(0xaaaa, None, ip(2, 2, 2, 2), 10));
    assert!(t.register(0xbbbb, None, ip(2, 2, 2, 2), 10));
    // A reply with the wrong responder id does not match.
    assert!(t.take_match(0xaaaa, ip(1, 1, 1, 1), Some(Id::from_random())).is_none());
    let p = t.take_match(0xaaaa, ip(1, 1, 1, 1), Some(dest)).unwrap();
    assert_eq!(p.transaction_id, 0xaaaa);
    assert!(t.take_match(0xaaaa, ip(1, 1, 1, 1), Some(dest)).is_none());
    // Without a known id, the address must match.
    assert!(t.take_match(0xbbbb, ip(3, 3, 3, 3), None).is_none());
    assert!(t.register(0xcccc, None, ip(4, 4, 4, 4), 20));
    let expired = t.expire(20, 5);
    assert_eq!(expired.len(), 1);
    assert_eq!(expired[0].transaction_id, 0xbbbb);
    assert_eq!(t.pending.len(), 1);
}

#[test]
fn throttler_bans_after_burst() {
    let mut th = Throttler::new(3, 10, 100, 4);
    let a = ip(1, 2, 3, 4);
    assert!(!th.check_throttle(a, 0));
    assert!(!th.check_throttle(a, 1));
    assert!(!th.check_throttle(a, 2));
    assert!(th.check_throttle(a, 3));
    assert!(th.check_throttle(a, 50));
    assert!(!th.check_throttle(a, 200));
    assert!(!th.check_throttle(ip(5, 5, 5, 5), 3));
}

#[test]
fn get_peers_result_orders_responders() {
    let target = Id::zero();
    let far = GetPeersResponder::new(Node::new(id_with_first(0x40), Addr::from_octets(1, 1, 1, 1, 1)), vec![1]);
    let near = GetPeersResponder::new(Node::new(id_with_first(0x01), Addr::from_octets(2, 2, 2, 2, 2)), vec![2]);
    let mid = GetPeersResponder::new(Node::new(id_with_first(0x08), Addr::from_octets(3, 3, 3, 3, 3)), vec![3]);
    let peers = vec![Addr::from_octets(9, 9, 9, 9, 9)];
    let r = GetPeersResult::new(target, peers.clone(), vec![far, near, mid]);
    let firsts: Vec<u8> = r.responders().iter().map(|x| x.node().id.bytes[0]).collect();
    assert_eq!(firsts, vec![0x01, 0x08, 0x40]);
    assert_eq!(r.responders()[0].token(), &[2u8][..]);
    assert_eq!(r.peers(), &peers[..]);
    assert_eq!(*r.info_hash(), target);
    let targets = announce_targets(&r);
    assert_eq!(targets.len(), 3);
    assert_eq!(targets[0].1, vec![2u8]);
}

#[test]
fn lookup_rounds_converge() {
    let target = Id::zero();
    let mut lk = Lookup::new(target);
    assert!(matches!(lk.next_round(), RoundAction::Wait));
    let seed = NodeWrapper::new(Node::new(id_with_first(0x40), Addr::from_octets(1, 1, 1, 1, 1)), 1);
    lk.seed(&vec![seed]);
    let first = match lk.next_round() {
        RoundAction::Query(n) => n,
        _ => panic!("expected a round"),
    };
    assert_eq!(first.len(), 1);
    let reply = Response {
        transaction_id: b"t".to_vec(),
        responder_id: first[0].id,
        requester_ip: None,
        kind: ResponseKind::GetPeers {
            token: vec![7, 7, 7, 7],
            values: PeersOrNodes::Nodes(vec![Node::new(id_with_first(0x02), Addr::from_octets(2, 2, 2, 2, 2))]),
        },
    };
    lk.absorb_reply(first[0], &reply, 2);
    let second = match lk.next_round() {
        RoundAction::Query(n) => n,
        _ => panic!("expected a round"),
    };
    assert_eq!(second[0].id, id_with_first(0x02));
    let reply = Response {
        transaction_id: b"u".to_vec(),
        responder_id: second[0].id,
        requester_ip: None,
        kind: ResponseKind::GetPeers {
            token: vec![8],
            values: PeersOrNodes::Peers(vec![Addr::from_octets(5, 5, 5, 5, 5), Addr::from_octets(5, 5, 5, 5, 5)]),
        },
    };
    lk.absorb_reply(second[0], &reply, 3);
    assert_eq!(lk.peers.len(), 1);
    assert!(matches!(lk.next_round(), RoundAction::Done));
    assert_eq!(lk.nearest_nodes().len(), 2);
    let result = lk.into_result();
    assert_eq!(result.responders().len(), 2);
    assert_eq!(result.responders()[0].node().id, id_with_first(0x02));
    assert_eq!(result.peers().len(), 1);
    match announce_request(target, None, vec![8]) {
        RequestKind::AnnouncePeer { port, implied_port, .. } => {
            assert_eq!(port, 0);
            assert!(implied_port);
        }
        _ => panic!("expected announce_peer"),
    }
}

#[test]
fn cancelled_query_gets_no_reply() {
    let mut t = TransactionTable::new();
    assert!(t.register(7, None, ip(1, 1, 1, 1), 0));
    t.cancel(7);
    assert!(t.take_match(7, ip(1, 1, 1, 1), None).is_none());
    assert!(t.register(7, None, ip(1, 1, 1, 1), 0));
}

#[test]
fn screen_packet_drops_throttled_and_port_zero() {
    let mut th = Throttler::new(1, 10, 100, 8);
    let a = Addr::from_octets(1, 2, 3, 4, 6881);
    assert_eq!(screen_packet(&mut th, a, false, 0), PacketAction::HandleAndNotify);
    assert_eq!(screen_packet(&mut th, a, false, 1), PacketAction::Drop);
    let b = Addr::from_octets(5, 6, 7, 8, 0);
    assert_eq!(screen_packet(&mut th, b, false, 1), PacketAction::Drop);
    let c = Addr::from_octets(9, 9, 9, 9, 1);
    assert_eq!(screen_packet(&mut th, c, true, 1), PacketAction::NotifyOnly);
}

#[test]
fn add_or_update_refreshes_times() {
    let mut st = NodeStorage::new(Id::zero());
    let n = Node::new(id_with_first(0x33), Addr::from_octets(10, 0, 0, 1, 1));
    st.add_or_update(n, false, 10);
    let w = st.get_all_unverified()[0];
    assert_eq!((w.last_seen, w.last_verified), (10, None));
    st.add_or_update(n, true, 20);
    let w = st.get_all_verified()[0];
    assert_eq!((w.last_seen, w.last_verified), (20, Some(20)));
    st.add_or_update(n, false, 15);
    let w = st.get_all_verified()[0];
    assert_eq!((w.last_seen, w.last_verified), (20, Some(20)));
    st.add_or_update(n, false, 30);
    let w = st.get_all_verified()[0];
    assert_eq!((w.last_seen, w.last_verified), (30, Some(20)));
}

#[test]
fn closed_subscriber_is_dropped_full_one_kept() {
    assert!(keep_subscriber(SendOutcome::Sent));
    assert!(keep_subscriber(SendOutcome::Full));
    assert!(!keep_subscriber(SendOutcome::Closed));
}

#[test]
fn add_vote_keeps_other_voters() {
    let mut src = AddressSource::new_voting(3, 1);
    src.add_vote(ip(9, 9, 9, 1), ip(5, 5, 5, 5));
    src.add_vote(ip(9, 9, 9, 2), ip(6, 6, 6, 6));
    src.add_vote(ip(9, 9, 9, 1), ip(7, 7, 7, 7));
    let voters: Vec<u32> = src.votes.iter().map(|v| v.voter).collect();
    assert_eq!(voters, vec![ip(9, 9, 9, 2), ip(9, 9, 9, 1)]);
    // Tied totals: the first claim reaching the largest total wins.
    assert_eq!(src.get_best_ipv4(), Some(ip(6, 6, 6, 6)));
}
