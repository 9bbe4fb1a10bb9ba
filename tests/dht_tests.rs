use rustydht::addr::{Addr, Node};
use rustydht::address_source::AddressSource;
use rustydht::dht::{DHTSettings, FindNodeAction, DHT};
use rustydht::id::Id;
use rustydht::messages::{PeersOrNodes, Request, RequestKind, Response, ResponseKind};

fn hex_id(s: &str) -> Id {
    let b = s.as_bytes();
    let mut bytes = [0u8; 20];
    for i in 0..20 {
        let hi = (b[2 * i] as char).to_digit(16).unwrap() as u8;
        let lo = (b[2 * i + 1] as char).to_digit(16).unwrap() as u8;
        bytes[i] = hi * 16 + lo;
    }
    Id::new(bytes)
}

fn get_dht_id() -> Id {
    hex_id("0011223344556677889900112233445566778899")
}

fn make_test_dht() -> DHT {
    let ip4 = AddressSource::new_static(u32::from_be_bytes([1, 2, 3, 4]));
    DHT::new(Some(get_dht_id()), ip4, DHTSettings::default())
}

fn localhost(port: u16) -> Addr {
    Addr::from_octets(127, 0, 0, 1, port)
}

fn request(tid: &[u8], requester: Id, kind: RequestKind) -> Request {
    Request { transaction_id: tid.to_vec(), requester_id: requester, read_only: false, kind }
}

fn get_peers_token(resp: &Response) -> Vec<u8> {
    match &resp.kind {
        ResponseKind::GetPeers { token, .. } => token.clone(),
        _ => panic!("not a get_peers reply"),
    }
}

#[test]
fn test_responds_to_ping() {
    let mut dht = make_test_dht();
    let req = request(&[0xaa], Id::from_random(), RequestKind::Ping);
    let res = dht.handle_request(&req, localhost(1948), 100).unwrap();
    assert_eq!(res.transaction_id, req.transaction_id);
    assert!(matches!(res.kind, ResponseKind::Ping));
    assert_eq!(res.responder_id, get_dht_id());
    assert_eq!(res.requester_ip, Some(localhost(1948)));
}

#[test]
fn test_responds_to_get_peers() {
    let mut dht = make_test_dht();
    let info_hash = Id::from_random();
    let req = request(b"gp", Id::from_random(), RequestKind::GetPeers { info_hash });
    let res = dht.handle_request(&req, localhost(1974), 100).unwrap();
    assert_eq!(res.transaction_id, req.transaction_id);
    match res.kind {
        ResponseKind::GetPeers { token, values } => {
            assert_eq!(token.len(), 4);
            assert!(matches!(values, PeersOrNodes::Nodes(_)));
        }
        _ => panic!("not a get_peers reply"),
    }
}

#[test]
fn test_responds_to_find_node() {
    let mut dht = make_test_dht();
    let target = Id::from_random();
    let req = request(b"fn", Id::from_random(), RequestKind::FindNode { target });
    let res = dht.handle_request(&req, localhost(1995), 100).unwrap();
    assert_eq!(res.transaction_id, req.transaction_id);
    assert!(matches!(res.kind, ResponseKind::FindNode { .. }));
}

#[test]
fn test_responds_to_announce_peer() {
    let mut dht = make_test_dht();
    let requester_id = Id::from_random();
    let info_hash = Id::from_random();
    let from = localhost(2014);

    let reply = dht
        .handle_request(&request(b"g1", requester_id, RequestKind::GetPeers { info_hash }), from, 100)
        .unwrap();
    let token = get_peers_token(&reply);

    let announce = RequestKind::AnnouncePeer { info_hash, port: 1234, implied_port: false, token };
    let reply = dht.handle_request(&request(b"a1", requester_id, announce), from, 101).unwrap();
    assert!(matches!(reply.kind, ResponseKind::Ping));

    let reply = dht
        .handle_request(&request(b"g2", requester_id, RequestKind::GetPeers { info_hash }), from, 102)
        .unwrap();
    match reply.kind {
        ResponseKind::GetPeers { values: PeersOrNodes::Peers(p), .. } => {
            assert_eq!(p.len(), 1);
            assert_eq!(p[0].port, 1234);
        }
        _ => panic!("Didn't get peers"),
    }
}

#[test]
fn test_responds_to_sample_infohashes() {
    let mut dht = make_test_dht();
    let target = Id::from_random();
    let req = request(b"si", Id::from_random(), RequestKind::SampleInfoHashes { target });
    let res = dht.handle_request(&req, localhost(2037), 100).unwrap();
    assert_eq!(res.transaction_id, req.transaction_id);
    match res.kind {
        ResponseKind::SampleInfoHashes { interval, samples, num, .. } => {
            assert_eq!(num, 0);
            assert!(samples.is_empty());
            assert_eq!(interval, DHTSettings::default().min_sample_interval_secs);
        }
        _ => panic!("not a sample_infohashes reply"),
    }
}

#[test]
fn test_event_loop_pings_routers() {
    let ip4 = u32::from_be_bytes([1, 2, 3, 4]);
    let mut dht1 = DHT::new(Some(get_dht_id()), AddressSource::new_static(ip4), DHTSettings::default());
    let mutant = get_dht_id().make_mutant(4).unwrap();
    let mut settings2 = DHTSettings::default();
    settings2.router_ping_interval_secs = 1;
    settings2.routers = vec![format!("127.0.0.1:{}", 2171)];
    let mut dht2 = DHT::new(Some(mutant), AddressSource::new_static(ip4), settings2);

    // With nobody known, the periodic refresh falls back to the routers.
    assert!(matches!(dht2.find_node_action(), FindNodeAction::PingRouters));

    // dht2 pings the router dht1, which answers.
    let ping = request(b"pr", dht2.get_id(), RequestKind::Ping);
    let reply = dht1.handle_request(&ping, localhost(40000), 10).unwrap();
    dht2.handle_response(localhost(2171), &reply, 11);

    assert_eq!(dht2.buckets.count(), (0, 1));
    assert_eq!(dht2.get_nodes().len(), 1);
    assert_eq!(dht2.get_nodes()[0].node.id, get_dht_id());
}

#[test]
fn test_token_secret_rotation() {
    let mut dht = make_test_dht();
    let size = DHTSettings::default().token_secret_size;
    assert_eq!(dht.secrets.current.len(), size);
    assert_eq!(dht.secrets.current, dht.secrets.previous);

    let before = dht.secrets.current.clone();
    dht.rotate_token_secrets();
    assert_eq!(dht.secrets.previous, before);
    assert_eq!(dht.secrets.previous.len(), size);
    assert_eq!(dht.secrets.current.len(), size);
    assert_ne!(dht.secrets.previous, dht.secrets.current);

    let before = dht.secrets.current.clone();
    dht.rotate_token_secrets();
    assert_eq!(dht.secrets.previous, before);
    assert_ne!(dht.secrets.previous, dht.secrets.current);
    assert_eq!(dht.secrets.current.len(), size);
}

#[test]
fn announce_with_stale_token_is_refused() {
    let mut dht = make_test_dht();
    let requester_id = Id::from_random();
    let info_hash = Id::from_random();
    let from = localhost(3000);
    let reply = dht
        .handle_request(&request(b"g1", requester_id, RequestKind::GetPeers { info_hash }), from, 5)
        .unwrap();
    let token = get_peers_token(&reply);

    // Still accepted after one rotation: the secret is now the previous one.
    dht.rotate_token_secrets();
    let kind = RequestKind::AnnouncePeer { info_hash, port: 7, implied_port: false, token: token.clone() };
    assert!(dht.handle_request(&request(b"a1", requester_id, kind), from, 6).is_some());

    // Refused after a second rotation.
    dht.rotate_token_secrets();
    let kind = RequestKind::AnnouncePeer { info_hash, port: 7, implied_port: false, token };
    assert!(dht.handle_request(&request(b"a2", requester_id, kind), from, 7).is_none());
}

#[test]
fn announce_with_implied_port_uses_sender_port() {
    let mut dht = make_test_dht();
    let requester_id = Id::from_random();
    let info_hash = Id::from_random();
    let from = localhost(4321);
    let reply = dht
        .handle_request(&request(b"g1", requester_id, RequestKind::GetPeers { info_hash }), from, 5)
        .unwrap();
    let token = get_peers_token(&reply);
    let kind = RequestKind::AnnouncePeer { info_hash, port: 1, implied_port: true, token };
    assert!(dht.handle_request(&request(b"a1", requester_id, kind), from, 6).is_some());
    let peers = dht.peer_storage.get_peers(&info_hash, None);
    assert_eq!(peers, vec![from]);
    let hashes = dht.get_info_hashes(None);
    assert_eq!(hashes.len(), 1);
    assert_eq!(hashes[0].0, info_hash);
}

#[test]
fn read_only_requester_is_not_added() {
    let mut dht = make_test_dht();
    let mut req = request(b"p", Id::from_random(), RequestKind::Ping);
    req.read_only = true;
    dht.handle_request(&req, localhost(5000), 1);
    assert_eq!(dht.buckets.count(), (0, 0));
    req.read_only = false;
    dht.handle_request(&req, localhost(5000), 1);
    assert_eq!(dht.buckets.count(), (1, 0));
}

#[test]
fn find_node_reply_adds_valid_nodes_as_unverified() {
    let mut dht = make_test_dht();
    let responder = Id::from_random();
    let n1 = Node::new(Id::from_random(), localhost(6001));
    let n2 = Node::new(Id::from_random(), localhost(6002));
    let resp = Response {
        transaction_id: b"x".to_vec(),
        responder_id: responder,
        requester_ip: Some(Addr::from_octets(8, 8, 8, 8, 6881)),
        kind: ResponseKind::FindNode { nodes: vec![n1, n2] },
    };
    dht.handle_response(localhost(6000), &resp, 50);
    assert_eq!(dht.buckets.count(), (2, 1));
    let vote = dht.ip4_source.votes.last().copied();
    assert_eq!(vote.map(|v| v.claimed), Some(u32::from_be_bytes([8, 8, 8, 8])));
}

#[test]
fn buddy_ping_lists_unverified_then_stale_verified() {
    let mut dht = make_test_dht();
    let fresh = Node::new(Id::from_random(), localhost(7001));
    let stale = Node::new(Id::from_random(), localhost(7002));
    let unverified = Node::new(Id::from_random(), localhost(7003));
    dht.buckets.add_or_update(stale, true, 1150);
    dht.buckets.add_or_update(fresh, true, 1900);
    dht.buckets.add_or_update(unverified, false, 1950);
    let targets = dht.buddy_ping_targets(2000).unwrap();
    let ids: Vec<Id> = targets.iter().map(|n| n.id).collect();
    assert_eq!(ids, vec![unverified.id, stale.id]);
    // Before the reverify interval has elapsed since time zero, the round is skipped.
    assert!(dht.buddy_ping_targets(10).is_none());
}

#[test]
fn buddy_ping_prunes_expired_nodes() {
    let mut dht = make_test_dht();
    let old_unverified = Node::new(Id::from_random(), localhost(7101));
    dht.buckets.add_or_update(old_unverified, false, 1000);
    let grace = DHTSettings::default().verify_grace_period_secs;
    dht.buddy_ping_targets(1000 + grace).unwrap();
    assert_eq!(dht.buckets.count(), (1, 0));
    dht.buddy_ping_targets(1000 + grace + 1).unwrap();
    assert_eq!(dht.buckets.count(), (0, 0));
}

#[test]
fn find_node_action_skips_and_sends() {
    let mut settings = DHTSettings::default();
    settings.find_nodes_skip_count = 1;
    let mut dht = DHT::new(Some(get_dht_id()), AddressSource::new_static(0x7f000001), settings);
    let v = Node::new(Id::from_random(), localhost(8001));
    dht.buckets.add_or_update(v, true, 10);
    match dht.find_node_action() {
        FindNodeAction::Send { target, nodes } => {
            assert_eq!(target.bytes[..19], get_dht_id().bytes[..19]);
            assert_eq!(target.bytes[19] >> 4, get_dht_id().bytes[19] >> 4);
            assert_eq!(nodes.len(), 1);
            assert_eq!(nodes[0].id, v.id);
        }
        _ => panic!("expected a find_node round"),
    }
    dht.buckets.add_or_update(Node::new(Id::from_random(), localhost(8002)), false, 10);
    dht.buckets.add_or_update(Node::new(Id::from_random(), localhost(8003)), false, 10);
    assert!(matches!(dht.find_node_action(), FindNodeAction::Skip));
}

#[test]
fn new_without_id_derives_one_from_the_address() {
    let ip = u32::from_be_bytes([124, 31, 75, 21]);
    let dht = DHT::new(None, AddressSource::new_static(ip), DHTSettings::default());
    assert!(dht.get_id().is_valid_for_ip(ip));
    assert_eq!(dht.get_settings().token_secret_size, 20);
}

#[test]
fn ip4_maintenance_adopts_valid_id() {
    let ip = u32::from_be_bytes([124, 31, 75, 21]);
    let mut dht = DHT::new(Some(get_dht_id()), AddressSource::new_static(ip), DHTSettings::default());
    assert!(!get_dht_id().is_valid_for_ip(ip));
    assert!(dht.ip4_maintenance());
    assert!(dht.get_id().is_valid_for_ip(ip));
    assert_eq!(dht.buckets.our_id, dht.get_id());
    assert!(!dht.ip4_maintenance());
}

#[test]
fn sample_infohashes_caps_the_sample() {
    let mut settings = DHTSettings::default();
    settings.max_sample_response = 3;
    let mut dht = DHT::new(Some(get_dht_id()), AddressSource::new_static(0x7f000001), settings);
    let from = localhost(9000);
    let requester = Id::from_random();
    let mut stored = Vec::new();
    for i in 0..10u8 {
        let mut b = [0u8; 20];
        b[0] = i + 1;
        let h = Id::new(b);
        dht.peer_storage.announce_peer(h, Addr::from_octets(10, 0, 0, i, 1000), 1);
        stored.push(h);
    }
    let req = request(b"s", requester, RequestKind::SampleInfoHashes { target: Id::zero() });
    match dht.handle_request(&req, from, 2).unwrap().kind {
        ResponseKind::SampleInfoHashes { samples, num, .. } => {
            assert_eq!(num, 10);
            assert_eq!(samples.len(), 3);
            assert!(samples.iter().all(|s| stored.contains(s)));
            assert!(samples[0] != samples[1] && samples[1] != samples[2] && samples[0] != samples[2]);
        }
        _ => panic!("not a sample_infohashes reply"),
    }
}
