//! The node's state and the decisions taken on it: answering queries,
//! taking in replies to our own queries, and the periodic maintenance.
//! Sockets, timers and tasks stay outside; they hand these functions the
//! time as a number of seconds and carry out what they return.
use vstd::prelude::*;
use crate::addr::{Addr, Node};
use crate::address_source::AddressSource;
use crate::id::Id;
use crate::messages::{PeersOrNodes, Request, RequestKind, Response, ResponseKind};
use crate::node_storage::{
    bucket_index, lemma_bucket_range, nearest_result, opt_view, refreshed, select, NodeStorage,
    NodeWrapper, K,
};
use crate::peer_storage::{announced, fresh_addrs, fresh_records, PeerInfo, PeerStorage};
use crate::primitives::sample_ids;
use crate::secure_id::valid_for_ip;
use crate::throttler::{find_ip, step, Throttler};
use crate::token::{calculate_token, make_token_secret, token_accepted, token_of, TokenSecrets};

verus! {

/// The node's configuration.
#[derive(Clone, Debug)]
pub struct DHTSettings {
    /// Length in bytes of each token secret.
    pub token_secret_size: usize,
    /// Most info-hashes kept in peer storage.
    pub max_torrents: usize,
    /// Most peers kept per info-hash.
    pub max_peers_per_torrent: usize,
    /// A peer counts in `get_peers` replies for this long after its announce.
    pub get_peers_freshness_secs: u64,
    /// Most peers in one `get_peers` reply.
    pub max_peers_response: usize,
    /// Most info-hashes in one `sample_infohashes` reply.
    pub max_sample_response: usize,
    /// Interval advertised in `sample_infohashes` replies.
    pub min_sample_interval_secs: u64,
    pub ping_check_interval_secs: u64,
    /// Verified nodes are pinged again once this long has passed since they were verified.
    pub reverify_interval_secs: u64,
    /// Unverified nodes are dropped once this long has passed since they were seen.
    pub verify_grace_period_secs: u64,
    /// Verified nodes are dropped once this long has passed since they were verified.
    pub reverify_grace_period_secs: u64,
    pub find_nodes_interval_secs: u64,
    /// The periodic `find_node` is skipped while more unverified nodes than this are held.
    pub find_nodes_skip_count: usize,
    pub router_ping_interval_secs: u64,
    /// Bootstrap routers, as `host:port`.
    pub routers: Vec<String>,
    /// Do not answer queries, and mark our own queries read-only.
    pub read_only: bool,
}

impl Default for DHTSettings {
    fn default() -> (r: DHTSettings)
        ensures
            r.token_secret_size == 20,
            r.max_torrents == 50,
            r.max_peers_per_torrent == 100,
            r.get_peers_freshness_secs == 15 * 60,
            r.max_peers_response == 128,
            r.max_sample_response == 50,
            r.min_sample_interval_secs == 10,
            r.ping_check_interval_secs == 10,
            r.reverify_interval_secs == 14 * 60,
            r.verify_grace_period_secs == 60,
            r.reverify_grace_period_secs == 15 * 60,
            r.find_nodes_interval_secs == 33,
            r.find_nodes_skip_count == 32,
            r.router_ping_interval_secs == 15 * 60,
            r.routers@.len() == 3,
            !r.read_only,
    {
        let mut routers: Vec<String> = Vec::new();
        routers.push("router.bittorrent.com:6881".to_owned());
        routers.push("dht.transmissionbt.com:6881".to_owned());
        routers.push("dht.libtorrent.org:25401".to_owned());
        DHTSettings {
            token_secret_size: 20,
            max_torrents: 50,
            max_peers_per_torrent: 100,
            get_peers_freshness_secs: 15 * 60,
            max_peers_response: 128,
            max_sample_response: 50,
            min_sample_interval_secs: 10,
            ping_check_interval_secs: 10,
            reverify_interval_secs: 14 * 60,
            verify_grace_period_secs: 60,
            reverify_grace_period_secs: 15 * 60,
            find_nodes_interval_secs: 33,
            find_nodes_skip_count: 32,
            router_ping_interval_secs: 15 * 60,
            routers,
            read_only: false,
        }
    }
}

/// The nodes of a list of routing-table entries.
pub open spec fn nodes_of(ws: Seq<NodeWrapper>) -> Seq<Node> {
    ws.map_values(|w: NodeWrapper| w.node)
}

/// `nodes` are the nodes of a nearest-first list of up to `K` verified
/// entries of `all` nearest to `target`, leaving out the id `exclude`.
pub open spec fn nearest_reply(
    all: Seq<NodeWrapper>,
    target: Seq<u8>,
    exclude: Option<Seq<u8>>,
    nodes: Seq<Node>,
) -> bool {
    exists|ws: Seq<NodeWrapper>|
        #[trigger] nearest_result(all, target, Some(true), exclude, ws) && nodes == nodes_of(ws)
}

/// Announces at or after this time count as fresh; `None` where the window
/// reaches back before time zero.
pub open spec fn fresh_since(now: u64, freshness: u64) -> Option<u64> {
    if now >= freshness {
        Some((now - freshness) as u64)
    } else {
        None
    }
}

/// The first `n` elements of `s`, or all of them.
pub open spec fn prefix<T>(s: Seq<T>, n: usize) -> Seq<T> {
    if n < s.len() {
        s.take(n as int)
    } else {
        s
    }
}

/// The address a peer announced: the sender's own port where `implied_port`
/// is set, else the port it named.
pub open spec fn announced_addr(from: Addr, port: u16, implied_port: bool) -> Addr {
    if implied_port {
        from
    } else {
        Addr { ip: from.ip, port }
    }
}

/// `w` is due for a ping when it has never been verified, or was last
/// verified before `threshold`.
pub open spec fn due_for_ping(w: NodeWrapper, threshold: u64) -> bool {
    match w.last_verified {
        None => true,
        Some(v) => v < threshold,
    }
}

/// The nodes of the entries of `s` that are due for a ping, in order.
pub open spec fn due_nodes(s: Seq<NodeWrapper>, threshold: u64) -> Seq<Node>
    decreases s.len(),
{
    if s.len() == 0 {
        Seq::empty()
    } else if due_for_ping(s.last(), threshold) {
        due_nodes(s.drop_last(), threshold).push(s.last().node)
    } else {
        due_nodes(s.drop_last(), threshold)
    }
}

/// What the periodic neighbourhood refresh does.
#[derive(Debug)]
pub enum FindNodeAction {
    /// No verified node is known: ping the routers again.
    PingRouters,
    /// Enough unverified nodes are waiting for a ping: do nothing this round.
    Skip,
    /// Send `find_node` for `target` to each of `nodes`.
    Send { target: Id, nodes: Vec<Node> },
}

/// `r` is a plain acknowledgement, as for `ping` and `announce_peer`.
pub open spec fn is_pong(r: Option<Response>) -> bool {
    match r {
        Some(resp) => resp.kind is Ping,
        None => false,
    }
}

/// The reply to a `find_node` for `target` from `requester`.
pub open spec fn find_node_reply(all: Seq<NodeWrapper>, target: Seq<u8>, requester: Seq<u8>, r: Option<Response>) -> bool {
    match r {
        Some(resp) => match resp.kind {
            ResponseKind::FindNode { nodes } => nearest_reply(all, target, Some(requester), nodes@),
            _ => false,
        },
        None => false,
    }
}

/// The reply to a `get_peers`: the token, and the first `max_peers` fresh
/// peers where there is one, else the nearest verified nodes.
pub open spec fn get_peers_reply(
    all: Seq<NodeWrapper>,
    fresh: Seq<Addr>,
    max_peers: usize,
    token: Seq<u8>,
    info_hash: Seq<u8>,
    requester: Seq<u8>,
    r: Option<Response>,
) -> bool {
    match r {
        Some(resp) => match resp.kind {
            ResponseKind::GetPeers { token: t, values } => {
                &&& t@ == token
                &&& match values {
                    PeersOrNodes::Peers(p) => prefix(fresh, max_peers).len() > 0 && p@ == prefix(fresh, max_peers),
                    PeersOrNodes::Nodes(n) => prefix(fresh, max_peers).len() == 0 && nearest_reply(
                        all,
                        info_hash,
                        Some(requester),
                        n@,
                    ),
                }
            },
            _ => false,
        },
        None => false,
    }
}

/// Peer storage holds the info-hash `h`.
pub open spec fn held_hash(torrents: Seq<crate::peer_storage::TorrentPeers>, h: Seq<u8>) -> bool {
    exists|t: int| 0 <= t < torrents.len() && (#[trigger] torrents[t]).info_hash@ == h
}

/// The reply to a `sample_infohashes` for `target`.
pub open spec fn sample_reply(
    all: Seq<NodeWrapper>,
    torrents: Seq<crate::peer_storage::TorrentPeers>,
    max_sample: usize,
    interval: u64,
    target: Seq<u8>,
    requester: Seq<u8>,
    r: Option<Response>,
) -> bool {
    match r {
        Some(resp) => match resp.kind {
            ResponseKind::SampleInfoHashes { interval: i, nodes, samples, num } => {
                &&& i == interval
                &&& num == torrents.len()
                &&& samples@.len() == if max_sample < torrents.len() { max_sample as int } else { torrents.len() as int }
                &&& forall|k: int| 0 <= k < samples@.len() ==> held_hash(torrents, #[trigger] samples@[k]@)
                &&& samples@.no_duplicates()
                &&& nearest_reply(all, target, Some(requester), nodes@)
            },
            _ => false,
        },
        None => false,
    }
}

/// How handing an event to a subscriber's queue went.
#[derive(Debug, PartialEq, Eq, Structural)]
pub enum SendOutcome {
    Sent,
    /// The queue is full: the event is lost.
    Full,
    /// The subscriber dropped its end of the queue.
    Closed,
}

/// Whether a subscription stays after an event was handed to it: a closed
/// queue is dropped, a full one is kept.
pub fn keep_subscriber(outcome: SendOutcome) -> (r: bool)
    ensures
        r <==> !(outcome is Closed),
{
    match outcome {
        SendOutcome::Closed => false,
        _ => true,
    }
}

/// What the accept loop does with an incoming datagram.
#[derive(Debug, PartialEq, Eq, Structural)]
pub enum PacketAction {
    /// Drop it: its sender is throttled, or its source port is 0.
    Drop,
    /// Only tell the subscribers about it: the node is read-only.
    NotifyOnly,
    /// Handle it, then tell the subscribers about it.
    HandleAndNotify,
}

/// Screens a datagram from `from` arriving at `now`: counted by the
/// throttler, dropped when throttled or sent from port 0, and handled only
/// where the node is not read-only.
pub fn screen_packet(throttler: &mut Throttler, from: Addr, read_only: bool, now: u64) -> (r: PacketAction)
    requires
        old(throttler).wf(),
    ensures
        final(throttler).wf(),
        ({
            let throttled = match find_ip(old(throttler).entries@, from.ip) {
                Some(i) => step(
                    old(throttler).entries@[i],
                    old(throttler).max_per_window,
                    old(throttler).window_secs,
                    old(throttler).ban_secs,
                    now,
                ).1,
                None => false,
            };
            &&& (r == PacketAction::Drop) <==> (throttled || from.port == 0)
            &&& (r == PacketAction::NotifyOnly) <==> (!throttled && from.port != 0 && read_only)
        }),
{
    if throttler.check_throttle(from.ip, now) {
        return PacketAction::Drop;
    }
    if from.port == 0 {
        return PacketAction::Drop;
    }
    if read_only {
        PacketAction::NotifyOnly
    } else {
        PacketAction::HandleAndNotify
    }
}

/// The entry a verified responder has after its reply: its earlier entry
/// refreshed where `old` held one, else a new verified entry.
pub open spec fn responder_entry(old: NodeStorage, node: Node, now: u64) -> NodeWrapper {
    if old.holds_as(node.id@, false) {
        refreshed(old.entry_of(node.id@), true, now)
    } else {
        NodeWrapper { node, last_seen: now, last_verified: Some(now) }
    }
}

/// A `find_node` reply names a node with the id `id` that is valid for its address.
pub open spec fn reply_offers(kind: ResponseKind, id: Seq<u8>) -> bool {
    match kind {
        ResponseKind::FindNode { nodes } => exists|k: int|
            0 <= k < nodes@.len() && nodes@[k].id@ == id && valid_for_ip(nodes@[k].id@, nodes@[k].address.ip),
        _ => false,
    }
}

/// Where the table holds an entry for `id` and that entry is verified, it
/// holds a verified entry for `id`.
proof fn lemma_holds_verified(ns: NodeStorage, id: Seq<u8>)
    requires
        ns.wf(),
        ns.holds_as(id, false),
        ns.entry_of(id).verified(),
    ensures
        ns.holds_as(id, true),
{
    let b = bucket_index(ns.our_id@, id);
    let j = choose|j: int|
        0 <= j < ns.buckets@[b]@.len() && (#[trigger] ns.buckets@[b]@[j]).node.id@ == id && (false
            ==> ns.buckets@[b]@[j].verified());
    crate::node_storage::lemma_entry_of(ns, id, j);
}

/// The state of a DHT node.
pub struct DHT {
    pub our_id: Id,
    pub buckets: NodeStorage,
    pub peer_storage: PeerStorage,
    pub secrets: TokenSecrets,
    pub ip4_source: AddressSource,
    pub settings: DHTSettings,
}

pub(crate) fn to_nodes(v: &Vec<NodeWrapper>) -> (r: Vec<Node>)
    ensures
        r@ == nodes_of(v@),
{
    let mut r: Vec<Node> = Vec::new();
    let mut i: usize = 0;
    while i < v.len()
        invariant
            i <= v@.len(),
            r@ == nodes_of(v@.take(i as int)),
        decreases v@.len() - i,
    {
        r.push(v[i].node);
        assert(nodes_of(v@.take(i + 1)) =~= nodes_of(v@.take(i as int)).push(v@[i as int].node));
        i = i + 1;
    }
    assert(v@.take(v@.len() as int) =~= v@);
    r
}

/// The nodes of the entries of `v` that are due for a ping.
fn due_of(v: &Vec<NodeWrapper>, threshold: u64) -> (r: Vec<Node>)
    ensures
        r@ == due_nodes(v@, threshold),
{
    let mut r: Vec<Node> = Vec::new();
    let mut i: usize = 0;
    while i < v.len()
        invariant
            i <= v@.len(),
            r@ == due_nodes(v@.take(i as int), threshold),
        decreases v@.len() - i,
    {
        let w = v[i];
        assert(v@.take(i + 1).drop_last() =~= v@.take(i as int));
        assert(v@.take(i + 1).last() == w);
        let due = match w.last_verified {
            None => true,
            Some(t) => t < threshold,
        };
        if due {
            r.push(w.node);
        }
        i = i + 1;
    }
    assert(v@.take(v@.len() as int) =~= v@);
    r
}

pub(crate) fn copy_bytes(v: &[u8]) -> (r: Vec<u8>)
    ensures
        r@ == v@,
{
    let mut r: Vec<u8> = Vec::new();
    let mut i: usize = 0;
    while i < v.len()
        invariant
            i <= v@.len(),
            r@ == v@.take(i as int),
        decreases v@.len() - i,
    {
        r.push(v[i]);
        assert(r@ =~= v@.take(i + 1));
        i = i + 1;
    }
    assert(v@.take(v@.len() as int) =~= v@);
    r
}

fn take_prefix(v: Vec<Addr>, n: usize) -> (r: Vec<Addr>)
    ensures
        r@ == prefix(v@, n),
{
    if n >= v.len() {
        return v;
    }
    let mut r: Vec<Addr> = Vec::new();
    let mut i: usize = 0;
    while i < n
        invariant
            i <= n,
            n < v@.len(),
            r@ == v@.take(i as int),
        decreases n - i,
    {
        r.push(v[i]);
        assert(r@ =~= v@.take(i + 1));
        i = i + 1;
    }
    r
}

impl DHT {
    pub open spec fn wf(&self) -> bool {
        &&& self.buckets.wf()
        &&& self.buckets.our_id@ == self.our_id@
        &&& self.peer_storage.wf()
        &&& self.peer_storage.max_info_hashes == self.settings.max_torrents
        &&& self.peer_storage.max_peers_per_info_hash == self.settings.max_peers_per_torrent
        &&& self.ip4_source.wf()
        &&& self.secrets.current@.len() == self.settings.token_secret_size
        &&& self.secrets.previous@.len() == self.settings.token_secret_size
    }

    /// Sets up the state of a node. The local id is `id` where one is given;
    /// else one generated for the best external IPv4 address of
    /// `ip4_source`, where it has one; else a random one. Both token secrets
    /// start as the same random value.
    pub fn new(id: Option<Id>, ip4_source: AddressSource, settings: DHTSettings) -> (r: DHT)
        requires
            ip4_source.wf(),
        ensures
            r.wf(),
            id matches Some(i) ==> r.our_id@ == i@,
            id is None ==> (ip4_source.winner() matches Some(ip) ==> valid_for_ip(r.our_id@, ip)),
            r.buckets.entries().len() == 0,
            r.peer_storage.torrents@.len() == 0,
            r.peer_storage.max_info_hashes == settings.max_torrents,
            r.peer_storage.max_peers_per_info_hash == settings.max_peers_per_torrent,
            r.secrets.current@ == r.secrets.previous@,
            r.ip4_source == ip4_source,
            r.settings == settings,
    {
        let our_id = match id {
            Some(i) => i,
            None => {
                let best = ip4_source.get_best_ipv4();
                match best {
                    Some(ip) => Id::from_ip(ip),
                    None => Id::from_random(),
                }
            },
        };
        let secrets = TokenSecrets::new(settings.token_secret_size);
        DHT {
            our_id,
            buckets: NodeStorage::new(our_id),
            peer_storage: PeerStorage::new(settings.max_torrents, settings.max_peers_per_torrent),
            secrets,
            ip4_source,
            settings,
        }
    }

    /// The current local id.
    pub fn get_id(&self) -> (r: Id)
        ensures
            r@ == self.our_id@,
    {
        self.our_id
    }

    /// Every verified node of the routing table.
    pub fn get_nodes(&self) -> (r: Vec<NodeWrapper>)
        ensures
            r@ == select(self.buckets.entries(), Some(true), None),
    {
        self.buckets.get_all_verified()
    }

    /// The node's settings.
    pub fn get_settings(&self) -> (r: &DHTSettings)
        ensures
            *r == self.settings,
    {
        &self.settings
    }

    /// Each info-hash held with its peers announced at or after
    /// `newer_than` (all of them where it is `None`), leaving out info-hashes
    /// that have no such peer.
    pub fn get_info_hashes(&self, newer_than: Option<u64>) -> (r: Vec<(Id, Vec<PeerInfo>)>)
        requires
            self.wf(),
        ensures
            forall|k: int|
                0 <= k < r@.len() ==> {
                    let e = #[trigger] r@[k];
                    &&& e.1@ == fresh_records(self.peer_storage.records_of(e.0@), newer_than)
                    &&& e.1@.len() > 0
                },
            forall|t: int|
                0 <= t < self.peer_storage.torrents@.len() && fresh_records(
                    self.peer_storage.records_of((#[trigger] self.peer_storage.torrents@[t]).info_hash@),
                    newer_than,
                ).len() > 0 ==> exists|k: int|
                    0 <= k < r@.len() && (#[trigger] r@[k]).0@ == self.peer_storage.torrents@[t].info_hash@,
            forall|a: int, b: int| 0 <= a < b < r@.len() ==> (#[trigger] r@[a]).0@ != (#[trigger] r@[b]).0@,
            r@.len() <= self.peer_storage.torrents@.len(),
            r@.len() <= self.settings.max_torrents,
            forall|k: int| 0 <= k < r@.len() ==> (#[trigger] r@[k]).1@.len() <= self.settings.max_peers_per_torrent,
    {
        let hashes = self.peer_storage.get_info_hashes();
        let mut r: Vec<(Id, Vec<PeerInfo>)> = Vec::new();
        let mut i: usize = 0;
        while i < hashes.len()
            invariant
                self.wf(),
                i <= hashes@.len(),
                hashes@.len() == self.peer_storage.torrents@.len(),
                forall|t: int| 0 <= t < hashes@.len() ==> #[trigger] hashes@[t]@ == self.peer_storage.torrents@[t].info_hash@,
                forall|k: int|
                    0 <= k < r@.len() ==> {
                        let e = #[trigger] r@[k];
                        &&& e.1@ == fresh_records(self.peer_storage.records_of(e.0@), newer_than)
                        &&& e.1@.len() > 0
                    },
                forall|t: int|
                    0 <= t < i && fresh_records(
                        self.peer_storage.records_of((#[trigger] self.peer_storage.torrents@[t]).info_hash@),
                        newer_than,
                    ).len() > 0 ==> exists|k: int|
                        0 <= k < r@.len() && (#[trigger] r@[k]).0@ == self.peer_storage.torrents@[t].info_hash@,
                forall|a: int, b: int| 0 <= a < b < r@.len() ==> (#[trigger] r@[a]).0@ != (#[trigger] r@[b]).0@,
                forall|k: int| 0 <= k < r@.len() ==> exists|m: int| 0 <= m < i && (#[trigger] r@[k]).0@ == self.peer_storage.torrents@[m].info_hash@,
                r@.len() <= i,
                forall|k: int| 0 <= k < r@.len() ==> (#[trigger] r@[k]).1@.len() <= self.settings.max_peers_per_torrent,
            decreases hashes@.len() - i,
        {
            let h = hashes[i];
            let peers = self.peer_storage.get_peers_info(&h, newer_than);
            if peers.len() > 0 {
                let ghost before = r@;
                proof {
                    let recs = self.peer_storage.records_of(h@);
                    crate::peer_storage::lemma_fresh_records_len(recs, newer_than);
                    if let Some(t) = self.peer_storage.index_of(h@) {
                        assert(self.peer_storage.torrents@[t].peers@.len() <= self.peer_storage.max_peers_per_info_hash);
                    }
                }
                r.push((h, peers));
                proof {
                    assert forall|k: int| 0 <= k < r@.len() implies (#[trigger] r@[k]).1@.len() <= self.settings.max_peers_per_torrent by {
                        if k < before.len() {
                            assert(r@[k] == before[k]);
                        }
                    }
                    assert(h@ == self.peer_storage.torrents@[i as int].info_hash@);
                    assert forall|k: int| 0 <= k < r@.len() implies exists|m: int| 0 <= m < i + 1 && (#[trigger] r@[k]).0@ == self.peer_storage.torrents@[m].info_hash@ by {
                        if k < before.len() {
                            assert(r@[k] == before[k]);
                        }
                    }
                    assert forall|a: int, b: int| 0 <= a < b < r@.len() implies (#[trigger] r@[a]).0@ != (#[trigger] r@[b]).0@ by {
                        assert(r@[a] == before[a]);
                        if b < before.len() {
                            assert(r@[b] == before[b]);
                        } else {
                            let m = choose|m: int| 0 <= m < i && (#[trigger] before[a]).0@ == self.peer_storage.torrents@[m].info_hash@;
                            assert(self.peer_storage.torrents@[m].info_hash@ != self.peer_storage.torrents@[i as int].info_hash@);
                        }
                    }
                    assert forall|t: int|
                        0 <= t < i + 1 && fresh_records(
                            self.peer_storage.records_of((#[trigger] self.peer_storage.torrents@[t]).info_hash@),
                            newer_than,
                        ).len() > 0 implies exists|k: int|
                            0 <= k < r@.len() && (#[trigger] r@[k]).0@ == self.peer_storage.torrents@[t].info_hash@ by {
                        if t < i {
                            let k = choose|k: int|
                                0 <= k < before.len() && (#[trigger] before[k]).0@ == self.peer_storage.torrents@[t].info_hash@;
                            assert(r@[k] == before[k]);
                        } else {
                            assert(r@[before.len() as int].0@ == hashes@[t]@);
                        }
                    }
                }
            } else {
                assert(hashes@[i as int]@ == self.peer_storage.torrents@[i as int].info_hash@);
            }
            i = i + 1;
        }
        r
    }

    /// Answers a query that arrived from `from` at `now`. A sender whose id
    /// is valid for its address and that is not read-only is first offered
    /// to the routing table as unverified. Every reply echoes the query's
    /// transaction id and carries our id and the sender's address. An
    /// `announce_peer` whose token matches neither secret gets no reply and
    /// changes no peer.
    pub fn handle_request(&mut self, req: &Request, from: Addr, now: u64) -> (r: Option<Response>)
        requires
            old(self).wf(),
        ensures
            final(self).wf(),
            final(self).our_id == old(self).our_id,
            final(self).secrets == old(self).secrets,
            final(self).settings == old(self).settings,
            final(self).ip4_source == old(self).ip4_source,
            valid_for_ip(req.requester_id@, from.ip) && !req.read_only && (old(self).buckets.holds_as(
                req.requester_id@,
                false,
            ) || old(self).buckets.has_room_for(req.requester_id@)) ==> final(self).buckets.holds_as(
                req.requester_id@,
                false,
            ),
            !(valid_for_ip(req.requester_id@, from.ip) && !req.read_only) ==> final(self).buckets
                == old(self).buckets,
            valid_for_ip(req.requester_id@, from.ip) && !req.read_only && old(self).buckets.holds_as(
                req.requester_id@,
                false,
            ) ==> final(self).buckets.entry_of(req.requester_id@) == refreshed(
                old(self).buckets.entry_of(req.requester_id@),
                false,
                now,
            ),
            r matches Some(resp) ==> resp.transaction_id@ == req.transaction_id@
                && resp.responder_id@ == old(self).our_id@ && resp.requester_ip == Some(from),
            !(req.kind is AnnouncePeer) ==> final(self).peer_storage == old(self).peer_storage,
            match req.kind {
                RequestKind::Ping => is_pong(r),
                RequestKind::FindNode { target } => find_node_reply(
                    final(self).buckets.entries(),
                    target@,
                    req.requester_id@,
                    r,
                ),
                RequestKind::GetPeers { info_hash } => get_peers_reply(
                    final(self).buckets.entries(),
                    fresh_addrs(
                        old(self).peer_storage.records_of(info_hash@),
                        fresh_since(now, old(self).settings.get_peers_freshness_secs),
                    ),
                    old(self).settings.max_peers_response,
                    token_of(from.ip, old(self).secrets.current@),
                    info_hash@,
                    req.requester_id@,
                    r,
                ),
                RequestKind::AnnouncePeer { info_hash, port, implied_port, token } => {
                    &&& (r is Some <==> token_accepted(
                        old(self).secrets.current@,
                        old(self).secrets.previous@,
                        from.ip,
                        token@,
                    ))
                    &&& r is Some ==> is_pong(r)
                    &&& r is None ==> final(self).peer_storage == old(self).peer_storage
                    &&& r is Some && old(self).settings.max_torrents > 0
                        && old(self).settings.max_peers_per_torrent > 0 ==> {
                        &&& final(self).peer_storage.records_of(info_hash@) == announced(
                            old(self).peer_storage.records_of(info_hash@),
                            announced_addr(from, port, implied_port),
                            now,
                            old(self).settings.max_peers_per_torrent,
                        )
                        &&& final(self).peer_storage.torrents@.len() > 0
                        &&& final(self).peer_storage.torrents@.last().info_hash@ == info_hash@
                        &&& final(self).peer_storage.torrents@.drop_last()
                            == old(self).peer_storage.others_after_announce(info_hash@)
                    }
                },
                RequestKind::SampleInfoHashes { target } => sample_reply(
                    final(self).buckets.entries(),
                    old(self).peer_storage.torrents@,
                    old(self).settings.max_sample_response,
                    old(self).settings.min_sample_interval_secs,
                    target@,
                    req.requester_id@,
                    r,
                ),
            },
    {
        if req.requester_id.is_valid_for_ip(from.ip) && !req.read_only {
            self.buckets.add_or_update(Node::new(req.requester_id, from), false, now);
        }
        let tid = copy_bytes(req.transaction_id.as_slice());
        match &req.kind {
            RequestKind::Ping => {
                let r = Some(
                    Response {
                        transaction_id: tid,
                        responder_id: self.our_id,
                        requester_ip: Some(from),
                        kind: ResponseKind::Ping,
                    },
                );
                r
            },
            RequestKind::FindNode { target } => {
                let nearest = self.buckets.get_nearest_nodes(target, Some(req.requester_id));
                let nodes = to_nodes(&nearest);
                assert(nearest_result(self.buckets.entries(), target@, Some(true), opt_view(Some(req.requester_id)), nearest@));
                let r = Some(
                    Response {
                        transaction_id: tid,
                        responder_id: self.our_id,
                        requester_ip: Some(from),
                        kind: ResponseKind::FindNode { nodes },
                    },
                );
                r
            },
            RequestKind::GetPeers { info_hash } => {
                let fresh = self.settings.get_peers_freshness_secs;
                let newer_than: Option<u64> = if now >= fresh {
                    Some(now - fresh)
                } else {
                    None
                };
                let all = self.peer_storage.get_peers(info_hash, newer_than);
                let peers = take_prefix(all, self.settings.max_peers_response);
                let tok = calculate_token(&from, self.secrets.current.as_slice());
                let token: Vec<u8> = vec![tok[0], tok[1], tok[2], tok[3]];
                assert(token@ =~= tok@);
                let values = if peers.len() == 0 {
                    let nearest = self.buckets.get_nearest_nodes(info_hash, Some(req.requester_id));
                    assert(nearest_result(self.buckets.entries(), info_hash@, Some(true), opt_view(Some(req.requester_id)), nearest@));
                    PeersOrNodes::Nodes(to_nodes(&nearest))
                } else {
                    PeersOrNodes::Peers(peers)
                };
                let r = Some(
                    Response {
                        transaction_id: tid,
                        responder_id: self.our_id,
                        requester_ip: Some(from),
                        kind: ResponseKind::GetPeers { token, values },
                    },
                );
                r
            },
            RequestKind::AnnouncePeer { info_hash, port, implied_port, token } => {
                if self.secrets.is_token_valid(&from, token.as_slice()) {
                    let addr = if *implied_port {
                        from
                    } else {
                        from.with_port(*port)
                    };
                    self.peer_storage.announce_peer(*info_hash, addr, now);
                    Some(
                        Response {
                            transaction_id: tid,
                            responder_id: self.our_id,
                            requester_ip: Some(from),
                            kind: ResponseKind::Ping,
                        },
                    )
                } else {
                    None
                }
            },
            RequestKind::SampleInfoHashes { target } => {
                let nearest = self.buckets.get_nearest_nodes(target, Some(req.requester_id));
                assert(nearest_result(self.buckets.entries(), target@, Some(true), opt_view(Some(req.requester_id)), nearest@));
                let nodes = to_nodes(&nearest);
                let hashes = self.peer_storage.get_info_hashes();
                let num = hashes.len();
                let ghost hv = hashes@;
                assert(hv.no_duplicates()) by {
                    assert forall|a: int, b: int| 0 <= a < hv.len() && 0 <= b < hv.len() && a != b implies hv[a] != hv[b] by {
                        assert(hv[a]@ == self.peer_storage.torrents@[a].info_hash@);
                        assert(hv[b]@ == self.peer_storage.torrents@[b].info_hash@);
                        if a < b {
                            assert(self.peer_storage.torrents@[a].info_hash@ != self.peer_storage.torrents@[b].info_hash@);
                        } else {
                            assert(self.peer_storage.torrents@[b].info_hash@ != self.peer_storage.torrents@[a].info_hash@);
                        }
                    }
                }
                let samples = sample_ids(hashes, self.settings.max_sample_response);
                proof {
                    assert forall|k: int| 0 <= k < samples@.len() implies held_hash(
                        self.peer_storage.torrents@,
                        #[trigger] samples@[k]@,
                    ) by {
                        assert(hv.contains(samples@[k]));
                        let t = choose|t: int| 0 <= t < hv.len() && hv[t] == samples@[k];
                        assert(hv[t]@ == self.peer_storage.torrents@[t].info_hash@);
                    }
                }
                let r = Some(
                    Response {
                        transaction_id: tid,
                        responder_id: self.our_id,
                        requester_ip: Some(from),
                        kind: ResponseKind::SampleInfoHashes {
                            interval: self.settings.min_sample_interval_secs,
                            nodes,
                            samples,
                            num,
                        },
                    },
                );
                r
            },
        }
    }

    /// Takes in `resp`, a reply from `target` to one of our queries,
    /// received at `now`. Where the responder's id is valid for its address,
    /// it votes on our external address with the address it saw us at, and
    /// it enters the routing table as verified (its entry refreshed where it
    /// was held) unless its bucket is full of verified nodes. Then the nodes
    /// of a `find_node` reply whose ids are valid for their addresses are
    /// offered to the routing table as unverified. Nothing else enters it.
    pub fn handle_response(&mut self, target: Addr, resp: &Response, now: u64)
        requires
            old(self).wf(),
        ensures
            final(self).wf(),
            final(self).our_id == old(self).our_id,
            final(self).secrets == old(self).secrets,
            final(self).settings == old(self).settings,
            final(self).peer_storage == old(self).peer_storage,
            valid_for_ip(resp.responder_id@, target.ip) && (old(self).buckets.holds_as(resp.responder_id@, false)
                || old(self).buckets.has_room_for(resp.responder_id@)) ==> {
                &&& final(self).buckets.holds_as(resp.responder_id@, true)
                &&& final(self).buckets.entry_of(resp.responder_id@) == responder_entry(
                    old(self).buckets,
                    Node { id: resp.responder_id, address: target },
                    now,
                )
            },
            forall|x: NodeWrapper|
                #[trigger] final(self).buckets.has_entry(x) ==> old(self).buckets.has_entry(x) || (valid_for_ip(
                    resp.responder_id@,
                    target.ip,
                ) && x.node.id@ == resp.responder_id@) || reply_offers(resp.kind, x.node.id@),
            !valid_for_ip(resp.responder_id@, target.ip) ==> final(self).ip4_source == old(self).ip4_source,
            valid_for_ip(resp.responder_id@, target.ip) && !(resp.kind is FindNode) && old(self).buckets.entries().len()
                == 0 ==> select(final(self).buckets.entries(), Some(false), None).len() == 0 && select(
                final(self).buckets.entries(),
                Some(true),
                None,
            ).len() == 1,
            match resp.kind {
                ResponseKind::FindNode { nodes } => forall|k: int|
                    0 <= k < nodes@.len() && valid_for_ip((#[trigger] nodes@[k]).id@, nodes@[k].address.ip)
                        ==> final(self).buckets.holds_as(nodes@[k].id@, false) || final(self).buckets.buckets@[bucket_index(
                        final(self).our_id@,
                        nodes@[k].id@,
                    )]@.len() >= K,
                _ => true,
            },
            !valid_for_ip(resp.responder_id@, target.ip) && !(resp.kind is FindNode) ==> final(self).buckets == old(self).buckets,
            valid_for_ip(resp.responder_id@, target.ip) ==> match resp.requester_ip {
                Some(ours) => {
                    &&& final(self).ip4_source.votes@.len() > 0
                    &&& final(self).ip4_source.votes@.last() == (crate::address_source::Vote {
                        voter: target.ip,
                        claimed: ours.ip,
                        weight: old(self).ip4_source.initial_weight,
                    })
                },
                None => final(self).ip4_source == old(self).ip4_source,
            },
    {
        let rid = resp.responder_id;
        let valid = rid.is_valid_for_ip(target.ip);
        let ghost e = responder_entry(old(self).buckets, Node { id: rid, address: target }, now);
        let ghost admitted = valid && (old(self).buckets.holds_as(rid@, false) || old(self).buckets.has_room_for(rid@));
        if valid {
            if let Some(ours) = resp.requester_ip {
                self.ip4_source.add_vote(target.ip, ours.ip);
            }
            self.buckets.add_or_update(Node { id: rid, address: target }, true, now);
            proof {
                if admitted {
                    lemma_holds_verified(self.buckets, rid@);
                }
            }
        }
        if let ResponseKind::FindNode { nodes } = &resp.kind {
            let ghost v = self.ip4_source;
            let mut i: usize = 0;
            while i < nodes.len()
                invariant
                    self.wf(),
                    i <= nodes@.len(),
                    resp.kind == (ResponseKind::FindNode { nodes: *nodes }),
                    self.our_id == old(self).our_id,
                    self.secrets == old(self).secrets,
                    self.settings == old(self).settings,
                    self.peer_storage == old(self).peer_storage,
                    self.ip4_source == v,
                    rid == resp.responder_id,
                    valid == valid_for_ip(rid@, target.ip),
                    e.last_verified == Some(e.last_seen),
                    e.last_seen >= now,
                    admitted ==> self.buckets.holds_as(rid@, true) && self.buckets.entry_of(rid@) == e,
                    forall|x: NodeWrapper|
                        #[trigger] self.buckets.has_entry(x) ==> old(self).buckets.has_entry(x) || (valid
                            && x.node.id@ == rid@) || exists|k: int|
                            0 <= k < i && nodes@[k].id@ == x.node.id@ && valid_for_ip(nodes@[k].id@, nodes@[k].address.ip),
                    forall|k: int|
                        0 <= k < i && valid_for_ip((#[trigger] nodes@[k]).id@, nodes@[k].address.ip)
                            ==> self.buckets.holds_as(nodes@[k].id@, false) || self.buckets.buckets@[bucket_index(
                            self.our_id@,
                            nodes@[k].id@,
                        )]@.len() >= K,
                decreases nodes@.len() - i,
            {
                let n = nodes[i];
                let ghost t0 = self.buckets;
                if n.id.is_valid_for_ip(n.address.ip) {
                    self.buckets.add_or_update(n, false, now);
                    proof {
                        if admitted {
                            if n.id@ == rid@ {
                                assert(refreshed(e, false, now) == e);
                            }
                            lemma_holds_verified(self.buckets, rid@);
                        }
                    }
                }
                proof {
                    assert(nodes@[i as int] == n);
                    assert forall|x: NodeWrapper|
                        #[trigger] self.buckets.has_entry(x) implies old(self).buckets.has_entry(x) || (valid
                            && x.node.id@ == rid@) || exists|k: int|
                            0 <= k < i + 1 && nodes@[k].id@ == x.node.id@ && valid_for_ip(nodes@[k].id@, nodes@[k].address.ip) by {
                        if !t0.has_entry(x) {
                            assert(nodes@[i as int].id@ == x.node.id@);
                        } else if exists|k: int|
                            0 <= k < i && nodes@[k].id@ == x.node.id@ && valid_for_ip(nodes@[k].id@, nodes@[k].address.ip) {
                            let k = choose|k: int|
                                0 <= k < i && nodes@[k].id@ == x.node.id@ && valid_for_ip(nodes@[k].id@, nodes@[k].address.ip);
                            assert(0 <= k < i + 1 && nodes@[k].id@ == x.node.id@);
                        }
                    }
                    assert forall|k: int|
                        0 <= k < i + 1 && valid_for_ip((#[trigger] nodes@[k]).id@, nodes@[k].address.ip)
                            implies self.buckets.holds_as(nodes@[k].id@, false) || self.buckets.buckets@[bucket_index(
                            self.our_id@,
                            nodes@[k].id@,
                        )]@.len() >= K by {
                        let id = nodes@[k].id@;
                        lemma_bucket_range(self.our_id@, id);
                        if k < i {
                            if t0.holds_as(id, false) {
                            }
                        }
                    }
                }
                i = i + 1;
            }
        }
        proof {
            if valid && !(resp.kind is FindNode) && old(self).buckets.entries().len() == 0 {
                let ob = old(self).buckets;
                let c = bucket_index(ob.our_id@, rid@);
                lemma_bucket_range(ob.our_id@, rid@);
                if ob.buckets@[c]@.len() > 0 {
                    crate::node_storage::lemma_flatten_contains(ob.buckets@, c, 0);
                }
                assert(ob.has_room_for(rid@));
                assert forall|x: NodeWrapper| #[trigger] self.buckets.has_entry(x) implies x.node.id@ == rid@ by {
                    if ob.has_entry(x) {
                        let (b, j) = choose|b: int, j: int|
                            0 <= b < ob.buckets@.len() && 0 <= j < ob.buckets@[b]@.len() && #[trigger] ob.buckets@[b]@[j] == x;
                        crate::node_storage::lemma_flatten_contains(ob.buckets@, b, j);
                    }
                }
                crate::node_storage::lemma_single_id_count(self.buckets, rid@);
            }
        }
    }

    /// Prunes the routing table at `now`, then lists the nodes to ping: each
    /// unverified node, then each verified node last verified before
    /// `now - reverify_interval_secs`. `None`, with no list, where that time
    /// would fall before time zero.
    pub fn buddy_ping_targets(&mut self, now: u64) -> (r: Option<Vec<Node>>)
        requires
            old(self).wf(),
        ensures
            final(self).wf(),
            final(self).our_id == old(self).our_id,
            final(self).secrets == old(self).secrets,
            final(self).settings == old(self).settings,
            final(self).peer_storage == old(self).peer_storage,
            final(self).ip4_source == old(self).ip4_source,
            forall|b: int|
                0 <= b < crate::node_storage::NUM_BUCKETS ==> (#[trigger] final(self).buckets.buckets@[b])@
                    == crate::node_storage::survivors(
                    old(self).buckets.buckets@[b]@,
                    old(self).settings.reverify_grace_period_secs,
                    old(self).settings.verify_grace_period_secs,
                    now,
                ),
            r is None <==> now < old(self).settings.reverify_interval_secs,
            r matches Some(v) ==> {
                let t = (now - old(self).settings.reverify_interval_secs) as u64;
                v@ == due_nodes(select(final(self).buckets.entries(), Some(false), None), t) + due_nodes(
                    select(final(self).buckets.entries(), Some(true), None),
                    t,
                )
            },
    {
        let reverify_grace = self.settings.reverify_grace_period_secs;
        let verify_grace = self.settings.verify_grace_period_secs;
        self.buckets.prune(reverify_grace, verify_grace, now);
        let interval = self.settings.reverify_interval_secs;
        if now < interval {
            return None;
        }
        let threshold = now - interval;
        let unverified = self.buckets.get_all_unverified();
        let verified = self.buckets.get_all_verified();
        let mut r = due_of(&unverified, threshold);
        let more = due_of(&verified, threshold);
        let ghost a = r@;
        let mut i: usize = 0;
        while i < more.len()
            invariant
                i <= more@.len(),
                r@ == a + more@.take(i as int),
            decreases more@.len() - i,
        {
            r.push(more[i]);
            assert(r@ =~= a + more@.take(i + 1));
            i = i + 1;
        }
        assert(more@.take(more@.len() as int) =~= more@);
        Some(r)
    }

    /// The periodic neighbourhood refresh: with no verified node, ping the
    /// routers; with more unverified nodes than `find_nodes_skip_count`,
    /// skip; else send `find_node` for an id that differs from ours only in
    /// its four lowest bits to the verified nodes nearest it.
    pub fn find_node_action(&self) -> (r: FindNodeAction)
        requires
            self.wf(),
        ensures
            select(self.buckets.entries(), Some(true), None).len() == 0 <==> r is PingRouters,
            r is Skip <==> select(self.buckets.entries(), Some(true), None).len() > 0 && select(
                self.buckets.entries(),
                Some(false),
                None,
            ).len() > self.settings.find_nodes_skip_count,
            r matches FindNodeAction::Send { target, nodes } ==> crate::secure_id::agree_above(
                target@,
                self.our_id@,
                4,
            ) && nearest_reply(self.buckets.entries(), target@, None, nodes@),
    {
        let (unverified, verified) = self.buckets.count();
        if verified == 0 {
            return FindNodeAction::PingRouters;
        }
        if unverified > self.settings.find_nodes_skip_count {
            return FindNodeAction::Skip;
        }
        let target = match self.our_id.make_mutant(4) {
            Some(t) => t,
            None => {
                return FindNodeAction::Skip;
            },
        };
        let nearest = self.buckets.get_nearest_nodes(&target, None);
        assert(nearest_result(self.buckets.entries(), target@, Some(true), opt_view(None), nearest@));
        let nodes = to_nodes(&nearest);
        FindNodeAction::Send { target, nodes }
    }

    /// The periodic address check: the votes decay, and where the address
    /// that then wins is one our id is not valid for, a new id valid for it
    /// is adopted and the routing table moves to it. Returns whether the id
    /// changed.
    pub fn ip4_maintenance(&mut self) -> (r: bool)
        requires
            old(self).wf(),
        ensures
            final(self).wf(),
            final(self).ip4_source.votes@ == crate::address_source::decayed(old(self).ip4_source.votes@),
            final(self).ip4_source.fixed == old(self).ip4_source.fixed,
            match final(self).ip4_source.winner() {
                Some(ip) => {
                    &&& valid_for_ip(final(self).our_id@, ip)
                    &&& r <==> !valid_for_ip(old(self).our_id@, ip)
                },
                None => !r,
            },
            !r ==> final(self).our_id == old(self).our_id && final(self).buckets == old(self).buckets,
            r ==> forall|x: NodeWrapper|
                #[trigger] final(self).buckets.has_entry(x) ==> old(self).buckets.has_entry(x),
            r ==> forall|x: NodeWrapper|
                #[trigger] old(self).buckets.has_entry(x) ==> final(self).buckets.holds_as(x.node.id@, false)
                    || final(self).buckets.buckets@[bucket_index(final(self).our_id@, x.node.id@)]@.len() >= K,
            final(self).peer_storage == old(self).peer_storage,
            final(self).secrets == old(self).secrets,
            final(self).settings == old(self).settings,
    {
        self.ip4_source.decay();
        let best = self.ip4_source.get_best_ipv4();
        match best {
            Some(ip) => {
                if !self.our_id.is_valid_for_ip(ip) {
                    let new_id = Id::from_ip(ip);
                    self.our_id = new_id;
                    self.buckets.set_id(new_id);
                    true
                } else {
                    false
                }
            },
            None => false,
        }
    }

    /// The previous token secret is dropped, the current one becomes the
    /// previous one, and a fresh random secret from `make_token_secret`
    /// becomes current.
    pub fn rotate_token_secrets(&mut self)
        requires
            old(self).wf(),
        ensures
            final(self).wf(),
            final(self).secrets.previous@ == old(self).secrets.current@,
            final(self).secrets.current@.len() == old(self).settings.token_secret_size,
            final(self).our_id == old(self).our_id,
            final(self).buckets == old(self).buckets,
            final(self).peer_storage == old(self).peer_storage,
            final(self).settings == old(self).settings,
    {
        let fresh = make_token_secret(self.settings.token_secret_size);
        self.secrets.rotate_to(fresh);
    }
}

} // verus!
