//! The decisions of the iterative lookups (`find_node`, `get_peers`,
//! `announce_peer`): a private routing table keyed by the lookup's target,
//! seeded from the node's verified nodes and grown from replies; each round
//! queries the nearest entries, and the lookup ends once a round's nearest
//! ids are those of the round before.
use vstd::prelude::*;
use crate::addr::{Addr, Node};
use crate::dht::{copy_bytes, nodes_of};
use crate::id::{lemma_lex_irreflexive, lemma_lex_transitive, nearer, Id};
use crate::messages::{PeersOrNodes, RequestKind, Response, ResponseKind};
use crate::node_storage::{bucket_index, lemma_bucket_range, nearest_result, NodeStorage, NodeWrapper, K};

verus! {

/// A node that answered `get_peers`, with the token it handed out.
#[derive(Debug)]
pub struct GetPeersResponder {
    node: Node,
    token: Vec<u8>,
}

impl GetPeersResponder {
    pub closed spec fn spec_node(&self) -> Node {
        self.node
    }

    pub closed spec fn spec_token(&self) -> Seq<u8> {
        self.token@
    }

    pub fn new(node: Node, token: Vec<u8>) -> (r: GetPeersResponder)
        ensures
            r.spec_node() == node,
            r.spec_token() == token@,
    {
        GetPeersResponder { node, token }
    }

    pub fn node(&self) -> (r: &Node)
        ensures
            *r == self.spec_node(),
    {
        &self.node
    }

    pub fn token(&self) -> (r: &[u8])
        ensures
            r@ == self.spec_token(),
    {
        self.token.as_slice()
    }
}

/// `s` is ordered by distance of its nodes to `target`, nearest first.
pub open spec fn sorted_by_distance(target: Seq<u8>, s: Seq<GetPeersResponder>) -> bool {
    forall|i: int, j: int|
        0 <= i < j < s.len() ==> !nearer(
            target,
            (#[trigger] s[j]).spec_node().id@,
            (#[trigger] s[i]).spec_node().id@,
        )
}

/// What a `get_peers` lookup found.
#[derive(Debug)]
pub struct GetPeersResult {
    info_hash: Id,
    peers: Vec<Addr>,
    responders: Vec<GetPeersResponder>,
}

impl GetPeersResult {
    pub closed spec fn spec_info_hash(&self) -> Id {
        self.info_hash
    }

    pub closed spec fn spec_peers(&self) -> Seq<Addr> {
        self.peers@
    }

    pub closed spec fn spec_responders(&self) -> Seq<GetPeersResponder> {
        self.responders@
    }

    /// The result, with the responders put in order of the distance of
    /// their ids to `info_hash`, nearest first.
    pub fn new(info_hash: Id, peers: Vec<Addr>, responders: Vec<GetPeersResponder>) -> (r: GetPeersResult)
        ensures
            r.spec_info_hash() == info_hash,
            r.spec_peers() == peers@,
            r.spec_responders().to_multiset() == responders@.to_multiset(),
            sorted_by_distance(info_hash@, r.spec_responders()),
    {
        let mut rest = responders;
        let mut sorted: Vec<GetPeersResponder> = Vec::new();
        proof {
            broadcast use vstd::seq_lib::group_to_multiset_ensures;
            assert(sorted@.to_multiset().add(rest@.to_multiset()) =~= responders@.to_multiset());
        }
        while rest.len() > 0
            invariant
                sorted@.to_multiset().add(rest@.to_multiset()) == responders@.to_multiset(),
                sorted_by_distance(info_hash@, sorted@),
            decreases rest@.len(),
        {
            let ghost before_rest = rest@;
            let ghost before_sorted = sorted@;
            let x = rest.pop().unwrap();
            proof {
                assert(before_rest =~= rest@.push(x));
            }
            let mut p: usize = 0;
            while p < sorted.len() && !x.node.id.nearer_to(&sorted[p].node.id, &info_hash)
                invariant
                    p <= sorted@.len(),
                    sorted@ == before_sorted,
                    forall|i: int| 0 <= i < p ==> !nearer(info_hash@, x.node.id@, (#[trigger] sorted@[i]).node.id@),
                decreases sorted@.len() - p,
            {
                p = p + 1;
            }
            let ghost xs = x;
            sorted.insert(p, x);
            proof {
                broadcast use vstd::seq_lib::group_to_multiset_ensures;
                vstd::seq_lib::to_multiset_insert(before_sorted, p as int, xs);
                assert(rest@.push(xs).to_multiset() =~= rest@.to_multiset().insert(xs));
                assert(sorted@.to_multiset().add(rest@.to_multiset()) =~= responders@.to_multiset());
                assert forall|i: int, j: int| 0 <= i < j < sorted@.len() implies !nearer(
                    info_hash@,
                    (#[trigger] sorted@[j]).spec_node().id@,
                    (#[trigger] sorted@[i]).spec_node().id@,
                ) by {
                    let pi = p as int;
                    if j < pi {
                        assert(sorted@[i] == before_sorted[i]);
                        assert(sorted@[j] == before_sorted[j]);
                    } else if j == pi {
                        assert(sorted@[j] == xs);
                        assert(sorted@[i] == before_sorted[i]);
                    } else if i == pi {
                        assert(sorted@[i] == xs);
                        assert(sorted@[j] == before_sorted[j - 1]);
                        if nearer(info_hash@, before_sorted[j - 1].node.id@, xs.node.id@) {
                            assert(p < before_sorted.len());
                            assert(nearer(info_hash@, xs.node.id@, before_sorted[pi].node.id@));
                            if j - 1 > pi {
                                assert(!nearer(info_hash@, before_sorted[j - 1].node.id@, before_sorted[pi].node.id@));
                            }
                            lemma_lex_irreflexive(crate::id::xor_seq(before_sorted[pi].node.id@, info_hash@));
                            lemma_lex_transitive(
                                crate::id::xor_seq(before_sorted[j - 1].node.id@, info_hash@),
                                crate::id::xor_seq(xs.node.id@, info_hash@),
                                crate::id::xor_seq(before_sorted[pi].node.id@, info_hash@),
                            );
                        }
                    } else if i < pi {
                        assert(sorted@[i] == before_sorted[i]);
                        assert(sorted@[j] == before_sorted[j - 1]);
                    } else {
                        assert(sorted@[i] == before_sorted[i - 1]);
                        assert(sorted@[j] == before_sorted[j - 1]);
                    }
                }
            }
        }
        proof {
            broadcast use vstd::seq_lib::group_to_multiset_ensures;
            assert(rest@ =~= Seq::<GetPeersResponder>::empty());
            assert(sorted@.to_multiset().add(rest@.to_multiset()) =~= sorted@.to_multiset());
        }
        GetPeersResult { info_hash, peers, responders: sorted }
    }

    /// The info-hash that was looked up.
    pub fn info_hash(&self) -> (r: &Id)
        ensures
            *r == self.spec_info_hash(),
    {
        &self.info_hash
    }

    /// The peers found for the info-hash.
    pub fn peers(&self) -> (r: &[Addr])
        ensures
            r@ == self.spec_peers(),
    {
        self.peers.as_slice()
    }

    /// The nodes that answered, nearest to the info-hash first.
    pub fn responders(&self) -> (r: &[GetPeersResponder])
        ensures
            r@ == self.spec_responders(),
    {
        self.responders.as_slice()
    }
}

/// The ids of a list of entries.
pub open spec fn ids_of(ws: Seq<NodeWrapper>) -> Seq<Seq<u8>> {
    ws.map_values(|w: NodeWrapper| w.node.id@)
}

/// The views of a list of ids.
pub open spec fn id_views(ids: Seq<Id>) -> Seq<Seq<u8>> {
    ids.map_values(|i: Id| i@)
}

/// What a lookup does next.
#[derive(Debug)]
pub enum RoundAction {
    /// No node is known yet: wait a moment for the routing table to fill, then try again.
    Wait,
    /// The nearest nodes are those of the round before: the lookup is over.
    Done,
    /// Query each of these nodes.
    Query(Vec<Node>),
}

/// The state of one iterative lookup.
pub struct Lookup {
    pub target: Id,
    /// Candidates, in buckets keyed by the target.
    pub table: NodeStorage,
    /// The ids queried in the last round, nearest first.
    pub best_ids: Vec<Id>,
    /// Peers found so far, each once.
    pub peers: Vec<Addr>,
    /// Nodes that answered `get_peers`, in the order they answered.
    pub responders: Vec<GetPeersResponder>,
}

impl Lookup {
    pub open spec fn wf(&self) -> bool {
        &&& self.table.wf()
        &&& self.table.our_id@ == self.target@
        &&& forall|i: int, j: int|
            0 <= i < j < self.peers@.len() ==> (#[trigger] self.peers@[i]) != (#[trigger] self.peers@[j])
    }

    /// A lookup for `target` that knows no node yet.
    pub fn new(target: Id) -> (r: Lookup)
        ensures
            r.wf(),
            r.target@ == target@,
            r.table.entries().len() == 0,
            r.best_ids@.len() == 0,
            r.peers@.len() == 0,
            r.responders@.len() == 0,
    {
        Lookup {
            target,
            table: NodeStorage::new(target),
            best_ids: Vec::new(),
            peers: Vec::new(),
            responders: Vec::new(),
        }
    }

    /// Offers the node's own routing-table entries as candidates; entries
    /// whose ids are already known are passed over.
    pub fn seed(&mut self, nodes: &Vec<NodeWrapper>)
        requires
            old(self).wf(),
        ensures
            final(self).wf(),
            forall|x: NodeWrapper|
                #[trigger] final(self).table.has_entry(x) ==> old(self).table.has_entry(x) || nodes@.contains(x),
            forall|k: int|
                0 <= k < nodes@.len() && (#[trigger] nodes@[k]).wf() ==> final(self).table.holds_as(nodes@[k].node.id@, false)
                    || final(self).table.buckets@[bucket_index(final(self).table.our_id@, nodes@[k].node.id@)]@.len() >= K,
            final(self).target == old(self).target,
            final(self).best_ids == old(self).best_ids,
            final(self).peers == old(self).peers,
            final(self).responders == old(self).responders,
    {
        let mut i: usize = 0;
        while i < nodes.len()
            invariant
                self.wf(),
                i <= nodes@.len(),
                self.target == old(self).target,
                self.best_ids == old(self).best_ids,
                self.peers == old(self).peers,
                self.responders == old(self).responders,
                forall|x: NodeWrapper|
                    #[trigger] self.table.has_entry(x) ==> old(self).table.has_entry(x) || nodes@.contains(x),
                forall|k: int|
                    0 <= k < i && (#[trigger] nodes@[k]).wf() ==> self.table.holds_as(nodes@[k].node.id@, false)
                        || self.table.buckets@[bucket_index(self.table.our_id@, nodes@[k].node.id@)]@.len() >= K,
            decreases nodes@.len() - i,
        {
            let w = nodes[i];
            let ghost t0 = self.table;
            let consistent = match w.last_verified {
                Some(v) => v <= w.last_seen,
                None => true,
            };
            if consistent && !self.table.contains(&w.node.id) {
                self.table.add_wrapper(w);
            }
            assert(nodes@[i as int] == w);
            proof {
                assert forall|k: int|
                    0 <= k < i + 1 && (#[trigger] nodes@[k]).wf() implies self.table.holds_as(nodes@[k].node.id@, false)
                        || self.table.buckets@[bucket_index(self.table.our_id@, nodes@[k].node.id@)]@.len() >= K by {
                    let id = nodes@[k].node.id@;
                    lemma_bucket_range(self.table.our_id@, id);
                    if k < i {
                        if t0.holds_as(id, false) {
                        }
                    }
                }
            }
            i = i + 1;
        }
    }

    /// Offers nodes named in a reply, seen at `now`, as unverified candidates;
    /// nodes whose ids are already known are passed over.
    pub fn absorb_nodes(&mut self, nodes: &Vec<Node>, now: u64)
        requires
            old(self).wf(),
        ensures
            final(self).wf(),
            forall|k: int|
                0 <= k < nodes@.len() ==> final(self).table.holds_as((#[trigger] nodes@[k]).id@, false)
                    || final(self).table.buckets@[bucket_index(final(self).table.our_id@, nodes@[k].id@)]@.len() >= K,
            final(self).target == old(self).target,
            final(self).best_ids == old(self).best_ids,
            final(self).peers == old(self).peers,
            final(self).responders == old(self).responders,
    {
        let mut i: usize = 0;
        while i < nodes.len()
            invariant
                self.wf(),
                i <= nodes@.len(),
                self.target == old(self).target,
                self.best_ids == old(self).best_ids,
                self.peers == old(self).peers,
                self.responders == old(self).responders,
                forall|k: int|
                    0 <= k < i ==> self.table.holds_as((#[trigger] nodes@[k]).id@, false)
                        || self.table.buckets@[bucket_index(self.table.our_id@, nodes@[k].id@)]@.len() >= K,
            decreases nodes@.len() - i,
        {
            let n = nodes[i];
            let ghost t0 = self.table;
            if !self.table.contains(&n.id) {
                self.table.add_wrapper(NodeWrapper::new(n, now));
            }
            proof {
                assert forall|k: int|
                    0 <= k < i + 1 implies self.table.holds_as((#[trigger] nodes@[k]).id@, false)
                        || self.table.buckets@[bucket_index(self.table.our_id@, nodes@[k].id@)]@.len() >= K by {
                    let id = nodes@[k].id@;
                    lemma_bucket_range(self.table.our_id@, id);
                    if k < i {
                        if t0.holds_as(id, false) {
                        }
                    } else {
                        assert(nodes@[k] == n);
                    }
                }
            }
            i = i + 1;
        }
    }

    /// Adds `a` to the peers found, unless it is among them.
    pub fn add_peer(&mut self, a: Addr)
        requires
            old(self).wf(),
        ensures
            final(self).wf(),
            final(self).peers@.contains(a),
            forall|x: Addr| old(self).peers@.contains(x) ==> final(self).peers@.contains(x),
            forall|x: Addr| #[trigger] final(self).peers@.contains(x) ==> x == a || old(self).peers@.contains(x),
            final(self).target == old(self).target,
            final(self).table == old(self).table,
            final(self).best_ids == old(self).best_ids,
            final(self).responders == old(self).responders,
    {
        let mut i: usize = 0;
        while i < self.peers.len()
            invariant
                self.wf(),
                i <= self.peers@.len(),
                forall|k: int| 0 <= k < i ==> self.peers@[k] != a,
            decreases self.peers@.len() - i,
        {
            if self.peers[i] == a {
                assert(self.peers@[i as int] == a);
                return;
            }
            i = i + 1;
        }
        let ghost before = self.peers@;
        self.peers.push(a);
        assert(self.peers@[before.len() as int] == a);
        assert forall|i: int, j: int|
            0 <= i < j < self.peers@.len() implies (#[trigger] self.peers@[i]) != (#[trigger] self.peers@[j]) by {
            assert(self.peers@[i] == before[i]);
            if j < before.len() {
                assert(self.peers@[j] == before[j]);
            }
        }
        assert forall|x: Addr| before.contains(x) implies self.peers@.contains(x) by {
            let k = choose|k: int| 0 <= k < before.len() && before[k] == x;
            assert(self.peers@[k] == x);
        }
        assert forall|x: Addr| #[trigger] self.peers@.contains(x) implies x == a || before.contains(x) by {
            let k = choose|k: int| 0 <= k < self.peers@.len() && self.peers@[k] == x;
            if k < before.len() {
                assert(before[k] == x);
            }
        }
    }

    /// Takes in `resp`, the reply of `from` to one of this lookup's queries,
    /// received at `now`. A `get_peers` reply records `from` with its token
    /// and adds the peers or the nodes it carries; a `find_node` reply adds
    /// its nodes. Other replies change nothing.
    pub fn absorb_reply(&mut self, from: Node, resp: &Response, now: u64)
        requires
            old(self).wf(),
        ensures
            final(self).wf(),
            final(self).target == old(self).target,
            final(self).best_ids == old(self).best_ids,
            match resp.kind {
                ResponseKind::GetPeers { token, values } => {
                    &&& final(self).responders@.len() == old(self).responders@.len() + 1
                    &&& final(self).responders@.last().spec_node() == from
                    &&& final(self).responders@.last().spec_token() == token@
                    &&& forall|k: int|
                        0 <= k < old(self).responders@.len() ==> #[trigger] final(self).responders@[k]
                            == old(self).responders@[k]
                    &&& match values {
                        PeersOrNodes::Peers(p) => forall|x: Addr|
                            #[trigger] final(self).peers@.contains(x) <==> old(self).peers@.contains(x)
                                || p@.contains(x),
                        PeersOrNodes::Nodes(n) => {
                            &&& final(self).peers == old(self).peers
                            &&& forall|k: int|
                                0 <= k < n@.len() ==> final(self).table.holds_as((#[trigger] n@[k]).id@, false)
                                    || final(self).table.buckets@[bucket_index(final(self).table.our_id@, n@[k].id@)]@.len() >= K
                        },
                    }
                },
                ResponseKind::FindNode { nodes } => {
                    &&& final(self).responders == old(self).responders
                    &&& final(self).peers == old(self).peers
                    &&& forall|k: int|
                        0 <= k < nodes@.len() ==> final(self).table.holds_as((#[trigger] nodes@[k]).id@, false)
                            || final(self).table.buckets@[bucket_index(final(self).table.our_id@, nodes@[k].id@)]@.len() >= K
                },
                _ => final(self).responders == old(self).responders && final(self).peers == old(self).peers
                    && final(self).table == old(self).table,
            },
    {
        match &resp.kind {
            ResponseKind::GetPeers { token, values } => {
                let ghost before = self.responders@;
                self.responders.push(GetPeersResponder::new(from, copy_bytes(token.as_slice())));
                assert forall|k: int| 0 <= k < before.len() implies #[trigger] self.responders@[k]
                    == before[k] by {}
                match values {
                    PeersOrNodes::Nodes(n) => {
                        self.absorb_nodes(n, now);
                    },
                    PeersOrNodes::Peers(p) => {
                        let ghost start = self.peers@;
                        let mut i: usize = 0;
                        while i < p.len()
                            invariant
                                self.wf(),
                                i <= p@.len(),
                                self.target == old(self).target,
                                self.best_ids == old(self).best_ids,
                                self.responders@ == before.push(self.responders@.last()),
                                self.responders@.len() == before.len() + 1,
                                self.responders@.last().spec_node() == from,
                                self.responders@.last().spec_token() == token@,
                                forall|x: Addr|
                                    #[trigger] self.peers@.contains(x) <==> start.contains(x)
                                        || p@.take(i as int).contains(x),
                            decreases p@.len() - i,
                        {
                            let ghost mid = self.peers@;
                            self.add_peer(p[i]);
                            assert forall|x: Addr|
                                #[trigger] self.peers@.contains(x) <==> start.contains(x)
                                    || p@.take(i + 1).contains(x) by {
                                if p@.take(i + 1).contains(x) && !p@.take(i as int).contains(x) {
                                    let k = choose|k: int| 0 <= k < i + 1 && #[trigger] p@.take(i + 1)[k] == x;
                                    if k < i {
                                        assert(p@.take(i as int)[k] == x);
                                    }
                                }
                                if p@.take(i as int).contains(x) {
                                    let k = choose|k: int| 0 <= k < i && #[trigger] p@.take(i as int)[k] == x;
                                    assert(p@.take(i + 1)[k] == x);
                                }
                                if x == p@[i as int] {
                                    assert(p@.take(i + 1)[i as int] == x);
                                }
                                if mid.contains(x) {
                                }
                            }
                            i = i + 1;
                        }
                        assert(p@.take(p@.len() as int) =~= p@);
                    },
                }
            },
            ResponseKind::FindNode { nodes } => {
                self.absorb_nodes(nodes, now);
            },
            _ => {},
        }
    }

    /// Starts a round: the up to `K` candidates nearest to the target, of
    /// any verification status. With none known, wait; where their ids are
    /// those of the last round, the lookup is done; else they are recorded
    /// as this round's and queried.
    pub fn next_round(&mut self) -> (r: RoundAction)
        requires
            old(self).wf(),
        ensures
            final(self).wf(),
            final(self).target == old(self).target,
            final(self).table == old(self).table,
            final(self).peers == old(self).peers,
            final(self).responders == old(self).responders,
            exists|ws: Seq<NodeWrapper>|
                #[trigger] nearest_result(old(self).table.entries(), old(self).target@, None, None, ws)
                    && match r {
                    RoundAction::Wait => ws.len() == 0 && final(self).best_ids == old(self).best_ids,
                    RoundAction::Done => ws.len() > 0 && ids_of(ws) == id_views(old(self).best_ids@)
                        && final(self).best_ids == old(self).best_ids,
                    RoundAction::Query(nodes) => {
                        &&& ws.len() > 0
                        &&& ids_of(ws) != id_views(old(self).best_ids@)
                        &&& nodes@ == nodes_of(ws)
                        &&& id_views(final(self).best_ids@) == ids_of(ws)
                    },
                },
    {
        let nearest = self.table.nearest(&self.target, None, false);
        assert(nearest_result(self.table.entries(), self.target@, None, crate::node_storage::opt_view(None), nearest@));
        if nearest.len() == 0 {
            return RoundAction::Wait;
        }
        let mut ids: Vec<Id> = Vec::new();
        let mut same = nearest.len() == self.best_ids.len();
        assert(ids_of(nearest@).len() == nearest@.len());
        assert(id_views(self.best_ids@).len() == self.best_ids@.len());
        assert(nearest@.take(0) =~= Seq::<NodeWrapper>::empty());
        assert(self.best_ids@.take(0) =~= Seq::<Id>::empty());
        assert(ids_of(nearest@.take(0)) =~= Seq::<Seq<u8>>::empty());
        assert(id_views(self.best_ids@.take(0)) =~= Seq::<Seq<u8>>::empty());
        assert(id_views(ids@) =~= Seq::<Seq<u8>>::empty());
        let mut i: usize = 0;
        while i < nearest.len()
            invariant
                i <= nearest@.len(),
                id_views(ids@) == ids_of(nearest@.take(i as int)),
                same ==> nearest@.len() == self.best_ids@.len() && ids_of(nearest@.take(i as int))
                    == id_views(self.best_ids@.take(i as int)),
                !same ==> ids_of(nearest@) != id_views(self.best_ids@),
            decreases nearest@.len() - i,
        {
            let id = nearest[i].node.id;
            proof {
                assert(ids_of(nearest@.take(i + 1)) =~= ids_of(nearest@.take(i as int)).push(id@));
                assert(id_views(ids@.push(id)) =~= id_views(ids@).push(id@));
            }
            if same {
                if !id.same_as(&self.best_ids[i]) {
                    assert(ids_of(nearest@)[i as int] != id_views(self.best_ids@)[i as int]);
                    same = false;
                } else {
                    assert(id_views(self.best_ids@.take(i + 1)) =~= id_views(self.best_ids@.take(i as int)).push(self.best_ids@[i as int]@));
                }
            }
            ids.push(id);
            i = i + 1;
        }
        assert(nearest@.take(nearest@.len() as int) =~= nearest@);
        if same {
            assert(self.best_ids@.take(self.best_ids@.len() as int) =~= self.best_ids@);
            return RoundAction::Done;
        }
        self.best_ids = ids;
        let nodes = crate::dht::to_nodes(&nearest);
        RoundAction::Query(nodes)
    }

    /// The up to `K` candidates nearest to the target, nearest first: what a
    /// `find_node` lookup returns.
    pub fn nearest_nodes(&self) -> (r: Vec<Node>)
        requires
            self.wf(),
        ensures
            exists|ws: Seq<NodeWrapper>|
                #[trigger] nearest_result(self.table.entries(), self.target@, None, None, ws) && r@ == nodes_of(ws),
    {
        let nearest = self.table.nearest(&self.target, None, false);
        assert(nearest_result(self.table.entries(), self.target@, None, crate::node_storage::opt_view(None), nearest@));
        crate::dht::to_nodes(&nearest)
    }

    /// What a `get_peers` lookup returns: the peers found, and the
    /// responders nearest to the target first.
    pub fn into_result(self) -> (r: GetPeersResult)
        ensures
            r.spec_info_hash() == self.target,
            r.spec_peers() == self.peers@,
            r.spec_responders().to_multiset() == self.responders@.to_multiset(),
            sorted_by_distance(self.target@, r.spec_responders()),
    {
        GetPeersResult::new(self.target, self.peers, self.responders)
    }
}

/// The `announce_peer` query for `info_hash` with `token`: with `port`
/// where one is given, else with port 0 and `implied_port` set.
pub fn announce_request(info_hash: Id, port: Option<u16>, token: Vec<u8>) -> (r: RequestKind)
    ensures
        r matches RequestKind::AnnouncePeer { info_hash: h, port: p, implied_port, token: t } && h == info_hash
            && t@ == token@ && implied_port == port.is_none() && p == match port {
            Some(x) => x,
            None => 0u16,
        },
{
    let implied_port = port.is_none();
    let p: u16 = match port {
        Some(x) => x,
        None => 0,
    };
    RequestKind::AnnouncePeer { info_hash, port: p, implied_port, token }
}

/// The responders that an announce goes to: the first `K` of the result's,
/// each as its node and a copy of its token.
pub fn announce_targets(result: &GetPeersResult) -> (r: Vec<(Node, Vec<u8>)>)
    ensures
        r@.len() == if result.spec_responders().len() < K { result.spec_responders().len() as int } else { K as int },
        forall|i: int|
            0 <= i < r@.len() ==> (#[trigger] r@[i]).0 == result.spec_responders()[i].spec_node() && r@[i].1@
                == result.spec_responders()[i].spec_token(),
{
    let rs = result.responders();
    let mut r: Vec<(Node, Vec<u8>)> = Vec::new();
    let mut i: usize = 0;
    while i < rs.len() && i < K
        invariant
            i <= rs@.len(),
            i <= K,
            rs@ == result.spec_responders(),
            r@.len() == i,
            forall|k: int|
                0 <= k < i ==> (#[trigger] r@[k]).0 == rs@[k].spec_node() && r@[k].1@ == rs@[k].spec_token(),
        decreases K - i,
    {
        let node = *rs[i].node();
        let t = copy_bytes(rs[i].token());
        r.push((node, t));
        i = i + 1;
    }
    r
}

} // verus!
