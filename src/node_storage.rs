//! The routing table: nodes kept in Kademlia buckets of at most `K` entries,
//! one bucket for each length of the prefix a node's id shares with the
//! local id.
use vstd::prelude::*;
use crate::addr::Node;
use crate::id::{
    lemma_lex_irreflexive, lemma_lex_total, lemma_lex_transitive, lemma_xor_injective, nearer,
    xor_seq, Id, ID_SIZE,
};

verus! {

/// Capacity of a bucket.
pub const K: usize = 8;

/// Number of buckets: one per shared-prefix length, 0 to 160.
pub const NUM_BUCKETS: usize = 161;

/// Leading zero bits of a byte.
pub open spec fn lz8(x: u8) -> int {
    if x >= 128 {
        0
    } else if x >= 64 {
        1
    } else if x >= 32 {
        2
    } else if x >= 16 {
        3
    } else if x >= 8 {
        4
    } else if x >= 4 {
        5
    } else if x >= 2 {
        6
    } else if x >= 1 {
        7
    } else {
        8
    }
}

/// Leading zero bits of a byte string.
pub open spec fn zero_prefix(s: Seq<u8>) -> int
    decreases s.len(),
{
    if s.len() == 0 {
        0
    } else if s[0] == 0 {
        8 + zero_prefix(s.drop_first())
    } else {
        lz8(s[0])
    }
}

/// The bucket of `id` in a table whose local id is `our`: the number of
/// leading bits the two share.
pub open spec fn bucket_index(our: Seq<u8>, id: Seq<u8>) -> int {
    zero_prefix(xor_seq(id, our))
}

pub proof fn lemma_zero_prefix_bound(s: Seq<u8>)
    ensures
        0 <= zero_prefix(s) <= 8 * s.len(),
    decreases s.len(),
{
    if s.len() > 0 && s[0] == 0 {
        lemma_zero_prefix_bound(s.drop_first());
    }
}

pub proof fn lemma_bucket_range(our: Seq<u8>, id: Seq<u8>)
    requires
        our.len() == 20,
        id.len() == 20,
    ensures
        0 <= bucket_index(our, id) < NUM_BUCKETS,
{
    lemma_zero_prefix_bound(xor_seq(id, our));
}

fn leading_zeros8(x: u8) -> (r: usize)
    ensures
        r == lz8(x),
{
    if x >= 128 {
        0
    } else if x >= 64 {
        1
    } else if x >= 32 {
        2
    } else if x >= 16 {
        3
    } else if x >= 8 {
        4
    } else if x >= 4 {
        5
    } else if x >= 2 {
        6
    } else if x >= 1 {
        7
    } else {
        8
    }
}

/// The bucket of `id` for the local id `our`.
pub fn bucket_for(our: &Id, id: &Id) -> (r: usize)
    ensures
        r == bucket_index(our@, id@),
        r < NUM_BUCKETS,
{
    let d = id.xor(our);
    let ghost s = d@;
    assert(zero_prefix(s) == bucket_index(our@, id@));
    let mut i: usize = 0;
    assert(s.skip(0) =~= s);
    while i < ID_SIZE
        invariant
            i <= ID_SIZE,
            s == d@,
            s.len() == 20,
            zero_prefix(s) == bucket_index(our@, id@),
            zero_prefix(s) == 8 * i + zero_prefix(s.skip(i as int)),
        decreases ID_SIZE - i,
    {
        let x = d.bytes[i];
        assert(s.skip(i as int)[0] == x);
        if x != 0 {
            assert(zero_prefix(s.skip(i as int)) == lz8(x));
            let r = i * 8 + leading_zeros8(x);
            assert(r == zero_prefix(s));
            return r;
        }
        assert(s.skip(i as int).drop_first() =~= s.skip(i + 1));
        i = i + 1;
    }
    assert(s.skip(20).len() == 0);
    assert(zero_prefix(s.skip(20)) == 0);
    160
}

/// A routing-table entry: a node and what has been observed of it.
#[derive(Clone, Copy, Debug)]
pub struct NodeWrapper {
    pub node: Node,
    /// Time of the last packet seen from the node.
    pub last_seen: u64,
    /// Time of the last reply to one of our requests; `None` while the node
    /// has never replied.
    pub last_verified: Option<u64>,
}

impl NodeWrapper {
    pub open spec fn wf(&self) -> bool {
        self.last_verified matches Some(v) ==> v <= self.last_seen
    }

    pub open spec fn verified(&self) -> bool {
        self.last_verified is Some
    }

    /// A node seen at `now` that has not yet replied to us.
    pub fn new(node: Node, now: u64) -> (r: NodeWrapper)
        ensures
            r.wf(),
            r.node == node,
            r.last_seen == now,
            r.last_verified is None,
    {
        NodeWrapper { node, last_seen: now, last_verified: None }
    }

    /// Whether the node has ever replied to one of our requests.
    pub fn is_verified(&self) -> (r: bool)
        ensures
            r == self.verified(),
    {
        self.last_verified.is_some()
    }
}

/// An entry is wanted: its verification status is `verified` (any, where
/// `None`), and its id is not `exclude`.
pub open spec fn wanted(w: NodeWrapper, verified: Option<bool>, exclude: Option<Seq<u8>>) -> bool {
    &&& verified matches Some(v) ==> w.verified() == v
    &&& exclude matches Some(x) ==> w.node.id@ != x
}

/// The wanted entries of `s`, in order.
pub open spec fn select(s: Seq<NodeWrapper>, verified: Option<bool>, exclude: Option<Seq<u8>>) -> Seq<
    NodeWrapper,
>
    decreases s.len(),
{
    if s.len() == 0 {
        Seq::empty()
    } else if wanted(s.last(), verified, exclude) {
        select(s.drop_last(), verified, exclude).push(s.last())
    } else {
        select(s.drop_last(), verified, exclude)
    }
}

/// The view of an optional id.
pub open spec fn opt_view(x: Option<Id>) -> Option<Seq<u8>> {
    match x {
        Some(i) => Some(i@),
        None => None,
    }
}

proof fn lemma_select_members(s: Seq<NodeWrapper>, verified: Option<bool>, exclude: Option<Seq<u8>>)
    ensures
        forall|i: int|
            0 <= i < select(s, verified, exclude).len() ==> s.contains(
                #[trigger] select(s, verified, exclude)[i],
            ) && wanted(select(s, verified, exclude)[i], verified, exclude),
        forall|i: int|
            0 <= i < s.len() && wanted(#[trigger] s[i], verified, exclude) ==> select(
                s,
                verified,
                exclude,
            ).contains(s[i]),
    decreases s.len(),
{
    if s.len() > 0 {
        let p = s.drop_last();
        lemma_select_members(p, verified, exclude);
        let q = select(p, verified, exclude);
        assert forall|i: int|
            0 <= i < select(s, verified, exclude).len() implies s.contains(
                #[trigger] select(s, verified, exclude)[i],
            ) && wanted(select(s, verified, exclude)[i], verified, exclude) by {
            if i < q.len() {
                assert(select(s, verified, exclude)[i] == q[i]);
                let k = choose|k: int| 0 <= k < p.len() && p[k] == q[i];
                assert(s[k] == p[k]);
            } else {
                assert(s[s.len() - 1] == s.last());
            }
        }
        assert forall|i: int|
            0 <= i < s.len() && wanted(#[trigger] s[i], verified, exclude) implies select(
                s,
                verified,
                exclude,
            ).contains(s[i]) by {
            if i < s.len() - 1 {
                assert(p[i] == s[i]);
                assert(q.contains(s[i]));
                let k = choose|k: int| 0 <= k < q.len() && q[k] == s[i];
                assert(select(s, verified, exclude)[k] == q[k]);
            } else {
                let r = select(s, verified, exclude);
                assert(r[r.len() - 1] == s[i]);
            }
        }
    }
}

/// All entries of the buckets, bucket by bucket.
pub open spec fn flatten(bs: Seq<Vec<NodeWrapper>>) -> Seq<NodeWrapper>
    decreases bs.len(),
{
    if bs.len() == 0 {
        Seq::empty()
    } else {
        flatten(bs.drop_last()) + bs.last()@
    }
}

proof fn lemma_select_append(
    a: Seq<NodeWrapper>,
    b: Seq<NodeWrapper>,
    verified: Option<bool>,
    exclude: Option<Seq<u8>>,
)
    ensures
        select(a + b, verified, exclude) == select(a, verified, exclude) + select(
            b,
            verified,
            exclude,
        ),
    decreases b.len(),
{
    if b.len() == 0 {
        assert(a + b =~= a);
        assert(select(a, verified, exclude) + select(b, verified, exclude) =~= select(
            a,
            verified,
            exclude,
        ));
    } else {
        lemma_select_append(a, b.drop_last(), verified, exclude);
        assert((a + b).drop_last() =~= a + b.drop_last());
        assert((a + b).last() == b.last());
        assert(select(a, verified, exclude) + select(b.drop_last(), verified, exclude).push(
            b.last(),
        ) =~= (select(a, verified, exclude) + select(b.drop_last(), verified, exclude)).push(
            b.last(),
        ));
    }
}

/// The routing table of a node whose id is `our_id`.
pub struct NodeStorage {
    pub our_id: Id,
    pub buckets: Vec<Vec<NodeWrapper>>,
}

impl NodeStorage {
    pub open spec fn wf(&self) -> bool {
        &&& self.buckets@.len() == NUM_BUCKETS
        &&& forall|b: int|
            0 <= b < NUM_BUCKETS ==> (#[trigger] self.buckets@[b])@.len() <= K && distinct_ids(
                self.buckets@[b]@,
            )
        &&& forall|b: int, j: int|
            0 <= b < NUM_BUCKETS && 0 <= j < self.buckets@[b]@.len() ==> {
                let w = #[trigger] self.buckets@[b]@[j];
                &&& bucket_index(self.our_id@, w.node.id@) == b
                &&& w.wf()
            }
    }

    /// Every entry of the table.
    pub open spec fn entries(&self) -> Seq<NodeWrapper> {
        flatten(self.buckets@)
    }

    /// The table holds an entry for `id`.
    pub open spec fn holds(&self, id: Seq<u8>) -> bool {
        exists|j: int|
            0 <= j < self.buckets@[bucket_index(self.our_id@, id)]@.len() && (#[trigger] self.buckets@[bucket_index(
                self.our_id@,
                id,
            )]@[j]).node.id@ == id
    }

    /// `w` is one of the table's entries.
    pub open spec fn has_entry(&self, w: NodeWrapper) -> bool {
        exists|b: int, j: int|
            0 <= b < self.buckets@.len() && 0 <= j < self.buckets@[b]@.len() && #[trigger] self.buckets@[b]@[j] == w
    }

    /// The entry held for `id`, where `holds_as(id, false)`.
    pub open spec fn entry_of(&self, id: Seq<u8>) -> NodeWrapper {
        let b = bucket_index(self.our_id@, id);
        let j = choose|j: int|
            0 <= j < self.buckets@[b]@.len() && (#[trigger] self.buckets@[b]@[j]).node.id@ == id;
        self.buckets@[b]@[j]
    }

    /// The table holds an entry for `id`, verified where `verified` is set.
    pub open spec fn holds_as(&self, id: Seq<u8>, verified: bool) -> bool {
        let b = bucket_index(self.our_id@, id);
        exists|j: int|
            0 <= j < self.buckets@[b]@.len() && (#[trigger] self.buckets@[b]@[j]).node.id@ == id
                && (verified ==> self.buckets@[b]@[j].verified())
    }

    /// The bucket of `id` has room, or an unverified entry that may make room.
    pub open spec fn has_room_for(&self, id: Seq<u8>) -> bool {
        let b = bucket_index(self.our_id@, id);
        self.buckets@[b]@.len() < K || exists|j: int|
            0 <= j < self.buckets@[b]@.len() && !(#[trigger] self.buckets@[b]@[j]).verified()
    }

    /// Records a packet seen from `node` at `now`; `verified` when it was a
    /// reply to one of our requests. An entry already held for the node's id
    /// has its times brought forward. A new node is added to its bucket if
    /// the bucket has room, or else in place of the bucket's least recently
    /// seen unverified entry; if every entry there is verified, the new node is
    /// dropped. No other bucket changes.
    pub fn add_or_update(&mut self, node: Node, verified: bool, now: u64)
        requires
            old(self).wf(),
        ensures
            final(self).wf(),
            final(self).our_id == old(self).our_id,
            forall|c: int|
                0 <= c < NUM_BUCKETS && c != bucket_index(old(self).our_id@, node.id@)
                    ==> #[trigger] final(self).buckets@[c] == old(self).buckets@[c],
            old(self).holds_as(node.id@, false) || old(self).has_room_for(node.id@)
                ==> final(self).holds_as(node.id@, verified),
            !old(self).holds_as(node.id@, false) && !old(self).has_room_for(node.id@)
                ==> final(self).buckets@ == old(self).buckets@,
            old(self).holds_as(node.id@, false) ==> final(self).entry_of(node.id@) == refreshed(
                old(self).entry_of(node.id@),
                verified,
                now,
            ),
            !old(self).holds_as(node.id@, false) && old(self).has_room_for(node.id@)
                ==> final(self).entry_of(node.id@) == (NodeWrapper {
                node,
                last_seen: now,
                last_verified: if verified { Some(now) } else { None },
            }),
            forall|b: int|
                0 <= b < NUM_BUCKETS ==> (#[trigger] final(self).buckets@[b])@.len() >= old(self).buckets@[b]@.len(),
            forall|id: Seq<u8>|
                id.len() == 20 && #[trigger] old(self).holds_as(id, false) ==> final(self).holds_as(id, false)
                    || old(self).buckets@[bucket_index(old(self).our_id@, id)]@.len() >= K,
            forall|x: NodeWrapper| #[trigger] final(self).has_entry(x) ==> old(self).has_entry(x) || x.node.id@ == node.id@,
            forall|id: Seq<u8>|
                id.len() == 20 && id != node.id@ && #[trigger] old(self).holds_as(id, true) ==> final(self).holds_as(id, true)
                    && final(self).entry_of(id) == old(self).entry_of(id),
    {
        let b = bucket_for(&self.our_id, &node.id);
        let ghost bi = b as int;
        let cur: &Vec<NodeWrapper> = &self.buckets[b];
        let mut found: Option<usize> = None;
        let mut j: usize = 0;
        while j < cur.len()
            invariant
                j <= cur@.len(),
                found matches Some(f) ==> f < j && cur@[f as int].node.id@ == node.id@,
                found is None ==> forall|k: int| 0 <= k < j ==> (#[trigger] cur@[k]).node.id@ != node.id@,
            decreases cur@.len() - j,
        {
            if found.is_none() && cur[j].node.id.same_as(&node.id) {
                found = Some(j);
            }
            j = j + 1;
        }
        let mut nb = copy_bucket(cur);
        match found {
            Some(f) => {
                let w = nb[f];
                proof {
                    lemma_entry_of(*old(self), node.id@, f as int);
                }
                let seen: u64 = if now > w.last_seen { now } else { w.last_seen };
                let lv: Option<u64> = if verified { Some(seen) } else { w.last_verified };
                nb.set(f, NodeWrapper { node: w.node, last_seen: seen, last_verified: lv });
                assert(nb@[f as int].node.id@ == node.id@);
            },
            None => {
                let fresh = NodeWrapper {
                    node,
                    last_seen: now,
                    last_verified: if verified { Some(now) } else { None },
                };
                match insert_into(&nb, fresh) {
                    Some(v) => {
                        nb = v;
                    },
                    None => {
                        assert(!old(self).holds_as(node.id@, false));
                        return;
                    },
                }
            },
        }
        let ghost fj = match found {
            Some(f) => f as int,
            None => nb@.len() - 1,
        };
        assert(nb@[fj].node.id@ == node.id@);
        assert(nb@.len() >= cur@.len());
        assert(cur@.len() < K ==> forall|k: int|
            0 <= k < cur@.len() ==> exists|k2: int| 0 <= k2 < nb@.len() && (#[trigger] nb@[k2]).node.id@ == (#[trigger] cur@[k]).node.id@) by {
            if cur@.len() < K {
                assert forall|k: int| 0 <= k < cur@.len() implies exists|k2: int|
                    0 <= k2 < nb@.len() && (#[trigger] nb@[k2]).node.id@ == (#[trigger] cur@[k]).node.id@ by {
                    if found is Some {
                        assert(nb@[k].node.id@ == cur@[k].node.id@);
                    } else {
                        assert(nb@.contains(cur@[k]));
                        let k2 = choose|k2: int| 0 <= k2 < nb@.len() && nb@[k2] == cur@[k];
                        assert(nb@[k2].node.id@ == cur@[k].node.id@);
                    }
                }
            }
        }
        assert forall|k: int| 0 <= k < nb@.len() implies (#[trigger] nb@[k]).node.id@ == node.id@ || cur@.contains(nb@[k]) by {
            if found is Some {
                if k != fj {
                    assert(nb@[k] == cur@[k]);
                }
            }
        }
        assert forall|k: int| 0 <= k < cur@.len() && (#[trigger] cur@[k]).verified() && cur@[k].node.id@ != node.id@
            implies nb@.contains(cur@[k]) by {
            if found is Some {
                assert(nb@[k] == cur@[k]);
            }
        }
        let ghost before = self.buckets@;
        self.buckets.set(b, nb);
        proof {
            lemma_entry_of(*self, node.id@, fj);
            assert forall|x: NodeWrapper| #[trigger] self.has_entry(x) implies old(self).has_entry(x) || x.node.id@ == node.id@ by {
                let (c, j) = choose|c: int, j: int|
                    0 <= c < self.buckets@.len() && 0 <= j < self.buckets@[c]@.len() && #[trigger] self.buckets@[c]@[j] == x;
                if c == b as int {
                    if x.node.id@ != node.id@ {
                        assert(nb@[j] == x);
                        let k = choose|k: int| 0 <= k < cur@.len() && cur@[k] == x;
                        assert(old(self).buckets@[c]@[k] == x);
                    }
                } else {
                    assert(old(self).buckets@[c]@[j] == x);
                }
            }
            assert forall|id: Seq<u8>|
                id.len() == 20 && id != node.id@ && #[trigger] old(self).holds_as(id, true) implies self.holds_as(id, true)
                    && self.entry_of(id) == old(self).entry_of(id) by {
                let c = bucket_index(old(self).our_id@, id);
                lemma_bucket_range(old(self).our_id@, id);
                let j = choose|j: int| 0 <= j < before[c]@.len() && (#[trigger] before[c]@[j]).node.id@ == id
                    && before[c]@[j].verified();
                lemma_entry_of(*old(self), id, j);
                if c != b as int {
                    assert(self.buckets@[c] == before[c]);
                    lemma_entry_of(*self, id, j);
                } else {
                    assert(nb@.contains(cur@[j]));
                    let k2 = choose|k2: int| 0 <= k2 < nb@.len() && nb@[k2] == cur@[j];
                    assert(self.buckets@[c]@[k2] == cur@[j]);
                    lemma_entry_of(*self, id, k2);
                }
            }
            assert forall|id: Seq<u8>|
                id.len() == 20 && #[trigger] old(self).holds_as(id, false) implies self.holds_as(id, false)
                    || old(self).buckets@[bucket_index(old(self).our_id@, id)]@.len() >= K by {
                let c = bucket_index(old(self).our_id@, id);
                lemma_bucket_range(old(self).our_id@, id);
                let j = choose|j: int| 0 <= j < before[c]@.len() && (#[trigger] before[c]@[j]).node.id@ == id;
                if c != b as int {
                    assert(self.buckets@[c] == before[c]);
                    assert(self.buckets@[c]@[j].node.id@ == id);
                } else if before[c]@.len() < K {
                    let k2 = choose|k2: int| 0 <= k2 < nb@.len() && (#[trigger] nb@[k2]).node.id@ == (#[trigger] cur@[j]).node.id@;
                    assert(self.buckets@[c]@[k2].node.id@ == id);
                }
            }
        }
    }
    /// The wanted entries of the table, bucket by bucket.
    pub fn collect(&self, verified: Option<bool>, exclude: Option<Id>) -> (r: Vec<NodeWrapper>)
        ensures
            r@ == select(self.entries(), verified, opt_view(exclude)),
    {
        let ghost ex = opt_view(exclude);
        let mut r: Vec<NodeWrapper> = Vec::new();
        let mut b: usize = 0;
        let n = self.buckets.len();
        assert(self.buckets@.take(0) =~= Seq::<Vec<NodeWrapper>>::empty());
        while b < n
            invariant
                n == self.buckets@.len(),
                b <= n,
                ex == opt_view(exclude),
                r@ == select(flatten(self.buckets@.take(b as int)), verified, ex),
            decreases n - b,
        {
            let bucket: &Vec<NodeWrapper> = &self.buckets[b];
            let ghost base = r@;
            let mut j: usize = 0;
            while j < bucket.len()
                invariant
                    j <= bucket@.len(),
                    ex == opt_view(exclude),
                    r@ == base + select(bucket@.take(j as int), verified, ex),
                decreases bucket@.len() - j,
            {
                let w = bucket[j];
                let keep_v = match verified {
                    Some(v) => w.is_verified() == v,
                    None => true,
                };
                let keep_x = match exclude {
                    Some(x) => !w.node.id.same_as(&x),
                    None => true,
                };
                assert(bucket@.take(j + 1).drop_last() =~= bucket@.take(j as int));
                assert(bucket@.take(j + 1).last() == w);
                if keep_v && keep_x {
                    r.push(w);
                    assert(r@ =~= base + select(bucket@.take(j + 1), verified, ex));
                }
                j = j + 1;
            }
            assert(bucket@.take(bucket@.len() as int) =~= bucket@);
            assert(self.buckets@.take(b + 1).drop_last() =~= self.buckets@.take(b as int));
            assert(self.buckets@.take(b + 1).last() == *bucket);
            proof {
                lemma_select_append(flatten(self.buckets@.take(b as int)), bucket@, verified, ex);
            }
            b = b + 1;
        }
        assert(self.buckets@.take(n as int) =~= self.buckets@);
        r
    }

    /// Every verified entry, bucket by bucket.
    pub fn get_all_verified(&self) -> (r: Vec<NodeWrapper>)
        ensures
            r@ == select(self.entries(), Some(true), None),
    {
        self.collect(Some(true), None)
    }

    /// Every unverified entry, bucket by bucket.
    pub fn get_all_unverified(&self) -> (r: Vec<NodeWrapper>)
        ensures
            r@ == select(self.entries(), Some(false), None),
    {
        self.collect(Some(false), None)
    }

    /// The numbers of unverified and of verified entries.
    pub fn count(&self) -> (r: (usize, usize))
        ensures
            r.0 == select(self.entries(), Some(false), None).len(),
            r.1 == select(self.entries(), Some(true), None).len(),
    {
        let u = self.get_all_unverified();
        let v = self.get_all_verified();
        (u.len(), v.len())
    }

    /// Up to `K` wanted entries nearest to `target`, nearest first: verified
    /// ones only where `verified_only` is set, and none with the id `exclude`.
    /// An entry left out is farther from `target` than every entry returned,
    /// and `K` entries were returned, or its id is among those returned.
    pub fn nearest(&self, target: &Id, exclude: Option<Id>, verified_only: bool) -> (r: Vec<NodeWrapper>)
        ensures
            nearest_result(self.entries(), target@, if verified_only { Some(true) } else { None }, opt_view(exclude), r@),
    {
        let ghost vs: Option<bool> = if verified_only { Some(true) } else { None };
        let cands = self.collect(if verified_only { Some(true) } else { None }, exclude);
        let r = select_nearest(&cands, target);
        proof {
            lemma_select_members(self.entries(), vs, opt_view(exclude));
        }
        r
    }

    /// Up to `K` verified entries nearest to `target`, nearest first, leaving
    /// out the id `exclude`.
    pub fn get_nearest_nodes(&self, target: &Id, exclude: Option<Id>) -> (r: Vec<NodeWrapper>)
        ensures
            nearest_result(self.entries(), target@, Some(true), opt_view(exclude), r@),
    {
        self.nearest(target, exclude, true)
    }

    /// Whether the table holds an entry for `id`.
    pub fn contains(&self, id: &Id) -> (r: bool)
        requires
            self.wf(),
        ensures
            r == self.holds_as(id@, false),
    {
        let b = bucket_for(&self.our_id, id);
        let cur: &Vec<NodeWrapper> = &self.buckets[b];
        let mut j: usize = 0;
        while j < cur.len()
            invariant
                j <= cur@.len(),
                *cur == self.buckets@[bucket_index(self.our_id@, id@)],
                forall|k: int| 0 <= k < j ==> (#[trigger] cur@[k]).node.id@ != id@,
            decreases cur@.len() - j,
        {
            if cur[j].node.id.same_as(id) {
                assert(cur@[j as int].node.id@ == id@);
                return true;
            }
            j = j + 1;
        }
        false
    }

    /// Adds the entry `w` as it stands, unless an entry for its id is held:
    /// into its bucket if there is room, or else in place of the bucket's least
    /// recently seen unverified entry; if every entry there is verified, `w`
    /// is dropped. No other bucket changes.
    pub fn add_wrapper(&mut self, w: NodeWrapper)
        requires
            old(self).wf(),
            w.wf(),
        ensures
            final(self).wf(),
            final(self).our_id == old(self).our_id,
            forall|c: int|
                0 <= c < NUM_BUCKETS && c != bucket_index(old(self).our_id@, w.node.id@)
                    ==> #[trigger] final(self).buckets@[c] == old(self).buckets@[c],
            old(self).holds_as(w.node.id@, false) ==> final(self).buckets@ == old(self).buckets@,
            old(self).has_room_for(w.node.id@) ==> final(self).holds_as(w.node.id@, false),
            forall|x: NodeWrapper| #[trigger] final(self).has_entry(x) ==> x == w || old(self).has_entry(x),
            forall|b: int|
                0 <= b < NUM_BUCKETS ==> (#[trigger] final(self).buckets@[b])@.len() >= old(self).buckets@[b]@.len(),
            forall|id: Seq<u8>|
                id.len() == 20 && #[trigger] old(self).holds_as(id, false) ==> final(self).holds_as(id, false) || old(self).buckets@[bucket_index(
                    old(self).our_id@,
                    id,
                )]@.len() >= K,
    {
        if self.contains(&w.node.id) {
            return;
        }
        let b = bucket_for(&self.our_id, &w.node.id);
        let cur: &Vec<NodeWrapper> = &self.buckets[b];
        let ghost before = self.buckets@;
        match insert_into(cur, w) {
            Some(nb) => {
                assert(nb@[nb@.len() - 1] == w);
                self.buckets.set(b, nb);
                assert forall|id: Seq<u8>|
                    id.len() == 20 && #[trigger] old(self).holds_as(id, false) implies self.holds_as(id, false) || old(self).buckets@[bucket_index(
                        old(self).our_id@,
                        id,
                    )]@.len() >= K by {
                    let c = bucket_index(old(self).our_id@, id);
                    lemma_bucket_range(old(self).our_id@, id);
                    if c != b as int {
                        assert(self.buckets@[c] == before[c]);
                        let j = choose|j: int|
                            0 <= j < before[c]@.len() && (#[trigger] before[c]@[j]).node.id@ == id;
                        assert(self.buckets@[c]@[j].node.id@ == id);
                    } else if before[c]@.len() < K {
                        let j = choose|j: int|
                            0 <= j < before[c]@.len() && (#[trigger] before[c]@[j]).node.id@ == id;
                        assert(self.buckets@[c]@.contains(before[c]@[j]));
                        let k = choose|k: int| 0 <= k < self.buckets@[c]@.len() && self.buckets@[c]@[k] == before[c]@[j];
                        assert(self.buckets@[c]@[k].node.id@ == id);
                    }
                }
                assert forall|x: NodeWrapper| #[trigger] self.has_entry(x) implies x == w || old(self).has_entry(x) by {
                    let (c, j) = choose|c: int, j: int|
                        0 <= c < self.buckets@.len() && 0 <= j < self.buckets@[c]@.len() && #[trigger] self.buckets@[c]@[j] == x;
                    if c == b as int {
                        if x != w {
                            assert(before[c]@.contains(x));
                            let k = choose|k: int| 0 <= k < before[c]@.len() && before[c]@[k] == x;
                            assert(old(self).buckets@[c]@[k] == x);
                        }
                    } else {
                        assert(old(self).buckets@[c]@[j] == x);
                    }
                }
            },
            None => {},
        }
    }

    /// Drops every unverified entry not seen within `verify_grace` of `now`,
    /// and every verified entry not verified within `reverify_grace` of `now`.
    pub fn prune(&mut self, reverify_grace: u64, verify_grace: u64, now: u64)
        requires
            old(self).wf(),
        ensures
            final(self).wf(),
            final(self).our_id == old(self).our_id,
            forall|b: int|
                0 <= b < NUM_BUCKETS ==> (#[trigger] final(self).buckets@[b])@ == survivors(
                    old(self).buckets@[b]@,
                    reverify_grace,
                    verify_grace,
                    now,
                ),
    {
        let mut b: usize = 0;
        while b < NUM_BUCKETS
            invariant
                b <= NUM_BUCKETS,
                self.wf(),
                self.our_id == old(self).our_id,
                forall|c: int|
                    0 <= c < b ==> (#[trigger] self.buckets@[c])@ == survivors(
                        old(self).buckets@[c]@,
                        reverify_grace,
                        verify_grace,
                        now,
                    ),
                forall|c: int| b <= c < NUM_BUCKETS ==> #[trigger] self.buckets@[c] == old(self).buckets@[c],
            decreases NUM_BUCKETS - b,
        {
            let cur: &Vec<NodeWrapper> = &self.buckets[b];
            let mut nb: Vec<NodeWrapper> = Vec::new();
            let mut j: usize = 0;
            while j < cur.len()
                invariant
                    j <= cur@.len(),
                    nb@.len() <= j,
                    nb@ == survivors(cur@.take(j as int), reverify_grace, verify_grace, now),
                    forall|k: int| 0 <= k < nb@.len() ==> exists|i: int| 0 <= i < j && cur@[i] == #[trigger] nb@[k],
                    distinct_ids(cur@),
                    distinct_ids(nb@),
                decreases cur@.len() - j,
            {
                let w = cur[j];
                let keep = match w.last_verified {
                    Some(v) => now <= v || now - v <= reverify_grace,
                    None => now <= w.last_seen || now - w.last_seen <= verify_grace,
                };
                assert(cur@.take(j + 1).drop_last() =~= cur@.take(j as int));
                assert(cur@.take(j + 1).last() == w);
                if keep {
                    let ghost nb0 = nb@;
                    nb.push(w);
                    assert(nb@[nb@.len() - 1] == cur@[j as int]);
                    assert forall|k: int| 0 <= k < nb@.len() implies exists|i: int| 0 <= i < j + 1 && cur@[i] == #[trigger] nb@[k] by {
                        if k < nb0.len() {
                            assert(nb@[k] == nb0[k]);
                        }
                    }
                    assert forall|a: int, b: int| 0 <= a < b < nb@.len() implies (#[trigger] nb@[a]).node.id@
                        != (#[trigger] nb@[b]).node.id@ by {
                        assert(nb@[a] == nb0[a]);
                        if b < nb0.len() {
                            assert(nb@[b] == nb0[b]);
                        } else {
                            let m = choose|m: int| 0 <= m < j && cur@[m] == #[trigger] nb0[a];
                            assert(cur@[m].node.id@ != cur@[j as int].node.id@);
                        }
                    }
                }
                j = j + 1;
            }
            assert(cur@.take(cur@.len() as int) =~= cur@);
            let ghost prev = self.buckets@;
            self.buckets.set(b, nb);
            assert forall|c: int, k: int|
                0 <= c < NUM_BUCKETS && 0 <= k < self.buckets@[c]@.len() implies {
                    let w = #[trigger] self.buckets@[c]@[k];
                    &&& bucket_index(self.our_id@, w.node.id@) == c
                    &&& w.wf()
                } by {
                if c == b {
                    let i = choose|i: int| 0 <= i < prev[c]@.len() && prev[c]@[i] == self.buckets@[c]@[k];
                }
            }
            b = b + 1;
        }
    }

    /// Moves the table to the local id `id`: the entries are placed anew in the
    /// buckets of `id`, under the same rules as [`NodeStorage::add_wrapper`].
    pub fn set_id(&mut self, id: Id)
        requires
            old(self).wf(),
        ensures
            final(self).wf(),
            final(self).our_id@ == id@,
            forall|x: NodeWrapper| #[trigger] final(self).has_entry(x) ==> old(self).has_entry(x),
            forall|x: NodeWrapper|
                #[trigger] old(self).has_entry(x) ==> final(self).holds_as(x.node.id@, false)
                    || final(self).buckets@[bucket_index(id@, x.node.id@)]@.len() >= K,
    {
        let all = self.collect(None, None);
        proof {
            lemma_select_members(self.entries(), None, None);
            lemma_flatten_members(self.buckets@);
            assert forall|x: NodeWrapper| #[trigger] self.has_entry(x) implies all@.contains(x) by {
                let (b, j) = choose|b: int, j: int|
                    0 <= b < self.buckets@.len() && 0 <= j < self.buckets@[b]@.len() && #[trigger] self.buckets@[b]@[j] == x;
                lemma_flatten_contains(self.buckets@, b, j);
                let k = choose|k: int| 0 <= k < self.entries().len() && self.entries()[k] == x;
                assert(wanted(self.entries()[k], None, None));
            }
        }
        let mut fresh = NodeStorage::new(id);
        let mut i: usize = 0;
        while i < all.len()
            invariant
                i <= all@.len(),
                fresh.wf(),
                fresh.our_id@ == id@,
                forall|k: int| 0 <= k < all@.len() ==> (#[trigger] all@[k]).wf(),
                forall|k: int| 0 <= k < all@.len() ==> old(self).has_entry(#[trigger] all@[k]),
                forall|x: NodeWrapper| #[trigger] fresh.has_entry(x) ==> old(self).has_entry(x),
                forall|k: int|
                    0 <= k < i ==> fresh.holds_as((#[trigger] all@[k]).node.id@, false)
                        || fresh.buckets@[bucket_index(id@, all@[k].node.id@)]@.len() >= K,
            decreases all@.len() - i,
        {
            let ghost t0 = fresh;
            fresh.add_wrapper(all[i]);
            proof {
                assert forall|k: int|
                    0 <= k < i + 1 implies fresh.holds_as((#[trigger] all@[k]).node.id@, false)
                        || fresh.buckets@[bucket_index(id@, all@[k].node.id@)]@.len() >= K by {
                    let nid = all@[k].node.id@;
                    lemma_bucket_range(id@, nid);
                    if k < i {
                        if t0.holds_as(nid, false) {
                        }
                    }
                }
            }
            i = i + 1;
        }
        proof {
            assert forall|x: NodeWrapper|
                #[trigger] old(self).has_entry(x) implies fresh.holds_as(x.node.id@, false)
                    || fresh.buckets@[bucket_index(id@, x.node.id@)]@.len() >= K by {
                assert(all@.contains(x));
                let k = choose|k: int| 0 <= k < all@.len() && all@[k] == x;
            }
        }
        *self = fresh;
    }

    /// An empty table for the local id `our_id`.
    pub fn new(our_id: Id) -> (r: NodeStorage)
        ensures
            r.wf(),
            r.our_id@ == our_id@,
            r.entries().len() == 0,
            forall|x: NodeWrapper| !(#[trigger] r.has_entry(x)),
    {
        let mut buckets: Vec<Vec<NodeWrapper>> = Vec::new();
        let mut i: usize = 0;
        while i < NUM_BUCKETS
            invariant
                i <= NUM_BUCKETS,
                buckets@.len() == i,
                forall|b: int| 0 <= b < i ==> (#[trigger] buckets@[b])@.len() == 0,
            decreases NUM_BUCKETS - i,
        {
            buckets.push(Vec::new());
            i = i + 1;
        }
        let r = NodeStorage { our_id, buckets };
        proof {
            lemma_flatten_empty(r.buckets@);
        }
        r
    }
}

/// `r` lists, nearest first, up to `K` of the wanted entries of `all` that
/// are nearest to `target`.
pub open spec fn nearest_result(
    all: Seq<NodeWrapper>,
    target: Seq<u8>,
    verified: Option<bool>,
    exclude: Option<Seq<u8>>,
    r: Seq<NodeWrapper>,
) -> bool {
    &&& r.len() <= K
    &&& forall|i: int, j: int|
        0 <= i < j < r.len() ==> nearer(target, (#[trigger] r[i]).node.id@, (#[trigger] r[j]).node.id@)
    &&& forall|i: int| 0 <= i < r.len() ==> all.contains(#[trigger] r[i]) && wanted(r[i], verified, exclude)
    &&& forall|c: NodeWrapper|
        all.contains(c) && wanted(c, verified, exclude) ==> (exists|i: int|
            0 <= i < r.len() && (#[trigger] r[i]).node.id@ == c.node.id@) || (r.len() == K
            && nearer(target, r.last().node.id@, c.node.id@))
}

/// Up to `K` entries of `cands` nearest to `target`, nearest first.
fn select_nearest(cands: &Vec<NodeWrapper>, target: &Id) -> (r: Vec<NodeWrapper>)
    ensures
        r@.len() <= K,
        forall|i: int, j: int|
            0 <= i < j < r@.len() ==> nearer(target@, (#[trigger] r@[i]).node.id@, (#[trigger] r@[j]).node.id@),
        forall|i: int| 0 <= i < r@.len() ==> cands@.contains(#[trigger] r@[i]),
        forall|c: NodeWrapper|
            cands@.contains(c) ==> (exists|i: int|
                0 <= i < r@.len() && (#[trigger] r@[i]).node.id@ == c.node.id@) || (r@.len() == K
                && nearer(target@, r@.last().node.id@, c.node.id@)),
{
    let mut r: Vec<NodeWrapper> = Vec::new();
    let mut done = false;
    while r.len() < K && !done
        invariant
            r@.len() <= K,
            forall|i: int, j: int|
                0 <= i < j < r@.len() ==> nearer(target@, (#[trigger] r@[i]).node.id@, (#[trigger] r@[j]).node.id@),
            forall|i: int| 0 <= i < r@.len() ==> cands@.contains(#[trigger] r@[i]),
            forall|c: NodeWrapper|
                cands@.contains(c) ==> (exists|i: int|
                    0 <= i < r@.len() && (#[trigger] r@[i]).node.id@ == c.node.id@) || (!done
                    && r@.len() > 0 && nearer(target@, r@.last().node.id@, c.node.id@)) || (!done
                    && r@.len() == 0),
        decreases K - r@.len() + (if done { 0int } else { 1int }),
    {
        let mut best: Option<usize> = None;
        let mut i: usize = 0;
        while i < cands.len()
            invariant
                i <= cands@.len(),
                r@.len() < K,
                best matches Some(e) ==> e < i && eligible_after(target@, r@, cands@[e as int])
                    && forall|k: int|
                    0 <= k < i && eligible_after(target@, r@, #[trigger] cands@[k]) ==> !nearer(
                        target@,
                        cands@[k].node.id@,
                        cands@[e as int].node.id@,
                    ),
                best is None ==> forall|k: int|
                    0 <= k < i ==> !eligible_after(target@, r@, #[trigger] cands@[k]),
            decreases cands@.len() - i,
        {
            let c = cands[i];
            let ok = if r.len() == 0 {
                true
            } else {
                r[r.len() - 1].node.id.nearer_to(&c.node.id, target)
            };
            if ok {
                match best {
                    None => {
                        proof {
                            lemma_nearer_irreflexive(target@, c.node.id@);
                        }
                        best = Some(i);
                    },
                    Some(e) => {
                        if c.node.id.nearer_to(&cands[e].node.id, target) {
                            proof {
                                assert forall|k: int|
                                    0 <= k < i && eligible_after(target@, r@, #[trigger] cands@[k])
                                        implies !nearer(target@, cands@[k].node.id@, c.node.id@) by {
                                    lemma_nearer_asym_trans(target@, cands@[k].node.id@, c.node.id@, cands@[e as int].node.id@);
                                }
                                lemma_nearer_irreflexive(target@, c.node.id@);
                            }
                            best = Some(i);
                        }
                    },
                }
            }
            i = i + 1;
        }
        match best {
            None => {
                proof {
                    assert forall|c: NodeWrapper| cands@.contains(c) implies (exists|i: int|
                        0 <= i < r@.len() && (#[trigger] r@[i]).node.id@ == c.node.id@) by {
                        let k = choose|k: int| 0 <= k < cands@.len() && cands@[k] == c;
                        assert(!eligible_after(target@, r@, cands@[k]));
                    }
                }
                done = true;
            },
            Some(e) => {
                let m = cands[e];
                let ghost old_r = r@;
                proof {
                    assert forall|i: int| 0 <= i < old_r.len() implies nearer(target@, (#[trigger] old_r[i]).node.id@, m.node.id@) by {
                        if i < old_r.len() - 1 {
                            lemma_nearer_transitive(target@, old_r[i].node.id@, old_r.last().node.id@, m.node.id@);
                        }
                    }
                }
                r.push(m);
                proof {
                    assert forall|i: int, j: int|
                        0 <= i < j < r@.len() implies nearer(target@, (#[trigger] r@[i]).node.id@, (#[trigger] r@[j]).node.id@) by {
                        if j < old_r.len() {
                            assert(r@[i] == old_r[i]);
                            assert(r@[j] == old_r[j]);
                        } else {
                            assert(r@[i] == old_r[i]);
                        }
                    }
                    assert forall|i: int| 0 <= i < r@.len() implies cands@.contains(#[trigger] r@[i]) by {
                        if i < old_r.len() {
                            assert(r@[i] == old_r[i]);
                        } else {
                            assert(cands@[e as int] == m);
                        }
                    }
                    assert forall|c: NodeWrapper| cands@.contains(c) implies (exists|i: int|
                        0 <= i < r@.len() && (#[trigger] r@[i]).node.id@ == c.node.id@) || (r@.len() > 0
                        && nearer(target@, r@.last().node.id@, c.node.id@)) by {
                        let k = choose|k: int| 0 <= k < cands@.len() && cands@[k] == c;
                        if exists|i: int| 0 <= i < old_r.len() && (#[trigger] old_r[i]).node.id@ == c.node.id@ {
                            let i = choose|i: int| 0 <= i < old_r.len() && (#[trigger] old_r[i]).node.id@ == c.node.id@;
                            assert(r@[i] == old_r[i]);
                        } else if c.node.id@ == m.node.id@ {
                            assert(r@[old_r.len() as int] == m);
                        } else {
                            assert(eligible_after(target@, old_r, cands@[k]));
                            assert(!nearer(target@, c.node.id@, m.node.id@));
                            lemma_nearer_total(target@, c.node.id@, m.node.id@);
                            assert(r@.last() == m);
                        }
                    }
                }
            },
        }
    }
    r
}

/// `c` may follow the entries `r` in a nearest-first list.
pub open spec fn eligible_after(target: Seq<u8>, r: Seq<NodeWrapper>, c: NodeWrapper) -> bool {
    r.len() == 0 || nearer(target, r.last().node.id@, c.node.id@)
}

proof fn lemma_nearer_irreflexive(t: Seq<u8>, a: Seq<u8>)
    ensures
        !nearer(t, a, a),
{
    lemma_lex_irreflexive(xor_seq(a, t));
}

proof fn lemma_nearer_transitive(t: Seq<u8>, a: Seq<u8>, b: Seq<u8>, c: Seq<u8>)
    requires
        nearer(t, a, b),
        nearer(t, b, c),
    ensures
        nearer(t, a, c),
{
    lemma_lex_transitive(xor_seq(a, t), xor_seq(b, t), xor_seq(c, t));
}

/// Where `a` is not nearer than `e`, and `c` is nearer than `e`, then `a`
/// is not nearer than `c`.
proof fn lemma_nearer_asym_trans(t: Seq<u8>, a: Seq<u8>, c: Seq<u8>, e: Seq<u8>)
    requires
        !nearer(t, a, e),
        nearer(t, c, e),
    ensures
        !nearer(t, a, c),
{
    if nearer(t, a, c) {
        lemma_nearer_transitive(t, a, c, e);
    }
}

/// Two distinct 20-byte ids are ordered one way or the other.
proof fn lemma_nearer_total(t: Seq<u8>, a: Seq<u8>, b: Seq<u8>)
    requires
        a.len() == 20,
        b.len() == 20,
        t.len() == 20,
        a != b,
    ensures
        nearer(t, a, b) || nearer(t, b, a),
{
    if xor_seq(a, t) == xor_seq(b, t) {
        lemma_xor_injective(t, a, b);
    }
    lemma_lex_total(xor_seq(a, t), xor_seq(b, t));
}

/// The entries of `s` that a prune at `now` keeps, in order.
pub open spec fn survivors(s: Seq<NodeWrapper>, reverify_grace: u64, verify_grace: u64, now: u64) -> Seq<
    NodeWrapper,
>
    decreases s.len(),
{
    if s.len() == 0 {
        Seq::empty()
    } else if survives(s.last(), reverify_grace, verify_grace, now) {
        survivors(s.drop_last(), reverify_grace, verify_grace, now).push(s.last())
    } else {
        survivors(s.drop_last(), reverify_grace, verify_grace, now)
    }
}

/// An entry survives a prune at `now`.
pub open spec fn survives(w: NodeWrapper, reverify_grace: u64, verify_grace: u64, now: u64) -> bool {
    match w.last_verified {
        Some(v) => now <= v + reverify_grace,
        None => now <= w.last_seen + verify_grace,
    }
}

/// `w` after a packet seen at `now`, a reply where `verified` is set.
pub open spec fn refreshed(w: NodeWrapper, verified: bool, now: u64) -> NodeWrapper {
    let seen = if now > w.last_seen { now } else { w.last_seen };
    NodeWrapper { node: w.node, last_seen: seen, last_verified: if verified { Some(seen) } else { w.last_verified } }
}

pub proof fn lemma_entry_of(ns: NodeStorage, id: Seq<u8>, j: int)
    requires
        ns.wf(),
        0 <= j < ns.buckets@[bucket_index(ns.our_id@, id)]@.len(),
        ns.buckets@[bucket_index(ns.our_id@, id)]@[j].node.id@ == id,
    ensures
        ns.entry_of(id) == ns.buckets@[bucket_index(ns.our_id@, id)]@[j],
        ns.holds_as(id, false),
{
    let b = bucket_index(ns.our_id@, id);
    let c = choose|c: int| 0 <= c < ns.buckets@[b]@.len() && (#[trigger] ns.buckets@[b]@[c]).node.id@ == id;
    assert(0 <= b < NUM_BUCKETS) by {
        let w = ns.buckets@[b]@[j];
        assert(bucket_index(ns.our_id@, w.node.id@) == b);
        assert(0 <= b < NUM_BUCKETS) by {
            lemma_bucket_range(ns.our_id@, id);
        }
    }
    assert(distinct_ids(ns.buckets@[b]@));
    if c < j {
        assert(ns.buckets@[b]@[c].node.id@ != ns.buckets@[b]@[j].node.id@);
    } else if c > j {
        assert(ns.buckets@[b]@[j].node.id@ != ns.buckets@[b]@[c].node.id@);
    }
}

/// No two entries of `s` have the same id.
pub open spec fn distinct_ids(s: Seq<NodeWrapper>) -> bool {
    forall|i: int, j: int| 0 <= i < j < s.len() ==> (#[trigger] s[i]).node.id@ != (#[trigger] s[j]).node.id@
}

/// The bucket `cur` with `w` added: at the end if there is room, or else in
/// place of the least recently seen unverified entry; `None` where the bucket
/// is full of verified entries.
fn insert_into(cur: &Vec<NodeWrapper>, w: NodeWrapper) -> (r: Option<Vec<NodeWrapper>>)
    requires
        cur@.len() <= K,
        distinct_ids(cur@),
        forall|k: int| 0 <= k < cur@.len() ==> (#[trigger] cur@[k]).node.id@ != w.node.id@,
    ensures
        r is None <==> cur@.len() >= K && forall|k: int| 0 <= k < cur@.len() ==> (#[trigger] cur@[k]).verified(),
        r matches Some(nb) ==> {
            &&& nb@.len() <= K
            &&& nb@.len() > 0
            &&& nb@.last() == w
            &&& forall|k: int| 0 <= k < nb@.len() ==> #[trigger] nb@[k] == w || cur@.contains(nb@[k])
            &&& distinct_ids(nb@)
            &&& nb@.len() >= cur@.len()
            &&& cur@.len() < K ==> forall|k: int| 0 <= k < cur@.len() ==> nb@.contains(#[trigger] cur@[k])
            &&& forall|k: int| 0 <= k < cur@.len() && (#[trigger] cur@[k]).verified() ==> nb@.contains(cur@[k])
        },
{
    let mut nb = copy_bucket(cur);
    if nb.len() < K {
        nb.push(w);
        proof {
            assert forall|k: int| 0 <= k < nb@.len() implies #[trigger] nb@[k] == w || cur@.contains(nb@[k]) by {
                if k < cur@.len() {
                    assert(cur@[k] == nb@[k]);
                }
            }
            assert forall|i: int, j: int| 0 <= i < j < nb@.len() implies (#[trigger] nb@[i]).node.id@
                != (#[trigger] nb@[j]).node.id@ by {
                assert(nb@[i] == cur@[i]);
                if j < cur@.len() {
                    assert(nb@[j] == cur@[j]);
                }
            }
            assert forall|k: int| 0 <= k < cur@.len() implies nb@.contains(#[trigger] cur@[k]) by {
                assert(nb@[k] == cur@[k]);
            }
        }
        Some(nb)
    } else {
        match oldest_unverified(&nb) {
            Some(e) => {
                let ghost before = nb@;
                nb.remove(e);
                proof {
                    assert forall|k: int| 0 <= k < nb@.len() implies cur@.contains(#[trigger] nb@[k]) by {
                        if k < e {
                            assert(before[k] == nb@[k]);
                        } else {
                            assert(before[k + 1] == nb@[k]);
                        }
                    }
                    assert forall|i: int, j: int| 0 <= i < j < nb@.len() implies (#[trigger] nb@[i]).node.id@
                        != (#[trigger] nb@[j]).node.id@ by {
                        let i2 = if i < e { i } else { i + 1 };
                        let j2 = if j < e { j } else { j + 1 };
                        assert(nb@[i] == before[i2]);
                        assert(nb@[j] == before[j2]);
                    }
                    assert forall|k: int| 0 <= k < nb@.len() implies (#[trigger] nb@[k]).node.id@ != w.node.id@ by {
                        let k2 = if k < e { k } else { k + 1 };
                        assert(nb@[k] == before[k2]);
                    }
                    assert forall|k: int| 0 <= k < cur@.len() && (#[trigger] cur@[k]).verified() implies nb@.contains(cur@[k]) by {
                        if k < e {
                            assert(nb@[k] == before[k]);
                        } else {
                            assert(k != e);
                            assert(nb@[k - 1] == before[k]);
                        }
                    }
                }
                let ghost mid = nb@;
                nb.push(w);
                proof {
                    assert forall|k: int| 0 <= k < cur@.len() && (#[trigger] cur@[k]).verified() implies nb@.contains(cur@[k]) by {
                        assert(mid.contains(cur@[k]));
                        let k2 = choose|k2: int| 0 <= k2 < mid.len() && mid[k2] == cur@[k];
                        assert(nb@[k2] == mid[k2]);
                    }
                    assert forall|k: int| 0 <= k < nb@.len() implies #[trigger] nb@[k] == w || cur@.contains(nb@[k]) by {
                        if k < nb@.len() - 1 {
                            assert(nb@[k] == mid[k]);
                            assert(cur@.contains(mid[k]));
                        }
                    }
                    assert forall|i: int, j: int| 0 <= i < j < nb@.len() implies (#[trigger] nb@[i]).node.id@
                        != (#[trigger] nb@[j]).node.id@ by {
                        assert(nb@[i] == mid[i]);
                        if j < mid.len() {
                            assert(nb@[j] == mid[j]);
                        }
                    }
                }
                Some(nb)
            },
            None => None,
        }
    }
}

/// A table whose entries all have the id `id`, and that holds a verified
/// entry for it, counts no unverified entry and one verified entry.
pub proof fn lemma_single_id_count(ns: NodeStorage, id: Seq<u8>)
    requires
        ns.wf(),
        id.len() == 20,
        forall|x: NodeWrapper| #[trigger] ns.has_entry(x) ==> x.node.id@ == id,
        ns.holds_as(id, true),
    ensures
        select(ns.entries(), Some(false), None).len() == 0,
        select(ns.entries(), Some(true), None).len() == 1,
{
    let c = bucket_index(ns.our_id@, id);
    lemma_bucket_range(ns.our_id@, id);
    let j = choose|j: int|
        0 <= j < ns.buckets@[c]@.len() && (#[trigger] ns.buckets@[c]@[j]).node.id@ == id && (true
            ==> ns.buckets@[c]@[j].verified());
    let w = ns.buckets@[c]@[j];
    assert forall|b: int| 0 <= b < NUM_BUCKETS && b != c implies (#[trigger] ns.buckets@[b])@.len() == 0 by {
        if ns.buckets@[b]@.len() > 0 {
            let x = ns.buckets@[b]@[0];
            assert(ns.has_entry(x));
        }
    }
    assert(ns.buckets@[c]@ =~= seq![w]) by {
        if ns.buckets@[c]@.len() > 1 {
            let x0 = ns.buckets@[c]@[0];
            let x1 = ns.buckets@[c]@[1];
            assert(ns.has_entry(x0));
            assert(ns.has_entry(x1));
            assert(ns.buckets@[c]@[0].node.id@ != ns.buckets@[c]@[1].node.id@);
        }
        assert(j == 0);
    }
    lemma_flatten_single(ns.buckets@, c, w, NUM_BUCKETS as int);
    assert(ns.buckets@.take(NUM_BUCKETS as int) =~= ns.buckets@);
    assert(w.verified());
    let one = seq![w];
    assert(one.len() == 1);
    assert(one.last() == w);
    assert(one.drop_last() =~= Seq::<NodeWrapper>::empty());
    assert(select(Seq::<NodeWrapper>::empty(), Some(false), None).len() == 0);
    assert(select(Seq::<NodeWrapper>::empty(), Some(true), None).len() == 0);
    assert(!wanted(w, Some(false), None));
    assert(wanted(w, Some(true), None));
    assert(select(one, Some(false), None) == select(one.drop_last(), Some(false), None));
    assert(select(one, Some(true), None) == select(one.drop_last(), Some(true), None).push(w));
}

proof fn lemma_flatten_single(bs: Seq<Vec<NodeWrapper>>, c: int, w: NodeWrapper, n: int)
    requires
        0 <= c < bs.len(),
        0 <= n <= bs.len(),
        bs[c]@ == seq![w],
        forall|b: int| 0 <= b < bs.len() && b != c ==> (#[trigger] bs[b])@.len() == 0,
    ensures
        flatten(bs.take(n)) == if n > c { seq![w] } else { Seq::<NodeWrapper>::empty() },
    decreases n,
{
    if n > 0 {
        lemma_flatten_single(bs, c, w, n - 1);
        assert(bs.take(n).drop_last() =~= bs.take(n - 1));
        assert(bs.take(n).last() == bs[n - 1]);
        if n - 1 == c {
            assert(Seq::<NodeWrapper>::empty() + seq![w] =~= seq![w]);
        } else {
            assert(bs[n - 1]@ =~= Seq::<NodeWrapper>::empty());
            assert(flatten(bs.take(n - 1)) + bs[n - 1]@ =~= flatten(bs.take(n - 1)));
        }
    } else {
        assert(bs.take(0) =~= Seq::<Vec<NodeWrapper>>::empty());
    }
}

pub proof fn lemma_flatten_contains(bs: Seq<Vec<NodeWrapper>>, b: int, j: int)
    requires
        0 <= b < bs.len(),
        0 <= j < bs[b]@.len(),
    ensures
        flatten(bs).contains(bs[b]@[j]),
    decreases bs.len(),
{
    let p = bs.drop_last();
    if b < bs.len() - 1 {
        assert(p[b] == bs[b]);
        lemma_flatten_contains(p, b, j);
        let k = choose|k: int| 0 <= k < flatten(p).len() && flatten(p)[k] == bs[b]@[j];
        assert(flatten(bs)[k] == flatten(p)[k]);
    } else {
        assert(flatten(bs)[flatten(p).len() + j] == bs[b]@[j]);
    }
}

proof fn lemma_flatten_members(bs: Seq<Vec<NodeWrapper>>)
    ensures
        forall|x: NodeWrapper|
            flatten(bs).contains(x) ==> exists|b: int, j: int|
                0 <= b < bs.len() && 0 <= j < bs[b]@.len() && #[trigger] bs[b]@[j] == x,
    decreases bs.len(),
{
    if bs.len() > 0 {
        let p = bs.drop_last();
        lemma_flatten_members(p);
        assert forall|x: NodeWrapper| flatten(bs).contains(x) implies exists|b: int, j: int|
            0 <= b < bs.len() && 0 <= j < bs[b]@.len() && #[trigger] bs[b]@[j] == x by {
            let k = choose|k: int| 0 <= k < flatten(bs).len() && flatten(bs)[k] == x;
            let f = flatten(p);
            if k < f.len() {
                assert(f[k] == x);
                assert(f.contains(x));
                let (b, j) = choose|b: int, j: int|
                    0 <= b < p.len() && 0 <= j < p[b]@.len() && #[trigger] p[b]@[j] == x;
                assert(bs[b] == p[b]);
            } else {
                let j = k - f.len();
                assert(bs[bs.len() - 1]@[j] == x);
            }
        }
    }
}

fn copy_bucket(v: &Vec<NodeWrapper>) -> (r: Vec<NodeWrapper>)
    ensures
        r@ == v@,
{
    let mut r: Vec<NodeWrapper> = Vec::new();
    let mut i: usize = 0;
    while i < v.len()
        invariant
            i <= v@.len(),
            r@ == v@.take(i as int),
        decreases v@.len() - i,
    {
        r.push(v[i]);
        assert(r@ =~= v@.take(i + 1));
        i = i + 1;
    }
    assert(v@.take(v@.len() as int) =~= v@);
    r
}

/// The index of the least recently seen unverified entry, if there is one.
fn oldest_unverified(v: &Vec<NodeWrapper>) -> (r: Option<usize>)
    ensures
        r is None <==> forall|k: int| 0 <= k < v@.len() ==> (#[trigger] v@[k]).verified(),
        r matches Some(e) ==> e < v@.len() && !v@[e as int].verified() && forall|k: int|
            0 <= k < v@.len() && !(#[trigger] v@[k]).verified() ==> v@[e as int].last_seen
                <= v@[k].last_seen,
{
    let mut best: Option<usize> = None;
    let mut i: usize = 0;
    while i < v.len()
        invariant
            i <= v@.len(),
            best is None ==> forall|k: int| 0 <= k < i ==> (#[trigger] v@[k]).verified(),
            best matches Some(e) ==> e < i && !v@[e as int].verified() && forall|k: int|
                0 <= k < i && !(#[trigger] v@[k]).verified() ==> v@[e as int].last_seen
                    <= v@[k].last_seen,
        decreases v@.len() - i,
    {
        if !v[i].is_verified() {
            match best {
                None => {
                    best = Some(i);
                },
                Some(e) => {
                    if v[i].last_seen < v[e].last_seen {
                        best = Some(i);
                    }
                },
            }
        }
        i = i + 1;
    }
    best
}

proof fn lemma_flatten_empty(bs: Seq<Vec<NodeWrapper>>)
    requires
        forall|b: int| 0 <= b < bs.len() ==> (#[trigger] bs[b])@.len() == 0,
    ensures
        flatten(bs).len() == 0,
    decreases bs.len(),
{
    if bs.len() > 0 {
        lemma_flatten_empty(bs.drop_last());
    }
}

} // verus!
