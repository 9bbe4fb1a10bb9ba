//! Announced peers per info-hash, under two caps: the number of info-hashes
//! and the number of peers per info-hash. Both are kept by evicting the entry
//! that was announced least recently.
use vstd::prelude::*;
use crate::addr::Addr;
use crate::id::Id;

verus! {

/// A peer's address and the time of its last announce.
#[derive(Clone, Copy, Debug)]
pub struct PeerInfo {
    pub addr: Addr,
    pub last_updated: u64,
}

/// The peers announced for one info-hash, least recently announced first.
#[derive(Debug)]
pub struct TorrentPeers {
    pub info_hash: Id,
    pub peers: Vec<PeerInfo>,
}

/// Whether a record counts as fresh for `newer_than`.
pub open spec fn is_fresh(p: PeerInfo, newer_than: Option<u64>) -> bool {
    match newer_than {
        Some(t) => p.last_updated >= t,
        None => true,
    }
}

/// The addresses of the fresh records, in order.
pub open spec fn fresh_addrs(recs: Seq<PeerInfo>, newer_than: Option<u64>) -> Seq<Addr>
    decreases recs.len(),
{
    if recs.len() == 0 {
        Seq::empty()
    } else {
        let rest = fresh_addrs(recs.drop_last(), newer_than);
        if is_fresh(recs.last(), newer_than) {
            rest.push(recs.last().addr)
        } else {
            rest
        }
    }
}

/// The records that are fresh, in order.
pub open spec fn fresh_records(recs: Seq<PeerInfo>, newer_than: Option<u64>) -> Seq<PeerInfo>
    decreases recs.len(),
{
    if recs.len() == 0 {
        Seq::empty()
    } else {
        let rest = fresh_records(recs.drop_last(), newer_than);
        if is_fresh(recs.last(), newer_than) {
            rest.push(recs.last())
        } else {
            rest
        }
    }
}

/// The records of `recs` for addresses other than `addr`, in order.
pub open spec fn without_addr(recs: Seq<PeerInfo>, addr: Addr) -> Seq<PeerInfo>
    decreases recs.len(),
{
    if recs.len() == 0 {
        Seq::empty()
    } else if recs.last().addr != addr {
        without_addr(recs.drop_last(), addr).push(recs.last())
    } else {
        without_addr(recs.drop_last(), addr)
    }
}

proof fn lemma_without_addr_len(recs: Seq<PeerInfo>, addr: Addr)
    ensures
        without_addr(recs, addr).len() <= recs.len(),
    decreases recs.len(),
{
    if recs.len() > 0 {
        lemma_without_addr_len(recs.drop_last(), addr);
    }
}

/// The records of an info-hash after `addr` announces at `now`: its earlier
/// record leaves, the new one comes last, and the oldest leaves where the
/// list would exceed `cap`.
pub open spec fn announced(recs: Seq<PeerInfo>, addr: Addr, now: u64, cap: usize) -> Seq<PeerInfo> {
    let s = without_addr(recs, addr).push(PeerInfo { addr, last_updated: now });
    if s.len() > cap {
        s.drop_first()
    } else {
        s
    }
}

pub struct PeerStorage {
    pub max_info_hashes: usize,
    pub max_peers_per_info_hash: usize,
    pub torrents: Vec<TorrentPeers>,
}

impl PeerStorage {
    pub open spec fn wf(&self) -> bool {
        &&& self.torrents@.len() <= self.max_info_hashes
        &&& forall|t: int|
            0 <= t < self.torrents@.len() ==> (#[trigger] self.torrents@[t]).peers@.len()
                <= self.max_peers_per_info_hash
        &&& forall|a: int, b: int|
            0 <= a < b < self.torrents@.len() ==> (#[trigger] self.torrents@[a]).info_hash@
                != (#[trigger] self.torrents@[b]).info_hash@
    }

    /// Index of the entry for `h`, if any.
    pub open spec fn index_of(&self, h: Seq<u8>) -> Option<int> {
        if exists|t: int| 0 <= t < self.torrents@.len() && self.torrents@[t].info_hash@ == h {
            Some(
                choose|t: int| 0 <= t < self.torrents@.len() && self.torrents@[t].info_hash@ == h,
            )
        } else {
            None
        }
    }

    /// The entries of the info-hashes other than `h` after `h` is announced:
    /// all but `h`'s own, and where `h` is new and the cap is reached, all
    /// but the least recently announced.
    pub open spec fn others_after_announce(&self, h: Seq<u8>) -> Seq<TorrentPeers> {
        match self.index_of(h) {
            Some(t) => self.torrents@.remove(t),
            None => if self.torrents@.len() >= self.max_info_hashes {
                self.torrents@.drop_first()
            } else {
                self.torrents@
            },
        }
    }

    /// The records held for `h`, least recently announced first.
    pub open spec fn records_of(&self, h: Seq<u8>) -> Seq<PeerInfo> {
        match self.index_of(h) {
            Some(t) => self.torrents@[t].peers@,
            None => Seq::empty(),
        }
    }

    pub fn new(max_info_hashes: usize, max_peers_per_info_hash: usize) -> (r: PeerStorage)
        ensures
            r.wf(),
            r.max_info_hashes == max_info_hashes,
            r.max_peers_per_info_hash == max_peers_per_info_hash,
            r.torrents@.len() == 0,
    {
        PeerStorage { max_info_hashes, max_peers_per_info_hash, torrents: Vec::new() }
    }

    fn find(&self, info_hash: &Id) -> (r: Option<usize>)
        requires
            self.wf(),
        ensures
            r is None <==> self.index_of(info_hash@) is None,
            r matches Some(t) ==> self.index_of(info_hash@) == Some(t as int),
            r matches Some(t) ==> t < self.torrents@.len() && self.torrents@[t as int].info_hash@
                == info_hash@,
    {
        let mut i: usize = 0;
        while i < self.torrents.len()
            invariant
                self.wf(),
                i <= self.torrents@.len(),
                forall|t: int| 0 <= t < i ==> self.torrents@[t].info_hash@ != info_hash@,
            decreases self.torrents@.len() - i,
        {
            if self.torrents[i].info_hash.same_as(info_hash) {
                proof {
                    assert(self.torrents@[i as int].info_hash@ == info_hash@);
                    let c = choose|t: int|
                        0 <= t < self.torrents@.len() && self.torrents@[t].info_hash@ == info_hash@;
                    if c != i as int {
                        if c > i as int {
                            assert(self.torrents@[i as int].info_hash@
                                != self.torrents@[c].info_hash@);
                        }
                    }
                }
                return Some(i);
            }
            i = i + 1;
        }
        None
    }

    /// Records that `addr` announced itself for `info_hash` at time `now`.
    /// A peer already held for that info-hash is moved to the most recent
    /// place. Where a cap would be exceeded, the least recently announced
    /// info-hash, or peer of that info-hash, is evicted.
    pub fn announce_peer(&mut self, info_hash: Id, addr: Addr, now: u64)
        requires
            old(self).wf(),
        ensures
            final(self).wf(),
            final(self).max_info_hashes == old(self).max_info_hashes,
            final(self).max_peers_per_info_hash == old(self).max_peers_per_info_hash,
            old(self).max_info_hashes > 0 && old(self).max_peers_per_info_hash > 0 ==> {
                let recs = announced(old(self).records_of(info_hash@), addr, now, old(self).max_peers_per_info_hash);
                &&& final(self).records_of(info_hash@) == recs
                &&& final(self).torrents@.len() > 0
                &&& final(self).torrents@.last().info_hash@ == info_hash@
                &&& final(self).torrents@.last().peers@ == recs
                &&& final(self).torrents@.drop_last() == old(self).others_after_announce(info_hash@)
            },
            old(self).max_info_hashes == 0 || old(self).max_peers_per_info_hash == 0 ==> final(self).torrents@
                == old(self).torrents@,
    {
        if self.max_info_hashes == 0 || self.max_peers_per_info_hash == 0 {
            return;
        }
        let found = self.find(&info_hash);
        let mut entry = match found {
            Some(t) => self.torrents.remove(t),
            None => TorrentPeers { info_hash, peers: Vec::new() },
        };
        assert(entry.info_hash@ == info_hash@);
        assert(entry.peers@.len() <= self.max_peers_per_info_hash);
        let ghost recs0 = entry.peers@;
        assert(recs0 == old(self).records_of(info_hash@));
        let ghost before = self.torrents@;
        assert forall|a: int, b: int| 0 <= a < b < before.len() implies before[a].info_hash@
            != before[b].info_hash@ && before[a].peers@.len() <= self.max_peers_per_info_hash by {
            if let Some(k) = found {
                let a2 = if a < k { a } else { a + 1 };
                let b2 = if b < k { b } else { b + 1 };
                assert(before[a] == old(self).torrents@[a2]);
                assert(before[b] == old(self).torrents@[b2]);
            }
        }
        assert forall|t: int| 0 <= t < before.len() implies before[t].peers@.len()
            <= self.max_peers_per_info_hash by {
            if let Some(k) = found {
                let t2 = if t < k { t } else { t + 1 };
                assert(before[t] == old(self).torrents@[t2]);
            }
        }
        assert forall|t: int| 0 <= t < self.torrents@.len() implies self.torrents@[t].info_hash@
            != info_hash@ by {
            if let Some(k) = found {
                if t < k {
                    assert(self.torrents@[t] == old(self).torrents@[t]);
                } else {
                    assert(self.torrents@[t] == old(self).torrents@[t + 1]);
                }
            }
        }
        let mut kept: Vec<PeerInfo> = Vec::new();
        let mut i: usize = 0;
        while i < entry.peers.len()
            invariant
                i <= entry.peers@.len(),
                entry.peers@ == recs0,
                kept@ == without_addr(recs0.take(i as int), addr),
            decreases entry.peers@.len() - i,
        {
            let p = entry.peers[i];
            assert(recs0.take(i + 1).drop_last() =~= recs0.take(i as int));
            assert(recs0.take(i + 1).last() == p);
            if p.addr != addr {
                kept.push(p);
            }
            i = i + 1;
        }
        assert(recs0.take(recs0.len() as int) =~= recs0);
        proof {
            lemma_without_addr_len(recs0, addr);
        }
        entry.peers = kept;
        entry.peers.push(PeerInfo { addr, last_updated: now });
        if entry.peers.len() > self.max_peers_per_info_hash {
            entry.peers.remove(0);
        }
        assert(entry.peers@ =~= announced(recs0, addr, now, self.max_peers_per_info_hash));
        if self.torrents.len() >= self.max_info_hashes {
            self.torrents.remove(0);
        }
        let ghost rest = self.torrents@;
        assert(rest =~= old(self).others_after_announce(info_hash@));
        assert(rest.len() < self.max_info_hashes);
        assert forall|a: int, b: int| 0 <= a < b < rest.len() implies rest[a].info_hash@
            != rest[b].info_hash@ by {
            if before.len() >= self.max_info_hashes as int && before.len() > 0 {
                assert(rest[a] == before[a + 1]);
                assert(rest[b] == before[b + 1]);
            } else {
                assert(rest[a] == before[a]);
                assert(rest[b] == before[b]);
            }
        }
        assert forall|t: int| 0 <= t < rest.len() implies rest[t].peers@.len()
            <= self.max_peers_per_info_hash by {
            if before.len() >= self.max_info_hashes as int && before.len() > 0 {
                assert(rest[t] == before[t + 1]);
            } else {
                assert(rest[t] == before[t]);
            }
        }
        assert forall|t: int| 0 <= t < rest.len() implies rest[t].info_hash@ != info_hash@ by {
            if before.len() >= self.max_info_hashes as int && before.len() > 0 {
                assert(rest[t] == before[t + 1]);
            }
        }
        self.torrents.push(entry);
        let ghost n = self.torrents@.len() - 1;
        assert(self.torrents@[n].info_hash@ == info_hash@);
        assert forall|a: int, b: int| 0 <= a < b < self.torrents@.len() implies (
        #[trigger] self.torrents@[a]).info_hash@ != (#[trigger] self.torrents@[b]).info_hash@ by {
            assert(self.torrents@[a] == rest[a]);
            if b < n {
                assert(self.torrents@[b] == rest[b]);
            }
        }
        assert forall|t: int| 0 <= t < self.torrents@.len() implies (
        #[trigger] self.torrents@[t]).peers@.len() <= self.max_peers_per_info_hash by {
            if t < n {
                assert(self.torrents@[t] == rest[t]);
            }
        }
        assert(self.index_of(info_hash@) == Some(n)) by {
            let c = choose|t: int|
                0 <= t < self.torrents@.len() && self.torrents@[t].info_hash@ == info_hash@;
            if c != n {
                assert(self.torrents@[c] == rest[c]);
            }
        }
        assert(self.torrents@.drop_last() =~= rest);
    }

    /// The addresses of the peers held for `info_hash` whose last announce is
    /// at or after `newer_than` (all of them where it is `None`), least
    /// recently announced first.
    pub fn get_peers(&self, info_hash: &Id, newer_than: Option<u64>) -> (r: Vec<Addr>)
        requires
            self.wf(),
        ensures
            r@ == fresh_addrs(self.records_of(info_hash@), newer_than),
    {
        let recs = self.get_peers_info(info_hash, newer_than);
        let mut r: Vec<Addr> = Vec::new();
        let mut i: usize = 0;
        proof {
            lemma_fresh_addrs_is_map(self.records_of(info_hash@), newer_than);
        }
        while i < recs.len()
            invariant
                i <= recs@.len(),
                r@ == recs@.take(i as int).map_values(|p: PeerInfo| p.addr),
            decreases recs@.len() - i,
        {
            r.push(recs[i].addr);
            assert(recs@.take(i + 1) =~= recs@.take(i as int).push(recs@[i as int]));
            i = i + 1;
        }
        assert(recs@.take(recs@.len() as int) =~= recs@);
        r
    }

    /// The records held for `info_hash` whose last announce is at or after
    /// `newer_than` (all of them where it is `None`), least recently announced first.
    pub fn get_peers_info(&self, info_hash: &Id, newer_than: Option<u64>) -> (r: Vec<PeerInfo>)
        requires
            self.wf(),
        ensures
            r@ == fresh_records(self.records_of(info_hash@), newer_than),
    {
        let mut r: Vec<PeerInfo> = Vec::new();
        match self.find(info_hash) {
            None => r,
            Some(t) => {
                let peers = &self.torrents[t].peers;
                let mut i: usize = 0;
                while i < peers.len()
                    invariant
                        i <= peers@.len(),
                        r@ == fresh_records(peers@.take(i as int), newer_than),
                    decreases peers@.len() - i,
                {
                    let p = peers[i];
                    assert(peers@.take(i + 1).drop_last() =~= peers@.take(i as int));
                    let keep = match newer_than {
                        Some(n) => p.last_updated >= n,
                        None => true,
                    };
                    if keep {
                        r.push(p);
                    }
                    i = i + 1;
                }
                assert(peers@.take(peers@.len() as int) =~= peers@);
                r
            },
        }
    }

    /// Every info-hash held, least recently announced first.
    pub fn get_info_hashes(&self) -> (r: Vec<Id>)
        ensures
            r@.len() == self.torrents@.len(),
            forall|t: int| 0 <= t < r@.len() ==> #[trigger] r@[t]@ == self.torrents@[t].info_hash@,
    {
        let mut r: Vec<Id> = Vec::new();
        let mut i: usize = 0;
        while i < self.torrents.len()
            invariant
                i <= self.torrents@.len(),
                r@.len() == i,
                forall|t: int| 0 <= t < i ==> #[trigger] r@[t]@ == self.torrents@[t].info_hash@,
            decreases self.torrents@.len() - i,
        {
            r.push(self.torrents[i].info_hash);
            i = i + 1;
        }
        r
    }
}

/// At most as many records are fresh as there are records.
pub proof fn lemma_fresh_records_len(recs: Seq<PeerInfo>, newer_than: Option<u64>)
    ensures
        fresh_records(recs, newer_than).len() <= recs.len(),
    decreases recs.len(),
{
    if recs.len() > 0 {
        lemma_fresh_records_len(recs.drop_last(), newer_than);
    }
}

proof fn lemma_fresh_addrs_is_map(recs: Seq<PeerInfo>, newer_than: Option<u64>)
    ensures
        fresh_addrs(recs, newer_than) == fresh_records(recs, newer_than).map_values(
            |p: PeerInfo| p.addr,
        ),
    decreases recs.len(),
{
    if recs.len() > 0 {
        lemma_fresh_addrs_is_map(recs.drop_last(), newer_than);
        assert(fresh_addrs(recs, newer_than) =~= fresh_records(recs, newer_than).map_values(
            |p: PeerInfo| p.addr,
        ));
    } else {
        assert(fresh_addrs(recs, newer_than) =~= fresh_records(recs, newer_than).map_values(
            |p: PeerInfo| p.addr,
        ));
    }
}

} // verus!
