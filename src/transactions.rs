//! The table of our queries that await a reply: each is registered under a
//! fresh transaction id with the node it went to, and a reply is handed to
//! the query it answers once at most, after which the entry is gone.
use vstd::prelude::*;
use crate::id::Id;

verus! {

/// One query awaiting its reply.
#[derive(Clone, Copy, Debug)]
pub struct Pending {
    pub transaction_id: u16,
    /// The id of the node queried, where known.
    pub dest_id: Option<Id>,
    /// The address of the node queried.
    pub dest_ip: u32,
    /// When the query was sent.
    pub created: u64,
}

/// A reply with transaction id `tid` from `from_ip`, by a node claiming the
/// id `responder`, answers the query `p`: the ids match where the queried
/// node's id is known, else the addresses do.
pub open spec fn answers(p: Pending, tid: u16, from_ip: u32, responder: Option<Seq<u8>>) -> bool {
    &&& p.transaction_id == tid
    &&& match p.dest_id {
        Some(d) => responder == Some(d@),
        None => from_ip == p.dest_ip,
    }
}

pub struct TransactionTable {
    pub pending: Vec<Pending>,
}

impl TransactionTable {
    /// Transaction ids are unique among the pending queries.
    pub open spec fn wf(&self) -> bool {
        forall|i: int, j: int|
            0 <= i < j < self.pending@.len() ==> (#[trigger] self.pending@[i]).transaction_id
                != (#[trigger] self.pending@[j]).transaction_id
    }

    /// Some pending query has the transaction id `tid`.
    pub open spec fn has(&self, tid: u16) -> bool {
        exists|i: int| 0 <= i < self.pending@.len() && (#[trigger] self.pending@[i]).transaction_id == tid
    }

    pub fn new() -> (r: TransactionTable)
        ensures
            r.wf(),
            r.pending@.len() == 0,
    {
        TransactionTable { pending: Vec::new() }
    }

    fn position(&self, tid: u16) -> (r: Option<usize>)
        ensures
            r is None <==> !self.has(tid),
            r matches Some(i) ==> i < self.pending@.len() && self.pending@[i as int].transaction_id == tid,
    {
        let mut i: usize = 0;
        while i < self.pending.len()
            invariant
                i <= self.pending@.len(),
                forall|k: int| 0 <= k < i ==> (#[trigger] self.pending@[k]).transaction_id != tid,
            decreases self.pending@.len() - i,
        {
            if self.pending[i].transaction_id == tid {
                return Some(i);
            }
            i = i + 1;
        }
        None
    }

    /// Registers a query sent at `now` under `tid`. Refused, changing
    /// nothing, where `tid` is already in use: the caller draws another.
    pub fn register(&mut self, tid: u16, dest_id: Option<Id>, dest_ip: u32, now: u64) -> (r: bool)
        requires
            old(self).wf(),
        ensures
            final(self).wf(),
            r <==> !old(self).has(tid),
            !r ==> final(self).pending@ == old(self).pending@,
            r ==> final(self).pending@ == old(self).pending@.push(
                Pending { transaction_id: tid, dest_id, dest_ip, created: now },
            ),
    {
        if self.position(tid).is_some() {
            return false;
        }
        let ghost before = self.pending@;
        self.pending.push(Pending { transaction_id: tid, dest_id, dest_ip, created: now });
        assert forall|i: int, j: int|
            0 <= i < j < self.pending@.len() implies (#[trigger] self.pending@[i]).transaction_id
                != (#[trigger] self.pending@[j]).transaction_id by {
            assert(self.pending@[i] == before[i]);
            if j < before.len() {
                assert(self.pending@[j] == before[j]);
            }
        }
        true
    }

    /// Takes the query that a reply answers, if there is one: it is removed,
    /// so no later reply can be handed to it.
    pub fn take_match(&mut self, tid: u16, from_ip: u32, responder: Option<Id>) -> (r: Option<Pending>)
        requires
            old(self).wf(),
        ensures
            final(self).wf(),
            !final(self).has(tid) || final(self).pending@ == old(self).pending@,
            r is None ==> final(self).pending@ == old(self).pending@,
            r matches Some(p) ==> {
                &&& answers(p, tid, from_ip, match responder { Some(x) => Some(x@), None => None })
                &&& exists|i: int|
                    0 <= i < old(self).pending@.len() && old(self).pending@[i] == p
                        && final(self).pending@ == old(self).pending@.remove(i)
                &&& !final(self).has(tid)
            },
            r is None && old(self).has(tid) ==> forall|i: int|
                0 <= i < old(self).pending@.len() && (#[trigger] old(self).pending@[i]).transaction_id == tid
                    ==> !answers(old(self).pending@[i], tid, from_ip, match responder { Some(x) => Some(x@), None => None }),
    {
        match self.position(tid) {
            None => None,
            Some(i) => {
                let p = self.pending[i];
                let ok = match p.dest_id {
                    Some(d) => match responder {
                        Some(x) => d.same_as(&x),
                        None => false,
                    },
                    None => from_ip == p.dest_ip,
                };
                if !ok {
                    proof {
                        assert forall|k: int|
                            0 <= k < self.pending@.len() && (#[trigger] self.pending@[k]).transaction_id == tid
                                implies !answers(self.pending@[k], tid, from_ip, match responder { Some(x) => Some(x@), None => None }) by {
                            if k != i as int {
                                if k < i {
                                    assert(self.pending@[k].transaction_id != self.pending@[i as int].transaction_id);
                                } else {
                                    assert(self.pending@[i as int].transaction_id != self.pending@[k].transaction_id);
                                }
                            }
                        }
                    }
                    return None;
                }
                let ghost before = self.pending@;
                self.pending.remove(i);
                proof {
                    assert forall|a: int, b: int|
                        0 <= a < b < self.pending@.len() implies (#[trigger] self.pending@[a]).transaction_id
                            != (#[trigger] self.pending@[b]).transaction_id by {
                        let a2 = if a < i { a } else { a + 1 };
                        let b2 = if b < i { b } else { b + 1 };
                        assert(self.pending@[a] == before[a2]);
                        assert(self.pending@[b] == before[b2]);
                    }
                    assert forall|k: int| 0 <= k < self.pending@.len() implies (#[trigger] self.pending@[k]).transaction_id != tid by {
                        let k2 = if k < i { k } else { k + 1 };
                        assert(self.pending@[k] == before[k2]);
                        if k2 < i {
                            assert(before[k2].transaction_id != before[i as int].transaction_id);
                        } else {
                            assert(before[i as int].transaction_id != before[k2].transaction_id);
                        }
                    }
                }
                Some(p)
            },
        }
    }

    /// Forgets the query registered under `tid`, if any: its caller stopped
    /// waiting.
    pub fn cancel(&mut self, tid: u16)
        requires
            old(self).wf(),
        ensures
            final(self).wf(),
            !final(self).has(tid),
            !old(self).has(tid) ==> final(self).pending@ == old(self).pending@,
    {
        match self.position(tid) {
            None => {},
            Some(i) => {
                let ghost before = self.pending@;
                self.pending.remove(i);
                proof {
                    assert forall|a: int, b: int|
                        0 <= a < b < self.pending@.len() implies (#[trigger] self.pending@[a]).transaction_id
                            != (#[trigger] self.pending@[b]).transaction_id by {
                        let a2 = if a < i { a } else { a + 1 };
                        let b2 = if b < i { b } else { b + 1 };
                        assert(self.pending@[a] == before[a2]);
                        assert(self.pending@[b] == before[b2]);
                    }
                    assert forall|k: int| 0 <= k < self.pending@.len() implies (#[trigger] self.pending@[k]).transaction_id != tid by {
                        let k2 = if k < i { k } else { k + 1 };
                        assert(self.pending@[k] == before[k2]);
                        if k2 < i {
                            assert(before[k2].transaction_id != before[i as int].transaction_id);
                        } else {
                            assert(before[i as int].transaction_id != before[k2].transaction_id);
                        }
                    }
                }
            },
        }
    }

    /// Drops, and returns, the queries sent more than `timeout` before `now`:
    /// those end in a timeout.
    pub fn expire(&mut self, now: u64, timeout: u64) -> (r: Vec<Pending>)
        requires
            old(self).wf(),
        ensures
            final(self).wf(),
            forall|k: int| 0 <= k < final(self).pending@.len() ==> old(self).pending@.contains(#[trigger] final(self).pending@[k])
                && !(now > final(self).pending@[k].created && now - final(self).pending@[k].created > timeout),
            forall|k: int| 0 <= k < r@.len() ==> old(self).pending@.contains(#[trigger] r@[k])
                && now > r@[k].created && now - r@[k].created > timeout,
            r@.len() + final(self).pending@.len() == old(self).pending@.len(),
    {
        let mut kept: Vec<Pending> = Vec::new();
        let mut gone: Vec<Pending> = Vec::new();
        let mut i: usize = 0;
        while i < self.pending.len()
            invariant
                self.wf(),
                i <= self.pending@.len(),
                kept@.len() + gone@.len() == i,
                forall|k: int| 0 <= k < kept@.len() ==> exists|m: int| 0 <= m < i && self.pending@[m] == #[trigger] kept@[k],
                forall|a: int, b: int| 0 <= a < b < kept@.len() ==> (#[trigger] kept@[a]).transaction_id
                    != (#[trigger] kept@[b]).transaction_id,
                forall|k: int| 0 <= k < kept@.len() ==> !(now > (#[trigger] kept@[k]).created && now - kept@[k].created > timeout),
                forall|k: int| 0 <= k < gone@.len() ==> self.pending@.contains(#[trigger] gone@[k])
                    && now > gone@[k].created && now - gone@[k].created > timeout,
            decreases self.pending@.len() - i,
        {
            let p = self.pending[i];
            if now > p.created && now - p.created > timeout {
                let ghost g = gone@;
                gone.push(p);
                assert forall|k: int| 0 <= k < gone@.len() implies self.pending@.contains(#[trigger] gone@[k]) by {
                    if k < g.len() {
                        assert(gone@[k] == g[k]);
                    } else {
                        assert(self.pending@[i as int] == p);
                    }
                }
            } else {
                let ghost kb = kept@;
                kept.push(p);
                assert forall|k: int| 0 <= k < kept@.len() implies exists|m: int| 0 <= m < i + 1 && self.pending@[m] == #[trigger] kept@[k] by {
                    if k < kb.len() {
                        assert(kept@[k] == kb[k]);
                    } else {
                        assert(self.pending@[i as int] == kept@[k]);
                    }
                }
                assert forall|a: int, b: int| 0 <= a < b < kept@.len() implies (#[trigger] kept@[a]).transaction_id
                    != (#[trigger] kept@[b]).transaction_id by {
                    assert(kept@[a] == kb[a]);
                    if b < kb.len() {
                        assert(kept@[b] == kb[b]);
                    } else {
                        let m = choose|m: int| 0 <= m < i && self.pending@[m] == #[trigger] kb[a];
                        assert(self.pending@[i as int] == kept@[b]);
                        assert(self.pending@[m].transaction_id != self.pending@[i as int].transaction_id);
                    }
                }
            }
            i = i + 1;
        }
        let ghost old_p = self.pending@;
        self.pending = kept;
        proof {
            assert forall|k: int| 0 <= k < self.pending@.len() implies old_p.contains(#[trigger] self.pending@[k]) by {
                let m = choose|m: int| 0 <= m < old_p.len() && old_p[m] == #[trigger] self.pending@[k];
            }
        }
        gone
    }
}

/// A reply handed to the query it answers is handed to no other: once
/// taken, a second reply with the same transaction id finds no query.
pub proof fn lemma_single_delivery(t0: TransactionTable, t1: TransactionTable, tid: u16, p: Pending)
    requires
        t0.wf(),
        exists|i: int| 0 <= i < t0.pending@.len() && t0.pending@[i] == p && t1.pending@ == t0.pending@.remove(i),
        p.transaction_id == tid,
    ensures
        !t1.has(tid),
{
    let i = choose|i: int| 0 <= i < t0.pending@.len() && t0.pending@[i] == p && t1.pending@ == t0.pending@.remove(i);
    assert forall|k: int| 0 <= k < t1.pending@.len() implies (#[trigger] t1.pending@[k]).transaction_id != tid by {
        let k2 = if k < i { k } else { k + 1 };
        assert(t1.pending@[k] == t0.pending@[k2]);
        if k2 < i {
            assert(t0.pending@[k2].transaction_id != t0.pending@[i].transaction_id);
        } else {
            assert(t0.pending@[i].transaction_id != t0.pending@[k2].transaction_id);
        }
    }
}

} // verus!
