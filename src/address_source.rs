//! The external IPv4 address as other nodes report it: each voter's latest
//! claim counts with a weight that decays over time, and the claim with the
//! largest total weight wins once that total reaches a quorum.
use vstd::prelude::*;

verus! {

/// Most votes held at once; the oldest vote leaves when a new voter would exceed it.
pub const MAX_VOTES: usize = 1024;

/// One voter's claim about our address, with its remaining weight.
#[derive(Clone, Copy, Debug, PartialEq, Eq, Structural)]
pub struct Vote {
    pub voter: u32,
    pub claimed: u32,
    pub weight: u8,
}

/// Total weight of the votes for `ip`.
pub open spec fn tally(votes: Seq<Vote>, ip: u32) -> nat
    decreases votes.len(),
{
    if votes.len() == 0 {
        0
    } else {
        tally(votes.drop_last(), ip) + if votes.last().claimed == ip {
            votes.last().weight as nat
        } else {
            0
        }
    }
}

/// The votes after one decay step: each weight drops by one and spent votes leave.
pub open spec fn decayed(votes: Seq<Vote>) -> Seq<Vote>
    decreases votes.len(),
{
    if votes.len() == 0 {
        Seq::empty()
    } else if votes.last().weight > 1 {
        decayed(votes.drop_last()).push(
            Vote { voter: votes.last().voter, claimed: votes.last().claimed, weight: (votes.last().weight - 1) as u8 },
        )
    } else {
        decayed(votes.drop_last())
    }
}

/// Among the claims of the first `n` votes, the first with the largest
/// total weight, with that total.
pub open spec fn leader(votes: Seq<Vote>, n: int) -> Option<(u32, nat)>
    decreases n,
{
    if n <= 0 {
        None
    } else {
        let c = votes[n - 1].claimed;
        let t = tally(votes, c);
        match leader(votes, n - 1) {
            None => Some((c, t)),
            Some(b) => if t > b.1 {
                Some((c, t))
            } else {
                Some(b)
            },
        }
    }
}

/// The votes of voters other than `voter`, in order.
pub open spec fn others(votes: Seq<Vote>, voter: u32) -> Seq<Vote>
    decreases votes.len(),
{
    if votes.len() == 0 {
        Seq::empty()
    } else if votes.last().voter != voter {
        others(votes.drop_last(), voter).push(votes.last())
    } else {
        others(votes.drop_last(), voter)
    }
}

proof fn lemma_tally_bound(votes: Seq<Vote>, ip: u32)
    ensures
        tally(votes, ip) <= 255 * votes.len(),
    decreases votes.len(),
{
    if votes.len() > 0 {
        lemma_tally_bound(votes.drop_last(), ip);
    }
}

/// The source of our external IPv4 address: either a fixed address, or the
/// outcome of the votes.
pub struct AddressSource {
    /// A fixed address that always wins, where one was given.
    pub fixed: Option<u32>,
    pub votes: Vec<Vote>,
    /// Weight of a fresh vote.
    pub initial_weight: u8,
    /// Least total weight with which a claim wins.
    pub quorum: u64,
}

impl AddressSource {
    pub open spec fn wf(&self) -> bool {
        self.votes@.len() <= MAX_VOTES
    }

    /// The address that wins: the fixed one, else the first claim with the
    /// largest total weight where that total reaches the quorum.
    pub open spec fn winner(&self) -> Option<u32> {
        match self.fixed {
            Some(ip) => Some(ip),
            None => match leader(self.votes@, self.votes@.len() as int) {
                Some(b) => if b.1 >= self.quorum {
                    Some(b.0)
                } else {
                    None
                },
                None => None,
            },
        }
    }

    /// What holds of the address that wins, where one does.
    pub open spec fn best(&self, r: Option<u32>) -> bool {
        match self.fixed {
            Some(ip) => r == Some(ip),
            None => match r {
                Some(ip) => {
                    &&& tally(self.votes@, ip) >= self.quorum
                    &&& forall|k: int|
                        0 <= k < self.votes@.len() ==> tally(self.votes@, (#[trigger] self.votes@[k]).claimed)
                            <= tally(self.votes@, ip)
                    &&& exists|k: int| 0 <= k < self.votes@.len() && (#[trigger] self.votes@[k]).claimed == ip
                },
                None => forall|k: int|
                    0 <= k < self.votes@.len() ==> tally(self.votes@, (#[trigger] self.votes@[k]).claimed)
                        < self.quorum,
            },
        }
    }

    /// A source that always reports `ip`.
    pub fn new_static(ip: u32) -> (r: AddressSource)
        ensures
            r.wf(),
            r.fixed == Some(ip),
    {
        AddressSource { fixed: Some(ip), votes: Vec::new(), initial_weight: 0, quorum: 0 }
    }

    /// A source decided by votes of weight `initial_weight`, won at `quorum`.
    pub fn new_voting(initial_weight: u8, quorum: u64) -> (r: AddressSource)
        ensures
            r.wf(),
            r.fixed is None,
            r.votes@.len() == 0,
            r.initial_weight == initial_weight,
            r.quorum == quorum,
    {
        AddressSource { fixed: None, votes: Vec::new(), initial_weight, quorum }
    }

    /// Records that `voter` says our address is `claimed`, replacing that
    /// voter's earlier vote.
    pub fn add_vote(&mut self, voter: u32, claimed: u32)
        requires
            old(self).wf(),
        ensures
            final(self).wf(),
            final(self).fixed == old(self).fixed,
            final(self).quorum == old(self).quorum,
            final(self).initial_weight == old(self).initial_weight,
            final(self).votes@.len() > 0,
            final(self).votes@.last() == (Vote { voter, claimed, weight: old(self).initial_weight }),
            forall|k: int|
                0 <= k < final(self).votes@.len() - 1 ==> (#[trigger] final(self).votes@[k]).voter != voter,
            final(self).votes@.drop_last() == ({
                let o = others(old(self).votes@, voter);
                if o.len() >= MAX_VOTES {
                    o.drop_first()
                } else {
                    o
                }
            }),
    {
        let mut kept: Vec<Vote> = Vec::new();
        let mut i: usize = 0;
        while i < self.votes.len()
            invariant
                i <= self.votes@.len(),
                self.votes@.len() <= MAX_VOTES,
                kept@.len() <= i,
                kept@ == others(self.votes@.take(i as int), voter),
                forall|k: int| 0 <= k < kept@.len() ==> (#[trigger] kept@[k]).voter != voter,
            decreases self.votes@.len() - i,
        {
            assert(self.votes@.take(i + 1).drop_last() =~= self.votes@.take(i as int));
            assert(self.votes@.take(i + 1).last() == self.votes@[i as int]);
            if self.votes[i].voter != voter {
                kept.push(self.votes[i]);
            }
            i = i + 1;
        }
        assert(self.votes@.take(self.votes@.len() as int) =~= self.votes@);
        let ghost o = kept@;
        if kept.len() >= MAX_VOTES {
            let ghost before = kept@;
            kept.remove(0);
            assert forall|k: int| 0 <= k < kept@.len() implies (#[trigger] kept@[k]).voter != voter by {
                assert(kept@[k] == before[k + 1]);
            }
        }
        assert(kept@ =~= if o.len() >= MAX_VOTES { o.drop_first() } else { o });
        let ghost before = kept@;
        kept.push(Vote { voter, claimed, weight: self.initial_weight });
        assert(kept@.drop_last() =~= before);
        assert forall|k: int| 0 <= k < kept@.len() - 1 implies (#[trigger] kept@[k]).voter != voter by {
            assert(kept@[k] == before[k]);
        }
        self.votes = kept;
    }

    /// One decay step: every weight drops by one, and votes whose weight
    /// reaches zero are removed.
    pub fn decay(&mut self)
        requires
            old(self).wf(),
        ensures
            final(self).wf(),
            final(self).fixed == old(self).fixed,
            final(self).quorum == old(self).quorum,
            final(self).initial_weight == old(self).initial_weight,
            final(self).votes@ == decayed(old(self).votes@),
    {
        let mut kept: Vec<Vote> = Vec::new();
        let mut i: usize = 0;
        while i < self.votes.len()
            invariant
                i <= self.votes@.len(),
                kept@.len() <= i,
                kept@ == decayed(self.votes@.take(i as int)),
            decreases self.votes@.len() - i,
        {
            let v = self.votes[i];
            assert(self.votes@.take(i + 1).drop_last() =~= self.votes@.take(i as int));
            assert(self.votes@.take(i + 1).last() == v);
            if v.weight > 1 {
                kept.push(Vote { voter: v.voter, claimed: v.claimed, weight: v.weight - 1 });
            }
            i = i + 1;
        }
        assert(self.votes@.take(self.votes@.len() as int) =~= self.votes@);
        self.votes = kept;
    }

    fn tally_of(&self, ip: u32) -> (r: u64)
        requires
            self.wf(),
        ensures
            r == tally(self.votes@, ip),
    {
        let mut t: u64 = 0;
        let mut i: usize = 0;
        while i < self.votes.len()
            invariant
                i <= self.votes@.len(),
                self.votes@.len() <= MAX_VOTES,
                t == tally(self.votes@.take(i as int), ip),
            decreases self.votes@.len() - i,
        {
            let v = self.votes[i];
            assert(self.votes@.take(i + 1).drop_last() =~= self.votes@.take(i as int));
            assert(self.votes@.take(i + 1).last() == v);
            proof {
                lemma_tally_bound(self.votes@.take(i as int), ip);
            }
            if v.claimed == ip {
                t = t + v.weight as u64;
            }
            i = i + 1;
        }
        assert(self.votes@.take(self.votes@.len() as int) =~= self.votes@);
        t
    }

    /// The fixed address, or else the claim with the largest total weight
    /// where that total reaches the quorum.
    pub fn get_best_ipv4(&self) -> (r: Option<u32>)
        requires
            self.wf(),
        ensures
            r == self.winner(),
            self.best(r),
    {
        if let Some(ip) = self.fixed {
            return Some(ip);
        }
        let mut best: Option<(u32, u64)> = None;
        let mut i: usize = 0;
        while i < self.votes.len()
            invariant
                self.wf(),
                i <= self.votes@.len(),
                i > 0 ==> best is Some,
                best matches Some(b) ==> leader(self.votes@, i as int) == Some((b.0, b.1 as nat)),
                best is None ==> leader(self.votes@, i as int) is None,
                best matches Some(b) ==> b.1 == tally(self.votes@, b.0) && (exists|k: int|
                    0 <= k < self.votes@.len() && (#[trigger] self.votes@[k]).claimed == b.0),
                forall|k: int|
                    0 <= k < i ==> tally(self.votes@, (#[trigger] self.votes@[k]).claimed) <= best.unwrap().1,
            decreases self.votes@.len() - i,
        {
            let c = self.votes[i].claimed;
            let t = self.tally_of(c);
            match best {
                None => {
                    best = Some((c, t));
                },
                Some(b) => {
                    if t > b.1 {
                        best = Some((c, t));
                    }
                },
            }
            i = i + 1;
        }
        match best {
            Some(b) => {
                if b.1 >= self.quorum {
                    Some(b.0)
                } else {
                    None
                }
            },
            None => None,
        }
    }
}

} // verus!
