//! Per-address rate limiting of incoming packets: an address that sends
//! more than `max_per_window` packets within one window is banned for
//! `ban_secs`.
use vstd::prelude::*;

verus! {

/// What is known of one sending address.
#[derive(Clone, Copy, Debug, PartialEq, Eq, Structural)]
pub struct ThrottleEntry {
    pub ip: u32,
    pub window_start: u64,
    pub count: u32,
    pub banned_until: u64,
}

pub struct Throttler {
    pub max_per_window: u32,
    pub window_secs: u64,
    pub ban_secs: u64,
    /// Most addresses tracked at once; the one tracked longest leaves first.
    pub max_tracked: usize,
    pub entries: Vec<ThrottleEntry>,
}

/// `a + b`, or the largest `u64` where that overflows.
pub open spec fn sat_add(a: u64, b: u64) -> u64 {
    if a + b > u64::MAX {
        u64::MAX
    } else {
        (a + b) as u64
    }
}

/// The entry of an address after a packet at `now`, and whether that packet
/// is dropped.
pub open spec fn step(e: ThrottleEntry, max: u32, window: u64, ban: u64, now: u64) -> (ThrottleEntry, bool) {
    if now < e.banned_until {
        (e, true)
    } else if now >= sat_add(e.window_start, window) {
        (ThrottleEntry { ip: e.ip, window_start: now, count: 1, banned_until: e.banned_until }, false)
    } else {
        let c: u32 = if e.count == u32::MAX { u32::MAX } else { (e.count + 1) as u32 };
        if c > max {
            (ThrottleEntry { ip: e.ip, window_start: e.window_start, count: c, banned_until: sat_add(now, ban) }, true)
        } else {
            (ThrottleEntry { ip: e.ip, window_start: e.window_start, count: c, banned_until: e.banned_until }, false)
        }
    }
}

impl Throttler {
    pub open spec fn wf(&self) -> bool {
        &&& self.entries@.len() <= self.max_tracked
        &&& forall|i: int, j: int|
            0 <= i < j < self.entries@.len() ==> (#[trigger] self.entries@[i]).ip != (#[trigger] self.entries@[j]).ip
    }

    pub fn new(max_per_window: u32, window_secs: u64, ban_secs: u64, max_tracked: usize) -> (r: Throttler)
        ensures
            r.wf(),
            r.entries@.len() == 0,
            r.max_per_window == max_per_window,
            r.window_secs == window_secs,
            r.ban_secs == ban_secs,
            r.max_tracked == max_tracked,
    {
        Throttler { max_per_window, window_secs, ban_secs, max_tracked, entries: Vec::new() }
    }

    /// Counts a packet from `ip` at `now` and says whether to drop it. A
    /// first packet from an untracked address is never dropped.
    pub fn check_throttle(&mut self, ip: u32, now: u64) -> (r: bool)
        requires
            old(self).wf(),
        ensures
            final(self).wf(),
            final(self).max_per_window == old(self).max_per_window,
            final(self).window_secs == old(self).window_secs,
            final(self).ban_secs == old(self).ban_secs,
            final(self).max_tracked == old(self).max_tracked,
            match find_ip(old(self).entries@, ip) {
                Some(i) => {
                    let (e, drop) = step(old(self).entries@[i], old(self).max_per_window, old(self).window_secs, old(self).ban_secs, now);
                    r == drop && final(self).entries@ == old(self).entries@.update(i, e)
                },
                None => !r,
            },
    {
        let mut i: usize = 0;
        while i < self.entries.len()
            invariant
                self.wf(),
                self.entries@ == old(self).entries@,
                self.max_per_window == old(self).max_per_window,
                self.window_secs == old(self).window_secs,
                self.ban_secs == old(self).ban_secs,
                self.max_tracked == old(self).max_tracked,
                i <= self.entries@.len(),
                forall|k: int| 0 <= k < i ==> (#[trigger] self.entries@[k]).ip != ip,
            decreases self.entries@.len() - i,
        {
            if self.entries[i].ip == ip {
                proof {
                    lemma_find_ip(self.entries@, ip, i as int);
                }
                let e = self.entries[i];
                let (ne, drop) = if now < e.banned_until {
                    (e, true)
                } else if now >= e.window_start.saturating_add(self.window_secs) {
                    (ThrottleEntry { ip: e.ip, window_start: now, count: 1, banned_until: e.banned_until }, false)
                } else {
                    let c: u32 = e.count.saturating_add(1);
                    if c > self.max_per_window {
                        (ThrottleEntry { ip: e.ip, window_start: e.window_start, count: c, banned_until: now.saturating_add(self.ban_secs) }, true)
                    } else {
                        (ThrottleEntry { ip: e.ip, window_start: e.window_start, count: c, banned_until: e.banned_until }, false)
                    }
                };
                let ghost before = self.entries@;
                self.entries.set(i, ne);
                assert forall|a: int, b: int|
                    0 <= a < b < self.entries@.len() implies (#[trigger] self.entries@[a]).ip != (#[trigger] self.entries@[b]).ip by {
                    assert(self.entries@[a].ip == before[a].ip);
                    assert(self.entries@[b].ip == before[b].ip);
                }
                return drop;
            }
            i = i + 1;
        }
        proof {
            lemma_find_ip_none(self.entries@, ip);
        }
        if self.max_tracked == 0 {
            return false;
        }
        if self.entries.len() >= self.max_tracked {
            let ghost before = self.entries@;
            self.entries.remove(0);
            assert forall|a: int, b: int|
                0 <= a < b < self.entries@.len() implies (#[trigger] self.entries@[a]).ip != (#[trigger] self.entries@[b]).ip by {
                assert(self.entries@[a] == before[a + 1]);
                assert(self.entries@[b] == before[b + 1]);
            }
            assert forall|k: int| 0 <= k < self.entries@.len() implies (#[trigger] self.entries@[k]).ip != ip by {
                assert(self.entries@[k] == before[k + 1]);
            }
        }
        let ghost before = self.entries@;
        self.entries.push(ThrottleEntry { ip, window_start: now, count: 1, banned_until: 0 });
        assert forall|a: int, b: int|
            0 <= a < b < self.entries@.len() implies (#[trigger] self.entries@[a]).ip != (#[trigger] self.entries@[b]).ip by {
            assert(self.entries@[a] == before[a]);
            if b < before.len() {
                assert(self.entries@[b] == before[b]);
            }
        }
        false
    }
}

/// The index of the entry for `ip`, if one is tracked.
pub open spec fn find_ip(entries: Seq<ThrottleEntry>, ip: u32) -> Option<int> {
    if exists|i: int| 0 <= i < entries.len() && (#[trigger] entries[i]).ip == ip {
        Some(choose|i: int| 0 <= i < entries.len() && (#[trigger] entries[i]).ip == ip)
    } else {
        None
    }
}

proof fn lemma_find_ip(entries: Seq<ThrottleEntry>, ip: u32, i: int)
    requires
        0 <= i < entries.len(),
        entries[i].ip == ip,
        forall|a: int, b: int| 0 <= a < b < entries.len() ==> (#[trigger] entries[a]).ip != (#[trigger] entries[b]).ip,
    ensures
        find_ip(entries, ip) == Some(i),
{
    let c = choose|c: int| 0 <= c < entries.len() && (#[trigger] entries[c]).ip == ip;
    if c < i {
        assert(entries[c].ip != entries[i].ip);
    } else if c > i {
        assert(entries[i].ip != entries[c].ip);
    }
}

proof fn lemma_find_ip_none(entries: Seq<ThrottleEntry>, ip: u32)
    requires
        forall|k: int| 0 <= k < entries.len() ==> (#[trigger] entries[k]).ip != ip,
    ensures
        find_ip(entries, ip) is None,
{
}

} // verus!
