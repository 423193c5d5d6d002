//! The per-info-hash peer directory.
//!
//! A directory carries the torrent payload size, a per-origin validity map,
//! and the peer set held in two indices: ordered by `(expire, addr)` for the
//! eviction sweep, and keyed by address for duplicate detection.  The two
//! indices are kept in bijection; every operation preserves that.

use vstd::prelude::*;

use crate::addr::{Peer, PeerAddr, peer_lt, lemma_peer_lt_trichotomy, peer_is_lt};
use crate::bstr::bytes_eq;

verus! {

/// One per-origin validity entry: origin key (percent-encoded host) and the
/// instant the cached directory stops being valid for that origin.
pub struct TrackerEntry {
    pub key: Vec<u8>,
    pub expire: u64,
}

/// One by-address index entry.
#[derive(Clone, Copy, PartialEq, Eq, Structural, Debug)]
pub struct AddrEntry {
    pub addr: PeerAddr,
    pub expire: u64,
}

/// The cached state of one torrent.
pub struct TorrentCache {
    /// Torrent payload size most recently declared by a client.
    pub size: u64,
    /// Per-origin validity, keyed by percent-encoded tracker host.
    pub trackers: Vec<TrackerEntry>,
    /// Peer set ordered strictly by `(expire, addr)`.
    pub peers_time: Vec<Peer>,
    /// Peer set keyed by address; at most one entry per address.
    pub peers_addr: Vec<AddrEntry>,
}

/// No two tracker entries share a key.
pub open spec fn tracker_keys_unique(s: Seq<TrackerEntry>) -> bool {
    forall|i: int, j: int| 0 <= i < j < s.len() ==> s[i].key@ != s[j].key@
}

/// No two address entries share an address.
pub open spec fn addrs_unique(s: Seq<AddrEntry>) -> bool {
    forall|i: int, j: int| 0 <= i < j < s.len() ==> s[i].addr != s[j].addr
}

/// Strictly sorted by `(expire, addr)`; strictness also rules out duplicates.
pub open spec fn peers_sorted(s: Seq<Peer>) -> bool {
    forall|i: int, j: int| 0 <= i < j < s.len() ==> peer_lt(s[i], s[j])
}

/// The mapping a tracker-entry sequence stands for.
pub open spec fn trackers_map(s: Seq<TrackerEntry>) -> Map<Seq<u8>, u64> {
    Map::new(
        |k: Seq<u8>| exists|i: int| 0 <= i < s.len() && s[i].key@ == k,
        |k: Seq<u8>|
            s[choose|i: int| 0 <= i < s.len() && s[i].key@ == k].expire,
    )
}

/// The mapping an address-entry sequence stands for.
pub open spec fn addrs_map(s: Seq<AddrEntry>) -> Map<PeerAddr, u64> {
    Map::new(
        |a: PeerAddr| exists|i: int| 0 <= i < s.len() && s[i].addr == a,
        |a: PeerAddr|
            s[choose|i: int| 0 <= i < s.len() && s[i].addr == a].expire,
    )
}

/// With unique keys, entry `i` is exactly what the map says about its key.
pub proof fn lemma_trackers_map_entry(s: Seq<TrackerEntry>, i: int)
    requires
        tracker_keys_unique(s),
        0 <= i < s.len(),
    ensures
        trackers_map(s).dom().contains(s[i].key@),
        trackers_map(s)[s[i].key@] == s[i].expire,
{
    let k = s[i].key@;
    assert(exists|j: int| 0 <= j < s.len() && s[j].key@ == k);
    let j = choose|j: int| 0 <= j < s.len() && s[j].key@ == k;
    if i < j {
        assert(s[i].key@ != s[j].key@);
    } else if j < i {
        assert(s[j].key@ != s[i].key@);
    }
}

/// With unique addresses, entry `i` is exactly what the map says.
pub proof fn lemma_addrs_map_entry(s: Seq<AddrEntry>, i: int)
    requires
        addrs_unique(s),
        0 <= i < s.len(),
    ensures
        addrs_map(s).dom().contains(s[i].addr),
        addrs_map(s)[s[i].addr] == s[i].expire,
{
    let a = s[i].addr;
    assert(exists|j: int| 0 <= j < s.len() && s[j].addr == a);
    let j = choose|j: int| 0 <= j < s.len() && s[j].addr == a;
    if i < j {
        assert(s[i].addr != s[j].addr);
    } else if j < i {
        assert(s[j].addr != s[i].addr);
    }
}

impl TorrentCache {
    /// The per-origin validity map this directory stands for.
    pub open spec fn trackers_view(&self) -> Map<Seq<u8>, u64> {
        trackers_map(self.trackers@)
    }

    /// The address-to-expiry map this directory stands for.
    pub open spec fn addrs_view(&self) -> Map<PeerAddr, u64> {
        addrs_map(self.peers_addr@)
    }

    /// Well-formedness: unique keys and addresses, the by-expiry index
    /// strictly sorted, and the two peer indices in bijection.
    pub open spec fn wf(&self) -> bool {
        &&& tracker_keys_unique(self.trackers@)
        &&& addrs_unique(self.peers_addr@)
        &&& peers_sorted(self.peers_time@)
        &&& forall|i: int|
            0 <= i < self.peers_time@.len() ==> self.addrs_view().contains_pair(
                self.peers_time@[i].addr,
                self.peers_time@[i].expire,
            )
        &&& forall|i: int|
            0 <= i < self.peers_addr@.len() ==> self.peers_time@.contains(
                Peer { expire: self.peers_addr@[i].expire, addr: self.peers_addr@[i].addr },
            )
    }

    /// The directory is valid for `origin_key` at `now` iff that origin is
    /// present and its expiry lies strictly in the future.
    pub open spec fn spec_is_valid_for(&self, origin_key: Seq<u8>, now: u64) -> bool {
        self.trackers_view().dom().contains(origin_key) && self.trackers_view()[origin_key] > now
    }

    /// A freshly created directory: empty, with the given size.
    pub fn empty(size: u64) -> (r: TorrentCache)
        ensures
            r.wf(),
            r.size == size,
            r.trackers_view() =~= Map::<Seq<u8>, u64>::empty(),
            r.addrs_view() =~= Map::<PeerAddr, u64>::empty(),
            r.trackers@.len() == 0,
            r.peers_time@.len() == 0,
            r.peers_addr@.len() == 0,
    {
        TorrentCache { size, trackers: Vec::new(), peers_time: Vec::new(), peers_addr: Vec::new() }
    }

    /// Index of the tracker entry for `key`, if one exists.
    fn find_tracker(&self, key: &Vec<u8>) -> (r: Option<usize>)
        ensures
            match r {
                Some(i) => i < self.trackers@.len() && self.trackers@[i as int].key@ == key@,
                None => forall|i: int| 0 <= i < self.trackers@.len() ==> self.trackers@[i].key@
                    != key@,
            },
    {
        let mut i: usize = 0;
        while i < self.trackers.len()
            invariant
                i <= self.trackers@.len(),
                forall|j: int| 0 <= j < i ==> self.trackers@[j].key@ != key@,
            decreases self.trackers@.len() - i,
        {
            if bytes_eq(&self.trackers[i].key, key) {
                return Some(i);
            }
            i = i + 1;
        }
        None
    }

    /// Looks up the validity expiry recorded for `origin_key`.
    pub fn tracker_expiry(&self, origin_key: &Vec<u8>) -> (r: Option<u64>)
        requires
            self.wf(),
        ensures
            match r {
                Some(e) => self.trackers_view().dom().contains(origin_key@)
                    && self.trackers_view()[origin_key@] == e,
                None => !self.trackers_view().dom().contains(origin_key@),
            },
    {
        match self.find_tracker(origin_key) {
            Some(i) => {
                proof {
                    lemma_trackers_map_entry(self.trackers@, i as int);
                }
                Some(self.trackers[i].expire)
            },
            None => None,
        }
    }

    /// Whether this directory may be served for `origin_key` at `now`.
    pub fn is_valid_for(&self, origin_key: &Vec<u8>, now: u64) -> (r: bool)
        requires
            self.wf(),
        ensures
            r == self.spec_is_valid_for(origin_key@, now),
    {
        match self.tracker_expiry(origin_key) {
            Some(e) => e > now,
            None => false,
        }
    }

    /// Unconditionally records `expire` as the validity bound for `origin_key`.
    pub fn set_tracker_validity(&mut self, origin_key: &Vec<u8>, expire: u64)
        requires
            old(self).wf(),
        ensures
            final(self).wf(),
            final(self).trackers_view() == old(self).trackers_view().insert(origin_key@, expire),
            final(self).size == old(self).size,
            final(self).peers_time@ == old(self).peers_time@,
            final(self).peers_addr@ == old(self).peers_addr@,
    {
        let ghost pre = self.trackers@;
        let ghost k0 = origin_key@;
        let found = self.find_tracker(origin_key);
        if let Some(i) = found {
            self.trackers.remove(i);
            proof {
                lemma_key_removed(pre, self.trackers@, i as int);
            }
        } else {
            proof {
                assert(key_removed(pre, self.trackers@, k0));
            }
        }
        let ghost mid = self.trackers@;
        let entry = TrackerEntry { key: origin_key.clone(), expire };
        self.trackers.push(entry);
        proof {
            let s = self.trackers@;
            // Uniqueness: `mid` had no entry for the key.
            assert forall|p: int, q: int| 0 <= p < q < s.len() implies s[p].key@ != s[q].key@ by {
                if q < mid.len() as int {
                    assert(mid[p].key@ != mid[q].key@);
                } else {
                    assert(mid[p].key@ != k0);
                }
            }
            // The represented map gained (or replaced) exactly this key.
            let m_new = trackers_map(s);
            let m_pre = trackers_map(pre);
            let m_goal = m_pre.insert(k0, expire);
            assert forall|k: Seq<u8>| #[trigger] m_new.dom().contains(k)
                implies m_goal.dom().contains(k) && m_new[k] == m_goal[k] by {
                let j = choose|j: int| 0 <= j < s.len() && s[j].key@ == k;
                lemma_trackers_map_entry(s, j);
                if k == k0 {
                    lemma_trackers_map_entry(s, s.len() - 1);
                } else {
                    assert(s[j].key@ == k && j < mid.len() && mid[j] == s[j]);
                    assert(trackers_map(mid).dom().contains(k));
                    assert(m_pre.dom().contains(k) && m_pre[k] == trackers_map(mid)[k]);
                    lemma_trackers_map_entry(mid, j);
                }
            }
            assert forall|k: Seq<u8>| #[trigger] m_goal.dom().contains(k)
                implies m_new.dom().contains(k) by {
                if k == k0 {
                    assert(s[s.len() - 1].key@ == k);
                } else {
                    assert(m_pre.dom().contains(k));
                    assert(trackers_map(mid).dom().contains(k));
                    let j = choose|j: int| 0 <= j < mid.len() && mid[j].key@ == k;
                    assert(s[j].key@ == k);
                }
            }
            assert(m_new =~= m_goal);
        }
    }
}

/// What removing the (sole) entry for `k0` leaves behind: unique keys, no
/// entry for `k0`, and the same mapping for every other key.
pub open spec fn key_removed(pre: Seq<TrackerEntry>, mid: Seq<TrackerEntry>, k0: Seq<u8>) -> bool {
    &&& tracker_keys_unique(mid)
    &&& forall|j: int| 0 <= j < mid.len() ==> mid[j].key@ != k0
    &&& forall|k: Seq<u8>|
        k != k0 ==> (#[trigger] trackers_map(mid).dom().contains(k) <==> trackers_map(
            pre,
        ).dom().contains(k))
    &&& forall|k: Seq<u8>|
        k != k0 && #[trigger] trackers_map(pre).dom().contains(k) ==> trackers_map(mid)[k]
            == trackers_map(pre)[k]
}

/// Removing entry `i` from a unique-keyed sequence removes exactly its key.
pub proof fn lemma_key_removed(pre: Seq<TrackerEntry>, mid: Seq<TrackerEntry>, i: int)
    requires
        tracker_keys_unique(pre),
        0 <= i < pre.len(),
        mid == pre.remove(i),
    ensures
        key_removed(pre, mid, pre[i].key@),
{
    let k0 = pre[i].key@;
    assert forall|p: int, q: int| 0 <= p < q < mid.len() implies mid[p].key@ != mid[q].key@ by {
        let p0 = if p < i { p } else { p + 1 };
        let q0 = if q < i { q } else { q + 1 };
        assert(pre[p0].key@ != pre[q0].key@);
    }
    assert forall|j: int| 0 <= j < mid.len() implies mid[j].key@ != k0 by {
        let j0 = if j < i { j } else { j + 1 };
        if j0 < i {
            assert(pre[j0].key@ != pre[i].key@);
        } else {
            assert(pre[i].key@ != pre[j0].key@);
        }
    }
    assert forall|k: Seq<u8>| k != k0 implies (#[trigger] trackers_map(mid).dom().contains(k)
        <==> trackers_map(pre).dom().contains(k)) by {
        if trackers_map(mid).dom().contains(k) {
            let j = choose|j: int| 0 <= j < mid.len() && mid[j].key@ == k;
            let j0 = if j < i { j } else { j + 1 };
            assert(pre[j0].key@ == k);
        }
        if trackers_map(pre).dom().contains(k) {
            let p = choose|p: int| 0 <= p < pre.len() && pre[p].key@ == k;
            assert(p != i);
            let j = if p < i { p } else { p - 1 };
            assert(mid[j].key@ == k);
        }
    }
    assert forall|k: Seq<u8>| k != k0 && #[trigger] trackers_map(pre).dom().contains(k)
        implies trackers_map(mid)[k] == trackers_map(pre)[k] by {
        let p = choose|p: int| 0 <= p < pre.len() && pre[p].key@ == k;
        assert(p != i);
        let j = if p < i { p } else { p - 1 };
        assert(mid[j] == pre[p]);
        lemma_trackers_map_entry(pre, p);
        lemma_trackers_map_entry(mid, j);
    }
}

} // verus!

verus! {

/// What detaching every trace of address `a0` leaves behind: both indices
/// still well-formed and in bijection, neither mentioning `a0`, and the
/// by-address mapping unchanged for every other address.
pub open spec fn detached(
    pre_a: Seq<AddrEntry>,
    mid_a: Seq<AddrEntry>,
    mid_t: Seq<Peer>,
    a0: PeerAddr,
) -> bool {
    &&& addrs_unique(mid_a)
    &&& forall|i: int| 0 <= i < mid_a.len() ==> mid_a[i].addr != a0
    &&& peers_sorted(mid_t)
    &&& forall|i: int| 0 <= i < mid_t.len() ==> mid_t[i].addr != a0
    &&& forall|i: int|
        0 <= i < mid_t.len() ==> addrs_map(mid_a).contains_pair(mid_t[i].addr, mid_t[i].expire)
    &&& forall|i: int|
        0 <= i < mid_a.len() ==> mid_t.contains(
            Peer { expire: mid_a[i].expire, addr: mid_a[i].addr },
        )
    &&& forall|a: PeerAddr|
        a != a0 ==> (#[trigger] addrs_map(mid_a).dom().contains(a) <==> addrs_map(
            pre_a,
        ).dom().contains(a))
    &&& forall|a: PeerAddr|
        a != a0 && #[trigger] addrs_map(pre_a).dom().contains(a) ==> addrs_map(mid_a)[a]
            == addrs_map(pre_a)[a]
}

/// Removing entry `i` from a unique-addressed sequence removes exactly its
/// address from the mapping it stands for.
pub proof fn lemma_addr_removed(pre: Seq<AddrEntry>, mid: Seq<AddrEntry>, i: int)
    requires
        addrs_unique(pre),
        0 <= i < pre.len(),
        mid == pre.remove(i),
    ensures
        addrs_unique(mid),
        forall|j: int| 0 <= j < mid.len() ==> mid[j].addr != pre[i].addr,
        forall|a: PeerAddr|
            a != pre[i].addr ==> (#[trigger] addrs_map(mid).dom().contains(a) <==> addrs_map(
                pre,
            ).dom().contains(a)),
        forall|a: PeerAddr|
            a != pre[i].addr && #[trigger] addrs_map(pre).dom().contains(a) ==> addrs_map(mid)[a]
                == addrs_map(pre)[a],
{
    let a0 = pre[i].addr;
    assert forall|p: int, q: int| 0 <= p < q < mid.len() implies mid[p].addr != mid[q].addr by {
        let p0 = if p < i { p } else { p + 1 };
        let q0 = if q < i { q } else { q + 1 };
        assert(pre[p0].addr != pre[q0].addr);
    }
    assert forall|j: int| 0 <= j < mid.len() implies mid[j].addr != a0 by {
        let j0 = if j < i { j } else { j + 1 };
        if j0 < i {
            assert(pre[j0].addr != pre[i].addr);
        } else {
            assert(pre[i].addr != pre[j0].addr);
        }
    }
    assert forall|a: PeerAddr| a != a0 implies (#[trigger] addrs_map(mid).dom().contains(a)
        <==> addrs_map(pre).dom().contains(a)) by {
        if addrs_map(mid).dom().contains(a) {
            let j = choose|j: int| 0 <= j < mid.len() && mid[j].addr == a;
            let j0 = if j < i { j } else { j + 1 };
            assert(pre[j0].addr == a);
        }
        if addrs_map(pre).dom().contains(a) {
            let p = choose|p: int| 0 <= p < pre.len() && pre[p].addr == a;
            assert(p != i);
            let j = if p < i { p } else { p - 1 };
            assert(mid[j].addr == a);
        }
    }
    assert forall|a: PeerAddr| a != a0 && #[trigger] addrs_map(pre).dom().contains(a)
        implies addrs_map(mid)[a] == addrs_map(pre)[a] by {
        let p = choose|p: int| 0 <= p < pre.len() && pre[p].addr == a;
        assert(p != i);
        let j = if p < i { p } else { p - 1 };
        assert(mid[j] == pre[p]);
        lemma_addrs_map_entry(pre, p);
        lemma_addrs_map_entry(mid, j);
    }
}

/// Removing one entry of a strictly sorted peer sequence keeps it sorted and
/// removes exactly that peer from the membership.
pub proof fn lemma_sorted_remove(s: Seq<Peer>, j: int)
    requires
        peers_sorted(s),
        0 <= j < s.len(),
    ensures
        peers_sorted(s.remove(j)),
        forall|p: Peer| #[trigger] s.remove(j).contains(p) <==> (s.contains(p) && p != s[j]),
{
    let t = s.remove(j);
    assert forall|p: int, q: int| 0 <= p < q < t.len() implies peer_lt(t[p], t[q]) by {
        let p0 = if p < j { p } else { p + 1 };
        let q0 = if q < j { q } else { q + 1 };
        assert(peer_lt(s[p0], s[q0]));
    }
    assert forall|p: Peer| #[trigger] t.contains(p) implies s.contains(p) && p != s[j] by {
        let m = choose|m: int| 0 <= m < t.len() && t[m] == p;
        let m0 = if m < j { m } else { m + 1 };
        assert(s[m0] == p);
        if m0 < j {
            lemma_peer_lt_trichotomy(s[m0], s[j]);
        } else {
            lemma_peer_lt_trichotomy(s[j], s[m0]);
        }
    }
    assert forall|p: Peer| s.contains(p) && p != s[j] implies #[trigger] t.contains(p) by {
        let m0 = choose|m0: int| 0 <= m0 < s.len() && s[m0] == p;
        let m = if m0 < j { m0 } else { m0 - 1 };
        assert(t[m] == p);
    }
}

impl TorrentCache {
    /// Index of the by-address entry for `addr`, if present.
    fn find_addr(&self, addr: &PeerAddr) -> (r: Option<usize>)
        ensures
            match r {
                Some(i) => i < self.peers_addr@.len() && self.peers_addr@[i as int].addr == *addr,
                None => forall|i: int|
                    0 <= i < self.peers_addr@.len() ==> self.peers_addr@[i].addr != *addr,
            },
    {
        let mut i: usize = 0;
        while i < self.peers_addr.len()
            invariant
                i <= self.peers_addr@.len(),
                forall|j: int| 0 <= j < i ==> self.peers_addr@[j].addr != *addr,
            decreases self.peers_addr@.len() - i,
        {
            if self.peers_addr[i].addr == *addr {
                return Some(i);
            }
            i = i + 1;
        }
        None
    }

    /// Index in the by-expiry index of exactly `p`, if present.
    fn find_peer(&self, p: &Peer) -> (r: Option<usize>)
        ensures
            match r {
                Some(i) => i < self.peers_time@.len() && self.peers_time@[i as int] == *p,
                None => !self.peers_time@.contains(*p),
            },
    {
        let mut i: usize = 0;
        while i < self.peers_time.len()
            invariant
                i <= self.peers_time@.len(),
                forall|j: int| 0 <= j < i ==> self.peers_time@[j] != *p,
            decreases self.peers_time@.len() - i,
        {
            if self.peers_time[i] == *p {
                return Some(i);
            }
            i = i + 1;
        }
        None
    }

    /// First position whose peer is not below `p`; inserting `p` there keeps
    /// the index sorted.
    fn insert_pos(&self, p: &Peer) -> (pos: usize)
        requires
            peers_sorted(self.peers_time@),
        ensures
            pos <= self.peers_time@.len(),
            forall|k: int| 0 <= k < pos ==> peer_lt(self.peers_time@[k], *p),
            forall|k: int| pos <= k < self.peers_time@.len() ==> !peer_lt(self.peers_time@[k], *p),
    {
        let mut pos: usize = 0;
        while pos < self.peers_time.len() && peer_is_lt(&self.peers_time[pos], p)
            invariant
                pos <= self.peers_time@.len(),
                peers_sorted(self.peers_time@),
                forall|k: int| 0 <= k < pos ==> peer_lt(self.peers_time@[k], *p),
            decreases self.peers_time@.len() - pos,
        {
            pos = pos + 1;
        }
        proof {
            assert forall|k: int| pos <= k < self.peers_time@.len() implies !peer_lt(
                self.peers_time@[k],
                *p,
            ) by {
                if k > pos && peer_lt(self.peers_time@[k], *p) {
                    assert(peer_lt(self.peers_time@[pos as int], self.peers_time@[k]));
                    crate::addr::lemma_peer_lt_transitive(
                        self.peers_time@[pos as int],
                        self.peers_time@[k],
                        *p,
                    );
                }
            }
        }
        pos
    }

    /// Inserts or refreshes a peer: after the call the directory maps `addr`
    /// to `expire`, every other address is untouched, and both indices are
    /// still in bijection.
    pub fn upsert(&mut self, addr: PeerAddr, expire: u64)
        requires
            old(self).wf(),
        ensures
            final(self).wf(),
            final(self).addrs_view() == old(self).addrs_view().insert(addr, expire),
            final(self).size == old(self).size,
            final(self).trackers@ == old(self).trackers@,
    {
        let ghost pre_a = self.peers_addr@;
        let ghost pre_t = self.peers_time@;
        if let Some(i) = self.find_addr(&addr) {
            let old_expire = self.peers_addr[i].expire;
            let target = Peer { expire: old_expire, addr };
            proof {
                assert(pre_t.contains(target));
            }
            let j = match self.find_peer(&target) {
                Some(j) => j,
                None => {
                    proof {
                        assert(false);
                    }
                    0
                },
            };
            self.peers_time.remove(j);
            self.peers_addr.remove(i);
            proof {
                lemma_addr_removed(pre_a, self.peers_addr@, i as int);
                lemma_sorted_remove(pre_t, j as int);
                let mid_a = self.peers_addr@;
                let mid_t = self.peers_time@;
                // No peer with this address survives: its only carrier was
                // `target`, by the bijection and address uniqueness.
                assert forall|m: int| 0 <= m < mid_t.len() implies mid_t[m].addr != addr by {
                    if mid_t[m].addr == addr {
                        assert(pre_t.contains(mid_t[m]));
                        assert(addrs_map(pre_a).contains_pair(mid_t[m].addr, mid_t[m].expire));
                        lemma_addrs_map_entry(pre_a, i as int);
                        assert(mid_t[m].expire == old_expire);
                        assert(mid_t[m] == target);
                        assert(!mid_t.contains(target));
                        assert(mid_t.contains(mid_t[m]));
                    }
                }
                // Bijection survives detachment.
                assert forall|m: int| 0 <= m < mid_t.len() implies addrs_map(
                    mid_a,
                ).contains_pair(mid_t[m].addr, mid_t[m].expire) by {
                    assert(pre_t.contains(mid_t[m]));
                    let p0 = choose|p0: int| 0 <= p0 < pre_t.len() && pre_t[p0] == mid_t[m];
                    assert(addrs_map(pre_a).contains_pair(mid_t[m].addr, mid_t[m].expire));
                    assert(mid_t[m].addr != addr);
                }
                assert forall|m: int| 0 <= m < mid_a.len() implies mid_t.contains(
                    Peer { expire: mid_a[m].expire, addr: mid_a[m].addr },
                ) by {
                    let m0 = if m < i as int { m } else { m + 1 };
                    assert(pre_a[m0] == mid_a[m]);
                    let q = Peer { expire: mid_a[m].expire, addr: mid_a[m].addr };
                    assert(pre_t.contains(q));
                    assert(q.addr != addr);
                    assert(q != target);
                }
                assert(detached(pre_a, mid_a, mid_t, addr));
            }
        } else {
            proof {
                let mid_a = self.peers_addr@;
                let mid_t = self.peers_time@;
                assert forall|m: int| 0 <= m < mid_t.len() implies mid_t[m].addr != addr by {
                    if mid_t[m].addr == addr {
                        assert(addrs_map(mid_a).contains_pair(mid_t[m].addr, mid_t[m].expire));
                        let w = choose|w: int| 0 <= w < mid_a.len() && mid_a[w].addr == addr;
                        assert(mid_a[w].addr != addr);
                    }
                }
                assert(detached(pre_a, mid_a, mid_t, addr));
            }
        }
        let ghost mid_a = self.peers_addr@;
        let ghost mid_t = self.peers_time@;
        self.peers_addr.push(AddrEntry { addr, expire });
        let newp = Peer { expire, addr };
        let pos = self.insert_pos(&newp);
        self.peers_time.insert(pos, newp);
        proof {
            let new_a = self.peers_addr@;
            let new_t = self.peers_time@;
            // Address uniqueness after the push.
            assert forall|p: int, q: int| 0 <= p < q < new_a.len() implies new_a[p].addr
                != new_a[q].addr by {
                if q < mid_a.len() as int {
                    assert(mid_a[p].addr != mid_a[q].addr);
                } else {
                    assert(mid_a[p].addr != addr);
                }
            }
            // Sortedness after the insert.
            assert forall|p: int, q: int| 0 <= p < q < new_t.len() implies peer_lt(
                new_t[p],
                new_t[q],
            ) by {
                let p0 = if p < pos as int { p } else { p - 1 };
                let q0 = if q < pos as int { q } else { q - 1 };
                if p == pos as int {
                    // new_t[p] is the new peer, q is after it.
                    assert(!peer_lt(mid_t[q0], newp));
                    assert(mid_t[q0].addr != addr);
                    lemma_peer_lt_trichotomy(mid_t[q0], newp);
                } else if q == pos as int {
                    assert(peer_lt(mid_t[p0], newp));
                } else if p < pos as int && q > pos as int {
                    assert(peer_lt(mid_t[p0], newp));
                    assert(!peer_lt(mid_t[q0], newp));
                    assert(mid_t[q0].addr != addr);
                    lemma_peer_lt_trichotomy(mid_t[q0], newp);
                    crate::addr::lemma_peer_lt_transitive(mid_t[p0], newp, mid_t[q0]);
                } else {
                    assert(peer_lt(mid_t[p0], mid_t[q0]));
                }
            }
            // The by-address map is exactly the old one plus this address.
            let m_new = addrs_map(new_a);
            let m_pre = addrs_map(pre_a);
            let m_goal = m_pre.insert(addr, expire);
            assert forall|a: PeerAddr| #[trigger] m_new.dom().contains(a)
                implies m_goal.dom().contains(a) && m_new[a] == m_goal[a] by {
                let j = choose|j: int| 0 <= j < new_a.len() && new_a[j].addr == a;
                lemma_addrs_map_entry(new_a, j);
                if a == addr {
                    lemma_addrs_map_entry(new_a, new_a.len() - 1);
                } else {
                    assert(new_a[j].addr == a && j < mid_a.len() && mid_a[j] == new_a[j]);
                    assert(addrs_map(mid_a).dom().contains(a));
                    assert(m_pre.dom().contains(a) && m_pre[a] == addrs_map(mid_a)[a]);
                    lemma_addrs_map_entry(mid_a, j);
                }
            }
            assert forall|a: PeerAddr| #[trigger] m_goal.dom().contains(a)
                implies m_new.dom().contains(a) by {
                if a == addr {
                    assert(new_a[new_a.len() - 1].addr == a);
                } else {
                    assert(m_pre.dom().contains(a));
                    assert(addrs_map(mid_a).dom().contains(a));
                    let j = choose|j: int| 0 <= j < mid_a.len() && mid_a[j].addr == a;
                    assert(new_a[j].addr == a);
                }
            }
            assert(m_new =~= m_goal);
            // Bijection: by-expiry entries are in the new map ...
            assert forall|m: int| 0 <= m < new_t.len() implies m_new.contains_pair(
                new_t[m].addr,
                new_t[m].expire,
            ) by {
                if m == pos as int {
                    assert(m_new.contains_pair(addr, expire));
                } else {
                    let m0 = if m < pos as int { m } else { m - 1 };
                    assert(mid_t[m0] == new_t[m]);
                    assert(addrs_map(mid_a).contains_pair(new_t[m].addr, new_t[m].expire));
                    assert(new_t[m].addr != addr);
                }
            }
            // ... and every map entry is carried by the by-expiry index.
            assert forall|m: int| 0 <= m < new_a.len() implies new_t.contains(
                Peer { expire: new_a[m].expire, addr: new_a[m].addr },
            ) by {
                if m == new_a.len() - 1 {
                    assert(new_t[pos as int] == newp);
                } else {
                    let q = Peer { expire: new_a[m].expire, addr: new_a[m].addr };
                    assert(mid_t.contains(q));
                    let w = choose|w: int| 0 <= w < mid_t.len() && mid_t[w] == q;
                    let w1 = if w < pos as int { w } else { w + 1 };
                    assert(new_t[w1] == q);
                }
            }
        }
    }
}

} // verus!

verus! {

/// Number of leading peers of a sorted by-expiry index that have expired at
/// `now` (expiry not in the future).
pub open spec fn expired_prefix_len(s: Seq<Peer>, now: u64) -> nat
    decreases s.len(),
{
    if s.len() == 0 {
        0
    } else if s[0].expire <= now {
        1 + expired_prefix_len(s.drop_first(), now)
    } else {
        0
    }
}

/// A boundary that splits expired from live peers is the expired prefix.
pub proof fn lemma_expired_prefix_is_cut(s: Seq<Peer>, now: u64, c: int)
    requires
        0 <= c <= s.len(),
        forall|j: int| 0 <= j < c ==> s[j].expire <= now,
        c < s.len() ==> s[c].expire > now,
    ensures
        expired_prefix_len(s, now) == c,
    decreases s.len(),
{
    if s.len() == 0 {
    } else if c == 0 {
    } else {
        assert(s[0].expire <= now);
        lemma_expired_prefix_is_cut(s.drop_first(), now, c - 1);
    }
}

/// The by-address entries that are still alive at `now`, in their original
/// order.
pub open spec fn filter_alive(s: Seq<AddrEntry>, now: u64) -> Seq<AddrEntry>
    decreases s.len(),
{
    if s.len() == 0 {
        Seq::empty()
    } else if s.last().expire > now {
        filter_alive(s.drop_last(), now).push(s.last())
    } else {
        filter_alive(s.drop_last(), now)
    }
}

/// The address map restricted to entries still alive at `now`.
pub open spec fn alive_map(m: Map<PeerAddr, u64>, now: u64) -> Map<PeerAddr, u64> {
    Map::new(|a: PeerAddr| m.dom().contains(a) && m[a] > now, |a: PeerAddr| m[a])
}

/// `filter_alive` keeps exactly the live entries and preserves uniqueness.
pub proof fn lemma_filter_alive(s: Seq<AddrEntry>, now: u64)
    requires
        addrs_unique(s),
    ensures
        addrs_unique(filter_alive(s, now)),
        forall|e: AddrEntry| #[trigger] filter_alive(s, now).contains(e) <==> (s.contains(e)
            && e.expire > now),
    decreases s.len(),
{
    if s.len() == 0 {
        assert forall|e: AddrEntry| #[trigger] filter_alive(s, now).contains(e) implies false by {}
    } else {
        let d = s.drop_last();
        assert(addrs_unique(d));
        lemma_filter_alive(d, now);
        let f = filter_alive(s, now);
        let fd = filter_alive(d, now);
        // Membership in `s` splits into the dropped prefix and the last entry.
        assert forall|e: AddrEntry| s.contains(e) implies d.contains(e) || e == s.last() by {
            let m = choose|m: int| 0 <= m < s.len() && s[m] == e;
            if m < s.len() - 1 {
                assert(d[m] == e);
            }
        }
        assert forall|e: AddrEntry| d.contains(e) implies s.contains(e) by {
            let m = choose|m: int| 0 <= m < d.len() && d[m] == e;
            assert(s[m] == e);
        }
        if s.last().expire > now {
            assert forall|e: AddrEntry| #[trigger] f.contains(e) implies (s.contains(e)
                && e.expire > now) by {
                let m = choose|m: int| 0 <= m < f.len() && f[m] == e;
                if m < f.len() - 1 {
                    assert(fd[m] == e);
                    assert(fd.contains(e));
                }
            }
            assert forall|e: AddrEntry| s.contains(e) && e.expire > now implies #[trigger] f
                .contains(e) by {
                if e == s.last() {
                    assert(f[f.len() - 1] == e);
                } else {
                    assert(d.contains(e));
                    assert(fd.contains(e));
                    let m = choose|m: int| 0 <= m < fd.len() && fd[m] == e;
                    assert(f[m] == e);
                }
            }
            // Uniqueness: the appended entry's address is absent from `fd`.
            assert forall|p: int, q: int| 0 <= p < q < f.len() implies f[p].addr != f[q].addr by {
                if q < f.len() - 1 {
                    assert(fd[p].addr != fd[q].addr);
                } else {
                    assert(fd.contains(f[p]));
                    assert(d.contains(f[p]));
                    let m = choose|m: int| 0 <= m < d.len() && d[m] == f[p];
                    assert(s[m] == f[p]);
                    assert(s[m].addr != s[s.len() - 1].addr);
                }
            }
        } else {
            assert forall|e: AddrEntry| #[trigger] f.contains(e) implies (s.contains(e)
                && e.expire > now) by {
                assert(fd.contains(e));
            }
            assert forall|e: AddrEntry| s.contains(e) && e.expire > now implies #[trigger] f
                .contains(e) by {
                assert(e != s.last());
                assert(d.contains(e));
            }
        }
    }
}

impl TorrentCache {
    /// Removes every peer whose expiry is not in the future, from both
    /// indices.  Because the by-expiry index is sorted, the expired peers
    /// form a prefix of it.
    pub fn evict_expired(&mut self, now: u64)
        requires
            old(self).wf(),
        ensures
            final(self).wf(),
            final(self).size == old(self).size,
            final(self).trackers@ == old(self).trackers@,
            final(self).peers_time@ == old(self).peers_time@.skip(
                expired_prefix_len(old(self).peers_time@, now) as int,
            ),
            forall|i: int|
                0 <= i < final(self).peers_time@.len() ==> final(self).peers_time@[i].expire > now,
            final(self).addrs_view() == alive_map(old(self).addrs_view(), now),
            final(self).peers_addr@ == filter_alive(old(self).peers_addr@, now),
    {
        let ghost pre_t = self.peers_time@;
        let ghost pre_a = self.peers_addr@;
        let mut cut: usize = 0;
        while cut < self.peers_time.len() && self.peers_time[cut].expire <= now
            invariant
                cut <= self.peers_time@.len(),
                self.peers_time@ == pre_t,
                forall|j: int| 0 <= j < cut ==> pre_t[j].expire <= now,
            decreases self.peers_time@.len() - cut,
        {
            cut = cut + 1;
        }
        proof {
            lemma_expired_prefix_is_cut(pre_t, now, cut as int);
        }
        let tail = self.peers_time.split_off(cut);
        self.peers_time = tail;
        proof {
            assert(self.peers_time@ =~= pre_t.skip(cut as int));
            // Everything kept is alive: the index is sorted by expiry first.
            assert forall|i: int| 0 <= i < self.peers_time@.len() implies self.peers_time@[i].expire
                > now by {
                if i > 0 {
                    assert(peer_lt(pre_t[cut as int], pre_t[cut + i]));
                }
            }
        }
        let mut kept: Vec<AddrEntry> = Vec::new();
        let mut i: usize = 0;
        while i < self.peers_addr.len()
            invariant
                i <= self.peers_addr@.len(),
                self.peers_addr@ == pre_a,
                kept@ == filter_alive(pre_a.subrange(0, i as int), now),
            decreases self.peers_addr@.len() - i,
        {
            proof {
                assert(pre_a.subrange(0, i + 1 as int).drop_last() =~= pre_a.subrange(0, i as int));
            }
            let e = self.peers_addr[i];
            if e.expire > now {
                kept.push(e);
            }
            i = i + 1;
        }
        proof {
            assert(pre_a.subrange(0, pre_a.len() as int) =~= pre_a);
        }
        self.peers_addr = kept;
        proof {
            lemma_filter_alive(pre_a, now);
            let new_a = self.peers_addr@;
            let new_t = self.peers_time@;
            // Map equality with the alive restriction.
            let m_new = addrs_map(new_a);
            let m_goal = alive_map(addrs_map(pre_a), now);
            assert forall|a: PeerAddr| #[trigger] m_new.dom().contains(a)
                implies m_goal.dom().contains(a) && m_new[a] == m_goal[a] by {
                let j = choose|j: int| 0 <= j < new_a.len() && new_a[j].addr == a;
                lemma_addrs_map_entry(new_a, j);
                assert(new_a.contains(new_a[j]));
                assert(pre_a.contains(new_a[j]) && new_a[j].expire > now);
                let p = choose|p: int| 0 <= p < pre_a.len() && pre_a[p] == new_a[j];
                lemma_addrs_map_entry(pre_a, p);
            }
            assert forall|a: PeerAddr| #[trigger] m_goal.dom().contains(a)
                implies m_new.dom().contains(a) by {
                let p = choose|p: int| 0 <= p < pre_a.len() && pre_a[p].addr == a;
                lemma_addrs_map_entry(pre_a, p);
                assert(pre_a.contains(pre_a[p]));
                assert(new_a.contains(pre_a[p]));
                let j = choose|j: int| 0 <= j < new_a.len() && new_a[j] == pre_a[p];
                assert(new_a[j].addr == a);
            }
            assert(m_new =~= m_goal);
            // Bijection, both directions.
            assert forall|m: int| 0 <= m < new_t.len() implies m_new.contains_pair(
                new_t[m].addr,
                new_t[m].expire,
            ) by {
                assert(new_t[m] == pre_t[cut + m]);
                assert(addrs_map(pre_a).contains_pair(new_t[m].addr, new_t[m].expire));
                let p = choose|p: int| 0 <= p < pre_a.len() && pre_a[p].addr == new_t[m].addr;
                lemma_addrs_map_entry(pre_a, p);
                assert(pre_a[p].expire == new_t[m].expire);
                assert(pre_a.contains(pre_a[p]));
                assert(new_a.contains(pre_a[p]));
                let j = choose|j: int| 0 <= j < new_a.len() && new_a[j] == pre_a[p];
                lemma_addrs_map_entry(new_a, j);
            }
            assert forall|m: int| 0 <= m < new_a.len() implies new_t.contains(
                Peer { expire: new_a[m].expire, addr: new_a[m].addr },
            ) by {
                assert(new_a.contains(new_a[m]));
                assert(pre_a.contains(new_a[m]) && new_a[m].expire > now);
                let p = choose|p: int| 0 <= p < pre_a.len() && pre_a[p] == new_a[m];
                let q = Peer { expire: new_a[m].expire, addr: new_a[m].addr };
                assert(pre_t.contains(q));
                let w = choose|w: int| 0 <= w < pre_t.len() && pre_t[w] == q;
                if w < cut as int {
                    assert(pre_t[w].expire <= now);
                } else {
                    assert(new_t[w - cut] == q);
                }
            }
        }
    }
}

} // verus!

verus! {

/// A sequence whose entries are all alive is untouched by the filter.
pub proof fn lemma_filter_alive_identity(s: Seq<AddrEntry>, now: u64)
    requires
        forall|i: int| 0 <= i < s.len() ==> s[i].expire > now,
    ensures
        filter_alive(s, now) == s,
    decreases s.len(),
{
    if s.len() > 0 {
        lemma_filter_alive_identity(s.drop_last(), now);
        assert(filter_alive(s, now) =~= s);
    } else {
        assert(filter_alive(s, now) =~= s);
    }
}

/// Evicting expired peers is idempotent: a directory out of `evict_expired`
/// has only live peers, and evicting it again at the same instant changes
/// nothing — the expired prefix is empty, the by-address filter keeps every
/// entry, and the restricted map is the map itself.
pub proof fn lemma_evict_idempotent(d: TorrentCache, now: u64)
    requires
        d.wf(),
        forall|i: int| 0 <= i < d.peers_time@.len() ==> d.peers_time@[i].expire > now,
    ensures
        expired_prefix_len(d.peers_time@, now) == 0,
        d.peers_time@.skip(0) == d.peers_time@,
        filter_alive(d.peers_addr@, now) == d.peers_addr@,
        alive_map(d.addrs_view(), now) == d.addrs_view(),
{
    assert(d.peers_time@.skip(0) =~= d.peers_time@);
    assert forall|i: int| 0 <= i < d.peers_addr@.len() implies d.peers_addr@[i].expire > now by {
        let q = Peer { expire: d.peers_addr@[i].expire, addr: d.peers_addr@[i].addr };
        assert(d.peers_time@.contains(q));
        let w = choose|w: int| 0 <= w < d.peers_time@.len() && d.peers_time@[w] == q;
        assert(d.peers_time@[w].expire > now);
    }
    lemma_filter_alive_identity(d.peers_addr@, now);
    let m = d.addrs_view();
    assert forall|a: PeerAddr| #[trigger] m.dom().contains(a) implies m[a] > now by {
        let j = choose|j: int| 0 <= j < d.peers_addr@.len() && d.peers_addr@[j].addr == a;
        lemma_addrs_map_entry(d.peers_addr@, j);
    }
    assert(alive_map(m, now) =~= m);
}

} // verus!

verus! {

/// Two strictly sorted peer sequences with the same members are the same
/// sequence.
pub proof fn lemma_sorted_unique_seq(a: Seq<Peer>, b: Seq<Peer>)
    requires
        peers_sorted(a),
        peers_sorted(b),
        forall|p: Peer| a.contains(p) <==> b.contains(p),
    ensures
        a == b,
    decreases a.len(),
{
    if a.len() == 0 {
        if b.len() > 0 {
            assert(b.contains(b.last()));
            assert(a.contains(b.last()));
        }
        assert(a =~= b);
    } else {
        assert(a.contains(a.last()));
        assert(b.contains(a.last()));
        assert(b.len() > 0);
        assert(b.contains(b.last()));
        assert(a.contains(b.last()));
        // Each last element is its sequence's maximum, so they coincide.
        let ia = choose|i: int| 0 <= i < a.len() && a[i] == b.last();
        if ia < a.len() - 1 {
            assert(peer_lt(a[ia], a.last()));
        }
        let ib = choose|i: int| 0 <= i < b.len() && b[i] == a.last();
        if ib < b.len() - 1 {
            assert(peer_lt(b[ib], b.last()));
        }
        crate::addr::lemma_peer_lt_trichotomy(a.last(), b.last());
        assert(a.last() == b.last());
        lemma_sorted_remove(a, a.len() - 1);
        lemma_sorted_remove(b, b.len() - 1);
        assert(a.remove(a.len() - 1) =~= a.drop_last());
        assert(b.remove(b.len() - 1) =~= b.drop_last());
        assert forall|p: Peer| a.drop_last().contains(p) implies b.drop_last().contains(p) by {
            assert(a.remove(a.len() - 1).contains(p));
            assert(a.contains(p) && p != a[a.len() - 1]);
            assert(b.contains(p));
            assert(b.remove(b.len() - 1).contains(p));
        }
        assert forall|p: Peer| b.drop_last().contains(p) implies a.drop_last().contains(p) by {
            assert(b.remove(b.len() - 1).contains(p));
            assert(b.contains(p) && p != b[b.len() - 1]);
            assert(a.contains(p));
            assert(a.remove(a.len() - 1).contains(p));
        }
        lemma_sorted_unique_seq(a.drop_last(), b.drop_last());
        assert(a.len() == b.len());
        assert forall|i: int| 0 <= i < a.len() implies a[i] == b[i] by {
            if i < a.len() - 1 {
                assert(a.drop_last()[i] == b.drop_last()[i]);
            } else {
                assert(a[i] == a.last() && b[i] == b.last());
            }
        }
        assert(a =~= b);
    }
}

/// The by-expiry index is canonical: it is fully determined by the
/// by-address map.  Two well-formed directories that agree on that map have
/// identical by-expiry indices — this is what makes a stored-then-reloaded
/// directory "equal modulo index representation".
pub proof fn lemma_peers_index_canonical(a: TorrentCache, b: TorrentCache)
    requires
        a.wf(),
        b.wf(),
        a.addrs_view() == b.addrs_view(),
    ensures
        a.peers_time@ == b.peers_time@,
{
    assert forall|p: Peer| a.peers_time@.contains(p) implies b.peers_time@.contains(p) by {
        let i = choose|i: int| 0 <= i < a.peers_time@.len() && a.peers_time@[i] == p;
        assert(a.addrs_view().contains_pair(p.addr, p.expire));
        assert(b.addrs_view().contains_pair(p.addr, p.expire));
        let j = choose|j: int| 0 <= j < b.peers_addr@.len() && b.peers_addr@[j].addr == p.addr;
        lemma_addrs_map_entry(b.peers_addr@, j);
        assert(b.peers_addr@[j].expire == p.expire);
        assert(b.peers_time@.contains(
            Peer { expire: b.peers_addr@[j].expire, addr: b.peers_addr@[j].addr },
        ));
    }
    assert forall|p: Peer| b.peers_time@.contains(p) implies a.peers_time@.contains(p) by {
        let i = choose|i: int| 0 <= i < b.peers_time@.len() && b.peers_time@[i] == p;
        assert(b.addrs_view().contains_pair(p.addr, p.expire));
        assert(a.addrs_view().contains_pair(p.addr, p.expire));
        let j = choose|j: int| 0 <= j < a.peers_addr@.len() && a.peers_addr@[j].addr == p.addr;
        lemma_addrs_map_entry(a.peers_addr@, j);
        assert(a.peers_addr@[j].expire == p.expire);
        assert(a.peers_time@.contains(
            Peer { expire: a.peers_addr@[j].expire, addr: a.peers_addr@[j].addr },
        ));
    }
    lemma_sorted_unique_seq(a.peers_time@, b.peers_time@);
}

} // verus!
