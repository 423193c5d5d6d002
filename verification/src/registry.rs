//! The per-info-hash lock registry.
//!
//! A process-global mapping from info-hash key to a readers/writer lock state
//! plus a reference count.  An entry is created lazily by its first acquirer
//! and removed as soon as its reference count returns to zero, so the map
//! never retains an entry nobody holds.  The registry itself is guarded by a
//! short-duration mutex; this module models the state that mutex protects,
//! and every transition an acquirer or releaser performs under it.

use vstd::prelude::*;

use crate::bstr::bytes_eq;

verus! {

/// Lock state and reference count of one key.
#[derive(Clone, Copy, PartialEq, Eq, Structural, Debug)]
pub struct RegState {
    /// Live outer guards (acquirers that have not released).
    pub refcount: u64,
    /// Readers currently holding the inner lock.
    pub readers: u64,
    /// Whether a writer currently holds the inner lock.
    pub writer: bool,
}

/// One registry entry.
pub struct RegEntry {
    pub key: Vec<u8>,
    pub state: RegState,
}

/// The process-global registry.
pub struct LockRegistry {
    pub entries: Vec<RegEntry>,
}

/// No two entries share a key.
pub open spec fn reg_keys_unique(s: Seq<RegEntry>) -> bool {
    forall|i: int, j: int| 0 <= i < j < s.len() ==> s[i].key@ != s[j].key@
}

/// The mapping a registry entry sequence stands for.
pub open spec fn reg_map(s: Seq<RegEntry>) -> Map<Seq<u8>, RegState> {
    Map::new(
        |k: Seq<u8>| exists|i: int| 0 <= i < s.len() && s[i].key@ == k,
        |k: Seq<u8>|
            s[choose|i: int| 0 <= i < s.len() && s[i].key@ == k].state,
    )
}

/// With unique keys, entry `i` is exactly what the map says about its key.
pub proof fn lemma_reg_map_entry(s: Seq<RegEntry>, i: int)
    requires
        reg_keys_unique(s),
        0 <= i < s.len(),
    ensures
        reg_map(s).dom().contains(s[i].key@),
        reg_map(s)[s[i].key@] == s[i].state,
{
    let k = s[i].key@;
    assert(exists|j: int| 0 <= j < s.len() && s[j].key@ == k);
    let j = choose|j: int| 0 <= j < s.len() && s[j].key@ == k;
    if i < j {
        assert(s[i].key@ != s[j].key@);
    } else if j < i {
        assert(s[j].key@ != s[i].key@);
    }
}

/// A lock state an entry may legally be in: somebody holds a guard on it,
/// and a writer excludes every reader.
pub open spec fn state_wf(st: RegState) -> bool {
    &&& st.refcount >= 1
    &&& st.writer ==> st.readers == 0
}

impl LockRegistry {
    /// The key-to-state map this registry stands for.
    pub open spec fn view_map(&self) -> Map<Seq<u8>, RegState> {
        reg_map(self.entries@)
    }

    /// Well-formedness: unique keys, and every entry held by someone.  In
    /// particular no entry with a zero reference count is ever observable.
    pub open spec fn wf(&self) -> bool {
        &&& reg_keys_unique(self.entries@)
        &&& forall|i: int| 0 <= i < self.entries@.len() ==> state_wf(self.entries@[i].state)
    }

    /// An empty registry.
    pub fn new() -> (r: LockRegistry)
        ensures
            r.wf(),
            r.view_map() =~= Map::<Seq<u8>, RegState>::empty(),
    {
        LockRegistry { entries: Vec::new() }
    }

    /// Index of the entry for `key`, if present.
    fn find(&self, key: &Vec<u8>) -> (r: Option<usize>)
        ensures
            match r {
                Some(i) => i < self.entries@.len() && self.entries@[i as int].key@ == key@,
                None => forall|i: int| 0 <= i < self.entries@.len() ==> self.entries@[i].key@
                    != key@,
            },
    {
        let mut i: usize = 0;
        while i < self.entries.len()
            invariant
                i <= self.entries@.len(),
                forall|j: int| 0 <= j < i ==> self.entries@[j].key@ != key@,
            decreases self.entries@.len() - i,
        {
            if bytes_eq(&self.entries[i].key, key) {
                return Some(i);
            }
            i = i + 1;
        }
        None
    }

    /// The state recorded for `key`, if any.
    pub fn state_of(&self, key: &Vec<u8>) -> (r: Option<RegState>)
        requires
            self.wf(),
        ensures
            match r {
                Some(st) => self.view_map().dom().contains(key@) && self.view_map()[key@] == st
                    && state_wf(st),
                None => !self.view_map().dom().contains(key@),
            },
    {
        match self.find(key) {
            Some(i) => {
                proof {
                    lemma_reg_map_entry(self.entries@, i as int);
                }
                Some(self.entries[i].state)
            },
            None => None,
        }
    }

    /// Replaces (or creates) the entry for `key` with the given state.
    fn set_state(&mut self, key: &Vec<u8>, st: RegState)
        requires
            old(self).wf(),
            state_wf(st),
        ensures
            final(self).wf(),
            final(self).view_map() == old(self).view_map().insert(key@, st),
    {
        let ghost pre = self.entries@;
        let ghost k0 = key@;
        let found = self.find(key);
        if let Some(i) = found {
            self.entries.remove(i);
            proof {
                lemma_reg_key_removed(pre, self.entries@, i as int);
            }
        } else {
            proof {
                assert(reg_key_removed(pre, self.entries@, k0));
            }
        }
        let ghost mid = self.entries@;
        let entry = RegEntry { key: key.clone(), state: st };
        self.entries.push(entry);
        proof {
            let s = self.entries@;
            assert forall|p: int, q: int| 0 <= p < q < s.len() implies s[p].key@ != s[q].key@ by {
                if q < mid.len() as int {
                    assert(mid[p].key@ != mid[q].key@);
                } else {
                    assert(mid[p].key@ != k0);
                }
            }
            let m_new = reg_map(s);
            let m_pre = reg_map(pre);
            let m_goal = m_pre.insert(k0, st);
            assert forall|k: Seq<u8>| #[trigger] m_new.dom().contains(k)
                implies m_goal.dom().contains(k) && m_new[k] == m_goal[k] by {
                let j = choose|j: int| 0 <= j < s.len() && s[j].key@ == k;
                lemma_reg_map_entry(s, j);
                if k == k0 {
                    lemma_reg_map_entry(s, s.len() - 1);
                } else {
                    assert(s[j].key@ == k && j < mid.len() && mid[j] == s[j]);
                    assert(reg_map(mid).dom().contains(k));
                    assert(m_pre.dom().contains(k) && m_pre[k] == reg_map(mid)[k]);
                    lemma_reg_map_entry(mid, j);
                }
            }
            assert forall|k: Seq<u8>| #[trigger] m_goal.dom().contains(k)
                implies m_new.dom().contains(k) by {
                if k == k0 {
                    assert(s[s.len() - 1].key@ == k);
                } else {
                    assert(m_pre.dom().contains(k));
                    assert(reg_map(mid).dom().contains(k));
                    let j = choose|j: int| 0 <= j < mid.len() && mid[j].key@ == k;
                    assert(s[j].key@ == k);
                }
            }
            assert(m_new =~= m_goal);
        }
    }

    /// Locates or creates the entry for `key` and counts one more guard;
    /// step two of every acquisition, performed under the registry mutex.
    pub fn acquire_ref(&mut self, key: &Vec<u8>)
        requires
            old(self).wf(),
            old(self).view_map().dom().contains(key@) ==> old(self).view_map()[key@].refcount
                < u64::MAX,
        ensures
            final(self).wf(),
            final(self).view_map() == old(self).view_map().insert(
                key@,
                if old(self).view_map().dom().contains(key@) {
                    RegState {
                        refcount: (old(self).view_map()[key@].refcount + 1) as u64,
                        ..old(self).view_map()[key@]
                    }
                } else {
                    RegState { refcount: 1, readers: 0, writer: false }
                },
            ),
    {
        let st = match self.state_of(key) {
            Some(st) => RegState { refcount: st.refcount + 1, readers: st.readers, writer: st.writer },
            None => RegState { refcount: 1, readers: 0, writer: false },
        };
        self.set_state(key, st);
    }

    /// Uncounts one guard; removes the entry the instant nobody holds it, so
    /// a zero reference count is never left behind.
    pub fn release_ref(&mut self, key: &Vec<u8>)
        requires
            old(self).wf(),
            old(self).view_map().dom().contains(key@),
        ensures
            final(self).wf(),
            final(self).view_map() == (if old(self).view_map()[key@].refcount == 1 {
                old(self).view_map().remove(key@)
            } else {
                old(self).view_map().insert(
                    key@,
                    RegState {
                        refcount: (old(self).view_map()[key@].refcount - 1) as u64,
                        ..old(self).view_map()[key@]
                    },
                )
            }),
    {
        let ghost pre = self.entries@;
        let ghost k0 = key@;
        let found = self.find(key);
        if let Some(i) = found {
            proof {
                lemma_reg_map_entry(pre, i as int);
            }
            let st = self.entries[i].state;
            if st.refcount == 1 {
                self.entries.remove(i);
                proof {
                    lemma_reg_key_removed(pre, self.entries@, i as int);
                    let m_new = reg_map(self.entries@);
                    let m_goal = reg_map(pre).remove(k0);
                    assert forall|k: Seq<u8>| #[trigger] m_new.dom().contains(k)
                        implies m_goal.dom().contains(k) && m_new[k] == m_goal[k] by {}
                    assert forall|k: Seq<u8>| #[trigger] m_goal.dom().contains(k)
                        implies m_new.dom().contains(k) by {}
                    assert(m_new =~= m_goal);
                }
            } else {
                let new_st = RegState {
                    refcount: st.refcount - 1,
                    readers: st.readers,
                    writer: st.writer,
                };
                self.set_state(key, new_st);
            }
        } else {
            proof {
                assert(false);
            }
        }
    }

    /// Tries to take the inner lock for reading; succeeds iff no writer
    /// holds it.  Readers on the same key may proceed concurrently.
    pub fn try_lock_read(&mut self, key: &Vec<u8>) -> (r: bool)
        requires
            old(self).wf(),
            old(self).view_map().dom().contains(key@),
            old(self).view_map()[key@].readers < u64::MAX,
        ensures
            final(self).wf(),
            r == !old(self).view_map()[key@].writer,
            r ==> final(self).view_map() == old(self).view_map().insert(
                key@,
                RegState {
                    readers: (old(self).view_map()[key@].readers + 1) as u64,
                    ..old(self).view_map()[key@]
                },
            ),
            !r ==> final(self).view_map() == old(self).view_map(),
    {
        let st = match self.state_of(key) {
            Some(st) => st,
            None => {
                proof {
                    assert(false);
                }
                RegState { refcount: 1, readers: 0, writer: false }
            },
        };
        if st.writer {
            false
        } else {
            self.set_state(
                key,
                RegState { refcount: st.refcount, readers: st.readers + 1, writer: false },
            );
            true
        }
    }

    /// Tries to take the inner lock for writing; succeeds iff nobody holds
    /// it in either mode.  A writer excludes readers and other writers.
    pub fn try_lock_write(&mut self, key: &Vec<u8>) -> (r: bool)
        requires
            old(self).wf(),
            old(self).view_map().dom().contains(key@),
        ensures
            final(self).wf(),
            r == (!old(self).view_map()[key@].writer && old(self).view_map()[key@].readers == 0),
            r ==> final(self).view_map() == old(self).view_map().insert(
                key@,
                RegState { writer: true, ..old(self).view_map()[key@] },
            ),
            !r ==> final(self).view_map() == old(self).view_map(),
    {
        let st = match self.state_of(key) {
            Some(st) => st,
            None => {
                proof {
                    assert(false);
                }
                RegState { refcount: 1, readers: 0, writer: false }
            },
        };
        if !st.writer && st.readers == 0 {
            self.set_state(key, RegState { refcount: st.refcount, readers: 0, writer: true });
            true
        } else {
            false
        }
    }

    /// Releases the inner read lock.
    pub fn unlock_read(&mut self, key: &Vec<u8>)
        requires
            old(self).wf(),
            old(self).view_map().dom().contains(key@),
            old(self).view_map()[key@].readers >= 1,
        ensures
            final(self).wf(),
            final(self).view_map() == old(self).view_map().insert(
                key@,
                RegState {
                    readers: (old(self).view_map()[key@].readers - 1) as u64,
                    ..old(self).view_map()[key@]
                },
            ),
    {
        let st = match self.state_of(key) {
            Some(st) => st,
            None => {
                proof {
                    assert(false);
                }
                RegState { refcount: 1, readers: 0, writer: false }
            },
        };
        proof {
            assert(!st.writer);
        }
        self.set_state(
            key,
            RegState { refcount: st.refcount, readers: st.readers - 1, writer: false },
        );
    }

    /// Releases the inner write lock.
    pub fn unlock_write(&mut self, key: &Vec<u8>)
        requires
            old(self).wf(),
            old(self).view_map().dom().contains(key@),
            old(self).view_map()[key@].writer,
        ensures
            final(self).wf(),
            final(self).view_map() == old(self).view_map().insert(
                key@,
                RegState { writer: false, ..old(self).view_map()[key@] },
            ),
    {
        let st = match self.state_of(key) {
            Some(st) => st,
            None => {
                proof {
                    assert(false);
                }
                RegState { refcount: 1, readers: 0, writer: false }
            },
        };
        self.set_state(
            key,
            RegState { refcount: st.refcount, readers: st.readers, writer: false },
        );
    }
}

/// What removing the (sole) entry for `k0` leaves behind.
pub open spec fn reg_key_removed(pre: Seq<RegEntry>, mid: Seq<RegEntry>, k0: Seq<u8>) -> bool {
    &&& reg_keys_unique(mid)
    &&& forall|j: int| 0 <= j < mid.len() ==> mid[j].key@ != k0
    &&& forall|k: Seq<u8>|
        k != k0 ==> (#[trigger] reg_map(mid).dom().contains(k) <==> reg_map(pre).dom().contains(k))
    &&& forall|k: Seq<u8>|
        k != k0 && #[trigger] reg_map(pre).dom().contains(k) ==> reg_map(mid)[k] == reg_map(pre)[k]
    &&& forall|e: RegEntry| #[trigger] mid.contains(e) ==> pre.contains(e)
}

/// Removing entry `i` from a unique-keyed sequence removes exactly its key.
pub proof fn lemma_reg_key_removed(pre: Seq<RegEntry>, mid: Seq<RegEntry>, i: int)
    requires
        reg_keys_unique(pre),
        0 <= i < pre.len(),
        mid == pre.remove(i),
    ensures
        reg_key_removed(pre, mid, pre[i].key@),
{
    let k0 = pre[i].key@;
    assert forall|p: int, q: int| 0 <= p < q < mid.len() implies mid[p].key@ != mid[q].key@ by {
        let p0 = if p < i { p } else { p + 1 };
        let q0 = if q < i { q } else { q + 1 };
        assert(pre[p0].key@ != pre[q0].key@);
    }
    assert forall|j: int| 0 <= j < mid.len() implies mid[j].key@ != k0 by {
        let j0 = if j < i { j } else { j + 1 };
        if j0 < i {
            assert(pre[j0].key@ != pre[i].key@);
        } else {
            assert(pre[i].key@ != pre[j0].key@);
        }
    }
    assert forall|k: Seq<u8>| k != k0 implies (#[trigger] reg_map(mid).dom().contains(k) <==> reg_map(
        pre,
    ).dom().contains(k)) by {
        if reg_map(mid).dom().contains(k) {
            let j = choose|j: int| 0 <= j < mid.len() && mid[j].key@ == k;
            let j0 = if j < i { j } else { j + 1 };
            assert(pre[j0].key@ == k);
        }
        if reg_map(pre).dom().contains(k) {
            let p = choose|p: int| 0 <= p < pre.len() && pre[p].key@ == k;
            assert(p != i);
            let j = if p < i { p } else { p - 1 };
            assert(mid[j].key@ == k);
        }
    }
    assert forall|k: Seq<u8>| k != k0 && #[trigger] reg_map(pre).dom().contains(k)
        implies reg_map(mid)[k] == reg_map(pre)[k] by {
        let p = choose|p: int| 0 <= p < pre.len() && pre[p].key@ == k;
        assert(p != i);
        let j = if p < i { p } else { p - 1 };
        assert(mid[j] == pre[p]);
        lemma_reg_map_entry(pre, p);
        lemma_reg_map_entry(mid, j);
    }
    assert forall|e: RegEntry| #[trigger] mid.contains(e) implies pre.contains(e) by {
        let j = choose|j: int| 0 <= j < mid.len() && mid[j] == e;
        let j0 = if j < i { j } else { j + 1 };
        assert(pre[j0] == e);
    }
}

/// The registry never retains an entry with a zero reference count: every
/// observable entry is held by at least one live guard.
pub proof fn lemma_no_zero_refcount(reg: LockRegistry, k: Seq<u8>)
    requires
        reg.wf(),
        reg.view_map().dom().contains(k),
    ensures
        reg.view_map()[k].refcount >= 1,
{
    let j = choose|j: int| 0 <= j < reg.entries@.len() && reg.entries@[j].key@ == k;
    lemma_reg_map_entry(reg.entries@, j);
}

/// Operations on one key leave every other key's state untouched: distinct
/// info-hashes never serialize on each other in the registry.
pub proof fn lemma_keys_independent(m: Map<Seq<u8>, RegState>, k: Seq<u8>, st: RegState, other: Seq<u8>)
    requires
        other != k,
    ensures
        m.insert(k, st).dom().contains(other) == m.dom().contains(other),
        m.dom().contains(other) ==> m.insert(k, st)[other] == m[other],
        m.remove(k).dom().contains(other) == m.dom().contains(other),
        m.dom().contains(other) ==> m.remove(k)[other] == m[other],
{
}

} // verus!
