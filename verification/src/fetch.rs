//! The fetch coordinator: double-checked, single-flight refresh of one
//! torrent's directory.
//!
//! The flow is a state machine.  The driver owns everything that suspends —
//! lock waits, cache files, the upstream exchange, timeouts — and feeds the
//! outcome of each step back as an event; every decision between two
//! suspension points is taken here, and verified.  Reaching the upstream
//! announce requires the full event path: a read-locked load that found the
//! directory stale, then a write-locked reload that found it still stale —
//! so concurrent fetches of one info-hash coalesce into the writer's single
//! announce, while fetches of distinct info-hashes never meet.

use vstd::prelude::*;

use crate::addr::{PeerAddr, spec_v4_peer_at, spec_v6_peer_at, deserialize_peers_binary,
    deserialize_peers6_binary};
use crate::directory::{TorrentCache, alive_map, trackers_map};
use crate::errors::FetchError;
use crate::tracker::AnnounceResponse;

verus! {

/// Seconds a fetch may wait for an upstream connection permit.
pub const ADMISSION_TIMEOUT_SECS: u64 = 30;

/// Seconds an upstream announce may take.
pub const ORIGIN_TIMEOUT_SECS: u64 = 20;

/// The validity window granted by a refresh: the requested TTL, floored by
/// the origin's minimum announce interval (zero means no floor).
pub open spec fn spec_effective_ttl(ttl: u64, min_interval: Option<u64>) -> u64 {
    match min_interval {
        Option::Some(m) => if m > ttl {
            m
        } else {
            ttl
        },
        Option::None => ttl,
    }
}

/// The expiry instant a refresh at `now` grants, saturating at the end of
/// representable time.
pub open spec fn spec_expiry(now: u64, eff: u64) -> u64 {
    if now + eff > u64::MAX {
        u64::MAX
    } else {
        (now + eff) as u64
    }
}

/// The bytes of an optional field, absent meaning empty.
pub open spec fn opt_bytes(o: Option<Vec<u8>>) -> Seq<u8> {
    match o {
        Option::Some(v) => v@,
        Option::None => Seq::empty(),
    }
}

/// The peer addresses an announce reply carries: the IPv4 peers in order,
/// then the IPv6 peers in order.
pub open spec fn spec_decoded_peers(p4: Seq<u8>, p6: Seq<u8>) -> Seq<PeerAddr> {
    Seq::new(p4.len() / 6, |i: int| spec_v4_peer_at(p4, i)) + Seq::new(
        p6.len() / 18,
        |i: int| spec_v6_peer_at(p6, i),
    )
}

/// Upserting a run of addresses into a by-address map, all with one expiry.
pub open spec fn spec_upsert_all(m: Map<PeerAddr, u64>, addrs: Seq<PeerAddr>, e: u64) -> Map<
    PeerAddr,
    u64,
>
    decreases addrs.len(),
{
    if addrs.len() == 0 {
        m
    } else {
        spec_upsert_all(m, addrs.drop_last(), e).insert(addrs.last(), e)
    }
}

/// Everything the merge of one announce reply must establish.
pub open spec fn merged_ok(
    d: TorrentCache,
    base: TorrentCache,
    size: u64,
    origin_key: Seq<u8>,
    ttl: u64,
    resp: AnnounceResponse,
    now: u64,
) -> bool {
    let expiry = spec_expiry(now, spec_effective_ttl(ttl, resp.min_interval));
    &&& d.wf()
    &&& d.size == size
    &&& d.trackers_view() == base.trackers_view().insert(origin_key, expiry)
    &&& d.addrs_view() == spec_upsert_all(
        alive_map(base.addrs_view(), now),
        spec_decoded_peers(opt_bytes(resp.peers), opt_bytes(resp.peers6)),
        expiry,
    )
    &&& d.spec_is_valid_for(origin_key, now)
}

/// Whether the reply's compact peer strings are well formed.
pub open spec fn peers_well_formed(resp: AnnounceResponse) -> bool {
    opt_bytes(resp.peers).len() % 6 == 0 && opt_bytes(resp.peers6).len() % 18 == 0
}

/// Merges one announce reply into the directory being refreshed: adopt the
/// declared size, grant the origin its validity window, evict every expired
/// peer, then refresh or insert every announced peer with the new expiry.
/// A compact peer string of the wrong shape is a protocol error and leaves
/// no trace.
pub fn merge_response(
    base: TorrentCache,
    size: u64,
    origin_key: &Vec<u8>,
    ttl: u64,
    resp: &AnnounceResponse,
    now: u64,
) -> (r: Result<TorrentCache, FetchError>)
    requires
        base.wf(),
        ttl >= 1,
        now < u64::MAX,
    ensures
        match r {
            Ok(d) => peers_well_formed(*resp) && merged_ok(
                d,
                base,
                size,
                origin_key@,
                ttl,
                *resp,
                now,
            ),
            Err(e) => e == FetchError::OriginProtocol && !peers_well_formed(*resp),
        },
{
    let v4 = match &resp.peers {
        Some(bytes) => match deserialize_peers_binary(bytes.as_slice()) {
            Ok(v) => v,
            Err(e) => {
                return Err(e);
            },
        },
        None => Vec::new(),
    };
    let v6 = match &resp.peers6 {
        Some(bytes) => match deserialize_peers6_binary(bytes.as_slice()) {
            Ok(v) => v,
            Err(e) => {
                return Err(e);
            },
        },
        None => Vec::new(),
    };
    let ghost decoded = spec_decoded_peers(opt_bytes(resp.peers), opt_bytes(resp.peers6));
    proof {
        assert(v4@ + v6@ =~= decoded);
    }
    let eff = match resp.min_interval {
        Some(m) => if m > ttl {
            m
        } else {
            ttl
        },
        None => ttl,
    };
    let expiry = if now > u64::MAX - eff {
        u64::MAX
    } else {
        now + eff
    };
    let mut d = base;
    d.size = size;
    d.set_tracker_validity(origin_key, expiry);
    d.evict_expired(now);
    let ghost trackers_after = d.trackers@;
    let ghost alive0 = d.addrs_view();
    let mut i: usize = 0;
    while i < v4.len()
        invariant
            i <= v4@.len(),
            d.wf(),
            d.size == size,
            d.trackers@ == trackers_after,
            trackers_map(trackers_after) == base.trackers_view().insert(origin_key@, expiry),
            d.addrs_view() == spec_upsert_all(alive0, (v4@ + v6@).subrange(0, i as int), expiry),
            alive0 == alive_map(base.addrs_view(), now),
        decreases v4@.len() - i,
    {
        proof {
            assert((v4@ + v6@).subrange(0, i + 1 as int).drop_last() =~= (v4@ + v6@).subrange(
                0,
                i as int,
            ));
        }
        let a = v4[i];
        d.upsert(a, expiry);
        i = i + 1;
    }
    let n4 = v4.len();
    let mut j: usize = 0;
    while j < v6.len()
        invariant
            j <= v6@.len(),
            n4 == v4@.len(),
            d.wf(),
            d.size == size,
            d.trackers@ == trackers_after,
            trackers_map(trackers_after) == base.trackers_view().insert(origin_key@, expiry),
            d.addrs_view() == spec_upsert_all(
                alive0,
                (v4@ + v6@).subrange(0, n4 + j as int),
                expiry,
            ),
            alive0 == alive_map(base.addrs_view(), now),
        decreases v6@.len() - j,
    {
        proof {
            assert((v4@ + v6@).subrange(0, n4 + j + 1 as int).drop_last() =~= (v4@
                + v6@).subrange(0, n4 + j as int));
        }
        let a = v6[j];
        d.upsert(a, expiry);
        j = j + 1;
    }
    proof {
        assert((v4@ + v6@).subrange(0, (v4@ + v6@).len() as int) =~= v4@ + v6@);
    }
    Ok(d)
}

/// Where one fetch stands between suspension points.
pub enum FetchState {
    Idle,
    AwaitingReadLock,
    AwaitingLoad,
    AwaitingWriteLock,
    AwaitingReload,
    AwaitingPermit { size: u64, base: TorrentCache },
    AwaitingOrigin { size: u64, base: TorrentCache },
    AwaitingPersist,
    Done,
    Failed,
}

/// What the driver reports back after performing an action.
pub enum FetchEvent {
    Begin,
    ReadLockAcquired,
    ReadLoaded(Result<Option<TorrentCache>, FetchError>),
    WriteLockAcquired,
    Reloaded(Result<Option<TorrentCache>, FetchError>),
    PermitOutcome(bool),
    OriginOutcome(Result<AnnounceResponse, FetchError>),
    Persisted(Result<TorrentCache, FetchError>),
}

/// What the driver must do next.  Every failure action also stands for
/// releasing whatever lock or permit the flow still holds.
pub enum FetchAction {
    AcquireReadLock,
    LoadUnderRead,
    ReleaseReadAndReturn(TorrentCache),
    ReleaseReadAndAcquireWrite,
    ReloadUnderWrite,
    ReleaseWriteAndReturn(TorrentCache),
    AcquirePermit,
    Announce { size: u64 },
    Persist(TorrentCache),
    ReleaseWriteAndFinish(TorrentCache),
    Fail(FetchError),
}

/// Directories handed around by the flow are well formed.
pub open spec fn fetch_state_wf(st: FetchState) -> bool {
    match st {
        FetchState::AwaitingPermit { base, .. } => base.wf(),
        FetchState::AwaitingOrigin { base, .. } => base.wf(),
        _ => true,
    }
}

/// Directories inside events are well formed (a loaded snapshot always is:
/// the store only decodes well-formed directories).
pub open spec fn fetch_event_wf(ev: FetchEvent) -> bool {
    match ev {
        FetchEvent::ReadLoaded(Ok(Option::Some(d))) => d.wf(),
        FetchEvent::Reloaded(Ok(Option::Some(d))) => d.wf(),
        FetchEvent::Persisted(Ok(d)) => d.wf(),
        _ => true,
    }
}

/// Which event answers which state.
pub open spec fn event_fits(st: FetchState, ev: FetchEvent) -> bool {
    match (st, ev) {
        (FetchState::Idle, FetchEvent::Begin) => true,
        (FetchState::AwaitingReadLock, FetchEvent::ReadLockAcquired) => true,
        (FetchState::AwaitingLoad, FetchEvent::ReadLoaded(_)) => true,
        (FetchState::AwaitingWriteLock, FetchEvent::WriteLockAcquired) => true,
        (FetchState::AwaitingReload, FetchEvent::Reloaded(_)) => true,
        (FetchState::AwaitingPermit { .. }, FetchEvent::PermitOutcome(_)) => true,
        (FetchState::AwaitingOrigin { .. }, FetchEvent::OriginOutcome(_)) => true,
        (FetchState::AwaitingPersist { .. }, FetchEvent::Persisted(_)) => true,
        _ => false,
    }
}

/// A load under a lock serves straight from the cache exactly when it found
/// a directory still valid for this origin.
pub open spec fn spec_serves_from_cache(
    loaded: Option<TorrentCache>,
    origin_key: Seq<u8>,
    now: u64,
) -> bool {
    loaded matches Option::Some(d) && d.spec_is_valid_for(origin_key, now)
}

/// One transition of the fetch flow.  `now` is the driver's clock at the
/// moment the event arrived; time may pass between steps.
pub fn fetch_step(
    st: FetchState,
    ev: FetchEvent,
    origin_key: &Vec<u8>,
    declared_size: Option<u64>,
    ttl: u64,
    now: u64,
) -> (r: (FetchState, FetchAction))
    requires
        event_fits(st, ev),
        fetch_state_wf(st),
        fetch_event_wf(ev),
        ttl >= 1,
        now < u64::MAX,
    ensures
        fetch_state_wf(r.0),
        st is Idle ==> r.0 is AwaitingReadLock && r.1 is AcquireReadLock,
        st is AwaitingReadLock ==> r.0 is AwaitingLoad && r.1 is LoadUnderRead,
        st is AwaitingLoad ==> (match ev {
            FetchEvent::ReadLoaded(res) => match res {
                Err(e) => r.0 is Failed && r.1 == FetchAction::Fail(e),
                Ok(loaded) => if spec_serves_from_cache(loaded, origin_key@, now) {
                    r.0 is Done && r.1 == FetchAction::ReleaseReadAndReturn(loaded.unwrap())
                } else {
                    r.0 is AwaitingWriteLock && r.1 is ReleaseReadAndAcquireWrite
                },
            },
            _ => false,
        }),
        st is AwaitingWriteLock ==> r.0 is AwaitingReload && r.1 is ReloadUnderWrite,
        st is AwaitingReload ==> (match ev {
            FetchEvent::Reloaded(res) => match res {
                Err(e) => r.0 is Failed && r.1 == FetchAction::Fail(e),
                Ok(loaded) => if spec_serves_from_cache(loaded, origin_key@, now) {
                    r.0 is Done && r.1 == FetchAction::ReleaseWriteAndReturn(loaded.unwrap())
                } else {
                    match (loaded, declared_size) {
                        (Option::Some(d), Option::Some(s)) => r.0
                            == (FetchState::AwaitingPermit { size: s, base: d }) && r.1
                            is AcquirePermit,
                        (Option::Some(d), Option::None) => r.0 == (FetchState::AwaitingPermit {
                            size: d.size,
                            base: d,
                        }) && r.1 is AcquirePermit,
                        (Option::None, Option::Some(s)) => (r.0 matches
                            FetchState::AwaitingPermit { size, base } && size == s && base.wf()
                            && base.size == s && base.trackers_view() =~= Map::<Seq<u8>,
                            u64,
                        >::empty() && base.addrs_view() =~= Map::<PeerAddr, u64>::empty()) && r.1
                            is AcquirePermit,
                        (Option::None, Option::None) => r.0 is Failed && r.1
                            == FetchAction::Fail(FetchError::MissingSize),
                    }
                },
            },
            _ => false,
        }),
        st matches FetchState::AwaitingPermit { size, base } ==> (match ev {
            FetchEvent::PermitOutcome(granted) => if granted {
                r.0 == (FetchState::AwaitingOrigin { size, base }) && r.1
                    == (FetchAction::Announce { size })
            } else {
                r.0 is Failed && r.1 == FetchAction::Fail(FetchError::AdmissionTimeout)
            },
            _ => false,
        }),
        st matches FetchState::AwaitingOrigin { size, base } ==> (match ev {
            FetchEvent::OriginOutcome(res) => match res {
                Err(e) => r.0 is Failed && r.1 == FetchAction::Fail(e),
                Ok(resp) => if peers_well_formed(resp) {
                    r.0 is AwaitingPersist && (r.1 matches FetchAction::Persist(dir)
                        && merged_ok(dir, base, size, origin_key@, ttl, resp, now))
                } else {
                    r.0 is Failed && r.1 == FetchAction::Fail(FetchError::OriginProtocol)
                },
            },
            _ => false,
        }),
        st is AwaitingPersist ==> (match ev {
            FetchEvent::Persisted(res) => match res {
                Ok(d) => r.0 is Done && r.1 == FetchAction::ReleaseWriteAndFinish(d),
                Err(e) => r.0 is Failed && r.1 == FetchAction::Fail(e),
            },
            _ => false,
        }),
{
    match (st, ev) {
        (FetchState::Idle, FetchEvent::Begin) => (
            FetchState::AwaitingReadLock,
            FetchAction::AcquireReadLock,
        ),
        (FetchState::AwaitingReadLock, FetchEvent::ReadLockAcquired) => (
            FetchState::AwaitingLoad,
            FetchAction::LoadUnderRead,
        ),
        (FetchState::AwaitingLoad, FetchEvent::ReadLoaded(res)) => match res {
            Err(e) => (FetchState::Failed, FetchAction::Fail(e)),
            Ok(Some(d)) => {
                if d.is_valid_for(origin_key, now) {
                    (FetchState::Done, FetchAction::ReleaseReadAndReturn(d))
                } else {
                    (FetchState::AwaitingWriteLock, FetchAction::ReleaseReadAndAcquireWrite)
                }
            },
            Ok(None) => (FetchState::AwaitingWriteLock, FetchAction::ReleaseReadAndAcquireWrite),
        },
        (FetchState::AwaitingWriteLock, FetchEvent::WriteLockAcquired) => (
            FetchState::AwaitingReload,
            FetchAction::ReloadUnderWrite,
        ),
        (FetchState::AwaitingReload, FetchEvent::Reloaded(res)) => match res {
            Err(e) => (FetchState::Failed, FetchAction::Fail(e)),
            Ok(Some(d)) => {
                if d.is_valid_for(origin_key, now) {
                    (FetchState::Done, FetchAction::ReleaseWriteAndReturn(d))
                } else {
                    let size = match declared_size {
                        Some(s) => s,
                        None => d.size,
                    };
                    (FetchState::AwaitingPermit { size, base: d }, FetchAction::AcquirePermit)
                }
            },
            Ok(None) => match declared_size {
                Some(s) => (
                    FetchState::AwaitingPermit { size: s, base: TorrentCache::empty(s) },
                    FetchAction::AcquirePermit,
                ),
                None => (FetchState::Failed, FetchAction::Fail(FetchError::MissingSize)),
            },
        },
        (FetchState::AwaitingPermit { size, base }, FetchEvent::PermitOutcome(granted)) => {
            if granted {
                (FetchState::AwaitingOrigin { size, base }, FetchAction::Announce { size })
            } else {
                (FetchState::Failed, FetchAction::Fail(FetchError::AdmissionTimeout))
            }
        },
        (FetchState::AwaitingOrigin { size, base }, FetchEvent::OriginOutcome(res)) => match res {
            Err(e) => (FetchState::Failed, FetchAction::Fail(e)),
            Ok(resp) => match merge_response(base, size, origin_key, ttl, &resp, now) {
                Ok(dir) => (FetchState::AwaitingPersist, FetchAction::Persist(dir)),
                Err(e) => (FetchState::Failed, FetchAction::Fail(e)),
            },
        },
        (FetchState::AwaitingPersist, FetchEvent::Persisted(res)) => match res {
            Ok(d) => (FetchState::Done, FetchAction::ReleaseWriteAndFinish(d)),
            Err(e) => (FetchState::Failed, FetchAction::Fail(e)),
        },
        _ => {
            proof {
                assert(false);
            }
            (FetchState::Failed, FetchAction::Fail(FetchError::OriginTransport))
        },
    }
}

/// A fetch made right after a successful one finds the directory the first
/// call returned still valid at the same instant, so its read-phase load is
/// served from the cache and no second upstream announce is issued.
pub proof fn lemma_back_to_back_fetch_hits(d: TorrentCache, origin_key: Seq<u8>, now: u64)
    requires
        d.wf(),
        d.spec_is_valid_for(origin_key, now),
    ensures
        spec_serves_from_cache(Some(d), origin_key, now),
{
}

/// A freshly merged directory is what the next fetch at the same instant is
/// served with: validity for the origin is strict, so the announce that just
/// happened shields every concurrent waiter on the same info-hash.
pub proof fn lemma_merged_directory_serves(
    d: TorrentCache,
    base: TorrentCache,
    size: u64,
    origin_key: Seq<u8>,
    ttl: u64,
    resp: AnnounceResponse,
    now: u64,
)
    requires
        merged_ok(d, base, size, origin_key, ttl, resp, now),
    ensures
        spec_serves_from_cache(Some(d), origin_key, now),
{
}

} // verus!
