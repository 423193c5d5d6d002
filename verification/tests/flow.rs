use announce_cache::directory::TorrentCache;
use announce_cache::errors::FetchError;
use announce_cache::fetch::{FetchAction, FetchEvent, FetchState, fetch_step, merge_response};
use announce_cache::tracker::AnnounceResponse;

fn empty_response() -> AnnounceResponse {
    AnnounceResponse {
        failure_reason: None,
        warning_message: None,
        interval: None,
        min_interval: None,
        tracker_id: None,
        seeders: None,
        leechers: None,
        peers: None,
        peers6: None,
    }
}

fn origin_a() -> Vec<u8> {
    b"t%2Eexample".to_vec()
}

/// Drives one whole fetch against a stubbed upstream, counting announces.
fn drive_fetch(
    cache: &mut Option<TorrentCache>,
    origin_key: &Vec<u8>,
    declared_size: Option<u64>,
    ttl: u64,
    now: u64,
    upstream: &AnnounceResponse,
    announces: &mut usize,
) -> Result<TorrentCache, FetchError> {
    let mut st = FetchState::Idle;
    let mut ev = FetchEvent::Begin;
    loop {
        let (st2, action) = fetch_step(st, ev, origin_key, declared_size, ttl, now);
        st = st2;
        match action {
            FetchAction::AcquireReadLock => {
                ev = FetchEvent::ReadLockAcquired;
            }
            FetchAction::LoadUnderRead => {
                ev = FetchEvent::ReadLoaded(Ok(clone_cache(cache)));
            }
            FetchAction::ReleaseReadAndReturn(d) => {
                return Ok(d);
            }
            FetchAction::ReleaseReadAndAcquireWrite => {
                ev = FetchEvent::WriteLockAcquired;
            }
            FetchAction::ReloadUnderWrite => {
                ev = FetchEvent::Reloaded(Ok(clone_cache(cache)));
            }
            FetchAction::ReleaseWriteAndReturn(d) => {
                return Ok(d);
            }
            FetchAction::AcquirePermit => {
                ev = FetchEvent::PermitOutcome(true);
            }
            FetchAction::Announce { size: _ } => {
                *announces += 1;
                ev = FetchEvent::OriginOutcome(Ok(clone_response(upstream)));
            }
            FetchAction::Persist(d) => {
                let bytes = announce_cache::store::encode_directory(&d);
                let back = announce_cache::store::decode_directory(bytes.as_slice()).unwrap();
                *cache = Some(back);
                ev = FetchEvent::Persisted(Ok(d));
            }
            FetchAction::ReleaseWriteAndFinish(d) => {
                return Ok(d);
            }
            FetchAction::Fail(e) => {
                return Err(e);
            }
        }
    }
}

fn clone_cache(cache: &Option<TorrentCache>) -> Option<TorrentCache> {
    cache.as_ref().map(|d| {
        let bytes = announce_cache::store::encode_directory(d);
        announce_cache::store::decode_directory(bytes.as_slice()).unwrap()
    })
}

fn clone_response(r: &AnnounceResponse) -> AnnounceResponse {
    AnnounceResponse {
        failure_reason: r.failure_reason.clone(),
        warning_message: r.warning_message.clone(),
        interval: r.interval,
        min_interval: r.min_interval,
        tracker_id: r.tracker_id.clone(),
        seeders: r.seeders,
        leechers: r.leechers,
        peers: r.peers.clone(),
        peers6: r.peers6.clone(),
    }
}

#[test]
fn cold_miss_then_warm_hit() {
    let mut cache: Option<TorrentCache> = None;
    let mut announces = 0usize;
    let mut upstream = empty_response();
    upstream.peers = Some(vec![1, 2, 3, 4, 0x1a, 0xe1]);
    let key = origin_a();
    let d = drive_fetch(&mut cache, &key, Some(1024), 60, 0, &upstream, &mut announces).unwrap();
    assert_eq!(announces, 1);
    assert_eq!(d.size, 1024);
    assert_eq!(d.peers_time.len(), 1);
    assert_eq!(d.tracker_expiry(&key), Some(60));
    assert!(cache.is_some());
    // Immediate repeat: no additional upstream call, same directory served.
    let d2 = drive_fetch(&mut cache, &key, Some(1024), 60, 0, &upstream, &mut announces).unwrap();
    assert_eq!(announces, 1);
    assert_eq!(d2.size, 1024);
    assert_eq!(d2.tracker_expiry(&key), Some(60));
}

#[test]
fn min_interval_floors_ttl() {
    let mut cache: Option<TorrentCache> = None;
    let mut announces = 0usize;
    let mut upstream = empty_response();
    upstream.min_interval = Some(300);
    let key = origin_a();
    let d = drive_fetch(&mut cache, &key, Some(1024), 60, 0, &upstream, &mut announces).unwrap();
    assert_eq!(d.tracker_expiry(&key), Some(300));
}

#[test]
fn peer_refresh_keeps_single_entry() {
    // Seed a directory with the peer expiring at t+10, stale for the origin.
    let mut seeded = TorrentCache::empty(1024);
    seeded.upsert(
        announce_cache::addr::PeerAddr::V4 { ip: u32::from_be_bytes([5, 6, 7, 8]), port: 6881 },
        10,
    );
    let mut cache = Some(seeded);
    let mut announces = 0usize;
    let mut upstream = empty_response();
    upstream.peers = Some(vec![5, 6, 7, 8, 0x1a, 0xe1]);
    let key = origin_a();
    let d = drive_fetch(&mut cache, &key, Some(1024), 60, 0, &upstream, &mut announces).unwrap();
    assert_eq!(d.peers_time.len(), 1);
    assert_eq!(d.peers_addr.len(), 1);
    assert_eq!(d.peers_time[0].expire, 60);
}

#[test]
fn ten_fetches_one_announce() {
    // Ten logical fetches arriving while the cache is stale, driven in the
    // order the write lock would grant them: only the first announces.
    let mut cache: Option<TorrentCache> = None;
    let mut announces = 0usize;
    let mut upstream = empty_response();
    upstream.peers = Some(vec![1, 2, 3, 4, 0, 80]);
    let key = origin_a();
    for _ in 0..10 {
        let d = drive_fetch(&mut cache, &key, Some(1), 60, 0, &upstream, &mut announces).unwrap();
        assert_eq!(d.peers_time.len(), 1);
    }
    assert_eq!(announces, 1);
}

#[test]
fn distinct_info_hashes_do_not_serialize() {
    // The registry holds both write locks at once: distinct keys are
    // independent.
    let mut reg = announce_cache::registry::LockRegistry::new();
    let ka = b"hash%2Da".to_vec();
    let kb = b"hash%2Db".to_vec();
    reg.acquire_ref(&ka);
    reg.acquire_ref(&kb);
    assert!(reg.try_lock_write(&ka));
    assert!(reg.try_lock_write(&kb));
    reg.unlock_write(&ka);
    reg.unlock_write(&kb);
    reg.release_ref(&ka);
    reg.release_ref(&kb);
    assert!(reg.state_of(&ka).is_none());
    assert!(reg.state_of(&kb).is_none());
}

#[test]
fn multi_origin_validity() {
    let key_a = b"origin%2Da".to_vec();
    let key_b = b"origin%2Db".to_vec();
    let base = TorrentCache::empty(0);
    let d1 = merge_response(base, 7, &key_a, 60, &empty_response(), 0).unwrap();
    assert_eq!(d1.tracker_expiry(&key_a), Some(60));
    // A fetch against origin B at t=30 merges in, leaving A untouched.
    let mut resp_b = empty_response();
    resp_b.peers = Some(vec![9, 9, 9, 9, 0, 9]);
    let d2 = merge_response(d1, 7, &key_b, 60, &resp_b, 30).unwrap();
    assert_eq!(d2.tracker_expiry(&key_a), Some(60));
    assert_eq!(d2.tracker_expiry(&key_b), Some(90));
    assert_eq!(d2.peers_time.len(), 1);
}

#[test]
fn missing_size_without_prior_directory_fails() {
    let mut cache: Option<TorrentCache> = None;
    let mut announces = 0usize;
    let upstream = empty_response();
    let key = origin_a();
    let r = drive_fetch(&mut cache, &key, None, 60, 0, &upstream, &mut announces);
    assert!(matches!(r, Err(FetchError::MissingSize)));
    assert_eq!(announces, 0);
}

#[test]
fn admission_timeout_fails_fetch() {
    let key = origin_a();
    let (st, _) = fetch_step(FetchState::Idle, FetchEvent::Begin, &key, Some(1), 60, 0);
    assert!(matches!(st, FetchState::AwaitingReadLock));
    let st = FetchState::AwaitingPermit { size: 1, base: TorrentCache::empty(1) };
    let (st2, action) = fetch_step(st, FetchEvent::PermitOutcome(false), &key, Some(1), 60, 0);
    assert!(matches!(st2, FetchState::Failed));
    assert!(matches!(action, FetchAction::Fail(FetchError::AdmissionTimeout)));
}

#[test]
fn malformed_compact_peers_is_protocol_error() {
    let mut resp = empty_response();
    resp.peers = Some(vec![1, 2, 3, 4, 5, 6, 7]);
    let r = merge_response(TorrentCache::empty(0), 0, &origin_a(), 60, &resp, 0);
    assert!(matches!(r, Err(FetchError::OriginProtocol)));
}

#[test]
fn admission_counts_permits() {
    let mut adm = announce_cache::admission::Admission::new(2);
    assert!(adm.try_acquire());
    assert!(adm.try_acquire());
    assert!(!adm.try_acquire());
    adm.release();
    assert!(adm.try_acquire());
    assert!(adm.in_flight <= adm.capacity);
}

#[test]
fn registry_never_keeps_zero_refcount() {
    let mut reg = announce_cache::registry::LockRegistry::new();
    let k = b"info%2Dhash".to_vec();
    reg.acquire_ref(&k);
    reg.acquire_ref(&k);
    assert_eq!(reg.state_of(&k).unwrap().refcount, 2);
    reg.release_ref(&k);
    assert_eq!(reg.state_of(&k).unwrap().refcount, 1);
    reg.release_ref(&k);
    // The entry vanishes the instant the count returns to zero.
    assert!(reg.state_of(&k).is_none());
}

#[test]
fn readers_share_writers_exclude() {
    let mut reg = announce_cache::registry::LockRegistry::new();
    let k = b"shared".to_vec();
    reg.acquire_ref(&k);
    reg.acquire_ref(&k);
    assert!(reg.try_lock_read(&k));
    assert!(reg.try_lock_read(&k));
    assert!(!reg.try_lock_write(&k));
    reg.unlock_read(&k);
    reg.unlock_read(&k);
    assert!(reg.try_lock_write(&k));
    assert!(!reg.try_lock_read(&k));
    reg.unlock_write(&k);
    reg.release_ref(&k);
    reg.release_ref(&k);
}
