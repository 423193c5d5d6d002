use announce_cache::addr::{Peer, PeerAddr};
use announce_cache::directory::TorrentCache;

fn v4(a: u8, b: u8, c: u8, d: u8, port: u16) -> PeerAddr {
    let ip = u32::from_be_bytes([a, b, c, d]);
    PeerAddr::V4 { ip, port }
}

#[test]
fn upsert_inserts_and_refreshes() {
    let mut dir = TorrentCache::empty(0);
    dir.upsert(v4(5, 6, 7, 8, 6881), 10);
    assert_eq!(dir.peers_time.len(), 1);
    assert_eq!(dir.peers_addr.len(), 1);
    // Refreshing the same address keeps exactly one entry in each index.
    dir.upsert(v4(5, 6, 7, 8, 6881), 60);
    assert_eq!(dir.peers_time.len(), 1);
    assert_eq!(dir.peers_addr.len(), 1);
    assert_eq!(dir.peers_time[0].expire, 60);
    assert_eq!(dir.peers_addr[0].expire, 60);
}

#[test]
fn indices_stay_in_bijection() {
    let mut dir = TorrentCache::empty(0);
    dir.upsert(v4(1, 2, 3, 4, 1000), 50);
    dir.upsert(v4(9, 9, 9, 9, 2000), 20);
    dir.upsert(PeerAddr::V6 { ip: 7, port: 42 }, 35);
    dir.upsert(v4(1, 2, 3, 4, 1000), 70);
    assert_eq!(dir.peers_time.len(), 3);
    assert_eq!(dir.peers_addr.len(), 3);
    for entry in 0..dir.peers_addr.len() {
        let a = &dir.peers_addr[entry];
        let mut found = 0;
        for p in 0..dir.peers_time.len() {
            if dir.peers_time[p].addr == a.addr {
                assert_eq!(dir.peers_time[p].expire, a.expire);
                found += 1;
            }
        }
        assert_eq!(found, 1);
    }
    // The by-expiry index is sorted by (expire, addr).
    for p in 1..dir.peers_time.len() {
        assert!(dir.peers_time[p - 1].expire <= dir.peers_time[p].expire);
    }
}

#[test]
fn evict_removes_expired_and_boundary() {
    let mut dir = TorrentCache::empty(0);
    dir.upsert(v4(1, 1, 1, 1, 1), 10);
    dir.upsert(v4(2, 2, 2, 2, 2), 30);
    dir.upsert(v4(3, 3, 3, 3, 3), 31);
    // A peer whose expiry equals `now` is evicted too.
    dir.evict_expired(30);
    assert_eq!(dir.peers_time.len(), 1);
    assert_eq!(dir.peers_addr.len(), 1);
    assert_eq!(dir.peers_time[0].expire, 31);
}

#[test]
fn evict_is_idempotent() {
    let mut dir = TorrentCache::empty(0);
    dir.upsert(v4(1, 1, 1, 1, 1), 10);
    dir.upsert(v4(2, 2, 2, 2, 2), 30);
    dir.evict_expired(20);
    let time_snapshot: Vec<u64> = dir.peers_time.iter().map(|p| p.expire).collect();
    let addr_snapshot: Vec<u64> = dir.peers_addr.iter().map(|e| e.expire).collect();
    dir.evict_expired(20);
    let time_again: Vec<u64> = dir.peers_time.iter().map(|p| p.expire).collect();
    let addr_again: Vec<u64> = dir.peers_addr.iter().map(|e| e.expire).collect();
    assert_eq!(time_snapshot, time_again);
    assert_eq!(addr_snapshot, addr_again);
}

#[test]
fn tracker_validity_is_per_origin() {
    let mut dir = TorrentCache::empty(0);
    let a = b"tracker%2Da".to_vec();
    let b = b"tracker%2Db".to_vec();
    dir.set_tracker_validity(&a, 60);
    dir.set_tracker_validity(&b, 90);
    assert!(dir.is_valid_for(&a, 59));
    assert!(!dir.is_valid_for(&a, 60));
    assert!(dir.is_valid_for(&b, 89));
    assert!(!dir.is_valid_for(&b, 90));
    // Overwriting one origin leaves the other untouched.
    dir.set_tracker_validity(&a, 120);
    assert_eq!(dir.tracker_expiry(&a), Some(120));
    assert_eq!(dir.tracker_expiry(&b), Some(90));
}

#[test]
fn store_snapshot_round_trips() {
    let mut dir = TorrentCache::empty(1024);
    let a = b"origin%2Da".to_vec();
    dir.set_tracker_validity(&a, 300);
    dir.upsert(v4(1, 2, 3, 4, 6881), 200);
    dir.upsert(PeerAddr::V6 { ip: 99, port: 7 }, 150);
    let bytes = announce_cache::store::encode_directory(&dir);
    let back = announce_cache::store::decode_directory(bytes.as_slice()).expect("decodes");
    assert_eq!(back.size, 1024);
    assert_eq!(back.tracker_expiry(&a), Some(300));
    assert_eq!(back.peers_time.len(), 2);
    assert_eq!(back.peers_addr.len(), 2);
    assert!(back.is_valid_for(&a, 299));
    // The projector sees the same peers.
    let r1 = announce_cache::tracker::AnnounceResponse::from_cache(&dir);
    let r2 = announce_cache::tracker::AnnounceResponse::from_cache(&back);
    assert_eq!(r1.peers, r2.peers);
    assert_eq!(r1.peers6, r2.peers6);
    assert_eq!(r1.leechers, r2.leechers);
}

#[test]
fn decode_rejects_garbage() {
    let r = announce_cache::store::decode_directory(b"nonsense");
    assert!(matches!(r, Err(announce_cache::errors::FetchError::CacheLoadFailure)));
}
