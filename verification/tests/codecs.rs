use announce_cache::addr::{PeerAddr, deserialize_peers_binary, deserialize_peers6_binary,
    serialize_peer_binary};
use announce_cache::bencode::{BencodeObject, BencodeParser, chr, parse_bencode, to_digit};
use announce_cache::errors::FetchError;
use announce_cache::fingerprint::{random_client_ua, random_key, random_peer_id, random_port};
use announce_cache::origin::{build_announce_target, origin_key_of, percent_encode_bytes};
use announce_cache::torrent::{process_tracker_url, replace_trackers_in_torrent};
use announce_cache::tracker::parse_announce_response;

#[test]
fn compact_v4_round_trip() {
    let addr = PeerAddr::V4 { ip: u32::from_be_bytes([1, 2, 3, 4]), port: 6881 };
    let bytes = serialize_peer_binary(&addr);
    assert_eq!(bytes, vec![1, 2, 3, 4, 0x1a, 0xe1]);
    let decoded = deserialize_peers_binary(bytes.as_slice()).unwrap();
    assert_eq!(decoded.len(), 1);
    assert!(decoded[0] == addr);
}

#[test]
fn compact_v6_round_trip() {
    let addr = PeerAddr::V6 { ip: 0x00010002_00030004_00050006_00070008u128, port: 80 };
    let bytes = serialize_peer_binary(&addr);
    assert_eq!(bytes.len(), 18);
    let decoded = deserialize_peers6_binary(bytes.as_slice()).unwrap();
    assert_eq!(decoded.len(), 1);
    assert!(decoded[0] == addr);
}

#[test]
fn compact_length_must_be_multiple() {
    assert!(matches!(
        deserialize_peers_binary(&[1, 2, 3, 4, 5, 6, 7]),
        Err(FetchError::OriginProtocol)
    ));
    assert!(matches!(
        deserialize_peers6_binary(&[0; 19]),
        Err(FetchError::OriginProtocol)
    ));
    assert!(deserialize_peers_binary(&[]).unwrap().is_empty());
}

#[test]
fn percent_encoding_matches_reference() {
    // Same example percent-encoding documents for NON_ALPHANUMERIC.
    assert_eq!(percent_encode_bytes(b"foo bar?"), b"foo%20bar%3F".to_vec());
    assert_eq!(percent_encode_bytes(b"abc123"), b"abc123".to_vec());
    assert_eq!(percent_encode_bytes(&[0xff, 0x00]), b"%FF%00".to_vec());
}

#[test]
fn origin_key_is_encoded_host() {
    let key = origin_key_of(&b"http://t.example/announce?x=1".to_vec()).unwrap();
    assert_eq!(key, b"t%2Eexample".to_vec());
    assert!(matches!(
        origin_key_of(&b"not a url".to_vec()),
        Err(FetchError::MalformedTrackerUrl)
    ));
}

#[test]
fn announce_url_shapes() {
    let ih = vec![0x11u8; 20];
    // An existing query string is extended with `&`, never a second `?`.
    let t = build_announce_target(&b"http://t.example/ann?x=1".to_vec(), &ih, 1).unwrap();
    let url = String::from_utf8(t.url.clone()).unwrap();
    assert_eq!(url.matches('?').count(), 1);
    assert!(url.starts_with("http://t.example/ann?x=1&info_hash=%11%11"));
    // A trailing slash is kept.
    let t2 = build_announce_target(&b"http://t.example/".to_vec(), &ih, 1).unwrap();
    let url2 = String::from_utf8(t2.url.clone()).unwrap();
    assert!(url2.starts_with("http://t.example/?info_hash="));
    // A bare origin gains the root slash before the query.
    let t3 = build_announce_target(&b"http://t.example".to_vec(), &ih, 1).unwrap();
    let url3 = String::from_utf8(t3.url.clone()).unwrap();
    assert!(url3.starts_with("http://t.example/?info_hash="));
    assert!(url3.contains("&event=started"));
    assert!(url3.contains("&numwant=200"));
    assert!(url3.contains("&left=1&"));
}

#[test]
fn fingerprint_is_deterministic_per_tracker() {
    let u = b"http://t.example/announce";
    assert_eq!(random_port(u), random_port(u));
    let p = random_port(u);
    assert!((1024..65536).contains(&(p as u32)));
    let ua = random_client_ua(u);
    assert!(String::from_utf8(ua.clone()).unwrap().starts_with("qBittorrent/5."));
    assert_eq!(ua, random_client_ua(u));
    let id = random_peer_id(u);
    assert_eq!(id.len(), 20);
    assert!(String::from_utf8(id[0..4].to_vec()).unwrap().starts_with("-qB5"));
    let k = random_key(u);
    assert_eq!(k.len(), 8);
    assert!(k.iter().all(|c| c.is_ascii_hexdigit()));
    // A different tracker sees a different fingerprint (with overwhelming
    // likelihood; this pair differs).
    assert_ne!(random_peer_id(b"http://other.example/"), id);
}

#[test]
fn chr_and_to_digit_behave() {
    assert_eq!(chr(b'7').unwrap(), '7');
    assert_eq!(to_digit('7').unwrap(), 7);
    assert!(to_digit('x').is_err());
}

#[test]
fn bencode_parse_and_encode_round_trip() {
    let input = b"d3:cow3:moo4:spam4:eggse";
    let root = parse_bencode(input).unwrap();
    // The root list collects the one completed object; re-encoding the
    // dictionary gives back the input.
    match &root {
        BencodeObject::List(items) => {
            assert_eq!(items.len(), 1);
            assert_eq!(items[0].encode(), input.to_vec());
        }
        _ => panic!("root is a list"),
    }
}

#[test]
fn bencode_rejects_bad_bytes() {
    assert!(parse_bencode(b"x").is_err());
    assert!(parse_bencode(b"e").is_err());
    let mut p = BencodeParser::new();
    assert!(p.next(b'i').is_ok());
    assert!(p.next(b'4').is_ok());
    assert!(p.next(b'e').is_ok());
}

#[test]
fn announce_response_fields_parse() {
    let body = b"d8:completei5e10:incompletei17e8:intervali1800e12:min intervali300e5:peers6:\x01\x02\x03\x04\x1a\xe16:peers60:e";
    let r = parse_announce_response(body).unwrap();
    assert_eq!(r.seeders, Some(5));
    assert_eq!(r.leechers, Some(17));
    assert_eq!(r.interval, Some(1800));
    assert_eq!(r.min_interval, Some(300));
    assert_eq!(r.peers, Some(vec![1, 2, 3, 4, 0x1a, 0xe1]));
    assert_eq!(r.peers6, Some(vec![]));
    assert_eq!(r.failure_reason, None);
    assert!(parse_announce_response(b"notbencode").is_err());
}

#[test]
fn projector_serves_fixed_intervals() {
    let mut dir = announce_cache::directory::TorrentCache::empty(3);
    dir.upsert(PeerAddr::V4 { ip: u32::from_be_bytes([1, 2, 3, 4]), port: 6881 }, 60);
    let r = announce_cache::tracker::AnnounceResponse::from_cache(&dir);
    assert_eq!(r.interval, Some(30));
    assert_eq!(r.min_interval, Some(30));
    assert_eq!(r.seeders, Some(0));
    assert_eq!(r.leechers, Some(1));
    assert_eq!(r.peers, Some(vec![1, 2, 3, 4, 0x1a, 0xe1]));
    assert_eq!(r.peers6, Some(vec![]));
    let bytes = r.to_bencode().encode();
    let expected = b"d8:intervali30e12:min intervali30e8:completei0e10:incompletei1e5:peers6:\x01\x02\x03\x04\x1a\xe16:peers60:e";
    assert_eq!(bytes, expected.to_vec());
}

#[test]
fn tracker_urls_are_rewritten() {
    let url = b"http://tr.example/ann".to_vec();
    let rewritten = process_tracker_url(&url).unwrap();
    assert_eq!(
        String::from_utf8(rewritten).unwrap(),
        "https://tracker.submy.org/?tracker_url=http%3A%2F%2Ftr.example%2Fann&ttl=28800"
    );
}

#[test]
fn torrent_announce_entry_is_replaced() {
    let announce_key = BencodeObject::Bytes(8, Some(b"announce".to_vec()));
    let announce_val = BencodeObject::Bytes(21, Some(b"http://tr.example/ann".to_vec()));
    let dict = BencodeObject::Dictionary(vec![(announce_key, announce_val)]);
    let torrent = BencodeObject::List(vec![dict]);
    let (out, urls) = replace_trackers_in_torrent(torrent).unwrap();
    assert_eq!(urls, vec![b"http://tr.example/ann".to_vec()]);
    match out {
        BencodeObject::List(items) => match &items[0] {
            BencodeObject::Dictionary(pairs) => match &pairs[0].1 {
                BencodeObject::Bytes(_, Some(v)) => {
                    assert!(String::from_utf8(v.clone())
                        .unwrap()
                        .starts_with("https://tracker.submy.org/?tracker_url="));
                }
                _ => panic!("announce value is bytes"),
            },
            _ => panic!("first item is the dictionary"),
        },
        _ => panic!("torrent stays a list"),
    }
}

#[test]
fn torrent_announce_list_tiers_are_replaced() {
    let key = BencodeObject::Bytes(13, Some(b"announce-list".to_vec()));
    let tier1 = BencodeObject::List(vec![BencodeObject::Bytes(
        20,
        Some(b"http://a.example/ann".to_vec()),
    )]);
    let tier2 = BencodeObject::List(vec![BencodeObject::Bytes(
        20,
        Some(b"http://a.example/ann".to_vec()),
    )]);
    let val = BencodeObject::List(vec![tier1, tier2]);
    let dict = BencodeObject::Dictionary(vec![(key, val)]);
    let torrent = BencodeObject::List(vec![dict]);
    let (_, urls) = replace_trackers_in_torrent(torrent).unwrap();
    // Adjacent duplicates collapse to one collected URL.
    assert_eq!(urls, vec![b"http://a.example/ann".to_vec()]);
}

#[test]
fn cache_root_precedence() {
    assert_eq!(
        announce_cache::store::cache_root_dir(Some(b"/opt/cache".to_vec()), Some(b"/x".to_vec()), b"/home/u".to_vec()),
        b"/opt/cache/btc".to_vec()
    );
    assert_eq!(
        announce_cache::store::cache_root_dir(None, Some(b"/x/".to_vec()), b"/home/u".to_vec()),
        b"/x/btc".to_vec()
    );
    assert_eq!(
        announce_cache::store::cache_root_dir(None, None, b"/home/u".to_vec()),
        b"/home/u/.cache/btc".to_vec()
    );
}

#[test]
fn non_utf8_announce_url_fails_rewrite() {
    let announce_key = BencodeObject::Bytes(8, Some(b"announce".to_vec()));
    let announce_val = BencodeObject::Bytes(3, Some(vec![0xff, 0xfe, 0x80]));
    let dict = BencodeObject::Dictionary(vec![(announce_key, announce_val)]);
    let torrent = BencodeObject::List(vec![dict]);
    let r = replace_trackers_in_torrent(torrent);
    assert!(matches!(r, Err(announce_cache::torrent::TransformError::NotUtf8)));
}

#[test]
fn decode_accepts_only_canonical_snapshots() {
    let mut dir = announce_cache::directory::TorrentCache::empty(9);
    dir.upsert(PeerAddr::V4 { ip: 1, port: 2 }, 5);
    let mut bytes = announce_cache::store::encode_directory(&dir);
    // The canonical snapshot loads and re-encodes to the same bytes.
    let back = announce_cache::store::decode_directory(bytes.as_slice()).unwrap();
    assert_eq!(announce_cache::store::encode_directory(&back), bytes);
    // A trailing byte is not part of any snapshot.
    bytes.push(0);
    assert!(announce_cache::store::decode_directory(bytes.as_slice()).is_err());
}

#[test]
fn parser_state_survives_rejected_bytes() {
    let mut p = BencodeParser::new();
    assert!(p.next(b'x').is_err());
    // The refused byte left the parser where it stood: the same input
    // still parses.
    for b in b"i42e" {
        assert!(p.next(*b).is_ok());
    }
}
