//! The on-disk snapshot of a directory.
//!
//! One file per info-hash; the surrounding process reads and writes the
//! bytes, this module turns a directory into bytes and back.  The format is
//! the crate's own, binary rather than textual, and fixed-width big-endian:
//! the size, the tracker entries (length-prefixed key and expiry), then the
//! peers of the by-expiry index (family tag, IP, port, expiry).  What the
//! store promises is the round trip, not a spelling: encoding pins the
//! exact snapshot bytes, and decoding accepts exactly the canonical
//! snapshots and returns a well-formed directory that re-encodes to the
//! bytes it was read from.

use vstd::prelude::*;

use crate::addr::{Peer, PeerAddr, append_be, lemma_be_bytes_bound, lemma_be_of_nat_to_be,
    lemma_nat_to_be_len, lemma_nat_to_be_of_be, nat_to_be_bytes, pow256, read_be};
use crate::directory::{TorrentCache, TrackerEntry};
use crate::errors::FetchError;

verus! {

/// The snapshot bytes of one tracker entry.
pub open spec fn enc_tracker(e: TrackerEntry) -> Seq<u8> {
    nat_to_be_bytes(e.key@.len(), 8) + e.key@ + nat_to_be_bytes(e.expire as nat, 8)
}

/// The snapshot bytes of the tracker entries, in order.
pub open spec fn enc_trackers(s: Seq<TrackerEntry>) -> Seq<u8>
    decreases s.len(),
{
    if s.len() == 0 {
        Seq::empty()
    } else {
        enc_trackers(s.drop_last()) + enc_tracker(s.last())
    }
}

/// The snapshot bytes of one peer: family tag, IP, port, expiry.
pub open spec fn enc_peer(p: Peer) -> Seq<u8> {
    match p.addr {
        PeerAddr::V4 { ip, port } => seq![4u8] + nat_to_be_bytes(ip as nat, 4) + nat_to_be_bytes(
            port as nat,
            2,
        ) + nat_to_be_bytes(p.expire as nat, 8),
        PeerAddr::V6 { ip, port } => seq![6u8] + nat_to_be_bytes(ip as nat, 16) + nat_to_be_bytes(
            port as nat,
            2,
        ) + nat_to_be_bytes(p.expire as nat, 8),
    }
}

/// The snapshot bytes of the by-expiry index, in order.
pub open spec fn enc_peers(s: Seq<Peer>) -> Seq<u8>
    decreases s.len(),
{
    if s.len() == 0 {
        Seq::empty()
    } else {
        enc_peers(s.drop_last()) + enc_peer(s.last())
    }
}

/// The whole snapshot: size, tracker count and entries, peer count and
/// peers.
pub open spec fn spec_snapshot(d: TorrentCache) -> Seq<u8> {
    nat_to_be_bytes(d.size as nat, 8) + nat_to_be_bytes(d.trackers@.len(), 8) + enc_trackers(
        d.trackers@,
    ) + nat_to_be_bytes(d.peers_time@.len(), 8) + enc_peers(d.peers_time@)
}

/// Serializes a directory for the cache store.
pub fn encode_directory(d: &TorrentCache) -> (r: Vec<u8>)
    ensures
        r@ == spec_snapshot(*d),
{
    let mut out: Vec<u8> = Vec::new();
    append_be(&mut out, d.size as u128, 8);
    append_be(&mut out, d.trackers.len() as u128, 8);
    let mut i: usize = 0;
    while i < d.trackers.len()
        invariant
            i <= d.trackers@.len(),
            out@ == nat_to_be_bytes(d.size as nat, 8) + nat_to_be_bytes(d.trackers@.len(), 8)
                + enc_trackers(d.trackers@.subrange(0, i as int)),
        decreases d.trackers@.len() - i,
    {
        proof {
            assert(d.trackers@.subrange(0, i + 1 as int).drop_last() =~= d.trackers@.subrange(
                0,
                i as int,
            ));
        }
        let e = &d.trackers[i];
        append_be(&mut out, e.key.len() as u128, 8);
        let mut k: usize = 0;
        while k < e.key.len()
            invariant
                k <= e.key@.len(),
                e == d.trackers@[i as int],
                i < d.trackers@.len(),
                out@ == nat_to_be_bytes(d.size as nat, 8) + nat_to_be_bytes(d.trackers@.len(), 8)
                    + enc_trackers(d.trackers@.subrange(0, i as int)) + nat_to_be_bytes(
                    e.key@.len(),
                    8,
                ) + e.key@.subrange(0, k as int),
            decreases e.key@.len() - k,
        {
            proof {
                assert(e.key@.subrange(0, k + 1 as int) =~= e.key@.subrange(0, k as int).push(
                    e.key@[k as int],
                ));
            }
            let b = e.key[k];
            out.push(b);
            k = k + 1;
        }
        proof {
            assert(e.key@.subrange(0, e.key@.len() as int) =~= e.key@);
        }
        append_be(&mut out, e.expire as u128, 8);
        proof {
            assert(out@ =~= nat_to_be_bytes(d.size as nat, 8) + nat_to_be_bytes(
                d.trackers@.len(),
                8,
            ) + enc_trackers(d.trackers@.subrange(0, i + 1 as int)));
        }
        i = i + 1;
    }
    proof {
        assert(d.trackers@.subrange(0, d.trackers@.len() as int) =~= d.trackers@);
    }
    append_be(&mut out, d.peers_time.len() as u128, 8);
    let ghost head = nat_to_be_bytes(d.size as nat, 8) + nat_to_be_bytes(d.trackers@.len(), 8)
        + enc_trackers(d.trackers@) + nat_to_be_bytes(d.peers_time@.len(), 8);
    let mut j: usize = 0;
    while j < d.peers_time.len()
        invariant
            j <= d.peers_time@.len(),
            out@ == head + enc_peers(d.peers_time@.subrange(0, j as int)),
            head == nat_to_be_bytes(d.size as nat, 8) + nat_to_be_bytes(d.trackers@.len(), 8)
                + enc_trackers(d.trackers@) + nat_to_be_bytes(d.peers_time@.len(), 8),
        decreases d.peers_time@.len() - j,
    {
        proof {
            assert(d.peers_time@.subrange(0, j + 1 as int).drop_last() =~= d.peers_time@.subrange(
                0,
                j as int,
            ));
        }
        let p = d.peers_time[j];
        match p.addr {
            PeerAddr::V4 { ip, port } => {
                out.push(4);
                append_be(&mut out, ip as u128, 4);
                append_be(&mut out, port as u128, 2);
                append_be(&mut out, p.expire as u128, 8);
            },
            PeerAddr::V6 { ip, port } => {
                out.push(6);
                append_be(&mut out, ip, 16);
                append_be(&mut out, port as u128, 2);
                append_be(&mut out, p.expire as u128, 8);
            },
        }
        proof {
            assert(out@ =~= head + enc_peers(d.peers_time@.subrange(0, j + 1 as int)));
        }
        j = j + 1;
    }
    proof {
        assert(d.peers_time@.subrange(0, d.peers_time@.len() as int) =~= d.peers_time@);
    }
    out
}

/// Deserializes a cache-store snapshot.  Exactly the canonical snapshots
/// are accepted — unique tracker keys, the by-expiry index strictly sorted
/// with unique addresses, nothing after the last peer — so a successful
/// load is well formed and re-encodes to the very bytes it was read from;
/// everything else is a load failure.
pub fn decode_directory(bytes: &[u8]) -> (r: Result<TorrentCache, FetchError>)
    ensures
        match r {
            Ok(d) => d.wf() && spec_snapshot(d) == bytes@,
            Err(e) => e == FetchError::CacheLoadFailure,
        },
{
    let total = bytes.len();
    if total < 16 {
        return Err(FetchError::CacheLoadFailure);
    }
    let size128 = read_be(bytes, 0, 8);
    proof {
        reveal_with_fuel(pow256, 17);
        lemma_be_bytes_bound(bytes@.subrange(0, 8));
        lemma_nat_to_be_of_be(bytes@.subrange(0, 8));
    }
    let size = size128 as u64;
    let nt128 = read_be(bytes, 8, 16);
    proof {
        lemma_be_bytes_bound(bytes@.subrange(8, 16));
        lemma_nat_to_be_of_be(bytes@.subrange(8, 16));
    }
    if nt128 > (total as u128) {
        return Err(FetchError::CacheLoadFailure);
    }
    let ntrackers = nt128 as usize;
    let mut pos: usize = 16;
    let ghost head0 = nat_to_be_bytes(size as nat, 8) + nat_to_be_bytes(ntrackers as nat, 8);
    proof {
        assert(bytes@.subrange(0, 16) =~= bytes@.subrange(0, 8) + bytes@.subrange(8, 16));
        assert(head0 =~= bytes@.subrange(0, 16));
    }
    let mut tvec: Vec<TrackerEntry> = Vec::new();
    let mut i: usize = 0;
    while i < ntrackers
        invariant
            i <= ntrackers,
            tvec@.len() == i,
            16 <= pos <= bytes@.len() <= usize::MAX,
            crate::directory::tracker_keys_unique(tvec@),
            bytes@.subrange(0, pos as int) == head0 + enc_trackers(tvec@),
            head0 == nat_to_be_bytes(size as nat, 8) + nat_to_be_bytes(ntrackers as nat, 8),
        decreases ntrackers - i,
    {
        let ghost pos0 = pos as int;
        if bytes.len() - pos < 8 {
            return Err(FetchError::CacheLoadFailure);
        }
        let klen128 = read_be(bytes, pos, pos + 8);
        proof {
            reveal_with_fuel(pow256, 17);
            lemma_be_bytes_bound(bytes@.subrange(pos as int, pos + 8 as int));
            lemma_nat_to_be_of_be(bytes@.subrange(pos as int, pos + 8 as int));
        }
        let kstart = pos + 8;
        if klen128 > ((bytes.len() - kstart) as u128) {
            return Err(FetchError::CacheLoadFailure);
        }
        let klen = klen128 as usize;
        let mut key: Vec<u8> = Vec::new();
        let mut k: usize = 0;
        while k < klen
            invariant
                k <= klen,
                kstart + klen <= bytes@.len() <= usize::MAX,
                key@ == bytes@.subrange(kstart as int, kstart + k as int),
            decreases klen - k,
        {
            proof {
                assert(bytes@.subrange(kstart as int, kstart + (k + 1) as int)
                    =~= bytes@.subrange(kstart as int, kstart + k as int).push(
                    bytes@[kstart + k as int],
                ));
            }
            let b = bytes[kstart + k];
            key.push(b);
            k = k + 1;
        }
        let epos = kstart + klen;
        if bytes.len() - epos < 8 {
            return Err(FetchError::CacheLoadFailure);
        }
        let exp128 = read_be(bytes, epos, epos + 8);
        proof {
            lemma_be_bytes_bound(bytes@.subrange(epos as int, epos + 8 as int));
            lemma_nat_to_be_of_be(bytes@.subrange(epos as int, epos + 8 as int));
        }
        let mut j: usize = 0;
        while j < tvec.len()
            invariant
                j <= tvec@.len(),
                forall|m: int| 0 <= m < j ==> tvec@[m].key@ != key@,
            decreases tvec@.len() - j,
        {
            if crate::bstr::bytes_eq(&tvec[j].key, &key) {
                return Err(FetchError::CacheLoadFailure);
            }
            j = j + 1;
        }
        let ghost pre_t = tvec@;
        let ghost key_view = key@;
        let entry = TrackerEntry { key, expire: exp128 as u64 };
        tvec.push(entry);
        pos = epos + 8;
        i = i + 1;
        proof {
            assert(tvec@.drop_last() =~= pre_t);
            assert forall|p: int, q: int| 0 <= p < q < tvec@.len() implies tvec@[p].key@
                != tvec@[q].key@ by {
                if q < pre_t.len() as int {
                    assert(pre_t[p].key@ != pre_t[q].key@);
                } else {
                    assert(pre_t[p].key@ != key_view);
                }
            }
            assert(enc_trackers(tvec@) == enc_trackers(pre_t) + enc_tracker(tvec@.last()));
            assert(enc_tracker(tvec@.last()) =~= bytes@.subrange(pos0, pos as int));
            assert(bytes@.subrange(0, pos as int) =~= bytes@.subrange(0, pos0) + bytes@.subrange(
                pos0,
                pos as int,
            ));
            assert(bytes@.subrange(0, pos as int) =~= head0 + enc_trackers(tvec@));
        }
    }
    if bytes.len() - pos < 8 {
        return Err(FetchError::CacheLoadFailure);
    }
    let np128 = read_be(bytes, pos, pos + 8);
    proof {
        reveal_with_fuel(pow256, 17);
        lemma_be_bytes_bound(bytes@.subrange(pos as int, pos + 8 as int));
        lemma_nat_to_be_of_be(bytes@.subrange(pos as int, pos + 8 as int));
    }
    if np128 > (total as u128) {
        return Err(FetchError::CacheLoadFailure);
    }
    let npeers = np128 as usize;
    let ghost tfin = tvec@;
    let ghost head1 = head0 + enc_trackers(tfin) + nat_to_be_bytes(npeers as nat, 8);
    proof {
        assert(bytes@.subrange(0, pos + 8 as int) =~= bytes@.subrange(0, pos as int)
            + bytes@.subrange(pos as int, pos + 8 as int));
        assert(head1 =~= bytes@.subrange(0, pos + 8 as int));
    }
    pos = pos + 8;
    let mut pvec: Vec<Peer> = Vec::new();
    let mut avec: Vec<crate::directory::AddrEntry> = Vec::new();
    let mut jp: usize = 0;
    while jp < npeers
        invariant
            jp <= npeers,
            pvec@.len() == jp,
            avec@.len() == jp,
            pos <= bytes@.len() <= usize::MAX,
            tvec@ == tfin,
            crate::directory::peers_sorted(pvec@),
            crate::directory::addrs_unique(avec@),
            forall|m: int|
                0 <= m < jp ==> avec@[m] == (crate::directory::AddrEntry {
                    addr: pvec@[m].addr,
                    expire: pvec@[m].expire,
                }),
            bytes@.subrange(0, pos as int) == head1 + enc_peers(pvec@),
            head1 == head0 + enc_trackers(tfin) + nat_to_be_bytes(npeers as nat, 8),
        decreases npeers - jp,
    {
        let ghost pos0 = pos as int;
        if bytes.len() - pos < 1 {
            return Err(FetchError::CacheLoadFailure);
        }
        let tag = bytes[pos];
        let iplen: usize = if tag == 4 {
            4
        } else if tag == 6 {
            16
        } else {
            return Err(FetchError::CacheLoadFailure);
        };
        if bytes.len() - (pos + 1) < iplen + 10 {
            return Err(FetchError::CacheLoadFailure);
        }
        let ipstart = pos + 1;
        let ip128 = read_be(bytes, ipstart, ipstart + iplen);
        proof {
            reveal_with_fuel(pow256, 17);
            lemma_be_bytes_bound(bytes@.subrange(ipstart as int, ipstart + iplen as int));
            lemma_nat_to_be_of_be(bytes@.subrange(ipstart as int, ipstart + iplen as int));
        }
        let pstart = ipstart + iplen;
        let port128 = read_be(bytes, pstart, pstart + 2);
        proof {
            lemma_be_bytes_bound(bytes@.subrange(pstart as int, pstart + 2 as int));
            lemma_nat_to_be_of_be(bytes@.subrange(pstart as int, pstart + 2 as int));
        }
        let estart = pstart + 2;
        let exp128 = read_be(bytes, estart, estart + 8);
        proof {
            lemma_be_bytes_bound(bytes@.subrange(estart as int, estart + 8 as int));
            lemma_nat_to_be_of_be(bytes@.subrange(estart as int, estart + 8 as int));
        }
        let addr = if tag == 4 {
            PeerAddr::V4 { ip: ip128 as u32, port: port128 as u16 }
        } else {
            PeerAddr::V6 { ip: ip128, port: port128 as u16 }
        };
        let peer = Peer { expire: exp128 as u64, addr };
        if pvec.len() > 0 {
            let last = pvec[pvec.len() - 1];
            if !crate::addr::peer_is_lt(&last, &peer) {
                return Err(FetchError::CacheLoadFailure);
            }
        }
        let mut m: usize = 0;
        while m < avec.len()
            invariant
                m <= avec@.len(),
                forall|w: int| 0 <= w < m ==> avec@[w].addr != addr,
            decreases avec@.len() - m,
        {
            if avec[m].addr == addr {
                return Err(FetchError::CacheLoadFailure);
            }
            m = m + 1;
        }
        let ghost pre_p = pvec@;
        let ghost pre_a = avec@;
        pvec.push(peer);
        avec.push(crate::directory::AddrEntry { addr, expire: peer.expire });
        pos = estart + 8;
        jp = jp + 1;
        proof {
            assert(pvec@.drop_last() =~= pre_p);
            assert(avec@.drop_last() =~= pre_a);
            // Strict order extends from the previous last element.
            assert forall|p: int, q: int| 0 <= p < q < pvec@.len() implies crate::addr::peer_lt(
                pvec@[p],
                pvec@[q],
            ) by {
                if q == pvec@.len() - 1 {
                    if p < pre_p.len() - 1 {
                        assert(crate::addr::peer_lt(pre_p[p], pre_p[pre_p.len() - 1]));
                        crate::addr::lemma_peer_lt_transitive(
                            pre_p[p],
                            pre_p[pre_p.len() - 1],
                            peer,
                        );
                    }
                } else {
                    assert(crate::addr::peer_lt(pre_p[p], pre_p[q]));
                }
            }
            assert forall|p: int, q: int| 0 <= p < q < avec@.len() implies avec@[p].addr
                != avec@[q].addr by {
                if q < pre_a.len() as int {
                    assert(pre_a[p].addr != pre_a[q].addr);
                } else {
                    assert(pre_a[p].addr != addr);
                }
            }
            // Consumed bytes grow by exactly this peer's encoding.
            assert(enc_peers(pvec@) == enc_peers(pre_p) + enc_peer(pvec@.last()));
            assert(seq![tag] =~= bytes@.subrange(pos0, pos0 + 1));
            assert(enc_peer(peer) =~= bytes@.subrange(pos0, pos as int));
            assert(bytes@.subrange(0, pos as int) =~= bytes@.subrange(0, pos0) + bytes@.subrange(
                pos0,
                pos as int,
            ));
            assert(bytes@.subrange(0, pos as int) =~= head1 + enc_peers(pvec@));
        }
    }
    if pos != bytes.len() {
        return Err(FetchError::CacheLoadFailure);
    }
    let d = TorrentCache { size, trackers: tvec, peers_time: pvec, peers_addr: avec };
    proof {
        // Bijection between the two indices, entry by entry.
        assert forall|w: int| 0 <= w < d.peers_time@.len() implies d.addrs_view().contains_pair(
            d.peers_time@[w].addr,
            d.peers_time@[w].expire,
        ) by {
            crate::directory::lemma_addrs_map_entry(d.peers_addr@, w);
        }
        assert forall|w: int| 0 <= w < d.peers_addr@.len() implies d.peers_time@.contains(
            Peer { expire: d.peers_addr@[w].expire, addr: d.peers_addr@[w].addr },
        ) by {
            assert(d.peers_time@[w] == (Peer {
                expire: d.peers_addr@[w].expire,
                addr: d.peers_addr@[w].addr,
            }));
        }
        assert(bytes@.subrange(0, bytes@.len() as int) =~= bytes@);
        assert(spec_snapshot(d) =~= bytes@);
    }
    Ok(d)
}

} // verus!

verus! {

/// One path component appended to a base path: a separator is inserted
/// unless the base is empty or already ends with one.
pub open spec fn spec_path_join(base: Seq<u8>, name: Seq<u8>) -> Seq<u8> {
    if base.len() == 0 {
        name
    } else if base.last() == 47 {
        base + name
    } else {
        base + seq![47u8] + name
    }
}

/// `.cache` as bytes.
pub open spec fn spec_cache_suffix() -> Seq<u8> {
    seq![46u8, 99, 97, 99, 104, 101]
}

/// `btc` as bytes.
pub open spec fn spec_app_dir() -> Seq<u8> {
    seq![98u8, 116, 99]
}

/// Where the cache root lives, by precedence: an explicit override, then
/// the user cache home, then `.cache` under the home directory; always
/// suffixed with the application directory.
pub open spec fn spec_cache_root(
    root_override: Option<Vec<u8>>,
    cache_home: Option<Vec<u8>>,
    home: Vec<u8>,
) -> Seq<u8> {
    let base = match root_override {
        Option::Some(r) => r@,
        Option::None => match cache_home {
            Option::Some(c) => c@,
            Option::None => spec_path_join(home@, spec_cache_suffix()),
        },
    };
    spec_path_join(base, spec_app_dir())
}

/// Appends one path component, inserting a separator when one is needed.
fn path_join(base: &mut Vec<u8>, name: &[u8])
    ensures
        final(base)@ == spec_path_join(old(base)@, name@),
{
    if base.len() > 0 {
        let last = base[base.len() - 1];
        if last != 47 {
            base.push(47);
        }
    }
    base.extend_from_slice(name);
    proof {
        if old(base)@.len() == 0 {
            assert(base@ =~= name@);
        } else if old(base)@.last() == 47 {
            assert(base@ =~= old(base)@ + name@);
        } else {
            assert(base@ =~= old(base)@ + seq![47u8] + name@);
        }
    }
}

/// Resolves the cache root directory from the three environment values, by
/// their precedence.
pub fn cache_root_dir(
    root_override: Option<Vec<u8>>,
    cache_home: Option<Vec<u8>>,
    home: Vec<u8>,
) -> (r: Vec<u8>)
    ensures
        r@ == spec_cache_root(root_override, cache_home, home),
{
    let mut base = match root_override {
        Some(x) => x,
        None => match cache_home {
            Some(c) => c,
            None => {
                let mut h = home;
                let suffix: &[u8] = &[46u8, 99, 97, 99, 104, 101];
                proof {
                    assert(suffix@ =~= spec_cache_suffix());
                }
                path_join(&mut h, suffix);
                h
            },
        },
    };
    let app: &[u8] = &[98u8, 116, 99];
    proof {
        assert(app@ =~= spec_app_dir());
    }
    path_join(&mut base, app);
    base
}

} // verus!

verus! {

/// Equal concatenations with equally long heads have equal parts.
proof fn lemma_concat_split(a1: Seq<u8>, b1: Seq<u8>, a2: Seq<u8>, b2: Seq<u8>)
    requires
        a1.len() == a2.len(),
        a1 + b1 == a2 + b2,
    ensures
        a1 == a2,
        b1 == b2,
{
    assert(a1 =~= (a1 + b1).subrange(0, a1.len() as int));
    assert(a2 =~= (a2 + b2).subrange(0, a2.len() as int));
    assert(b1 =~= (a1 + b1).subrange(a1.len() as int, (a1 + b1).len() as int));
    assert(b2 =~= (a2 + b2).subrange(a2.len() as int, (a2 + b2).len() as int));
}

/// Fixed-width encodings of values in range are injective.
proof fn lemma_nat_to_be_injective(x: nat, y: nat, len: nat)
    requires
        x < pow256(len),
        y < pow256(len),
        nat_to_be_bytes(x, len) == nat_to_be_bytes(y, len),
    ensures
        x == y,
{
    lemma_be_of_nat_to_be(x, len);
    lemma_be_of_nat_to_be(y, len);
}

/// The tracker bytes may also be peeled from the front.
proof fn lemma_enc_trackers_front(s: Seq<TrackerEntry>)
    requires
        s.len() > 0,
    ensures
        enc_trackers(s) == enc_tracker(s[0]) + enc_trackers(s.drop_first()),
    decreases s.len(),
{
    if s.len() == 1 {
        assert(s.drop_last() =~= Seq::<TrackerEntry>::empty());
        assert(s.drop_first() =~= Seq::<TrackerEntry>::empty());
        assert(enc_trackers(s) =~= enc_tracker(s[0]) + enc_trackers(s.drop_first()));
    } else {
        lemma_enc_trackers_front(s.drop_last());
        assert(s.drop_last()[0] == s[0]);
        assert(s.drop_last().drop_first() =~= s.drop_first().drop_last());
        assert(s.drop_first().last() == s.last());
        assert(enc_trackers(s.drop_first()) == enc_trackers(s.drop_first().drop_last())
            + enc_tracker(s.last()));
        assert((enc_tracker(s[0]) + enc_trackers(s.drop_first().drop_last())) + enc_tracker(
            s.last(),
        ) =~= enc_tracker(s[0]) + (enc_trackers(s.drop_first().drop_last()) + enc_tracker(
            s.last(),
        )));
    }
}

/// The peer bytes may also be peeled from the front.
proof fn lemma_enc_peers_front(s: Seq<Peer>)
    requires
        s.len() > 0,
    ensures
        enc_peers(s) == enc_peer(s[0]) + enc_peers(s.drop_first()),
    decreases s.len(),
{
    if s.len() == 1 {
        assert(s.drop_last() =~= Seq::<Peer>::empty());
        assert(s.drop_first() =~= Seq::<Peer>::empty());
        assert(enc_peers(s) =~= enc_peer(s[0]) + enc_peers(s.drop_first()));
    } else {
        lemma_enc_peers_front(s.drop_last());
        assert(s.drop_last()[0] == s[0]);
        assert(s.drop_last().drop_first() =~= s.drop_first().drop_last());
        assert(s.drop_first().last() == s.last());
        assert(enc_peers(s.drop_first()) == enc_peers(s.drop_first().drop_last()) + enc_peer(
            s.last(),
        ));
        assert((enc_peer(s[0]) + enc_peers(s.drop_first().drop_last())) + enc_peer(s.last())
            =~= enc_peer(s[0]) + (enc_peers(s.drop_first().drop_last()) + enc_peer(s.last())));
    }
}

/// Equally many tracker entries with equal bytes carry equal keys and
/// expiries, and leave equal remainders.
proof fn lemma_trackers_bytes_determine(
    ta: Seq<TrackerEntry>,
    tb: Seq<TrackerEntry>,
    ra: Seq<u8>,
    rb: Seq<u8>,
)
    requires
        ta.len() == tb.len(),
        forall|i: int| 0 <= i < ta.len() ==> (#[trigger] ta[i]).key@.len() < pow256(8),
        forall|i: int| 0 <= i < tb.len() ==> (#[trigger] tb[i]).key@.len() < pow256(8),
        enc_trackers(ta) + ra == enc_trackers(tb) + rb,
    ensures
        ra == rb,
        forall|i: int|
            0 <= i < ta.len() ==> (#[trigger] ta[i]).key@ == tb[i].key@ && ta[i].expire
                == tb[i].expire,
    decreases ta.len(),
{
    reveal_with_fuel(pow256, 17);
    if ta.len() == 0 {
        assert(enc_trackers(ta) =~= Seq::<u8>::empty());
        assert(enc_trackers(tb) =~= Seq::<u8>::empty());
        assert(ra =~= Seq::<u8>::empty() + ra);
        assert(rb =~= Seq::<u8>::empty() + rb);
    } else {
        lemma_enc_trackers_front(ta);
        lemma_enc_trackers_front(tb);
        let ea = ta[0];
        let eb = tb[0];
        let resta = enc_trackers(ta.drop_first()) + ra;
        let restb = enc_trackers(tb.drop_first()) + rb;
        assert((enc_tracker(ea) + enc_trackers(ta.drop_first())) + ra =~= enc_tracker(ea)
            + resta);
        assert((enc_tracker(eb) + enc_trackers(tb.drop_first())) + rb =~= enc_tracker(eb)
            + restb);
        // Key lengths sit in the first eight bytes of both sides.
        lemma_nat_to_be_len(ea.key@.len(), 8);
        lemma_nat_to_be_len(eb.key@.len(), 8);
        lemma_nat_to_be_len(ea.expire as nat, 8);
        lemma_nat_to_be_len(eb.expire as nat, 8);
        let whole_a = enc_tracker(ea) + resta;
        let whole_b = enc_tracker(eb) + restb;
        assert(whole_a == whole_b);
        assert(nat_to_be_bytes(ea.key@.len(), 8) =~= whole_a.subrange(0, 8));
        assert(nat_to_be_bytes(eb.key@.len(), 8) =~= whole_b.subrange(0, 8));
        lemma_nat_to_be_injective(ea.key@.len(), eb.key@.len(), 8);
        // With equal lengths, keys, expiries and remainders split off.
        assert(enc_tracker(ea) + resta =~= nat_to_be_bytes(ea.key@.len(), 8) + (ea.key@
            + (nat_to_be_bytes(ea.expire as nat, 8) + resta)));
        assert(enc_tracker(eb) + restb =~= nat_to_be_bytes(eb.key@.len(), 8) + (eb.key@
            + (nat_to_be_bytes(eb.expire as nat, 8) + restb)));
        lemma_concat_split(
            nat_to_be_bytes(ea.key@.len(), 8),
            ea.key@ + (nat_to_be_bytes(ea.expire as nat, 8) + resta),
            nat_to_be_bytes(eb.key@.len(), 8),
            eb.key@ + (nat_to_be_bytes(eb.expire as nat, 8) + restb),
        );
        lemma_concat_split(
            ea.key@,
            nat_to_be_bytes(ea.expire as nat, 8) + resta,
            eb.key@,
            nat_to_be_bytes(eb.expire as nat, 8) + restb,
        );
        lemma_concat_split(
            nat_to_be_bytes(ea.expire as nat, 8),
            resta,
            nat_to_be_bytes(eb.expire as nat, 8),
            restb,
        );
        lemma_nat_to_be_injective(ea.expire as nat, eb.expire as nat, 8);
        assert forall|i: int| 0 <= i < ta.drop_first().len() implies (#[trigger] ta.drop_first()[
            i
        ]).key@.len() < pow256(8) by {
            assert(ta.drop_first()[i] == ta[i + 1]);
        }
        assert forall|i: int| 0 <= i < tb.drop_first().len() implies (#[trigger] tb.drop_first()[
            i
        ]).key@.len() < pow256(8) by {
            assert(tb.drop_first()[i] == tb[i + 1]);
        }
        lemma_trackers_bytes_determine(ta.drop_first(), tb.drop_first(), ra, rb);
        assert forall|i: int| 0 <= i < ta.len() implies (#[trigger] ta[i]).key@ == tb[i].key@
            && ta[i].expire == tb[i].expire by {
            if i > 0 {
                assert(ta.drop_first()[i - 1] == ta[i]);
                assert(tb.drop_first()[i - 1] == tb[i]);
            }
        }
    }
}

/// Equally many peers with equal bytes are the same peers, and leave equal
/// remainders.
proof fn lemma_peers_bytes_determine(pa: Seq<Peer>, pb: Seq<Peer>, ra: Seq<u8>, rb: Seq<u8>)
    requires
        pa.len() == pb.len(),
        enc_peers(pa) + ra == enc_peers(pb) + rb,
    ensures
        ra == rb,
        pa == pb,
    decreases pa.len(),
{
    if pa.len() == 0 {
        assert(enc_peers(pa) =~= Seq::<u8>::empty());
        assert(enc_peers(pb) =~= Seq::<u8>::empty());
        assert(ra =~= Seq::<u8>::empty() + ra);
        assert(rb =~= Seq::<u8>::empty() + rb);
        assert(pa =~= pb);
    } else {
        lemma_enc_peers_front(pa);
        lemma_enc_peers_front(pb);
        let ha = pa[0];
        let hb = pb[0];
        let resta = enc_peers(pa.drop_first()) + ra;
        let restb = enc_peers(pb.drop_first()) + rb;
        assert((enc_peer(ha) + enc_peers(pa.drop_first())) + ra =~= enc_peer(ha) + resta);
        assert((enc_peer(hb) + enc_peers(pb.drop_first())) + rb =~= enc_peer(hb) + restb);
        let whole_a = enc_peer(ha) + resta;
        let whole_b = enc_peer(hb) + restb;
        assert(whole_a == whole_b);
        // The family tag is the first byte of both sides.
        proof_peer_head(ha, hb, resta, restb);
        lemma_peers_bytes_determine(pa.drop_first(), pb.drop_first(), ra, rb);
        assert forall|i: int| 0 <= i < pa.len() implies pa[i] == pb[i] by {
            if i > 0 {
                assert(pa.drop_first()[i - 1] == pa[i]);
                assert(pb.drop_first()[i - 1] == pb[i]);
            }
        }
        assert(pa =~= pb);
    }
}

/// Equal head bytes force equal head peers and equal remainders.
proof fn proof_peer_head(ha: Peer, hb: Peer, resta: Seq<u8>, restb: Seq<u8>)
    requires
        enc_peer(ha) + resta == enc_peer(hb) + restb,
    ensures
        ha == hb,
        resta == restb,
{
    reveal_with_fuel(pow256, 17);
    let whole = enc_peer(ha) + resta;
    match (ha.addr, hb.addr) {
        (PeerAddr::V4 { ip: ia, port: qa }, PeerAddr::V4 { ip: ib, port: qb }) => {
            peer_fields_split(seq![4u8], ia as nat, 4, qa, ha.expire, resta, whole);
            peer_fields_split(seq![4u8], ib as nat, 4, qb, hb.expire, restb, whole);
            lemma_nat_to_be_injective(ia as nat, ib as nat, 4);
            lemma_nat_to_be_injective(qa as nat, qb as nat, 2);
            lemma_nat_to_be_injective(ha.expire as nat, hb.expire as nat, 8);
            lemma_concat_split(
                seq![4u8] + nat_to_be_bytes(ia as nat, 4) + nat_to_be_bytes(qa as nat, 2)
                    + nat_to_be_bytes(ha.expire as nat, 8),
                resta,
                seq![4u8] + nat_to_be_bytes(ib as nat, 4) + nat_to_be_bytes(qb as nat, 2)
                    + nat_to_be_bytes(hb.expire as nat, 8),
                restb,
            );
        },
        (PeerAddr::V6 { ip: ia, port: qa }, PeerAddr::V6 { ip: ib, port: qb }) => {
            peer_fields_split(seq![6u8], ia as nat, 16, qa, ha.expire, resta, whole);
            peer_fields_split(seq![6u8], ib as nat, 16, qb, hb.expire, restb, whole);
            lemma_nat_to_be_injective(ia as nat, ib as nat, 16);
            lemma_nat_to_be_injective(qa as nat, qb as nat, 2);
            lemma_nat_to_be_injective(ha.expire as nat, hb.expire as nat, 8);
            lemma_concat_split(
                seq![6u8] + nat_to_be_bytes(ia as nat, 16) + nat_to_be_bytes(qa as nat, 2)
                    + nat_to_be_bytes(ha.expire as nat, 8),
                resta,
                seq![6u8] + nat_to_be_bytes(ib as nat, 16) + nat_to_be_bytes(qb as nat, 2)
                    + nat_to_be_bytes(hb.expire as nat, 8),
                restb,
            );
        },
        (PeerAddr::V4 { .. }, PeerAddr::V6 { .. }) => {
            assert(whole[0] == 4 && whole[0] == 6);
        },
        (PeerAddr::V6 { .. }, PeerAddr::V4 { .. }) => {
            assert(whole[0] == 6 && whole[0] == 4);
        },
    }
}

/// Pins each field of a peer's encoding to its place in the whole string.
proof fn peer_fields_split(
    tag: Seq<u8>,
    ip: nat,
    iplen: nat,
    port: u16,
    expire: u64,
    rest: Seq<u8>,
    whole: Seq<u8>,
)
    requires
        tag.len() == 1,
        whole == tag + nat_to_be_bytes(ip, iplen) + nat_to_be_bytes(port as nat, 2)
            + nat_to_be_bytes(expire as nat, 8) + rest,
    ensures
        whole[0] == tag[0],
        nat_to_be_bytes(ip, iplen) == whole.subrange(1, 1 + iplen as int),
        nat_to_be_bytes(port as nat, 2) == whole.subrange(1 + iplen as int, 3 + iplen as int),
        nat_to_be_bytes(expire as nat, 8) == whole.subrange(3 + iplen as int, 11 + iplen as int),
        rest == whole.subrange(11 + iplen as int, whole.len() as int),
{
    lemma_nat_to_be_len(ip, iplen);
    lemma_nat_to_be_len(port as nat, 2);
    lemma_nat_to_be_len(expire as nat, 8);
    assert(nat_to_be_bytes(ip, iplen) =~= whole.subrange(1, 1 + iplen as int));
    assert(nat_to_be_bytes(port as nat, 2) =~= whole.subrange(
        1 + iplen as int,
        3 + iplen as int,
    ));
    assert(nat_to_be_bytes(expire as nat, 8) =~= whole.subrange(
        3 + iplen as int,
        11 + iplen as int,
    ));
    assert(rest =~= whole.subrange(11 + iplen as int, whole.len() as int));
}

/// Two directories with the same snapshot agree on everything the snapshot
/// stores: size, tracker keys and expiries in order, and the whole
/// by-expiry index.  With both well formed, the by-address maps agree too.
/// Together with the encoder's and decoder's exact contracts this makes
/// store-then-load return the stored directory, equal modulo the
/// by-address index's entry order.
pub proof fn lemma_snapshot_determines(a: TorrentCache, b: TorrentCache)
    requires
        a.wf(),
        b.wf(),
        spec_snapshot(a) == spec_snapshot(b),
        forall|i: int| 0 <= i < a.trackers@.len() ==> (#[trigger] a.trackers@[i]).key@.len()
            < pow256(8),
        forall|i: int| 0 <= i < b.trackers@.len() ==> (#[trigger] b.trackers@[i]).key@.len()
            < pow256(8),
        a.trackers@.len() < pow256(8),
        b.trackers@.len() < pow256(8),
        a.peers_time@.len() < pow256(8),
        b.peers_time@.len() < pow256(8),
    ensures
        a.size == b.size,
        a.trackers@.len() == b.trackers@.len(),
        forall|i: int|
            0 <= i < a.trackers@.len() ==> (#[trigger] a.trackers@[i]).key@ == b.trackers@[i].key@
                && a.trackers@[i].expire == b.trackers@[i].expire,
        a.peers_time@ == b.peers_time@,
        a.addrs_view() == b.addrs_view(),
{
    reveal_with_fuel(pow256, 17);
    let sa = spec_snapshot(a);
    lemma_nat_to_be_len(a.size as nat, 8);
    lemma_nat_to_be_len(b.size as nat, 8);
    lemma_nat_to_be_len(a.trackers@.len(), 8);
    lemma_nat_to_be_len(b.trackers@.len(), 8);
    lemma_nat_to_be_len(a.peers_time@.len(), 8);
    lemma_nat_to_be_len(b.peers_time@.len(), 8);
    assert(sa =~= nat_to_be_bytes(a.size as nat, 8) + (nat_to_be_bytes(a.trackers@.len(), 8)
        + (enc_trackers(a.trackers@) + (nat_to_be_bytes(a.peers_time@.len(), 8) + enc_peers(
        a.peers_time@,
    )))));
    assert(spec_snapshot(b) =~= nat_to_be_bytes(b.size as nat, 8) + (nat_to_be_bytes(
        b.trackers@.len(),
        8,
    ) + (enc_trackers(b.trackers@) + (nat_to_be_bytes(b.peers_time@.len(), 8) + enc_peers(
        b.peers_time@,
    )))));
    lemma_concat_split(
        nat_to_be_bytes(a.size as nat, 8),
        nat_to_be_bytes(a.trackers@.len(), 8) + (enc_trackers(a.trackers@) + (nat_to_be_bytes(
            a.peers_time@.len(),
            8,
        ) + enc_peers(a.peers_time@))),
        nat_to_be_bytes(b.size as nat, 8),
        nat_to_be_bytes(b.trackers@.len(), 8) + (enc_trackers(b.trackers@) + (nat_to_be_bytes(
            b.peers_time@.len(),
            8,
        ) + enc_peers(b.peers_time@))),
    );
    lemma_nat_to_be_injective(a.size as nat, b.size as nat, 8);
    lemma_concat_split(
        nat_to_be_bytes(a.trackers@.len(), 8),
        enc_trackers(a.trackers@) + (nat_to_be_bytes(a.peers_time@.len(), 8) + enc_peers(
            a.peers_time@,
        )),
        nat_to_be_bytes(b.trackers@.len(), 8),
        enc_trackers(b.trackers@) + (nat_to_be_bytes(b.peers_time@.len(), 8) + enc_peers(
            b.peers_time@,
        )),
    );
    lemma_nat_to_be_injective(a.trackers@.len(), b.trackers@.len(), 8);
    lemma_trackers_bytes_determine(
        a.trackers@,
        b.trackers@,
        nat_to_be_bytes(a.peers_time@.len(), 8) + enc_peers(a.peers_time@),
        nat_to_be_bytes(b.peers_time@.len(), 8) + enc_peers(b.peers_time@),
    );
    lemma_concat_split(
        nat_to_be_bytes(a.peers_time@.len(), 8),
        enc_peers(a.peers_time@),
        nat_to_be_bytes(b.peers_time@.len(), 8),
        enc_peers(b.peers_time@),
    );
    lemma_nat_to_be_injective(a.peers_time@.len(), b.peers_time@.len(), 8);
    assert(enc_peers(a.peers_time@) + Seq::<u8>::empty() =~= enc_peers(a.peers_time@));
    assert(enc_peers(b.peers_time@) + Seq::<u8>::empty() =~= enc_peers(b.peers_time@));
    lemma_peers_bytes_determine(
        a.peers_time@,
        b.peers_time@,
        Seq::<u8>::empty(),
        Seq::<u8>::empty(),
    );
    // Equal by-expiry indices plus well-formedness give equal maps.
    let ma = a.addrs_view();
    let mb = b.addrs_view();
    assert forall|ad: PeerAddr| #[trigger] ma.dom().contains(ad) implies mb.dom().contains(ad)
        && ma[ad] == mb[ad] by {
        let j = choose|j: int| 0 <= j < a.peers_addr@.len() && a.peers_addr@[j].addr == ad;
        crate::directory::lemma_addrs_map_entry(a.peers_addr@, j);
        let q = Peer { expire: a.peers_addr@[j].expire, addr: a.peers_addr@[j].addr };
        assert(a.peers_time@.contains(q));
        let w = choose|w: int| 0 <= w < a.peers_time@.len() && a.peers_time@[w] == q;
        assert(b.peers_time@[w] == q);
        assert(mb.contains_pair(q.addr, q.expire));
    }
    assert forall|ad: PeerAddr| #[trigger] mb.dom().contains(ad) implies ma.dom().contains(
        ad,
    ) by {
        let j = choose|j: int| 0 <= j < b.peers_addr@.len() && b.peers_addr@[j].addr == ad;
        crate::directory::lemma_addrs_map_entry(b.peers_addr@, j);
        let q = Peer { expire: b.peers_addr@[j].expire, addr: b.peers_addr@[j].addr };
        assert(b.peers_time@.contains(q));
        let w = choose|w: int| 0 <= w < b.peers_time@.len() && b.peers_time@[w] == q;
        assert(a.peers_time@[w] == q);
        assert(ma.contains_pair(q.addr, q.expire));
    }
    assert(ma =~= mb);
}

} // verus!
