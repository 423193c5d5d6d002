//! Announce responses: parsing the origin's bencoded reply, and projecting
//! a cached directory into the reply served to clients.

use vstd::prelude::*;

use crate::addr::{Peer, PeerAddr, spec_peer_compact, serialize_peer_binary};
use crate::bencode::{
    BValue, BencodeObject, bview, bview_pairs, lemma_bview_pairs_index, parse_bencode,
    parse_u64_digits, spec_all_digits, spec_dec_value, spec_parse,
};
use crate::directory::TorrentCache;
use crate::errors::FetchError;

verus! {

/// A parsed announce response.  Every recognized field of the origin's
/// bencoded dictionary; unknown keys are ignored.
pub struct AnnounceResponse {
    pub failure_reason: Option<Vec<u8>>,
    pub warning_message: Option<Vec<u8>>,
    pub interval: Option<u64>,
    pub min_interval: Option<u64>,
    pub tracker_id: Option<Vec<u8>>,
    pub seeders: Option<u64>,
    pub leechers: Option<u64>,
    /// Compact IPv4 peers, 6 bytes each.
    pub peers: Option<Vec<u8>>,
    /// Compact IPv6 peers, 18 bytes each.
    pub peers6: Option<Vec<u8>>,
}

/// The value stored under a byte-string key, the last occurrence winning.
pub open spec fn spec_dict_get(pairs: Seq<(BValue, BValue)>, name: Seq<u8>) -> Option<BValue>
    decreases pairs.len(),
{
    if pairs.len() == 0 {
        Option::None
    } else if (pairs.last().0 matches BValue::Bytes(_, Some(b)) && b == name) {
        Option::Some(pairs.last().1)
    } else {
        spec_dict_get(pairs.drop_last(), name)
    }
}

/// A byte-string field: present iff the key maps to a byte string.
pub open spec fn spec_dict_bytes(pairs: Seq<(BValue, BValue)>, name: Seq<u8>) -> Option<Seq<u8>> {
    match spec_dict_get(pairs, name) {
        Option::Some(BValue::Bytes(_, Option::Some(b))) => Option::Some(b),
        Option::Some(BValue::Bytes(_, Option::None)) => Option::Some(Seq::empty()),
        _ => Option::None,
    }
}

/// An integer field: present iff the key maps to an integer whose body is a
/// plain decimal that fits.
pub open spec fn spec_dict_u64(pairs: Seq<(BValue, BValue)>, name: Seq<u8>) -> Option<u64> {
    match spec_dict_get(pairs, name) {
        Option::Some(BValue::Integer(s)) => if spec_all_digits(s) && spec_dec_value(s)
            <= u64::MAX {
            Option::Some(spec_dec_value(s) as u64)
        } else {
            Option::None
        },
        _ => Option::None,
    }
}

/// Key names of the announce response dictionary.
pub open spec fn name_failure_reason() -> Seq<u8> {
    seq![102u8, 97, 105, 108, 117, 114, 101, 32, 114, 101, 97, 115, 111, 110]
}

pub open spec fn name_warning_message() -> Seq<u8> {
    seq![119u8, 97, 114, 110, 105, 110, 103, 32, 109, 101, 115, 115, 97, 103, 101]
}

pub open spec fn name_interval() -> Seq<u8> {
    seq![105u8, 110, 116, 101, 114, 118, 97, 108]
}

pub open spec fn name_min_interval() -> Seq<u8> {
    seq![109u8, 105, 110, 32, 105, 110, 116, 101, 114, 118, 97, 108]
}

pub open spec fn name_tracker_id() -> Seq<u8> {
    seq![116u8, 114, 97, 99, 107, 101, 114, 32, 105, 100]
}

pub open spec fn name_complete() -> Seq<u8> {
    seq![99u8, 111, 109, 112, 108, 101, 116, 101]
}

pub open spec fn name_incomplete() -> Seq<u8> {
    seq![105u8, 110, 99, 111, 109, 112, 108, 101, 116, 101]
}

pub open spec fn name_peers() -> Seq<u8> {
    seq![112u8, 101, 101, 114, 115]
}

pub open spec fn name_peers6() -> Seq<u8> {
    seq![112u8, 101, 101, 114, 115, 54]
}

/// What a parsed response must hold, given the dictionary pairs the reply
/// decoded to.
pub open spec fn response_matches(r: AnnounceResponse, pairs: Seq<(BValue, BValue)>) -> bool {
    &&& (match r.failure_reason {
        Option::Some(v) => spec_dict_bytes(pairs, name_failure_reason()) == Option::Some(v@),
        Option::None => spec_dict_bytes(pairs, name_failure_reason()) is None,
    })
    &&& (match r.warning_message {
        Option::Some(v) => spec_dict_bytes(pairs, name_warning_message()) == Option::Some(v@),
        Option::None => spec_dict_bytes(pairs, name_warning_message()) is None,
    })
    &&& r.interval == spec_dict_u64(pairs, name_interval())
    &&& r.min_interval == spec_dict_u64(pairs, name_min_interval())
    &&& (match r.tracker_id {
        Option::Some(v) => spec_dict_bytes(pairs, name_tracker_id()) == Option::Some(v@),
        Option::None => spec_dict_bytes(pairs, name_tracker_id()) is None,
    })
    &&& r.seeders == spec_dict_u64(pairs, name_complete())
    &&& r.leechers == spec_dict_u64(pairs, name_incomplete())
    &&& (match r.peers {
        Option::Some(v) => spec_dict_bytes(pairs, name_peers()) == Option::Some(v@),
        Option::None => spec_dict_bytes(pairs, name_peers()) is None,
    })
    &&& (match r.peers6 {
        Option::Some(v) => spec_dict_bytes(pairs, name_peers6()) == Option::Some(v@),
        Option::None => spec_dict_bytes(pairs, name_peers6()) is None,
    })
}

/// Whether the fully parsed input has the response shape: the root list
/// holds exactly one object, a dictionary.
pub open spec fn spec_response_pairs(bytes: Seq<u8>) -> Option<Seq<(BValue, BValue)>> {
    match spec_parse(bytes) {
        Option::Some(st) => {
            if (st.last() matches BValue::List(items)) && st.last()->List_0.len() == 1 && (
            st.last()->List_0[0] matches BValue::Dict(pairs)) {
                Option::Some(st.last()->List_0[0]->Dict_0)
            } else {
                Option::None
            }
        },
        Option::None => Option::None,
    }
}

/// Reads one field's worth out of a pair, byte-string shaped.
fn bytes_of(v: &BencodeObject) -> (r: Option<Vec<u8>>)
    ensures
        match bview(*v) {
            BValue::Bytes(_, Option::Some(b)) => r is Some && r.unwrap()@ == b,
            BValue::Bytes(_, Option::None) => r is Some && r.unwrap()@ == Seq::<u8>::empty(),
            _ => r is None,
        },
{
    match v {
        BencodeObject::Bytes(_, Some(b)) => Some(b.clone()),
        BencodeObject::Bytes(_, None) => Some(Vec::new()),
        _ => None,
    }
}

/// Reads one field's worth out of a pair, integer shaped.
fn u64_of(v: &BencodeObject) -> (r: Option<u64>)
    ensures
        match bview(*v) {
            BValue::Integer(s) => if spec_all_digits(s) && spec_dec_value(s) <= u64::MAX {
                r == Option::Some(spec_dec_value(s) as u64)
            } else {
                r is None
            },
            _ => r is None,
        },
{
    match v {
        BencodeObject::Integer(s) => parse_u64_digits(s),
        _ => None,
    }
}

/// Parses the origin's bencoded announce reply.  Fails with a protocol
/// error when the bytes do not parse or do not hold a single dictionary.
#[verifier::rlimit(50)]
pub fn parse_announce_response(bytes: &[u8]) -> (r: Result<AnnounceResponse, FetchError>)
    ensures
        match spec_response_pairs(bytes@) {
            Option::Some(pairs) => r matches Ok(resp) && response_matches(resp, pairs),
            Option::None => r matches Err(e) && e == FetchError::OriginProtocol,
        },
{
    let root = match parse_bencode(bytes) {
        Ok(o) => o,
        Err(_) => {
            return Err(FetchError::OriginProtocol);
        },
    };
    let items = match root {
        BencodeObject::List(items) => items,
        _ => {
            return Err(FetchError::OriginProtocol);
        },
    };
    if items.len() != 1 {
        proof {
            crate::bencode::lemma_bview_items_index(items@);
        }
        return Err(FetchError::OriginProtocol);
    }
    proof {
        crate::bencode::lemma_bview_items_index(items@);
    }
    let dict = &items[0];
    let pairs = match dict {
        BencodeObject::Dictionary(pairs) => pairs,
        _ => {
            return Err(FetchError::OriginProtocol);
        },
    };
    let ghost pv = bview_pairs(pairs@);
    proof {
        crate::bencode::lemma_bview_items_index(items@);
        assert(spec_response_pairs(bytes@) == Option::Some(pv));
    }
    let lit_fr: &[u8] = &[102u8, 97, 105, 108, 117, 114, 101, 32, 114, 101, 97, 115, 111, 110];
    let lit_wm: &[u8] = &[119u8, 97, 114, 110, 105, 110, 103, 32, 109, 101, 115, 115, 97, 103,
        101];
    let lit_iv: &[u8] = &[105u8, 110, 116, 101, 114, 118, 97, 108];
    let lit_mi: &[u8] = &[109u8, 105, 110, 32, 105, 110, 116, 101, 114, 118, 97, 108];
    let lit_ti: &[u8] = &[116u8, 114, 97, 99, 107, 101, 114, 32, 105, 100];
    let lit_co: &[u8] = &[99u8, 111, 109, 112, 108, 101, 116, 101];
    let lit_in: &[u8] = &[105u8, 110, 99, 111, 109, 112, 108, 101, 116, 101];
    let lit_pe: &[u8] = &[112u8, 101, 101, 114, 115];
    let lit_p6: &[u8] = &[112u8, 101, 101, 114, 115, 54];
    proof {
        assert(lit_fr@ =~= name_failure_reason());
        assert(lit_wm@ =~= name_warning_message());
        assert(lit_iv@ =~= name_interval());
        assert(lit_mi@ =~= name_min_interval());
        assert(lit_ti@ =~= name_tracker_id());
        assert(lit_co@ =~= name_complete());
        assert(lit_in@ =~= name_incomplete());
        assert(lit_pe@ =~= name_peers());
        assert(lit_p6@ =~= name_peers6());
    }
    let resp = AnnounceResponse {
        failure_reason: dict_get_bytes(pairs, lit_fr),
        warning_message: dict_get_bytes(pairs, lit_wm),
        interval: dict_get_u64(pairs, lit_iv),
        min_interval: dict_get_u64(pairs, lit_mi),
        tracker_id: dict_get_bytes(pairs, lit_ti),
        seeders: dict_get_u64(pairs, lit_co),
        leechers: dict_get_u64(pairs, lit_in),
        peers: dict_get_bytes(pairs, lit_pe),
        peers6: dict_get_bytes(pairs, lit_p6),
    };
        Ok(resp)
}


/// Index of the last pair whose key is the given byte string; what the
/// dictionary holds under that key is that pair's value.
fn dict_find(pairs: &Vec<(BencodeObject, BencodeObject)>, lit: &[u8]) -> (r: Option<usize>)
    ensures
        match r {
            Some(j) => j < pairs@.len() && spec_dict_get(bview_pairs(pairs@), lit@)
                == Option::Some(bview_pairs(pairs@)[j as int].1),
            None => spec_dict_get(bview_pairs(pairs@), lit@) is None,
        },
{
    let ghost pv = bview_pairs(pairs@);
    proof {
        lemma_bview_pairs_index(pairs@);
        assert(pv.subrange(0, pv.len() as int) =~= pv);
    }
    let mut j: usize = pairs.len();
    while j > 0
        invariant
            j <= pairs@.len(),
            pv == bview_pairs(pairs@),
            spec_dict_get(pv, lit@) == spec_dict_get(pv.subrange(0, j as int), lit@),
        decreases j,
    {
        proof {
            lemma_bview_pairs_index(pairs@);
            assert(pv.subrange(0, j as int).drop_last() =~= pv.subrange(0, j - 1));
            assert(pv.subrange(0, j as int).last() == pv[j - 1]);
        }
        let matched = match &pairs[j - 1].0 {
            BencodeObject::Bytes(_, Some(kb)) => bytes_eq_lit(kb, lit),
            _ => false,
        };
        if matched {
            return Some(j - 1);
        }
        j = j - 1;
    }
    proof {
        assert(pv.subrange(0, 0) =~= Seq::<(BValue, BValue)>::empty());
    }
    None
}

/// The byte-string field stored under a key, if any.
fn dict_get_bytes(pairs: &Vec<(BencodeObject, BencodeObject)>, lit: &[u8]) -> (r: Option<Vec<u8>>)
    ensures
        match r {
            Some(v) => spec_dict_bytes(bview_pairs(pairs@), lit@) == Option::Some(v@),
            None => spec_dict_bytes(bview_pairs(pairs@), lit@) is None,
        },
{
    proof {
        lemma_bview_pairs_index(pairs@);
    }
    match dict_find(pairs, lit) {
        Some(j) => bytes_of(&pairs[j].1),
        None => None,
    }
}

/// The integer field stored under a key, if any.
fn dict_get_u64(pairs: &Vec<(BencodeObject, BencodeObject)>, lit: &[u8]) -> (r: Option<u64>)
    ensures
        r == spec_dict_u64(bview_pairs(pairs@), lit@),
{
    proof {
        lemma_bview_pairs_index(pairs@);
    }
    match dict_find(pairs, lit) {
        Some(j) => u64_of(&pairs[j].1),
        None => None,
    }
}

/// Byte-string equality against a literal slice.
pub fn bytes_eq_lit(a: &Vec<u8>, b: &[u8]) -> (r: bool)
    ensures
        r == (a@ == b@),
{
    if a.len() != b.len() {
        proof {
            assert(a@.len() != b@.len());
        }
        return false;
    }
    let mut i: usize = 0;
    while i < a.len()
        invariant
            a@.len() == b@.len(),
            i <= a@.len(),
            forall|j: int| 0 <= j < i ==> a@[j] == b@[j],
        decreases a@.len() - i,
    {
        if a[i] != b[i] {
            return false;
        }
        i = i + 1;
    }
    proof {
        assert(a@ =~= b@);
    }
    true
}

/// Compact IPv4 bytes of the peers in a by-expiry index, in index order.
pub open spec fn spec_compact_v4(s: Seq<Peer>) -> Seq<u8>
    decreases s.len(),
{
    if s.len() == 0 {
        Seq::empty()
    } else {
        spec_compact_v4(s.drop_last()) + (if s.last().addr is V4 {
            spec_peer_compact(s.last().addr)
        } else {
            Seq::empty()
        })
    }
}

/// Compact IPv6 bytes of the peers in a by-expiry index, in index order.
pub open spec fn spec_compact_v6(s: Seq<Peer>) -> Seq<u8>
    decreases s.len(),
{
    if s.len() == 0 {
        Seq::empty()
    } else {
        spec_compact_v6(s.drop_last()) + (if s.last().addr is V6 {
            spec_peer_compact(s.last().addr)
        } else {
            Seq::empty()
        })
    }
}

impl AnnounceResponse {
    /// Projects a cached directory into the reply served to clients: fixed
    /// 30-second intervals, no seeder claim, the directory's peer count, and
    /// the compact forms of its peers by address family, in by-expiry order.
    pub fn from_cache(value: &TorrentCache) -> (r: AnnounceResponse)
        ensures
            r.failure_reason is None,
            r.warning_message is None,
            r.interval == Option::Some(30u64),
            r.min_interval == Option::Some(30u64),
            r.tracker_id is None,
            r.seeders == Option::Some(0u64),
            r.leechers == Option::Some(value.peers_addr@.len() as u64),
            r.peers is Some && r.peers.unwrap()@ == spec_compact_v4(value.peers_time@),
            r.peers6 is Some && r.peers6.unwrap()@ == spec_compact_v6(value.peers_time@),
    {
        let mut peers: Vec<u8> = Vec::new();
        let mut peers6: Vec<u8> = Vec::new();
        let mut i: usize = 0;
        while i < value.peers_time.len()
            invariant
                i <= value.peers_time@.len(),
                peers@ == spec_compact_v4(value.peers_time@.subrange(0, i as int)),
                peers6@ == spec_compact_v6(value.peers_time@.subrange(0, i as int)),
            decreases value.peers_time@.len() - i,
        {
            proof {
                assert(value.peers_time@.subrange(0, i + 1 as int).drop_last()
                    =~= value.peers_time@.subrange(0, i as int));
            }
            let p = value.peers_time[i];
            let enc = serialize_peer_binary(&p.addr);
            match p.addr {
                PeerAddr::V4 { .. } => {
                    peers.extend_from_slice(enc.as_slice());
                    proof {
                        assert(peers6@ + Seq::<u8>::empty() =~= peers6@);
                    }
                },
                PeerAddr::V6 { .. } => {
                    peers6.extend_from_slice(enc.as_slice());
                    proof {
                        assert(peers@ + Seq::<u8>::empty() =~= peers@);
                    }
                },
            }
            i = i + 1;
        }
        proof {
            assert(value.peers_time@.subrange(0, value.peers_time@.len() as int)
                =~= value.peers_time@);
        }
        AnnounceResponse {
            failure_reason: None,
            warning_message: None,
            interval: Some(30),
            min_interval: Some(30),
            tracker_id: None,
            seeders: Some(0),
            leechers: Some(value.peers_addr.len() as u64),
            peers: Some(peers),
            peers6: Some(peers6),
        }
    }

    /// The bencode object of this response, for serving: the present fields
    /// in their canonical order, each value in its bencode shape.
    pub fn to_bencode(&self) -> (r: BencodeObject)
        ensures
            bview(r) matches BValue::Dict(pairs) && pairs == spec_response_value(*self),
    {
        let mut pairs: Vec<(BencodeObject, BencodeObject)> = Vec::new();
        proof {
            assert(crate::bencode::bview_pairs(pairs@) =~= Seq::<(BValue, BValue)>::empty());
        }
        if let Some(v) = &self.failure_reason {
            push_bytes_pair(&mut pairs, &[102u8, 97, 105, 108, 117, 114, 101, 32, 114, 101, 97,
                115, 111, 110], v);
        }
        if let Some(v) = &self.warning_message {
            push_bytes_pair(&mut pairs, &[119u8, 97, 114, 110, 105, 110, 103, 32, 109, 101, 115,
                115, 97, 103, 101], v);
        }
        if let Some(n) = self.interval {
            push_int_pair(&mut pairs, &[105u8, 110, 116, 101, 114, 118, 97, 108], n);
        }
        if let Some(n) = self.min_interval {
            push_int_pair(&mut pairs, &[109u8, 105, 110, 32, 105, 110, 116, 101, 114, 118, 97,
                108], n);
        }
        if let Some(v) = &self.tracker_id {
            push_bytes_pair(&mut pairs, &[116u8, 114, 97, 99, 107, 101, 114, 32, 105, 100], v);
        }
        if let Some(n) = self.seeders {
            push_int_pair(&mut pairs, &[99u8, 111, 109, 112, 108, 101, 116, 101], n);
        }
        if let Some(n) = self.leechers {
            push_int_pair(&mut pairs, &[105u8, 110, 99, 111, 109, 112, 108, 101, 116, 101], n);
        }
        if let Some(v) = &self.peers {
            push_bytes_pair(&mut pairs, &[112u8, 101, 101, 114, 115], v);
        }
        if let Some(v) = &self.peers6 {
            push_bytes_pair(&mut pairs, &[112u8, 101, 101, 114, 115, 54], v);
        }
        proof {
            assert(crate::bencode::bview_pairs(pairs@) =~~= spec_response_value(*self));
        }
        BencodeObject::Dictionary(pairs)
    }
}

/// The dictionary pairs a response serializes to, in canonical order,
/// omitting absent fields.
pub open spec fn spec_response_value(r: AnnounceResponse) -> Seq<(BValue, BValue)> {
    opt_bytes_pair(name_failure_reason(), r.failure_reason) + opt_bytes_pair(
        name_warning_message(),
        r.warning_message,
    ) + opt_int_pair(name_interval(), r.interval) + opt_int_pair(
        name_min_interval(),
        r.min_interval,
    ) + opt_bytes_pair(name_tracker_id(), r.tracker_id) + opt_int_pair(
        name_complete(),
        r.seeders,
    ) + opt_int_pair(name_incomplete(), r.leechers) + opt_bytes_pair(name_peers(), r.peers)
        + opt_bytes_pair(name_peers6(), r.peers6)
}

/// A byte-string pair, or nothing.
pub open spec fn opt_bytes_pair(name: Seq<u8>, v: Option<Vec<u8>>) -> Seq<(BValue, BValue)> {
    match v {
        Option::Some(b) => seq![
            (
                BValue::Bytes(name.len(), Option::Some(name)),
                spec_bytes_value(b@),
            ),
        ],
        Option::None => Seq::empty(),
    }
}

/// A byte string in its bencode shape: a zero-length one carries no body.
pub open spec fn spec_bytes_value(b: Seq<u8>) -> BValue {
    if b.len() == 0 {
        BValue::Bytes(0, Option::None)
    } else {
        BValue::Bytes(b.len(), Option::Some(b))
    }
}

/// An integer pair, or nothing.
pub open spec fn opt_int_pair(name: Seq<u8>, v: Option<u64>) -> Seq<(BValue, BValue)> {
    match v {
        Option::Some(n) => seq![
            (
                BValue::Bytes(name.len(), Option::Some(name)),
                BValue::Integer(crate::bstr::spec_decimal(n as nat)),
            ),
        ],
        Option::None => Seq::empty(),
    }
}

/// Appends one byte-string pair to a dictionary under construction.
fn push_bytes_pair(pairs: &mut Vec<(BencodeObject, BencodeObject)>, name: &[u8], v: &Vec<u8>)
    ensures
        crate::bencode::bview_pairs(final(pairs)@) == crate::bencode::bview_pairs(old(pairs)@)
            + seq![(BValue::Bytes(name@.len(), Option::Some(name@)), spec_bytes_value(v@))],
{
    let key = BencodeObject::Bytes(name.len(), Some(slice_to_vec_u8(name)));
    let val = if v.len() == 0 {
        BencodeObject::Bytes(0, None)
    } else {
        BencodeObject::Bytes(v.len(), Some(v.clone()))
    };
    let ghost pre = pairs@;
    pairs.push((key, val));
    proof {
        assert(pairs@.drop_last() =~= pre);
        assert(bview(pairs@.last().0) == BValue::Bytes(name@.len(), Option::Some(name@)));
        assert(bview(pairs@.last().1) == spec_bytes_value(v@));
        assert(crate::bencode::bview_pairs(pairs@) == crate::bencode::bview_pairs(
            pairs@.drop_last(),
        ).push((bview(pairs@.last().0), bview(pairs@.last().1))));
        assert(crate::bencode::bview_pairs(pairs@) =~~= crate::bencode::bview_pairs(pre) + seq![
            (BValue::Bytes(name@.len(), Option::Some(name@)), spec_bytes_value(v@)),
        ]);
    }
}

/// Appends one integer pair to a dictionary under construction.
fn push_int_pair(pairs: &mut Vec<(BencodeObject, BencodeObject)>, name: &[u8], n: u64)
    ensures
        crate::bencode::bview_pairs(final(pairs)@) == crate::bencode::bview_pairs(old(pairs)@)
            + seq![
            (
                BValue::Bytes(name@.len(), Option::Some(name@)),
                BValue::Integer(crate::bstr::spec_decimal(n as nat)),
            ),
        ],
{
    let key = BencodeObject::Bytes(name.len(), Some(slice_to_vec_u8(name)));
    let body = crate::bstr::u64_to_decimal(n);
    let val = BencodeObject::Integer(body);
    let ghost pre = pairs@;
    pairs.push((key, val));
    proof {
        assert(pairs@.drop_last() =~= pre);
        assert(bview(pairs@.last().0) == BValue::Bytes(name@.len(), Option::Some(name@)));
        assert(bview(pairs@.last().1) == BValue::Integer(crate::bstr::spec_decimal(n as nat)));
        assert(crate::bencode::bview_pairs(pairs@) == crate::bencode::bview_pairs(
            pairs@.drop_last(),
        ).push((bview(pairs@.last().0), bview(pairs@.last().1))));
        assert(crate::bencode::bview_pairs(pairs@) =~~= crate::bencode::bview_pairs(pre) + seq![
            (
                BValue::Bytes(name@.len(), Option::Some(name@)),
                BValue::Integer(crate::bstr::spec_decimal(n as nat)),
            ),
        ]);
    }
}

/// Copies a byte slice into a vector.
fn slice_to_vec_u8(s: &[u8]) -> (r: Vec<u8>)
    ensures
        r@ == s@,
{
    let mut out: Vec<u8> = Vec::new();
    out.extend_from_slice(s);
    out
}

} // verus!
