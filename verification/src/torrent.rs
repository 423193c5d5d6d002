//! Rewriting the tracker URLs inside an uploaded torrent metafile, so the
//! client's announces flow through this proxy.

use vstd::prelude::*;

use vstd::utf8::valid_utf8;

use crate::bencode::{BValue, BencodeObject, bview, bview_items, bview_pairs,
    lemma_bview_items_index, lemma_bview_pairs_index};
use crate::bstr::bytes_eq;

verus! {

/// Why a torrent could not be rewritten.
#[derive(Clone, Copy, PartialEq, Eq, Structural, Debug)]
pub enum TransformError {
    /// An announce URL in the torrent is not valid UTF-8.
    NotUtf8,
}

/// Form-urlencoding of one byte: alphanumerics and `*-._` stay, a space
/// becomes `+`, everything else `%XX` with upper-case hex.
pub open spec fn spec_form_byte(b: u8) -> Seq<u8> {
    if crate::origin::spec_is_alnum(b) || b == 42 || b == 45 || b == 46 || b == 95 {
        seq![b]
    } else if b == 32 {
        seq![43u8]
    } else {
        seq![37u8, crate::origin::spec_hex_upper(b as int / 16), crate::origin::spec_hex_upper(
            b as int % 16,
        )]
    }
}

/// Form-urlencoding of a byte string.
pub open spec fn spec_form_encode(s: Seq<u8>) -> Seq<u8>
    decreases s.len(),
{
    if s.len() == 0 {
        Seq::empty()
    } else {
        spec_form_encode(s.drop_last()) + spec_form_byte(s.last())
    }
}

/// `https://tracker.submy.org/?tracker_url=` as bytes.
pub open spec fn spec_proxy_prefix() -> Seq<u8> {
    seq![104u8, 116, 116, 112, 115, 58, 47, 47, 116, 114, 97, 99, 107, 101, 114, 46, 115, 117,
        98, 109, 121, 46, 111, 114, 103, 47, 63, 116, 114, 97, 99, 107, 101, 114, 95, 117, 114,
        108, 61]
}

/// `&ttl=28800` as bytes.
pub open spec fn spec_proxy_suffix() -> Seq<u8> {
    seq![38u8, 116, 116, 108, 61, 50, 56, 56, 48, 48]
}

/// The proxied announce URL a tracker URL is rewritten to.
pub open spec fn spec_rewritten_url(value: Seq<u8>) -> Seq<u8> {
    spec_proxy_prefix() + spec_form_encode(value) + spec_proxy_suffix()
}

/// Relies on url's `Url::parse`, `Url::query_pairs_mut` and `Url::to_string`
/// (form-urlencoded serialization): appending the two query pairs to the
/// fixed proxy base yields exactly the base with normalized root path, the
/// form-urlencoded tracker URL, and the fixed TTL.  `None` exactly when the
/// value is not UTF-8, which the pair serializer requires.
#[verifier::external_body]
fn rewrite_tracker_url(value: &[u8]) -> (r: Option<Vec<u8>>)
    ensures
        r is Some <==> valid_utf8(value@),
        r matches Some(v) ==> v@ == spec_rewritten_url(value@),
{
    let text = core::str::from_utf8(value).ok()?;
    let mut url = url::Url::parse("https://tracker.submy.org").ok()?;
    url.query_pairs_mut().append_pair("tracker_url", text).append_pair("ttl", "28800");
    Some(url.to_string().into_bytes())
}

/// Rewrites a tracker URL for the proxy, failing on non-UTF-8 bytes.
pub fn process_tracker_url(value: &Vec<u8>) -> (r: Result<Vec<u8>, TransformError>)
    ensures
        match r {
            Ok(v) => valid_utf8(value@) && v@ == spec_rewritten_url(value@),
            Err(e) => !valid_utf8(value@) && e == TransformError::NotUtf8,
        },
{
    match rewrite_tracker_url(value.as_slice()) {
        Some(v) => Ok(v),
        None => Err(TransformError::NotUtf8),
    }
}

/// `announce` as bytes.
pub open spec fn spec_announce_key() -> Seq<u8> {
    seq![97u8, 110, 110, 111, 117, 110, 99, 101]
}

/// `announce-list` as bytes.
pub open spec fn spec_announce_list_key() -> Seq<u8> {
    seq![97u8, 110, 110, 111, 117, 110, 99, 101, 45, 108, 105, 115, 116]
}

/// A rewritable URL slot: a nonempty byte string.
pub open spec fn is_url_slot(v: BValue) -> bool {
    v matches BValue::Bytes(n, Some(b)) && n != 0
}

/// The rewritten form of a URL slot.
pub open spec fn rewritten_slot(b: Seq<u8>) -> BValue {
    BValue::Bytes(spec_rewritten_url(b).len(), Option::Some(spec_rewritten_url(b)))
}

/// How one entry of an announce-list is rewritten: a tier whose first
/// element is a URL slot has that slot rewritten; anything else is kept.
pub open spec fn tier_rewritten(oldv: BValue, newv: BValue) -> bool {
    match oldv {
        BValue::List(li) => if li.len() > 0 && is_url_slot(li[0]) {
            newv == BValue::List(li.update(0, rewritten_slot(li[0]->Bytes_1.unwrap())))
        } else {
            newv == oldv
        },
        _ => newv == oldv,
    }
}

/// How one pair of the torrent's top dictionary is rewritten.
pub open spec fn pair_rewritten(oldp: (BValue, BValue), newp: (BValue, BValue)) -> bool {
    &&& newp.0 == oldp.0
    &&& (match oldp.0 {
        BValue::Bytes(n, Some(k)) => if n != 0 && k == spec_announce_key() && is_url_slot(
            oldp.1,
        ) {
            newp.1 == rewritten_slot(oldp.1->Bytes_1.unwrap())
        } else if n != 0 && k == spec_announce_list_key() && oldp.1 is List {
            newp.1 matches BValue::List(newtiers) && oldp.1->List_0.len() == newtiers.len() && (
            forall|t: int|
                0 <= t < newtiers.len() ==> tier_rewritten(oldp.1->List_0[t], newtiers[t]))
        } else {
            newp.1 == oldp.1
        },
        _ => newp.1 == oldp.1,
    })
}

/// A tier whose head URL slot is not valid UTF-8, which no rewrite can
/// process.
pub open spec fn tier_bad_slot(v: BValue) -> bool {
    match v {
        BValue::List(li) => li.len() > 0 && is_url_slot(li[0]) && !valid_utf8(
            li[0]->Bytes_1.unwrap(),
        ),
        _ => false,
    }
}

/// A dictionary pair holding a URL slot that is not valid UTF-8.
pub open spec fn pair_bad_slot(p: (BValue, BValue)) -> bool {
    match p.0 {
        BValue::Bytes(n, Some(k)) => n != 0 && ((k == spec_announce_key() && is_url_slot(p.1)
            && !valid_utf8(p.1->Bytes_1.unwrap())) || (k == spec_announce_list_key() && (
        match p.1 {
            BValue::List(tiers) => exists|t: int| 0 <= t < tiers.len() && tier_bad_slot(tiers[t]),
            _ => false,
        }))),
        _ => false,
    }
}

/// A torrent holding a URL slot that is not valid UTF-8.
pub open spec fn torrent_bad_slot(tv: BValue) -> bool {
    match tv {
        BValue::List(items) => items.len() > 0 && (match items[0] {
            BValue::Dict(ps) => exists|m: int| 0 <= m < ps.len() && pair_bad_slot(ps[m]),
            _ => false,
        }),
        _ => false,
    }
}

/// `b` is the head URL slot of the tier `v`.
pub open spec fn tier_slot_value(v: BValue, b: Seq<u8>) -> bool {
    match v {
        BValue::List(li) => li.len() > 0 && is_url_slot(li[0]) && li[0]->Bytes_1.unwrap() == b,
        _ => false,
    }
}

/// `b` is a URL slot of the dictionary pair `p`: the `announce` value, or
/// the head of some `announce-list` tier.
pub open spec fn pair_slot_value(p: (BValue, BValue), b: Seq<u8>) -> bool {
    match p.0 {
        BValue::Bytes(n, Some(k)) => n != 0 && ((k == spec_announce_key() && is_url_slot(p.1)
            && p.1->Bytes_1.unwrap() == b) || (k == spec_announce_list_key() && (match p.1 {
            BValue::List(tiers) => exists|t: int|
                0 <= t < tiers.len() && tier_slot_value(tiers[t], b),
            _ => false,
        }))),
        _ => false,
    }
}

/// `b` is a URL slot of the torrent's top dictionary.
pub open spec fn torrent_slot_value(tv: BValue, b: Seq<u8>) -> bool {
    match tv {
        BValue::List(items) => items.len() > 0 && (match items[0] {
            BValue::Dict(ps) => exists|m: int| 0 <= m < ps.len() && pair_slot_value(ps[m], b),
            _ => false,
        }),
        _ => false,
    }
}

/// Rewrites the announce slot of one tier, collecting the original URL.
fn rewrite_tier(item: BencodeObject, urls: &mut Vec<Vec<u8>>) -> (r: Result<
    BencodeObject,
    TransformError,
>)
    ensures
        r matches Ok(newitem) ==> tier_rewritten(bview(item), bview(newitem)) && (final(urls)@
            == old(urls)@ || (final(urls)@.len() == old(urls)@.len() + 1
            && final(urls)@.drop_last() == old(urls)@
            && tier_slot_value(bview(item), final(urls)@.last()@))),
        r matches Err(e) ==> e == TransformError::NotUtf8 && tier_bad_slot(bview(item))
            && final(urls)@ == old(urls)@,
{
    match item {
        BencodeObject::List(mut li) => {
            if li.len() == 0 {
                return Ok(BencodeObject::List(li));
            }
            let ghost li0 = li@;
            let first = li.remove(0);
            match first {
                BencodeObject::Bytes(n, Some(b)) => {
                    if n == 0 {
                        li.insert(0, BencodeObject::Bytes(n, Some(b)));
                        proof {
                            assert(li@ =~= li0);
                            assert(bview_items(li@) == bview_items(li0));
                            lemma_bview_items_index(li0);
                        }
                        return Ok(BencodeObject::List(li));
                    }
                    let new_url = match process_tracker_url(&b) {
                        Ok(v) => v,
                        Err(e) => {
                            proof {
                                lemma_bview_items_index(li0);
                            }
                            return Err(e);
                        },
                    };
                    let nlen = new_url.len();
                    li.insert(0, BencodeObject::Bytes(nlen, Some(new_url)));
                    urls.push(b);
                    proof {
                        assert(urls@.drop_last() =~= old(urls)@);
                        assert(li@.drop_first() =~= li0.drop_first());
                        lemma_bview_items_index(li@);
                        lemma_bview_items_index(li0);
                        assert(bview_items(li@) =~~= bview_items(li0).update(
                            0,
                            rewritten_slot(li0[0]->Bytes_1.unwrap()@),
                        ));
                    }
                    Ok(BencodeObject::List(li))
                },
                other => {
                    li.insert(0, other);
                    proof {
                        assert(li@ =~= li0);
                        assert(bview_items(li@) == bview_items(li0));
                        lemma_bview_items_index(li0);
                    }
                    Ok(BencodeObject::List(li))
                },
            }
        },
        other => Ok(other),
    }
}

/// Rewrites one pair of the torrent's top dictionary, collecting every
/// original URL it replaces.
fn rewrite_pair(p: (BencodeObject, BencodeObject), urls: &mut Vec<Vec<u8>>) -> (r: Result<
    (BencodeObject, BencodeObject),
    TransformError,
>)
    ensures
        r matches Ok(newp) ==> pair_rewritten(
            (bview(p.0), bview(p.1)),
            (bview(newp.0), bview(newp.1)),
        ) && final(urls)@.len() >= old(urls)@.len() && final(urls)@.subrange(
            0,
            old(urls)@.len() as int,
        ) == old(urls)@ && (forall|kk: int|
            old(urls)@.len() <= kk < final(urls)@.len() ==> pair_slot_value(
                (bview(p.0), bview(p.1)),
                final(urls)@[kk]@,
            )),
        r matches Err(e) ==> e == TransformError::NotUtf8 && pair_bad_slot(
            (bview(p.0), bview(p.1)),
        ),
{
    let (k, v) = p;
    let is_announce = match &k {
        BencodeObject::Bytes(n, Some(kb)) => *n != 0 && crate::tracker::bytes_eq_lit(
            kb,
            &[97u8, 110, 110, 111, 117, 110, 99, 101],
        ),
        _ => false,
    };
    let is_announce_list = match &k {
        BencodeObject::Bytes(n, Some(kb)) => *n != 0 && crate::tracker::bytes_eq_lit(
            kb,
            &[97u8, 110, 110, 111, 117, 110, 99, 101, 45, 108, 105, 115, 116],
        ),
        _ => false,
    };
    proof {
        let lit1: Seq<u8> = seq![97u8, 110, 110, 111, 117, 110, 99, 101];
        let lit2: Seq<u8> = seq![97u8, 110, 110, 111, 117, 110, 99, 101, 45, 108, 105, 115, 116];
        assert(lit1 =~= spec_announce_key());
        assert(lit2 =~= spec_announce_list_key());
    }
    if is_announce {
        match v {
            BencodeObject::Bytes(n, Some(vb)) => {
                if n == 0 {
                    proof {
                        assert(final(urls)@.subrange(0, old(urls)@.len() as int) =~= old(urls)@);
                    }
                    return Ok((k, BencodeObject::Bytes(n, Some(vb))));
                }
                let new_url = match process_tracker_url(&vb) {
                    Ok(u) => u,
                    Err(e) => {
                        return Err(e);
                    },
                };
                let nlen = new_url.len();
                urls.push(vb);
                proof {
                    assert(urls@.drop_last() =~= old(urls)@);
                    assert(urls@.subrange(0, old(urls)@.len() as int) =~= old(urls)@);
                }
                Ok((k, BencodeObject::Bytes(nlen, Some(new_url))))
            },
            other => {
                proof {
                    assert(final(urls)@.subrange(0, old(urls)@.len() as int) =~= old(urls)@);
                }
                Ok((k, other))
            },
        }
    } else if is_announce_list {
        match v {
            BencodeObject::List(tiers) => {
                let ghost tiers0 = tiers@;
                let ghost base_urls = urls@;
                let mut rev: Vec<BencodeObject> = Vec::new();
                let mut rest = tiers;
                while rest.len() > 0
                    invariant
                        rest@.len() + rev@.len() == tiers0.len(),
                        rest@ =~= tiers0.subrange(0, rest@.len() as int),
                        forall|m: int|
                            0 <= m < rev@.len() ==> tier_rewritten(
                                bview(tiers0[tiers0.len() - 1 - m]),
                                bview(rev@[m]),
                            ),
                        base_urls == old(urls)@,
                        urls@.len() >= base_urls.len(),
                        urls@.subrange(0, base_urls.len() as int) == base_urls,
                        forall|kk: int|
                            base_urls.len() <= kk < urls@.len() ==> exists|t: int|
                                0 <= t < tiers0.len() && tier_slot_value(
                                    bview(tiers0[t]),
                                    (#[trigger] urls@[kk])@,
                                ),
                        bview(p.1) == BValue::List(bview_items(tiers0)),
                        (bview(p.0) matches BValue::Bytes(n, Some(kk)) && n != 0 && kk
                            == spec_announce_list_key()),
                    decreases rest@.len(),
                {
                    let ghost restpre = rest@;
                    let ghost urlspre = urls@;
                    let item = match rest.pop() {
                        Some(it) => it,
                        None => {
                            proof {
                                assert(false);
                            }
                            BencodeObject::Vacant
                        },
                    };
                    proof {
                        assert(rest@ =~= tiers0.subrange(0, rest@.len() as int));
                        assert(item == tiers0[restpre.len() - 1]);
                    }
                    let newitem = match rewrite_tier(item, urls) {
                        Ok(it) => it,
                        Err(e) => {
                            proof {
                                lemma_bview_items_index(tiers0);
                                let gt = restpre.len() - 1;
                                assert(tier_bad_slot(bview(tiers0[gt])));
                                assert(bview(p.1)->List_0 == bview_items(tiers0));
                                assert(bview_items(tiers0)[gt] == bview(tiers0[gt]));
                                assert(0 <= gt < bview(p.1)->List_0.len());
                                assert(tier_bad_slot(bview(p.1)->List_0[gt]));
                                assert(pair_bad_slot((bview(p.0), bview(p.1))));
                            }
                            return Err(e);
                        },
                    };
                    proof {
                        assert(urlspre.subrange(0, base_urls.len() as int) == base_urls);
                        if urls@ != urlspre {
                            assert(urls@.drop_last() == urlspre);
                            assert(urls@.len() == urlspre.len() + 1);
                            assert(tier_slot_value(
                                bview(tiers0[restpre.len() - 1]),
                                urls@[urls@.len() - 1]@,
                            ));
                            assert forall|kk: int|
                                base_urls.len() <= kk < urls@.len() implies exists|t: int|
                                    0 <= t < tiers0.len() && tier_slot_value(
                                        bview(tiers0[t]),
                                        (#[trigger] urls@[kk])@,
                                    ) by {
                                if kk < urls@.len() - 1 {
                                    assert(urls@[kk] == urlspre[kk]);
                                } else {
                                    assert(tier_slot_value(
                                        bview(tiers0[restpre.len() - 1]),
                                        urls@[kk]@,
                                    ));
                                }
                            }
                            assert(urls@.subrange(0, base_urls.len() as int)
                                =~= urlspre.subrange(0, base_urls.len() as int));
                        } else {
                            assert(urls@.subrange(0, base_urls.len() as int)
                                == urlspre.subrange(0, base_urls.len() as int));
                        }
                        assert(urls@.subrange(0, base_urls.len() as int) == base_urls);
                    }
                    rev.push(newitem);
                }
                let ghost urls_mid = urls@;
                let mut fwd: Vec<BencodeObject> = Vec::new();
                while rev.len() > 0
                    invariant
                        rev@.len() + fwd@.len() == tiers0.len(),
                        forall|m: int|
                            0 <= m < rev@.len() ==> tier_rewritten(
                                bview(tiers0[tiers0.len() - 1 - m]),
                                bview(rev@[m]),
                            ),
                        forall|t: int|
                            0 <= t < fwd@.len() ==> tier_rewritten(
                                bview(tiers0[t]),
                                bview(fwd@[t]),
                            ),
                        urls@ == urls_mid,
                    decreases rev@.len(),
                {
                    let item = match rev.pop() {
                        Some(it) => it,
                        None => {
                            proof {
                                assert(false);
                            }
                            BencodeObject::Vacant
                        },
                    };
                    fwd.push(item);
                }
                proof {
                    lemma_bview_items_index(fwd@);
                    lemma_bview_items_index(tiers0);
                    assert(urls@.subrange(0, old(urls)@.len() as int) == old(urls)@);
                    assert forall|kk: int|
                        old(urls)@.len() <= kk < urls@.len() implies pair_slot_value(
                        (bview(p.0), bview(p.1)),
                        (#[trigger] urls@[kk])@,
                    ) by {
                        let t = choose|t: int|
                            0 <= t < tiers0.len() && tier_slot_value(
                                bview(tiers0[t]),
                                urls@[kk]@,
                            );
                        assert(bview(p.1)->List_0 == bview_items(tiers0));
                        assert(bview_items(tiers0)[t] == bview(tiers0[t]));
                        assert(tier_slot_value(bview(p.1)->List_0[t], urls@[kk]@));
                    }
                }
                Ok((k, BencodeObject::List(fwd)))
            },
            other => {
                proof {
                    assert(final(urls)@.subrange(0, old(urls)@.len() as int) =~= old(urls)@);
                }
                Ok((k, other))
            },
        }
    } else {
        proof {
            assert(final(urls)@.subrange(0, old(urls)@.len() as int) =~= old(urls)@);
        }
        Ok((k, v))
    }
}

/// Rewrites every tracker URL in a torrent's top dictionary: the `announce`
/// entry, and the head URL of every tier of `announce-list`.  Returns the
/// rewritten torrent together with the original URLs that were replaced,
/// adjacent duplicates removed.  A torrent without the expected shape is
/// returned untouched.
pub fn replace_trackers_in_torrent(torrent: BencodeObject) -> (r: Result<
    (BencodeObject, Vec<Vec<u8>>),
    TransformError,
>)
    ensures
        r matches Ok(out) ==> (match bview(torrent) {
            BValue::List(items) => {
                &&& bview(out.0) matches BValue::List(newitems)
                &&& newitems.len() == items.len()
                &&& items.len() > 0 && items[0] is Dict ==> {
                    &&& newitems[0] matches BValue::Dict(newpairs)
                    &&& newpairs.len() == items[0]->Dict_0.len()
                    &&& forall|t: int|
                        0 <= t < newpairs.len() ==> pair_rewritten(
                            items[0]->Dict_0[t],
                            newpairs[t],
                        )
                    &&& forall|t: int| 1 <= t < items.len() ==> newitems[t] == items[t]
                }
                &&& !(items.len() > 0 && items[0] is Dict) ==> bview(out.0) == bview(torrent)
            },
            _ => bview(out.0) == bview(torrent),
        }) && adjacent_distinct(out.1@) && (forall|i: int|
            0 <= i < out.1@.len() ==> torrent_slot_value(bview(torrent), (#[trigger] out.1@[i])@)),
        r matches Err(e) ==> e == TransformError::NotUtf8 && torrent_bad_slot(bview(torrent)),
{
    let items = match torrent {
        BencodeObject::List(items) => items,
        other => {
            let empty_urls: Vec<Vec<u8>> = Vec::new();
            return Ok((other, empty_urls));
        },
    };
    if items.len() == 0 {
        let empty_urls: Vec<Vec<u8>> = Vec::new();
        proof {
            lemma_bview_items_index(items@);
        }
        return Ok((BencodeObject::List(items), empty_urls));
    }
    let ghost items0 = items@;
    let mut items = items;
    let first = items.remove(0);
    let pairs = match first {
        BencodeObject::Dictionary(pairs) => pairs,
        other => {
            items.insert(0, other);
            proof {
                assert(items@ =~= items0);
                lemma_bview_items_index(items@);
            }
            let empty_urls: Vec<Vec<u8>> = Vec::new();
            return Ok((BencodeObject::List(items), empty_urls));
        },
    };
    let ghost pairs0 = pairs@;
    let mut urls: Vec<Vec<u8>> = Vec::new();
    let mut rev: Vec<(BencodeObject, BencodeObject)> = Vec::new();
    let mut rest = pairs;
    while rest.len() > 0
        invariant
            rest@.len() + rev@.len() == pairs0.len(),
            rest@ =~= pairs0.subrange(0, rest@.len() as int),
            forall|m: int|
                0 <= m < rev@.len() ==> pair_rewritten(
                    (
                        bview(pairs0[pairs0.len() - 1 - m].0),
                        bview(pairs0[pairs0.len() - 1 - m].1),
                    ),
                    (bview(rev@[m].0), bview(rev@[m].1)),
                ),
            forall|kk: int|
                0 <= kk < urls@.len() ==> exists|m: int|
                    0 <= m < pairs0.len() && pair_slot_value(
                        (bview(pairs0[m].0), bview(pairs0[m].1)),
                        (#[trigger] urls@[kk])@,
                    ),
            bview(torrent) == BValue::List(bview_items(items0)),
            items0.len() > 0,
            bview(items0[0]) == BValue::Dict(bview_pairs(pairs0)),
        decreases rest@.len(),
    {
        let ghost restpre = rest@;
        let ghost urlspre = urls@;
        let p = match rest.pop() {
            Some(p) => p,
            None => {
                proof {
                    assert(false);
                }
                (BencodeObject::Vacant, BencodeObject::Vacant)
            },
        };
        proof {
            assert(rest@ =~= pairs0.subrange(0, rest@.len() as int));
            assert(p == pairs0[restpre.len() - 1]);
        }
        let newp = match rewrite_pair(p, &mut urls) {
            Ok(q) => q,
            Err(e) => {
                proof {
                    lemma_bview_items_index(items0);
                    lemma_bview_pairs_index(pairs0);
                    let gm = restpre.len() - 1;
                    assert(pair_bad_slot((bview(pairs0[gm].0), bview(pairs0[gm].1))));
                    assert(bview_pairs(pairs0)[gm] == (bview(pairs0[gm].0), bview(
                        pairs0[gm].1,
                    )));
                    assert(bview_items(items0).len() == items0.len());
                    assert(bview_items(items0)[0] == bview(items0[0]));
                    assert(bview(items0[0])->Dict_0 == bview_pairs(pairs0));
                    assert(0 <= gm < bview(items0[0])->Dict_0.len());
                    assert(pair_bad_slot(bview(items0[0])->Dict_0[gm]));
                    assert(torrent_bad_slot(bview(torrent)));
                }
                return Err(e);
            },
        };
        proof {
            assert forall|kk: int| 0 <= kk < urls@.len() implies exists|m: int|
                0 <= m < pairs0.len() && pair_slot_value(
                    (bview(pairs0[m].0), bview(pairs0[m].1)),
                    (#[trigger] urls@[kk])@,
                ) by {
                if kk < urlspre.len() {
                    assert(urls@.subrange(0, urlspre.len() as int) == urlspre);
                    assert(urls@[kk] == urlspre[kk]);
                } else {
                    assert(pair_slot_value((bview(p.0), bview(p.1)), urls@[kk]@));
                    assert(p == pairs0[restpre.len() - 1]);
                }
            }
        }
        rev.push(newp);
    }
    let mut fwd: Vec<(BencodeObject, BencodeObject)> = Vec::new();
    while rev.len() > 0
        invariant
            rev@.len() + fwd@.len() == pairs0.len(),
            forall|m: int|
                0 <= m < rev@.len() ==> pair_rewritten(
                    (
                        bview(pairs0[pairs0.len() - 1 - m].0),
                        bview(pairs0[pairs0.len() - 1 - m].1),
                    ),
                    (bview(rev@[m].0), bview(rev@[m].1)),
                ),
            forall|t: int|
                0 <= t < fwd@.len() ==> pair_rewritten(
                    (bview(pairs0[t].0), bview(pairs0[t].1)),
                    (bview(fwd@[t].0), bview(fwd@[t].1)),
                ),
        decreases rev@.len(),
    {
        let p = match rev.pop() {
            Some(p) => p,
            None => {
                proof {
                    assert(false);
                }
                (BencodeObject::Vacant, BencodeObject::Vacant)
            },
        };
        fwd.push(p);
    }
    items.insert(0, BencodeObject::Dictionary(fwd));
    let ghost urls_fin = urls@;
    let deduped = dedup_adjacent(urls);
    proof {
        lemma_bview_items_index(items@);
        lemma_bview_items_index(items0);
        lemma_bview_pairs_index(fwd@);
        lemma_bview_pairs_index(pairs0);
        assert(items@.drop_first() =~= items0.drop_first());
        assert forall|i: int| 0 <= i < deduped@.len() implies torrent_slot_value(
            bview(torrent),
            (#[trigger] deduped@[i])@,
        ) by {
            let j = choose|j: int|
                0 <= j < urls_fin.len() && (deduped@[i])@ == (urls_fin[j])@;
            assert(exists|m: int|
                0 <= m < pairs0.len() && pair_slot_value(
                    (bview(pairs0[m].0), bview(pairs0[m].1)),
                    (urls_fin[j])@,
                ));
            let m = choose|m: int|
                0 <= m < pairs0.len() && pair_slot_value(
                    (bview(pairs0[m].0), bview(pairs0[m].1)),
                    (urls_fin[j])@,
                );
            assert(bview_pairs(pairs0)[m] == (bview(pairs0[m].0), bview(pairs0[m].1)));
            assert(bview_items(items0)[0] == bview(items0[0]));
            assert(torrent_slot_value(bview(torrent), (urls_fin[j])@));
        }
    }
    Ok((BencodeObject::List(items), deduped))
}

/// No two neighbouring entries are equal.
pub open spec fn adjacent_distinct(s: Seq<Vec<u8>>) -> bool {
    forall|i: int| 0 < i < s.len() ==> (#[trigger] s[i])@ != s[i - 1]@
}

/// Every entry of `r` carries bytes that some entry of `src` carries.
pub open spec fn all_from(r: Seq<Vec<u8>>, src: Seq<Vec<u8>>) -> bool {
    forall|i: int|
        0 <= i < r.len() ==> exists|j: int|
            0 <= j < src.len() && (#[trigger] r[i])@ == (#[trigger] src[j])@
}

/// Removes adjacent duplicates, keeping the first of each run.
fn dedup_adjacent(urls: Vec<Vec<u8>>) -> (r: Vec<Vec<u8>>)
    ensures
        adjacent_distinct(r@),
        all_from(r@, urls@),
{
    let mut out: Vec<Vec<u8>> = Vec::new();
    let mut rest = urls;
    let ghost urls0 = rest@;
    let mut rev: Vec<Vec<u8>> = Vec::new();
    while rest.len() > 0
        invariant
            rest@.len() + rev@.len() == urls0.len(),
            rest@ =~= urls0.subrange(0, rest@.len() as int),
            forall|m: int| 0 <= m < rev@.len() ==> rev@[m]@ == urls0[urls0.len() - 1 - m]@,
        decreases rest@.len(),
    {
        let ghost restpre = rest@;
        let u = match rest.pop() {
            Some(u) => u,
            None => {
                proof {
                    assert(false);
                }
                Vec::new()
            },
        };
        proof {
            assert(u == urls0[restpre.len() - 1]);
        }
        rev.push(u);
    }
    while rev.len() > 0
        invariant
            rev@.len() + out@.len() <= urls0.len(),
            forall|m: int| 0 <= m < rev@.len() ==> rev@[m]@ == urls0[urls0.len() - 1 - m]@,
            adjacent_distinct(out@),
            all_from(out@, urls0),
        decreases rev@.len(),
    {
        let u = match rev.pop() {
            Some(u) => u,
            None => {
                proof {
                    assert(false);
                }
                Vec::new()
            },
        };
        let keep = if out.len() == 0 {
            true
        } else {
            !bytes_eq(&out[out.len() - 1], &u)
        };
        if keep {
            let ghost pre_out = out@;
            proof {
                let j = urls0.len() - 1 - rev@.len();
                assert(u@ == urls0[j]@);
            }
            out.push(u);
            proof {
                assert forall|i: int| 0 <= i < out@.len() implies exists|j: int|
                    0 <= j < urls0.len() && (#[trigger] out@[i])@ == (#[trigger] urls0[j])@ by {
                    if i < pre_out.len() {
                        assert(out@[i] == pre_out[i]);
                        assert(all_from(pre_out, urls0));
                    } else {
                        let j0 = urls0.len() - 1 - rev@.len();
                        assert(out@[i]@ == urls0[j0]@);
                    }
                }
            }
        }
    }
    proof {
        assert(urls0 == urls@);
        assert(all_from(out@, urls@));
    }
    out
}

} // verus!
