//! Origin-tracker request shaping.
//!
//! Derives the origin key (percent-encoded host) and the cache key
//! (percent-encoded info-hash), and builds the full announce URL: the
//! info-hash is appended by hand as raw percent-encoded bytes (the generic
//! URL machinery would re-encode and corrupt it), then the deterministic
//! fingerprint parameters follow.

use vstd::prelude::*;

use crate::bstr::{spec_decimal, u64_to_decimal};
use crate::errors::FetchError;
use crate::fingerprint::{
    random_client_ua, random_key, random_peer_id, random_port, spec_announce_key, spec_peer_id,
    spec_port_of, spec_qb_ua, spec_seed, std_rng_word,
};

verus! {

/// ASCII letters and digits stay bare under percent-encoding.
pub open spec fn spec_is_alnum(b: u8) -> bool {
    (48 <= b <= 57) || (65 <= b <= 90) || (97 <= b <= 122)
}

/// Upper-case hexadecimal digit for a value below 16.
pub open spec fn spec_hex_upper(i: int) -> u8 {
    if i < 10 {
        (48 + i) as u8
    } else {
        (55 + i) as u8
    }
}

/// Percent-encoding of one byte: alphanumerics stay, everything else
/// becomes `%XX` with upper-case hex.
pub open spec fn spec_percent_byte(b: u8) -> Seq<u8> {
    if spec_is_alnum(b) {
        seq![b]
    } else {
        seq![37u8, spec_hex_upper(b as int / 16), spec_hex_upper(b as int % 16)]
    }
}

/// Percent-encoding of a byte string, every non-alphanumeric escaped.
pub open spec fn spec_percent_encode(s: Seq<u8>) -> Seq<u8>
    decreases s.len(),
{
    if s.len() == 0 {
        Seq::empty()
    } else {
        spec_percent_encode(s.drop_last()) + spec_percent_byte(s.last())
    }
}

/// Relies on percent_encoding's `percent_encode` with `NON_ALPHANUMERIC`:
/// every byte outside ASCII alphanumerics becomes `%XX`, upper-case hex.
#[verifier::external_body]
pub fn percent_encode_bytes(s: &[u8]) -> (r: Vec<u8>)
    ensures
        r@ == spec_percent_encode(s@),
{
    percent_encoding::percent_encode(s, percent_encoding::NON_ALPHANUMERIC)
        .to_string()
        .into_bytes()
}

/// The host component a URL string parses to, if the string parses as an
/// absolute URL with a host.
pub uninterp spec fn url_host_of(s: Seq<u8>) -> Option<Seq<u8>>;

/// Whether the parsed URL carries a query component.
pub uninterp spec fn url_has_query_of(s: Seq<u8>) -> bool;

/// The path component of the parsed URL.
pub uninterp spec fn url_path_of(s: Seq<u8>) -> Seq<u8>;

/// What the fetch flow needs to know about a parsed tracker URL.
pub struct UrlParts {
    pub host: Vec<u8>,
    pub has_query: bool,
    pub path: Vec<u8>,
}

/// Relies on url's `Url::parse`, `Url::host_str`, `Url::query` and
/// `Url::path`: parsing is a pure function of the string; `None` comes back
/// exactly when the string does not parse as a URL with a host.
#[verifier::external_body]
fn parse_url_parts(s: &[u8]) -> (r: Option<UrlParts>)
    ensures
        r is Some <==> url_host_of(s@) is Some,
        r matches Some(p) ==> {
            &&& Some(p.host@) == url_host_of(s@)
            &&& p.has_query == url_has_query_of(s@)
            &&& p.path@ == url_path_of(s@)
        },
{
    let text = core::str::from_utf8(s).ok()?;
    let url = url::Url::parse(text).ok()?;
    let host = url.host_str()?.as_bytes().to_vec();
    Some(UrlParts { host, has_query: url.query().is_some(), path: url.path().as_bytes().to_vec() })
}

/// The origin key of a tracker URL: its percent-encoded host.
pub open spec fn spec_origin_key(turl: Seq<u8>) -> Seq<u8> {
    spec_percent_encode(url_host_of(turl).unwrap())
}

/// Derives the origin key, or rejects a URL without a host.
pub fn origin_key_of(tracker_url: &Vec<u8>) -> (r: Result<Vec<u8>, FetchError>)
    ensures
        match r {
            Ok(k) => url_host_of(tracker_url@) is Some && k@ == spec_origin_key(tracker_url@),
            Err(e) => url_host_of(tracker_url@) is None && e == FetchError::MalformedTrackerUrl,
        },
{
    match parse_url_parts(tracker_url.as_slice()) {
        Some(parts) => Ok(percent_encode_bytes(parts.host.as_slice())),
        None => Err(FetchError::MalformedTrackerUrl),
    }
}

/// `info_hash=` as bytes.
pub open spec fn spec_info_hash_param() -> Seq<u8> {
    seq![105u8, 110, 102, 111, 95, 104, 97, 115, 104, 61]
}

/// The announce URL with the raw percent-encoded info-hash appended: after
/// an existing query with `&`, else with `?`, inserting the root `/` when
/// the URL is a bare origin without a trailing slash.
pub open spec fn spec_announce_base(turl: Seq<u8>, ihkey: Seq<u8>) -> Seq<u8> {
    if url_has_query_of(turl) {
        turl + seq![38u8] + spec_info_hash_param() + ihkey
    } else if url_path_of(turl) != seq![47u8] || (turl.len() > 0 && turl.last() == 47) {
        turl + seq![63u8] + spec_info_hash_param() + ihkey
    } else {
        turl + seq![47u8, 63u8] + spec_info_hash_param() + ihkey
    }
}

/// The complete announce request URL for a tracker, info-hash and size:
/// the base plus the deterministic fingerprint query parameters.
pub open spec fn spec_announce_url(turl: Seq<u8>, info_hash: Seq<u8>, size: u64) -> Seq<u8> {
    spec_announce_base(turl, spec_percent_encode(info_hash)) + seq![38u8, 112, 101, 101, 114, 95,
        105, 100, 61] + spec_peer_id(spec_seed(turl)) + seq![38u8, 112, 111, 114, 116, 61]
        + spec_decimal(spec_port_of(spec_seed(turl)) as nat) + seq![38u8, 117, 112, 108, 111, 97,
        100, 101, 100, 61, 48, 38, 100, 111, 119, 110, 108, 111, 97, 100, 101, 100, 61, 48, 38,
        108, 101, 102, 116, 61] + spec_decimal(size as nat) + seq![38u8, 99, 111, 114, 114, 117,
        112, 116, 61, 48, 38, 107, 101, 121, 61] + spec_announce_key(spec_seed(turl)) + seq![38u8,
        101, 118, 101, 110, 116, 61, 115, 116, 97, 114, 116, 101, 100, 38, 110, 117, 109, 119, 97,
        110, 116, 61, 50, 48, 48, 38, 99, 111, 109, 112, 97, 99, 116, 61, 49, 38, 110, 111, 95,
        112, 101, 101, 114, 95, 105, 100, 61, 49, 38, 115, 117, 112, 112, 111, 114, 116, 99, 114,
        121, 112, 116, 111, 61, 49, 38, 114, 101, 100, 117, 110, 100, 97, 110, 116, 61, 48]
}

/// Everything the transport needs to issue one announce.
pub struct AnnounceTarget {
    /// Full request URL, query included.
    pub url: Vec<u8>,
    /// Deterministic fake user agent for this tracker.
    pub user_agent: Vec<u8>,
}

/// Builds the complete announce request for a tracker URL, raw info-hash
/// and declared size.  Fails only on a URL without a host.
pub fn build_announce_target(tracker_url: &Vec<u8>, info_hash: &Vec<u8>, size: u64) -> (r: Result<
    AnnounceTarget,
    FetchError,
>)
    ensures
        match r {
            Ok(t) => url_host_of(tracker_url@) is Some && t.url@ == spec_announce_url(
                tracker_url@,
                info_hash@,
                size,
            ) && t.user_agent@ == spec_qb_ua(
                std_rng_word(spec_seed(tracker_url@), 0) as int % 8,
            ),
            Err(e) => url_host_of(tracker_url@) is None && e == FetchError::MalformedTrackerUrl,
        },
{
    let parts = match parse_url_parts(tracker_url.as_slice()) {
        Some(parts) => parts,
        None => {
            return Err(FetchError::MalformedTrackerUrl);
        },
    };
    let ihkey = percent_encode_bytes(info_hash.as_slice());
    let mut out: Vec<u8> = Vec::new();
    out.extend_from_slice(tracker_url.as_slice());
    let path_is_root = parts.path.len() == 1 && parts.path[0] == 47;
    let trailing_slash = tracker_url.len() > 0 && tracker_url[tracker_url.len() - 1] == 47;
    if parts.has_query {
        out.push(38);
    } else if !path_is_root || trailing_slash {
        out.push(63);
    } else {
        out.push(47);
        out.push(63);
    }
    let ihp: &[u8] = &[105u8, 110, 102, 111, 95, 104, 97, 115, 104, 61];
    out.extend_from_slice(ihp);
    out.extend_from_slice(ihkey.as_slice());
    proof {
        assert(parts.path@ != seq![47u8] ==> url_path_of(tracker_url@) != seq![47u8]);
        assert(path_is_root ==> parts.path@ =~= seq![47u8]);
        assert(ihp@ =~= spec_info_hash_param());
        assert(out@ =~= spec_announce_base(tracker_url@, spec_percent_encode(info_hash@)));
    }
    let ghost base = out@;
    let peer_id = random_peer_id(tracker_url.as_slice());
    let port = random_port(tracker_url.as_slice());
    let key = random_key(tracker_url.as_slice());
    let lit_peer_id: &[u8] = &[38u8, 112, 101, 101, 114, 95, 105, 100, 61];
    out.extend_from_slice(lit_peer_id);
    out.extend_from_slice(peer_id.as_slice());
    let lit_port: &[u8] = &[38u8, 112, 111, 114, 116, 61];
    out.extend_from_slice(lit_port);
    let port_dec = u64_to_decimal(port as u64);
    out.extend_from_slice(port_dec.as_slice());
    let lit_fixed1: &[u8] = &[38u8, 117, 112, 108, 111, 97, 100, 101, 100, 61, 48, 38, 100, 111,
        119, 110, 108, 111, 97, 100, 101, 100, 61, 48, 38, 108, 101, 102, 116, 61];
    out.extend_from_slice(lit_fixed1);
    let size_dec = u64_to_decimal(size);
    out.extend_from_slice(size_dec.as_slice());
    let lit_fixed2: &[u8] = &[38u8, 99, 111, 114, 114, 117, 112, 116, 61, 48, 38, 107, 101, 121,
        61];
    out.extend_from_slice(lit_fixed2);
    out.extend_from_slice(key.as_slice());
    let lit_tail: &[u8] = &[38u8, 101, 118, 101, 110, 116, 61, 115, 116, 97, 114, 116, 101, 100,
        38, 110, 117, 109, 119, 97, 110, 116, 61, 50, 48, 48, 38, 99, 111, 109, 112, 97, 99, 116,
        61, 49, 38, 110, 111, 95, 112, 101, 101, 114, 95, 105, 100, 61, 49, 38, 115, 117, 112, 112,
        111, 114, 116, 99, 114, 121, 112, 116, 111, 61, 49, 38, 114, 101, 100, 117, 110, 100, 97,
        110, 116, 61, 48];
    out.extend_from_slice(lit_tail);
    proof {
        assert(out@ =~= spec_announce_url(tracker_url@, info_hash@, size));
    }
    let user_agent = random_client_ua(tracker_url.as_slice());
    Ok(AnnounceTarget { url: out, user_agent })
}

/// How many times byte `b` occurs in `s`.
pub open spec fn count_byte(s: Seq<u8>, b: u8) -> nat
    decreases s.len(),
{
    if s.len() == 0 {
        0
    } else {
        count_byte(s.drop_last(), b) + (if s.last() == b {
            1nat
        } else {
            0nat
        })
    }
}

/// Occurrences add up over concatenation.
pub proof fn lemma_count_byte_concat(a: Seq<u8>, c: Seq<u8>, b: u8)
    ensures
        count_byte(a + c, b) == count_byte(a, b) + count_byte(c, b),
    decreases c.len(),
{
    if c.len() == 0 {
        assert(a + c =~= a);
    } else {
        lemma_count_byte_concat(a, c.drop_last(), b);
        assert((a + c).drop_last() =~= a + c.drop_last());
    }
}

/// Percent-encoded output never contains a URL delimiter: every byte is an
/// alphanumeric, a `%`, or an upper-case hex digit.
pub proof fn lemma_percent_encode_plain(s: Seq<u8>, b: u8)
    requires
        b == 63 || b == 38 || b == 47,
    ensures
        count_byte(spec_percent_encode(s), b) == 0,
    decreases s.len(),
{
    if s.len() > 0 {
        lemma_percent_encode_plain(s.drop_last(), b);
        lemma_count_byte_concat(spec_percent_encode(s.drop_last()), spec_percent_byte(s.last()), b);
        assert(count_byte(spec_percent_byte(s.last()), b) == 0) by {
            reveal_with_fuel(count_byte, 4);
            let c = s.last();
            if spec_is_alnum(c) {
                assert(spec_percent_byte(c) =~= seq![c]);
            } else {
                assert(48 <= spec_hex_upper(c as int / 16) <= 57 || 65 <= spec_hex_upper(
                    c as int / 16,
                ) <= 70);
                assert(48 <= spec_hex_upper(c as int % 16) <= 57 || 65 <= spec_hex_upper(
                    c as int % 16,
                ) <= 70);
            }
        }
    }
}

/// The announce base URL is well formed however the tracker URL ends: the
/// tracker URL survives as an untouched prefix (a trailing slash is never
/// dropped), and exactly one `?` is introduced when the URL had no query,
/// none when it already had one.
pub proof fn lemma_announce_base_wellformed(turl: Seq<u8>, ih: Seq<u8>)
    ensures
        spec_announce_base(turl, spec_percent_encode(ih)).subrange(0, turl.len() as int) == turl,
        url_has_query_of(turl) ==> count_byte(spec_announce_base(turl, spec_percent_encode(ih)), 63)
            == count_byte(turl, 63),
        !url_has_query_of(turl) ==> count_byte(
            spec_announce_base(turl, spec_percent_encode(ih)),
            63,
        ) == count_byte(turl, 63) + 1,
{
    let ihkey = spec_percent_encode(ih);
    let base = spec_announce_base(turl, ihkey);
    assert(base.subrange(0, turl.len() as int) =~= turl);
    lemma_percent_encode_plain(ih, 63);
    let q = spec_info_hash_param();
    assert(count_byte(q, 63) == 0) by {
        reveal_with_fuel(count_byte, 12);
    }
    if url_has_query_of(turl) {
        let tail = seq![38u8] + q + ihkey;
        assert(base =~= turl + tail);
        lemma_count_byte_concat(turl, tail, 63);
        lemma_count_byte_concat(seq![38u8] + q, ihkey, 63);
        lemma_count_byte_concat(seq![38u8], q, 63);
        assert(count_byte(seq![38u8], 63) == 0) by {
            reveal_with_fuel(count_byte, 2);
        }
    } else if url_path_of(turl) != seq![47u8] || (turl.len() > 0 && turl.last() == 47) {
        let tail = seq![63u8] + q + ihkey;
        assert(base =~= turl + tail);
        lemma_count_byte_concat(turl, tail, 63);
        lemma_count_byte_concat(seq![63u8] + q, ihkey, 63);
        lemma_count_byte_concat(seq![63u8], q, 63);
        assert(count_byte(seq![63u8], 63) == 1) by {
            reveal_with_fuel(count_byte, 2);
        }
    } else {
        let tail = seq![47u8, 63u8] + q + ihkey;
        assert(base =~= turl + tail);
        lemma_count_byte_concat(turl, tail, 63);
        lemma_count_byte_concat(seq![47u8, 63u8] + q, ihkey, 63);
        lemma_count_byte_concat(seq![47u8, 63u8], q, 63);
        assert(count_byte(seq![47u8, 63u8], 63) == 1) by {
            reveal_with_fuel(count_byte, 3);
        }
    }
}

} // verus!
