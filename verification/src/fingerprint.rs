//! Deterministic per-tracker client fingerprint.
//!
//! A given tracker must always see the same fake client, so every field of
//! the announce fingerprint is drawn from a pseudo-random stream seeded with
//! the first eight bytes (big-endian) of the SHA-256 digest of the tracker
//! URL.  The digest and the stream come from outside crates through trusted
//! wrappers; everything drawn from them is verified.

use vstd::prelude::*;

use rand::Rng;
use rand::SeedableRng;
use sha2::Digest;

use crate::addr::{be_bytes_to_nat, lemma_be_bytes_bound, pow256, read_be};

verus! {

/// The SHA-256 digest of a byte string; a pure function of its input.
pub uninterp spec fn sha256_of(data: Seq<u8>) -> Seq<u8>;

/// Word `idx` of the pseudo-random stream a seed unfolds to.
pub uninterp spec fn std_rng_word(seed: u64, idx: int) -> u64;

/// Relies on sha2's `Sha256` through the `Digest` trait: the digest depends
/// on the input bytes alone and is 32 bytes long.
#[verifier::external_body]
fn sha256(data: &[u8]) -> (r: Vec<u8>)
    ensures
        r@ == sha256_of(data@),
        r@.len() == 32,
{
    sha2::Sha256::digest(data).to_vec()
}

/// Relies on rand's `StdRng` (the ChaCha12 block cipher in this version):
/// seeded through `SeedableRng::seed_from_u64`, the sequence of
/// `Rng::next_u64` draws depends on the seed alone.
#[verifier::external_body]
fn std_rng_words(seed: u64, count: usize) -> (r: Vec<u64>)
    ensures
        r@.len() == count,
        forall|i: int| 0 <= i < count ==> r@[i] == std_rng_word(seed, i),
{
    let mut rng = rand::rngs::StdRng::seed_from_u64(seed);
    let mut out = Vec::with_capacity(count);
    for _ in 0..count {
        out.push(rng.next_u64());
    }
    out
}

/// The seed a tracker URL determines: its digest's first eight bytes,
/// read big-endian.
pub open spec fn spec_seed(data: Seq<u8>) -> u64 {
    be_bytes_to_nat(sha256_of(data).subrange(0, 8)) as u64
}

/// Computes the per-tracker seed.
pub fn fingerprint_seed(value: &[u8]) -> (r: u64)
    ensures
        r == spec_seed(value@),
{
    let digest = sha256(value);
    let w = read_be(digest.as_slice(), 0, 8);
    proof {
        reveal_with_fuel(pow256, 17);
        lemma_be_bytes_bound(digest@.subrange(0, 8));
    }
    w as u64
}

/// User-agent bytes of the client version the proxy claims to be:
/// `qBittorrent/5.<x>.<y>`, the two digits picked by the draw.
pub open spec fn spec_qb_ua(i: int) -> Seq<u8> {
    seq![113u8, 66, 105, 116, 116, 111, 114, 114, 101, 110, 116, 47, 53, 46, ua_major(i), 46, ua_minor(i)]
}

/// Major digit of the claimed client version.
pub open spec fn ua_major(i: int) -> u8 {
    if 0 <= i < 3 {
        49
    } else {
        48
    }
}

/// Minor digit of the claimed client version.
pub open spec fn ua_minor(i: int) -> u8 {
    if 0 <= i < 3 {
        (50 - i) as u8
    } else if 3 <= i < 8 {
        (56 - i) as u8
    } else {
        48
    }
}

/// Peer-id prefix matching the claimed client version: `-qB5<x><y>0-`.
pub open spec fn spec_qb_prefix(i: int) -> Seq<u8> {
    seq![45u8, 113, 66, 53, ua_major(i), ua_minor(i), 48, 45]
}

/// The deterministic fake user agent for a tracker URL.
pub fn random_client_ua(value: &[u8]) -> (r: Vec<u8>)
    ensures
        r@ == spec_qb_ua(std_rng_word(spec_seed(value@), 0) as int % 8),
{
    let seed = fingerprint_seed(value);
    let words = std_rng_words(seed, 1);
    let choice = words[0] % 8;
    let x: u8 = if choice < 3 {
        49
    } else {
        48
    };
    let y: u8 = if choice < 3 {
        50 - (choice as u8)
    } else {
        56 - (choice as u8)
    };
    let mut out: Vec<u8> = Vec::new();
    out.push(113);
    out.push(66);
    out.push(105);
    out.push(116);
    out.push(116);
    out.push(111);
    out.push(114);
    out.push(114);
    out.push(101);
    out.push(110);
    out.push(116);
    out.push(47);
    out.push(53);
    out.push(46);
    out.push(x);
    out.push(46);
    out.push(y);
    proof {
        assert(out@ =~= spec_qb_ua(std_rng_word(spec_seed(value@), 0) as int % 8));
    }
    out
}

/// The alphanumeric alphabet peer-id suffix characters are drawn from:
/// digits, then upper case, then lower case.
pub open spec fn spec_peer_id_char(i: int) -> u8 {
    if i < 10 {
        (48 + i) as u8
    } else if i < 36 {
        (55 + i) as u8
    } else {
        (61 + i) as u8
    }
}

/// The hexadecimal alphabet key characters are drawn from.
pub open spec fn spec_key_char(i: int) -> u8 {
    if i < 10 {
        (48 + i) as u8
    } else {
        (55 + i) as u8
    }
}

/// The deterministic fake peer id for a tracker URL: a version prefix and
/// twelve alphanumeric characters, drawn from the seeded stream.
pub open spec fn spec_peer_id(seed: u64) -> Seq<u8> {
    spec_qb_prefix(std_rng_word(seed, 0) as int % 8) + Seq::new(
        12,
        |k: int| spec_peer_id_char(std_rng_word(seed, k + 1) as int % 62),
    )
}

/// Builds the deterministic fake peer id for a tracker URL.
pub fn random_peer_id(value: &[u8]) -> (r: Vec<u8>)
    ensures
        r@ == spec_peer_id(spec_seed(value@)),
{
    let seed = fingerprint_seed(value);
    let words = std_rng_words(seed, 13);
    let choice = words[0] % 8;
    let x: u8 = if choice < 3 {
        49
    } else {
        48
    };
    let y: u8 = if choice < 3 {
        50 - (choice as u8)
    } else {
        56 - (choice as u8)
    };
    let mut out: Vec<u8> = Vec::new();
    out.push(45);
    out.push(113);
    out.push(66);
    out.push(53);
    out.push(x);
    out.push(y);
    out.push(48);
    out.push(45);
    proof {
        assert(out@ =~= spec_qb_prefix(std_rng_word(spec_seed(value@), 0) as int % 8));
    }
    let mut k2: usize = 1;
    while k2 < 13
        invariant
            1 <= k2 <= 13,
            words@.len() == 13,
            forall|i: int| 0 <= i < 13 ==> words@[i] == std_rng_word(spec_seed(value@), i),
            out@ == spec_qb_prefix(std_rng_word(spec_seed(value@), 0) as int % 8) + Seq::new(
                (k2 - 1) as nat,
                |j: int| spec_peer_id_char(std_rng_word(spec_seed(value@), j + 1) as int % 62),
            ),
        decreases 13 - k2,
    {
        let w = words[k2] % 62;
        let c: u8 = if w < 10 {
            48 + (w as u8)
        } else if w < 36 {
            55 + (w as u8)
        } else {
            61 + (w as u8)
        };
        out.push(c);
        proof {
            assert(out@ =~= spec_qb_prefix(std_rng_word(spec_seed(value@), 0) as int % 8)
                + Seq::new(k2 as nat, |j: int|
                    spec_peer_id_char(std_rng_word(spec_seed(value@), j + 1) as int % 62)));
        }
        k2 = k2 + 1;
    }
    out
}

/// The deterministic fake client port for a tracker URL.
pub open spec fn spec_port_of(seed: u64) -> u16 {
    (1024 + std_rng_word(seed, 0) % 64512) as u16
}

/// Draws the fake listening port; always at or above 1024.
pub fn random_port(value: &[u8]) -> (r: u16)
    ensures
        r == spec_port_of(spec_seed(value@)),
        1024 <= r < 65536,
{
    let seed = fingerprint_seed(value);
    let words = std_rng_words(seed, 1);
    1024 + ((words[0] % 64512) as u16)
}

/// The deterministic announce key for a tracker URL: eight uppercase hex
/// characters drawn from the seeded stream.
pub open spec fn spec_announce_key(seed: u64) -> Seq<u8> {
    Seq::new(8, |k: int| spec_key_char(std_rng_word(seed, k) as int % 16))
}

/// Builds the deterministic announce key.
pub fn random_key(value: &[u8]) -> (r: Vec<u8>)
    ensures
        r@ == spec_announce_key(spec_seed(value@)),
{
    let seed = fingerprint_seed(value);
    let words = std_rng_words(seed, 8);
    let mut out: Vec<u8> = Vec::new();
    let mut k: usize = 0;
    while k < 8
        invariant
            k <= 8,
            words@.len() == 8,
            forall|i: int| 0 <= i < 8 ==> words@[i] == std_rng_word(spec_seed(value@), i),
            out@ == Seq::new(k as nat, |j: int|
                spec_key_char(std_rng_word(spec_seed(value@), j) as int % 16)),
        decreases 8 - k,
    {
        let w = words[k] % 16;
        let c: u8 = if w < 10 {
            48 + (w as u8)
        } else {
            55 + (w as u8)
        };
        out.push(c);
        proof {
            assert(out@ =~= Seq::new((k + 1) as nat, |j: int|
                spec_key_char(std_rng_word(spec_seed(value@), j) as int % 16)));
        }
        k = k + 1;
    }
    out
}

} // verus!
