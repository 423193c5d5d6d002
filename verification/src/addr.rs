//! Peer addresses, their total order, and the compact binary peer formats.
//!
//! A peer is a socket address (IPv4 or IPv6, with port) plus an expiry
//! instant.  The by-expiry index of a directory orders peers by
//! `(expire, addr)`, so the address needs a total order of its own; IPv4
//! addresses sort before IPv6 ones, then by IP, then by port.

use vstd::prelude::*;

use crate::errors::FetchError;

verus! {

/// Network address of a peer.  The IP is held as a big-endian integer.
#[allow(inconsistent_fields)]
#[derive(Clone, Copy, PartialEq, Eq, Structural, Debug, Hash)]
pub enum PeerAddr {
    V4 { ip: u32, port: u16 },
    V6 { ip: u128, port: u16 },
}

/// A peer entry: address plus the instant (in seconds) it expires.
#[derive(Clone, Copy, PartialEq, Eq, Structural, Debug, Hash)]
pub struct Peer {
    pub expire: u64,
    pub addr: PeerAddr,
}

/// Strict total order on addresses: IPv4 first, then by IP, then by port.
pub open spec fn addr_lt(a: PeerAddr, b: PeerAddr) -> bool {
    match (a, b) {
        (PeerAddr::V4 { ip: ia, port: pa }, PeerAddr::V4 { ip: ib, port: pb }) => ia < ib || (ia
            == ib && pa < pb),
        (PeerAddr::V4 { .. }, PeerAddr::V6 { .. }) => true,
        (PeerAddr::V6 { .. }, PeerAddr::V4 { .. }) => false,
        (PeerAddr::V6 { ip: ia, port: pa }, PeerAddr::V6 { ip: ib, port: pb }) => ia < ib || (ia
            == ib && pa < pb),
    }
}

/// Strict total order on peers: by expiry, ties broken by address.
pub open spec fn peer_lt(a: Peer, b: Peer) -> bool {
    a.expire < b.expire || (a.expire == b.expire && addr_lt(a.addr, b.addr))
}

/// `addr_lt` is trichotomous: exactly one of `<`, `==`, `>` holds.
pub proof fn lemma_addr_lt_trichotomy(a: PeerAddr, b: PeerAddr)
    ensures
        addr_lt(a, b) || a == b || addr_lt(b, a),
        addr_lt(a, b) ==> !(a == b) && !addr_lt(b, a),
        a == b ==> !addr_lt(a, b) && !addr_lt(b, a),
{
}

/// `peer_lt` is trichotomous: exactly one of `<`, `==`, `>` holds.
pub proof fn lemma_peer_lt_trichotomy(a: Peer, b: Peer)
    ensures
        peer_lt(a, b) || a == b || peer_lt(b, a),
        peer_lt(a, b) ==> !(a == b) && !peer_lt(b, a),
        a == b ==> !peer_lt(a, b) && !peer_lt(b, a),
{
    lemma_addr_lt_trichotomy(a.addr, b.addr);
}

/// `peer_lt` is transitive.
pub proof fn lemma_peer_lt_transitive(a: Peer, b: Peer, c: Peer)
    requires
        peer_lt(a, b),
        peer_lt(b, c),
    ensures
        peer_lt(a, c),
{
}

/// Decides `addr_lt` at run time.
pub fn addr_is_lt(a: &PeerAddr, b: &PeerAddr) -> (r: bool)
    ensures
        r == addr_lt(*a, *b),
{
    match (a, b) {
        (PeerAddr::V4 { ip: ia, port: pa }, PeerAddr::V4 { ip: ib, port: pb }) => *ia < *ib || (*ia
            == *ib && *pa < *pb),
        (PeerAddr::V4 { .. }, PeerAddr::V6 { .. }) => true,
        (PeerAddr::V6 { .. }, PeerAddr::V4 { .. }) => false,
        (PeerAddr::V6 { ip: ia, port: pa }, PeerAddr::V6 { ip: ib, port: pb }) => *ia < *ib || (*ia
            == *ib && *pa < *pb),
    }
}

/// Decides `peer_lt` at run time.
pub fn peer_is_lt(a: &Peer, b: &Peer) -> (r: bool)
    ensures
        r == peer_lt(*a, *b),
{
    a.expire < b.expire || (a.expire == b.expire && addr_is_lt(&a.addr, &b.addr))
}

/// `256 ^ k`.
pub open spec fn pow256(k: nat) -> nat
    decreases k,
{
    if k == 0 {
        1
    } else {
        256 * pow256((k - 1) as nat)
    }
}

/// The big-endian value of a byte string.
pub open spec fn be_bytes_to_nat(b: Seq<u8>) -> nat
    decreases b.len(),
{
    if b.len() == 0 {
        0
    } else {
        (be_bytes_to_nat(b.drop_last()) * 256 + b.last()) as nat
    }
}

/// The `len`-byte big-endian encoding of `n` (mod `256 ^ len`).
pub open spec fn nat_to_be_bytes(n: nat, len: nat) -> Seq<u8>
    decreases len,
{
    if len == 0 {
        Seq::empty()
    } else {
        nat_to_be_bytes(n / 256, (len - 1) as nat).push((n % 256) as u8)
    }
}

pub proof fn lemma_pow256_pos(a: nat)
    ensures
        pow256(a) >= 1,
    decreases a,
{
    if a > 0 {
        lemma_pow256_pos((a - 1) as nat);
    }
}

pub proof fn lemma_pow256_increases(a: nat, b: nat)
    requires
        a <= b,
    ensures
        pow256(a) <= pow256(b),
        pow256(a) >= 1,
    decreases b,
{
    lemma_pow256_pos(a);
    if a < b {
        lemma_pow256_increases(a, (b - 1) as nat);
    }
}

/// The encoding of `n` in `len` bytes has length `len`.
pub proof fn lemma_nat_to_be_len(n: nat, len: nat)
    ensures
        nat_to_be_bytes(n, len).len() == len,
    decreases len,
{
    if len > 0 {
        lemma_nat_to_be_len(n / 256, (len - 1) as nat);
    }
}

/// A byte string's big-endian value fits in `len` bytes.
pub proof fn lemma_be_bytes_bound(b: Seq<u8>)
    ensures
        be_bytes_to_nat(b) < pow256(b.len()),
    decreases b.len(),
{
    if b.len() > 0 {
        lemma_be_bytes_bound(b.drop_last());
    }
}

/// Decoding inverts encoding: the encoding of `be_bytes_to_nat(b)` is `b`.
pub proof fn lemma_nat_to_be_of_be(b: Seq<u8>)
    ensures
        nat_to_be_bytes(be_bytes_to_nat(b), b.len()) == b,
    decreases b.len(),
{
    if b.len() == 0 {
        assert(nat_to_be_bytes(be_bytes_to_nat(b), b.len()) =~= b);
    } else {
        let hi = be_bytes_to_nat(b.drop_last());
        let n: nat = (hi * 256 + b.last()) as nat;
        assert(n / 256 == hi && n % 256 == b.last()) by (nonlinear_arith)
            requires
                n == hi * 256 + b.last(),
                b.last() < 256,
                hi >= 0,
        ;
        lemma_nat_to_be_of_be(b.drop_last());
        assert(nat_to_be_bytes(n, b.len()) =~= b);
    }
}

/// Encoding inverts decoding for values that fit in `len` bytes.
pub proof fn lemma_be_of_nat_to_be(n: nat, len: nat)
    requires
        n < pow256(len),
    ensures
        be_bytes_to_nat(nat_to_be_bytes(n, len)) == n,
    decreases len,
{
    if len > 0 {
        assert(n / 256 < pow256((len - 1) as nat)) by (nonlinear_arith)
            requires
                n < 256 * pow256((len - 1) as nat),
        ;
        lemma_be_of_nat_to_be(n / 256, (len - 1) as nat);
        let e = nat_to_be_bytes(n, len);
        assert(e.drop_last() =~= nat_to_be_bytes(n / 256, (len - 1) as nat));
        assert((n / 256) * 256 + n % 256 == n) by (nonlinear_arith);
    }
}

/// Reads the big-endian value of `b[from..to]`; at most 16 bytes.
pub fn read_be(b: &[u8], from: usize, to: usize) -> (r: u128)
    requires
        from <= to <= b@.len(),
        to - from <= 16,
    ensures
        r as nat == be_bytes_to_nat(b@.subrange(from as int, to as int)),
{
    proof {
        reveal_with_fuel(pow256, 17);
    }
    let mut acc: u128 = 0;
    let mut i: usize = from;
    while i < to
        invariant
            from <= i <= to <= b@.len(),
            to - from <= 16,
            acc as nat == be_bytes_to_nat(b@.subrange(from as int, i as int)),
        decreases to - i,
    {
        proof {
            reveal_with_fuel(pow256, 17);
            lemma_be_bytes_bound(b@.subrange(from as int, i as int));
            lemma_pow256_increases((i - from) as nat, 15);
            assert(b@.subrange(from as int, i + 1 as int).drop_last() =~= b@.subrange(
                from as int,
                i as int,
            ));
        }
        acc = acc * 256 + (b[i] as u128);
        i = i + 1;
    }
    acc
}

/// Appends the `len`-byte big-endian encoding of `n` to `out`.
pub fn append_be(out: &mut Vec<u8>, n: u128, len: usize)
    ensures
        final(out)@ == old(out)@ + nat_to_be_bytes(n as nat, len as nat),
{
    let mut chunk: Vec<u8> = Vec::new();
    let mut m: u128 = n;
    let mut k: usize = len;
    while k > 0
        invariant
            nat_to_be_bytes(n as nat, len as nat) == nat_to_be_bytes(m as nat, k as nat) + chunk@,
        decreases k,
    {
        proof {
            let s = nat_to_be_bytes((m / 256) as nat, (k - 1) as nat);
            assert(s.push((m % 256) as u8) + chunk@ =~= s + (seq![(m % 256) as u8] + chunk@));
        }
        chunk.insert(0, (m % 256) as u8);
        m = m / 256;
        k = k - 1;
    }
    let mut j: usize = 0;
    while j < chunk.len()
        invariant
            j <= chunk@.len(),
            out@ == old(out)@ + chunk@.subrange(0, j as int),
            chunk@ == nat_to_be_bytes(n as nat, len as nat),
        decreases chunk@.len() - j,
    {
        proof {
            assert(chunk@.subrange(0, j + 1 as int) =~= chunk@.subrange(0, j as int).push(
                chunk@[j as int],
            ));
            assert(old(out)@ + chunk@.subrange(0, j + 1 as int) =~= (old(out)@ + chunk@.subrange(
                0,
                j as int,
            )).push(chunk@[j as int]));
        }
        let byte = chunk[j];
        out.push(byte);
        j = j + 1;
    }
    proof {
        assert(chunk@.subrange(0, chunk@.len() as int) =~= chunk@);
    }
}

/// Compact form of one IPv4 peer: 4 IP bytes then 2 big-endian port bytes.
pub open spec fn spec_v4_compact(ip: u32, port: u16) -> Seq<u8> {
    nat_to_be_bytes(ip as nat, 4) + nat_to_be_bytes(port as nat, 2)
}

/// Compact form of one IPv6 peer: 16 IP bytes then 2 big-endian port bytes.
pub open spec fn spec_v6_compact(ip: u128, port: u16) -> Seq<u8> {
    nat_to_be_bytes(ip as nat, 16) + nat_to_be_bytes(port as nat, 2)
}

/// Compact form of one peer address, 6 or 18 bytes by family.
pub open spec fn spec_peer_compact(a: PeerAddr) -> Seq<u8> {
    match a {
        PeerAddr::V4 { ip, port } => spec_v4_compact(ip, port),
        PeerAddr::V6 { ip, port } => spec_v6_compact(ip, port),
    }
}

/// Writes the compact binary form of one peer address.
pub fn serialize_peer_binary(value: &PeerAddr) -> (r: Vec<u8>)
    ensures
        r@ == spec_peer_compact(*value),
{
    let mut out: Vec<u8> = Vec::new();
    match value {
        PeerAddr::V4 { ip, port } => {
            append_be(&mut out, *ip as u128, 4);
            append_be(&mut out, *port as u128, 2);
            proof {
                assert(out@ =~= spec_v4_compact(*ip, *port));
            }
        },
        PeerAddr::V6 { ip, port } => {
            append_be(&mut out, *ip, 16);
            append_be(&mut out, *port as u128, 2);
            proof {
                assert(out@ =~= spec_v6_compact(*ip, *port));
            }
        },
    }
    out
}

/// The IPv4 peer encoded at chunk `i` of a compact peer string.
pub open spec fn spec_v4_peer_at(b: Seq<u8>, i: int) -> PeerAddr {
    PeerAddr::V4 {
        ip: be_bytes_to_nat(b.subrange(6 * i, 6 * i + 4)) as u32,
        port: be_bytes_to_nat(b.subrange(6 * i + 4, 6 * i + 6)) as u16,
    }
}

/// The IPv6 peer encoded at chunk `i` of a compact peer string.
pub open spec fn spec_v6_peer_at(b: Seq<u8>, i: int) -> PeerAddr {
    PeerAddr::V6 {
        ip: be_bytes_to_nat(b.subrange(18 * i, 18 * i + 16)) as u128,
        port: be_bytes_to_nat(b.subrange(18 * i + 16, 18 * i + 18)) as u16,
    }
}

/// Decodes a compact IPv4 peer string (6 bytes per peer).  A length that is
/// not a multiple of 6 is a protocol error, never silently truncated.
pub fn deserialize_peers_binary(value: &[u8]) -> (r: Result<Vec<PeerAddr>, FetchError>)
    ensures
        match r {
            Ok(v) => value@.len() % 6 == 0 && v@.len() == value@.len() / 6 && (forall|i: int|
                0 <= i < v@.len() ==> v@[i] == spec_v4_peer_at(value@, i)),
            Err(e) => value@.len() % 6 != 0 && e == FetchError::OriginProtocol,
        },
{
    if value.len() % 6 != 0 {
        return Err(FetchError::OriginProtocol);
    }
    let n = value.len() / 6;
    proof {
        assert(value@.len() as int == 6 * (value@.len() as int / 6)) by (nonlinear_arith)
            requires
                value@.len() % 6 == 0,
        ;
    }
    let mut out: Vec<PeerAddr> = Vec::new();
    let mut i: usize = 0;
    while i < n
        invariant
            value@.len() % 6 == 0,
            n == value@.len() / 6,
            value@.len() == 6 * n,
            value@.len() <= usize::MAX,
            i <= n,
            out@.len() == i,
            forall|j: int| 0 <= j < i ==> out@[j] == spec_v4_peer_at(value@, j),
        decreases n - i,
    {
        let base = 6 * i;
        let ip128 = read_be(value, base, base + 4);
        let port128 = read_be(value, base + 4, base + 6);
        proof {
            reveal_with_fuel(pow256, 17);
            lemma_be_bytes_bound(value@.subrange(base as int, base + 4 as int));
            lemma_be_bytes_bound(value@.subrange(base + 4 as int, base + 6 as int));
        }
        let ip = ip128 as u32;
        let port = port128 as u16;
        out.push(PeerAddr::V4 { ip, port });
        i = i + 1;
    }
    Ok(out)
}

/// Decodes a compact IPv6 peer string (18 bytes per peer).  A length that is
/// not a multiple of 18 is a protocol error, never silently truncated.
pub fn deserialize_peers6_binary(value: &[u8]) -> (r: Result<Vec<PeerAddr>, FetchError>)
    ensures
        match r {
            Ok(v) => value@.len() % 18 == 0 && v@.len() == value@.len() / 18 && (forall|i: int|
                0 <= i < v@.len() ==> v@[i] == spec_v6_peer_at(value@, i)),
            Err(e) => value@.len() % 18 != 0 && e == FetchError::OriginProtocol,
        },
{
    if value.len() % 18 != 0 {
        return Err(FetchError::OriginProtocol);
    }
    let n = value.len() / 18;
    proof {
        assert(value@.len() as int == 18 * (value@.len() as int / 18)) by (nonlinear_arith)
            requires
                value@.len() % 18 == 0,
        ;
    }
    let mut out: Vec<PeerAddr> = Vec::new();
    let mut i: usize = 0;
    while i < n
        invariant
            value@.len() % 18 == 0,
            n == value@.len() / 18,
            value@.len() == 18 * n,
            value@.len() <= usize::MAX,
            i <= n,
            out@.len() == i,
            forall|j: int| 0 <= j < i ==> out@[j] == spec_v6_peer_at(value@, j),
        decreases n - i,
    {
        let base = 18 * i;
        let ip128 = read_be(value, base, base + 16);
        let port128 = read_be(value, base + 16, base + 18);
        proof {
            reveal_with_fuel(pow256, 17);
            lemma_be_bytes_bound(value@.subrange(base as int, base + 16 as int));
            lemma_be_bytes_bound(value@.subrange(base + 16 as int, base + 18 as int));
        }
        let ip = ip128;
        let port = port128 as u16;
        out.push(PeerAddr::V6 { ip, port });
        i = i + 1;
    }
    Ok(out)
}

/// Round trip: decoding the compact form of an IPv4 peer gives it back.
pub proof fn lemma_v4_compact_round_trip(ip: u32, port: u16)
    ensures
        spec_v4_peer_at(spec_v4_compact(ip, port), 0) == (PeerAddr::V4 { ip, port }),
{
    reveal_with_fuel(pow256, 17);
    let b = spec_v4_compact(ip, port);
    lemma_nat_to_be_len(ip as nat, 4);
    lemma_nat_to_be_len(port as nat, 2);
    assert(b.subrange(0, 4) =~= nat_to_be_bytes(ip as nat, 4));
    assert(b.subrange(4, 6) =~= nat_to_be_bytes(port as nat, 2));
    lemma_be_of_nat_to_be(ip as nat, 4);
    lemma_be_of_nat_to_be(port as nat, 2);
}

/// Round trip: decoding the compact form of an IPv6 peer gives it back.
pub proof fn lemma_v6_compact_round_trip(ip: u128, port: u16)
    ensures
        spec_v6_peer_at(spec_v6_compact(ip, port), 0) == (PeerAddr::V6 { ip, port }),
{
    reveal_with_fuel(pow256, 17);
    let b = spec_v6_compact(ip, port);
    lemma_nat_to_be_len(ip as nat, 16);
    lemma_nat_to_be_len(port as nat, 2);
    assert(b.subrange(0, 16) =~= nat_to_be_bytes(ip as nat, 16));
    assert(b.subrange(16, 18) =~= nat_to_be_bytes(port as nat, 2));
    lemma_be_of_nat_to_be(ip as nat, 16);
    lemma_be_of_nat_to_be(port as nat, 2);
}

} // verus!
