//! Small helpers on byte strings.

use vstd::prelude::*;

verus! {

/// Byte-string equality, stated over the views.
pub fn bytes_eq(a: &Vec<u8>, b: &Vec<u8>) -> (r: bool)
    ensures
        r == (a@ == b@),
{
    if a.len() != b.len() {
        return false;
    }
    let mut i: usize = 0;
    while i < a.len()
        invariant
            a@.len() == b@.len(),
            i <= a@.len(),
            forall|j: int| 0 <= j < i ==> a@[j] == b@[j],
        decreases a@.len() - i,
    {
        if a[i] != b[i] {
            return false;
        }
        i = i + 1;
    }
    proof {
        assert(a@ =~= b@);
    }
    true
}

/// The decimal digits of `n`, most significant first.
pub open spec fn spec_decimal(n: nat) -> Seq<u8>
    decreases n,
{
    if n < 10 {
        seq![(48 + n) as u8]
    } else {
        spec_decimal(n / 10).push((48 + n % 10) as u8)
    }
}

/// Writes `n` in decimal ASCII.
pub fn u64_to_decimal(n: u64) -> (r: Vec<u8>)
    ensures
        r@ == spec_decimal(n as nat),
{
    let mut chunk: Vec<u8> = Vec::new();
    let mut m: u64 = n;
    loop
        invariant_except_break
            spec_decimal(n as nat) == spec_decimal(m as nat) + chunk@,
        ensures
            chunk@ == spec_decimal(n as nat),
        decreases m,
    {
        let ghost pre = chunk@;
        let d: u8 = 48 + (m % 10) as u8;
        chunk.insert(0, d);
        proof {
            assert(chunk@ =~= seq![d] + pre);
            if m < 10 {
                assert(spec_decimal(m as nat) =~= seq![d]);
                assert(spec_decimal(n as nat) =~= chunk@);
            } else {
                assert(spec_decimal(m as nat) =~= spec_decimal((m / 10) as nat).push(d));
                assert(spec_decimal((m / 10) as nat).push(d) + pre =~= spec_decimal(
                    (m / 10) as nat,
                ) + chunk@);
            }
        }
        if m < 10 {
            break;
        }
        m = m / 10;
    }
    chunk
}

} // verus!
