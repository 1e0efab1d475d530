//! The parity bit of a byte string.

use vstd::prelude::*;

verus! {

/// The number of one bits in `b`.
pub open spec fn ones(b: u8) -> nat {
    ((b & 1) + ((b >> 1) & 1) + ((b >> 2) & 1) + ((b >> 3) & 1) + ((b >> 4) & 1) + ((b >> 5) & 1)
        + ((b >> 6) & 1) + ((b >> 7) & 1)) as nat
}

/// The number of one bits in all of `bytes`.
pub open spec fn total_ones(bytes: Seq<u8>) -> nat
    decreases bytes.len(),
{
    if bytes.len() == 0 {
        0
    } else {
        total_ones(bytes.drop_last()) + ones(bytes.last())
    }
}

/// The parity bit of `bytes`: 1 where the number of one bits is even, else 0.
pub open spec fn parity_spec(bytes: Seq<u8>) -> u8 {
    if total_ones(bytes) % 2 == 0 {
        1
    } else {
        0
    }
}

/// Calls `u8::count_ones`, which returns the number of ones in the binary
/// representation of the byte.
#[verifier::external_body]
fn count_ones(b: u8) -> (n: u32)
    ensures
        n == ones(b),
{
    b.count_ones()
}

/// The parity bit of `bytes`: 1 where the number of one bits is even, else 0.
pub fn parity_bit(bytes: &[u8]) -> (bit: u8)
    ensures
        bit == parity_spec(bytes@),
{
    let mut odd: u32 = 0;
    let mut i: usize = 0;
    while i < bytes.len()
        invariant
            i <= bytes@.len(),
            odd == total_ones(bytes@.subrange(0, i as int)) % 2,
        decreases bytes@.len() - i,
    {
        let n: u32 = count_ones(bytes[i]);
        proof {
            assert(bytes@.subrange(0, i + 1).drop_last() =~= bytes@.subrange(0, i as int));
        }
        odd = (odd + n % 2) % 2;
        i += 1;
    }
    assert(bytes@.subrange(0, i as int) =~= bytes@);
    if odd == 0 {
        1
    } else {
        0
    }
}

} // verus!
