//! The digest that stands for the source a package was indexed from.
//!
//! It is the 64-bit FNV-1a hash: start from the offset basis and, for each
//! byte in turn, xor the byte in and multiply by the prime, keeping the low
//! 64 bits.

use vstd::prelude::*;

verus! {

/// The value the digest starts from.
pub const OFFSET_BASIS: u64 = 0xcbf2_9ce4_8422_2325;

/// The multiplier of each round.
pub const PRIME: u64 = 0x0000_0100_0000_01b3;

/// One round: the digest after `byte` follows what gave `h`.
pub open spec fn mix(h: u64, byte: u8) -> u64 {
    (((h ^ (byte as u64)) as nat * PRIME as nat) % 0x1_0000_0000_0000_0000nat) as u64
}

/// The digest of a sequence of bytes.
pub open spec fn digest_of(bytes: Seq<u8>) -> u64
    decreases bytes.len(),
{
    if bytes.len() == 0 {
        OFFSET_BASIS
    } else {
        mix(digest_of(bytes.drop_last()), bytes.last())
    }
}

/// Computes the digest of `bytes`.
pub fn digest(bytes: &[u8]) -> (h: u64)
    ensures
        h == digest_of(bytes@),
{
    let mut h: u64 = OFFSET_BASIS;
    let mut i: usize = 0;
    while i < bytes.len()
        invariant
            i <= bytes@.len(),
            h == digest_of(bytes@.take(i as int)),
        decreases bytes@.len() - i,
    {
        let byte: u8 = bytes[i];
        assert(bytes@.take(i + 1).drop_last() =~= bytes@.take(i as int));
        h = (h ^ (byte as u64)).wrapping_mul(PRIME);
        i += 1;
    }
    assert(bytes@.take(i as int) =~= bytes@);
    h
}

} // verus!
