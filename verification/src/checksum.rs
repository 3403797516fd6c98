//! The Adler-32 checksum that guards blobs and log frames.

use vstd::prelude::*;

verus! {

/// The low half of Adler-32: one more than the sum of the bytes, modulo 65521.
pub open spec fn adler_low(bytes: Seq<u8>) -> int
    decreases bytes.len(),
{
    if bytes.len() == 0 {
        1
    } else {
        (adler_low(bytes.drop_last()) + bytes.last()) % 65521
    }
}

/// The high half of Adler-32: the sum of the low halves of all the prefixes,
/// modulo 65521.
pub open spec fn adler_high(bytes: Seq<u8>) -> int
    decreases bytes.len(),
{
    if bytes.len() == 0 {
        0
    } else {
        (adler_high(bytes.drop_last()) + adler_low(bytes)) % 65521
    }
}

/// The Adler-32 checksum of `bytes`.
pub open spec fn adler32(bytes: Seq<u8>) -> u32 {
    (adler_high(bytes) * 65536 + adler_low(bytes)) as u32
}

/// The Adler-32 checksum of `bytes`.
pub fn checksum(bytes: &[u8]) -> (sum: u32)
    ensures
        sum == adler32(bytes@),
{
    let mut low: u32 = 1;
    let mut high: u32 = 0;
    let mut i: usize = 0;
    while i < bytes.len()
        invariant
            i <= bytes.len(),
            low == adler_low(bytes@.take(i as int)),
            high == adler_high(bytes@.take(i as int)),
            low < 65521,
            high < 65521,
        decreases bytes.len() - i,
    {
        assert(bytes@.take(i + 1).drop_last() =~= bytes@.take(i as int));
        low = (low + bytes[i] as u32) % 65521;
        high = (high + low) % 65521;
        i += 1;
    }
    assert(bytes@.take(i as int) =~= bytes@);
    high * 65536 + low
}

} // verus!
