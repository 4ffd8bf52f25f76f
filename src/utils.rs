//! Sizes of packed sequences.
use vstd::prelude::*;

verus! {

/// Round `n` up to the next multiple of 8.
pub fn ceil_to_8(n: u64) -> (r: u64)
    requires
        n <= u64::MAX - 7,
    ensures
        r as int == ((n as int + 7) / 8) * 8,
{
    (n + 7) / 8 * 8
}

/// Number of bits that hold `k` nucleotides.
pub fn bits2store_k(k: u64) -> (r: u64)
    requires
        k <= u64::MAX / 2,
    ensures
        r == 2 * k,
{
    k * 2
}

/// Number of bytes that hold `k` nucleotides.
pub fn bytes2store_k(k: u64) -> (r: u64)
    requires
        k <= u64::MAX / 2 - 4,
    ensures
        r == crate::codec::bytes_for_bits(2 * k as nat),
{
    ceil_to_8(bits2store_k(k)) / 8
}

} // verus!
