//! Writing KFF primitives at the end of a byte buffer.
use vstd::prelude::*;

use crate::codec::{be_bytes, push_be};

verus! {

/// The 8 bytes that hold `v` in two's complement.
pub open spec fn i64_bits(v: i64) -> nat {
    if v >= 0 {
        v as nat
    } else {
        (v + 0x1_0000_0000_0000_0000) as nat
    }
}

/// Append all `bytes`.
pub fn write_bytes(out: &mut Vec<u8>, bytes: &[u8])
    ensures
        final(out)@ == old(out)@ + bytes@,
{
    let mut i: usize = 0;
    while i < bytes.len()
        invariant
            i <= bytes@.len(),
            out@ =~= old(out)@ + bytes@.subrange(0, i as int),
        decreases bytes@.len() - i,
    {
        out.push(bytes[i]);
        i = i + 1;
    }
    assert(bytes@.subrange(0, bytes@.len() as int) =~= bytes@);
}

/// Append `ascii` followed by a zero byte.
pub fn write_ascii(out: &mut Vec<u8>, ascii: &[u8])
    ensures
        final(out)@ == old(out)@ + ascii@ + seq![0u8],
{
    write_bytes(out, ascii);
    out.push(0u8);
}

/// Append one byte: 1 for true, 0 for false.
pub fn write_bool(out: &mut Vec<u8>, value: bool)
    ensures
        final(out)@ == old(out)@.push(if value {
            1u8
        } else {
            0u8
        }),
{
    out.push(if value {
        1u8
    } else {
        0u8
    });
}

/// Append one byte.
pub fn write_u8(out: &mut Vec<u8>, value: u8)
    ensures
        final(out)@ == old(out)@.push(value),
{
    out.push(value);
}

/// Append a big-endian u16.
pub fn write_u16(out: &mut Vec<u8>, value: u16)
    ensures
        final(out)@ == old(out)@ + be_bytes(value as nat, 2),
{
    push_be(out, value as u64, 2);
}

/// Append a big-endian u32.
pub fn write_u32(out: &mut Vec<u8>, value: u32)
    ensures
        final(out)@ == old(out)@ + be_bytes(value as nat, 4),
{
    push_be(out, value as u64, 4);
}

/// Append a big-endian u64.
pub fn write_u64(out: &mut Vec<u8>, value: u64)
    ensures
        final(out)@ == old(out)@ + be_bytes(value as nat, 8),
{
    push_be(out, value, 8);
}

/// Append a big-endian two's complement i64.
pub fn write_i64(out: &mut Vec<u8>, value: i64)
    ensures
        final(out)@ == old(out)@ + be_bytes(i64_bits(value), 8),
{
    let u: u64 = if value >= 0 {
        value as u64
    } else {
        ((value - i64::MIN) as u64) + 0x8000_0000_0000_0000u64
    };
    push_be(out, u, 8);
}

} // verus!
