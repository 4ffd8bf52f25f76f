//! Byte-level codec: big-endian integers, dynamic-width fields and MSB-first
//! bit packing.
use vstd::prelude::*;

verus! {

/// 256 to the power `n`.
pub open spec fn pow256(n: nat) -> nat
    decreases n,
{
    if n == 0 {
        1
    } else {
        256 * pow256((n - 1) as nat)
    }
}

/// The unsigned integer that the bytes `s` denote, most significant byte first.
pub open spec fn be_value(s: Seq<u8>) -> nat
    decreases s.len(),
{
    if s.len() == 0 {
        0
    } else {
        be_value(s.drop_last()) * 256 + s.last() as nat
    }
}

/// The `n` low-order bytes of `v`, most significant first.
pub open spec fn be_bytes(v: nat, n: nat) -> Seq<u8>
    decreases n,
{
    if n == 0 {
        Seq::empty()
    } else {
        be_bytes(v / 256, (n - 1) as nat).push((v % 256) as u8)
    }
}

/// Byte width of a field whose values range over `[0, max]`.
pub open spec fn dyn_width(max: u64) -> nat {
    if max <= 0xff {
        1
    } else if max <= 0xffff {
        2
    } else if max <= 0xffff_ffff {
        4
    } else {
        8
    }
}

/// Bit `t` (0 is the most significant) of the byte `b`.
pub open spec fn bit_of(b: u8, t: u8) -> bool {
    (b << t) & 0x80u8 == 0x80u8
}

/// The bits of `s`, most significant bit of each byte first.
pub open spec fn bytes_bits(s: Seq<u8>) -> Seq<bool> {
    Seq::new(s.len() * 8, |i: int| bit_of(s[i / 8], (i % 8) as u8))
}

/// Number of bytes that hold `n` bits.
pub open spec fn bytes_for_bits(n: nat) -> nat {
    (n + 7) / 8
}

/// `bytes` holds `bits` followed by zero bits up to a whole number of bytes.
pub open spec fn packs(bytes: Seq<u8>, bits: Seq<bool>) -> bool {
    &&& bytes.len() == bytes_for_bits(bits.len())
    &&& forall|i: int|
        0 <= i < bytes.len() * 8 ==> #[trigger] bytes_bits(bytes)[i] == (i < bits.len() && bits[i])
}

/// The zero-padded MSB-first packing of `bits`.
pub open spec fn packed(bits: Seq<bool>) -> Seq<u8> {
    choose|bytes: Seq<u8>| packs(bytes, bits)
}

/// Bit `t` of a byte, set when bit `8j + t` of `bits` is set.
pub open spec fn bit_mask(bits: Seq<bool>, j: int, t: u8) -> u8 {
    if 8 * j + t < bits.len() && bits[8 * j + t] {
        0x80u8 >> t
    } else {
        0u8
    }
}

/// Byte `j` of the packing of `bits`.
pub open spec fn pack_byte(bits: Seq<bool>, j: int) -> u8 {
    bit_mask(bits, j, 0) | bit_mask(bits, j, 1) | bit_mask(bits, j, 2) | bit_mask(bits, j, 3)
        | bit_mask(bits, j, 4) | bit_mask(bits, j, 5) | bit_mask(bits, j, 6) | bit_mask(bits, j, 7)
}

proof fn lemma_pack_byte(bits: Seq<bool>, j: int, u: u8)
    requires
        u < 8,
    ensures
        bit_of(pack_byte(bits, j), u) == (8 * j + u < bits.len() && bits[8 * j + u]),
{
    let x0 = bit_mask(bits, j, 0);
    let x1 = bit_mask(bits, j, 1);
    let x2 = bit_mask(bits, j, 2);
    let x3 = bit_mask(bits, j, 3);
    let x4 = bit_mask(bits, j, 4);
    let x5 = bit_mask(bits, j, 5);
    let x6 = bit_mask(bits, j, 6);
    let x7 = bit_mask(bits, j, 7);
    assert(0x80u8 >> 0u8 == 0x80u8 && 0x80u8 >> 1u8 == 0x40u8 && 0x80u8 >> 2u8 == 0x20u8
        && 0x80u8 >> 3u8 == 0x10u8 && 0x80u8 >> 4u8 == 0x08u8 && 0x80u8 >> 5u8 == 0x04u8
        && 0x80u8 >> 6u8 == 0x02u8 && 0x80u8 >> 7u8 == 0x01u8) by (bit_vector);
    let x = x0 | x1 | x2 | x3 | x4 | x5 | x6 | x7;
    let sel: u8 = if u == 0 {
        x0
    } else if u == 1 {
        x1
    } else if u == 2 {
        x2
    } else if u == 3 {
        x3
    } else if u == 4 {
        x4
    } else if u == 5 {
        x5
    } else if u == 6 {
        x6
    } else {
        x7
    };
    assert(((x << u) & 0x80u8 == 0x80u8) == (sel != 0)) by (bit_vector)
        requires
            u < 8,
            x0 == 0 || x0 == 0x80u8,
            x1 == 0 || x1 == 0x40u8,
            x2 == 0 || x2 == 0x20u8,
            x3 == 0 || x3 == 0x10u8,
            x4 == 0 || x4 == 0x08u8,
            x5 == 0 || x5 == 0x04u8,
            x6 == 0 || x6 == 0x02u8,
            x7 == 0 || x7 == 0x01u8,
            x == x0 | x1 | x2 | x3 | x4 | x5 | x6 | x7,
            u == 0 ==> sel == x0,
            u == 1 ==> sel == x1,
            u == 2 ==> sel == x2,
            u == 3 ==> sel == x3,
            u == 4 ==> sel == x4,
            u == 5 ==> sel == x5,
            u == 6 ==> sel == x6,
            u == 7 ==> sel == x7,
    ;
}

/// Every bit sequence has a packing.
pub proof fn lemma_packed(bits: Seq<bool>)
    ensures
        packs(packed(bits), bits),
{
    let bytes = Seq::new(bytes_for_bits(bits.len()), |j: int| pack_byte(bits, j));
    assert forall|i: int| 0 <= i < bytes.len() * 8 implies #[trigger] bytes_bits(bytes)[i] == (i
        < bits.len() && bits[i]) by {
        let j = i / 8;
        let u = (i % 8) as u8;
        lemma_pack_byte(bits, j, u);
        assert(8 * j + u == i);
    }
    assert(packs(bytes, bits));
}

proof fn lemma_byte_from_bits(x: u8, y: u8)
    requires
        forall|u: u8| u < 8 ==> #[trigger] bit_of(x, u) == bit_of(y, u),
    ensures
        x == y,
{
    assert(bit_of(x, 0) == bit_of(y, 0));
    assert(bit_of(x, 1) == bit_of(y, 1));
    assert(bit_of(x, 2) == bit_of(y, 2));
    assert(bit_of(x, 3) == bit_of(y, 3));
    assert(bit_of(x, 4) == bit_of(y, 4));
    assert(bit_of(x, 5) == bit_of(y, 5));
    assert(bit_of(x, 6) == bit_of(y, 6));
    assert(bit_of(x, 7) == bit_of(y, 7));
    assert(x == y) by (bit_vector)
        requires
            ((x << 0u8) & 0x80u8 == 0x80u8) == ((y << 0u8) & 0x80u8 == 0x80u8),
            ((x << 1u8) & 0x80u8 == 0x80u8) == ((y << 1u8) & 0x80u8 == 0x80u8),
            ((x << 2u8) & 0x80u8 == 0x80u8) == ((y << 2u8) & 0x80u8 == 0x80u8),
            ((x << 3u8) & 0x80u8 == 0x80u8) == ((y << 3u8) & 0x80u8 == 0x80u8),
            ((x << 4u8) & 0x80u8 == 0x80u8) == ((y << 4u8) & 0x80u8 == 0x80u8),
            ((x << 5u8) & 0x80u8 == 0x80u8) == ((y << 5u8) & 0x80u8 == 0x80u8),
            ((x << 6u8) & 0x80u8 == 0x80u8) == ((y << 6u8) & 0x80u8 == 0x80u8),
            ((x << 7u8) & 0x80u8 == 0x80u8) == ((y << 7u8) & 0x80u8 == 0x80u8),
    ;
}

/// The packing of a bit sequence is unique.
pub proof fn lemma_packs_unique(a: Seq<u8>, b: Seq<u8>, bits: Seq<bool>)
    requires
        packs(a, bits),
        packs(b, bits),
    ensures
        a == b,
{
    assert forall|j: int| 0 <= j < a.len() implies a[j] == b[j] by {
        assert forall|u: u8| u < 8 implies #[trigger] bit_of(a[j], u) == bit_of(b[j], u) by {
            let i = j * 8 + u;
            assert(i / 8 == j);
            assert(i % 8 == u as int);
            assert(bytes_bits(a)[i] == bytes_bits(b)[i]);
        }
        lemma_byte_from_bits(a[j], b[j]);
    }
    assert(a =~= b);
}

/// Unpacking a packing gives the bits back.
pub proof fn lemma_unpack_packed(bytes: Seq<u8>, bits: Seq<bool>)
    requires
        packs(bytes, bits),
    ensures
        bytes_bits(bytes).take(bits.len() as int) == bits,
        bytes.len() * 8 >= bits.len(),
{
    assert forall|i: int| 0 <= i < bits.len() implies #[trigger] bytes_bits(bytes).take(
        bits.len() as int,
    )[i] == bits[i] by {
        assert(bytes_bits(bytes)[i] == (i < bits.len() && bits[i]));
    }
    assert(bytes_bits(bytes).take(bits.len() as int) =~= bits);
}

pub proof fn lemma_pow256_pos(n: nat)
    ensures
        pow256(n) >= 1,
    decreases n,
{
    if n > 0 {
        lemma_pow256_pos((n - 1) as nat);
    }
}

pub proof fn lemma_pow256_mono(a: nat, b: nat)
    requires
        a <= b,
    ensures
        pow256(a) <= pow256(b),
    decreases b,
{
    if a < b {
        lemma_pow256_mono(a, (b - 1) as nat);
        lemma_pow256_pos((b - 1) as nat);
    }
}

pub proof fn lemma_be_bytes_len(v: nat, n: nat)
    ensures
        be_bytes(v, n).len() == n,
    decreases n,
{
    if n > 0 {
        lemma_be_bytes_len(v / 256, (n - 1) as nat);
    }
}

pub proof fn lemma_be_value_bound(s: Seq<u8>)
    ensures
        be_value(s) < pow256(s.len()),
    decreases s.len(),
{
    if s.len() > 0 {
        lemma_be_value_bound(s.drop_last());
        let a = be_value(s.drop_last());
        let p = pow256((s.len() - 1) as nat);
        let b = s.last() as nat;
        assert(a * 256 + b < 256 * p) by (nonlinear_arith)
            requires
                a < p,
                b < 256,
        ;
    }
}

/// Writing `v` on `n` bytes and reading those bytes back gives `v`, when `v` fits.
pub proof fn lemma_be_round_trip(v: nat, n: nat)
    requires
        v < pow256(n),
    ensures
        be_value(be_bytes(v, n)) == v,
    decreases n,
{
    if n > 0 {
        let p = pow256((n - 1) as nat);
        let q = v / 256;
        let r = v % 256;
        vstd::arithmetic::div_mod::lemma_fundamental_div_mod(v as int, 256);
        assert(q < p) by (nonlinear_arith)
            requires
                v == 256 * q + r,
                r >= 0,
                v < 256 * p,
        ;
        lemma_be_round_trip(q, (n - 1) as nat);
        let s = be_bytes(v, n);
        assert(s.drop_last() =~= be_bytes(q, (n - 1) as nat));
    }
}

/// Reading bytes and writing the value back on as many bytes gives the bytes.
pub proof fn lemma_be_bytes_of_value(s: Seq<u8>)
    ensures
        be_bytes(be_value(s), s.len()) == s,
    decreases s.len(),
{
    if s.len() > 0 {
        let t = s.drop_last();
        let b = s.last() as nat;
        let v = be_value(t);
        lemma_be_bytes_of_value(t);
        let x = v * 256 + b;
        assert(x / 256 == v && x % 256 == b) by {
            vstd::arithmetic::div_mod::lemma_fundamental_div_mod_converse(x as int, 256, v as int, b as int);
        }
        assert(be_bytes(x, s.len()) =~= s);
    }
}

pub proof fn lemma_pow256_widths()
    ensures
        pow256(1) == 0x100,
        pow256(2) == 0x10000,
        pow256(4) == 0x1_0000_0000,
        pow256(8) == 0x1_0000_0000_0000_0000,
{
    reveal_with_fuel(pow256, 9);
}

/// Dynamic-width round trip: a value in `[0, max]` written on `dyn_width(max)`
/// bytes takes exactly that many bytes and reads back as itself.
pub proof fn lemma_dynamic_round_trip(max: u64, v: u64)
    requires
        v <= max,
    ensures
        be_bytes(v as nat, dyn_width(max)).len() == dyn_width(max),
        be_value(be_bytes(v as nat, dyn_width(max))) == v,
{
    lemma_pow256_widths();
    lemma_be_bytes_len(v as nat, dyn_width(max));
    lemma_be_round_trip(v as nat, dyn_width(max));
}

proof fn lemma_set_bit(x: u8, t: u8, u: u8)
    requires
        t < 8,
        u < 8,
    ensures
        bit_of(x | (0x80u8 >> t), u) == (u == t || bit_of(x, u)),
{
    assert(((x | (0x80u8 >> t)) << u) & 0x80u8 == 0x80u8 <==> (u == t || (x << u) & 0x80u8
        == 0x80u8)) by (bit_vector)
        requires
            t < 8,
            u < 8,
    ;
}

proof fn lemma_zero_bits(u: u8)
    requires
        u < 8,
    ensures
        !bit_of(0u8, u),
{
    assert((0u8 << u) & 0x80u8 != 0x80u8) by (bit_vector)
        requires
            u < 8,
    ;
}

/// Append the `n` low-order bytes of `v`, most significant first.
pub fn push_be(out: &mut Vec<u8>, v: u64, n: usize)
    requires
        n <= 8,
    ensures
        final(out)@ == old(out)@ + be_bytes(v as nat, n as nat),
    decreases n,
{
    if n > 0 {
        push_be(out, v / 256, n - 1);
        out.push((v % 256) as u8);
        proof {
            let prev = old(out)@ + be_bytes((v / 256) as nat, (n - 1) as nat);
            assert(final(out)@ =~= prev.push((v % 256) as u8));
        }
    }
}

/// The big-endian value of `bytes[start..start + n]`.
pub fn be_read(bytes: &[u8], start: usize, n: usize) -> (r: u64)
    requires
        n <= 8,
        start + n <= bytes@.len(),
    ensures
        r as nat == be_value(bytes@.subrange(start as int, start + n)),
{
    let len = bytes.len();
    let mut acc: u64 = 0;
    let mut i: usize = 0;
    while i < n
        invariant
            len == bytes@.len(),
            i <= n,
            n <= 8,
            start + n <= bytes@.len(),
            acc as nat == be_value(bytes@.subrange(start as int, start + i)),
        decreases n - i,
    {
        proof {
            let s = bytes@.subrange(start as int, start + i);
            lemma_be_value_bound(s);
            lemma_pow256_mono(i as nat, 7);
            reveal_with_fuel(pow256, 8);
            assert(pow256(7) == 0x100_0000_0000_0000);
            assert(acc < 0x100_0000_0000_0000);
            assert(bytes@.subrange(start as int, start + i + 1).drop_last() =~= s);
            assert(acc * 256 + 255 < 0x1_0000_0000_0000_0000) by (nonlinear_arith)
                requires
                    acc < 0x100_0000_0000_0000,
            ;
        }
        acc = acc * 256 + bytes[start + i] as u64;
        i = i + 1;
    }
    acc
}

/// Unpack the first `nbits` bits of `bytes`, most significant bit first.
pub fn unpack_bits(bytes: &[u8], nbits: usize) -> (r: Vec<bool>)
    requires
        nbits <= bytes@.len() * 8,
    ensures
        r@ == bytes_bits(bytes@).take(nbits as int),
{
    let mut out: Vec<bool> = Vec::with_capacity(nbits);
    let mut i: usize = 0;
    while i < nbits
        invariant
            i <= nbits,
            nbits <= bytes@.len() * 8,
            out@ =~= bytes_bits(bytes@).take(i as int),
        decreases nbits - i,
    {
        let b = bytes[i / 8];
        let t = (i % 8) as u8;
        out.push((b << t) & 0x80u8 == 0x80u8);
        i = i + 1;
    }
    out
}

/// Pack `bits` into bytes, most significant bit first, padding the last byte
/// with zero bits.
pub fn pack_bits(bits: &[bool]) -> (r: Vec<u8>)
    ensures
        packs(r@, bits@),
        r@ == packed(bits@),
{
    let n = bits.len();
    let nbytes = n / 8 + if n % 8 == 0 { 0 } else { 1 };
    let mut out: Vec<u8> = Vec::with_capacity(nbytes);
    let mut j: usize = 0;
    while j < nbytes
        invariant
            n == bits@.len(),
            nbytes == bytes_for_bits(n as nat),
            j <= nbytes,
            out@.len() == j,
            forall|i: int|
                0 <= i < j * 8 ==> #[trigger] bytes_bits(out@)[i] == (i < n && bits@[i]),
        decreases nbytes - j,
    {
        proof {
            assert forall|u: u8| u < 8 implies #[trigger] bit_of(0u8, u) == false by {
                lemma_zero_bits(u);
            }
        }
        let mut x: u8 = 0;
        let mut t: u8 = 0;
        while t < 8
            invariant
                n == bits@.len(),
                j < nbytes,
                nbytes == bytes_for_bits(n as nat),
                t <= 8,
                forall|u: u8|
                    u < 8 ==> #[trigger] bit_of(x, u) == (u < t && (j * 8 + u < n && bits@[j
                        * 8 + u])),
            decreases 8 - t,
        {
            let idx = j * 8 + t as usize;
            if idx < n && bits[idx] {
                proof {
                    assert forall|u: u8| u < 8 implies #[trigger] bit_of(x | (0x80u8 >> t), u) == (
                    u == t || bit_of(x, u)) by {
                        lemma_set_bit(x, t, u);
                    }
                }
                x = x | (0x80u8 >> t);
            }
            t = t + 1;
        }
        let ghost prev = out@;
        out.push(x);
        proof {
            assert forall|i: int| 0 <= i < (j + 1) * 8 implies #[trigger] bytes_bits(out@)[i] == (i
                < n && bits@[i]) by {
                if i < j * 8 {
                    assert(bytes_bits(out@)[i] == bytes_bits(prev)[i]);
                } else {
                    let u = (i - j * 8) as u8;
                    assert(i / 8 == j);
                    assert(i % 8 == u as int);
                }
            }
        }
        j = j + 1;
    }
    proof {
        lemma_packs_unique(out@, packed(bits@), bits@);
    }
    out
}

} // verus!
