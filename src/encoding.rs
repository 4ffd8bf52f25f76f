//! The nucleotide encoding: four 2-bit codes packed in one byte, from the
//! most significant bits: A, C, G, T. Letters are ASCII bytes: A is 65, C 67,
//! G 71 and T 84.
use vstd::prelude::*;

use crate::error::{Error, Kff, Result};

verus! {

/// Code of the field `f` (0: A, 1: C, 2: G, 3: T) of the encoding `e`.
pub open spec fn code_of(e: u8, f: u8) -> u8 {
    (e >> (6 - 2 * f) as u8) & 3u8
}

/// The four codes of `e` are pairwise different.
pub open spec fn is_valid_encoding(e: u8) -> bool {
    &&& code_of(e, 0) != code_of(e, 1)
    &&& code_of(e, 0) != code_of(e, 2)
    &&& code_of(e, 0) != code_of(e, 3)
    &&& code_of(e, 1) != code_of(e, 2)
    &&& code_of(e, 1) != code_of(e, 3)
    &&& code_of(e, 2) != code_of(e, 3)
}

/// Index of a nucleotide letter used internally: A 0, C 1, T 2, G 3 (also for
/// lower case letters).
pub open spec fn internal_of(nuc: u8) -> u8 {
    (nuc >> 1u8) & 3u8
}

/// Field of the encoding byte that holds the code of `nuc`.
pub open spec fn field_of(nuc: u8) -> u8 {
    internal_of(nuc) ^ (internal_of(nuc) >> 1u8)
}

/// The 2-bit code of the nucleotide `nuc` under `e`.
pub open spec fn nuc_code(e: u8, nuc: u8) -> u8 {
    code_of(e, field_of(nuc))
}

/// Letter of the field `f`.
pub open spec fn letter_of(f: u8) -> u8 {
    if f == 0 {
        65u8
    } else if f == 1 {
        67u8
    } else if f == 2 {
        71u8
    } else {
        84u8
    }
}

/// The nucleotide whose code under `e` is `c`.
pub open spec fn nuc_of_code(e: u8, c: u8) -> u8 {
    if code_of(e, 0) == c {
        65u8
    } else if code_of(e, 1) == c {
        67u8
    } else if code_of(e, 2) == c {
        71u8
    } else {
        84u8
    }
}

/// The 2-bit code that the bits `hi`, `lo` spell.
pub open spec fn code_of_bits(hi: bool, lo: bool) -> u8 {
    ((if hi {
        2u8
    } else {
        0u8
    }) + (if lo {
        1u8
    } else {
        0u8
    })) as u8
}

/// The bits of the sequence `s` under `e`: two per nucleotide, high bit first.
pub open spec fn seq_to_bits(e: u8, s: Seq<u8>) -> Seq<bool> {
    Seq::new(
        2 * s.len(),
        |i: int|
            if i % 2 == 0 {
                (nuc_code(e, s[i / 2]) >> 1u8) & 1u8 == 1u8
            } else {
                nuc_code(e, s[i / 2]) & 1u8 == 1u8
            },
    )
}

/// The nucleotides that the bits `b` spell under `e` (a trailing odd bit is
/// ignored).
pub open spec fn bits_to_seq(e: u8, b: Seq<bool>) -> Seq<u8> {
    Seq::new(b.len() / 2, |j: int| nuc_of_code(e, code_of_bits(b[2 * j], b[2 * j + 1])))
}

/// `s` is made of the letters A, C, G and T.
pub open spec fn is_acgt(s: Seq<u8>) -> bool {
    forall|i: int|
        0 <= i < s.len() ==> #[trigger] s[i] == 65u8 || s[i] == 67u8 || s[i] == 71u8
            || s[i] == 84u8
}

/// The reverse of an encoding: its field `c` holds the field of `e` whose code is `c`.
pub open spec fn rev_of(e: u8) -> u8 {
    (((0u8 << (6 - 2 * code_of(e, 0)) as u8) ^ (1u8 << (6 - 2 * code_of(e, 1)) as u8)) ^ (2u8 << (6
        - 2 * code_of(e, 2)) as u8)) ^ (3u8 << (6 - 2 * code_of(e, 3)) as u8)
}

proof fn lemma_code_bits(c: u8)
    requires
        c < 4,
    ensures
        code_of_bits((c >> 1u8) & 1u8 == 1u8, c & 1u8 == 1u8) == c,
{
    assert(((if (c >> 1u8) & 1u8 == 1u8 {
        2u8
    } else {
        0u8
    }) + (if c & 1u8 == 1u8 {
        1u8
    } else {
        0u8
    })) as u8 == c) by (bit_vector)
        requires
            c < 4,
    ;
}

proof fn lemma_code_lt4(e: u8, f: u8)
    ensures
        code_of(e, f) < 4,
{
    assert((e >> (6 - 2 * f) as u8) & 3u8 < 4) by (bit_vector);
}

proof fn lemma_field_of_letters()
    ensures
        field_of(65u8) == 0,
        field_of(67u8) == 1,
        field_of(71u8) == 2,
        field_of(84u8) == 3,
{
    assert(((65u8 >> 1u8) & 3u8) ^ (((65u8 >> 1u8) & 3u8) >> 1u8) == 0) by (bit_vector);
    assert(((67u8 >> 1u8) & 3u8) ^ (((67u8 >> 1u8) & 3u8) >> 1u8) == 1) by (bit_vector);
    assert(((71u8 >> 1u8) & 3u8) ^ (((71u8 >> 1u8) & 3u8) >> 1u8) == 2) by (bit_vector);
    assert(((84u8 >> 1u8) & 3u8) ^ (((84u8 >> 1u8) & 3u8) >> 1u8) == 3) by (bit_vector);
}

/// Encoding round trip: under a valid encoding, a sequence over A, C, G, T
/// turned into bits and back is unchanged.
pub proof fn lemma_encoding_round_trip(e: u8, s: Seq<u8>)
    requires
        is_valid_encoding(e),
        is_acgt(s),
    ensures
        seq_to_bits(e, s).len() == 2 * s.len(),
        bits_to_seq(e, seq_to_bits(e, s)) == s,
{
    let b = seq_to_bits(e, s);
    lemma_field_of_letters();
    assert forall|j: int| 0 <= j < s.len() implies nuc_of_code(
        e,
        code_of_bits(b[2 * j], b[2 * j + 1]),
    ) == s[j] by {
        assert((2 * j) / 2 == j);
        assert((2 * j + 1) / 2 == j);
        assert((2 * j) % 2 == 0);
        assert((2 * j + 1) % 2 == 1);
        lemma_code_lt4(e, field_of(s[j]));
        lemma_code_bits(nuc_code(e, s[j]));
        assert(s[j] == 65u8 || s[j] == 67u8 || s[j] == 71u8 || s[j] == 84u8);
    }
    assert(bits_to_seq(e, b) =~= s);
}

/// A validated nucleotide encoding.
pub struct Encoding {
    pub(crate) value: u8,
}

impl Encoding {
    /// The encoding byte.
    pub open(crate) spec fn byte(&self) -> u8 {
        self.value
    }

    /// Validate `encoding`.
    pub fn new(encoding: u8) -> (r: Result<Encoding>)
        ensures
            match r {
                Ok(enc) => is_valid_encoding(encoding) && enc.byte() == encoding,
                Err(e) => !is_valid_encoding(encoding) && e == Error::Kff(
                    Kff::BadEncoding(encoding),
                ),
            },
    {
        let value = valid_encoding(encoding)?;
        Ok(Encoding { value })
    }

    /// The encoding byte.
    pub fn value(&self) -> (r: u8)
        ensures
            r == self.byte(),
    {
        self.value
    }
}

/// The code of field `f` of `e`.
fn code_at(e: u8, f: u8) -> (r: u8)
    requires
        f < 4,
    ensures
        r == code_of(e, f),
        r < 4,
{
    proof {
        lemma_code_lt4(e, f);
    }
    (e >> (6 - 2 * f)) & 3u8
}

/// Check that the four codes of `encoding` are pairwise different.
pub fn valid_encoding(encoding: u8) -> (r: Result<u8>)
    ensures
        match r {
            Ok(v) => is_valid_encoding(encoding) && v == encoding,
            Err(e) => !is_valid_encoding(encoding) && e == Error::Kff(Kff::BadEncoding(encoding)),
        },
{
    let a = code_at(encoding, 0);
    let c = code_at(encoding, 1);
    let g = code_at(encoding, 2);
    let t = code_at(encoding, 3);
    if a != c && a != g && a != t && c != g && c != t && g != t {
        Ok(encoding)
    } else {
        Err(Error::Kff(Kff::BadEncoding(encoding)))
    }
}

/// Internal index of a nucleotide letter: A 0, C 1, T 2, G 3.
pub fn nuc2internal(nuc: u8) -> (r: u8)
    ensures
        r == internal_of(nuc),
        r < 4,
{
    proof {
        assert((nuc >> 1u8) & 3u8 < 4) by (bit_vector);
    }
    (nuc >> 1) & 3
}

/// Letter of an internal index: A 0, C 1, T 2, G 3.
pub fn internal2nuc(internal: u8) -> (r: u8)
    requires
        internal < 4,
    ensures
        r == if internal == 0 {
            65u8
        } else if internal == 1 {
            67u8
        } else if internal == 2 {
            84u8
        } else {
            71u8
        },
{
    if internal == 0 {
        65u8
    } else if internal == 1 {
        67u8
    } else if internal == 2 {
        84u8
    } else {
        71u8
    }
}

/// The code of `nuc` under `encoding`, in the two most significant bits.
pub fn nuc2encoding(nuc: u8, encoding: u8) -> (r: u8)
    ensures
        r == nuc_code(encoding, nuc) << 6u8,
{
    let i = nuc2internal(nuc);
    let f = i ^ (i >> 1);
    proof {
        assert(i < 4 ==> (i ^ (i >> 1u8)) < 4) by (bit_vector);
    }
    code_at(encoding, f) << 6
}

/// The reverse of `encoding`: its field `c` holds the field of `encoding`
/// whose code is `c`.
pub fn rev_encoding(encoding: u8) -> (r: u8)
    ensures
        r == rev_of(encoding),
{
    proof {
        lemma_code_lt4(encoding, 0);
        lemma_code_lt4(encoding, 1);
        lemma_code_lt4(encoding, 2);
        lemma_code_lt4(encoding, 3);
    }
    let a = code_at(encoding, 0);
    let c = code_at(encoding, 1);
    let g = code_at(encoding, 2);
    let t = code_at(encoding, 3);
    (((0u8 << (6 - 2 * a)) ^ (1u8 << (6 - 2 * c))) ^ (2u8 << (6 - 2 * g))) ^ (3u8 << (6 - 2 * t))
}

/// Under a valid encoding, the reverse encoding maps each code back to the
/// nucleotide that has it.
pub proof fn lemma_rev_decodes(e: u8, c: u8)
    requires
        is_valid_encoding(e),
        c < 4,
    ensures
        letter_of((rev_of(e) >> (6 - 2 * c) as u8) & 3u8) == nuc_of_code(e, c),
{
    let rev = rev_of(e);
    let a = code_of(e, 0);
    let cc = code_of(e, 1);
    let g = code_of(e, 2);
    let t = code_of(e, 3);
    assert(a == (e >> 6u8) & 3u8);
    assert(cc == (e >> 4u8) & 3u8);
    assert(g == (e >> 2u8) & 3u8);
    assert(t == (e >> 0u8) & 3u8);
    let x = (rev >> (6 - 2 * c) as u8) & 3u8;
    assert((a == c ==> x == 0u8) && (cc == c ==> x == 1u8) && (g == c ==> x == 2u8) && (t == c
        ==> x == 3u8)) by (bit_vector)
        requires
            c < 4,
            a == (e >> 6u8) & 3u8,
            cc == (e >> 4u8) & 3u8,
            g == (e >> 2u8) & 3u8,
            t == (e >> 0u8) & 3u8,
            a != cc && a != g && a != t && cc != g && cc != t && g != t,
            rev == (((0u8 << (6 - 2 * a) as u8) ^ (1u8 << (6 - 2 * cc) as u8)) ^ (2u8 << (6 - 2
                * g) as u8)) ^ (3u8 << (6 - 2 * t) as u8),
            x == (rev >> (6 - 2 * c) as u8) & 3u8,
    ;
    assert(a < 4 && cc < 4 && g < 4 && t < 4) by {
        lemma_code_lt4(e, 0);
        lemma_code_lt4(e, 1);
        lemma_code_lt4(e, 2);
        lemma_code_lt4(e, 3);
    }
}

/// The nucleotide whose code under `encoding` sits in the two most significant
/// bits of `bits`, looked up in the reverse encoding `rev_encoding`.
pub fn encoding2nuc(bits: u8, rev_encoding: u8) -> (r: u8)
    ensures
        r == letter_of((rev_encoding >> (6 - 2 * (bits >> 6u8)) as u8) & 3u8),
{
    proof {
        assert(bits >> 6u8 < 4) by (bit_vector);
    }
    let f = (rev_encoding >> (6 - 2 * (bits >> 6))) & 3;
    letter(f)
}

fn letter(f: u8) -> (r: u8)
    ensures
        r == letter_of(f),
{
    if f == 0 {
        65u8
    } else if f == 1 {
        67u8
    } else if f == 2 {
        71u8
    } else {
        84u8
    }
}

fn nuc_of(e: u8, c: u8) -> (r: u8)
    ensures
        r == nuc_of_code(e, c),
{
    if code_at(e, 0) == c {
        65u8
    } else if code_at(e, 1) == c {
        67u8
    } else if code_at(e, 2) == c {
        71u8
    } else {
        84u8
    }
}

/// The bits of the nucleotide sequence `seq` under `encoding`.
pub fn seq2bits(seq: &[u8], encoding: u8) -> (r: Vec<bool>)
    ensures
        r@ == seq_to_bits(encoding, seq@),
{
    let mut out: Vec<bool> = Vec::new();
    let mut i: usize = 0;
    while i < seq.len()
        invariant
            i <= seq@.len(),
            out@ =~= seq_to_bits(encoding, seq@).take(2 * i),
        decreases seq@.len() - i,
    {
        let c = nuc2encoding(seq[i], encoding) >> 6;
        proof {
            let code = nuc_code(encoding, seq@[i as int]);
            lemma_code_lt4(encoding, field_of(seq@[i as int]));
            assert(code < 4 ==> (code << 6u8) >> 6u8 == code) by (bit_vector);
            assert((2 * i) / 2 == i as int);
            assert((2 * i + 1) / 2 == i as int);
        }
        out.push((c >> 1) & 1 == 1);
        out.push(c & 1 == 1);
        i = i + 1;
    }
    assert(seq_to_bits(encoding, seq@).take(2 * i) =~= seq_to_bits(encoding, seq@));
    out
}

/// The nucleotide sequence that `bits` spell under `encoding`.
pub fn bits2seq(bits: &[bool], encoding: u8) -> (r: Vec<u8>)
    ensures
        r@ == bits_to_seq(encoding, bits@),
{
    let len = bits.len();
    let n = len / 2;
    let mut out: Vec<u8> = Vec::with_capacity(n);
    let mut j: usize = 0;
    while j < n
        invariant
            len == bits@.len(),
            n == bits@.len() / 2,
            j <= n,
            out@ =~= bits_to_seq(encoding, bits@).take(j as int),
        decreases n - j,
    {
        let hi: u8 = if bits[2 * j] {
            2
        } else {
            0
        };
        let lo: u8 = if bits[2 * j + 1] {
            1
        } else {
            0
        };
        out.push(nuc_of(encoding, hi + lo));
        j = j + 1;
    }
    out
}

} // verus!
