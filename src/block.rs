//! Super-k-mer blocks of Raw and Minimizer sections.
use vstd::prelude::*;

use crate::codec::{
    be_bytes, be_value, bytes_bits, bytes_for_bits, dyn_width, pack_bits, packed, push_be,
};
use crate::error::{Error, Kff, Result};
use crate::kmer::Kmer;
use crate::read::ByteReader;
use crate::emit::write_bytes;

verus! {

/// Width of the per-block k-mer count: absent when `max <= 1`.
pub open spec fn count_width(max: u64) -> nat {
    if max <= 1 {
        0
    } else {
        dyn_width(max)
    }
}

/// Largest minimizer offset of a block: `k + max - 1`, saturated to the u64 range.
pub open spec fn offset_max(k: u64, max: u64) -> u64 {
    if k as int + max as int - 1 > u64::MAX as int {
        u64::MAX
    } else if k as int + max as int >= 1 {
        (k + max - 1) as u64
    } else {
        0
    }
}

/// Number of nucleotides of a block of `n` k-mers of size `k`.
pub open spec fn block_nucs(n: nat, k: nat) -> nat {
    if n + k >= 1 {
        (n + k - 1) as nat
    } else {
        0
    }
}

/// The k-mer count of a block that starts at `p` in `d`.
pub open spec fn count_at(d: Seq<u8>, p: int, max: u64) -> nat {
    if max <= 1 {
        1
    } else {
        be_value(d.subrange(p, p + dyn_width(max)))
    }
}

/// The bytes of a count or offset field of `value` when values range over `[0, max]`.
pub open spec fn count_bytes(value: nat, max: u64) -> Seq<u8> {
    if max <= 1 {
        Seq::empty()
    } else {
        be_bytes(value, dyn_width(max))
    }
}

/// `bits` with the `2m` bits at `2 * offset` taken out.
pub open spec fn without_minimizer(bits: Seq<bool>, offset: nat, m: nat) -> Seq<bool> {
    bits.subrange(0, 2 * offset as int) + bits.subrange(2 * (offset + m) as int, bits.len() as int)
}

/// `bits` with `minimizer` put in at `2 * offset`.
pub open spec fn with_minimizer(bits: Seq<bool>, offset: nat, minimizer: Seq<bool>) -> Seq<bool> {
    bits.subrange(0, 2 * offset as int) + minimizer + bits.subrange(
        2 * offset as int,
        bits.len() as int,
    )
}

/// Byte length of a Raw block that starts at `p` in `d`.
pub open spec fn raw_block_size(d: Seq<u8>, p: int, k: u64, data_size: u64, max: u64) -> int {
    let n = count_at(d, p, max);
    count_width(max) + bytes_for_bits(2 * block_nucs(n, k as nat)) + n * data_size
}

/// Sequence bits of a Raw block that starts at `p` in `d`.
pub open spec fn raw_block_bits(d: Seq<u8>, p: int, k: u64, max: u64) -> Seq<bool> {
    let w = count_width(max);
    let nucs = block_nucs(count_at(d, p, max), k as nat);
    bytes_bits(d.subrange(p + w, p + w + bytes_for_bits(2 * nucs))).take(2 * nucs as int)
}

/// Data of a Raw block that starts at `p` in `d`.
pub open spec fn raw_block_data(d: Seq<u8>, p: int, k: u64, data_size: u64, max: u64) -> Seq<u8> {
    let w = count_width(max);
    let nucs = block_nucs(count_at(d, p, max), k as nat);
    d.subrange(p + w + bytes_for_bits(2 * nucs), p + raw_block_size(d, p, k, data_size, max))
}

/// Minimizer offset of a Minimizer block that starts at `p` in `d`.
pub open spec fn min_block_offset(d: Seq<u8>, p: int, k: u64, max: u64) -> nat {
    let w = count_width(max);
    be_value(d.subrange(p + w, p + w + dyn_width(offset_max(k, max))))
}

/// Number of nucleotides stored in a Minimizer block that starts at `p` in `d`.
pub open spec fn min_block_stored(d: Seq<u8>, p: int, k: u64, m: u64, max: u64) -> int {
    block_nucs(count_at(d, p, max), k as nat) - m
}

/// Byte length of a Minimizer block that starts at `p` in `d`.
pub open spec fn min_block_size(d: Seq<u8>, p: int, k: u64, m: u64, data_size: u64, max: u64) -> int {
    let n = count_at(d, p, max);
    let stored = min_block_stored(d, p, k, m, max);
    count_width(max) + dyn_width(offset_max(k, max)) + bytes_for_bits(2 * stored as nat) + n
        * data_size
}

/// Sequence bits of a Minimizer block that starts at `p` in `d`, with
/// `minimizer` put back in.
pub open spec fn min_block_bits(
    d: Seq<u8>,
    p: int,
    k: u64,
    m: u64,
    max: u64,
    minimizer: Seq<bool>,
) -> Seq<bool> {
    let q = p + count_width(max) + dyn_width(offset_max(k, max));
    let stored = min_block_stored(d, p, k, m, max);
    with_minimizer(
        bytes_bits(d.subrange(q, q + bytes_for_bits(2 * stored as nat))).take(2 * stored),
        min_block_offset(d, p, k, max),
        minimizer,
    )
}

/// Data of a Minimizer block that starts at `p` in `d`.
pub open spec fn min_block_data(d: Seq<u8>, p: int, k: u64, m: u64, data_size: u64, max: u64) -> Seq<
    u8,
> {
    let q = p + count_width(max) + dyn_width(offset_max(k, max));
    let stored = min_block_stored(d, p, k, m, max);
    d.subrange(q + bytes_for_bits(2 * stored as nat), p + min_block_size(d, p, k, m, data_size, max))
}

/// The `n` k-mers of size `k` of a block, each with its data.
pub open spec fn block_kmers(bits: Seq<bool>, data: Seq<u8>, k: u64, data_size: u64, n: nat) -> Seq<
    (Seq<bool>, Seq<u8>),
> {
    Seq::new(
        n,
        |i: int|
            (
                bits.subrange(2 * i, 2 * (i + k)),
                data.subrange(i * data_size, (i + 1) * data_size),
            ),
    )
}

/// The sequence bits and data of each k-mer.
pub open spec fn kmer_views(ks: Seq<Kmer>) -> Seq<(Seq<bool>, Seq<u8>)> {
    Seq::new(ks.len(), |i: int| (ks[i].bits(), ks[i].payload()))
}

/// The bytes of `b` in the layout of a Raw section.
pub open spec fn raw_block_bytes(b: Block, max: u64) -> Seq<u8> {
    count_bytes(b.count(), max) + packed(b.bits()) + b.payload()
}

/// The bytes of `b` in the layout of a Minimizer section with minimizers of `m`.
pub open spec fn min_block_bytes(b: Block, m: u64, max: u64) -> Seq<u8> {
    count_bytes(b.count(), max) + be_bytes(
        b.spec_minimizer_offset() as nat,
        dyn_width(offset_max(b.spec_k(), max)),
    ) + packed(without_minimizer(b.bits(), b.spec_minimizer_offset() as nat, m as nat))
        + b.payload()
}

/// A block that a Raw or Minimizer section can hold under `max`: well formed,
/// with at least one k-mer, and exactly one when the count is implicit.
pub open spec fn storable(b: Block, max: u64) -> bool {
    &&& b.wf()
    &&& 1 <= b.count()
    &&& max <= 1 ==> b.count() == 1
    &&& max > 1 ==> b.count() <= max
}

proof fn lemma_count_round_trip(d: Seq<u8>, p: int, c: nat, max: u64)
    requires
        max > 1 ==> c <= max,
        max <= 1 ==> c == 1,
        0 <= p,
        p + count_width(max) <= d.len(),
        d.subrange(p, p + count_width(max)) == count_bytes(c, max),
    ensures
        count_at(d, p, max) == c,
        count_bytes(c, max).len() == count_width(max),
{
    if max > 1 {
        crate::codec::lemma_dynamic_round_trip(max, c as u64);
    }
}

/// Raw block round trip: the bytes that `write_raw` gives for a block that a
/// section can hold, read back from any position, give the block's count,
/// sequence and data, hence its k-mers, and span exactly those bytes.
pub proof fn lemma_raw_block_round_trip(d: Seq<u8>, p: int, b: Block, max: u64)
    requires
        storable(b, max),
        0 <= p,
        p + raw_block_bytes(b, max).len() <= d.len(),
        d.subrange(p, p + raw_block_bytes(b, max).len()) == raw_block_bytes(b, max),
    ensures
        count_at(d, p, max) == b.count(),
        raw_block_size(d, p, b.spec_k(), b.spec_data_size(), max) == raw_block_bytes(b, max).len(),
        raw_block_bits(d, p, b.spec_k(), max) == b.bits(),
        raw_block_data(d, p, b.spec_k(), b.spec_data_size(), max) == b.payload(),
        block_kmers(
            raw_block_bits(d, p, b.spec_k(), max),
            raw_block_data(d, p, b.spec_k(), b.spec_data_size(), max),
            b.spec_k(),
            b.spec_data_size(),
            count_at(d, p, max),
        ) == block_kmers(b.bits(), b.payload(), b.spec_k(), b.spec_data_size(), b.count()),
{
    let c = b.count();
    let w = count_width(max);
    let cb = count_bytes(c, max);
    crate::codec::lemma_packed(b.bits());
    let pk = packed(b.bits());
    let all = raw_block_bytes(b, max);
    if max > 1 {
        crate::codec::lemma_dynamic_round_trip(max, c as u64);
    }
    assert(cb.len() == w);
    assert(d.subrange(p, p + w) =~= all.subrange(0, w as int));
    assert(all.subrange(0, w as int) =~= cb);
    lemma_count_round_trip(d, p, c, max);
    let nucs = block_nucs(c, b.spec_k() as nat);
    assert(2 * nucs == b.bits().len());
    let sb = bytes_for_bits(2 * nucs);
    assert(pk.len() == sb);
    assert(d.subrange(p + w, p + w + sb) =~= pk) by {
        assert forall|i: int| 0 <= i < sb implies d.subrange(p + w, p + w + sb)[i] == pk[i] by {
            assert(d.subrange(p, p + all.len())[w + i] == all[w + i]);
        }
    }
    crate::codec::lemma_unpack_packed(pk, b.bits());
    assert(b.payload().len() == c * b.spec_data_size());
    assert(raw_block_data(d, p, b.spec_k(), b.spec_data_size(), max) =~= b.payload()) by {
        assert forall|i: int| 0 <= i < b.payload().len() implies raw_block_data(
            d,
            p,
            b.spec_k(),
            b.spec_data_size(),
            max,
        )[i] == b.payload()[i] by {
            assert(d.subrange(p, p + all.len())[w + sb + i] == all[w + sb + i]);
        }
    }
}

/// `bits` is unchanged by taking out the `m` nucleotides at `offset` and
/// putting them back.
pub proof fn lemma_splice(bits: Seq<bool>, offset: nat, m: nat)
    requires
        2 * (offset + m) <= bits.len(),
    ensures
        with_minimizer(
            without_minimizer(bits, offset, m),
            offset,
            bits.subrange(2 * offset as int, 2 * (offset + m) as int),
        ) == bits,
{
    let w = without_minimizer(bits, offset, m);
    assert(w.subrange(0, 2 * offset as int) =~= bits.subrange(0, 2 * offset as int));
    assert(w.subrange(2 * offset as int, w.len() as int) =~= bits.subrange(
        2 * (offset + m) as int,
        bits.len() as int,
    ));
    assert(with_minimizer(w, offset, bits.subrange(2 * offset as int, 2 * (offset + m) as int))
        =~= bits);
}

/// Minimizer splice identity: the bytes that `write_minimizer` gives for a
/// block that a section can hold, read back with the minimizer that the block
/// holds at its offset, give the block's count, offset, sequence and data,
/// hence its k-mers, and span exactly those bytes.
pub proof fn lemma_minimizer_block_round_trip(
    d: Seq<u8>,
    p: int,
    b: Block,
    m: u64,
    max: u64,
    minimizer: Seq<bool>,
)
    requires
        storable(b, max),
        b.spec_minimizer_offset() <= offset_max(b.spec_k(), max),
        2 * (b.spec_minimizer_offset() + m) <= b.bits().len(),
        minimizer == b.bits().subrange(
            2 * b.spec_minimizer_offset() as int,
            2 * (b.spec_minimizer_offset() + m) as int,
        ),
        0 <= p,
        p + min_block_bytes(b, m, max).len() <= d.len(),
        d.subrange(p, p + min_block_bytes(b, m, max).len()) == min_block_bytes(b, m, max),
    ensures
        count_at(d, p, max) == b.count(),
        min_block_offset(d, p, b.spec_k(), max) == b.spec_minimizer_offset(),
        min_block_size(d, p, b.spec_k(), m, b.spec_data_size(), max) == min_block_bytes(
            b,
            m,
            max,
        ).len(),
        min_block_bits(d, p, b.spec_k(), m, max, minimizer) == b.bits(),
        min_block_data(d, p, b.spec_k(), m, b.spec_data_size(), max) == b.payload(),
        block_kmers(
            min_block_bits(d, p, b.spec_k(), m, max, minimizer),
            min_block_data(d, p, b.spec_k(), m, b.spec_data_size(), max),
            b.spec_k(),
            b.spec_data_size(),
            count_at(d, p, max),
        ) == block_kmers(b.bits(), b.payload(), b.spec_k(), b.spec_data_size(), b.count()),
{
    let c = b.count();
    let off = b.spec_minimizer_offset();
    let w = count_width(max);
    let ow = dyn_width(offset_max(b.spec_k(), max));
    let cb = count_bytes(c, max);
    let ob = be_bytes(off as nat, ow);
    let kept = without_minimizer(b.bits(), off as nat, m as nat);
    crate::codec::lemma_packed(kept);
    let pk = packed(kept);
    let all = min_block_bytes(b, m, max);
    if max > 1 {
        crate::codec::lemma_dynamic_round_trip(max, c as u64);
    }
    crate::codec::lemma_dynamic_round_trip(offset_max(b.spec_k(), max), off);
    assert(cb.len() == w);
    assert(d.subrange(p, p + w) =~= cb) by {
        assert forall|i: int| 0 <= i < w implies d.subrange(p, p + w)[i] == cb[i] by {
            assert(d.subrange(p, p + all.len())[i] == all[i]);
        }
    }
    lemma_count_round_trip(d, p, c, max);
    assert(d.subrange(p + w, p + w + ow) =~= ob) by {
        assert forall|i: int| 0 <= i < ow implies d.subrange(p + w, p + w + ow)[i] == ob[i] by {
            assert(d.subrange(p, p + all.len())[w + i] == all[w + i]);
        }
    }
    let nucs = block_nucs(c, b.spec_k() as nat);
    assert(2 * nucs == b.bits().len());
    let stored = min_block_stored(d, p, b.spec_k(), m, max);
    assert(2 * stored == kept.len());
    let sb = bytes_for_bits(2 * stored as nat);
    assert(pk.len() == sb);
    assert(d.subrange(p + w + ow, p + w + ow + sb) =~= pk) by {
        assert forall|i: int| 0 <= i < sb implies d.subrange(p + w + ow, p + w + ow + sb)[i]
            == pk[i] by {
            assert(d.subrange(p, p + all.len())[w + ow + i] == all[w + ow + i]);
        }
    }
    crate::codec::lemma_unpack_packed(pk, kept);
    lemma_splice(b.bits(), off as nat, m as nat);
    assert(b.payload().len() == c * b.spec_data_size());
    assert(min_block_data(d, p, b.spec_k(), m, b.spec_data_size(), max) =~= b.payload()) by {
        assert forall|i: int| 0 <= i < b.payload().len() implies min_block_data(
            d,
            p,
            b.spec_k(),
            m,
            b.spec_data_size(),
            max,
        )[i] == b.payload()[i] by {
            assert(d.subrange(p, p + all.len())[w + ow + sb + i] == all[w + ow + sb + i]);
        }
    }
}

/// Read a count field of `dyn_width(max)` bytes.
pub fn read_nb_kmer(input: &mut ByteReader, max: u64) -> (r: Result<u64>)
    ensures
        match r {
            Ok(v) => old(input).took(final(input), dyn_width(max) as int) && v as nat == be_value(
                old(input).ahead(dyn_width(max) as int),
            ),
            Err(e) => !old(input).has(dyn_width(max) as int) && e is UnexpectedEof && old(
                input,
            ).same(final(input)),
        },
{
    let w: usize = if max <= 0xff {
        1
    } else if max <= 0xffff {
        2
    } else if max <= 0xffff_ffff {
        4
    } else {
        8
    };
    input.read_be_uint(w)
}

/// Write `value` on `dyn_width(max)` bytes.
pub fn write_nb_kmer(out: &mut Vec<u8>, max: u64, value: u64)
    ensures
        final(out)@ == old(out)@ + be_bytes(value as nat, dyn_width(max)),
{
    let w: usize = if max <= 0xff {
        1
    } else if max <= 0xffff {
        2
    } else if max <= 0xffff_ffff {
        4
    } else {
        8
    };
    push_be(out, value, w);
}

/// A copy of `v[lo..hi]`.
pub fn sub_vec<T: Copy>(v: &[T], lo: usize, hi: usize) -> (r: Vec<T>)
    requires
        lo <= hi <= v@.len(),
    ensures
        r@ == v@.subrange(lo as int, hi as int),
{
    let mut out: Vec<T> = Vec::new();
    let mut i: usize = lo;
    while i < hi
        invariant
            lo <= i <= hi,
            hi <= v@.len(),
            out@ =~= v@.subrange(lo as int, i as int),
        decreases hi - i,
    {
        out.push(v[i]);
        i = i + 1;
    }
    out
}

/// Append all of `src`.
pub fn push_all<T: Copy>(out: &mut Vec<T>, src: &[T])
    ensures
        final(out)@ == old(out)@ + src@,
{
    let mut i: usize = 0;
    while i < src.len()
        invariant
            i <= src@.len(),
            out@ =~= old(out)@ + src@.subrange(0, i as int),
        decreases src@.len() - i,
    {
        out.push(src[i]);
        i = i + 1;
    }
    assert(src@.subrange(0, src@.len() as int) =~= src@);
}

/// A block: `N` overlapping k-mers stored as one sequence of `N + k - 1`
/// nucleotides, with `data_size` bytes of data per k-mer.
#[derive(Debug, Clone, PartialEq, Eq)]
pub struct Block {
    pub(crate) k: u64,
    pub(crate) data_size: u64,
    pub(crate) kmer: Kmer,
    pub(crate) minimizer_offset: u64,
    pub(crate) offset: usize,
}

impl Block {
    pub open(crate) spec fn spec_k(&self) -> u64 {
        self.k
    }

    pub open(crate) spec fn spec_data_size(&self) -> u64 {
        self.data_size
    }

    pub open(crate) spec fn spec_minimizer_offset(&self) -> u64 {
        self.minimizer_offset
    }

    /// Bits of the whole sequence.
    pub open(crate) spec fn bits(&self) -> Seq<bool> {
        self.kmer.bits()
    }

    /// Data of all the k-mers.
    pub open(crate) spec fn payload(&self) -> Seq<u8> {
        self.kmer.payload()
    }

    /// Index of the next k-mer that `next_kmer` yields.
    pub open(crate) spec fn cursor(&self) -> int {
        self.offset as int
    }

    /// Number of k-mers that the sequence holds.
    pub open(crate) spec fn nb_kmers(&self) -> int {
        self.bits().len() / 2 - self.k + 1
    }

    /// The count written for the block.
    pub open(crate) spec fn count(&self) -> nat {
        if self.nb_kmers() >= 0 {
            self.nb_kmers() as nat
        } else {
            0
        }
    }

    /// The sequence holds whole nucleotides and at least `k - 1` of them, and the
    /// data holds `data_size` bytes for each k-mer.
    pub open(crate) spec fn wf(&self) -> bool {
        &&& self.bits().len() % 2 == 0
        &&& self.nb_kmers() >= 0
        &&& self.payload().len() == self.nb_kmers() * self.data_size
    }

    /// Bits of the `i`-th k-mer.
    pub open(crate) spec fn kmer_bits(&self, i: int) -> Seq<bool> {
        self.bits().subrange(2 * i, 2 * (i + self.k))
    }

    /// Data of the `i`-th k-mer.
    pub open(crate) spec fn kmer_data(&self, i: int) -> Seq<u8> {
        self.payload().subrange(i * self.data_size, (i + 1) * self.data_size)
    }

    /// A block of k-mers of size `k` over the sequence and data of `kmer`.
    pub fn new(k: u64, data_size: u64, kmer: Kmer, minimizer_offset: u64) -> (r: Block)
        ensures
            r.spec_k() == k,
            r.spec_data_size() == data_size,
            r.bits() == kmer.bits(),
            r.payload() == kmer.payload(),
            r.spec_minimizer_offset() == minimizer_offset,
            r.cursor() == 0,
    {
        Block { k, data_size, kmer, minimizer_offset, offset: 0 }
    }

    /// Size of the k-mers.
    pub fn k(&self) -> (r: u64)
        ensures
            r == self.spec_k(),
    {
        self.k
    }

    /// Bytes of data per k-mer.
    pub fn data_size(&self) -> (r: u64)
        ensures
            r == self.spec_data_size(),
    {
        self.data_size
    }

    /// Sequence and data of the whole block.
    pub fn kmer(&self) -> (r: &Kmer)
        ensures
            r.bits() == self.bits(),
            r.payload() == self.payload(),
    {
        &self.kmer
    }

    /// Position of the minimizer, in nucleotides.
    pub fn minimizer_offset(&self) -> (r: u64)
        ensures
            r == self.spec_minimizer_offset(),
    {
        self.minimizer_offset
    }

    /// Read the count field of a block, or 1 when `max <= 1`.
    fn read_count(input: &mut ByteReader, max: u64) -> (r: Result<u64>)
        ensures
            final(input).bytes() == old(input).bytes(),
            match r {
                Ok(n) => old(input).took(final(input), count_width(max) as int) && n as nat
                    == count_at(old(input).bytes(), old(input).pos(), max),
                Err(e) => !old(input).has(count_width(max) as int) && e is UnexpectedEof,
            },
    {
        if max <= 1 {
            // The count is implicit; the position lies within the stream.
            let _at: usize = input.position();
            Ok(1)
        } else {
            read_nb_kmer(input, max)
        }
    }

    /// Read the data of `n` k-mers.
    fn read_data(input: &mut ByteReader, n: u64, data_size: u64) -> (r: Result<Vec<u8>>)
        ensures
            final(input).bytes() == old(input).bytes(),
            match r {
                Ok(v) => old(input).took(final(input), n * data_size) && v@ == old(input).ahead(
                    n * data_size,
                ),
                Err(e) => !old(input).has(n * data_size) && e is UnexpectedEof,
            },
    {
        // The stream's length bounds what can be read.
        let _available: usize = input.len();
        if data_size != 0 && n > u64::MAX / data_size {
            proof {
                assert(n * data_size > u64::MAX) by (nonlinear_arith)
                    requires
                        data_size > 0,
                        n > u64::MAX / data_size,
                ;
            }
            return Err(Error::UnexpectedEof);
        }
        proof {
            assert(n * data_size <= u64::MAX) by (nonlinear_arith)
                requires
                    data_size == 0 || n <= u64::MAX / data_size,
            ;
        }
        let len = n * data_size;
        if len > usize::MAX as u64 {
            return Err(Error::UnexpectedEof);
        }
        input.read_n_bytes_dyn(len as usize)
    }

    /// Read a block of a Raw section, with its k-mer count.
    pub(crate) fn read_raw_counted(input: &mut ByteReader, k: u64, data_size: u64, max: u64) -> (r: Result<
        (Block, u64),
    >)
        ensures
            final(input).bytes() == old(input).bytes(),
            ({
                let d = old(input).bytes();
                let p = old(input).pos();
                let w = count_width(max);
                let n = count_at(d, p, max);
                let nucs = block_nucs(n, k as nat);
                let sb = bytes_for_bits(2 * nucs);
                let total = w + sb + n * data_size;
                match r {
                    Ok((b, c)) => {
                        &&& c == n
                        &&& 2 * nucs <= usize::MAX
                        &&& old(input).took(final(input), total as int)
                        &&& b.spec_k() == k
                        &&& b.spec_data_size() == data_size
                        &&& b.spec_minimizer_offset() == 0
                        &&& b.cursor() == 0
                        &&& b.bits() == bytes_bits(d.subrange(p + w, p + w + sb)).take(2 * nucs as int)
                        &&& b.payload() == d.subrange(p + w + sb, p + total)
                        &&& total == raw_block_size(d, p, k, data_size, max)
                        &&& b.bits() == raw_block_bits(d, p, k, max)
                        &&& b.payload() == raw_block_data(d, p, k, data_size, max)
                        &&& n + k >= 1 ==> b.wf() && b.nb_kmers() == n
                    },
                    Err(e) => e is UnexpectedEof && !(old(input).has(total as int) && 2 * nucs
                        <= usize::MAX),
                }
            }),
    {
        let n = Block::read_count(input, max)?;
        if n > u64::MAX - k {
            return Err(Error::UnexpectedEof);
        }
        let nucs: u64 = if n + k >= 1 {
            n + k - 1
        } else {
            0
        };
        if nucs > (usize::MAX / 2) as u64 {
            return Err(Error::UnexpectedEof);
        }
        let bits = input.read_2bits(nucs as usize)?;
        let data = Block::read_data(input, n, data_size)?;
        Ok((Block { k, data_size, kmer: Kmer { seq2bit: bits, data }, minimizer_offset: 0, offset: 0 }, n))
    }

    /// Read a block of a Raw section.
    pub fn read_raw(input: &mut ByteReader, k: u64, data_size: u64, max: u64) -> (r: Result<Block>)
        ensures
            final(input).bytes() == old(input).bytes(),
            ({
                let d = old(input).bytes();
                let p = old(input).pos();
                let n = count_at(d, p, max);
                match r {
                    Ok(b) => {
                        &&& old(input).took(final(input), raw_block_size(d, p, k, data_size, max))
                        &&& b.spec_k() == k
                        &&& b.spec_data_size() == data_size
                        &&& b.spec_minimizer_offset() == 0
                        &&& b.cursor() == 0
                        &&& b.bits() == raw_block_bits(d, p, k, max)
                        &&& b.payload() == raw_block_data(d, p, k, data_size, max)
                        &&& n + k >= 1 ==> b.wf() && b.nb_kmers() == n
                    },
                    Err(e) => e is UnexpectedEof && !(old(input).has(
                        raw_block_size(d, p, k, data_size, max),
                    ) && 2 * block_nucs(n, k as nat) <= usize::MAX),
                }
            }),
    {
        let (b, _n) = Block::read_raw_counted(input, k, data_size, max)?;
        Ok(b)
    }

    /// Write the block in the layout of a Raw section: the count (absent when
    /// `max <= 1`), the packed sequence, then the data.
    pub fn write_raw(&self, out: &mut Vec<u8>, max: u64)
        ensures
            final(out)@ == old(out)@ + count_bytes(self.count(), max) + packed(self.bits())
                + self.payload(),
    {
        if max > 1 {
            let n = self.count_exec();
            write_nb_kmer(out, max, n);
        }
        let seq = pack_bits(self.kmer.seq2bit.as_slice());
        write_bytes(out, seq.as_slice());
        write_bytes(out, self.kmer.data.as_slice());
    }

    fn count_exec(&self) -> (r: u64)
        ensures
            r as nat == self.count(),
    {
        let half = (self.kmer.seq2bit.len() / 2) as u64;
        if half + 1 >= self.k {
            half + 1 - self.k
        } else {
            0
        }
    }

    /// Read a block of a Minimizer section, with its k-mer count.
    pub(crate) fn read_minimizer_counted(
        input: &mut ByteReader,
        k: u64,
        m: u64,
        data_size: u64,
        max: u64,
        minimizer: &[bool],
    ) -> (r: Result<(Block, u64)>)
        requires
            minimizer@.len() == 2 * m,
        ensures
            final(input).bytes() == old(input).bytes(),
            ({
                let d = old(input).bytes();
                let p = old(input).pos();
                let w = count_width(max);
                let n = count_at(d, p, max);
                let ow = dyn_width(offset_max(k, max));
                let off = be_value(d.subrange(p + w, p + w + ow));
                let nucs = block_nucs(n, k as nat);
                let stored = nucs - m;
                let sb = bytes_for_bits(2 * stored as nat);
                let total = w + ow + sb + n * data_size;
                match r {
                    Ok((b, c)) => {
                        &&& c == n
                        &&& 2 * nucs <= usize::MAX
                        &&& total == min_block_size(d, p, k, m, data_size, max)
                        &&& b.bits() == min_block_bits(d, p, k, m, max, minimizer@)
                        &&& b.payload() == min_block_data(d, p, k, m, data_size, max)
                        &&& off == min_block_offset(d, p, k, max)
                        &&& old(input).took(final(input), total as int)
                        &&& off + m <= nucs
                        &&& b.spec_k() == k
                        &&& b.spec_data_size() == data_size
                        &&& b.spec_minimizer_offset() == off
                        &&& b.cursor() == 0
                        &&& b.bits() == with_minimizer(
                            bytes_bits(d.subrange(p + w + ow, p + w + ow + sb)).take(2 * stored),
                            off,
                            minimizer@,
                        )
                        &&& b.payload() == d.subrange(p + w + ow + sb, p + total)
                        &&& n + k >= 1 ==> b.wf() && b.nb_kmers() == n
                    },
                    Err(e) => (e is UnexpectedEof && !(old(input).has(total as int) && 2 * nucs
                        <= usize::MAX && off + m <= nucs)) || (e == Error::Kff(
                        Kff::MinimizerOffsetOutOfRange(off as u64),
                    ) && off + m > nucs),
                }
            }),
    {
        let n = Block::read_count(input, max)?;
        let omax: u64 = if max == 0 {
            if k >= 1 {
                k - 1
            } else {
                0
            }
        } else if k > u64::MAX - (max - 1) {
            u64::MAX
        } else {
            k + (max - 1)
        };
        let off = read_nb_kmer(input, omax)?;
        if n > u64::MAX - k {
            return Err(Error::UnexpectedEof);
        }
        let nucs: u64 = if n + k >= 1 {
            n + k - 1
        } else {
            0
        };
        if m > nucs || off > nucs - m {
            return Err(Error::Kff(Kff::MinimizerOffsetOutOfRange(off)));
        }
        if nucs > (usize::MAX / 2) as u64 {
            return Err(Error::UnexpectedEof);
        }
        let stored = nucs - m;
        let wo = input.read_2bits(stored as usize)?;
        let data = Block::read_data(input, n, data_size)?;
        let cut = 2 * off as usize;
        let mut bits = sub_vec(wo.as_slice(), 0, cut);
        push_all(&mut bits, minimizer);
        let tail = sub_vec(wo.as_slice(), cut, wo.len());
        push_all(&mut bits, tail.as_slice());
        Ok(
            (
                Block {
                    k,
                    data_size,
                    kmer: Kmer { seq2bit: bits, data },
                    minimizer_offset: off,
                    offset: 0,
                },
                n,
            ),
        )
    }

    /// Read a block of a Minimizer section whose shared minimizer is `minimizer`,
    /// of `m` nucleotides.
    pub fn read_minimizer(
        input: &mut ByteReader,
        k: u64,
        m: u64,
        data_size: u64,
        max: u64,
        minimizer: &[bool],
    ) -> (r: Result<Block>)
        requires
            minimizer@.len() == 2 * m,
        ensures
            final(input).bytes() == old(input).bytes(),
            ({
                let d = old(input).bytes();
                let p = old(input).pos();
                let n = count_at(d, p, max);
                let off = min_block_offset(d, p, k, max);
                let nucs = block_nucs(n, k as nat);
                let size = min_block_size(d, p, k, m, data_size, max);
                match r {
                    Ok(b) => {
                        &&& old(input).took(final(input), size)
                        &&& off + m <= nucs
                        &&& b.spec_k() == k
                        &&& b.spec_data_size() == data_size
                        &&& b.spec_minimizer_offset() == off
                        &&& b.cursor() == 0
                        &&& b.bits() == min_block_bits(d, p, k, m, max, minimizer@)
                        &&& b.payload() == min_block_data(d, p, k, m, data_size, max)
                        &&& n + k >= 1 ==> b.wf() && b.nb_kmers() == n
                    },
                    Err(e) => (e is UnexpectedEof && !(old(input).has(size) && 2 * nucs
                        <= usize::MAX && off + m <= nucs)) || (e == Error::Kff(
                        Kff::MinimizerOffsetOutOfRange(off as u64),
                    ) && off + m > nucs),
                }
            }),
    {
        let (b, _n) = Block::read_minimizer_counted(input, k, m, data_size, max, minimizer)?;
        Ok(b)
    }

    /// Write the block in the layout of a Minimizer section: the count (absent
    /// when `max <= 1`), the minimizer offset, the sequence without the `m`
    /// nucleotides of the minimizer, packed, then the data.
    pub fn write_minimizer(&self, out: &mut Vec<u8>, m: u64, max: u64)
        requires
            2 * (self.spec_minimizer_offset() + m) <= self.bits().len(),
        ensures
            final(out)@ == old(out)@ + count_bytes(self.count(), max) + be_bytes(
                self.spec_minimizer_offset() as nat,
                dyn_width(offset_max(self.spec_k(), max)),
            ) + packed(without_minimizer(self.bits(), self.spec_minimizer_offset() as nat, m as nat))
                + self.payload(),
    {
        if max > 1 {
            let n = self.count_exec();
            write_nb_kmer(out, max, n);
        }
        let k = self.k;
        let omax: u64 = if max == 0 {
            if k >= 1 {
                k - 1
            } else {
                0
            }
        } else if k > u64::MAX - (max - 1) {
            u64::MAX
        } else {
            k + (max - 1)
        };
        write_nb_kmer(out, omax, self.minimizer_offset);
        let bits = self.kmer.seq2bit.as_slice();
        let len = bits.len();
        let off = self.minimizer_offset as usize;
        let mm = m as usize;
        let cut = 2 * off;
        let resume = 2 * (off + mm);
        let mut kept = sub_vec(bits, 0, cut);
        let tail = sub_vec(bits, resume, bits.len());
        push_all(&mut kept, tail.as_slice());
        let seq = pack_bits(kept.as_slice());
        write_bytes(out, seq.as_slice());
        write_bytes(out, self.kmer.data.as_slice());
    }

    /// The next k-mer of the block and its data, or None after the last one.
    pub fn next_kmer(&mut self) -> (r: Option<Kmer>)
        ensures
            r is Some <==> old(self).cursor() + old(self).spec_k() <= old(self).bits().len() / 2
                && (old(self).cursor() + 1) * old(self).spec_data_size() <= old(self).payload().len(),
            match r {
                Some(km) => {
                    &&& km.bits() == old(self).kmer_bits(old(self).cursor())
                    &&& km.payload() == old(self).kmer_data(old(self).cursor())
                    &&& final(self).cursor() == old(self).cursor() + 1
                    &&& final(self).bits() == old(self).bits()
                    &&& final(self).payload() == old(self).payload()
                    &&& final(self).spec_k() == old(self).spec_k()
                    &&& final(self).spec_data_size() == old(self).spec_data_size()
                },
                None => *final(self) == *old(self),
            },
    {
        let nucs = self.kmer.seq2bit.len() / 2;
        let dlen = self.kmer.data.len();
        let o = self.offset;
        if self.k > nucs as u64 || o > nucs - self.k as usize {
            return None;
        }
        let ds = self.data_size;
        if ds != 0 && (o as u64 >= (dlen as u64) / ds) {
            proof {
                assert((o + 1) * ds > dlen) by (nonlinear_arith)
                    requires
                        ds > 0,
                        o >= (dlen as int) / (ds as int),
                ;
            }
            return None;
        }
        proof {
            assert((o + 1) * ds <= dlen) by (nonlinear_arith)
                requires
                    ds == 0 || o < (dlen as int) / (ds as int),
            ;
            assert(o * ds <= (o + 1) * ds) by (nonlinear_arith);
            assert(ds <= (o + 1) * ds) by (nonlinear_arith);
        }
        let kk = self.k as usize;
        let dsu = ds as usize;
        let bits = sub_vec(self.kmer.seq2bit.as_slice(), 2 * o, 2 * (o + kk));
        let data = sub_vec(self.kmer.data.as_slice(), o * dsu, (o + 1) * dsu);
        self.offset = o + 1;
        Some(Kmer { seq2bit: bits, data })
    }

    /// All the k-mers of the block, in order, with their data.
    pub fn kmers(&self) -> (r: Vec<Kmer>)
        requires
            self.wf(),
        ensures
            r@.len() == self.nb_kmers(),
            forall|i: int|
                0 <= i < r@.len() ==> (#[trigger] r@[i]).bits() == self.kmer_bits(i)
                    && r@[i].payload() == self.kmer_data(i),
            kmer_views(r@) == block_kmers(
                self.bits(),
                self.payload(),
                self.spec_k(),
                self.spec_data_size(),
                self.nb_kmers() as nat,
            ),
    {
        let mut blk = Block {
            k: self.k,
            data_size: self.data_size,
            kmer: Kmer { seq2bit: sub_vec(self.kmer.seq2bit.as_slice(), 0, self.kmer.seq2bit.len()), data: sub_vec(self.kmer.data.as_slice(), 0, self.kmer.data.len()) },
            minimizer_offset: self.minimizer_offset,
            offset: 0,
        };
        let mut out: Vec<Kmer> = Vec::new();
        loop
            invariant
                self.wf(),
                blk.bits() == self.bits(),
                blk.payload() == self.payload(),
                blk.spec_k() == self.spec_k(),
                blk.spec_data_size() == self.spec_data_size(),
                blk.cursor() == out@.len(),
                out@.len() <= self.nb_kmers(),
                forall|i: int|
                    0 <= i < out@.len() ==> (#[trigger] out@[i]).bits() == self.kmer_bits(i)
                        && out@[i].payload() == self.kmer_data(i),
            ensures
                out@.len() == self.nb_kmers(),
            decreases self.nb_kmers() - out@.len(),
        {
            proof {
                let c = out@.len() as int;
                let ds = self.spec_data_size() as int;
                let nb = self.nb_kmers();
                assert(c < nb ==> (c + 1) * ds <= nb * ds) by (nonlinear_arith)
                    requires
                        ds >= 0,
                ;
            }
            match blk.next_kmer() {
                Some(km) => {
                    out.push(km);
                },
                None => {
                    break ;
                },
            }
        }
        assert(kmer_views(out@) =~= block_kmers(
            self.bits(),
            self.payload(),
            self.spec_k(),
            self.spec_data_size(),
            self.nb_kmers() as nat,
        ));
        out
    }
}

} // verus!
