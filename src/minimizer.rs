//! Minimizer sections: the shared minimizer, a count of blocks, then the blocks.
use vstd::prelude::*;

use crate::block::{
    block_kmers, block_nucs, min_block_offset, count_at, kmer_views, lemma_minimizer_block_round_trip, min_block_bits,
    min_block_bytes, min_block_data, min_block_size, offset_max, storable, Block,
};
use crate::codec::{be_bytes, be_value, bytes_bits, bytes_for_bits, pack_bits, packed};
use crate::error::{Error, Kff, Result};
use crate::kmer::Kmer;
use crate::raw::{blocks_fit, blocks_kmers, lookup, missing, required};
use crate::read::ByteReader;
use crate::values::Values;
use crate::emit::{write_bytes, write_u64};

verus! {

/// Position after the first `i` Minimizer blocks that start at `p` in `d`.
pub open spec fn min_blocks_end(
    d: Seq<u8>,
    p: int,
    i: nat,
    k: u64,
    m: u64,
    data_size: u64,
    max: u64,
) -> int
    decreases i,
{
    if i == 0 {
        p
    } else {
        let q = min_blocks_end(d, p, (i - 1) as nat, k, m, data_size, max);
        q + min_block_size(d, q, k, m, data_size, max)
    }
}

/// The k-mers of the first `i` Minimizer blocks that start at `p` in `d`, in order.
pub open spec fn min_blocks_kmers(
    d: Seq<u8>,
    p: int,
    i: nat,
    k: u64,
    m: u64,
    data_size: u64,
    max: u64,
    minimizer: Seq<bool>,
) -> Seq<(Seq<bool>, Seq<u8>)>
    decreases i,
{
    if i == 0 {
        Seq::empty()
    } else {
        let q = min_blocks_end(d, p, (i - 1) as nat, k, m, data_size, max);
        min_blocks_kmers(d, p, (i - 1) as nat, k, m, data_size, max, minimizer) + block_kmers(
            min_block_bits(d, q, k, m, max, minimizer),
            min_block_data(d, q, k, m, data_size, max),
            k,
            data_size,
            count_at(d, q, max),
        )
    }
}

/// The Minimizer block at `q` in `d` lies within `d`, its sequence fits in
/// memory, and its minimizer fits in its sequence.
pub open spec fn min_block_fits(d: Seq<u8>, q: int, k: u64, m: u64, data_size: u64, max: u64) -> bool {
    let nucs = block_nucs(count_at(d, q, max), k as nat);
    &&& q + min_block_size(d, q, k, m, data_size, max) <= d.len()
    &&& 2 * nucs <= usize::MAX
    &&& min_block_offset(d, q, k, max) + m <= nucs
}

/// One of the first `nb` Minimizer blocks that start at `p` in `d` does not fit.
pub open spec fn some_min_block_misfits(
    d: Seq<u8>,
    p: int,
    nb: nat,
    k: u64,
    m: u64,
    data_size: u64,
    max: u64,
) -> bool {
    exists|i: nat|
        i < nb && !min_block_fits(
            d,
            #[trigger] min_blocks_end(d, p, i, k, m, data_size, max),
            k,
            m,
            data_size,
            max,
        )
}

/// The bytes of blocks written in the layout of a Minimizer section.
pub open spec fn min_blocks_bytes(blocks: Seq<Block>, m: u64, max: u64) -> Seq<u8>
    decreases blocks.len(),
{
    if blocks.len() == 0 {
        Seq::empty()
    } else {
        min_blocks_bytes(blocks.drop_last(), m, max) + min_block_bytes(blocks.last(), m, max)
    }
}

/// Every block of `bs` can be held by a Minimizer section of k-mers of size
/// `k` with `data_size` bytes of data each, under `max`, and holds `minimizer`,
/// of `m` nucleotides, at its offset.
pub open spec fn min_blocks_fit(
    bs: Seq<Block>,
    k: u64,
    m: u64,
    data_size: u64,
    max: u64,
    minimizer: Seq<bool>,
) -> bool {
    &&& blocks_fit(bs, k, data_size, max)
    &&& forall|i: int|
        0 <= i < bs.len() ==> {
            let off = (#[trigger] bs[i]).spec_minimizer_offset();
            &&& off <= offset_max(k, max)
            &&& 2 * (off + m) <= bs[i].bits().len()
            &&& minimizer == bs[i].bits().subrange(2 * off as int, 2 * (off + m) as int)
        }
}

/// Minimizer blocks round trip: blocks written one after the other as
/// `write` does read back, from any position and with their shared
/// minimizer, as the k-mers of the blocks in order, and end right after their
/// bytes.
pub proof fn lemma_min_blocks_round_trip(
    d: Seq<u8>,
    p: int,
    bs: Seq<Block>,
    k: u64,
    m: u64,
    data_size: u64,
    max: u64,
    minimizer: Seq<bool>,
)
    requires
        min_blocks_fit(bs, k, m, data_size, max, minimizer),
        0 <= p,
        p + min_blocks_bytes(bs, m, max).len() <= d.len(),
        d.subrange(p, p + min_blocks_bytes(bs, m, max).len()) == min_blocks_bytes(bs, m, max),
    ensures
        min_blocks_end(d, p, bs.len(), k, m, data_size, max) == p + min_blocks_bytes(
            bs,
            m,
            max,
        ).len(),
        min_blocks_kmers(d, p, bs.len(), k, m, data_size, max, minimizer) == blocks_kmers(bs),
        !some_min_block_misfits(d, p, bs.len(), k, m, data_size, max),
    decreases bs.len(),
{
    if bs.len() > 0 {
        let init = bs.drop_last();
        let b = bs.last();
        let head = min_blocks_bytes(init, m, max);
        let all = min_blocks_bytes(bs, m, max);
        assert(all == head + min_block_bytes(b, m, max));
        assert(d.subrange(p, p + head.len()) =~= head) by {
            assert forall|i: int| 0 <= i < head.len() implies d.subrange(p, p + head.len())[i]
                == head[i] by {
                assert(d.subrange(p, p + all.len())[i] == all[i]);
            }
        }
        assert(min_blocks_fit(init, k, m, data_size, max, minimizer)) by {
            assert forall|i: int| 0 <= i < init.len() implies storable(#[trigger] init[i], max)
                && init[i].spec_k() == k && init[i].spec_data_size() == data_size by {
                assert(init[i] == bs[i]);
            }
            assert forall|i: int| 0 <= i < init.len() implies {
                let off = (#[trigger] init[i]).spec_minimizer_offset();
                &&& off <= offset_max(k, max)
                &&& 2 * (off + m) <= init[i].bits().len()
                &&& minimizer == init[i].bits().subrange(2 * off as int, 2 * (off + m) as int)
            } by {
                assert(init[i] == bs[i]);
            }
        }
        lemma_min_blocks_round_trip(d, p, init, k, m, data_size, max, minimizer);
        let q = p + head.len();
        let tail = min_block_bytes(b, m, max);
        assert(d.subrange(q, q + tail.len()) =~= tail) by {
            assert forall|i: int| 0 <= i < tail.len() implies d.subrange(q, q + tail.len())[i]
                == tail[i] by {
                assert(d.subrange(p, p + all.len())[head.len() + i] == all[head.len() + i]);
            }
        }
        assert(storable(bs[bs.len() - 1], max));
        assert(bs[bs.len() - 1] == b);
        lemma_minimizer_block_round_trip(d, q, b, m, max, minimizer);
        assert((bs.len() - 1) as nat == init.len());
        assert(min_block_fits(d, q, k, m, data_size, max));
        assert forall|i: nat| i < bs.len() implies min_block_fits(
            d,
            #[trigger] min_blocks_end(d, p, i, k, m, data_size, max),
            k,
            m,
            data_size,
            max,
        ) by {
            if i < init.len() {
                if !min_block_fits(d, min_blocks_end(d, p, i, k, m, data_size, max), k, m, data_size, max) {
                    assert(some_min_block_misfits(d, p, init.len(), k, m, data_size, max));
                }
            }
        }
    }
}

/// The minimizer of a Minimizer section that starts at `p` in `d`.
pub open spec fn section_minimizer(d: Seq<u8>, p: int, m: u64) -> Seq<bool> {
    bytes_bits(d.subrange(p, p + bytes_for_bits(2 * m as nat))).take(2 * m)
}

/// Parameters of a Minimizer section, taken from the current Values.
pub struct Minimizer {
    pub(crate) k: u64,
    pub(crate) m: u64,
    pub(crate) ordered: bool,
    pub(crate) max: u64,
    pub(crate) data_size: u64,
}

impl Minimizer {
    pub open(crate) spec fn spec_k(&self) -> u64 {
        self.k
    }

    pub open(crate) spec fn spec_m(&self) -> u64 {
        self.m
    }

    pub open(crate) spec fn spec_ordered(&self) -> bool {
        self.ordered
    }

    pub open(crate) spec fn spec_max(&self) -> u64 {
        self.max
    }

    pub open(crate) spec fn spec_data_size(&self) -> u64 {
        self.data_size
    }

    /// The parameters of a Minimizer section under `values`: `k`, `m`, `max`
    /// and `data_size` are required, in that order, and `max` may not be 0;
    /// `ordered` is false when absent.
    pub fn new(values: &Values) -> (r: Result<Minimizer>)
        ensures
            match r {
                Ok(s) => {
                    &&& lookup(*values, "k"@) == Some(s.spec_k())
                    &&& lookup(*values, "m"@) == Some(s.spec_m())
                    &&& lookup(*values, "max"@) == Some(s.spec_max())
                    &&& lookup(*values, "data_size"@) == Some(s.spec_data_size())
                    &&& s.spec_max() != 0
                    &&& s.spec_ordered() == (lookup(*values, "ordered"@) matches Some(o) && (o
                        != 0))
                },
                Err(e) => {
                    ||| lookup(*values, "k"@) is None && missing(e, "k"@)
                    ||| lookup(*values, "k"@) is Some && lookup(*values, "m"@) is None && missing(
                        e,
                        "m"@,
                    )
                    ||| lookup(*values, "k"@) is Some && lookup(*values, "m"@) is Some && lookup(
                        *values,
                        "max"@,
                    ) is None && missing(e, "max"@)
                    ||| lookup(*values, "k"@) is Some && lookup(*values, "m"@) is Some && lookup(
                        *values,
                        "max"@,
                    ) is Some && lookup(*values, "data_size"@) is None && missing(e, "data_size"@)
                    ||| lookup(*values, "k"@) is Some && lookup(*values, "m"@) is Some && lookup(
                        *values,
                        "max"@,
                    ) == Some(0u64) && lookup(*values, "data_size"@) is Some && e == Error::Kff(
                        Kff::MaxValueIsTooLarge(0),
                    )
                },
            },
    {
        let k = required(values, "k")?;
        let m = required(values, "m")?;
        let max = required(values, "max")?;
        let data_size = required(values, "data_size")?;
        if max == 0 {
            return Err(Error::Kff(Kff::MaxValueIsTooLarge(0)));
        }
        let ordered = match values.get("ordered") {
            Some(o) => o != 0,
            None => false,
        };
        Ok(Minimizer { k, m, ordered, max, data_size })
    }

    /// Size of the k-mers.
    pub fn k(&self) -> (r: u64)
        ensures
            r == self.spec_k(),
    {
        self.k
    }

    /// Size of the minimizer.
    pub fn m(&self) -> (r: u64)
        ensures
            r == self.spec_m(),
    {
        self.m
    }

    /// Whether the k-mers are in lexicographic order.
    pub fn ordered(&self) -> (r: bool)
        ensures
            r == self.spec_ordered(),
    {
        self.ordered
    }

    /// Largest number of k-mers in a block.
    pub fn max(&self) -> (r: u64)
        ensures
            r == self.spec_max(),
    {
        self.max
    }

    /// Bytes of data per k-mer.
    pub fn data_size(&self) -> (r: u64)
        ensures
            r == self.spec_data_size(),
    {
        self.data_size
    }

    /// Read the body of a Minimizer section: the minimizer, the number of
    /// blocks, then the blocks; the k-mers of all blocks come out in order.
    pub fn read(&self, input: &mut ByteReader) -> (r: Result<Vec<Kmer>>)
        ensures
            final(input).bytes() == old(input).bytes(),
            r is Ok ==> old(input).pos() < final(input).pos(),
            match r {
                Ok(ks) => {
                    let d = old(input).bytes();
                    let p = old(input).pos();
                    let mb = bytes_for_bits(2 * self.spec_m() as nat) as int;
                    let minimizer = section_minimizer(d, p, self.spec_m());
                    let nb = be_value(d.subrange(p + mb, p + mb + 8));
                    &&& old(input).has(mb + 8)
                    &&& 2 * self.spec_m() <= usize::MAX
                    &&& !some_min_block_misfits(
                        d,
                        p + mb + 8,
                        nb,
                        self.spec_k(),
                        self.spec_m(),
                        self.spec_data_size(),
                        self.spec_max(),
                    )
                    &&& final(input).bytes() == d
                    &&& final(input).pos() == min_blocks_end(
                        d,
                        p + mb + 8,
                        nb,
                        self.spec_k(),
                        self.spec_m(),
                        self.spec_data_size(),
                        self.spec_max(),
                    )
                    &&& kmer_views(ks@) == min_blocks_kmers(
                        d,
                        p + mb + 8,
                        nb,
                        self.spec_k(),
                        self.spec_m(),
                        self.spec_data_size(),
                        self.spec_max(),
                        minimizer,
                    )
                },
                Err(e) => {
                    let d = old(input).bytes();
                    let p = old(input).pos();
                    let mb = bytes_for_bits(2 * self.spec_m() as nat) as int;
                    &&& (e is UnexpectedEof || e matches Error::Kff(
                        Kff::MinimizerOffsetOutOfRange(_),
                    ))
                    &&& 2 * self.spec_m() <= usize::MAX && old(input).has(mb + 8)
                        ==> some_min_block_misfits(
                        d,
                        p + mb + 8,
                        be_value(d.subrange(p + mb, p + mb + 8)),
                        self.spec_k(),
                        self.spec_m(),
                        self.spec_data_size(),
                        self.spec_max(),
                    )
                },
            },
    {
        if self.m > (usize::MAX / 2) as u64 {
            return Err(Error::UnexpectedEof);
        }
        let minimizer = input.read_2bits(self.m as usize)?;
        let nb_block = input.read_u64()?;
        let ghost d = old(input).bytes();
        let ghost p = input.pos();
        let mut output: Vec<Kmer> = Vec::new();
        let mut i: u64 = 0;
        while i < nb_block
            invariant
                i <= nb_block,
                minimizer@.len() == 2 * self.m,
                input.bytes() == d,
                old(input).bytes() == d,
                old(input).pos() < input.pos(),
                p == old(input).pos() + bytes_for_bits(2 * self.m as nat) + 8,
                nb_block as nat == be_value(
                    d.subrange(
                        old(input).pos() + bytes_for_bits(2 * self.m as nat),
                        old(input).pos() + bytes_for_bits(2 * self.m as nat) + 8,
                    ),
                ),
                input.pos() == min_blocks_end(
                    d,
                    p,
                    i as nat,
                    self.k,
                    self.m,
                    self.data_size,
                    self.max,
                ),
                forall|j: nat|
                    j < i ==> min_block_fits(
                        d,
                        #[trigger] min_blocks_end(
                            d,
                            p,
                            j,
                            self.k,
                            self.m,
                            self.data_size,
                            self.max,
                        ),
                        self.k,
                        self.m,
                        self.data_size,
                        self.max,
                    ),
                kmer_views(output@) == min_blocks_kmers(
                    d,
                    p,
                    i as nat,
                    self.k,
                    self.m,
                    self.data_size,
                    self.max,
                    minimizer@,
                ),
            decreases nb_block - i,
        {
            let ghost q = input.pos();
            let (block, n) = match Block::read_minimizer_counted(
                input,
                self.k,
                self.m,
                self.data_size,
                self.max,
                minimizer.as_slice(),
            ) {
                Ok(r) => r,
                Err(e) => {
                    proof {
                        assert(!min_block_fits(d, q, self.k, self.m, self.data_size, self.max));
                        assert(q == min_blocks_end(
                            d,
                            p,
                            i as nat,
                            self.k,
                            self.m,
                            self.data_size,
                            self.max,
                        ));
                        assert(some_min_block_misfits(
                            d,
                            p,
                            nb_block as nat,
                            self.k,
                            self.m,
                            self.data_size,
                            self.max,
                        ));
                    }
                    return Err(e);
                },
            };
            let ghost before = output@;
            if n > 0 {
                let mut ks = block.kmers();
                let ghost added = ks@;
                output.append(&mut ks);
                proof {
                    assert(kmer_views(output@) =~= kmer_views(before) + kmer_views(added));
                }
            } else {
                proof {
                    assert(block_kmers(
                        min_block_bits(d, q, self.k, self.m, self.max, minimizer@),
                        min_block_data(d, q, self.k, self.m, self.data_size, self.max),
                        self.k,
                        self.data_size,
                        0,
                    ) =~= Seq::empty());
                    assert(kmer_views(output@) =~= kmer_views(before) + Seq::empty());
                }
            }
            i = i + 1;
        }
        Ok(output)
    }

    /// Write the body of a Minimizer section: the packed minimizer, the number
    /// of blocks, then each block without the minimizer.
    pub fn write(&self, out: &mut Vec<u8>, minimizer: &[bool], blocks: &[Block])
        requires
            forall|i: int|
                0 <= i < blocks@.len() ==> 2 * ((#[trigger] blocks@[i]).spec_minimizer_offset()
                    + self.spec_m()) <= blocks@[i].bits().len(),
        ensures
            final(out)@ == old(out)@ + packed(minimizer@) + be_bytes(blocks@.len() as nat, 8)
                + min_blocks_bytes(blocks@, self.spec_m(), self.spec_max()),
    {
        let packed_minimizer = pack_bits(minimizer);
        write_bytes(out, packed_minimizer.as_slice());
        write_u64(out, blocks.len() as u64);
        let ghost base = out@;
        let mut i: usize = 0;
        while i < blocks.len()
            invariant
                i <= blocks@.len(),
                forall|j: int|
                    0 <= j < blocks@.len() ==> 2 * ((#[trigger] blocks@[j]).spec_minimizer_offset()
                        + self.m) <= blocks@[j].bits().len(),
                base == old(out)@ + packed(minimizer@) + be_bytes(blocks@.len() as nat, 8),
                out@ == base + min_blocks_bytes(blocks@.subrange(0, i as int), self.m, self.max),
            decreases blocks@.len() - i,
        {
            blocks[i].write_minimizer(out, self.m, self.max);
            proof {
                let s = blocks@.subrange(0, i + 1);
                assert(s.drop_last() =~= blocks@.subrange(0, i as int));
                assert(out@ =~= base + min_blocks_bytes(s, self.m, self.max));
            }
            i = i + 1;
        }
        assert(blocks@.subrange(0, blocks@.len() as int) =~= blocks@);
    }
}

} // verus!
