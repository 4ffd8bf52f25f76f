//! Raw sections: a count of blocks, then the blocks.
use vstd::prelude::*;

use crate::block::{
    block_kmers, block_nucs, count_at, kmer_views, lemma_raw_block_round_trip, raw_block_bits,
    raw_block_bytes, raw_block_data, raw_block_size, storable, Block,
};
use crate::codec::{be_bytes, be_value};
use crate::error::{Error, Kff, Result};
use crate::kmer::Kmer;
use crate::read::ByteReader;
use crate::values::{values_map, Values};
use crate::emit::write_u64;

verus! {

/// Position after the first `i` Raw blocks that start at `p` in `d`.
pub open spec fn raw_blocks_end(d: Seq<u8>, p: int, i: nat, k: u64, data_size: u64, max: u64) -> int
    decreases i,
{
    if i == 0 {
        p
    } else {
        let q = raw_blocks_end(d, p, (i - 1) as nat, k, data_size, max);
        q + raw_block_size(d, q, k, data_size, max)
    }
}

/// The k-mers of the first `i` Raw blocks that start at `p` in `d`, in order.
pub open spec fn raw_blocks_kmers(
    d: Seq<u8>,
    p: int,
    i: nat,
    k: u64,
    data_size: u64,
    max: u64,
) -> Seq<(Seq<bool>, Seq<u8>)>
    decreases i,
{
    if i == 0 {
        Seq::empty()
    } else {
        let q = raw_blocks_end(d, p, (i - 1) as nat, k, data_size, max);
        raw_blocks_kmers(d, p, (i - 1) as nat, k, data_size, max) + block_kmers(
            raw_block_bits(d, q, k, max),
            raw_block_data(d, q, k, data_size, max),
            k,
            data_size,
            count_at(d, q, max),
        )
    }
}

/// The Raw block at `q` in `d` lies within `d`, and its sequence fits in memory.
pub open spec fn raw_block_fits(d: Seq<u8>, q: int, k: u64, data_size: u64, max: u64) -> bool {
    &&& q + raw_block_size(d, q, k, data_size, max) <= d.len()
    &&& 2 * block_nucs(count_at(d, q, max), k as nat) <= usize::MAX
}

/// One of the first `nb` Raw blocks that start at `p` in `d` does not fit.
pub open spec fn some_raw_block_misfits(
    d: Seq<u8>,
    p: int,
    nb: nat,
    k: u64,
    data_size: u64,
    max: u64,
) -> bool {
    exists|i: nat|
        i < nb && !raw_block_fits(
            d,
            #[trigger] raw_blocks_end(d, p, i, k, data_size, max),
            k,
            data_size,
            max,
        )
}

/// The bytes of blocks written in the layout of a Raw section.
pub open spec fn raw_blocks_bytes(blocks: Seq<Block>, max: u64) -> Seq<u8>
    decreases blocks.len(),
{
    if blocks.len() == 0 {
        Seq::empty()
    } else {
        raw_blocks_bytes(blocks.drop_last(), max) + raw_block_bytes(blocks.last(), max)
    }
}

/// The k-mers of `bs`, block after block.
pub open spec fn blocks_kmers(bs: Seq<Block>) -> Seq<(Seq<bool>, Seq<u8>)>
    decreases bs.len(),
{
    if bs.len() == 0 {
        Seq::empty()
    } else {
        let b = bs.last();
        blocks_kmers(bs.drop_last()) + block_kmers(
            b.bits(),
            b.payload(),
            b.spec_k(),
            b.spec_data_size(),
            b.count(),
        )
    }
}

/// Every block of `bs` can be held by a section of k-mers of size `k` with
/// `data_size` bytes of data each, under `max`.
pub open spec fn blocks_fit(bs: Seq<Block>, k: u64, data_size: u64, max: u64) -> bool {
    forall|i: int|
        0 <= i < bs.len() ==> storable(#[trigger] bs[i], max) && bs[i].spec_k() == k
            && bs[i].spec_data_size() == data_size && bs[i].bits().len() <= usize::MAX
}

/// Raw blocks round trip: blocks written one after the other as `write` does
/// read back, from any position, as the k-mers of the blocks in order, and
/// end right after their bytes.
pub proof fn lemma_raw_blocks_round_trip(
    d: Seq<u8>,
    p: int,
    bs: Seq<Block>,
    k: u64,
    data_size: u64,
    max: u64,
)
    requires
        blocks_fit(bs, k, data_size, max),
        0 <= p,
        p + raw_blocks_bytes(bs, max).len() <= d.len(),
        d.subrange(p, p + raw_blocks_bytes(bs, max).len()) == raw_blocks_bytes(bs, max),
    ensures
        raw_blocks_end(d, p, bs.len(), k, data_size, max) == p + raw_blocks_bytes(bs, max).len(),
        raw_blocks_kmers(d, p, bs.len(), k, data_size, max) == blocks_kmers(bs),
        !some_raw_block_misfits(d, p, bs.len(), k, data_size, max),
    decreases bs.len(),
{
    if bs.len() > 0 {
        let init = bs.drop_last();
        let b = bs.last();
        let head = raw_blocks_bytes(init, max);
        let all = raw_blocks_bytes(bs, max);
        assert(all == head + raw_block_bytes(b, max));
        assert(d.subrange(p, p + head.len()) =~= head) by {
            assert forall|i: int| 0 <= i < head.len() implies d.subrange(p, p + head.len())[i]
                == head[i] by {
                assert(d.subrange(p, p + all.len())[i] == all[i]);
            }
        }
        assert(blocks_fit(init, k, data_size, max)) by {
            assert forall|i: int| 0 <= i < init.len() implies storable(#[trigger] init[i], max)
                && init[i].spec_k() == k && init[i].spec_data_size() == data_size
                && init[i].bits().len() <= usize::MAX by {
                assert(init[i] == bs[i]);
            }
        }
        lemma_raw_blocks_round_trip(d, p, init, k, data_size, max);
        let q = p + head.len();
        let tail = raw_block_bytes(b, max);
        assert(d.subrange(q, q + tail.len()) =~= tail) by {
            assert forall|i: int| 0 <= i < tail.len() implies d.subrange(q, q + tail.len())[i]
                == tail[i] by {
                assert(d.subrange(p, p + all.len())[head.len() + i] == all[head.len() + i]);
            }
        }
        assert(storable(bs[bs.len() - 1], max));
        lemma_raw_block_round_trip(d, q, b, max);
        assert((bs.len() - 1) as nat == init.len());
        assert(raw_block_fits(d, q, k, data_size, max));
        assert forall|i: nat| i < bs.len() implies raw_block_fits(
            d,
            #[trigger] raw_blocks_end(d, p, i, k, data_size, max),
            k,
            data_size,
            max,
        ) by {
            if i < init.len() {
                if !raw_block_fits(d, raw_blocks_end(d, p, i, k, data_size, max), k, data_size, max) {
                    assert(some_raw_block_misfits(d, p, init.len(), k, data_size, max));
                }
            }
        }
    }
}

/// The value of `name` in `m`, if any.
pub open spec fn lookup_in(m: Map<Seq<char>, u64>, name: Seq<char>) -> Option<u64> {
    if m.contains_key(name) {
        Some(m[name])
    } else {
        None
    }
}

/// The value of `name` in `v`, if any.
pub open spec fn lookup(v: Values, name: Seq<char>) -> Option<u64> {
    lookup_in(values_map(v), name)
}

/// `e` says that the Values entry `name` is missing.
pub open spec fn missing(e: Error, name: Seq<char>) -> bool {
    e matches Error::Kff(Kff::FieldIsMissing(n)) && n@ == name
}

/// Look a required name up.
pub(crate) fn required(values: &Values, name: &str) -> (r: Result<u64>)
    ensures
        match r {
            Ok(v) => lookup(*values, name@) == Some(v),
            Err(e) => lookup(*values, name@) is None && (e matches Error::Kff(
                Kff::FieldIsMissing(n),
            ) && n@ == name@),
        },
{
    values.field(name)
}

/// Parameters of a Raw section, taken from the current Values.
pub struct Raw {
    pub(crate) k: u64,
    pub(crate) ordered: bool,
    pub(crate) max: u64,
    pub(crate) data_size: u64,
}

impl Raw {
    pub open(crate) spec fn spec_k(&self) -> u64 {
        self.k
    }

    pub open(crate) spec fn spec_ordered(&self) -> bool {
        self.ordered
    }

    pub open(crate) spec fn spec_max(&self) -> u64 {
        self.max
    }

    pub open(crate) spec fn spec_data_size(&self) -> u64 {
        self.data_size
    }

    /// The parameters of a Raw section under `values`: `k`, `max` and
    /// `data_size` are required, in that order, and `max` may not be 0;
    /// `ordered` is false when absent.
    pub fn new(values: &Values) -> (r: Result<Raw>)
        ensures
            match r {
                Ok(raw) => {
                    &&& lookup(*values, "k"@) == Some(raw.spec_k())
                    &&& lookup(*values, "max"@) == Some(raw.spec_max())
                    &&& lookup(*values, "data_size"@) == Some(raw.spec_data_size())
                    &&& raw.spec_max() != 0
                    &&& raw.spec_ordered() == (lookup(*values, "ordered"@) matches Some(o) && (o
                        != 0))
                },
                Err(e) => {
                    ||| lookup(*values, "k"@) is None && missing(e, "k"@)
                    ||| lookup(*values, "k"@) is Some && lookup(*values, "max"@) is None
                        && missing(e, "max"@)
                    ||| lookup(*values, "k"@) is Some && lookup(*values, "max"@) is Some
                        && lookup(*values, "data_size"@) is None && missing(e, "data_size"@)
                    ||| lookup(*values, "k"@) is Some && lookup(*values, "max"@) == Some(0u64)
                        && lookup(*values, "data_size"@) is Some && e == Error::Kff(
                        Kff::MaxValueIsTooLarge(0),
                    )
                },
            },
    {
        let k = required(values, "k")?;
        let max = required(values, "max")?;
        let data_size = required(values, "data_size")?;
        if max == 0 {
            return Err(Error::Kff(Kff::MaxValueIsTooLarge(0)));
        }
        let ordered = match values.get("ordered") {
            Some(o) => o != 0,
            None => false,
        };
        Ok(Raw { k, ordered, max, data_size })
    }

    /// Size of the k-mers.
    pub fn k(&self) -> (r: u64)
        ensures
            r == self.spec_k(),
    {
        self.k
    }

    /// Whether the k-mers are in lexicographic order.
    pub fn ordered(&self) -> (r: bool)
        ensures
            r == self.spec_ordered(),
    {
        self.ordered
    }

    /// Largest number of k-mers in a block.
    pub fn max(&self) -> (r: u64)
        ensures
            r == self.spec_max(),
    {
        self.max
    }

    /// Bytes of data per k-mer.
    pub fn data_size(&self) -> (r: u64)
        ensures
            r == self.spec_data_size(),
    {
        self.data_size
    }

    /// Read the body of a Raw section: the number of blocks, then the blocks;
    /// the k-mers of all blocks come out in order.
    pub fn read(&self, input: &mut ByteReader) -> (r: Result<Vec<Kmer>>)
        ensures
            final(input).bytes() == old(input).bytes(),
            r is Ok ==> old(input).pos() < final(input).pos(),
            match r {
                Ok(ks) => {
                    let d = old(input).bytes();
                    let p = old(input).pos();
                    let nb = be_value(old(input).ahead(8));
                    &&& old(input).has(8)
                    &&& !some_raw_block_misfits(
                        d,
                        p + 8,
                        nb,
                        self.spec_k(),
                        self.spec_data_size(),
                        self.spec_max(),
                    )
                    &&& final(input).bytes() == d
                    &&& final(input).pos() == raw_blocks_end(
                        d,
                        p + 8,
                        nb,
                        self.spec_k(),
                        self.spec_data_size(),
                        self.spec_max(),
                    )
                    &&& kmer_views(ks@) == raw_blocks_kmers(
                        d,
                        p + 8,
                        nb,
                        self.spec_k(),
                        self.spec_data_size(),
                        self.spec_max(),
                    )
                },
                Err(e) => {
                    let d = old(input).bytes();
                    let p = old(input).pos();
                    let nb = be_value(old(input).ahead(8));
                    &&& e is UnexpectedEof
                    &&& old(input).has(8) ==> some_raw_block_misfits(
                        d,
                        p + 8,
                        nb,
                        self.spec_k(),
                        self.spec_data_size(),
                        self.spec_max(),
                    )
                },
            },
    {
        let nb_block = input.read_u64()?;
        let ghost d = old(input).bytes();
        let ghost p = old(input).pos() + 8;
        let mut output: Vec<Kmer> = Vec::new();
        let mut i: u64 = 0;
        while i < nb_block
            invariant
                i <= nb_block,
                input.bytes() == d,
                old(input).bytes() == d,
                old(input).pos() < input.pos(),
                p == old(input).pos() + 8,
                nb_block as nat == be_value(old(input).ahead(8)),
                old(input).has(8),
                input.pos() == raw_blocks_end(d, p, i as nat, self.k, self.data_size, self.max),
                forall|j: nat|
                    j < i ==> raw_block_fits(
                        d,
                        #[trigger] raw_blocks_end(d, p, j, self.k, self.data_size, self.max),
                        self.k,
                        self.data_size,
                        self.max,
                    ),
                kmer_views(output@) == raw_blocks_kmers(
                    d,
                    p,
                    i as nat,
                    self.k,
                    self.data_size,
                    self.max,
                ),
            decreases nb_block - i,
        {
            let ghost q = input.pos();
            let (block, n) = match Block::read_raw_counted(input, self.k, self.data_size, self.max) {
                Ok(r) => r,
                Err(e) => {
                    proof {
                        assert(!raw_block_fits(d, q, self.k, self.data_size, self.max));
                        assert(q == raw_blocks_end(d, p, i as nat, self.k, self.data_size, self.max));
                        assert((i as nat) < nb_block);
                        assert(some_raw_block_misfits(
                            d,
                            p,
                            nb_block as nat,
                            self.k,
                            self.data_size,
                            self.max,
                        ));
                    }
                    return Err(e);
                },
            };
            let ghost before = output@;
            if n > 0 {
                let mut ks = block.kmers();
                let ghost added = ks@;
                output.append(&mut ks);
                proof {
                    assert(kmer_views(output@) =~= kmer_views(before) + kmer_views(added));
                }
            } else {
                proof {
                    assert(block_kmers(
                        raw_block_bits(d, q, self.k, self.max),
                        raw_block_data(d, q, self.k, self.data_size, self.max),
                        self.k,
                        self.data_size,
                        0,
                    ) =~= Seq::empty());
                    assert(kmer_views(output@) =~= kmer_views(before) + Seq::empty());
                }
            }
            i = i + 1;
        }
        Ok(output)
    }

    /// Write the body of a Raw section: the number of blocks, then each block.
    pub fn write(&self, out: &mut Vec<u8>, blocks: &[Block])
        ensures
            final(out)@ == old(out)@ + be_bytes(blocks@.len() as nat, 8) + raw_blocks_bytes(
                blocks@,
                self.spec_max(),
            ),
    {
        write_u64(out, blocks.len() as u64);
        let ghost base = out@;
        let mut i: usize = 0;
        while i < blocks.len()
            invariant
                i <= blocks@.len(),
                base == old(out)@ + be_bytes(blocks@.len() as nat, 8),
                out@ == base + raw_blocks_bytes(blocks@.subrange(0, i as int), self.max),
            decreases blocks@.len() - i,
        {
            blocks[i].write_raw(out, self.max);
            proof {
                let s = blocks@.subrange(0, i + 1);
                assert(s.drop_last() =~= blocks@.subrange(0, i as int));
                assert(out@ =~= base + raw_blocks_bytes(s, self.max));
            }
            i = i + 1;
        }
        assert(blocks@.subrange(0, blocks@.len() as int) =~= blocks@);
    }
}

} // verus!
