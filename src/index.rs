//! Index sections: (tag, relative offset) pairs and the link to the next index.
use vstd::prelude::*;

use crate::codec::{be_bytes, be_value};
use crate::error::Result;
use crate::read::{i64_of, ByteReader};
use crate::emit::{i64_bits, write_i64, write_u64, write_u8};

verus! {

/// The bytes of index entries: each tag, then its offset on 8 bytes.
pub open spec fn pairs_bytes(pairs: Seq<(u8, i64)>) -> Seq<u8>
    decreases pairs.len(),
{
    if pairs.len() == 0 {
        Seq::empty()
    } else {
        pairs_bytes(pairs.drop_last()) + seq![pairs.last().0] + be_bytes(
            i64_bits(pairs.last().1),
            8,
        )
    }
}

/// The bytes of an Index section body.
pub open spec fn index_bytes(pairs: Seq<(u8, i64)>, next_index: i64) -> Seq<u8> {
    be_bytes(pairs.len() as nat, 8) + pairs_bytes(pairs) + be_bytes(i64_bits(next_index), 8)
}

/// Number of entries of the Index body that starts at `p` in `d`.
pub open spec fn index_count(d: Seq<u8>, p: int) -> nat {
    be_value(d.subrange(p, p + 8))
}

/// The entries of the Index body that starts at `p` in `d`.
pub open spec fn index_pairs(d: Seq<u8>, p: int) -> Seq<(u8, i64)> {
    Seq::new(
        index_count(d, p),
        |i: int| (d[p + 8 + 9 * i], i64_of(be_value(d.subrange(p + 9 + 9 * i, p + 17 + 9 * i))) as i64),
    )
}

/// End of the Index body that starts at `p` in `d`.
pub open spec fn index_end(d: Seq<u8>, p: int) -> int {
    p + 16 + 9 * index_count(d, p)
}

/// The link to the next Index of the Index body that starts at `p` in `d`.
pub open spec fn index_next(d: Seq<u8>, p: int) -> i64 {
    i64_of(be_value(d.subrange(index_end(d, p) - 8, index_end(d, p)))) as i64
}

pub proof fn lemma_pairs_bytes_len(pairs: Seq<(u8, i64)>)
    ensures
        pairs_bytes(pairs).len() == 9 * pairs.len(),
    decreases pairs.len(),
{
    if pairs.len() > 0 {
        lemma_pairs_bytes_len(pairs.drop_last());
        crate::codec::lemma_be_bytes_len(i64_bits(pairs.last().1), 8);
    }
}

proof fn lemma_i64_bytes(s: Seq<u8>, v: i64)
    requires
        s.len() == 8,
        v as int == i64_of(be_value(s)),
    ensures
        be_bytes(i64_bits(v), 8) == s,
{
    crate::codec::lemma_be_value_bound(s);
    crate::codec::lemma_pow256_widths();
    crate::codec::lemma_be_bytes_of_value(s);
}

/// An Index section.
#[derive(Debug, Clone, PartialEq, Eq)]
pub struct Index {
    pub(crate) pair: Vec<(u8, i64)>,
    pub(crate) next_index: i64,
}

impl Index {
    pub open(crate) spec fn spec_pairs(&self) -> Seq<(u8, i64)> {
        self.pair@
    }

    pub open(crate) spec fn spec_next_index(&self) -> i64 {
        self.next_index
    }

    /// An Index with these entries and link to the next index (0 for none).
    pub fn new(pair: Vec<(u8, i64)>, next_index: i64) -> (r: Index)
        ensures
            r.spec_pairs() == pair@,
            r.spec_next_index() == next_index,
    {
        Index { pair, next_index }
    }

    /// The entries: each section tag with its offset relative to the end of
    /// this Index.
    pub fn pair(&self) -> (r: &Vec<(u8, i64)>)
        ensures
            r@ == self.spec_pairs(),
    {
        &self.pair
    }

    /// Offset of the next Index relative to the end of this one, 0 for none.
    pub fn next_index(&self) -> (r: i64)
        ensures
            r == self.spec_next_index(),
    {
        self.next_index
    }

    /// Read the body of an Index section.
    pub fn read(input: &mut ByteReader) -> (r: Result<Index>)
        ensures
            final(input).bytes() == old(input).bytes(),
            match r {
                Ok(ix) => {
                    let len = index_bytes(ix.spec_pairs(), ix.spec_next_index()).len();
                    &&& ix.spec_pairs() == index_pairs(old(input).bytes(), old(input).pos())
                    &&& ix.spec_next_index() == index_next(old(input).bytes(), old(input).pos())
                    &&& final(input).pos() == index_end(old(input).bytes(), old(input).pos())
                    &&& old(input).took(final(input), len as int)
                    &&& old(input).ahead(len as int) == index_bytes(
                        ix.spec_pairs(),
                        ix.spec_next_index(),
                    )
                },
                Err(e) => e is UnexpectedEof && !old(input).has(
                    16 + 9 * be_value(old(input).ahead(8)) as int,
                ),
            },
    {
        let nb = input.read_u64()?;
        let ghost d = old(input).bytes();
        let ghost p = old(input).pos();
        let mut pair: Vec<(u8, i64)> = Vec::new();
        let mut i: u64 = 0;
        proof {
            crate::codec::lemma_be_bytes_of_value(old(input).ahead(8));
        }
        while i < nb
            invariant
                i <= nb,
                nb as nat == be_value(old(input).ahead(8)),
                be_bytes(nb as nat, 8) == d.subrange(p, p + 8),
                input.bytes() == d,
                old(input).bytes() == d,
                old(input).pos() == p,
                pair@.len() == i,
                input.pos() == p + 8 + 9 * i,
                d.subrange(p + 8, input.pos()) == pairs_bytes(pair@),
                pair@ =~= index_pairs(d, p).take(i as int),
                index_count(d, p) == nb,
            decreases nb - i,
        {
            let ghost q = input.pos();
            let tag = input.read_u8()?;
            let delta = input.read_i64()?;
            proof {
                lemma_i64_bytes(d.subrange(q + 1, q + 9), delta);
                crate::codec::lemma_be_value_bound(d.subrange(q + 1, q + 9));
                crate::codec::lemma_pow256_widths();
                assert(q == p + 8 + 9 * i);
                assert(index_pairs(d, p)[i as int] == (tag, delta));
                let p2 = pair@.push((tag, delta));
                assert(p2.drop_last() =~= pair@);
                assert(d.subrange(p + 8, q + 9) =~= d.subrange(p + 8, q) + seq![tag] + d.subrange(
                    q + 1,
                    q + 9,
                ));
            }
            pair.push((tag, delta));
            i = i + 1;
        }
        let ghost q = input.pos();
        let next_index = input.read_i64()?;
        proof {
            crate::codec::lemma_be_value_bound(d.subrange(q, q + 8));
            crate::codec::lemma_pow256_widths();
            assert(pair@ =~= index_pairs(d, p));
            lemma_i64_bytes(d.subrange(q, q + 8), next_index);
            lemma_pairs_bytes_len(pair@);
            crate::codec::lemma_be_bytes_len(nb as nat, 8);
            assert(d.subrange(p, q + 8) =~= d.subrange(p, p + 8) + d.subrange(p + 8, q)
                + d.subrange(q, q + 8));
        }
        Ok(Index { pair, next_index })
    }

    /// Write the body of an Index section.
    pub fn write(&self, out: &mut Vec<u8>)
        ensures
            final(out)@ == old(out)@ + index_bytes(self.spec_pairs(), self.spec_next_index()),
    {
        write_u64(out, self.pair.len() as u64);
        let ghost base = out@;
        let mut i: usize = 0;
        while i < self.pair.len()
            invariant
                i <= self.pair@.len(),
                base == old(out)@ + be_bytes(self.pair@.len() as nat, 8),
                out@ == base + pairs_bytes(self.pair@.subrange(0, i as int)),
            decreases self.pair@.len() - i,
        {
            let (tag, delta) = self.pair[i];
            write_u8(out, tag);
            write_i64(out, delta);
            proof {
                let s = self.pair@.subrange(0, i + 1);
                assert(s.drop_last() =~= self.pair@.subrange(0, i as int));
                assert(out@ =~= base + pairs_bytes(s));
            }
            i = i + 1;
        }
        assert(self.pair@.subrange(0, self.pair@.len() as int) =~= self.pair@);
        write_i64(out, self.next_index);
    }
}

} // verus!
