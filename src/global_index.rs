//! The global index: every indexed section of a file with its absolute offset.
use vstd::prelude::*;

use crate::error::{Error, Kff, Result};
use crate::index::{index_end, index_next, index_pairs, Index};
use crate::read::ByteReader;

verus! {

broadcast use vstd::seq_lib::group_to_multiset_ensures;

/// The entries are in increasing order of offset.
pub open spec fn sorted_by_offset(s: Seq<(u8, u64)>) -> bool {
    forall|a: int, b: int| 0 <= a < b < s.len() ==> (#[trigger] s[a]).1 <= (#[trigger] s[b]).1
}

/// The absolute position `base + delta`, when it is a u64.
pub open spec fn resolve(base: int, delta: i64) -> Option<u64> {
    if 0 <= base + delta <= u64::MAX {
        Some((base + delta) as u64)
    } else {
        None
    }
}

/// The entries `pairs`, listed relative to `base`, at their absolute
/// positions; None when one falls outside the u64 range.
pub open spec fn resolve_all(pairs: Seq<(u8, i64)>, base: int) -> Option<Seq<(u8, u64)>>
    decreases pairs.len(),
{
    if pairs.len() == 0 {
        Some(Seq::empty())
    } else {
        match (resolve_all(pairs.drop_last(), base), resolve(base, pairs.last().1)) {
            (Some(s), Some(pos)) => Some(s.push((pairs.last().0, pos))),
            _ => None,
        }
    }
}

/// `a` followed by the entries in `rest`, when there are any.
pub open spec fn prefixed(a: Seq<(u8, u64)>, rest: Option<Seq<(u8, u64)>>) -> Option<
    Seq<(u8, u64)>,
> {
    match rest {
        Some(r) => Some(a + r),
        None => None,
    }
}

/// The entries, at their absolute positions, of the chain of Index bodies
/// that starts at `p` in `d`, following at most `fuel` bodies; None when a body
/// does not lie within `d`, a position falls outside the u64 range, a link
/// leads outside `d`, or the chain is longer.
pub open spec fn chain_entries(d: Seq<u8>, p: int, fuel: nat) -> Option<Seq<(u8, u64)>>
    decreases fuel,
{
    if fuel == 0 || index_end(d, p) > d.len() {
        None
    } else {
        let end = index_end(d, p);
        match resolve_all(index_pairs(d, p), end) {
            None => None,
            Some(es) => if index_next(d, p) == 0 {
                Some(es)
            } else {
                match resolve(end, index_next(d, p)) {
                    Some(q) => if q <= d.len() {
                        prefixed(es, chain_entries(d, q as int, (fuel - 1) as nat))
                    } else {
                        None
                    },
                    None => None,
                }
            },
        }
    }
}

proof fn lemma_resolve_none(pairs: Seq<(u8, i64)>, base: int, i: int)
    requires
        0 <= i <= pairs.len(),
        resolve_all(pairs.take(i), base) is None,
    ensures
        resolve_all(pairs, base) is None,
    decreases pairs.len() - i,
{
    if i < pairs.len() {
        assert(pairs.take(i + 1).drop_last() =~= pairs.take(i));
        lemma_resolve_none(pairs, base, i + 1);
    } else {
        assert(pairs.take(i) =~= pairs);
    }
}

fn resolve_exec(base: usize, delta: i64) -> (r: Option<u64>)
    ensures
        r == resolve(base as int, delta),
{
    if delta >= 0 {
        let d = delta as u64;
        if base as u64 > u64::MAX - d {
            None
        } else {
            Some(base as u64 + d)
        }
    } else {
        let back = if delta == i64::MIN {
            0x8000_0000_0000_0000u64
        } else {
            (-delta) as u64
        };
        if back > base as u64 {
            None
        } else {
            Some(base as u64 - back)
        }
    }
}

/// `v` sorted by offset, ties in their first order.
pub fn sort_by_offset(v: &Vec<(u8, u64)>) -> (r: Vec<(u8, u64)>)
    ensures
        sorted_by_offset(r@),
        r@.to_multiset() == v@.to_multiset(),
{
    broadcast use vstd::seq_lib::to_multiset_build, vstd::seq_lib::to_multiset_insert;

    let mut out: Vec<(u8, u64)> = Vec::new();
    let mut i: usize = 0;
    while i < v.len()
        invariant
            i <= v@.len(),
            sorted_by_offset(out@),
            out@.to_multiset() == v@.subrange(0, i as int).to_multiset(),
        decreases v@.len() - i,
    {
        let x = v[i];
        let mut j: usize = 0;
        while j < out.len() && out[j].1 <= x.1
            invariant
                j <= out@.len(),
                forall|a: int| 0 <= a < j ==> (#[trigger] out@[a]).1 <= x.1,
            decreases out@.len() - j,
        {
            j = j + 1;
        }
        let ghost before = out@;
        out.insert(j, x);
        proof {
            assert(v@.subrange(0, i + 1) =~= v@.subrange(0, i as int).push(x));
            assert forall|a: int, b: int| 0 <= a < b < out@.len() implies (#[trigger] out@[a]).1
                <= (#[trigger] out@[b]).1 by {
                if j < before.len() {
                    assert(x.1 < before[j as int].1);
                }
            }
        }
        i = i + 1;
    }
    assert(v@.subrange(0, v@.len() as int) =~= v@);
    out
}

/// Every indexed section of a file: its tag and its absolute offset, sorted
/// by offset.
#[derive(Debug, Clone, PartialEq, Eq, Default)]
pub struct GlobalIndex {
    pub(crate) pair: Vec<(u8, u64)>,
}

impl GlobalIndex {
    pub open(crate) spec fn spec_pairs(&self) -> Seq<(u8, u64)> {
        self.pair@
    }

    /// The tags and absolute offsets of the indexed sections.
    pub fn pair(&self) -> (r: &Vec<(u8, u64)>)
        ensures
            r@ == self.spec_pairs(),
    {
        &self.pair
    }

    /// Collect the entries of the chain of Index sections whose first tag is at
    /// `first_index`: each Index lists offsets relative to its own end, and
    /// links by an offset from that same end to the body of the next one, 0
    /// ending the chain. A chain longer than the number of Index sections that
    /// the stream can hold, or an offset outside the u64 range, is not an
    /// index. The entries come out sorted by offset.
    pub fn new(input: &mut ByteReader, first_index: u64) -> (r: Result<GlobalIndex>)
        ensures
            final(input).bytes() == old(input).bytes(),
            ({
                let d = old(input).bytes();
                let chain = chain_entries(d, first_index + 1, d.len() / 16 + 1);
                match r {
                    Ok(g) => {
                        &&& first_index < d.len()
                        &&& d[first_index as int] == 105u8
                        &&& chain is Some
                        &&& g.spec_pairs().to_multiset() == chain->Some_0.to_multiset()
                        &&& sorted_by_offset(g.spec_pairs())
                    },
                    Err(e) => {
                        &&& e is UnexpectedEof || e == Error::Kff(Kff::NotAnIndex)
                        &&& first_index < d.len() && d[first_index as int] == 105u8 ==> chain is None
                        &&& !(first_index < d.len() && d[first_index as int] == 105u8) ==> e
                            == Error::Kff(Kff::NotAnIndex)
                    },
                }
            }),
    {
        let len = input.len();
        if first_index >= len as u64 {
            return Err(Error::Kff(Kff::NotAnIndex));
        }
        input.seek(first_index as usize);
        let section_type = input.read_u8()?;
        if section_type != 105u8 {
            return Err(Error::Kff(Kff::NotAnIndex));
        }
        let ghost d = input.bytes();
        let ghost start = input.pos();
        let mut pair: Vec<(u8, u64)> = Vec::new();
        let mut fuel: usize = len / 16 + 1;
        loop
            invariant_except_break
                chain_entries(d, start, (len / 16 + 1) as nat) == prefixed(
                    pair@,
                    chain_entries(d, input.pos(), fuel as nat),
                ),
            invariant
                input.bytes() == old(input).bytes(),
                d == old(input).bytes(),
                len == d.len(),
                start == first_index + 1,
                first_index < d.len() && d[first_index as int] == 105u8,
            ensures
                chain_entries(d, start, (len / 16 + 1) as nat) == Some(pair@),
            decreases fuel,
        {
            if fuel == 0 {
                proof {
                    assert(chain_entries(d, input.pos(), 0) is None);
                }
                return Err(Error::Kff(Kff::NotAnIndex));
            }
            let ghost cur = input.pos();
            let ghost before = pair@;
            let local_index = match Index::read(input) {
                Ok(ix) => ix,
                Err(e) => {
                    proof {
                        assert(index_end(d, cur) > d.len());
                        assert(chain_entries(d, cur, fuel as nat) is None);
                    }
                    return Err(e);
                },
            };
            let relative_to = input.position();
            let entries = local_index.pair();
            proof {
                assert(pair@ =~= before);
            }
            let mut i: usize = 0;
            while i < entries.len()
                invariant
                    i <= entries@.len(),
                    input.bytes() == old(input).bytes(),
                    len == input.bytes().len(),
                    first_index < d.len() && d[first_index as int] == 105u8,
                    entries@ == index_pairs(d, cur),
                    relative_to == index_end(d, cur),
                    index_end(d, cur) <= d.len(),
                    fuel > 0,
                    d == old(input).bytes(),
                    start == first_index + 1,
                    len == d.len(),
                    chain_entries(d, start, (len / 16 + 1) as nat) == prefixed(
                        before,
                        chain_entries(d, cur, fuel as nat),
                    ),
                    resolve_all(entries@.take(i as int), relative_to as int) == Some(
                        pair@.subrange(before.len() as int, pair@.len() as int),
                    ),
                    pair@.subrange(0, before.len() as int) == before,
                    before.len() <= pair@.len(),
                decreases entries@.len() - i,
            {
                let (t, delta) = entries[i];
                proof {
                    assert(entries@.take(i + 1).drop_last() =~= entries@.take(i as int));
                }
                match resolve_exec(relative_to, delta) {
                    Some(pos) => {
                        let ghost prev = pair@;
                        pair.push((t, pos));
                        proof {
                            assert(pair@.subrange(before.len() as int, pair@.len() as int) =~= prev.subrange(
                                before.len() as int,
                                prev.len() as int,
                            ).push((t, pos)));
                            assert(pair@.subrange(0, before.len() as int) =~= prev.subrange(
                                0,
                                before.len() as int,
                            ));
                        }
                    },
                    None => {
                        proof {
                            lemma_resolve_none(entries@, relative_to as int, i + 1);
                            assert(chain_entries(d, cur, fuel as nat) is None);
                        }
                        return Err(Error::Kff(Kff::NotAnIndex));
                    },
                }
                i = i + 1;
            }
            proof {
                assert(entries@.take(entries@.len() as int) =~= entries@);
                assert(pair@ =~= before + pair@.subrange(before.len() as int, pair@.len() as int));
            }
            let next = local_index.next_index();
            let ghost es = pair@.subrange(before.len() as int, pair@.len() as int);
            proof {
                assert(resolve_all(index_pairs(d, cur), index_end(d, cur)) == Some(es));
            }
            if next == 0 {
                proof {
                    assert(chain_entries(d, cur, fuel as nat) == Some(es));
                    assert(before + es =~= pair@);
                }
                break ;
            }
            match resolve_exec(relative_to, next) {
                Some(pos) => {
                    if pos > len as u64 {
                        proof {
                            assert(chain_entries(d, cur, fuel as nat) is None);
                        }
                        return Err(Error::UnexpectedEof);
                    }
                    input.seek(pos as usize);
                    proof {
                        assert(chain_entries(d, cur, fuel as nat) == prefixed(
                            es,
                            chain_entries(d, pos as int, (fuel - 1) as nat),
                        ));
                    }
                },
                None => {
                    proof {
                        assert(chain_entries(d, cur, fuel as nat) is None);
                    }
                    return Err(Error::Kff(Kff::NotAnIndex));
                },
            }
            fuel = fuel - 1;
            proof {
                let rest = chain_entries(d, input.pos(), fuel as nat);
                assert(prefixed(before, prefixed(es, rest)) == prefixed(pair@, rest)) by {
                    if rest is Some {
                        assert(before + (es + rest->Some_0) =~= pair@ + rest->Some_0);
                    }
                }
            }
        }
        Ok(GlobalIndex { pair: sort_by_offset(&pair) })
    }
}

} // verus!
