//! A KFF file: its header, the current Values, and the section grammar that
//! yields k-mers; and the writer of such files.
use vstd::prelude::*;

use crate::block::{kmer_views, Block};
use crate::codec::{be_bytes, be_value, bytes_for_bits, packed};
use crate::error::{Error, Kff as KffError, Result};
use crate::global_index::{chain_entries, sorted_by_offset, GlobalIndex};
use crate::encoding::is_valid_encoding;
use crate::header::{magic, version_ok, Header};
use crate::index::{index_bytes, index_end, Index};
use crate::kmer::Kmer;
use crate::minimizer::{
    min_blocks_bytes, min_blocks_end, min_blocks_kmers, section_minimizer, some_min_block_misfits,
    Minimizer,
};
use crate::raw::{blocks_fit, blocks_kmers, lookup, lookup_in, some_raw_block_misfits, raw_blocks_bytes, raw_blocks_end, raw_blocks_kmers, Raw};
use crate::read::ByteReader;
use vstd::utf8::{decode_utf8, valid_utf8};
use crate::values::{
    footer_body, lemma_same_parse, lists, map_of, parses_at, section_bytes, values_map,
    values_section_at, Values,
};
use crate::emit::write_bytes;

verus! {

/// Tag of a Values section.
pub open spec fn tag_values() -> u8 {
    118u8
}

/// Tag of a Raw section.
pub open spec fn tag_raw() -> u8 {
    114u8
}

/// Tag of a Minimizer section.
pub open spec fn tag_minimizer() -> u8 {
    109u8
}

/// Tag of an Index section.
pub open spec fn tag_index() -> u8 {
    105u8
}

/// First byte of the closing magic number.
pub open spec fn tag_end() -> u8 {
    75u8
}

/// The Raw section whose tag is at `q` in `d`, read under `vals`, gives the
/// k-mers `ks` and ends at `end`.
pub open spec fn raw_section_at(
    d: Seq<u8>,
    q: int,
    vals: Map<Seq<char>, u64>,
    ks: Seq<(Seq<bool>, Seq<u8>)>,
    end: int,
) -> bool {
    &&& 0 <= q < d.len()
    &&& d[q] == tag_raw()
    &&& lookup_in(vals, "k"@) matches Some(k) && lookup_in(vals, "max"@) matches Some(max) && lookup_in(
        vals,
        "data_size"@,
    ) matches Some(ds) && ({
        let nb = be_value(d.subrange(q + 1, q + 9));
        &&& max != 0
        &&& q + 9 <= d.len()
        &&& ks == raw_blocks_kmers(d, q + 9, nb, k, ds, max)
        &&& end == raw_blocks_end(d, q + 9, nb, k, ds, max)
    })
}

/// The Minimizer section whose tag is at `q` in `d`, read under `vals`, gives
/// the k-mers `ks` and ends at `end`.
pub open spec fn minimizer_section_at(
    d: Seq<u8>,
    q: int,
    vals: Map<Seq<char>, u64>,
    ks: Seq<(Seq<bool>, Seq<u8>)>,
    end: int,
) -> bool {
    &&& 0 <= q < d.len()
    &&& d[q] == tag_minimizer()
    &&& lookup_in(vals, "k"@) matches Some(k) && lookup_in(vals, "m"@) matches Some(m) && lookup_in(
        vals,
        "max"@,
    ) matches Some(max) && lookup_in(vals, "data_size"@) matches Some(ds) && ({
        let mb = bytes_for_bits(2 * m as nat) as int;
        let nb = be_value(d.subrange(q + 1 + mb, q + 1 + mb + 8));
        &&& max != 0
        &&& q + 1 + mb + 8 <= d.len()
        &&& ks == min_blocks_kmers(
            d,
            q + 1 + mb + 8,
            nb,
            k,
            m,
            ds,
            max,
            section_minimizer(d, q + 1, m),
        )
        &&& end == min_blocks_end(d, q + 1 + mb + 8, nb, k, m, ds, max)
    })
}

/// A Raw or Minimizer section whose tag is at or after `p` in `d`, read under
/// `vals`, gives the k-mers `ks` and ends at `end`.
pub open spec fn kmer_section_after(
    d: Seq<u8>,
    p: int,
    vals: Map<Seq<char>, u64>,
    ks: Seq<(Seq<bool>, Seq<u8>)>,
    end: int,
) -> bool {
    exists|q: int|
        #![trigger raw_section_at(d, q, vals, ks, end)]
        #![trigger minimizer_section_at(d, q, vals, ks, end)]
        p <= q && (raw_section_at(d, q, vals, ks, end) || minimizer_section_at(d, q, vals, ks, end))
}

/// Where the footer lookup places the footer's tag: `footer_size` bytes,
/// read from the 8 bytes before the closing magic number, plus 3 before the end.
pub open spec fn footer_start(d: Seq<u8>) -> int {
    d.len() - 3 - be_value(d.subrange(d.len() - 11, d.len() - 3))
}

/// The footer lookup lands on a Values tag whose section body can be read.
pub open spec fn footer_readable(d: Seq<u8>) -> bool {
    &&& d.len() >= 11
    &&& 0 <= footer_start(d)
    &&& d[footer_start(d)] == tag_values()
    &&& values_section_at(d, footer_start(d) + 1)
}

/// Position of the tag of the first Index section of a file whose header ends
/// at `q`: right there when an Index tag stands there, else the footer's
/// `first_index`.
pub open spec fn index_start(d: Seq<u8>, q: int) -> Option<u64> {
    if q < d.len() && d[q] == tag_index() {
        Some(q as u64)
    } else if footer_readable(d) && values_map_at(d, footer_start(d) + 1).contains_key(
        "first_index"@,
    ) {
        Some(values_map_at(d, footer_start(d) + 1)["first_index"@])
    } else {
        None
    }
}

/// The entries of the global index of a file whose header ends at `q`, when
/// its chain of Index sections resolves.
pub open spec fn index_chain(d: Seq<u8>, q: int) -> Option<Seq<(u8, u64)>> {
    match index_start(d, q) {
        Some(fi) => if fi < d.len() && d[fi as int] == tag_index() {
            chain_entries(d, fi + 1, d.len() / 16 + 1)
        } else {
            None
        },
        None => None,
    }
}

/// The values of the Values section body at `p` in `d`, when one can be read.
pub open spec fn values_map_at(d: Seq<u8>, p: int) -> Map<Seq<char>, u64> {
    map_of(choose|es: Seq<(Seq<u8>, u64)>| #[trigger] parses_at(d, p, es))
}

/// Offset of the last Values section among the first `n` entries of an index.
pub open spec fn last_values_before(pairs: Seq<(u8, u64)>, n: int) -> Option<u64>
    decreases n,
{
    if n <= 0 {
        None
    } else if pairs[n - 1].0 == tag_values() {
        Some(pairs[n - 1].1)
    } else {
        last_values_before(pairs, n - 1)
    }
}

/// Raw section round trip: a Raw section written as `Kff::write_raw` writes it,
/// with blocks that fit the current `k`, `max` and `data_size`, reads back as
/// the k-mers of its blocks, in order, and ends right after its bytes.
pub proof fn lemma_raw_section_round_trip(d: Seq<u8>, q: int, bs: Seq<Block>, vals: Values)
    requires
        lookup(vals, "k"@) matches Some(k) && lookup(vals, "max"@) matches Some(max) && lookup(
            vals,
            "data_size"@,
        ) matches Some(ds) && max != 0 && blocks_fit(bs, k, ds, max) && 0 <= q && q + 9
            + raw_blocks_bytes(bs, max).len() <= d.len() && d.subrange(
            q,
            q + 9 + raw_blocks_bytes(bs, max).len(),
        ) == seq![tag_raw()] + be_bytes(bs.len() as nat, 8) + raw_blocks_bytes(bs, max),
        bs.len() <= u64::MAX,
    ensures
        lookup(vals, "max"@) matches Some(max) && raw_section_at(
            d,
            q,
            values_map(vals),
            blocks_kmers(bs),
            q + 9 + raw_blocks_bytes(bs, max).len(),
        ),
{
    let k = lookup(vals, "k"@)->Some_0;
    let max = lookup(vals, "max"@)->Some_0;
    let ds = lookup(vals, "data_size"@)->Some_0;
    let body = raw_blocks_bytes(bs, max);
    let all = seq![tag_raw()] + be_bytes(bs.len() as nat, 8) + body;
    crate::codec::lemma_pow256_widths();
    crate::codec::lemma_be_bytes_len(bs.len() as nat, 8);
    crate::codec::lemma_be_round_trip(bs.len() as nat, 8);
    assert(d.subrange(q + 1, q + 9) =~= be_bytes(bs.len() as nat, 8)) by {
        assert forall|i: int| 0 <= i < 8 implies d.subrange(q + 1, q + 9)[i] == be_bytes(
            bs.len() as nat,
            8,
        )[i] by {
            assert(d.subrange(q, q + all.len())[1 + i] == all[1 + i]);
        }
    }
    assert(d.subrange(q + 9, q + 9 + body.len()) =~= body) by {
        assert forall|i: int| 0 <= i < body.len() implies d.subrange(q + 9, q + 9 + body.len())[i]
            == body[i] by {
            assert(d.subrange(q, q + all.len())[9 + i] == all[9 + i]);
        }
    }
    assert(d[q] == d.subrange(q, q + all.len())[0]);
    crate::raw::lemma_raw_blocks_round_trip(d, q + 9, bs, k, ds, max);
}

/// Minimizer section round trip: a Minimizer section written as
/// `Kff::write_minimizer` writes it, with a minimizer of `m` nucleotides that
/// each block holds at its offset, reads back as the k-mers of its blocks, in
/// order, and ends right after its bytes.
pub proof fn lemma_minimizer_section_round_trip(
    d: Seq<u8>,
    q: int,
    bs: Seq<Block>,
    vals: Values,
    minimizer: Seq<bool>,
)
    requires
        lookup(vals, "k"@) matches Some(k) && lookup(vals, "m"@) matches Some(m) && lookup(
            vals,
            "max"@,
        ) matches Some(max) && lookup(vals, "data_size"@) matches Some(ds) && max != 0
            && minimizer.len() == 2 * m && crate::minimizer::min_blocks_fit(
            bs,
            k,
            m,
            ds,
            max,
            minimizer,
        ) && 0 <= q && q + 1 + packed(minimizer).len() + 8 + min_blocks_bytes(bs, m, max).len()
            <= d.len() && d.subrange(
            q,
            q + 1 + packed(minimizer).len() + 8 + min_blocks_bytes(bs, m, max).len(),
        ) == seq![tag_minimizer()] + packed(minimizer) + be_bytes(bs.len() as nat, 8)
            + min_blocks_bytes(bs, m, max),
        bs.len() <= u64::MAX,
    ensures
        lookup(vals, "m"@) matches Some(m) && lookup(vals, "max"@) matches Some(max)
            && minimizer_section_at(
            d,
            q,
            values_map(vals),
            blocks_kmers(bs),
            q + 1 + packed(minimizer).len() + 8 + min_blocks_bytes(bs, m, max).len(),
        ),
{
    let k = lookup(vals, "k"@)->Some_0;
    let m = lookup(vals, "m"@)->Some_0;
    let max = lookup(vals, "max"@)->Some_0;
    let ds = lookup(vals, "data_size"@)->Some_0;
    crate::codec::lemma_packed(minimizer);
    let pm = packed(minimizer);
    let mb = pm.len() as int;
    let body = min_blocks_bytes(bs, m, max);
    let all = seq![tag_minimizer()] + pm + be_bytes(bs.len() as nat, 8) + body;
    crate::codec::lemma_pow256_widths();
    crate::codec::lemma_be_bytes_len(bs.len() as nat, 8);
    crate::codec::lemma_be_round_trip(bs.len() as nat, 8);
    assert(d.subrange(q + 1, q + 1 + mb) =~= pm) by {
        assert forall|i: int| 0 <= i < mb implies d.subrange(q + 1, q + 1 + mb)[i] == pm[i] by {
            assert(d.subrange(q, q + all.len())[1 + i] == all[1 + i]);
        }
    }
    crate::codec::lemma_unpack_packed(pm, minimizer);
    assert(section_minimizer(d, q + 1, m) == minimizer);
    assert(d.subrange(q + 1 + mb, q + 1 + mb + 8) =~= be_bytes(bs.len() as nat, 8)) by {
        assert forall|i: int| 0 <= i < 8 implies d.subrange(q + 1 + mb, q + 1 + mb + 8)[i]
            == be_bytes(bs.len() as nat, 8)[i] by {
            assert(d.subrange(q, q + all.len())[1 + mb + i] == all[1 + mb + i]);
        }
    }
    assert(d.subrange(q + 1 + mb + 8, q + 1 + mb + 8 + body.len()) =~= body) by {
        assert forall|i: int| 0 <= i < body.len() implies d.subrange(
            q + 1 + mb + 8,
            q + 1 + mb + 8 + body.len(),
        )[i] == body[i] by {
            assert(d.subrange(q, q + all.len())[1 + mb + 8 + i] == all[1 + mb + 8 + i]);
        }
    }
    assert(d[q] == d.subrange(q, q + all.len())[0]);
    crate::minimizer::lemma_min_blocks_round_trip(d, q + 1 + mb + 8, bs, k, m, ds, max, minimizer);
}

/// The k-mers of a section are fixed by the bytes, the position of its tag
/// and the Values it is read under: any two readings of the section at `q`,
/// by streaming or through the index, give the same k-mers and end at the
/// same place.
pub proof fn lemma_section_kmers_unique(
    d: Seq<u8>,
    q: int,
    vals: Values,
    ks1: Seq<(Seq<bool>, Seq<u8>)>,
    end1: int,
    ks2: Seq<(Seq<bool>, Seq<u8>)>,
    end2: int,
)
    requires
        raw_section_at(d, q, values_map(vals), ks1, end1) || minimizer_section_at(d, q, values_map(vals), ks1, end1),
        raw_section_at(d, q, values_map(vals), ks2, end2) || minimizer_section_at(d, q, values_map(vals), ks2, end2),
    ensures
        ks1 == ks2,
        end1 == end2,
{
}

/// Footer lookup: in a file that ends with a footer written by
/// `Values::write_as_footer` after its tag, then the closing magic number, the
/// `footer_size` read from the 8 bytes before the magic number leads back to
/// the footer's tag.
pub proof fn lemma_footer_found(prefix: Seq<u8>, es: Seq<(Seq<u8>, u64)>)
    requires
        1 + footer_body(es).len() + 8 <= u64::MAX,
    ensures
        ({
            let fs = 1 + footer_body(es).len() + 8;
            let file = prefix.push(tag_values()) + footer_body(es) + be_bytes(fs as nat, 8)
                + magic();
            let len = file.len() as int;
            &&& be_value(file.subrange(len - 11, len - 3)) == fs
            &&& len - 3 - fs == prefix.len()
            &&& file[len - 3 - fs] == tag_values()
        }),
{
    let fs = 1 + footer_body(es).len() + 8;
    let file = prefix.push(tag_values()) + footer_body(es) + be_bytes(fs as nat, 8) + magic();
    let len = file.len() as int;
    crate::codec::lemma_pow256_widths();
    crate::codec::lemma_be_bytes_len(fs as nat, 8);
    crate::codec::lemma_be_round_trip(fs as nat, 8);
    assert(file.subrange(len - 11, len - 3) =~= be_bytes(fs as nat, 8));
    assert(file[prefix.len() as int] == tag_values());
}

/// One step of streaming: see `next_section`.
pub type SectionStep = core::result::Result<
    (Option<(Seq<(Seq<bool>, Seq<u8>)>, int)>, Map<Seq<char>, u64>),
    Option<u8>,
>;

/// The tag byte on which a step of streaming stopped as unknown, if it did.
pub open spec fn unknown_tag(step: SectionStep) -> Option<u8> {
    match step {
        Err(Some(t)) => Some(t),
        _ => None,
    }
}

/// What streaming gives from `p` in `d` under the values `m`, with the values
/// current at its end: the k-mers of the next k-mer section and the position
/// after it (`Ok((Some(..), _))`), or the end of the stream at the closing
/// magic number (`Ok((None, _))`); otherwise an error, on an unknown section
/// tag (`Err(Some(tag))`) or another one (`Err(None)`). Values sections replace
/// the values and Index sections are passed over on the way.
pub open spec fn next_section(d: Seq<u8>, p: int, m: Map<Seq<char>, u64>) -> SectionStep
    decreases d.len() - p,
{
    if p < 0 || p >= d.len() {
        Err(None)
    } else if d[p] == tag_values() {
        if values_section_at(d, p + 1) {
            let es = choose|es: Seq<(Seq<u8>, u64)>| #[trigger] parses_at(d, p + 1, es);
            next_section(d, p + 1 + section_bytes(es).len(), map_of(es))
        } else {
            Err(None)
        }
    } else if d[p] == tag_index() {
        if index_end(d, p + 1) <= d.len() {
            next_section(d, index_end(d, p + 1), m)
        } else {
            Err(None)
        }
    } else if d[p] == tag_raw() {
        match (lookup_in(m, "k"@), lookup_in(m, "max"@), lookup_in(m, "data_size"@)) {
            (Some(k), Some(max), Some(ds)) => {
                let nb = be_value(d.subrange(p + 1, p + 9));
                if max != 0 && p + 9 <= d.len() && !some_raw_block_misfits(
                    d,
                    p + 9,
                    nb,
                    k,
                    ds,
                    max,
                ) {
                    Ok(
                        (
                            Some(
                                (
                                    raw_blocks_kmers(d, p + 9, nb, k, ds, max),
                                    raw_blocks_end(d, p + 9, nb, k, ds, max),
                                ),
                            ),
                            m,
                        ),
                    )
                } else {
                    Err(None)
                }
            },
            _ => Err(None),
        }
    } else if d[p] == tag_minimizer() {
        match (
            lookup_in(m, "k"@),
            lookup_in(m, "m"@),
            lookup_in(m, "max"@),
            lookup_in(m, "data_size"@),
        ) {
            (Some(k), Some(mm), Some(max), Some(ds)) => {
                let mb = bytes_for_bits(2 * mm as nat) as int;
                let nb = be_value(d.subrange(p + 1 + mb, p + 1 + mb + 8));
                if max != 0 && 2 * mm <= usize::MAX && p + 1 + mb + 8 <= d.len()
                    && !some_min_block_misfits(d, p + 1 + mb + 8, nb, k, mm, ds, max) {
                    Ok(
                        (
                            Some(
                                (
                                    min_blocks_kmers(
                                        d,
                                        p + 1 + mb + 8,
                                        nb,
                                        k,
                                        mm,
                                        ds,
                                        max,
                                        section_minimizer(d, p + 1, mm),
                                    ),
                                    min_blocks_end(d, p + 1 + mb + 8, nb, k, mm, ds, max),
                                ),
                            ),
                            m,
                        ),
                    )
                } else {
                    Err(None)
                }
            },
            _ => Err(None),
        }
    } else if d[p] == tag_end() {
        Ok((None, m))
    } else {
        Err(Some(d[p]))
    }
}

/// `a` followed by the items in `rest`, when there are any.
pub open spec fn then_items<A>(a: Seq<A>, rest: Option<Seq<A>>) -> Option<Seq<A>> {
    match rest {
        Some(r) => Some(a + r),
        None => None,
    }
}

/// The k-mers of all the sections that streaming from `p` in `d` under the
/// values `m` reads, in order, up to the closing magic number; None when it
/// stops on an error.
pub open spec fn stream_kmers(d: Seq<u8>, p: int, m: Map<Seq<char>, u64>) -> Option<
    Seq<(Seq<bool>, Seq<u8>)>,
>
    decreases d.len() - p,
{
    match next_section(d, p, m) {
        Ok((Some((ks, end)), m2)) => if p < end <= d.len() {
            then_items(ks, stream_kmers(d, end, m2))
        } else {
            None
        },
        Ok((None, _)) => Some(Seq::empty()),
        Err(_) => None,
    }
}

/// File round trip: a file written as a valid header, a Values section, a Raw
/// section of blocks that fit those values, then the closing magic number,
/// streams after its header, whatever the values were before, as the k-mers
/// of the blocks in order, under the written values; streaming then stops at
/// the magic number. Names that hold a zero byte once encoded are left out:
/// they cannot be read back.
pub proof fn lemma_file_round_trip(
    h: Header,
    m: Map<Seq<char>, u64>,
    es: Seq<(Seq<u8>, u64)>,
    bs: Seq<Block>,
    before: Map<Seq<char>, u64>,
)
    requires
        h.valid(),
        h.spec_free_block().len() <= u32::MAX,
        lists(es, m),
        crate::values::names_ok(es),
        es.len() <= u64::MAX,
        lookup_in(m, "k"@) matches Some(k) && lookup_in(m, "max"@) matches Some(max) && lookup_in(
            m,
            "data_size"@,
        ) matches Some(ds) && max != 0 && blocks_fit(bs, k, ds, max),
        bs.len() <= u64::MAX,
    ensures
        ({
            let max = lookup_in(m, "max"@)->Some_0;
            let d = h.to_bytes() + seq![tag_values()] + section_bytes(es) + seq![tag_raw()]
                + be_bytes(bs.len() as nat, 8) + raw_blocks_bytes(bs, max) + magic();
            &&& next_section(d, h.to_bytes().len() as int, before) == Ok::<_, Option<u8>>(
                (Some((blocks_kmers(bs), d.len() - 3)), m),
            )
            &&& next_section(d, d.len() - 3, m) == Ok::<_, Option<u8>>(
                (None::<(Seq<(Seq<bool>, Seq<u8>)>, int)>, m),
            )
            &&& stream_kmers(d, h.to_bytes().len() as int, before) == Some(blocks_kmers(bs))
        }),
{
    let k = lookup_in(m, "k"@)->Some_0;
    let max = lookup_in(m, "max"@)->Some_0;
    let ds = lookup_in(m, "data_size"@)->Some_0;
    let hb = h.to_bytes();
    let sb = section_bytes(es);
    let rb = raw_blocks_bytes(bs, max);
    let nb = be_bytes(bs.len() as nat, 8);
    let d = hb + seq![tag_values()] + sb + seq![tag_raw()] + nb + rb + magic();
    let p0 = hb.len() as int;
    let p1 = p0 + 1 + sb.len();
    crate::codec::lemma_pow256_widths();
    crate::codec::lemma_be_bytes_len(bs.len() as nat, 8);
    crate::codec::lemma_be_round_trip(bs.len() as nat, 8);
    assert(d[p0] == tag_values());
    assert(d.subrange(p0 + 1, p0 + 1 + sb.len()) =~= sb);
    crate::values::lemma_values_round_trip(d, p0 + 1, es, m);
    let chosen = choose|e: Seq<(Seq<u8>, u64)>| #[trigger] parses_at(d, p0 + 1, e);
    assert(parses_at(d, p0 + 1, es));
    lemma_same_parse(d, p0 + 1, chosen, es);
    crate::values::lemma_map_of_lists(es, m);
    assert(d[p1] == tag_raw());
    assert(d.subrange(p1 + 1, p1 + 9) =~= nb);
    assert(d.subrange(p1 + 9, p1 + 9 + rb.len()) =~= rb);
    crate::raw::lemma_raw_blocks_round_trip(d, p1 + 9, bs, k, ds, max);
    assert(next_section(d, p1, m) == Ok::<_, Option<u8>>(
        (Some((blocks_kmers(bs), d.len() - 3)), m),
    ));
    assert(d[d.len() - 3] == magic()[0]);
    assert(next_section(d, d.len() - 3, m) == Ok::<_, Option<u8>>(
        (None::<(Seq<(Seq<bool>, Seq<u8>)>, int)>, m),
    ));
    assert(stream_kmers(d, d.len() - 3, m) == Some(Seq::<(Seq<bool>, Seq<u8>)>::empty()));
    assert(blocks_kmers(bs) + Seq::<(Seq<bool>, Seq<u8>)>::empty() =~= blocks_kmers(bs));
}

/// Footer round trip: after a Values tag, the footer that `write_as_footer`
/// writes for a map without `footer_size`, followed by the closing magic
/// number, is found by the footer lookup, can be read, and reads back as the
/// map with `footer_size` set to the footer's length, its tag included. Names
/// that hold a zero byte once encoded are left out: they cannot be read back.
pub proof fn lemma_footer_round_trip(prefix: Seq<u8>, es: Seq<(Seq<u8>, u64)>, m: Map<Seq<char>, u64>)
    requires
        lists(es, m),
        crate::values::names_ok(es),
        !m.contains_key("footer_size"@),
        es.len() + 1 <= u64::MAX,
        1 + footer_body(es).len() + 8 <= u64::MAX,
    ensures
        ({
            let fs = 1 + footer_body(es).len() + 8;
            let d = prefix.push(tag_values()) + footer_body(es) + be_bytes(fs as nat, 8) + magic();
            &&& footer_start(d) == prefix.len()
            &&& footer_readable(d)
            &&& values_map_at(d, footer_start(d) + 1) == m.insert("footer_size"@, fs as u64)
        }),
{
    let fs = 1 + footer_body(es).len() + 8;
    let d = prefix.push(tag_values()) + footer_body(es) + be_bytes(fs as nat, 8) + magic();
    lemma_footer_found(prefix, es);
    crate::values::lemma_footer_name();
    let name = crate::values::footer_name();
    let es2 = es.push((name, fs as u64));
    let m2 = m.insert("footer_size"@, fs as u64);
    assert(es2.drop_last() =~= es);
    assert(section_bytes(es2) =~= footer_body(es) + be_bytes(fs as nat, 8));
    let p = prefix.len() as int + 1;
    assert(d.subrange(p, p + section_bytes(es2).len()) =~= section_bytes(es2));
    assert(crate::values::names_ok(es2)) by {
        assert forall|i: int| 0 <= i < es2.len() implies valid_utf8(#[trigger] es2[i].0)
            && !es2[i].0.contains(0u8) by {
            if i < es.len() {
                assert(es2[i] == es[i]);
            }
        }
    }
    assert(lists(es2, m2)) by {
        assert forall|i: int, j: int| 0 <= i < j < es2.len() implies decode_utf8(
            #[trigger] es2[i].0,
        ) != decode_utf8(#[trigger] es2[j].0) by {
            assert(es2[i] == es[i]);
            if j < es.len() {
                assert(es2[j] == es[j]);
            } else {
                assert(m.contains_key(decode_utf8(es[i].0)));
            }
        }
        assert forall|i: int| 0 <= i < es2.len() implies valid_utf8(#[trigger] es2[i].0)
            && m2.contains_key(decode_utf8(es2[i].0)) && m2[decode_utf8(es2[i].0)] == es2[i].1 by {
            if i < es.len() {
                assert(es2[i] == es[i]);
                assert(m.contains_key(decode_utf8(es[i].0)));
            }
        }
        assert forall|key: Seq<char>| #[trigger] m2.contains_key(key) implies exists|i: int|
            0 <= i < es2.len() && decode_utf8(#[trigger] es2[i].0) == key by {
            if key == "footer_size"@ {
                assert(decode_utf8(es2[es.len() as int].0) == key);
            } else {
                assert(m.contains_key(key));
                let i = choose|i: int| 0 <= i < es.len() && decode_utf8(#[trigger] es[i].0) == key;
                assert(es2[i] == es[i]);
            }
        }
    }
    crate::values::lemma_values_round_trip(d, p, es2, m2);
    let chosen = choose|e: Seq<(Seq<u8>, u64)>| #[trigger] parses_at(d, p, e);
    assert(parses_at(d, p, chosen));
}

/// Streaming over a Values section written as `Kff::write_values` writes it
/// replaces the current values by the written ones. Names that hold a zero
/// byte once encoded are left out: they cannot be read back.
pub proof fn lemma_stream_values_step(
    d: Seq<u8>,
    p: int,
    es: Seq<(Seq<u8>, u64)>,
    written: Map<Seq<char>, u64>,
    m: Map<Seq<char>, u64>,
)
    requires
        lists(es, written),
        crate::values::names_ok(es),
        es.len() <= u64::MAX,
        0 <= p,
        p + 1 + section_bytes(es).len() <= d.len(),
        d.subrange(p, p + 1 + section_bytes(es).len()) == seq![tag_values()] + section_bytes(es),
    ensures
        next_section(d, p, m) == next_section(d, p + 1 + section_bytes(es).len(), written),
{
    let sb = section_bytes(es);
    assert(d[p] == d.subrange(p, p + 1 + sb.len())[0]);
    assert(d.subrange(p + 1, p + 1 + sb.len()) =~= sb) by {
        assert forall|i: int| 0 <= i < sb.len() implies d.subrange(p + 1, p + 1 + sb.len())[i]
            == sb[i] by {
            assert(d.subrange(p, p + 1 + sb.len())[1 + i] == sb[i]);
        }
    }
    crate::values::lemma_values_round_trip(d, p + 1, es, written);
    assert(parses_at(d, p + 1, es));
    let chosen = choose|e: Seq<(Seq<u8>, u64)>| #[trigger] parses_at(d, p + 1, e);
    lemma_same_parse(d, p + 1, chosen, es);
    crate::values::lemma_map_of_lists(es, written);
}

/// Streaming passes over an Index section written as `Kff::write_index`
/// writes it.
pub proof fn lemma_stream_index_step(
    d: Seq<u8>,
    p: int,
    pairs: Seq<(u8, i64)>,
    next: i64,
    m: Map<Seq<char>, u64>,
)
    requires
        pairs.len() <= u64::MAX,
        0 <= p,
        p + 1 + index_bytes(pairs, next).len() <= d.len(),
        d.subrange(p, p + 1 + index_bytes(pairs, next).len()) == seq![tag_index()] + index_bytes(
            pairs,
            next,
        ),
    ensures
        next_section(d, p, m) == next_section(d, p + 1 + index_bytes(pairs, next).len(), m),
{
    let ib = index_bytes(pairs, next);
    crate::codec::lemma_pow256_widths();
    crate::codec::lemma_be_bytes_len(pairs.len() as nat, 8);
    crate::codec::lemma_be_bytes_len(crate::emit::i64_bits(next), 8);
    crate::codec::lemma_be_round_trip(pairs.len() as nat, 8);
    crate::index::lemma_pairs_bytes_len(pairs);
    assert(d[p] == d.subrange(p, p + 1 + ib.len())[0]);
    assert(d.subrange(p + 1, p + 9) =~= be_bytes(pairs.len() as nat, 8)) by {
        assert forall|i: int| 0 <= i < 8 implies d.subrange(p + 1, p + 9)[i] == be_bytes(
            pairs.len() as nat,
            8,
        )[i] by {
            assert(d.subrange(p, p + 1 + ib.len())[1 + i] == ib[i]);
        }
    }
    assert(index_end(d, p + 1) == p + 1 + ib.len());
}

/// Streaming over a Raw section written as `Kff::write_raw` writes it, with
/// blocks that fit the current values, gives the k-mers of its blocks, in
/// order, and ends right after its bytes.
pub proof fn lemma_stream_raw_step(d: Seq<u8>, p: int, bs: Seq<Block>, m: Map<Seq<char>, u64>)
    requires
        lookup_in(m, "k"@) matches Some(k) && lookup_in(m, "max"@) matches Some(max) && lookup_in(
            m,
            "data_size"@,
        ) matches Some(ds) && max != 0 && blocks_fit(bs, k, ds, max) && 0 <= p && p + 9
            + raw_blocks_bytes(bs, max).len() <= d.len() && d.subrange(
            p,
            p + 9 + raw_blocks_bytes(bs, max).len(),
        ) == seq![tag_raw()] + be_bytes(bs.len() as nat, 8) + raw_blocks_bytes(bs, max),
        bs.len() <= u64::MAX,
    ensures
        lookup_in(m, "max"@) matches Some(max) && next_section(d, p, m) == Ok::<_, Option<u8>>(
            (Some((blocks_kmers(bs), p + 9 + raw_blocks_bytes(bs, max).len())), m),
        ),
{
    let k = lookup_in(m, "k"@)->Some_0;
    let max = lookup_in(m, "max"@)->Some_0;
    let ds = lookup_in(m, "data_size"@)->Some_0;
    let rb = raw_blocks_bytes(bs, max);
    let nb = be_bytes(bs.len() as nat, 8);
    let all = seq![tag_raw()] + nb + rb;
    crate::codec::lemma_pow256_widths();
    crate::codec::lemma_be_bytes_len(bs.len() as nat, 8);
    crate::codec::lemma_be_round_trip(bs.len() as nat, 8);
    assert(d[p] == d.subrange(p, p + all.len())[0]);
    assert(d.subrange(p + 1, p + 9) =~= nb) by {
        assert forall|i: int| 0 <= i < 8 implies d.subrange(p + 1, p + 9)[i] == nb[i] by {
            assert(d.subrange(p, p + all.len())[1 + i] == all[1 + i]);
        }
    }
    assert(d.subrange(p + 9, p + 9 + rb.len()) =~= rb) by {
        assert forall|i: int| 0 <= i < rb.len() implies d.subrange(p + 9, p + 9 + rb.len())[i]
            == rb[i] by {
            assert(d.subrange(p, p + all.len())[9 + i] == all[9 + i]);
        }
    }
    crate::raw::lemma_raw_blocks_round_trip(d, p + 9, bs, k, ds, max);
}

/// Streaming over a Minimizer section written as `Kff::write_minimizer`
/// writes it, with blocks that fit the current values and hold the minimizer
/// at their offsets, gives the k-mers of its blocks, in order, and ends right
/// after its bytes.
pub proof fn lemma_stream_minimizer_step(
    d: Seq<u8>,
    p: int,
    bs: Seq<Block>,
    minimizer: Seq<bool>,
    m: Map<Seq<char>, u64>,
)
    requires
        lookup_in(m, "k"@) matches Some(k) && lookup_in(m, "m"@) matches Some(mm) && lookup_in(
            m,
            "max"@,
        ) matches Some(max) && lookup_in(m, "data_size"@) matches Some(ds) && max != 0
            && minimizer.len() == 2 * mm && 2 * mm <= usize::MAX
            && crate::minimizer::min_blocks_fit(bs, k, mm, ds, max, minimizer) && 0 <= p && p + 1
            + packed(minimizer).len() + 8 + min_blocks_bytes(bs, mm, max).len() <= d.len()
            && d.subrange(
            p,
            p + 1 + packed(minimizer).len() + 8 + min_blocks_bytes(bs, mm, max).len(),
        ) == seq![tag_minimizer()] + packed(minimizer) + be_bytes(bs.len() as nat, 8)
            + min_blocks_bytes(bs, mm, max),
        bs.len() <= u64::MAX,
    ensures
        lookup_in(m, "m"@) matches Some(mm) && lookup_in(m, "max"@) matches Some(max)
            && next_section(d, p, m) == Ok::<_, Option<u8>>(
            (
                Some(
                    (
                        blocks_kmers(bs),
                        p + 1 + packed(minimizer).len() + 8 + min_blocks_bytes(bs, mm, max).len(),
                    ),
                ),
                m,
            ),
        ),
{
    let k = lookup_in(m, "k"@)->Some_0;
    let mm = lookup_in(m, "m"@)->Some_0;
    let max = lookup_in(m, "max"@)->Some_0;
    let ds = lookup_in(m, "data_size"@)->Some_0;
    crate::codec::lemma_packed(minimizer);
    let pm = packed(minimizer);
    let mb = pm.len() as int;
    let body = min_blocks_bytes(bs, mm, max);
    let nb = be_bytes(bs.len() as nat, 8);
    let all = seq![tag_minimizer()] + pm + nb + body;
    crate::codec::lemma_pow256_widths();
    crate::codec::lemma_be_bytes_len(bs.len() as nat, 8);
    crate::codec::lemma_be_round_trip(bs.len() as nat, 8);
    assert(d[p] == d.subrange(p, p + all.len())[0]);
    assert(d.subrange(p + 1, p + 1 + mb) =~= pm) by {
        assert forall|i: int| 0 <= i < mb implies d.subrange(p + 1, p + 1 + mb)[i] == pm[i] by {
            assert(d.subrange(p, p + all.len())[1 + i] == all[1 + i]);
        }
    }
    crate::codec::lemma_unpack_packed(pm, minimizer);
    assert(section_minimizer(d, p + 1, mm) == minimizer);
    assert(d.subrange(p + 1 + mb, p + 1 + mb + 8) =~= nb) by {
        assert forall|i: int| 0 <= i < 8 implies d.subrange(p + 1 + mb, p + 1 + mb + 8)[i]
            == nb[i] by {
            assert(d.subrange(p, p + all.len())[1 + mb + i] == all[1 + mb + i]);
        }
    }
    assert(d.subrange(p + 1 + mb + 8, p + 1 + mb + 8 + body.len()) =~= body) by {
        assert forall|i: int| 0 <= i < body.len() implies d.subrange(
            p + 1 + mb + 8,
            p + 1 + mb + 8 + body.len(),
        )[i] == body[i] by {
            assert(d.subrange(p, p + all.len())[1 + mb + 8 + i] == all[1 + mb + 8 + i]);
        }
    }
    crate::minimizer::lemma_min_blocks_round_trip(d, p + 1 + mb + 8, bs, k, mm, ds, max, minimizer);
}

/// Streaming stops at the closing magic number written by `Kff::finalize`,
/// with the values then current.
pub proof fn lemma_stream_end(d: Seq<u8>, p: int, m: Map<Seq<char>, u64>)
    requires
        0 <= p,
        p + 3 <= d.len(),
        d.subrange(p, p + 3) == magic(),
    ensures
        next_section(d, p, m) == Ok::<_, Option<u8>>((None::<(Seq<(Seq<bool>, Seq<u8>)>, int)>, m)),
{
    assert(d[p] == d.subrange(p, p + 3)[0]);
}

/// `c` holds a Values section as `Kff::write_values` writes it for the values
/// `written`, whose names hold no zero byte once encoded.
pub open spec fn values_chunk(c: Seq<u8>, written: Map<Seq<char>, u64>) -> bool {
    exists|es: Seq<(Seq<u8>, u64)>|
        #[trigger] lists(es, written) && crate::values::names_ok(es) && es.len() <= u64::MAX
            && c == seq![tag_values()] + section_bytes(es)
}

/// `c` holds an Index section as `Kff::write_index` writes it.
pub open spec fn index_chunk(c: Seq<u8>) -> bool {
    exists|pairs: Seq<(u8, i64)>, next: i64|
        pairs.len() <= u64::MAX && c == seq![tag_index()] + #[trigger] index_bytes(pairs, next)
}

/// `c` holds a Raw section as `Kff::write_raw` writes it, with blocks that fit
/// the values `m` and whose k-mers are `ks`.
pub open spec fn raw_chunk(
    c: Seq<u8>,
    m: Map<Seq<char>, u64>,
    ks: Seq<(Seq<bool>, Seq<u8>)>,
) -> bool {
    exists|bs: Seq<Block>|
        lookup_in(m, "k"@) matches Some(k) && lookup_in(m, "max"@) matches Some(max) && lookup_in(
            m,
            "data_size"@,
        ) matches Some(ds) && max != 0 && blocks_fit(bs, k, ds, max) && bs.len() <= u64::MAX
            && c == seq![tag_raw()] + be_bytes(bs.len() as nat, 8) + raw_blocks_bytes(bs, max)
            && ks == #[trigger] blocks_kmers(bs)
}

/// `c` holds a Minimizer section as `Kff::write_minimizer` writes it, with
/// blocks that fit the values `m`, hold its minimizer at their offsets, and
/// whose k-mers are `ks`.
pub open spec fn minimizer_chunk(
    c: Seq<u8>,
    m: Map<Seq<char>, u64>,
    ks: Seq<(Seq<bool>, Seq<u8>)>,
) -> bool {
    exists|bs: Seq<Block>, mz: Seq<bool>|
        #![trigger blocks_kmers(bs), packed(mz)]
        lookup_in(m, "k"@) matches Some(k) && lookup_in(m, "m"@) matches Some(mm) && lookup_in(
            m,
            "max"@,
        ) matches Some(max) && lookup_in(m, "data_size"@) matches Some(ds) && max != 0
            && mz.len() == 2 * mm && 2 * mm <= usize::MAX && crate::minimizer::min_blocks_fit(
            bs,
            k,
            mm,
            ds,
            max,
            mz,
        ) && bs.len() <= u64::MAX && c == seq![tag_minimizer()] + packed(mz) + be_bytes(
            bs.len() as nat,
            8,
        ) + min_blocks_bytes(bs, mm, max) && ks == blocks_kmers(bs)
}

/// `c` holds a section as a writer operation writes it under the values `m`:
/// streaming over it gives the k-mers `ks` and leaves the values `m2`.
#[verifier::opaque]
pub open spec fn written_section(
    c: Seq<u8>,
    m: Map<Seq<char>, u64>,
    ks: Seq<(Seq<bool>, Seq<u8>)>,
    m2: Map<Seq<char>, u64>,
) -> bool {
    ||| values_chunk(c, m2) && ks.len() == 0
    ||| index_chunk(c) && ks.len() == 0 && m2 == m
    ||| raw_chunk(c, m, ks) && m2 == m
    ||| minimizer_chunk(c, m, ks) && m2 == m
}

/// The bytes of `cs`, one after the other.
pub open spec fn concat_chunks(cs: Seq<Seq<u8>>) -> Seq<u8>
    decreases cs.len(),
{
    if cs.len() == 0 {
        Seq::empty()
    } else {
        cs[0] + concat_chunks(cs.drop_first())
    }
}

/// The items of `kss`, one list after the other.
pub open spec fn flatten_kmers(kss: Seq<Seq<(Seq<bool>, Seq<u8>)>>) -> Seq<(Seq<bool>, Seq<u8>)>
    decreases kss.len(),
{
    if kss.len() == 0 {
        Seq::empty()
    } else {
        kss[0] + flatten_kmers(kss.drop_first())
    }
}

proof fn lemma_values_chunk_step(d: Seq<u8>, p: int, c: Seq<u8>, m: Map<Seq<char>, u64>, m2: Map<Seq<char>, u64>)
    requires
        values_chunk(c, m2),
        0 <= p,
        p + c.len() <= d.len(),
        d.subrange(p, p + c.len()) == c,
    ensures
        c.len() > 0,
        next_section(d, p, m) == next_section(d, p + c.len(), m2),
{
    let es = choose|es: Seq<(Seq<u8>, u64)>|
        #[trigger] lists(es, m2) && crate::values::names_ok(es) && es.len() <= u64::MAX && c
            == seq![tag_values()] + section_bytes(es);
    lemma_stream_values_step(d, p, es, m2, m);
}

proof fn lemma_index_chunk_step(d: Seq<u8>, p: int, c: Seq<u8>, m: Map<Seq<char>, u64>)
    requires
        index_chunk(c),
        0 <= p,
        p + c.len() <= d.len(),
        d.subrange(p, p + c.len()) == c,
    ensures
        c.len() > 0,
        next_section(d, p, m) == next_section(d, p + c.len(), m),
{
    let (pairs, next) = choose|pairs: Seq<(u8, i64)>, next: i64|
        pairs.len() <= u64::MAX && c == seq![tag_index()] + #[trigger] index_bytes(pairs, next);
    lemma_stream_index_step(d, p, pairs, next, m);
}

proof fn lemma_raw_chunk_step(d: Seq<u8>, p: int, c: Seq<u8>, m: Map<Seq<char>, u64>, ks: Seq<(Seq<bool>, Seq<u8>)>)
    requires
        raw_chunk(c, m, ks),
        0 <= p,
        p + c.len() <= d.len(),
        d.subrange(p, p + c.len()) == c,
    ensures
        c.len() > 0,
        c[0] == tag_raw(),
        next_section(d, p, m) == Ok::<_, Option<u8>>((Some((ks, p + c.len())), m)),
{
    let bs = choose|bs: Seq<Block>|
        lookup_in(m, "k"@) matches Some(k) && lookup_in(m, "max"@) matches Some(max) && lookup_in(
            m,
            "data_size"@,
        ) matches Some(ds) && max != 0 && blocks_fit(bs, k, ds, max) && bs.len() <= u64::MAX
            && c == seq![tag_raw()] + be_bytes(bs.len() as nat, 8) + raw_blocks_bytes(
            bs,
            lookup_in(m, "max"@)->Some_0,
        ) && ks == #[trigger] blocks_kmers(bs);
    crate::codec::lemma_be_bytes_len(bs.len() as nat, 8);
    lemma_stream_raw_step(d, p, bs, m);
}

proof fn lemma_minimizer_chunk_step(d: Seq<u8>, p: int, c: Seq<u8>, m: Map<Seq<char>, u64>, ks: Seq<(Seq<bool>, Seq<u8>)>)
    requires
        minimizer_chunk(c, m, ks),
        0 <= p,
        p + c.len() <= d.len(),
        d.subrange(p, p + c.len()) == c,
    ensures
        c.len() > 0,
        c[0] == tag_minimizer(),
        next_section(d, p, m) == Ok::<_, Option<u8>>((Some((ks, p + c.len())), m)),
{
    let (bs, mz) = choose|bs: Seq<Block>, mz: Seq<bool>|
        #![trigger blocks_kmers(bs), packed(mz)]
        lookup_in(m, "k"@) matches Some(k) && lookup_in(m, "m"@) matches Some(mm) && lookup_in(
            m,
            "max"@,
        ) matches Some(max) && lookup_in(m, "data_size"@) matches Some(ds) && max != 0
            && mz.len() == 2 * mm && 2 * mm <= usize::MAX && crate::minimizer::min_blocks_fit(
            bs,
            k,
            mm,
            ds,
            max,
            mz,
        ) && bs.len() <= u64::MAX && c == seq![tag_minimizer()] + packed(mz) + be_bytes(
            bs.len() as nat,
            8,
        ) + min_blocks_bytes(bs, mm, max) && ks == blocks_kmers(bs);
    crate::codec::lemma_be_bytes_len(bs.len() as nat, 8);
    lemma_stream_minimizer_step(d, p, bs, mz, m);
}

/// Streaming over one written section: it either passes over it to the
/// same result as from its end, giving no k-mers, or stops at its end with its
/// k-mers.
pub open spec fn section_streams(
    d: Seq<u8>,
    p: int,
    c: Seq<u8>,
    m: Map<Seq<char>, u64>,
    ks: Seq<(Seq<bool>, Seq<u8>)>,
    m2: Map<Seq<char>, u64>,
) -> bool {
    ||| ks.len() == 0 && next_section(d, p, m) == next_section(d, p + c.len(), m2)
    ||| next_section(d, p, m) == Ok::<_, Option<u8>>((Some((ks, p + c.len())), m2))
}

proof fn lemma_section_step(d: Seq<u8>, p: int, c: Seq<u8>, m: Map<Seq<char>, u64>, ks: Seq<(Seq<bool>, Seq<u8>)>, m2: Map<Seq<char>, u64>)
    requires
        written_section(c, m, ks, m2),
        0 <= p,
        p + c.len() <= d.len(),
        d.subrange(p, p + c.len()) == c,
    ensures
        c.len() > 0,
        section_streams(d, p, c, m, ks, m2),
{
    reveal(written_section);
    if values_chunk(c, m2) && ks.len() == 0 {
        lemma_values_chunk_step(d, p, c, m, m2);
    } else if index_chunk(c) && ks.len() == 0 && m2 == m {
        lemma_index_chunk_step(d, p, c, m);
    } else if raw_chunk(c, m, ks) && m2 == m {
        lemma_raw_chunk_step(d, p, c, m, ks);
    } else {
        lemma_minimizer_chunk_step(d, p, c, m, ks);
    }
}

/// File round trip: after the header, a file whose sections are written by
/// writer operations, one after the other, each under the values the ones
/// before leave (`ms[i]` before section `i`, `ms[i + 1]` after it), then the
/// closing magic number, streams as the k-mers of its sections in order; and
/// at the magic number streaming stops with the values the last section
/// left. Names that hold a zero byte once encoded are left out: they cannot be
/// read back.
pub proof fn lemma_stream_written_file(
    d: Seq<u8>,
    p: int,
    cs: Seq<Seq<u8>>,
    ms: Seq<Map<Seq<char>, u64>>,
    kss: Seq<Seq<(Seq<bool>, Seq<u8>)>>,
)
    requires
        ms.len() == cs.len() + 1,
        kss.len() == cs.len(),
        forall|i: int| 0 <= i < cs.len() ==> written_section(#[trigger] cs[i], ms[i], kss[i], ms[i + 1]),
        0 <= p,
        p + concat_chunks(cs).len() + 3 <= d.len(),
        d.subrange(p, p + concat_chunks(cs).len() + 3) == concat_chunks(cs) + magic(),
    ensures
        stream_kmers(d, p, ms[0]) == Some(flatten_kmers(kss)),
        next_section(d, p + concat_chunks(cs).len(), ms[cs.len() as int]) == Ok::<_, Option<u8>>(
            (None::<(Seq<(Seq<bool>, Seq<u8>)>, int)>, ms[cs.len() as int]),
        ),
    decreases cs.len(),
{
    let all = concat_chunks(cs) + magic();
    if cs.len() == 0 {
        assert(d.subrange(p, p + 3) =~= magic());
        lemma_stream_end(d, p, ms[0]);
    } else {
        let c = cs[0];
        let rest = cs.drop_first();
        let q = p + c.len();
        assert(concat_chunks(cs) == c + concat_chunks(rest));
        assert(d.subrange(p, q) =~= c) by {
            assert forall|i: int| 0 <= i < c.len() implies d.subrange(p, q)[i] == c[i] by {
                assert(d.subrange(p, p + all.len())[i] == all[i]);
            }
        }
        let all2 = concat_chunks(rest) + magic();
        assert(d.subrange(q, q + concat_chunks(rest).len() + 3) =~= all2) by {
            assert forall|i: int| 0 <= i < all2.len() implies d.subrange(
                q,
                q + concat_chunks(rest).len() + 3,
            )[i] == all2[i] by {
                assert(d.subrange(p, p + all.len())[c.len() + i] == all[c.len() + i]);
            }
        }
        assert forall|i: int| 0 <= i < rest.len() implies written_section(
            #[trigger] rest[i],
            ms.drop_first()[i],
            kss.drop_first()[i],
            ms.drop_first()[i + 1],
        ) by {
            assert(rest[i] == cs[i + 1]);
            assert(written_section(cs[i + 1], ms[i + 1], kss[i + 1], ms[i + 2]));
        }
        lemma_stream_written_file(d, q, rest, ms.drop_first(), kss.drop_first());
        assert(written_section(cs[0], ms[0], kss[0], ms[1]));
        lemma_section_step(d, p, c, ms[0], kss[0], ms[1]);
        assert(concat_chunks(cs).len() == c.len() + concat_chunks(rest).len());
        assert(flatten_kmers(kss) == kss[0] + flatten_kmers(kss.drop_first()));
        if kss[0].len() == 0 {
            assert(kss[0] + flatten_kmers(kss.drop_first()) =~= flatten_kmers(kss.drop_first()));
        }
    }
}

/// Position of the `j`-th of the sections `cs` written from `p`.
pub open spec fn chunk_start(p: int, cs: Seq<Seq<u8>>, j: int) -> int {
    p + concat_chunks(cs.take(j)).len()
}

proof fn lemma_chunk_at(d: Seq<u8>, p: int, cs: Seq<Seq<u8>>, j: int)
    requires
        0 <= j < cs.len(),
        0 <= p,
        p + concat_chunks(cs).len() <= d.len(),
        d.subrange(p, p + concat_chunks(cs).len()) == concat_chunks(cs),
    ensures
        chunk_start(p, cs, j) + cs[j].len() <= d.len(),
        d.subrange(chunk_start(p, cs, j), chunk_start(p, cs, j) + cs[j].len()) == cs[j],
        chunk_start(p, cs, j + 1) == chunk_start(p, cs, j) + cs[j].len(),
    decreases j,
{
    let all = concat_chunks(cs);
    let rest = cs.drop_first();
    let c0 = cs[0];
    assert(all == c0 + concat_chunks(rest));
    assert(cs.take(1).drop_first() =~= Seq::<Seq<u8>>::empty());
    assert(concat_chunks(cs.take(1)) == cs.take(1)[0] + concat_chunks(cs.take(1).drop_first()));
    assert(concat_chunks(cs.take(1)) =~= c0);
    if j == 0 {
        assert(cs.take(0) =~= Seq::<Seq<u8>>::empty());
        assert(d.subrange(p, p + c0.len()) =~= c0) by {
            assert forall|i: int| 0 <= i < c0.len() implies d.subrange(p, p + c0.len())[i] == c0[i] by {
                assert(d.subrange(p, p + all.len())[i] == all[i]);
            }
        }
    } else {
        let q = p + c0.len();
        assert(d.subrange(q, q + concat_chunks(rest).len()) =~= concat_chunks(rest)) by {
            assert forall|i: int| 0 <= i < concat_chunks(rest).len() implies d.subrange(
                q,
                q + concat_chunks(rest).len(),
            )[i] == concat_chunks(rest)[i] by {
                assert(d.subrange(p, p + all.len())[c0.len() + i] == all[c0.len() + i]);
            }
        }
        lemma_chunk_at(d, q, rest, j - 1);
        assert(rest[j - 1] == cs[j]);
        assert(cs.take(j).drop_first() =~= rest.take(j - 1));
        assert(cs.take(j + 1).drop_first() =~= rest.take(j));
        assert(concat_chunks(cs.take(j)) == c0 + concat_chunks(rest.take(j - 1)));
        assert(concat_chunks(cs.take(j + 1)) == c0 + concat_chunks(rest.take(j)));
    }
}

/// Random access agrees with streaming: in a file whose sections are written
/// one after the other, when a Values section `i` left the values in force at
/// a k-mer section `j`, the Values section body after `i`'s tag can be read and
/// gives those values, the tag at `j` is a k-mer section's, and reading the
/// section there under those values gives the k-mers `kss[j]` that streaming
/// gives for it, ending where the next section starts. This is what
/// `kmer_of_section` reads when the index lists `i` and `j` at these positions.
pub proof fn lemma_random_access_written(
    d: Seq<u8>,
    p: int,
    cs: Seq<Seq<u8>>,
    ms: Seq<Map<Seq<char>, u64>>,
    kss: Seq<Seq<(Seq<bool>, Seq<u8>)>>,
    i: int,
    j: int,
)
    requires
        0 <= i < j < cs.len(),
        ms.len() == cs.len() + 1,
        kss.len() == cs.len(),
        values_chunk(cs[i], ms[i + 1]),
        ms[i + 1] == ms[j],
        raw_chunk(cs[j], ms[j], kss[j]) || minimizer_chunk(cs[j], ms[j], kss[j]),
        0 <= p,
        p + concat_chunks(cs).len() <= d.len(),
        d.subrange(p, p + concat_chunks(cs).len()) == concat_chunks(cs),
    ensures
        ({
            let v = chunk_start(p, cs, i);
            let t = chunk_start(p, cs, j);
            &&& values_section_at(d, v + 1)
            &&& values_map_at(d, v + 1) == ms[j]
            &&& d[t] == tag_raw() || d[t] == tag_minimizer()
            &&& next_section(d, t, ms[j]) == Ok::<_, Option<u8>>(
                (Some((kss[j], chunk_start(p, cs, j + 1))), ms[j]),
            )
        }),
{
    let v = chunk_start(p, cs, i);
    let t = chunk_start(p, cs, j);
    lemma_chunk_at(d, p, cs, i);
    lemma_chunk_at(d, p, cs, j);
    let c = cs[i];
    let es = choose|es: Seq<(Seq<u8>, u64)>|
        #[trigger] lists(es, ms[i + 1]) && crate::values::names_ok(es) && es.len() <= u64::MAX && c
            == seq![tag_values()] + section_bytes(es);
    let sb = section_bytes(es);
    assert(d.subrange(v + 1, v + 1 + sb.len()) =~= sb) by {
        assert forall|k: int| 0 <= k < sb.len() implies d.subrange(v + 1, v + 1 + sb.len())[k]
            == sb[k] by {
            assert(d.subrange(v, v + c.len())[1 + k] == c[1 + k]);
        }
    }
    crate::values::lemma_values_round_trip(d, v + 1, es, ms[i + 1]);
    let chosen = choose|e: Seq<(Seq<u8>, u64)>| #[trigger] parses_at(d, v + 1, e);
    assert(parses_at(d, v + 1, chosen));
    if raw_chunk(cs[j], ms[j], kss[j]) {
        lemma_raw_chunk_step(d, t, cs[j], ms[j], kss[j]);
    } else {
        lemma_minimizer_chunk_step(d, t, cs[j], ms[j], kss[j]);
    }
    assert(d[t] == d.subrange(t, t + cs[j].len())[0]);
}

/// A KFF file: the bytes it is read from, the bytes written to it, its header,
/// the current Values and, once built, its global index.
pub struct Kff {
    pub(crate) input: ByteReader,
    pub(crate) output: Vec<u8>,
    pub(crate) header: Header,
    pub(crate) values: Values,
    pub(crate) index: Option<GlobalIndex>,
}

impl Kff {
    /// The bytes read from.
    pub open(crate) spec fn data(&self) -> Seq<u8> {
        self.input.bytes()
    }

    /// The read position.
    pub open(crate) spec fn pos(&self) -> int {
        self.input.pos()
    }

    /// The bytes written so far.
    pub open(crate) spec fn written(&self) -> Seq<u8> {
        self.output@
    }

    pub open(crate) spec fn spec_header(&self) -> Header {
        self.header
    }

    pub open(crate) spec fn spec_values(&self) -> Values {
        self.values
    }

    pub open(crate) spec fn spec_index(&self) -> Option<GlobalIndex> {
        self.index
    }

    /// Open the file in `inner`: read its header; the Values start empty.
    pub fn read(inner: Vec<u8>) -> (r: Result<Kff>)
        ensures
            match r {
                Ok(f) => {
                    &&& f.data() == inner@
                    &&& Header::read_from(f.spec_header(), inner@, 0)
                    &&& f.pos() == 12 + be_value(inner@.subrange(8, 12))
                    &&& values_map(f.spec_values()) == Map::<Seq<char>, u64>::empty()
                    &&& f.spec_index() is None
                    &&& f.written() == Seq::<u8>::empty()
                },
                Err(e) => Header::read_error(inner@, 0, e),
            },
    {
        let mut input = ByteReader::new(inner);
        let header = Header::read(&mut input)?;
        Ok(Kff { input, output: Vec::new(), header, values: Values::new(), index: None })
    }

    /// The header.
    pub fn header(&self) -> (r: &Header)
        ensures
            *r == self.spec_header(),
    {
        &self.header
    }

    /// The current Values.
    pub fn values(&self) -> (r: &Values)
        ensures
            *r == self.spec_values(),
    {
        &self.values
    }

    /// The global index, if built.
    pub fn index(&self) -> (r: &Option<GlobalIndex>)
        ensures
            *r == self.spec_index(),
    {
        &self.index
    }

    /// Replace the header.
    pub fn set_header(&mut self, header: Header)
        ensures
            final(self).spec_header() == header,
            final(self).data() == old(self).data(),
            final(self).pos() == old(self).pos(),
            final(self).written() == old(self).written(),
            final(self).spec_values() == old(self).spec_values(),
    {
        self.header = header;
    }

    /// Replace the current Values.
    pub fn set_values(&mut self, values: Values)
        ensures
            final(self).spec_values() == values,
            final(self).data() == old(self).data(),
            final(self).pos() == old(self).pos(),
            final(self).written() == old(self).written(),
            final(self).spec_header() == old(self).spec_header(),
    {
        self.values = values;
    }

    /// Move the read position to `pos` (or to the end, when beyond it); the new
    /// position comes back.
    pub fn seek(&mut self, pos: usize) -> (r: usize)
        ensures
            final(self).data() == old(self).data(),
            final(self).pos() == r,
            r == if pos <= old(self).data().len() {
                pos as int
            } else {
                old(self).data().len() as int
            },
            final(self).spec_values() == old(self).spec_values(),
            final(self).spec_header() == old(self).spec_header(),
    {
        self.input.seek(pos);
        self.input.position()
    }

    /// Read sections up to the next k-mer section and return its k-mers:
    /// Values sections replace the current Values, Index sections are read
    /// over, and the first byte of the closing magic number ends the stream.
    pub fn next_kmer_section(&mut self) -> (r: Option<Result<Vec<Kmer>>>)
        ensures
            final(self).data() == old(self).data(),
            final(self).spec_header() == old(self).spec_header(),
            final(self).written() == old(self).written(),
            r matches Some(Ok(_)) ==> old(self).pos() < final(self).pos(),
            match r {
                None => old(self).pos() < final(self).pos() && old(self).data()[final(self).pos()
                    - 1] == tag_end() && next_section(
                    old(self).data(),
                    old(self).pos(),
                    values_map(old(self).spec_values()),
                ) == Ok::<_, Option<u8>>(
                    (
                        None::<(Seq<(Seq<bool>, Seq<u8>)>, int)>,
                        values_map(final(self).spec_values()),
                    ),
                ),
                Some(Ok(ks)) => kmer_section_after(
                    old(self).data(),
                    old(self).pos(),
                    values_map(final(self).spec_values()),
                    kmer_views(ks@),
                    final(self).pos(),
                ) && next_section(
                    old(self).data(),
                    old(self).pos(),
                    values_map(old(self).spec_values()),
                ) == Ok::<_, Option<u8>>(
                    (
                        Some((kmer_views(ks@), final(self).pos())),
                        values_map(final(self).spec_values()),
                    ),
                ),
                Some(Err(e)) => next_section(
                    old(self).data(),
                    old(self).pos(),
                    values_map(old(self).spec_values()),
                ) is Err && (unknown_tag(
                    next_section(old(self).data(), old(self).pos(), values_map(old(self).spec_values())),
                ) is Some ==> e == Error::Kff(
                    KffError::NotASectionPrefix(
                        unknown_tag(
                            next_section(
                                old(self).data(),
                                old(self).pos(),
                                values_map(old(self).spec_values()),
                            ),
                        )->Some_0,
                    ),
                )) && match e {
                    Error::Kff(KffError::NotASectionPrefix(t)) => {
                        &&& t != tag_values() && t != tag_raw() && t != tag_minimizer() && t
                            != tag_index() && t != tag_end()
                        &&& old(self).pos() < final(self).pos()
                        &&& old(self).data()[final(self).pos() - 1] == t
                    },
                    Error::Kff(KffError::FieldIsMissing(_)) => true,
                    Error::Kff(KffError::MaxValueIsTooLarge(v)) => v == 0,
                    Error::Kff(KffError::MinimizerOffsetOutOfRange(_)) => true,
                    Error::UnexpectedEof => true,
                    Error::FromUtf8(_) => true,
                    _ => false,
                },
            },
    {
        // The read position lies within the stream.
        let _start: usize = self.input.position();
        let ghost d0 = self.input.bytes();
        let ghost p0 = self.input.pos();
        let ghost m0 = values_map(self.values);
        loop
            invariant
                m0 == values_map(old(self).spec_values()),
                next_section(d0, p0, m0) == next_section(d0, self.input.pos(), values_map(self.values)),
                d0 == old(self).data(),
                p0 == old(self).pos(),
                p0 <= self.input.pos(),
                self.input.bytes() == d0,
                self.header == old(self).spec_header(),
                self.output@ == old(self).written(),
                old(self).pos() <= self.input.pos() <= self.input.bytes().len(),
            decreases self.input.bytes().len() - self.input.pos(),
        {
            let _at: usize = self.input.position();
            let ghost q = self.input.pos();
            let tag = match self.input.read_u8() {
                Ok(t) => t,
                Err(e) => {
                    return Some(Err(e));
                },
            };
            if tag == 118u8 {
                match Values::read(&mut self.input) {
                    Ok(v) => {
                        proof {
                            let es = choose|es: Seq<(Seq<u8>, u64)>|
                                {
                                    &&& #[trigger] parses_at(d0, q + 1, es)
                                    &&& self.input.pos() == q + 1 + section_bytes(es).len()
                                    &&& values_map(v) == map_of(es)
                                };
                            let chosen = choose|es: Seq<(Seq<u8>, u64)>| #[trigger]
                                parses_at(d0, q + 1, es);
                            lemma_same_parse(d0, q + 1, es, chosen);
                        }
                        self.values = v;
                    },
                    Err(e) => {
                        return Some(Err(e));
                    },
                }
            } else if tag == 114u8 {
                match Raw::new(&self.values) {
                    Ok(section) => {
                        let res = section.read(&mut self.input);
                        proof {
                            assert(res is Ok ==> raw_section_at(
                                d0,
                                q,
                                values_map(self.values),
                                kmer_views(res->Ok_0@),
                                self.input.pos(),
                            ));
                            assert(res is Ok ==> kmer_section_after(
                                d0,
                                p0,
                                values_map(self.values),
                                kmer_views(res->Ok_0@),
                                self.input.pos(),
                            ));
                        }
                        return Some(res);
                    },
                    Err(e) => {
                        return Some(Err(e));
                    },
                }
            } else if tag == 109u8 {
                match Minimizer::new(&self.values) {
                    Ok(section) => {
                        let res = section.read(&mut self.input);
                        proof {
                            assert(res is Ok ==> minimizer_section_at(
                                d0,
                                q,
                                values_map(self.values),
                                kmer_views(res->Ok_0@),
                                self.input.pos(),
                            ));
                            assert(res is Ok ==> kmer_section_after(
                                d0,
                                p0,
                                values_map(self.values),
                                kmer_views(res->Ok_0@),
                                self.input.pos(),
                            ));
                        }
                        return Some(res);
                    },
                    Err(e) => {
                        return Some(Err(e));
                    },
                }
            } else if tag == 75u8 {
                return None;
            } else if tag == 105u8 {
                match Index::read(&mut self.input) {
                    Ok(_) => {},
                    Err(e) => {
                        return Some(Err(e));
                    },
                }
            } else {
                return Some(Err(Error::Kff(KffError::NotASectionPrefix(tag))));
            }
        }
    }

    /// The k-mers of all the sections that remain, in order, up to the closing
    /// magic number. On an error nothing is returned but the error; to keep
    /// the k-mers of the sections read before it, step with
    /// `next_kmer_section`, which returns them one section at a time.
    pub fn kmers(&mut self) -> (r: Result<Vec<Kmer>>)
        ensures
            final(self).data() == old(self).data(),
            final(self).spec_header() == old(self).spec_header(),
            final(self).written() == old(self).written(),
            match r {
                Ok(all) => {
                    &&& stream_kmers(
                        old(self).data(),
                        old(self).pos(),
                        values_map(old(self).spec_values()),
                    ) == Some(kmer_views(all@))
                    &&& old(self).pos() < final(self).pos()
                    &&& old(self).data()[final(self).pos() - 1] == tag_end()
                },
                Err(_) => stream_kmers(
                    old(self).data(),
                    old(self).pos(),
                    values_map(old(self).spec_values()),
                ) is None,
            },
    {
        // The read position lies within the stream.
        let _start: usize = self.input.position();
        let ghost d0 = self.input.bytes();
        let ghost p0 = self.input.pos();
        let ghost m0 = values_map(self.values);
        let mut out: Vec<Kmer> = Vec::new();
        loop
            invariant
                d0 == old(self).data(),
                p0 == old(self).pos(),
                m0 == values_map(old(self).spec_values()),
                self.input.bytes() == d0,
                self.header == old(self).spec_header(),
                self.output@ == old(self).written(),
                p0 <= self.input.pos() <= self.input.bytes().len(),
                stream_kmers(d0, p0, m0) == then_items(
                    kmer_views(out@),
                    stream_kmers(d0, self.input.pos(), values_map(self.values)),
                ),
            decreases self.input.bytes().len() - self.input.pos(),
        {
            let _at: usize = self.input.position();
            let ghost before = out@;
            match self.next_kmer_section() {
                None => {
                    proof {
                        assert(kmer_views(out@) + Seq::<(Seq<bool>, Seq<u8>)>::empty() =~= kmer_views(
                            out@,
                        ));
                    }
                    return Ok(out);
                },
                Some(Ok(ks)) => {
                    let ghost added = ks@;
                    let mut ks = ks;
                    out.append(&mut ks);
                    let _now: usize = self.input.position();
                    proof {
                        assert(kmer_views(out@) =~= kmer_views(before) + kmer_views(added));
                        let rest = stream_kmers(d0, self.input.pos(), values_map(self.values));
                        if rest is Some {
                            assert(kmer_views(before) + (kmer_views(added) + rest->Some_0)
                                =~= kmer_views(out@) + rest->Some_0);
                        }
                    }
                },
                Some(Err(e)) => {
                    return Err(e);
                },
            }
        }
    }

    /// Check that the bytes begin and end with the magic number "KFF".
    pub fn check(&self) -> (r: Result<bool>)
        ensures
            match r {
                Ok(b) => b && self.data().len() >= 3 && self.data().subrange(0, 3) == magic()
                    && self.data().subrange(self.data().len() - 3, self.data().len() as int)
                    == magic(),
                Err(e) => {
                    let d = self.data();
                    if d.len() < 3 {
                        e is UnexpectedEof
                    } else if d.subrange(0, 3) != magic() {
                        e matches Error::Kff(KffError::MissingMagic(s)) && s@ == "start"@
                    } else {
                        d.subrange(d.len() - 3, d.len() as int) != magic() && (e matches Error::Kff(
                            KffError::MissingMagic(s),
                        ) && s@ == "end"@)
                    }
                },
            },
    {
        let d = &self.input.data;
        let len = d.len();
        if len < 3 {
            return Err(Error::UnexpectedEof);
        }
        if !(d[0] == 75u8 && d[1] == 70u8 && d[2] == 70u8) {
            proof {
                if d@.subrange(0, 3) == magic() {
                    assert(d@.subrange(0, 3)[0] == 75u8);
                    assert(d@.subrange(0, 3)[1] == 70u8);
                }
            }
            return Err(Error::Kff(KffError::MissingMagic("start".to_owned())));
        }
        assert(d@.subrange(0, 3) =~= magic());
        if !(d[len - 3] == 75u8 && d[len - 2] == 70u8 && d[len - 1] == 70u8) {
            proof {
                let e = d@.subrange(len - 3, len as int);
                if e == magic() {
                    assert(e[0] == 75u8);
                    assert(e[1] == 70u8);
                    assert(e[2] == 70u8);
                }
            }
            return Err(Error::Kff(KffError::MissingMagic("end".to_owned())));
        }
        assert(d@.subrange(0, 3) =~= magic());
        assert(d@.subrange(len - 3, len as int) =~= magic());
        Ok(true)
    }

    /// Read the footer: the Values section whose tag lies `footer_size + 3`
    /// bytes before the end, `footer_size` being read from the 8 bytes that
    /// precede the closing magic number.
    pub fn load_footer(&mut self) -> (r: Result<Values>)
        ensures
            final(self).data() == old(self).data(),
            final(self).spec_header() == old(self).spec_header(),
            final(self).written() == old(self).written(),
            ({
                let d = old(self).data();
                let len = d.len() as int;
                let fs = be_value(d.subrange(len - 11, len - 3));
                let start = len - 3 - fs;
                match r {
                    Ok(v) => {
                        &&& footer_readable(d)
                        &&& values_map(v) == values_map_at(d, start + 1)
                    },
                    Err(e) => {
                        &&& !footer_readable(d)
                        &&& {
                            ||| (len < 11 || start < 0) && e is UnexpectedEof
                            ||| len >= 11 && 0 <= start && d[start] != tag_values() && e
                                == Error::Kff(KffError::FooterSizeNotCorrect)
                            ||| len >= 11 && 0 <= start && d[start] == tag_values() && (
                            e is UnexpectedEof || e is FromUtf8)
                        }
                    },
                }
            }),
    {
        let len = self.input.len();
        if len < 11 {
            return Err(Error::UnexpectedEof);
        }
        let footer_size = crate::codec::be_read(self.input.data.as_slice(), len - 11, 8);
        if footer_size > (len - 3) as u64 {
            return Err(Error::UnexpectedEof);
        }
        let start = len - 3 - footer_size as usize;
        if self.input.data[start] != 118u8 {
            return Err(Error::Kff(KffError::FooterSizeNotCorrect));
        }
        self.input.seek(start + 1);
        let ghost d0 = self.input.bytes();
        let r = Values::read(&mut self.input);
        proof {
            if r is Ok {
                let v = r->Ok_0;
                let es = choose|es: Seq<(Seq<u8>, u64)>|
                    {
                        &&& #[trigger] parses_at(d0, start + 1, es)
                        &&& values_map(v) == map_of(es)
                    };
                let chosen = choose|es: Seq<(Seq<u8>, u64)>| #[trigger] parses_at(d0, start + 1, es);
                lemma_same_parse(d0, start + 1, es, chosen);
            }
        }
        r
    }

    /// Open the file in `inner` and build its global index: from an Index
    /// section right after the header, or else from the `first_index` of the
    /// footer. The read position is left after the header.
    pub fn with_index(inner: Vec<u8>) -> (r: Result<Kff>)
        ensures
            ({
                let q = 12 + be_value(inner@.subrange(8, 12)) as int;
                match r {
                    Ok(f) => {
                        &&& f.data() == inner@
                        &&& Header::read_from(f.spec_header(), inner@, 0)
                        &&& f.pos() == q
                        &&& f.written() == Seq::<u8>::empty()
                        &&& index_chain(inner@, q) is Some
                        &&& f.spec_index() matches Some(g) && sorted_by_offset(g.spec_pairs())
                            && g.spec_pairs().to_multiset() == index_chain(
                            inner@,
                            q,
                        )->Some_0.to_multiset()
                    },
                    Err(e) => Header::read_error(inner@, 0, e) || index_chain(inner@, q) is None,
                }
            }),
    {
        let mut f = Kff::read(inner)?;
        let pos = f.input.position();
        let len = f.input.len();
        let first = if pos < len && f.input.data[pos] == 105u8 {
            pos as u64
        } else {
            let footer = f.load_footer()?;
            match footer.get("first_index") {
                Some(first) => first,
                None => {
                    return Err(Error::Kff(KffError::NoFirstIndex));
                },
            }
        };
        let index = GlobalIndex::new(&mut f.input, first)?;
        f.input.seek(pos);
        f.index = Some(index);
        Ok(f)
    }

    /// The k-mers of the `n`-th section of the global index, read under the
    /// Values of the last Values section indexed before it.
    pub fn kmer_of_section(&mut self, n: usize) -> (r: Result<Vec<Kmer>>)
        ensures
            final(self).data() == old(self).data(),
            final(self).spec_header() == old(self).spec_header(),
            final(self).written() == old(self).written(),
            final(self).spec_index() == old(self).spec_index(),
            match old(self).spec_index() {
                None => r matches Err(e) && e == Error::Kff(KffError::NoIndex),
                Some(g) => {
                    let pairs = g.spec_pairs();
                    if n >= pairs.len() {
                        r matches Err(e) && e == Error::Kff(KffError::NotAKmerSection)
                    } else if last_values_before(pairs, n as int) is None {
                        r matches Err(e) && e == Error::Kff(KffError::NoValueSectionBeforeTarget)
                    } else {
                        let d = old(self).data();
                        let v = last_values_before(pairs, n as int)->Some_0 as int;
                        let t = pairs[n as int].1 as int;
                        if !values_section_at(d, v + 1) {
                            r is Err
                        } else {
                            let m2 = values_map_at(d, v + 1);
                            &&& values_map(final(self).spec_values()) == m2
                            &&& if t >= d.len() {
                                r matches Err(e) && e is UnexpectedEof
                            } else if d[t] != tag_raw() && d[t] != tag_minimizer() {
                                r matches Err(e) && e == Error::Kff(KffError::NotAKmerSection)
                            } else {
                                match next_section(d, t, m2) {
                                    Ok((Some((ks, end)), _)) => (r matches Ok(x) && kmer_views(x@)
                                        == ks && final(self).pos() == end),
                                    _ => r is Err,
                                }
                            }
                        }
                    }
                },
            },
    {
        let (target, values_at) = match &self.index {
            None => {
                return Err(Error::Kff(KffError::NoIndex));
            },
            Some(g) => {
                let pairs = g.pair();
                if n >= pairs.len() {
                    return Err(Error::Kff(KffError::NotAKmerSection));
                }
                let mut j: usize = n;
                let mut found: Option<u64> = None;
                while j > 0 && found.is_none()
                    invariant
                        j <= n < pairs@.len(),
                        found is None ==> last_values_before(pairs@, n as int)
                            == last_values_before(pairs@, j as int),
                        found matches Some(v) ==> last_values_before(pairs@, n as int) == Some(v),
                    decreases j,
                {
                    j = j - 1;
                    if pairs[j].0 == 118u8 {
                        found = Some(pairs[j].1);
                    }
                }
                match found {
                    None => {
                        proof {
                            assert(j == 0);
                            assert(last_values_before(pairs@, n as int) is None);
                        }
                        return Err(Error::Kff(KffError::NoValueSectionBeforeTarget));
                    },
                    Some(v) => (pairs[n].1, v),
                }
            },
        };
        self.read_indexed(values_at, target)
    }

    /// Read the Values section body after `values_at`, make its values the
    /// current ones, then read the k-mer section whose tag is at `target`.
    fn read_indexed(&mut self, values_at: u64, target: u64) -> (r: Result<Vec<Kmer>>)
        ensures
            final(self).data() == old(self).data(),
            final(self).spec_header() == old(self).spec_header(),
            final(self).written() == old(self).written(),
            final(self).spec_index() == old(self).spec_index(),
            ({
                let d = old(self).data();
                let v = values_at as int;
                let t = target as int;
                if !values_section_at(d, v + 1) {
                    r is Err
                } else {
                    let m2 = values_map_at(d, v + 1);
                    &&& values_map(final(self).spec_values()) == m2
                    &&& if t >= d.len() {
                        r matches Err(e) && e is UnexpectedEof
                    } else if d[t] != tag_raw() && d[t] != tag_minimizer() {
                        r matches Err(e) && e == Error::Kff(KffError::NotAKmerSection)
                    } else {
                        match next_section(d, t, m2) {
                            Ok((Some((ks, end)), _)) => (r matches Ok(x) && kmer_views(x@) == ks
                                && final(self).pos() == end),
                            _ => r is Err,
                        }
                    }
                }
            }),
    {
        let len = self.input.len();
        let ghost d0 = self.input.bytes();
        if values_at >= len as u64 {
            return Err(Error::UnexpectedEof);
        }
        self.input.seek(values_at as usize + 1);
        let values = match Values::read(&mut self.input) {
            Ok(v) => v,
            Err(e) => {
                return Err(e);
            },
        };
        proof {
            let es = choose|es: Seq<(Seq<u8>, u64)>|
                {
                    &&& #[trigger] parses_at(d0, values_at + 1, es)
                    &&& values_map(values) == map_of(es)
                };
            let chosen = choose|es: Seq<(Seq<u8>, u64)>| #[trigger] parses_at(d0, values_at + 1, es);
            lemma_same_parse(d0, values_at + 1, es, chosen);
        }
        self.values = values;
        if target >= len as u64 {
            return Err(Error::UnexpectedEof);
        }
        self.input.seek(target as usize);
        let tag = self.input.read_u8()?;
        if tag == 114u8 {
            let section = Raw::new(&self.values)?;
            section.read(&mut self.input)
        } else if tag == 109u8 {
            let section = Minimizer::new(&self.values)?;
            section.read(&mut self.input)
        } else {
            Err(Error::Kff(KffError::NotAKmerSection))
        }
    }

    /// A writer that appends to `inner`: the header is written first, and the
    /// Values start empty.
    pub fn write(inner: Vec<u8>, header: Header) -> (r: Result<Kff>)
        requires
            header.spec_free_block().len() <= u32::MAX,
        ensures
            r matches Ok(f) && f.written() == inner@ + header.to_bytes() && f.spec_header()
                == header && values_map(f.spec_values()) == Map::<Seq<char>, u64>::empty()
                && f.spec_index() is None,
    {
        let mut output = inner;
        header.write(&mut output);
        Ok(Kff {
            input: ByteReader::new(Vec::new()),
            output,
            header,
            values: Values::new(),
            index: None,
        })
    }

    /// Write a Values section; its values become the current ones.
    pub fn write_values(&mut self, values: Values) -> (r: Result<()>)
        ensures
            r is Ok,
            values_map(final(self).spec_values()) == values_map(values),
            final(self).spec_header() == old(self).spec_header(),
            exists|es: Seq<(Seq<u8>, u64)>|
                #[trigger] lists(es, values_map(values)) && final(self).written() == old(
                    self,
                ).written().push(tag_values()) + section_bytes(es),
    {
        self.output.push(118u8);
        values.write(&mut self.output);
        self.values = values;
        Ok(())
    }

    /// Write the Values section that ends a file, with its `footer_size`.
    pub fn write_footer(&mut self, values: Values) -> (r: Result<()>)
        ensures
            final(self).spec_header() == old(self).spec_header(),
            match r {
                Ok(_) => exists|es: Seq<(Seq<u8>, u64)>|
                    {
                        &&& #[trigger] lists(es, values_map(values))
                        &&& 1 + footer_body(es).len() + 8 <= u64::MAX
                        &&& final(self).written() == old(self).written().push(tag_values())
                            + footer_body(es) + be_bytes((1 + footer_body(es).len() + 8) as nat, 8)
                    },
                Err(e) => {
                    &&& e == Error::Kff(KffError::FooterSizeNotCorrect)
                    &&& forall|es: Seq<(Seq<u8>, u64)>|
                        #[trigger] lists(es, values_map(values)) ==> 1 + footer_body(es).len() + 8
                            > u64::MAX
                },
            },
    {
        self.output.push(118u8);
        let r = values.write_as_footer(&mut self.output);
        proof {
            if r is Ok {
                let es = choose|es: Seq<(Seq<u8>, u64)>|
                    {
                        &&& #[trigger] lists(es, values_map(values))
                        &&& 1 + footer_body(es).len() + 8 <= u64::MAX
                        &&& self.output@ == old(self).written().push(tag_values()) + footer_body(
                            es,
                        ) + be_bytes((1 + footer_body(es).len() + 8) as nat, 8)
                    };
                assert(lists(es, values_map(values)));
            }
        }
        r
    }

    /// Write an Index section.
    pub fn write_index(&mut self, index: Index) -> (r: Result<()>)
        ensures
            r is Ok,
            final(self).written() == old(self).written().push(tag_index()) + index_bytes(
                index.spec_pairs(),
                index.spec_next_index(),
            ),
            final(self).spec_header() == old(self).spec_header(),
            final(self).spec_values() == old(self).spec_values(),
    {
        self.output.push(105u8);
        index.write(&mut self.output);
        Ok(())
    }

    /// Write a Raw section of `blocks`.
    pub fn write_raw(&mut self, section: Raw, blocks: &[Block]) -> (r: Result<()>)
        ensures
            r is Ok,
            final(self).written() == old(self).written().push(tag_raw()) + be_bytes(
                blocks@.len() as nat,
                8,
            ) + raw_blocks_bytes(blocks@, section.spec_max()),
            final(self).spec_header() == old(self).spec_header(),
            final(self).spec_values() == old(self).spec_values(),
    {
        self.output.push(114u8);
        section.write(&mut self.output, blocks);
        Ok(())
    }

    /// Write a Minimizer section of `blocks` that share `minimizer`.
    pub fn write_minimizer(&mut self, section: Minimizer, minimizer: &[bool], blocks: &[Block]) -> (r:
        Result<()>)
        requires
            forall|i: int|
                0 <= i < blocks@.len() ==> 2 * ((#[trigger] blocks@[i]).spec_minimizer_offset()
                    + section.spec_m()) <= blocks@[i].bits().len(),
        ensures
            r is Ok,
            final(self).written() == old(self).written().push(tag_minimizer()) + packed(
                minimizer@,
            ) + be_bytes(blocks@.len() as nat, 8) + min_blocks_bytes(
                blocks@,
                section.spec_m(),
                section.spec_max(),
            ),
            final(self).spec_header() == old(self).spec_header(),
            final(self).spec_values() == old(self).spec_values(),
    {
        self.output.push(109u8);
        section.write(&mut self.output, minimizer, blocks);
        Ok(())
    }

    /// Write the closing magic number.
    pub fn finalize(&mut self) -> (r: Result<()>)
        ensures
            r is Ok,
            final(self).written() == old(self).written() + magic(),
            final(self).spec_header() == old(self).spec_header(),
            final(self).spec_values() == old(self).spec_values(),
    {
        write_bytes(&mut self.output, &[75u8, 70u8, 70u8]);
        proof {
            assert(seq![75u8, 70u8, 70u8] =~= magic());
        }
        Ok(())
    }

    /// The bytes written so far.
    pub fn written_bytes(&self) -> (r: &Vec<u8>)
        ensures
            r@ == self.written(),
    {
        &self.output
    }

    /// The bytes written, giving the writer up.
    pub fn into_inner(self) -> (r: Vec<u8>)
        ensures
            r@ == self.written(),
    {
        self.output
    }
}

} // verus!
