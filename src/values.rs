//! Values sections: the global variables that parameterise later sections.
use vstd::prelude::*;
use vstd::utf8::{decode_utf8, encode_utf8, valid_utf8};

use crate::codec::{be_bytes, be_value};
use crate::error::{Error, Kff, Result};
use crate::read::ByteReader;
use crate::emit::{write_ascii, write_u64};

verus! {

/// What a `Values` holds: each name with its value.
pub uninterp spec fn values_map(v: Values) -> Map<Seq<char>, u64>;

/// Global variables: names mapped to 64-bit values, kept in an `FxHashMap`.
#[verifier::external_body]
#[derive(Debug, PartialEq, Eq)]
pub struct Values {
    map: rustc_hash::FxHashMap<String, u64>,
}

/// No names at all.
pub open spec fn no_values() -> Map<Seq<char>, u64> {
    Map::empty()
}

/// The bytes of one entry: the name, a zero byte, and the value.
pub open spec fn entry_bytes(name: Seq<u8>, value: u64) -> Seq<u8> {
    name + seq![0u8] + be_bytes(value as nat, 8)
}

/// The bytes of entries, in order.
pub open spec fn entries_bytes(es: Seq<(Seq<u8>, u64)>) -> Seq<u8>
    decreases es.len(),
{
    if es.len() == 0 {
        Seq::empty()
    } else {
        entries_bytes(es.drop_last()) + entry_bytes(es.last().0, es.last().1)
    }
}

/// The map that entries give when later names override earlier ones.
pub open spec fn map_of(es: Seq<(Seq<u8>, u64)>) -> Map<Seq<char>, u64>
    decreases es.len(),
{
    if es.len() == 0 {
        Map::empty()
    } else {
        map_of(es.drop_last()).insert(decode_utf8(es.last().0), es.last().1)
    }
}

/// The names of `es` are UTF-8 without zero bytes.
pub open spec fn names_ok(es: Seq<(Seq<u8>, u64)>) -> bool {
    forall|i: int|
        0 <= i < es.len() ==> valid_utf8(#[trigger] es[i].0) && !es[i].0.contains(0u8)
}

/// `es` lists `m`: each name once, UTF-8 encoded, with its value.
pub open spec fn lists(es: Seq<(Seq<u8>, u64)>, m: Map<Seq<char>, u64>) -> bool {
    &&& forall|i: int, j: int|
        0 <= i < j < es.len() ==> decode_utf8(#[trigger] es[i].0) != decode_utf8(#[trigger] es[j].0)
    &&& forall|i: int|
        0 <= i < es.len() ==> valid_utf8(#[trigger] es[i].0) && m.contains_key(decode_utf8(es[i].0))
            && m[decode_utf8(es[i].0)] == es[i].1
    &&& forall|key: Seq<char>|
        #[trigger] m.contains_key(key) ==> exists|i: int|
            0 <= i < es.len() && decode_utf8(#[trigger] es[i].0) == key
}

/// The bytes of a Values section body: the number of entries, then the entries.
pub open spec fn section_bytes(es: Seq<(Seq<u8>, u64)>) -> Seq<u8> {
    be_bytes(es.len() as nat, 8) + entries_bytes(es)
}

proof fn lemma_count_of(d: Seq<u8>, p: int, full: Seq<(Seq<u8>, u64)>, n: u64)
    requires
        frames_at(d, p, full),
        n as nat == be_value(d.subrange(p, p + 8)),
    ensures
        full.len() == n,
{
    crate::codec::lemma_pow256_widths();
    crate::codec::lemma_be_bytes_len(full.len() as nat, 8);
    crate::codec::lemma_be_round_trip(full.len() as nat, 8);
    assert(d.subrange(p, p + 8) =~= be_bytes(full.len() as nat, 8)) by {
        assert forall|t: int| 0 <= t < 8 implies d.subrange(p, p + 8)[t] == be_bytes(
            full.len() as nat,
            8,
        )[t] by {
            assert(d.subrange(p, p + section_bytes(full).len())[t] == section_bytes(full)[t]);
        }
    }
}

/// `es` is read, as a Values section body, at `p` in `d`.
pub open spec fn parses_at(d: Seq<u8>, p: int, es: Seq<(Seq<u8>, u64)>) -> bool {
    &&& names_ok(es)
    &&& es.len() <= u64::MAX
    &&& 0 <= p
    &&& p + section_bytes(es).len() <= d.len()
    &&& d.subrange(p, p + section_bytes(es).len()) == section_bytes(es)
}

/// The names of `es` hold no zero byte.
pub open spec fn names_framed(es: Seq<(Seq<u8>, u64)>) -> bool {
    forall|i: int| 0 <= i < es.len() ==> !(#[trigger] es[i]).0.contains(0u8)
}

/// `es` lies, as the bytes of a Values section body, at `p` in `d`, its names
/// being UTF-8 or not.
pub open spec fn frames_at(d: Seq<u8>, p: int, es: Seq<(Seq<u8>, u64)>) -> bool {
    &&& names_framed(es)
    &&& es.len() <= u64::MAX
    &&& 0 <= p
    &&& p + section_bytes(es).len() <= d.len()
    &&& d.subrange(p, p + section_bytes(es).len()) == section_bytes(es)
}

/// The bytes at `p` in `d` have the layout of a Values section body.
pub open spec fn values_framed_at(d: Seq<u8>, p: int) -> bool {
    exists|es: Seq<(Seq<u8>, u64)>| #[trigger] frames_at(d, p, es)
}

proof fn lemma_framed_of_ok(es: Seq<(Seq<u8>, u64)>)
    requires
        names_ok(es),
    ensures
        names_framed(es),
{
    assert forall|i: int| 0 <= i < es.len() implies !(#[trigger] es[i]).0.contains(0u8) by {
        assert(valid_utf8(es[i].0) && !es[i].0.contains(0u8));
    }
}

proof fn lemma_frames_of_parses(d: Seq<u8>, p: int, es: Seq<(Seq<u8>, u64)>)
    requires
        parses_at(d, p, es),
    ensures
        frames_at(d, p, es),
{
    assert forall|i: int| 0 <= i < es.len() implies !(#[trigger] es[i]).0.contains(0u8) by {
        assert(valid_utf8(es[i].0) && !es[i].0.contains(0u8));
    }
}

/// A Values section body can be read at `p` in `d`.
pub open spec fn values_section_at(d: Seq<u8>, p: int) -> bool {
    exists|es: Seq<(Seq<u8>, u64)>| #[trigger] parses_at(d, p, es)
}

/// The name of the entry that a footer adds.
pub open spec fn footer_name() -> Seq<u8> {
    seq![102u8, 111u8, 111u8, 116u8, 101u8, 114u8, 95u8, 115u8, 105u8, 122u8, 101u8]
}

/// The footer's name is the UTF-8 encoding of "footer_size".
pub proof fn lemma_footer_name()
    ensures
        valid_utf8(footer_name()),
        decode_utf8(footer_name()) == "footer_size"@,
        !footer_name().contains(0u8),
{
    reveal_strlit("footer_size");
    let chars = "footer_size"@;
    assert(vstd::utf8::is_ascii_chars(chars));
    vstd::utf8::is_ascii_chars_encode_utf8(chars);
    assert(encode_utf8(chars) =~= footer_name()) by {
        assert forall|i: int| 0 <= i < 11 implies encode_utf8(chars)[i] == footer_name()[i] by {
            assert(chars[i] as u8 == encode_utf8(chars)[i]);
        }
    }
    vstd::utf8::encode_utf8_valid_utf8(chars);
    vstd::utf8::encode_utf8_decode_utf8(chars);
}

/// The bytes of a footer body before the value of `footer_size`.
pub open spec fn footer_body(es: Seq<(Seq<u8>, u64)>) -> Seq<u8> {
    be_bytes((es.len() + 1) as nat, 8) + entries_bytes(es) + footer_name() + seq![0u8]
}

proof fn lemma_entries_bytes_front(es: Seq<(Seq<u8>, u64)>)
    requires
        es.len() > 0,
    ensures
        entries_bytes(es) == entry_bytes(es[0].0, es[0].1) + entries_bytes(es.drop_first()),
    decreases es.len(),
{
    if es.len() > 1 {
        lemma_entries_bytes_front(es.drop_last());
        assert(es.drop_last().drop_first() =~= es.drop_first().drop_last());
        assert(es.drop_last()[0] == es[0]);
        assert(es.drop_first().last() == es.last());
    } else {
        assert(es.drop_last() =~= Seq::<(Seq<u8>, u64)>::empty());
        assert(es.drop_first() =~= Seq::<(Seq<u8>, u64)>::empty());
    }
}

proof fn lemma_entries_take(es: Seq<(Seq<u8>, u64)>, j: int)
    requires
        0 <= j <= es.len(),
    ensures
        entries_bytes(es.take(j)).len() <= entries_bytes(es).len(),
        entries_bytes(es.take(j)) == entries_bytes(es).subrange(
            0,
            entries_bytes(es.take(j)).len() as int,
        ),
    decreases es.len() - j,
{
    if j == es.len() {
        assert(es.take(j) =~= es);
    } else {
        lemma_entries_take(es, j + 1);
        assert(es.take(j + 1).drop_last() =~= es.take(j));
    }
}

/// Entries whose names hold no zero byte, and whose bytes agree as far as
/// both go, agree as far as the shorter goes.
proof fn lemma_entries_common(a: Seq<(Seq<u8>, u64)>, b: Seq<(Seq<u8>, u64)>)
    requires
        names_framed(a),
        names_framed(b),
        a.len() <= b.len(),
        forall|t: int|
            0 <= t < entries_bytes(a).len() && t < entries_bytes(b).len() ==> entries_bytes(a)[t]
                == entries_bytes(b)[t],
    ensures
        a == b.take(a.len() as int),
    decreases a.len(),
{
    if a.len() > 0 {
        lemma_entries_bytes_front(a);
        lemma_entries_bytes_front(b);
        let (na, va) = a[0];
        let (nb, vb) = b[0];
        let x = entries_bytes(a);
        let y = entries_bytes(b);
        assert(!a[0].0.contains(0u8));
        assert(!b[0].0.contains(0u8));
        crate::codec::lemma_be_bytes_len(va as nat, 8);
        crate::codec::lemma_be_bytes_len(vb as nat, 8);
        assert(na.len() == nb.len()) by {
            if na.len() < nb.len() {
                assert(x[na.len() as int] == y[na.len() as int]);
                assert(y[na.len() as int] == nb[na.len() as int]);
            } else if nb.len() < na.len() {
                assert(x[nb.len() as int] == y[nb.len() as int]);
                assert(x[nb.len() as int] == na[nb.len() as int]);
            }
        }
        assert(na =~= nb) by {
            assert forall|i: int| 0 <= i < na.len() implies na[i] == nb[i] by {
                assert(x[i] == y[i]);
            }
        }
        let l = na.len() as int;
        assert(be_bytes(va as nat, 8) =~= be_bytes(vb as nat, 8)) by {
            assert forall|i: int| 0 <= i < 8 implies be_bytes(va as nat, 8)[i] == be_bytes(
                vb as nat,
                8,
            )[i] by {
                assert(x[l + 1 + i] == y[l + 1 + i]);
            }
        }
        crate::codec::lemma_pow256_widths();
        crate::codec::lemma_be_round_trip(va as nat, 8);
        crate::codec::lemma_be_round_trip(vb as nat, 8);
        let el = entry_bytes(na, va).len() as int;
        let a2 = a.drop_first();
        let b2 = b.drop_first();
        assert(entries_bytes(a2) =~= x.subrange(el, x.len() as int));
        assert(entries_bytes(b2) =~= y.subrange(el, y.len() as int));
        assert(names_framed(a2)) by {
            assert forall|i: int| 0 <= i < a2.len() implies !(#[trigger] a2[i]).0.contains(0u8) by {
                assert(a2[i] == a[i + 1]);
            }
        }
        assert(names_framed(b2)) by {
            assert forall|i: int| 0 <= i < b2.len() implies !(#[trigger] b2[i]).0.contains(0u8) by {
                assert(b2[i] == b[i + 1]);
            }
        }
        assert forall|t: int|
            0 <= t < entries_bytes(a2).len() && t < entries_bytes(b2).len() implies entries_bytes(
            a2,
        )[t] == entries_bytes(b2)[t] by {
            assert(x[el + t] == y[el + t]);
        }
        lemma_entries_common(a2, b2);
        assert(a =~= b.take(a.len() as int)) by {
            assert forall|i: int| 0 <= i < a.len() implies a[i] == b[i] by {
                if i > 0 {
                    assert(a[i] == a2[i - 1]);
                    assert(b[i] == b2[i - 1]);
                    assert(b2.take(a2.len() as int)[i - 1] == b2[i - 1]);
                }
            }
        }
    }
}

/// When a Values body parses at `p` as `full`, and its first entries have
/// been read as `es`, the next entry of `full` follows them.
proof fn lemma_next_entry(d: Seq<u8>, p: int, es: Seq<(Seq<u8>, u64)>, full: Seq<(Seq<u8>, u64)>)
    requires
        frames_at(d, p, full),
        names_framed(es),
        es.len() < full.len(),
        p + 8 + entries_bytes(es).len() <= d.len(),
        d.subrange(p + 8, p + 8 + entries_bytes(es).len()) == entries_bytes(es),
    ensures
        ({
            let pos = p + 8 + entries_bytes(es).len();
            let nf = full[es.len() as int].0;
            let v = full[es.len() as int].1;
            &&& pos + nf.len() + 9 <= d.len()
            &&& d.subrange(pos, pos + nf.len()) == nf
            &&& d[pos + nf.len()] == 0u8
            &&& d.subrange(pos + nf.len() + 1, pos + nf.len() + 9) == be_bytes(v as nat, 8)
            &&& !nf.contains(0u8)
        }),
{
    let ea = entries_bytes(es);
    let ef = entries_bytes(full);
    crate::codec::lemma_be_bytes_len(full.len() as nat, 8);
    assert(d.subrange(p + 8, p + 8 + ef.len()) =~= ef) by {
        assert forall|t: int| 0 <= t < ef.len() implies d.subrange(p + 8, p + 8 + ef.len())[t]
            == ef[t] by {
            assert(d.subrange(p, p + section_bytes(full).len())[8 + t] == section_bytes(full)[8
                + t]);
        }
    }
    assert forall|t: int| 0 <= t < ea.len() && t < ef.len() implies ea[t] == ef[t] by {
        assert(d.subrange(p + 8, p + 8 + ea.len())[t] == d[p + 8 + t]);
        assert(d.subrange(p + 8, p + 8 + ef.len())[t] == d[p + 8 + t]);
    }
    lemma_entries_common(es, full);
    let i = es.len() as int;
    lemma_entries_take(full, i + 1);
    assert(full.take(i + 1).drop_last() =~= full.take(i));
    let (nf, v) = full[i];
    let eb = entry_bytes(nf, v);
    crate::codec::lemma_be_bytes_len(v as nat, 8);
    let pos = p + 8 + ea.len();
    assert(entries_bytes(full.take(i + 1)) == ea + eb);
    assert forall|t: int| 0 <= t < eb.len() implies d[pos + t] == eb[t] by {
        assert(entries_bytes(full.take(i + 1))[ea.len() + t] == eb[t]);
        assert(ef[ea.len() + t] == eb[t]);
        assert(d.subrange(p + 8, p + 8 + ef.len())[ea.len() + t] == d[pos + t]);
    }
    assert(d.subrange(pos, pos + nf.len()) =~= nf) by {
        assert forall|t: int| 0 <= t < nf.len() implies d.subrange(pos, pos + nf.len())[t]
            == nf[t] by {
            assert(d[pos + t] == eb[t]);
        }
    }
    assert(d[pos + nf.len()] == eb[nf.len() as int]);
    assert(d.subrange(pos + nf.len() + 1, pos + nf.len() + 9) =~= be_bytes(v as nat, 8)) by {
        assert forall|t: int| 0 <= t < 8 implies d.subrange(pos + nf.len() + 1, pos + nf.len()
            + 9)[t] == be_bytes(v as nat, 8)[t] by {
            assert(d[pos + nf.len() + 1 + t] == eb[nf.len() + 1 + t]);
        }
    }
    assert(!full[i].0.contains(0u8));
}

proof fn lemma_entries_min_len(s: Seq<(Seq<u8>, u64)>)
    ensures
        entries_bytes(s).len() >= 9 * s.len(),
    decreases s.len(),
{
    if s.len() > 0 {
        lemma_entries_min_len(s.drop_last());
        crate::codec::lemma_be_bytes_len(s.last().1 as nat, 8);
    }
}

proof fn lemma_entries_remove_len(s: Seq<(Seq<u8>, u64)>, j: int)
    requires
        0 <= j < s.len(),
    ensures
        entries_bytes(s).len() == entries_bytes(s.remove(j)).len() + s[j].0.len() + 9,
    decreases s.len(),
{
    crate::codec::lemma_be_bytes_len(s.last().1 as nat, 8);
    if j == s.len() - 1 {
        assert(s.remove(j) =~= s.drop_last());
    } else {
        lemma_entries_remove_len(s.drop_last(), j);
        assert(s.remove(j).drop_last() =~= s.drop_last().remove(j));
        assert(s.remove(j).last() == s.last());
    }
}

/// Two listings of one map have as many entries and take as many bytes.
pub proof fn lemma_listings_same_len(
    a: Seq<(Seq<u8>, u64)>,
    b: Seq<(Seq<u8>, u64)>,
    m: Map<Seq<char>, u64>,
)
    requires
        lists(a, m),
        lists(b, m),
    ensures
        a.len() == b.len(),
        entries_bytes(a).len() == entries_bytes(b).len(),
    decreases a.len(),
{
    if a.len() == 0 {
        if b.len() > 0 {
            assert(m.contains_key(decode_utf8(b[0].0)));
        }
    } else {
        let last = a.len() - 1;
        let k = decode_utf8(a[last].0);
        assert(m.contains_key(k));
        let j = choose|j: int| 0 <= j < b.len() && decode_utf8(#[trigger] b[j].0) == k;
        let m2 = m.remove(k);
        let a2 = a.drop_last();
        let b2 = b.remove(j);
        assert(lists(a2, m2)) by {
            assert forall|i: int, i2: int| 0 <= i < i2 < a2.len() implies decode_utf8(
                #[trigger] a2[i].0,
            ) != decode_utf8(#[trigger] a2[i2].0) by {
                assert(a2[i] == a[i] && a2[i2] == a[i2]);
            }
            assert forall|i: int| 0 <= i < a2.len() implies valid_utf8(#[trigger] a2[i].0)
                && m2.contains_key(decode_utf8(a2[i].0)) && m2[decode_utf8(a2[i].0)] == a2[i].1 by {
                assert(a2[i] == a[i]);
                assert(decode_utf8(a[i].0) != decode_utf8(a[last].0));
            }
            assert forall|key: Seq<char>| #[trigger] m2.contains_key(key) implies exists|i: int|
                0 <= i < a2.len() && decode_utf8(#[trigger] a2[i].0) == key by {
                assert(m.contains_key(key));
                let i = choose|i: int| 0 <= i < a.len() && decode_utf8(#[trigger] a[i].0) == key;
                assert(i != last);
                assert(a2[i] == a[i]);
            }
        }
        assert(lists(b2, m2)) by {
            assert forall|i: int, i2: int| 0 <= i < i2 < b2.len() implies decode_utf8(
                #[trigger] b2[i].0,
            ) != decode_utf8(#[trigger] b2[i2].0) by {
                let x = if i < j { i } else { i + 1 };
                let y = if i2 < j { i2 } else { i2 + 1 };
                assert(b2[i] == b[x] && b2[i2] == b[y]);
            }
            assert forall|i: int| 0 <= i < b2.len() implies valid_utf8(#[trigger] b2[i].0)
                && m2.contains_key(decode_utf8(b2[i].0)) && m2[decode_utf8(b2[i].0)] == b2[i].1 by {
                let x = if i < j { i } else { i + 1 };
                assert(b2[i] == b[x]);
                if x < j {
                    assert(decode_utf8(b[x].0) != decode_utf8(b[j].0));
                } else {
                    assert(decode_utf8(b[j].0) != decode_utf8(b[x].0));
                }
            }
            assert forall|key: Seq<char>| #[trigger] m2.contains_key(key) implies exists|i: int|
                0 <= i < b2.len() && decode_utf8(#[trigger] b2[i].0) == key by {
                assert(m.contains_key(key));
                let x = choose|x: int| 0 <= x < b.len() && decode_utf8(#[trigger] b[x].0) == key;
                assert(x != j);
                if x < j {
                    assert(b2[x] == b[x]);
                } else {
                    assert(b2[x - 1] == b[x]);
                }
            }
        }
        lemma_listings_same_len(a2, b2, m2);
        lemma_entries_remove_len(b, j);
        crate::codec::lemma_be_bytes_len(a[last].1 as nat, 8);
        vstd::utf8::decode_utf8_encode_utf8(a[last].0);
        vstd::utf8::decode_utf8_encode_utf8(b[j].0);
        assert(a[last].0 == b[j].0);
    }
}

/// Entries that list a map build that map.
pub proof fn lemma_map_of_lists(es: Seq<(Seq<u8>, u64)>, m: Map<Seq<char>, u64>)
    requires
        lists(es, m),
    ensures
        map_of(es) == m,
{
    lemma_map_of_entries(es);
    assert forall|key: Seq<char>| #[trigger] m.contains_key(key) implies map_of(es).contains_key(
        key,
    ) && map_of(es)[key] == m[key] by {
        let i = choose|i: int| 0 <= i < es.len() && decode_utf8(#[trigger] es[i].0) == key;
        assert(map_of(es)[decode_utf8(es[i].0)] == es[i].1);
    }
    assert(map_of(es) =~= m);
}

proof fn lemma_map_of_entries(es: Seq<(Seq<u8>, u64)>)
    requires
        forall|i: int, j: int|
            0 <= i < j < es.len() ==> decode_utf8(#[trigger] es[i].0) != decode_utf8(
                #[trigger] es[j].0,
            ),
    ensures
        forall|key: Seq<char>|
            #[trigger] map_of(es).contains_key(key) <==> exists|i: int|
                0 <= i < es.len() && decode_utf8(#[trigger] es[i].0) == key,
        forall|i: int|
            0 <= i < es.len() ==> #[trigger] map_of(es)[decode_utf8(es[i].0)] == es[i].1,
    decreases es.len(),
{
    if es.len() > 0 {
        let init = es.drop_last();
        assert forall|i: int, j: int| 0 <= i < j < init.len() implies decode_utf8(
            #[trigger] init[i].0,
        ) != decode_utf8(#[trigger] init[j].0) by {
            assert(init[i] == es[i]);
            assert(init[j] == es[j]);
        }
        lemma_map_of_entries(init);
        let lk = decode_utf8(es.last().0);
        assert(map_of(es) == map_of(init).insert(lk, es.last().1));
        assert forall|key: Seq<char>| #[trigger] map_of(es).contains_key(key) <==> exists|i: int|
            0 <= i < es.len() && decode_utf8(#[trigger] es[i].0) == key by {
            if key == lk {
                assert(decode_utf8(es[es.len() - 1].0) == key);
            } else {
                if map_of(init).contains_key(key) {
                    let i = choose|i: int|
                        0 <= i < init.len() && decode_utf8(#[trigger] init[i].0) == key;
                    assert(es[i] == init[i]);
                }
                if exists|i: int| 0 <= i < es.len() && decode_utf8(#[trigger] es[i].0) == key {
                    let i = choose|i: int| 0 <= i < es.len() && decode_utf8(#[trigger] es[i].0) == key;
                    assert(i < init.len());
                    assert(init[i] == es[i]);
                    assert(map_of(init).contains_key(key));
                }
            }
        }
        assert forall|i: int| 0 <= i < es.len() implies #[trigger] map_of(es)[decode_utf8(es[i].0)]
            == es[i].1 by {
            if i < init.len() {
                assert(init[i] == es[i]);
                assert(decode_utf8(es[i].0) != decode_utf8(es[es.len() - 1].0));
            }
        }
    }
}

/// Values round trip: where `write` put the entries of a map whose names,
/// encoded, hold no zero byte, a Values section body can be read, and every
/// reading of it gives that map.
pub proof fn lemma_values_round_trip(
    d: Seq<u8>,
    p: int,
    written: Seq<(Seq<u8>, u64)>,
    m: Map<Seq<char>, u64>,
)
    requires
        lists(written, m),
        names_ok(written),
        written.len() <= u64::MAX,
        0 <= p,
        p + section_bytes(written).len() <= d.len(),
        d.subrange(p, p + section_bytes(written).len()) == section_bytes(written),
    ensures
        values_section_at(d, p),
        forall|read: Seq<(Seq<u8>, u64)>| #[trigger] parses_at(d, p, read) ==> map_of(read) == m,
{
    assert(parses_at(d, p, written));
    assert forall|read: Seq<(Seq<u8>, u64)>| #[trigger] parses_at(d, p, read) implies map_of(read)
        == m by {
        lemma_same_parse(d, p, read, written);
        lemma_map_of_lists(written, m);
    }
}

/// A Values section body reads in one way only.
pub proof fn lemma_same_parse(d: Seq<u8>, p: int, a: Seq<(Seq<u8>, u64)>, b: Seq<(Seq<u8>, u64)>)
    requires
        parses_at(d, p, a),
        parses_at(d, p, b),
    ensures
        a == b,
{
    lemma_frames_of_parses(d, p, a);
    lemma_frames_of_parses(d, p, b);
    crate::codec::lemma_be_bytes_len(a.len() as nat, 8);
    let n = be_value(d.subrange(p, p + 8));
    assert(n <= u64::MAX) by {
        crate::codec::lemma_be_value_bound(d.subrange(p, p + 8));
        crate::codec::lemma_pow256_widths();
    }
    lemma_count_of(d, p, a, n as u64);
    lemma_count_of(d, p, b, n as u64);
    crate::codec::lemma_be_bytes_len(a.len() as nat, 8);
    let ea = entries_bytes(a);
    let eb = entries_bytes(b);
    assert forall|t: int| 0 <= t < ea.len() && t < eb.len() implies ea[t] == eb[t] by {
        assert(d.subrange(p, p + section_bytes(a).len())[8 + t] == section_bytes(a)[8 + t]);
        assert(d.subrange(p, p + section_bytes(b).len())[8 + t] == section_bytes(b)[8 + t]);
    }
    lemma_entries_common(a, b);
    assert(b.take(a.len() as int) =~= b);
}

/// Relies on `String::from_utf8`: it succeeds exactly on valid UTF-8, and the
/// string then holds the characters that the bytes encode.
#[verifier::external_body]
fn string_from_utf8(bytes: Vec<u8>) -> (r: core::result::Result<String, std::string::FromUtf8Error>)
    ensures
        match r {
            Ok(s) => valid_utf8(bytes@) && s@ == decode_utf8(bytes@),
            Err(_) => !valid_utf8(bytes@),
        },
{
    String::from_utf8(bytes)
}

impl Clone for Values {
    /// Relies on `HashMap::clone`: the same entries.
    #[verifier::external_body]
    fn clone(&self) -> (r: Values)
        ensures
            values_map(r) == values_map(*self),
    {
        Values { map: self.map.clone() }
    }
}

impl Values {
    /// Relies on `HashMap::default`: an empty map.
    #[verifier::external_body]
    pub fn new() -> (r: Values)
        ensures
            values_map(r) == no_values(),
    {
        Values { map: rustc_hash::FxHashMap::default() }
    }

    /// Relies on `HashMap::with_capacity_and_hasher`: an empty map.
    #[verifier::external_body]
    pub fn with_capacity(capacity: usize) -> (r: Values)
        ensures
            values_map(r) == no_values(),
    {
        Values {
            map: rustc_hash::FxHashMap::with_capacity_and_hasher(capacity, Default::default()),
        }
    }

    /// Relies on `HashMap::insert`: the key gets the value, and the value it
    /// had, if any, comes back.
    #[verifier::external_body]
    pub fn insert(&mut self, key: String, value: u64) -> (r: Option<u64>)
        ensures
            values_map(*final(self)) == values_map(*old(self)).insert(key@, value),
            r == if values_map(*old(self)).contains_key(key@) {
                Some(values_map(*old(self))[key@])
            } else {
                None::<u64>
            },
    {
        self.map.insert(key, value)
    }

    /// Relies on `HashMap::get`: the value of the key, if present.
    #[verifier::external_body]
    pub fn get(&self, key: &str) -> (r: Option<u64>)
        ensures
            r == if values_map(*self).contains_key(key@) {
                Some(values_map(*self)[key@])
            } else {
                None::<u64>
            },
    {
        self.map.get(key).copied()
    }

    /// Relies on `HashMap::iter`: every entry once, in an order that the map
    /// chooses.
    #[verifier::external_body]
    pub fn entries(&self) -> (r: Vec<(String, u64)>)
        ensures
            forall|i: int, j: int|
                0 <= i < j < r@.len() ==> (#[trigger] r@[i]).0@ != (#[trigger] r@[j]).0@,
            forall|i: int|
                0 <= i < r@.len() ==> values_map(*self).contains_key((#[trigger] r@[i]).0@)
                    && values_map(*self)[r@[i].0@] == r@[i].1,
            forall|key: Seq<char>|
                #[trigger] values_map(*self).contains_key(key) ==> exists|i: int|
                    0 <= i < r@.len() && (#[trigger] r@[i]).0@ == key,
    {
        self.map.iter().map(|(k, v)| (k.clone(), *v)).collect()
    }

    /// Read the body of a Values section; later entries override earlier ones.
    pub fn read(input: &mut ByteReader) -> (r: Result<Values>)
        ensures
            final(input).bytes() == old(input).bytes(),
            match r {
                Ok(v) => exists|es: Seq<(Seq<u8>, u64)>|
                    {
                        &&& #[trigger] parses_at(old(input).bytes(), old(input).pos(), es)
                        &&& old(input).took(final(input), section_bytes(es).len() as int)
                        &&& old(input).ahead(section_bytes(es).len() as int) == section_bytes(es)
                        &&& values_map(v) == map_of(es)
                    },
                Err(e) => {
                    &&& e is UnexpectedEof || e is FromUtf8
                    &&& !values_section_at(old(input).bytes(), old(input).pos())
                    &&& values_framed_at(old(input).bytes(), old(input).pos()) ==> e is FromUtf8
                },
            },
    {
        let n = match input.read_u64() {
            Ok(n) => n,
            Err(e) => {
                proof {
                    assert forall|es: Seq<(Seq<u8>, u64)>| !#[trigger] parses_at(
                        old(input).bytes(),
                        old(input).pos(),
                        es,
                    ) by {
                        crate::codec::lemma_be_bytes_len(es.len() as nat, 8);
                    }
                    assert forall|es: Seq<(Seq<u8>, u64)>| !#[trigger] frames_at(
                        old(input).bytes(),
                        old(input).pos(),
                        es,
                    ) by {
                        crate::codec::lemma_be_bytes_len(es.len() as nat, 8);
                    }
                }
                return Err(e);
            },
        };
        let ghost start = *input;
        let ghost p0 = old(input).pos();
        let mut obj = Values::new();
        let ghost mut es: Seq<(Seq<u8>, u64)> = Seq::empty();
        let mut i: u64 = 0;
        proof {
            assert(old(input).ahead(8) + entries_bytes(es) =~= old(input).ahead(8));
        }
        while i < n
            invariant
                i <= n,
                es.len() == i,
                names_ok(es),
                n as nat == crate::codec::be_value(old(input).ahead(8)),
                input.bytes() == old(input).bytes(),
                old(input).has(8),
                input.pos() == p0 + 8 + entries_bytes(es).len(),
                input.pos() <= input.bytes().len(),
                input.bytes().subrange(p0 + 8, input.pos()) == entries_bytes(es),
                values_map(obj) == map_of(es),
                p0 == old(input).pos(),
            decreases n - i,
        {
            let ghost before = *input;
            let before_pos = input.position();
            let name = input.read_ascii();
            if input.position() == before_pos + name.len() {
                // The stream ended before the zero byte that ends the name.
                proof {
                    let d = old(input).bytes();
                    lemma_framed_of_ok(es);
                    if values_section_at(d, p0) {
                        let f = choose|f: Seq<(Seq<u8>, u64)>| #[trigger] parses_at(d, p0, f);
                        lemma_frames_of_parses(d, p0, f);
                    }
                    if values_framed_at(d, p0) {
                        let full = choose|f: Seq<(Seq<u8>, u64)>| #[trigger] frames_at(d, p0, f);
                        self::lemma_count_of(d, p0, full, n);
                        lemma_next_entry(d, p0, es, full);
                        let nf = full[es.len() as int].0;
                        assert(d[before_pos + nf.len()] == 0u8);
                        assert(name@[nf.len() as int] == d[before_pos + nf.len()]);
                    }
                }
                return Err(Error::UnexpectedEof);
            }
            let ghost name_bytes = name@;
            proof {
                let d = old(input).bytes();
                lemma_framed_of_ok(es);
                if values_section_at(d, p0) {
                    let f = choose|f: Seq<(Seq<u8>, u64)>| #[trigger] parses_at(d, p0, f);
                    lemma_frames_of_parses(d, p0, f);
                    self::lemma_count_of(d, p0, f, n);
                    lemma_next_entry(d, p0, es, f);
                    let nf = f[es.len() as int].0;
                    if name_bytes.len() < nf.len() {
                        assert(d[before_pos + name_bytes.len()] == nf[name_bytes.len() as int]);
                    } else if nf.len() < name_bytes.len() {
                        assert(name_bytes[nf.len() as int] == d[before_pos + nf.len()]);
                    }
                    assert(name_bytes =~= nf);
                    assert(valid_utf8(f[es.len() as int].0));
                }
                if values_framed_at(d, p0) {
                    let full = choose|f: Seq<(Seq<u8>, u64)>| #[trigger] frames_at(d, p0, f);
                    self::lemma_count_of(d, p0, full, n);
                    lemma_next_entry(d, p0, es, full);
                    let nf = full[es.len() as int].0;
                    if name_bytes.len() < nf.len() {
                        assert(d[before_pos + name_bytes.len()] == nf[name_bytes.len() as int]);
                    } else if nf.len() < name_bytes.len() {
                        assert(name_bytes[nf.len() as int] == d[before_pos + nf.len()]);
                    }
                    assert(name_bytes =~= nf);
                }
            }
            let key = match string_from_utf8(name) {
                Ok(s) => s,
                Err(e) => {
                    return Err(Error::FromUtf8(e));
                },
            };
            let value = match input.read_u64() {
                Ok(v) => v,
                Err(e) => {
                    return Err(e);
                },
            };
            proof {
                let e2 = es.push((name_bytes, value));
                assert(e2.drop_last() =~= es);
                assert(entries_bytes(e2) == entries_bytes(es) + entry_bytes(name_bytes, value));
                assert forall|j: int| 0 <= j < e2.len() implies valid_utf8(#[trigger] e2[j].0)
                    && !e2[j].0.contains(0u8) by {
                    if j == es.len() {
                        assert forall|t: int| 0 <= t < name_bytes.len() implies name_bytes[t]
                            != 0u8 by {}
                    }
                }
                crate::codec::lemma_be_bytes_len(value as nat, 8);
                assert(input.bytes().subrange(p0 + 8, input.pos()) =~= entries_bytes(es)
                    + entry_bytes(name_bytes, value)) by {
                    let mid1 = before.pos();
                    let mid2 = mid1 + name_bytes.len() + 1;
                    assert(input.bytes().subrange(p0 + 8, mid1) == entries_bytes(es));
                    assert(input.bytes().subrange(mid1, mid1 + name_bytes.len()) == name_bytes);
                    assert(input.bytes()[mid1 + name_bytes.len()] == 0u8);
                    let vb = input.bytes().subrange(mid2, input.pos());
                    crate::codec::lemma_be_bytes_of_value(vb);
                }
                es = e2;
            }
            obj.insert(key, value);
            i = i + 1;
        }
        proof {
            crate::codec::lemma_be_bytes_of_value(old(input).ahead(8));
            assert(old(input).ahead(section_bytes(es).len() as int) =~= section_bytes(es));
            assert(parses_at(old(input).bytes(), old(input).pos(), es));
        }
        Ok(obj)
    }

    /// Write the number of entries plus `extra`, then the entries, in the order
    /// that the map gives them; or nothing when that number exceeds u64.
    fn write_entries(&self, out: &mut Vec<u8>, extra: u64) -> (r: Option<
        Ghost<Seq<(Seq<u8>, u64)>>,
    >)
        ensures
            match r {
                Some(es) => {
                    &&& lists(es@, values_map(*self))
                    &&& es@.len() + extra <= u64::MAX
                    &&& final(out)@ == old(out)@ + be_bytes((es@.len() + extra) as nat, 8)
                        + entries_bytes(es@)
                },
                None => {
                    &&& extra > 0
                    &&& final(out)@ == old(out)@
                    &&& forall|es: Seq<(Seq<u8>, u64)>|
                        #[trigger] lists(es, values_map(*self)) ==> es.len() + extra > u64::MAX
                },
            },
    {
        broadcast use vstd::utf8::encode_utf8_valid_utf8, vstd::utf8::encode_utf8_decode_utf8;
        let entries = self.entries();
        if entries.len() as u64 > u64::MAX - extra {
            proof {
                let es0 = Seq::new(
                    entries@.len(),
                    |j: int| (encode_utf8(entries@[j].0@), entries@[j].1),
                );
                assert(lists(es0, values_map(*self))) by {
                    assert forall|key: Seq<char>| #[trigger]
                        values_map(*self).contains_key(key) implies exists|j: int|
                        0 <= j < es0.len() && decode_utf8(#[trigger] es0[j].0) == key by {
                        let j = choose|j: int|
                            0 <= j < entries@.len() && (#[trigger] entries@[j]).0@ == key;
                        assert(decode_utf8(es0[j].0) == key);
                    }
                    assert forall|a: int, b: int| 0 <= a < b < es0.len() implies decode_utf8(
                        #[trigger] es0[a].0,
                    ) != decode_utf8(#[trigger] es0[b].0) by {
                        assert(entries@[a].0@ != entries@[b].0@);
                    }
                }
                assert forall|es: Seq<(Seq<u8>, u64)>| #[trigger]
                    lists(es, values_map(*self)) implies es.len() + extra > u64::MAX by {
                    lemma_listings_same_len(es, es0, values_map(*self));
                }
            }
            return None;
        }
        let count = entries.len() as u64 + extra;
        write_u64(out, count);
        let ghost mut es: Seq<(Seq<u8>, u64)> = Seq::empty();
        let ghost base = out@;
        let mut i: usize = 0;
        while i < entries.len()
            invariant
                i <= entries@.len(),
                es.len() == i,
                base == old(out)@ + be_bytes(count as nat, 8),
                out@ == base + entries_bytes(es),
                forall|j: int| 0 <= j < i ==> (#[trigger] es[j]).0 == encode_utf8(entries@[j].0@)
                    && es[j].1 == entries@[j].1,
                forall|a: int, b: int|
                    0 <= a < b < entries@.len() ==> (#[trigger] entries@[a]).0@ != (
                    #[trigger] entries@[b]).0@,
                forall|j: int|
                    0 <= j < entries@.len() ==> values_map(*self).contains_key(
                        (#[trigger] entries@[j]).0@,
                    ) && values_map(*self)[entries@[j].0@] == entries@[j].1,
            decreases entries@.len() - i,
        {
            let name = entries[i].0.as_str().as_bytes();
            write_ascii(out, name);
            write_u64(out, entries[i].1);
            proof {
                let e2 = es.push((name@, entries@[i as int].1));
                assert(e2.drop_last() =~= es);
                assert(out@ =~= base + entries_bytes(e2));
                es = e2;
            }
            i = i + 1;
        }
        proof {
            assert forall|key: Seq<char>| #[trigger]
                values_map(*self).contains_key(key) implies exists|j: int|
                0 <= j < es.len() && decode_utf8(#[trigger] es[j].0) == key by {
                let j = choose|j: int| 0 <= j < entries@.len() && (#[trigger] entries@[j]).0@ == key;
                assert(decode_utf8(es[j].0) == key);
            }
            assert forall|a: int, b: int| 0 <= a < b < es.len() implies decode_utf8(
                #[trigger] es[a].0,
            ) != decode_utf8(#[trigger] es[b].0) by {
                assert(entries@[a].0@ != entries@[b].0@);
            }
        }
        Some(Ghost(es))
    }

    /// Write the body of a Values section.
    pub fn write(&self, out: &mut Vec<u8>)
        ensures
            exists|es: Seq<(Seq<u8>, u64)>|
                lists(es, values_map(*self)) && final(out)@ == old(out)@ + section_bytes(es),
    {
        let es = self.write_entries(out, 0);
        proof {
            let g = es.unwrap();
            assert(section_bytes(g@) =~= be_bytes((g@.len() + 0) as nat, 8) + entries_bytes(g@));
            assert(lists(g@, values_map(*self)) && final(out)@ == old(out)@ + section_bytes(g@));
        }
    }

    /// Write the body of the Values section that ends a file: the entries, then
    /// a `footer_size` entry whose value is the length of the whole section,
    /// its tag byte included.
    pub fn write_as_footer(&self, out: &mut Vec<u8>) -> (r: Result<()>)
        ensures
            match r {
                Ok(_) => exists|es: Seq<(Seq<u8>, u64)>|
                    {
                        &&& #[trigger] lists(es, values_map(*self))
                        &&& 1 + footer_body(es).len() + 8 <= u64::MAX
                        &&& final(out)@ == old(out)@ + footer_body(es) + be_bytes(
                            (1 + footer_body(es).len() + 8) as nat,
                            8,
                        )
                    },
                Err(e) => {
                    &&& e == Error::Kff(Kff::FooterSizeNotCorrect)
                    &&& forall|es: Seq<(Seq<u8>, u64)>|
                        #[trigger] lists(es, values_map(*self)) ==> 1 + footer_body(es).len() + 8
                            > u64::MAX
                },
            },
    {
        let start = out.len();
        let es = match self.write_entries(out, 1) {
            Some(es) => es,
            None => {
                proof {
                    assert forall|es: Seq<(Seq<u8>, u64)>| #[trigger]
                        lists(es, values_map(*self)) implies 1 + footer_body(es).len() + 8
                        > u64::MAX by {
                        crate::codec::lemma_be_bytes_len((es.len() + 1) as nat, 8);
                        lemma_entries_min_len(es);
                    }
                }
                return Err(Error::Kff(Kff::FooterSizeNotCorrect));
            },
        };
        write_ascii(out, &[102u8, 111u8, 111u8, 116u8, 101u8, 114u8, 95u8, 115u8, 105u8, 122u8, 101u8]);
        let written = out.len() - start;
        if written as u64 > u64::MAX - 9 {
            proof {
                crate::codec::lemma_be_bytes_len((es@.len() + 1) as nat, 8);
                assert(written == footer_body(es@).len());
                assert forall|es2: Seq<(Seq<u8>, u64)>| #[trigger]
                    lists(es2, values_map(*self)) implies 1 + footer_body(es2).len() + 8
                    > u64::MAX by {
                    lemma_listings_same_len(es2, es@, values_map(*self));
                    crate::codec::lemma_be_bytes_len((es2.len() + 1) as nat, 8);
                }
            }
            return Err(Error::Kff(Kff::FooterSizeNotCorrect));
        }
        let ghost mid = out@;
        write_u64(out, written as u64 + 9);
        proof {
            assert(mid =~= old(out)@ + footer_body(es@));
        }
        Ok(())
    }

    /// The value of `name`, which is required.
    pub fn field(&self, name: &str) -> (r: Result<u64>)
        ensures
            match r {
                Ok(v) => values_map(*self).contains_key(name@) && values_map(*self)[name@] == v,
                Err(e) => !values_map(*self).contains_key(name@) && (e matches Error::Kff(
                    Kff::FieldIsMissing(n),
                ) && n@ == name@),
            },
    {
        match self.get(name) {
            Some(v) => Ok(v),
            None => Err(Error::Kff(Kff::FieldIsMissing(name.to_owned()))),
        }
    }

    /// Size of the k-mers: the value of `k`.
    pub fn k(&self) -> (r: Result<u64>)
        ensures
            match r {
                Ok(v) => values_map(*self).contains_key("k"@) && values_map(*self)["k"@] == v,
                Err(e) => !values_map(*self).contains_key("k"@) && (e matches Error::Kff(
                    Kff::FieldIsMissing(n),
                ) && n@ == "k"@),
            },
    {
        self.field("k")
    }

    /// Size of the minimizers: the value of `m`.
    pub fn m(&self) -> (r: Result<u64>)
        ensures
            match r {
                Ok(v) => values_map(*self).contains_key("m"@) && values_map(*self)["m"@] == v,
                Err(e) => !values_map(*self).contains_key("m"@) && (e matches Error::Kff(
                    Kff::FieldIsMissing(n),
                ) && n@ == "m"@),
            },
    {
        self.field("m")
    }

    /// Largest number of k-mers in a block: the value of `max`.
    pub fn max(&self) -> (r: Result<u64>)
        ensures
            match r {
                Ok(v) => values_map(*self).contains_key("max"@) && values_map(*self)["max"@] == v,
                Err(e) => !values_map(*self).contains_key("max"@) && (e matches Error::Kff(
                    Kff::FieldIsMissing(n),
                ) && n@ == "max"@),
            },
    {
        self.field("max")
    }

    /// Bytes of data per k-mer: the value of `data_size`.
    pub fn data_size(&self) -> (r: Result<u64>)
        ensures
            match r {
                Ok(v) => values_map(*self).contains_key("data_size"@) && values_map(*self)["data_size"@] == v,
                Err(e) => !values_map(*self).contains_key("data_size"@) && (e matches Error::Kff(
                    Kff::FieldIsMissing(n),
                ) && n@ == "data_size"@),
            },
    {
        self.field("data_size")
    }

    /// Nonzero when the k-mers of a section are in lexicographic order: the value of `ordered`.
    pub fn ordered(&self) -> (r: Result<u64>)
        ensures
            match r {
                Ok(v) => values_map(*self).contains_key("ordered"@) && values_map(*self)["ordered"@] == v,
                Err(e) => !values_map(*self).contains_key("ordered"@) && (e matches Error::Kff(
                    Kff::FieldIsMissing(n),
                ) && n@ == "ordered"@),
            },
    {
        self.field("ordered")
    }

    /// Position of the first Index section: the value of `first_index`.
    pub fn first_index(&self) -> (r: Result<u64>)
        ensures
            match r {
                Ok(v) => values_map(*self).contains_key("first_index"@) && values_map(*self)["first_index"@] == v,
                Err(e) => !values_map(*self).contains_key("first_index"@) && (e matches Error::Kff(
                    Kff::FieldIsMissing(n),
                ) && n@ == "first_index"@),
            },
    {
        self.field("first_index")
    }

    /// Length of the footer: the value of `footer_size`.
    pub fn footer_size(&self) -> (r: Result<u64>)
        ensures
            match r {
                Ok(v) => values_map(*self).contains_key("footer_size"@) && values_map(*self)["footer_size"@] == v,
                Err(e) => !values_map(*self).contains_key("footer_size"@) && (e matches Error::Kff(
                    Kff::FieldIsMissing(n),
                ) && n@ == "footer_size"@),
            },
    {
        self.field("footer_size")
    }
}

} // verus!
