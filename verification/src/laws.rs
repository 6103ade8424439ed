//! The library's stated laws: round-trip of the block encoding, seek
//! minimality, global ordering of a table, cross-block seek, and seek
//! determinism.

use crate::block_iterator::first_geq;
use crate::block_iterator::lemma_first_geq_is_first;
use crate::block_iterator::lemma_first_geq_unique;
use crate::keys::lemma_lex_le_trans;
use crate::keys::lemma_lex_trichotomy;
use crate::keys::lex_le;
use crate::keys::lex_lt;
use crate::layout::encode_entries;
use crate::layout::encoding_wf;
use crate::layout::entries_of;
use crate::layout::lemma_append_entry;
use crate::layout::offsets_of;
use crate::table::entries_sorted;
use crate::table::entries_up_to;
use crate::table::lemma_entries_up_to_index;
use crate::table::lemma_entries_up_to_mono;
use crate::table::lemma_position_decompose;
use crate::table::SsTable;
use crate::table_iterator::SsTableIterator;
use vstd::prelude::*;

verus! {

/// Round trip of the block layout: encoding any entries back to back, with
/// the matching offset table, yields a well-described data region that
/// parses back to exactly those entries, in the same order.  The entries
/// must fit the format: no empty key, no key or value over 65535 bytes, and
/// a data region within 65535 bytes.
pub proof fn lemma_block_round_trip(es: Seq<(Seq<u8>, Seq<u8>)>)
    requires
        forall|i: int|
            0 <= i < es.len() ==> 1 <= (#[trigger] es[i]).0.len() <= 0xFFFF && es[i].1.len()
                <= 0xFFFF,
        encode_entries(es).len() <= 0xFFFF,
    ensures
        offsets_of(es).len() == es.len(),
        encoding_wf(encode_entries(es), offsets_of(es)),
        entries_of(encode_entries(es), offsets_of(es)) == es,
    decreases es.len(),
{
    if es.len() == 0 {
        assert(entries_of(encode_entries(es), offsets_of(es)) =~= es);
    } else {
        let pre = es.drop_last();
        let k = es.last().0;
        let v = es.last().1;
        assert(encode_entries(es) == encode_entries(pre) + crate::layout::encode_entry(k, v));
        assert(crate::layout::encode_entry(k, v).len() == 4 + k.len() + v.len());
        assert forall|i: int|
            0 <= i < pre.len() implies 1 <= (#[trigger] pre[i]).0.len() <= 0xFFFF
            && pre[i].1.len() <= 0xFFFF by {
            assert(pre[i] == es[i]);
        }
        lemma_block_round_trip(pre);
        lemma_append_entry(encode_entries(pre), offsets_of(pre), k, v);
        assert(entries_of(encode_entries(es), offsets_of(es)) =~= es) by {
            assert(entries_of(encode_entries(es), offsets_of(es)) == entries_of(
                encode_entries(pre),
                offsets_of(pre),
            ).push((k, v)));
            assert(pre.push((k, v)) =~= es);
        }
    }
}

/// Seek minimality: the position a seek lands on is the least one whose key
/// is at or after the target, and the seek runs past the end exactly when
/// every key comes before the target.
pub proof fn lemma_seek_finds_least(es: Seq<(Seq<u8>, Seq<u8>)>, k: Seq<u8>)
    ensures
        forall|i: int|
            0 <= i < es.len() && lex_le(k, (#[trigger] es[i]).0) ==> first_geq(es, k) <= i,
        first_geq(es, k) == es.len() <==> (forall|i: int|
            0 <= i < es.len() ==> lex_lt((#[trigger] es[i]).0, k)),
{
    lemma_first_geq_is_first(es, k);
    assert forall|i: int|
        0 <= i < es.len() && lex_le(k, (#[trigger] es[i]).0) implies first_geq(es, k) <= i by {
        if i < first_geq(es, k) {
            lemma_lex_trichotomy(es[i].0, k);
        }
    }
    if first_geq(es, k) < es.len() {
        lemma_lex_trichotomy(es[first_geq(es, k)].0, k);
    }
}

/// Global ordering: the concatenated entries of a well-formed table are
/// strictly sorted by key, so a full traversal yields every entry of every
/// block in one ascending run.
pub proof fn lemma_table_entries_sorted(t: &SsTable)
    requires
        t.wf(),
    ensures
        entries_sorted(t.entries()),
{
    let bs = t.block_entries();
    let nb = t.spec_num_blocks();
    assert forall|a: int, b: int|
        0 <= a < b < t.entries().len() implies lex_lt(
        #[trigger] t.entries()[a].0,
        #[trigger] t.entries()[b].0,
    ) by {
        let (i1, j1) = lemma_position_decompose(bs, nb, a);
        let (i2, j2) = lemma_position_decompose(bs, nb, b);
        if i1 == i2 {
            assert(entries_sorted(bs[i1]));
            assert(j1 < j2);
        } else if i1 < i2 {
            t.lemma_blocks_ordered(i1, i2, j1, j2);
        } else {
            assert(entries_up_to(bs, i2 + 1) == entries_up_to(bs, i2) + bs[i2]);
            lemma_entries_up_to_mono(bs, i2 + 1, i1);
            assert(false);
        }
    }
}

/// Cross-block seek: a target that falls strictly between the last key of
/// block `i` and the first key of block `i + 1` seeks to exactly the first
/// entry of block `i + 1`.
pub proof fn lemma_cross_block_seek(t: &SsTable, i: int, k: Seq<u8>)
    requires
        t.wf(),
        0 <= i,
        i + 1 < t.spec_num_blocks(),
        lex_lt(t.block_entries()[i].last().0, k),
        lex_lt(k, t.block_entries()[i + 1][0].0),
    ensures
        first_geq(t.entries(), k) == t.entries_before(i + 1),
        first_geq(t.entries(), k) < t.entries().len(),
        t.entries()[first_geq(t.entries(), k)] == t.block_entries()[i + 1][0],
{
    let bs = t.block_entries();
    let nb = t.spec_num_blocks();
    let p = t.entries_before(i + 1);
    lemma_entries_up_to_index(bs, nb, i + 1, 0);
    assert(t.entries()[p] == bs[i + 1][0]);
    assert forall|q: int| 0 <= q < p implies lex_lt(#[trigger] t.entries()[q].0, k) by {
        let (bj, l) = lemma_position_decompose(bs, nb, q);
        if bj > i {
            assert(entries_up_to(bs, i + 1).len() <= entries_up_to(bs, bj).len()) by {
                lemma_entries_up_to_mono(bs, i + 1, bj);
            }
            assert(false);
        }
        if bj < i {
            t.lemma_blocks_ordered(bj, i, l, bs[i].len() - 1);
        } else {
            assert(entries_sorted(bs[i]));
        }
        assert(lex_le(bs[bj][l].0, bs[i].last().0));
        lemma_lex_le_trans(bs[bj][l].0, bs[i].last().0, k);
    }
    lemma_first_geq_unique(t.entries(), k, p);
}

/// Block-boundary discipline: while a table iterator points at an entry,
/// its recorded block ordinal is exactly the block whose entry range
/// contains the iterator's position, so the ordinal changes precisely when
/// the position crosses a block boundary.
pub proof fn lemma_block_ordinal_brackets(it: &SsTableIterator)
    requires
        it.wf(),
        it.spec_valid(),
    ensures
        0 <= it.spec_block_idx() < it.spec_table().spec_num_blocks(),
        it.spec_table().entries_before(it.spec_block_idx()) <= it.pos(),
        it.pos() < it.spec_table().entries_before(it.spec_block_idx() + 1),
{
    let t = it.spec_table();
    let bs = t.block_entries();
    let bi = it.spec_block_idx();
    assert(entries_up_to(bs, bi + 1) == entries_up_to(bs, bi) + bs[bi]);
}

/// Seek determinism: two well-formed iterators over the same table that
/// stand at the same position agree on validity, and while valid they stand
/// in the same block and expose the same current entry.
pub proof fn lemma_same_position_same_view(a: &SsTableIterator, b: &SsTableIterator)
    requires
        a.wf(),
        b.wf(),
        a.spec_table() == b.spec_table(),
        a.pos() == b.pos(),
    ensures
        a.spec_valid() == b.spec_valid(),
        a.spec_valid() ==> {
            &&& a.spec_block_idx() == b.spec_block_idx()
            &&& a.entries()[a.pos()] == b.entries()[b.pos()]
        },
{
    a.lemma_pos_range();
    b.lemma_pos_range();
    if a.spec_valid() {
        let t = a.spec_table();
        let bs = t.block_entries();
        if a.spec_block_idx() < b.spec_block_idx() {
            assert(entries_up_to(bs, a.spec_block_idx() + 1) == entries_up_to(
                bs,
                a.spec_block_idx(),
            ) + bs[a.spec_block_idx()]);
            lemma_entries_up_to_mono(bs, a.spec_block_idx() + 1, b.spec_block_idx());
            assert(false);
        }
        if b.spec_block_idx() < a.spec_block_idx() {
            assert(entries_up_to(bs, b.spec_block_idx() + 1) == entries_up_to(
                bs,
                b.spec_block_idx(),
            ) + bs[b.spec_block_idx()]);
            lemma_entries_up_to_mono(bs, b.spec_block_idx() + 1, a.spec_block_idx());
            assert(false);
        }
    }
}

} // verus!
