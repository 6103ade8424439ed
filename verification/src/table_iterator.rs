//! Single ordered cursor over all entries of a sorted table.
//!
//! The iterator holds a shared handle to its table, the cursor of the block
//! it currently stands in, and that block's ordinal.  Advancing walks across
//! block boundaries transparently; seeking lands on the first entry of the
//! whole table whose key is at or after the target.

use crate::block_iterator::first_geq;
use crate::block_iterator::lemma_first_geq_is_first;
use crate::block_iterator::lemma_first_geq_unique;
use crate::block_iterator::BlockIterator;
use crate::keys::lemma_lex_le_trans;
use crate::keys::lex_le;
use crate::keys::lex_lt;
use crate::table::entries_up_to;
use crate::table::lemma_entries_up_to_index;
use crate::table::lemma_entries_up_to_mono;
use crate::table::lemma_position_decompose;
use crate::table::ReadBlockError;
use crate::table::SsTable;
use std::sync::Arc;
use vstd::prelude::*;

verus! {

/// Cursor over the whole table: the table, the active block cursor, and the
/// ordinal of the block that cursor belongs to.
pub struct SsTableIterator {
    pub(crate) table: Arc<SsTable>,
    pub(crate) block_iter: BlockIterator,
    pub(crate) block_idx: usize,
}

impl SsTableIterator {
    /// The table being iterated.
    pub open(crate) spec fn spec_table(&self) -> SsTable {
        *self.table
    }

    /// All entries of the table, in order.
    pub open(crate) spec fn entries(&self) -> Seq<(Seq<u8>, Seq<u8>)> {
        (*self.table).entries()
    }

    /// Ordinal of the active block.
    pub open(crate) spec fn spec_block_idx(&self) -> int {
        self.block_idx as int
    }

    /// The cursor points at an entry.
    pub open(crate) spec fn spec_valid(&self) -> bool {
        self.block_iter.spec_valid()
    }

    /// Position in the table's total order: the index of the current entry,
    /// or the entry count once the table is exhausted.
    pub open(crate) spec fn pos(&self) -> int {
        if self.spec_valid() {
            (*self.table).entries_before(self.spec_block_idx()) + self.block_iter.spec_idx()
        } else {
            self.entries().len() as int
        }
    }

    /// The table and the active cursor are well formed; while the cursor is
    /// valid it stands in the block of its recorded ordinal, and once it is
    /// invalid the ordinal has passed the last block.
    pub open(crate) spec fn wf(&self) -> bool {
        &&& (*self.table).wf()
        &&& self.block_iter.wf()
        &&& (self.spec_valid() ==> {
            &&& self.spec_block_idx() < (*self.table).spec_num_blocks()
            &&& self.block_iter.entries() == (*self.table).block_entries()[self.spec_block_idx()]
        })
        &&& (!self.spec_valid() ==> self.spec_block_idx() == (*self.table).spec_num_blocks())
    }
}

impl SsTableIterator {
    /// A well-formed iterator's position is within the table, and it points
    /// at an entry exactly while its position has not reached the entry
    /// count.
    pub(crate) proof fn lemma_pos_range(&self)
        requires
            self.wf(),
        ensures
            0 <= self.pos() <= self.entries().len(),
            self.spec_valid() <==> self.pos() < self.entries().len(),
    {
        let t = self.spec_table();
        if self.spec_valid() {
            lemma_entries_up_to_index(
                t.block_entries(),
                t.spec_num_blocks(),
                self.spec_block_idx(),
                self.block_iter.spec_idx(),
            );
        }
    }

    /// While the iterator points at an entry, that entry is the one at its
    /// position in the table's total order.
    pub(crate) proof fn lemma_current_entry(&self)
        requires
            self.wf(),
            self.spec_valid(),
        ensures
            0 <= self.pos() < self.entries().len(),
            self.entries()[self.pos()] == self.block_iter.entries()[self.block_iter.spec_idx()],
    {
        let t = self.spec_table();
        lemma_entries_up_to_index(
            t.block_entries(),
            t.spec_num_blocks(),
            self.spec_block_idx(),
            self.block_iter.spec_idx(),
        );
    }
}

/// Where the block chosen by the first-key search puts the target key in the
/// table's total order: the first entry of the whole table at or after `k`
/// is the first such entry of block `f`, counted from that block's start —
/// or, when block `f` has none, the first entry of the next block.
proof fn lemma_seek_block_position(t: &SsTable, k: Seq<u8>, f: int)
    requires
        t.wf(),
        0 <= f < t.spec_num_blocks(),
        forall|j: int| f < j < t.spec_num_blocks() ==> lex_lt(k, t.spec_first_key(j)),
        f > 0 ==> lex_le(t.spec_first_key(f), k),
    ensures
        first_geq(t.entries(), k) == t.entries_before(f) + first_geq(t.block_entries()[f], k),
{
    let bs = t.block_entries();
    let nb = t.spec_num_blocks();
    let lf = first_geq(bs[f], k);
    lemma_first_geq_is_first(bs[f], k);
    let p = t.entries_before(f) + lf;
    assert(entries_up_to(bs, f + 1) == entries_up_to(bs, f) + bs[f]);
    lemma_entries_up_to_mono(bs, f + 1, nb);
    assert(p <= t.entries().len());
    assert forall|q: int| 0 <= q < p implies lex_lt(#[trigger] t.entries()[q].0, k) by {
        let (i, j) = lemma_position_decompose(bs, nb, q);
        if i == f {
            assert(j < lf);
            assert(lex_lt(bs[f][j].0, k));
        } else if i < f {
            t.lemma_blocks_ordered(i, f, j, 0);
            assert(t.spec_first_key(f) == bs[f][0].0);
            lemma_lex_le_trans(bs[i][j].0, bs[f][0].0, k);
        } else {
            lemma_entries_up_to_mono(bs, f + 1, i);
            assert(q >= entries_up_to(bs, i).len());
            assert(false);
        }
    }
    if p < t.entries().len() {
        if lf < bs[f].len() {
            lemma_entries_up_to_index(bs, nb, f, lf);
            assert(t.entries()[p] == bs[f][lf]);
            assert(lex_le(k, t.entries()[p].0));
        } else {
            let (i, j) = lemma_position_decompose(bs, nb, p);
            if i <= f {
                assert(entries_up_to(bs, i + 1) == entries_up_to(bs, i) + bs[i]);
                lemma_entries_up_to_mono(bs, i + 1, f + 1);
                assert(false);
            }
            assert(t.spec_first_key(i) == bs[i][0].0);
            assert(lex_lt(k, bs[i][0].0));
            if j > 0 {
                assert(lex_lt(bs[i][0].0, bs[i][j].0));
                crate::keys::lemma_lex_lt_trans(k, bs[i][0].0, bs[i][j].0);
            }
            assert(lex_le(k, t.entries()[p].0));
        }
    }
    lemma_first_geq_unique(t.entries(), k, p);
}

impl SsTableIterator {
    fn seek_to_first_inner(table: &Arc<SsTable>) -> (r: Result<
        (usize, BlockIterator),
        ReadBlockError,
    >)
        requires
            (**table).wf(),
        ensures
            match r {
                Ok((bi, it)) => {
                    &&& (**table).spec_num_blocks() > 0
                    &&& bi == 0
                    &&& it.wf()
                    &&& it.entries() == (**table).block_entries()[0]
                    &&& it.spec_idx() == 0
                    &&& it.spec_valid()
                },
                Err(e) => {
                    &&& (**table).spec_num_blocks() == 0
                    &&& e.block_idx == 0
                },
            },
    {
        match table.read_block_cached(0) {
            Ok(b) => Ok((0, BlockIterator::create_and_seek_to_first(b))),
            Err(e) => Err(e),
        }
    }

    /// Creates an iterator positioned on the first entry of the first block.
    /// Fails exactly when the table has no blocks.
    pub fn create_and_seek_to_first(table: Arc<SsTable>) -> (r: Result<
        SsTableIterator,
        ReadBlockError,
    >)
        requires
            (*table).wf(),
        ensures
            r is Ok <==> (*table).spec_num_blocks() > 0,
            match r {
                Ok(it) => {
                    &&& it.wf()
                    &&& it.spec_table() == *table
                    &&& it.pos() == 0
                    &&& it.spec_valid()
                },
                Err(e) => e.block_idx == 0,
            },
    {
        match Self::seek_to_first_inner(&table) {
            Ok((block_idx, block_iter)) => {
                let iter = SsTableIterator { block_iter, table, block_idx };
                Ok(iter)
            },
            Err(e) => Err(e),
        }
    }

    /// Repositions on the first entry of the first block.  Fails exactly
    /// when the table has no blocks, leaving the iterator unchanged.
    pub fn seek_to_first(&mut self) -> (r: Result<(), ReadBlockError>)
        requires
            old(self).wf(),
        ensures
            final(self).wf(),
            final(self).spec_table() == old(self).spec_table(),
            r is Ok <==> old(self).spec_table().spec_num_blocks() > 0,
            r is Ok ==> final(self).pos() == 0 && final(self).spec_valid(),
            r is Err ==> *final(self) == *old(self),
    {
        match Self::seek_to_first_inner(&self.table) {
            Ok((block_idx, block_iter)) => {
                self.block_idx = block_idx;
                self.block_iter = block_iter;
                Ok(())
            },
            Err(e) => Err(e),
        }
    }

    fn seek_to_key_inner(table: &Arc<SsTable>, key: &[u8]) -> (r: Result<
        (usize, BlockIterator),
        ReadBlockError,
    >)
        requires
            (**table).wf(),
        ensures
            match r {
                Ok((bi, it)) => {
                    let t = **table;
                    &&& t.spec_num_blocks() > 0
                    &&& it.wf()
                    &&& (it.spec_valid() ==> {
                        &&& bi < t.spec_num_blocks()
                        &&& it.entries() == t.block_entries()[bi as int]
                        &&& t.entries_before(bi as int) + it.spec_idx() == first_geq(
                            t.entries(),
                            key@,
                        )
                    })
                    &&& (!it.spec_valid() ==> {
                        &&& bi == t.spec_num_blocks()
                        &&& first_geq(t.entries(), key@) == t.entries().len()
                    })
                },
                Err(e) => {
                    &&& (**table).spec_num_blocks() == 0
                    &&& e.block_idx == 0
                },
            },
    {
        let mut block_idx = table.find_block_idx(key);
        let ghost f = block_idx as int;
        match table.read_block_cached(block_idx) {
            Err(e) => Err(e),
            Ok(b) => {
                let ghost bs = table.block_entries();
                proof {
                    lemma_seek_block_position(&**table, key@, f);
                    lemma_first_geq_is_first(bs[f], key@);
                }
                let mut it = BlockIterator::create_and_seek_to_key(b, key);
                if !it.is_valid() {
                    proof {
                        assert(entries_up_to(bs, f + 1) == entries_up_to(bs, f) + bs[f]);
                    }
                    let nb = table.num_of_blocks();
                    proof {
                        assert(block_idx < nb);
                    }
                    block_idx = block_idx + 1;
                    if block_idx < nb {
                        match table.read_block_cached(block_idx) {
                            Ok(b2) => {
                                it = BlockIterator::create_and_seek_to_first(b2);
                            },
                            Err(_) => {
                                proof {
                                    assert(false);
                                }
                            },
                        }
                    } else {
                        proof {
                            lemma_entries_up_to_mono(bs, f + 1, bs.len() as int);
                        }
                    }
                }
                Ok((block_idx, it))
            },
        }
    }

    /// Creates an iterator positioned on the first entry of the whole table
    /// whose key is at or after `key`; past every key the iterator is
    /// invalid.  Fails exactly when the table has no blocks.
    pub fn create_and_seek_to_key(table: Arc<SsTable>, key: &[u8]) -> (r: Result<
        SsTableIterator,
        ReadBlockError,
    >)
        requires
            (*table).wf(),
        ensures
            r is Ok <==> (*table).spec_num_blocks() > 0,
            match r {
                Ok(it) => {
                    &&& it.wf()
                    &&& it.spec_table() == *table
                    &&& it.pos() == first_geq((*table).entries(), key@)
                },
                Err(e) => e.block_idx == 0,
            },
    {
        match Self::seek_to_key_inner(&table, key) {
            Ok((block_idx, block_iter)) => {
                let iter = SsTableIterator { block_iter, table, block_idx };
                Ok(iter)
            },
            Err(e) => Err(e),
        }
    }

    /// Repositions on the first entry whose key is at or after `key`.  Fails
    /// exactly when the table has no blocks, leaving the iterator unchanged.
    pub fn seek_to_key(&mut self, key: &[u8]) -> (r: Result<(), ReadBlockError>)
        requires
            old(self).wf(),
        ensures
            final(self).wf(),
            final(self).spec_table() == old(self).spec_table(),
            r is Ok <==> old(self).spec_table().spec_num_blocks() > 0,
            r is Ok ==> final(self).pos() == first_geq(old(self).entries(), key@),
            r is Err ==> *final(self) == *old(self),
    {
        match Self::seek_to_key_inner(&self.table, key) {
            Ok((block_idx, block_iter)) => {
                self.block_idx = block_idx;
                self.block_iter = block_iter;
                Ok(())
            },
            Err(e) => Err(e),
        }
    }

    /// The key of the current entry.
    pub fn key(&self) -> (r: &[u8])
        requires
            self.wf(),
            self.spec_valid(),
        ensures
            r@ == self.entries()[self.pos()].0,
    {
        proof {
            self.lemma_current_entry();
        }
        self.block_iter.key()
    }

    /// The value of the current entry.
    pub fn value(&self) -> (r: &[u8])
        requires
            self.wf(),
            self.spec_valid(),
        ensures
            r@ == self.entries()[self.pos()].1,
    {
        proof {
            self.lemma_current_entry();
        }
        self.block_iter.value()
    }

    /// Whether the iterator points at an entry.
    pub fn is_valid(&self) -> (r: bool)
        requires
            self.wf(),
        ensures
            r == self.spec_valid(),
    {
        self.block_iter.is_valid()
    }

    /// Advances one position in the table's total order, crossing into the
    /// next block exactly when the current block's entries are exhausted;
    /// after the last entry of the last block the iterator becomes invalid.
    /// With the table's blocks held in memory the underlying block read
    /// cannot fail.
    pub fn next(&mut self) -> (r: Result<(), ReadBlockError>)
        requires
            old(self).wf(),
            old(self).spec_valid(),
        ensures
            final(self).wf(),
            final(self).spec_table() == old(self).spec_table(),
            r is Ok,
            final(self).pos() == old(self).pos() + 1,
            final(self).spec_valid() <==> old(self).pos() + 1 < old(self).entries().len(),
    {
        let ghost t = old(self).spec_table();
        let ghost bi = old(self).spec_block_idx();
        proof {
            old(self).lemma_pos_range();
        }
        self.block_iter.next();
        if !self.block_iter.is_valid() {
            proof {
                assert(entries_up_to(t.block_entries(), bi + 1) == entries_up_to(
                    t.block_entries(),
                    bi,
                ) + t.block_entries()[bi]);
            }
            let nb = self.table.num_of_blocks();
            proof {
                assert(self.block_idx < nb);
            }
            let new_idx = self.block_idx + 1;
            self.block_idx = new_idx;
            if new_idx < nb {
                match self.table.read_block_cached(new_idx) {
                    Ok(b) => {
                        self.block_iter = BlockIterator::create_and_seek_to_first(b);
                    },
                    Err(_) => {
                        proof {
                            assert(false);
                        }
                    },
                }
            } else {
                proof {
                    lemma_entries_up_to_mono(t.block_entries(), bi + 1, t.spec_num_blocks());
                }
            }
        }
        proof {
            self.lemma_pos_range();
        }
        Ok(())
    }
}

} // verus!
