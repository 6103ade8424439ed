//! Positioned cursor over one block's entries.

use crate::block::Block;
use crate::keys::bytes_lt;
use crate::keys::lemma_lex_trichotomy;
use crate::keys::lex_le;
use crate::keys::lex_lt;
use crate::layout::entry_end;
use crate::layout::key_at;
use crate::layout::key_len_at;
use crate::layout::val_at;
use crate::layout::val_len_at;
use std::sync::Arc;
use vstd::prelude::*;
use vstd::slice::slice_subrange;

verus! {

/// Index of the first entry of `es` whose key is at or after `k`, or
/// `es.len()` when every key comes before `k`.
pub open spec fn first_geq(es: Seq<(Seq<u8>, Seq<u8>)>, k: Seq<u8>) -> int
    decreases es.len(),
{
    if es.len() == 0 {
        0
    } else if lex_le(k, es[0].0) {
        0
    } else {
        1 + first_geq(es.drop_first(), k)
    }
}

/// `first_geq` is in range, every entry before it comes strictly before `k`,
/// and the entry at it (when there is one) is at or after `k`.
pub proof fn lemma_first_geq_is_first(es: Seq<(Seq<u8>, Seq<u8>)>, k: Seq<u8>)
    ensures
        0 <= first_geq(es, k) <= es.len(),
        forall|i: int| 0 <= i < first_geq(es, k) ==> lex_lt(#[trigger] es[i].0, k),
        first_geq(es, k) < es.len() ==> lex_le(k, es[first_geq(es, k)].0),
    decreases es.len(),
{
    if es.len() == 0 {
    } else if lex_le(k, es[0].0) {
    } else {
        lemma_lex_trichotomy(k, es[0].0);
        let tail = es.drop_first();
        lemma_first_geq_is_first(tail, k);
        assert forall|i: int| 0 <= i < first_geq(es, k) implies lex_lt(#[trigger] es[i].0, k) by {
            if i > 0 {
                assert(tail[i - 1] == es[i]);
            }
        }
        if first_geq(es, k) < es.len() {
            assert(tail[first_geq(tail, k)] == es[first_geq(es, k)]);
        }
    }
}

/// Any position that splits the entries into "strictly before `k`" on the
/// left and "at or after `k`" at itself is `first_geq`.
pub proof fn lemma_first_geq_unique(es: Seq<(Seq<u8>, Seq<u8>)>, k: Seq<u8>, p: int)
    requires
        0 <= p <= es.len(),
        forall|i: int| 0 <= i < p ==> lex_lt(#[trigger] es[i].0, k),
        p < es.len() ==> lex_le(k, es[p].0),
    ensures
        p == first_geq(es, k),
{
    let f = first_geq(es, k);
    lemma_first_geq_is_first(es, k);
    if p < f {
        assert(lex_lt(es[p].0, k));
        assert(lex_le(k, es[p].0));
        lemma_lex_trichotomy(es[p].0, k);
    } else if f < p {
        assert(lex_lt(es[f].0, k));
        assert(lex_le(k, es[f].0));
        lemma_lex_trichotomy(es[f].0, k);
    }
}

/// Cursor over one block: the block and the index of the current entry.
/// The cursor is valid while the index is within the entry count; advancing
/// past the last entry makes it invalid.
pub struct BlockIterator {
    pub(crate) block: Arc<Block>,
    pub(crate) idx: usize,
}

impl BlockIterator {
    /// The entries of the underlying block.
    pub open(crate) spec fn entries(&self) -> Seq<(Seq<u8>, Seq<u8>)> {
        self.block@
    }

    /// The current position.
    pub open(crate) spec fn spec_idx(&self) -> int {
        self.idx as int
    }

    /// The underlying block is well formed and the position is at most one
    /// past the last entry.
    pub open(crate) spec fn wf(&self) -> bool {
        &&& (*self.block).wf()
        &&& self.idx <= self.entries().len()
    }

    /// The cursor points at an entry.
    pub open(crate) spec fn spec_valid(&self) -> bool {
        self.spec_idx() < self.entries().len()
    }

    /// Creates a cursor positioned at the block's first entry.
    pub fn create_and_seek_to_first(block: Arc<Block>) -> (r: BlockIterator)
        requires
            (*block).wf(),
        ensures
            r.wf(),
            r.entries() == block@,
            r.spec_idx() == 0,
    {
        BlockIterator { block, idx: 0 }
    }

    /// Creates a cursor positioned at the first entry whose key is at or
    /// after `key`; the cursor is invalid when every key comes before `key`.
    pub fn create_and_seek_to_key(block: Arc<Block>, key: &[u8]) -> (r: BlockIterator)
        requires
            (*block).wf(),
        ensures
            r.wf(),
            r.entries() == block@,
            r.spec_idx() == first_geq(block@, key@),
    {
        let ghost es = block@;
        let mut it = BlockIterator::create_and_seek_to_first(block);
        let n = it.block.offsets.len();
        while it.idx < n && bytes_lt(it.key(), key)
            invariant
                it.wf(),
                it.entries() == es,
                n == es.len(),
                it.spec_idx() <= n,
                forall|j: int| 0 <= j < it.spec_idx() ==> lex_lt(#[trigger] es[j].0, key@),
            decreases n - it.idx,
        {
            it.idx = it.idx + 1;
        }
        proof {
            if it.spec_idx() < es.len() {
                lemma_lex_trichotomy(es[it.spec_idx()].0, key@);
            }
            lemma_first_geq_unique(es, key@, it.spec_idx());
        }
        it
    }

    /// The key of the current entry.
    pub fn key(&self) -> (r: &[u8])
        requires
            self.wf(),
            self.spec_valid(),
        ensures
            r@ == self.entries()[self.spec_idx()].0,
    {
        let o = self.block.offsets[self.idx] as usize;
        proof {
            assert(entry_end((*self.block).data@, o as int) <= (*self.block).data@.len());
            assert(key_len_at((*self.block).data@, o as int) >= 1);
        }
        let klen = crate::layout::read_u16_at(&self.block.data, o) as usize;
        let r = slice_subrange(self.block.data.as_slice(), o + 2, o + 2 + klen);
        proof {
            assert(r@ == key_at((*self.block).data@, o as int));
        }
        r
    }

    /// The value of the current entry.
    pub fn value(&self) -> (r: &[u8])
        requires
            self.wf(),
            self.spec_valid(),
        ensures
            r@ == self.entries()[self.spec_idx()].1,
    {
        let o = self.block.offsets[self.idx] as usize;
        proof {
            assert(entry_end((*self.block).data@, o as int) <= (*self.block).data@.len());
            assert(key_len_at((*self.block).data@, o as int) >= 1);
        }
        let klen = crate::layout::read_u16_at(&self.block.data, o) as usize;
        let vlen = crate::layout::read_u16_at(&self.block.data, o + 2 + klen) as usize;
        let r = slice_subrange(self.block.data.as_slice(), o + 4 + klen, o + 4 + klen + vlen);
        proof {
            assert(vlen as int == val_len_at((*self.block).data@, o as int));
            assert(r@ == val_at((*self.block).data@, o as int));
        }
        r
    }

    /// Whether the cursor points at an entry.
    pub fn is_valid(&self) -> (r: bool)
        requires
            self.wf(),
        ensures
            r == self.spec_valid(),
    {
        self.idx < self.block.offsets.len()
    }

    /// Advances to the next entry; past the last entry the cursor becomes
    /// invalid.
    pub fn next(&mut self)
        requires
            old(self).wf(),
            old(self).spec_valid(),
        ensures
            final(self).wf(),
            final(self).entries() == old(self).entries(),
            final(self).spec_idx() == old(self).spec_idx() + 1,
    {
        let n = self.block.offsets.len();
        proof {
            assert(self.idx < n);
        }
        self.idx = self.idx + 1;
    }
}

} // verus!
