//! A sorted table: an ordered, immutable sequence of blocks plus an
//! in-memory index holding each block's first key.

use crate::block::Block;
use crate::keys::bytes_le;
use crate::keys::lemma_lex_le_trans;
use crate::keys::lemma_lex_lt_trans;
use crate::keys::lex_le;
use crate::keys::lex_lt;
use crate::layout::entry_end;
use crate::layout::key_at;
use crate::layout::key_len_at;
use std::sync::Arc;
use vstd::prelude::*;
use vstd::slice::slice_subrange;
use vstd::slice::slice_to_vec;

verus! {

/// Keys are strictly increasing along the entry sequence.
pub open spec fn entries_sorted(es: Seq<(Seq<u8>, Seq<u8>)>) -> bool {
    forall|a: int, b: int| 0 <= a < b < es.len() ==> lex_lt(#[trigger] es[a].0, #[trigger] es[b].0)
}

/// The entries of blocks `0 .. n`, concatenated in ordinal order.
pub open spec fn entries_up_to(bs: Seq<Seq<(Seq<u8>, Seq<u8>)>>, n: int) -> Seq<(Seq<u8>, Seq<u8>)>
    decreases n,
{
    if n <= 0 {
        Seq::empty()
    } else {
        entries_up_to(bs, n - 1) + bs[n - 1]
    }
}

/// Concatenating more blocks never shortens the result.
pub proof fn lemma_entries_up_to_mono(bs: Seq<Seq<(Seq<u8>, Seq<u8>)>>, m: int, n: int)
    requires
        m <= n,
    ensures
        entries_up_to(bs, m).len() <= entries_up_to(bs, n).len(),
    decreases n - m,
{
    if m < n {
        lemma_entries_up_to_mono(bs, m, n - 1);
    }
}

/// Entry `j` of block `i` sits at global position `entries_up_to(bs, i).len() + j`.
pub proof fn lemma_entries_up_to_index(bs: Seq<Seq<(Seq<u8>, Seq<u8>)>>, n: int, i: int, j: int)
    requires
        0 <= i < n,
        0 <= j < bs[i].len(),
    ensures
        entries_up_to(bs, i).len() + j < entries_up_to(bs, n).len(),
        entries_up_to(bs, n)[entries_up_to(bs, i).len() + j] == bs[i][j],
    decreases n,
{
    if i < n - 1 {
        lemma_entries_up_to_index(bs, n - 1, i, j);
    }
}

/// Every global position within the concatenation of blocks `0 .. n` lies in
/// exactly one block: the returned pair is that block's ordinal and the
/// position within it.
pub proof fn lemma_position_decompose(bs: Seq<Seq<(Seq<u8>, Seq<u8>)>>, n: int, p: int) -> (r: (
    int,
    int,
))
    requires
        n >= 0,
        0 <= p < entries_up_to(bs, n).len(),
    ensures
        ({
            let (i, j) = r;
            &&& 0 <= i < n
            &&& 0 <= j < bs[i].len()
            &&& p == entries_up_to(bs, i).len() + j
            &&& entries_up_to(bs, n)[p] == bs[i][j]
        }),
    decreases n,
{
    if p < entries_up_to(bs, n - 1).len() {
        lemma_position_decompose(bs, n - 1, p)
    } else {
        (n - 1, p - entries_up_to(bs, n - 1).len())
    }
}

/// Failure to fetch a block: the requested ordinal is outside the table.
#[derive(Debug, Clone, Copy, PartialEq, Eq, Structural)]
pub struct ReadBlockError {
    pub block_idx: usize,
}

/// Relies on std's `Arc::clone`: the returned handle refers to the same
/// block, sharing it without copying the underlying buffers.
#[verifier::external_body]
fn arc_clone(a: &Arc<Block>) -> (r: Arc<Block>)
    ensures
        r == *a,
{
    a.clone()
}

/// An ordered, immutable sequence of blocks with globally sorted keys, plus
/// the per-block first-key index used for binary search.
pub struct SsTable {
    pub(crate) blocks: Vec<Arc<Block>>,
    pub(crate) first_keys: Vec<Vec<u8>>,
}

impl SsTable {
    /// Number of blocks.
    pub open(crate) spec fn spec_num_blocks(&self) -> int {
        self.blocks@.len() as int
    }

    /// The entry sequence of each block, in ordinal order.
    pub open(crate) spec fn block_entries(&self) -> Seq<Seq<(Seq<u8>, Seq<u8>)>> {
        Seq::new(self.blocks@.len() as nat, |i: int| self.blocks@[i]@)
    }

    /// All entries of the table, in ordinal order.
    pub open(crate) spec fn entries(&self) -> Seq<(Seq<u8>, Seq<u8>)> {
        entries_up_to(self.block_entries(), self.spec_num_blocks())
    }

    /// Number of entries stored in blocks before ordinal `i`.
    pub open(crate) spec fn entries_before(&self, i: int) -> int {
        entries_up_to(self.block_entries(), i).len() as int
    }

    /// First key of block `i`, as recorded in the index.
    pub open(crate) spec fn spec_first_key(&self, i: int) -> Seq<u8> {
        self.first_keys@[i]@
    }

    /// Every block is well formed and nonempty, the index records each
    /// block's first key, keys are strictly increasing within each block,
    /// and each block's last key comes strictly before the next block's
    /// first key.
    pub open(crate) spec fn wf(&self) -> bool {
        let bs = self.block_entries();
        &&& self.first_keys@.len() == self.blocks@.len()
        &&& (forall|i: int| 0 <= i < bs.len() ==> (*#[trigger] self.blocks@[i]).wf())
        &&& (forall|i: int| 0 <= i < bs.len() ==> (#[trigger] bs[i]).len() > 0)
        &&& (forall|i: int|
            0 <= i < bs.len() ==> (#[trigger] self.first_keys@[i])@ == bs[i][0].0)
        &&& (forall|i: int| 0 <= i < bs.len() ==> entries_sorted(#[trigger] bs[i]))
        &&& (forall|i: int|
            0 <= i && i + 1 < bs.len() ==> lex_lt(
                (#[trigger] bs[i]).last().0,
                bs[i + 1][0].0,
            ))
    }
}

impl SsTable {
    /// In a well-formed table, every key of block `i` comes strictly before
    /// every key of any later block `j`.
    pub proof fn lemma_blocks_ordered(&self, i: int, j: int, a: int, b: int)
        requires
            self.wf(),
            0 <= i < j < self.spec_num_blocks(),
            0 <= a < self.block_entries()[i].len(),
            0 <= b < self.block_entries()[j].len(),
        ensures
            lex_lt(self.block_entries()[i][a].0, self.block_entries()[j][b].0),
        decreases j - i,
    {
        let bs = self.block_entries();
        if j == i + 1 {
            // bs[i][a] <= last of block i < first of block i + 1 <= bs[j][b]
            lemma_lex_le_trans(bs[i][a].0, bs[i].last().0, bs[j][0].0);
            lemma_lex_le_trans(bs[i][a].0, bs[j][0].0, bs[j][b].0);
        } else {
            self.lemma_blocks_ordered(i, j - 1, a, 0);
            self.lemma_blocks_ordered(j - 1, j, 0, b);
            lemma_lex_lt_trans(bs[i][a].0, bs[j - 1][0].0, bs[j][b].0);
        }
    }
}

/// Executable read of the first key stored in a block.
fn first_key_of(b: &Block) -> (r: Vec<u8>)
    requires
        b.wf(),
        b@.len() > 0,
    ensures
        r@ == b@[0].0,
{
    let o = b.offsets[0] as usize;
    proof {
        assert(entry_end(b.data@, o as int) <= b.data@.len());
        assert(key_len_at(b.data@, o as int) >= 1);
    }
    let klen = crate::layout::read_u16_at(&b.data, o) as usize;
    let s = slice_subrange(b.data.as_slice(), o + 2, o + 2 + klen);
    proof {
        assert(s@ == key_at(b.data@, o as int));
    }
    slice_to_vec(s)
}

impl SsTable {
    /// Assembles a table from finished blocks, recording each block's first
    /// key in the index.  The caller supplies the blocks already globally
    /// sorted, each nonempty.
    pub fn new(blocks: Vec<Block>) -> (t: SsTable)
        requires
            forall|i: int| 0 <= i < blocks@.len() ==> (#[trigger] blocks@[i]).wf(),
            forall|i: int| 0 <= i < blocks@.len() ==> (#[trigger] blocks@[i])@.len() > 0,
            forall|i: int| 0 <= i < blocks@.len() ==> entries_sorted((#[trigger] blocks@[i])@),
            forall|i: int|
                0 <= i && i + 1 < blocks@.len() ==> lex_lt(
                    (#[trigger] blocks@[i])@.last().0,
                    blocks@[i + 1]@[0].0,
                ),
        ensures
            t.wf(),
            t.spec_num_blocks() == blocks@.len(),
            forall|i: int| 0 <= i < blocks@.len() ==> t.block_entries()[i] == (#[trigger] blocks@[i])@,
    {
        let ghost orig = blocks@;
        let mut rest = blocks;
        let mut arcs: Vec<Arc<Block>> = Vec::new();
        let mut fks: Vec<Vec<u8>> = Vec::new();
        while rest.len() > 0
            invariant
                arcs@.len() + rest@.len() == orig.len(),
                fks@.len() == arcs@.len(),
                rest@ == orig.skip(arcs@.len() as int),
                forall|i: int| 0 <= i < orig.len() ==> (#[trigger] orig[i]).wf(),
                forall|i: int| 0 <= i < orig.len() ==> (#[trigger] orig[i])@.len() > 0,
                forall|i: int| 0 <= i < arcs@.len() ==> *(#[trigger] arcs@[i]) == orig[i],
                forall|i: int| 0 <= i < arcs@.len() ==> (#[trigger] fks@[i])@ == orig[i]@[0].0,
            decreases rest@.len(),
        {
            let ghost k = arcs@.len() as int;
            let b = rest.remove(0);
            proof {
                assert(b == orig.skip(k)[0]);
                assert(b == orig[k]);
                assert(rest@ =~= orig.skip(k + 1));
            }
            let fk = first_key_of(&b);
            fks.push(fk);
            arcs.push(Arc::new(b));
        }
        let t = SsTable { blocks: arcs, first_keys: fks };
        proof {
            let bs = t.block_entries();
            assert forall|i: int| 0 <= i < bs.len() implies (#[trigger] bs[i]) == orig[i]@ && (
            *t.blocks@[i]).wf() by {
                assert(*t.blocks@[i] == orig[i]);
                assert(orig[i].wf());
            }
            assert forall|i: int| 0 <= i < bs.len() implies (#[trigger] bs[i]).len() > 0 by {
                assert(orig[i]@.len() > 0);
            }
            assert forall|i: int|
                0 <= i < bs.len() implies (#[trigger] t.first_keys@[i])@ == bs[i][0].0 by {
                assert(fks@[i]@ == orig[i]@[0].0);
            }
            assert forall|i: int| 0 <= i < bs.len() implies entries_sorted(#[trigger] bs[i]) by {
                assert(entries_sorted(orig[i]@));
            }
            assert forall|i: int|
                0 <= i && i + 1 < bs.len() implies lex_lt((#[trigger] bs[i]).last().0, bs[i + 1][0].0) by {
                assert(bs[i] == orig[i]@);
                assert(bs[i + 1] == orig[i + 1]@);
                assert(lex_lt(orig[i]@.last().0, orig[i + 1]@[0].0));
            }
            assert(t.wf());
        }
        t
    }

    /// Number of blocks in the table.
    pub fn num_of_blocks(&self) -> (r: usize)
        ensures
            r == self.spec_num_blocks(),
    {
        self.blocks.len()
    }

    /// Fetches block `block_idx` for reading, sharing rather than copying
    /// it.  Fails exactly when the ordinal is outside the table.
    pub fn read_block_cached(&self, block_idx: usize) -> (r: Result<Arc<Block>, ReadBlockError>)
        requires
            self.wf(),
        ensures
            match r {
                Ok(b) => {
                    &&& block_idx < self.spec_num_blocks()
                    &&& (*b).wf()
                    &&& b@ == self.block_entries()[block_idx as int]
                },
                Err(e) => {
                    &&& block_idx >= self.spec_num_blocks()
                    &&& e.block_idx == block_idx
                },
            },
    {
        if block_idx < self.blocks.len() {
            Ok(arc_clone(&self.blocks[block_idx]))
        } else {
            Err(ReadBlockError { block_idx })
        }
    }

    /// Binary search over the first-key index: the ordinal of the last block
    /// whose first key is at or before `key`, or block 0 when every first
    /// key comes after `key`.  A key equal to a block's first key selects
    /// that block.
    pub fn find_block_idx(&self, key: &[u8]) -> (r: usize)
        requires
            self.wf(),
        ensures
            self.spec_num_blocks() > 0 ==> r < self.spec_num_blocks(),
            self.spec_num_blocks() == 0 ==> r == 0,
            forall|j: int| r < j < self.spec_num_blocks() ==> lex_lt(key@, self.spec_first_key(j)),
            r > 0 ==> lex_le(self.spec_first_key(r as int), key@),
    {
        proof {
            assert forall|i: int, j: int|
                0 <= i < j < self.spec_num_blocks() implies lex_lt(
                self.spec_first_key(i),
                self.spec_first_key(j),
            ) by {
                self.lemma_blocks_ordered(i, j, 0, 0);
            }
        }
        let n = self.first_keys.len();
        let mut lo: usize = 0;
        let mut hi: usize = n;
        while lo < hi
            invariant
                self.wf(),
                n == self.first_keys@.len(),
                lo <= hi <= n,
                forall|i: int| 0 <= i < lo ==> lex_le(self.spec_first_key(i), key@),
                forall|i: int| hi <= i < n ==> lex_lt(key@, self.spec_first_key(i)),
                forall|i: int, j: int|
                    0 <= i < j < n ==> lex_lt(
                        #[trigger] self.spec_first_key(i),
                        #[trigger] self.spec_first_key(j),
                    ),
            decreases hi - lo,
        {
            let mid = lo + (hi - lo) / 2;
            let fk: &Vec<u8> = &self.first_keys[mid];
            if bytes_le(fk.as_slice(), key) {
                proof {
                    assert forall|i: int| 0 <= i < mid + 1 implies lex_le(
                        self.spec_first_key(i),
                        key@,
                    ) by {
                        if i < mid {
                            lemma_lex_le_trans(
                                self.spec_first_key(i),
                                self.spec_first_key(mid as int),
                                key@,
                            );
                        }
                    }
                }
                lo = mid + 1;
            } else {
                proof {
                    crate::keys::lemma_lex_trichotomy(self.spec_first_key(mid as int), key@);
                    assert forall|i: int| mid <= i < n implies lex_lt(
                        key@,
                        self.spec_first_key(i),
                    ) by {
                        if i > mid {
                            lemma_lex_lt_trans(
                                key@,
                                self.spec_first_key(mid as int),
                                self.spec_first_key(i),
                            );
                        }
                    }
                }
                hi = mid;
            }
        }
        if lo == 0 {
            0
        } else {
            lo - 1
        }
    }
}

} // verus!
