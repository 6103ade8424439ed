//! Incremental construction of one block under a byte budget.

use crate::block::Block;
use crate::layout::be16;
use crate::layout::encode_entry;
use crate::layout::encoding_wf;
use crate::layout::entries_of;
use crate::layout::entry_end;
use crate::layout::lemma_append_entry;
use bytes::BufMut;
use vstd::prelude::*;

verus! {

/// Relies on `bytes::BufMut::put_u16` for `Vec<u8>`: appends exactly the two
/// big-endian bytes of `v` to the vector.
#[verifier::external_body]
fn put_u16_be(data: &mut Vec<u8>, v: u16)
    ensures
        final(data)@ == old(data)@ + be16(v as int),
{
    data.put_u16(v);
}

/// Relies on `bytes::BufMut::put` for `Vec<u8>`: appends all bytes of the
/// slice to the vector.
#[verifier::external_body]
fn put_bytes(data: &mut Vec<u8>, src: &[u8])
    ensures
        final(data)@ == old(data)@ + src@,
{
    data.put(src);
}

/// Packs sorted key/value pairs into the block binary layout, enforcing a
/// maximum serialized-size budget of `block_size` bytes.
pub struct BlockBuilder {
    pub(crate) data: Vec<u8>,
    pub(crate) offsets: Vec<u16>,
    pub(crate) block_size: usize,
}

impl View for BlockBuilder {
    type V = Seq<(Seq<u8>, Seq<u8>)>;

    open(crate) spec fn view(&self) -> Seq<(Seq<u8>, Seq<u8>)> {
        entries_of(self.data@, self.offsets@)
    }
}

impl BlockBuilder {
    /// The accumulated buffers encode the entries added so far, every offset
    /// fits the 16-bit offset table, and each entry occupies at least five
    /// bytes (two length fields of two bytes, one key byte).
    pub open(crate) spec fn wf(self) -> bool {
        &&& encoding_wf(self.data@, self.offsets@)
        &&& self.data@.len() <= 0xFFFF
        &&& 5 * self.offsets@.len() <= self.data@.len()
    }

    /// The bytes of the data region accumulated so far.
    pub open(crate) spec fn spec_data(self) -> Seq<u8> {
        self.data@
    }

    /// The byte budget this builder was created with.
    pub open(crate) spec fn spec_block_size(self) -> int {
        self.block_size as int
    }

    /// Running estimate of the final serialized size: two bytes per recorded
    /// offset, the data bytes, and a trailing two-byte entry count.
    pub open(crate) spec fn spec_estimated_size(self) -> int {
        self.offsets@.len() * 2 + self.data@.len() + 2int
    }

    /// The admission rule for a candidate pair with the given key and value
    /// lengths: an empty builder accepts unconditionally; otherwise the
    /// estimated size together with the pair's bytes and three new two-byte
    /// fields must stay within the budget.
    pub open(crate) spec fn spec_accepts(self, klen: int, vlen: int) -> bool {
        self@.len() == 0 || self.spec_estimated_size() + klen + vlen + 6 <= self.spec_block_size()
    }

    /// Creates an empty builder targeting a maximum serialized size of
    /// `block_size` bytes.
    pub fn new(block_size: usize) -> (r: BlockBuilder)
        ensures
            r.wf(),
            r@ =~= Seq::<(Seq<u8>, Seq<u8>)>::empty(),
            r.spec_data().len() == 0,
            r.spec_block_size() == block_size,
    {
        BlockBuilder { data: Vec::new(), offsets: Vec::new(), block_size }
    }

    fn estimated_size(&self) -> (r: usize)
        requires
            self.wf(),
        ensures
            r as int == self.spec_estimated_size(),
    {
        self.offsets.len() * 2 + self.data.len() + 2
    }

    /// True iff no key/value pair has been added yet.
    pub fn is_empty(&self) -> (r: bool)
        requires
            self.wf(),
        ensures
            r == (self@.len() == 0),
    {
        proof {
            if self.offsets@.len() > 0 {
                assert(entry_end(self.data@, self.offsets@[self.offsets@.len() - 1] as int)
                    == self.data@.len());
                assert(self.data@.len() >= 4);
            }
        }
        self.data.is_empty()
    }

    /// Appends one key/value pair, or reports that the block is full.
    ///
    /// The pair is accepted exactly when the builder is empty or the
    /// admission rule admits it; on acceptance the entry's binary encoding is
    /// appended and its starting offset recorded, otherwise nothing changes.
    /// Keys must not be empty, and because length fields and offsets are
    /// 16-bit, no key or value may exceed 65535 bytes and an accepted pair
    /// must keep the data region within 65535 bytes.
    pub fn add(&mut self, key: &[u8], value: &[u8]) -> (r: bool)
        requires
            old(self).wf(),
            1 <= key@.len() <= 0xFFFF,
            value@.len() <= 0xFFFF,
            old(self).spec_accepts(key@.len() as int, value@.len() as int) ==> old(
                self,
            ).spec_data().len() + 4 + key@.len() + value@.len() <= 0xFFFF,
        ensures
            final(self).wf(),
            r == old(self).spec_accepts(key@.len() as int, value@.len() as int),
            r ==> final(self)@ == old(self)@.push((key@, value@)),
            r ==> final(self).spec_data() == old(self).spec_data() + encode_entry(key@, value@),
            !r ==> *final(self) == *old(self),
            final(self).spec_block_size() == old(self).spec_block_size(),
    {
        let key_len: usize = key.len();
        let value_len: usize = value.len();
        if self.estimated_size() + key_len + value_len + 6 > self.block_size && !self.is_empty() {
            return false;
        }
        let ghost d0 = self.data@;
        let ghost offs0 = self.offsets@;
        proof {
            assert(d0.len() + 4 + key@.len() + value@.len() <= 0xFFFF);
        }
        let off: u16 = self.data.len() as u16;
        self.offsets.push(off);
        put_u16_be(&mut self.data, key_len as u16);
        put_bytes(&mut self.data, key);
        put_u16_be(&mut self.data, value_len as u16);
        put_bytes(&mut self.data, value);
        proof {
            assert(self.data@ =~= d0 + encode_entry(key@, value@));
            assert(self.offsets@ =~= offs0.push((d0.len() as u16)));
            lemma_append_entry(d0, offs0, key@, value@);
        }
        true
    }

    /// Consumes the builder, producing the finished immutable block.
    pub fn build(self) -> (r: Block)
        requires
            self.wf(),
        ensures
            r.wf(),
            r@ == self@,
    {
        Block { data: self.data, offsets: self.offsets }
    }
}

} // verus!
