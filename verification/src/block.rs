//! An immutable, encoded block of sorted key/value entries.

use crate::layout::encoding_wf;
use crate::layout::entries_of;
use vstd::prelude::*;

verus! {

/// A finished block: the back-to-back entry encodings in `data`, and one
/// starting offset per entry in `offsets`.  Built once by a
/// [`crate::builder::BlockBuilder`], immutable afterwards.
pub struct Block {
    pub(crate) data: Vec<u8>,
    pub(crate) offsets: Vec<u16>,
}

impl View for Block {
    type V = Seq<(Seq<u8>, Seq<u8>)>;

    open(crate) spec fn view(&self) -> Seq<(Seq<u8>, Seq<u8>)> {
        entries_of(self.data@, self.offsets@)
    }
}

impl Block {
    /// The offset table correctly describes the data region.
    pub open(crate) spec fn wf(&self) -> bool {
        encoding_wf(self.data@, self.offsets@)
    }
}

} // verus!
