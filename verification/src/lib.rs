//! Block-level storage core of a log-structured merge key-value engine.
//!
//! Sorted key/value pairs are packed into fixed-budget binary blocks by
//! [`builder::BlockBuilder`], read back entry by entry through
//! [`block_iterator::BlockIterator`], and an ordered sequence of blocks
//! forming a sorted table is traversed as one ordered stream by
//! [`table_iterator::SsTableIterator`].

pub mod block;
pub mod block_iterator;
pub mod builder;
pub mod keys;
pub mod laws;
pub mod layout;
pub mod table;
pub mod table_iterator;

pub use block::Block;
pub use block_iterator::BlockIterator;
pub use builder::BlockBuilder;
pub use keys::lex_le;
pub use keys::lex_lt;
pub use table::ReadBlockError;
pub use table::SsTable;
pub use table_iterator::SsTableIterator;
