//! An embeddable ordered key-value storage engine organised as a
//! log-structured merge tree.

pub mod checksum;
pub mod endian;
pub mod error;
pub mod foreign;
pub mod iterators;
pub mod key;
pub mod level;
pub mod lsm_iterator;
pub mod lsm_storage;
pub mod manifest;
pub mod mem_table;
pub mod opt;
pub mod table;
pub mod util;
pub mod wal;
pub mod block;
pub mod bloom;
