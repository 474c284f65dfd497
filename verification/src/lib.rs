//! The page layer of an embedded storage engine.
//!
//! Pages are `PAGE_SIZE` bytes in a slotted format with a byte-exact
//! little-endian layout (`layout`, `model`, `page`, `slot_dir`,
//! `compaction`). Records that carry a key are cells (`cells`, `node`).
//! Payloads too long for a page go to overflow chains (`overflow`). A
//! buffer pool keeps pages in memory under pins and latches (`latch`,
//! `pool`). The page manager carries out edits so that a page that others
//! may read is never changed (`mvcc`), and the meta page switches the
//! roots of the store in one step (`meta`).
//!
//! Nothing here reads or writes a file or waits for anything: where that
//! is due, the answer of a function says so.

pub mod cells;
pub mod compaction;
pub mod error;
pub mod history;
pub mod ids;
pub mod latch;
pub mod layout;
pub mod meta;
pub mod model;
pub mod mvcc;
pub mod node;
pub mod overflow;
pub mod page;
pub mod pool;
pub mod slices;
pub mod slot_dir;
