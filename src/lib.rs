//! The change-detection core of a deduplicating backup engine: file
//! snapshots, the concurrent index that remembers them, and the bridge that
//! stores that index as one named field of a metadata object.
pub mod chunks;
pub mod entry;
pub mod field;
pub mod files;

pub use chunks::ChunkPointer;
pub use entry::{Entry, EntryView};
pub use field::{FieldBuffer, FieldCursor, FieldError, FieldReader, FieldWriter};
pub use files::{FileIndex, FileStore};
