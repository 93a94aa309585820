//! An embedded, single-process key-value store for UTF-8 strings, backed by a
//! partitioned append-only log.
//!
//! The engine works on a [`directory::Directory`], an in-memory image of the
//! one directory that holds the log. Every change the engine makes to that
//! image is also recorded as a [`directory::DiskOp`], so a host can carry the
//! changes over to a real file system. The changes of each operation are
//! ordered so that a host that stops after any of them has files from which
//! the store opens again, holding what it held before the operation or what
//! it holds after it.

pub mod clock;
pub mod compaction;
pub mod directory;
pub mod entry;
pub mod error;
pub mod index;
pub mod json;
pub mod laws;
pub mod log;
pub mod meta;
pub mod names;
pub mod partition;
pub mod records;
pub mod recovery;
pub mod replay;
pub mod store;
pub mod stream;

pub use crate::directory::{Directory, DiskOp};
pub use crate::entry::{Entry, KvsEntry};
pub use crate::error::{IoErrorKind, KvsError, Result, SerdeErrorKind};
pub use crate::log::{Log, LogIter};
pub use crate::names::meta_file_path;
pub use crate::partition::{LogPartition, LogPointer};
pub use crate::store::KvStore;
