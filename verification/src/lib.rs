//! A hierarchical directory layer over an object store.
//!
//! Directories and files live under UUID-named prefixes; a directory maps
//! names to UUIDs. A change of a directory is committed by writing one small
//! scatter object into it, and is folded into the directory's index later, by
//! compaction. Reads overlay the index with the scatter objects that have not
//! been folded yet. Deletion is in two phases and leaves tombstones, which
//! garbage collection reclaims after a retention period.
//!
//! This crate holds the rules: the formats of keys and bodies, the hash index
//! of a directory, which change of a name counts, what a listing shows, and
//! what each step of a multi-step operation does given the store's reply to
//! the step before it. Requests to the store are made by its caller.

pub mod blockptr;
pub mod bytes;
pub mod clock;
pub mod compact;
pub mod error;
pub mod file;
pub mod gc;
pub mod ident;
pub mod index;
pub mod intent;
pub mod interceptor;
pub mod layout;
pub mod lease;
pub mod links;
pub mod lock;
pub mod ondisk;
pub mod outside;
pub mod rename;
pub mod scatter;
pub mod store;
pub mod text;
pub mod tombstone;

pub use clock::unix_now_ms;
pub use compact::CompactStats;
pub use error::{Error, ErrorKind};
pub use gc::GcStats;
pub use ident::{Ulid, Uuid};
pub use interceptor::ScatterFirstInterceptor;
pub use layout::{HyperDirLayout, ROOT_DIR_UUID};
pub use lease::{CompactLeaseGuard, DEFAULT_COMPACT_LEASE_FILE, DEFAULT_COMPACT_LEASE_TTL_MS};
pub use lock::{Conflict, LockKind, LockTable, SetLkOutcome, DEFAULT_LOCK_TTL_MS};
pub use scatter::{
    DirScatterInode, DirScatterInodeOp, DEFAULT_DIR_INODE_SCATTER_FOLDER, DEFAULT_DIR_INODE_SUFFIX,
    DEFAULT_DIR_TOMBSTONE_SUFFIX,
};
pub use tombstone::TombstoneHeader;
