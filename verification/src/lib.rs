//! A minimal content-addressable object store with a working-tree index.
//!
//! Objects (blobs, flat trees, commits) are stored under the SHA-1 digest of
//! their canonical byte encoding; the index snapshots filesystem metadata per
//! tracked path and is replaced atomically through a lock file.  All encoding,
//! decoding, ordering and change-detection logic is verified; file and
//! process I/O stays with the caller.

pub mod cache;
pub mod codec;
pub mod command;
pub mod config;
pub mod error;
pub mod hash;
pub mod lex;
pub mod object;
pub mod store;

pub use cache::{Cache, CacheEntry, CacheHeader, IndexFiles, StatData};
pub use command::{Opt, SubCommand};
pub use config::Config;
pub use error::GitError;
pub use hash::Sha1Hash;
pub use object::{Blob, Commit, GitObject, Tree, TreeEntry};

