//! A file system kept inside an embedded key-value store.
//!
//! Directories and files are buckets of the store; every operation runs
//! inside one transaction, which its caller opens and commits. The effect
//! of each operation on the contents of the transaction is stated over a
//! mathematical model of those contents and proved against the contracts
//! of the store's calls.
//!
//! Every bucket of the file system lies at the root of the store, under a
//! name built from the path of its directory: the root is `root-d`, its
//! directory `a` is `root/a-d`, the file `f` in there is `root/a/f-f`. A
//! directory's bucket holds the nested bucket `data`, its index, with one
//! key per child; a file's bucket holds its content under the key `data`.
//! What lies below a directory is told by the path alone: every bucket
//! whose path begins with the directory's path without its mark, and a
//! slash. A directory that is deleted takes all of that with it; a
//! directory that is renamed does so too and arrives empty under its new
//! name. One consequence is worth knowing: a name with a slash in it
//! can lie below another directory, meets the buckets of that directory's
//! children, and goes when that directory goes.
pub mod content;
pub mod encoder;
pub mod error;
pub mod fs;
pub mod laws;
pub mod model;
pub mod ops;
pub mod store;
pub mod text;

pub use error::Error;
pub use fs::{DbFileSystem, Dir, File, SafeDb};
