//! The handles that callers hold: the file system, its directories and
//! its files.
//!
//! A handle is a reference to the store and the path of a bucket. Every
//! operation takes an open transaction of the handle's store and says in
//! its contract what it does to it, over the handle's path, the name's
//! bytes and the kind. Opening the transaction and committing it is the
//! caller's: one transaction for each operation, read-only where the
//! operation only reads, dropped where `worth_committing` says so and
//! committed otherwise, the result handed to `conclude`.
use crate::content::read_spec;
use crate::encoder::Kind;
use crate::error::Error;
use crate::model::{bootstrap_effect, clear_effect, create_effect, delete_effect, deleted_alone,
    dir_ready, file_content, find_spec, index_clean, is_listing, is_partial_listing,
    lies_between, rename_effect, renamed_alone, root_path, write_effect, Effect, Lookup};
use crate::ops::{bootstrap, clear_file, create_entry, delete_entry, file_size, find_entry,
    list_entries, read_file, rename_entry, root_name, same_bytes, write_file};
use crate::store::{cursor_whole, is_bucket, tx_entries, tx_pristine, tx_writable};
use crate::text::{name_bytes, names_bytes};
use std::sync::Arc;
use vstd::prelude::*;
use vstd::utf8::encode_utf8;

verus! {

/// The store, shared by all handles.
pub struct SafeDb(pub jammdb::DB);

/// A handle on one file.
pub struct File {
    db: Arc<SafeDb>,
    path: Vec<u8>,
}

/// A handle on one directory.
pub struct Dir {
    db: Arc<SafeDb>,
    path: Vec<u8>,
}

/// The file system on one store.
pub struct DbFileSystem {
    db: Arc<SafeDb>,
}

/// The store failed in the operation, or met what it cannot classify: its
/// transaction is to be dropped.
pub open spec fn to_drop<T>(outcome: Result<T, Error>) -> bool {
    match outcome {
        Err(Error::DBError(_)) => true,
        Err(Error::Other) => true,
        _ => false,
    }
}

/// What an operation returns once its transaction was committed: its own
/// outcome where the commit went through, and the store's error where it
/// did not.
pub fn conclude<T>(outcome: Result<T, Error>, committed: Result<(), jammdb::Error>) -> (r: Result<
    T,
    Error,
>)
    ensures
        committed is Ok ==> r == outcome,
        committed matches Err(e) ==> r == Err::<T, Error>(Error::DBError(e)),
{
    match committed {
        Ok(()) => outcome,
        Err(e) => Err(Error::DBError(e)),
    }
}

/// Whether the transaction of an operation that ended so is to be
/// committed: not where the store failed in it or met what it cannot
/// classify.
pub fn worth_committing<T>(outcome: &Result<T, Error>) -> (yes: bool)
    ensures
        yes == !to_drop(*outcome),
{
    match outcome {
        Err(Error::DBError(_)) => false,
        Err(Error::Other) => false,
        _ => true,
    }
}

/// Whether two names are the same. A rename between them then changes
/// nothing and needs no transaction.
pub fn same_name(old_name: &str, new_name: &str) -> (same: bool)
    ensures
        same == (encode_utf8(old_name@) == encode_utf8(new_name@)),
        old_name@ == new_name@ ==> same,
{
    same_bytes(name_bytes(old_name).as_slice(), name_bytes(new_name).as_slice())
}

impl File {
    /// The path of the file's bucket, in bytes.
    pub closed spec fn bucket_path(&self) -> Seq<u8> {
        self.path@
    }

    /// The store that the file lives in.
    pub closed spec fn store(&self) -> jammdb::DB {
        self.db.0
    }

    /// A handle on the file whose bucket has this path.
    pub fn new(db: Arc<SafeDb>, path: &str) -> (file: Self)
        ensures
            file.bucket_path() == encode_utf8(path@),
            file.store() == db.0,
    {
        Self { db, path: name_bytes(path) }
    }

    /// The path of the file's bucket.
    pub fn path(&self) -> (p: &[u8])
        ensures
            p@ == self.bucket_path(),
    {
        self.path.as_slice()
    }

    /// The store that the file lives in.
    pub fn db(&self) -> (db: &Arc<SafeDb>)
        ensures
            db.0 == self.store(),
    {
        &self.db
    }

    /// Reads in an open transaction: at most `size` bytes of the content
    /// from `offset` on, and none behind the end. A file whose bucket is
    /// gone is not found.
    pub fn read_in(&self, tx: &jammdb::Tx, offset: u32, size: u32) -> (r: Result<Vec<u8>, Error>)
        ensures
            !is_bucket(tx_entries(*tx), seq![self.bucket_path()]) ==> r matches Err(
                Error::NotFound,
            ),
            is_bucket(tx_entries(*tx), seq![self.bucket_path()]) ==> match file_content(
                tx_entries(*tx),
                self.bucket_path(),
            ) {
                Some(c) => r matches Ok(out) && out@ == read_spec(c, offset as nat, size as nat),
                None => r matches Err(Error::Other),
            },
    {
        read_file(tx, self.path.as_slice(), offset, size)
    }

    /// Writes in an open transaction: pads the content with zeros up to
    /// `offset` where it ends before, appends `w_data` and returns the
    /// number of bytes appended.
    pub fn write_in(&self, tx: &mut jammdb::Tx, offset: u32, w_data: &[u8]) -> (r: Result<
        u32,
        Error,
    >)
        ensures
            match write_effect(
                tx_entries(*old(tx)),
                tx_writable(*old(tx)),
                self.bucket_path(),
                offset as nat,
                w_data@,
            ) {
                Effect::Applied(m) => r matches Ok(n) && n == w_data@.len() && tx_entries(
                    *final(tx),
                ) == m,
                Effect::Unclassified => r matches Err(Error::Other) && tx_entries(*final(tx))
                    == tx_entries(*old(tx)),
                Effect::NotFound => r matches Err(Error::NotFound) && tx_entries(*final(tx))
                    == tx_entries(*old(tx)),
                _ => r matches Err(Error::DBError(_)) && tx_entries(*final(tx)) == tx_entries(
                    *old(tx),
                ),
            },
            tx_writable(*final(tx)) == tx_writable(*old(tx)),
            tx_pristine(*final(tx)) == tx_pristine(*old(tx)),
    {
        write_file(tx, self.path.as_slice(), offset, w_data)
    }

    /// Empties the file in an open transaction.
    pub fn clear_in(&self, tx: &mut jammdb::Tx) -> (r: Result<(), Error>)
        ensures
            match clear_effect(tx_entries(*old(tx)), tx_writable(*old(tx)), self.bucket_path()) {
                Effect::Applied(m) => r is Ok && tx_entries(*final(tx)) == m,
                Effect::NotFound => r matches Err(Error::NotFound) && tx_entries(*final(tx))
                    == tx_entries(*old(tx)),
                _ => r matches Err(Error::DBError(_)) && tx_entries(*final(tx)) == tx_entries(
                    *old(tx),
                ),
            },
            tx_writable(*final(tx)) == tx_writable(*old(tx)),
            tx_pristine(*final(tx)) == tx_pristine(*old(tx)),
    {
        clear_file(tx, self.path.as_slice())
    }

    /// The length of the content in an open transaction.
    pub fn size_in(&self, tx: &jammdb::Tx) -> (r: Result<u32, Error>)
        ensures
            !is_bucket(tx_entries(*tx), seq![self.bucket_path()]) ==> r matches Err(
                Error::NotFound,
            ),
            is_bucket(tx_entries(*tx), seq![self.bucket_path()]) ==> match file_content(
                tx_entries(*tx),
                self.bucket_path(),
            ) {
                Some(c) => if c.len() <= u32::MAX {
                    r matches Ok(n) && n == c.len()
                } else {
                    r matches Err(Error::Other)
                },
                None => r matches Err(Error::Other),
            },
    {
        file_size(tx, self.path.as_slice())
    }
}

impl Dir {
    /// The path of the directory's bucket, in bytes.
    pub closed spec fn bucket_path(&self) -> Seq<u8> {
        self.path@
    }

    /// The store that the directory lives in.
    pub closed spec fn store(&self) -> jammdb::DB {
        self.db.0
    }

    /// A handle on the directory whose bucket has this path.
    pub fn new(db: Arc<SafeDb>, path: String) -> (dir: Self)
        ensures
            dir.bucket_path() == encode_utf8(path@),
            dir.store() == db.0,
    {
        Self { db, path: name_bytes(path.as_str()) }
    }

    /// The path of the directory's bucket.
    pub fn path(&self) -> (p: &[u8])
        ensures
            p@ == self.bucket_path(),
    {
        self.path.as_slice()
    }

    /// The store that the directory lives in.
    pub fn db(&self) -> (db: &Arc<SafeDb>)
        ensures
            db.0 == self.store(),
    {
        &self.db
    }

    /// Creates an empty directory of this name in an open transaction.
    pub fn create_dir_in(&self, tx: &mut jammdb::Tx, name: &str) -> (r: Result<(), Error>)
        ensures
            match create_effect(
                tx_entries(*old(tx)),
                tx_writable(*old(tx)),
                self.bucket_path(),
                encode_utf8(name@),
                Kind::Dir,
            ) {
                Effect::Applied(m) => r is Ok && tx_entries(*final(tx)) == m,
                Effect::AlreadyExists => r matches Err(Error::AlreadyExists) && tx_entries(
                    *final(tx),
                ) == tx_entries(*old(tx)),
                Effect::NotFound => r matches Err(Error::NotFound) && tx_entries(*final(tx))
                    == tx_entries(*old(tx)),
                _ => r matches Err(Error::DBError(_)),
            },
            tx_writable(*final(tx)) == tx_writable(*old(tx)),
            tx_pristine(*final(tx)) == tx_pristine(*old(tx)),
    {
        let bytes = name_bytes(name);
        create_entry(tx, self.path.as_slice(), bytes.as_slice(), Kind::Dir)
    }

    /// Creates an empty file of this name in an open transaction.
    pub fn create_file_in(&self, tx: &mut jammdb::Tx, name: &str) -> (r: Result<(), Error>)
        ensures
            match create_effect(
                tx_entries(*old(tx)),
                tx_writable(*old(tx)),
                self.bucket_path(),
                encode_utf8(name@),
                Kind::File,
            ) {
                Effect::Applied(m) => r is Ok && tx_entries(*final(tx)) == m,
                Effect::AlreadyExists => r matches Err(Error::AlreadyExists) && tx_entries(
                    *final(tx),
                ) == tx_entries(*old(tx)),
                Effect::NotFound => r matches Err(Error::NotFound) && tx_entries(*final(tx))
                    == tx_entries(*old(tx)),
                _ => r matches Err(Error::DBError(_)),
            },
            tx_writable(*final(tx)) == tx_writable(*old(tx)),
            tx_pristine(*final(tx)) == tx_pristine(*old(tx)),
    {
        let bytes = name_bytes(name);
        create_entry(tx, self.path.as_slice(), bytes.as_slice(), Kind::File)
    }

    /// Deletes the directory of this name in an open transaction, with
    /// the buckets of all that lies below it; in a transaction that has
    /// deleted before, with as many of them as the store's cursor reaches.
    pub fn delete_dir_in(&self, tx: &mut jammdb::Tx, name: &str) -> (r: Result<(), Error>)
        ensures
            match delete_effect(
                tx_entries(*old(tx)),
                tx_writable(*old(tx)),
                self.bucket_path(),
                encode_utf8(name@),
                Kind::Dir,
            ) {
                Effect::Applied(m) => r is Ok && (tx_pristine(*old(tx)) ==> tx_entries(*final(tx))
                    == m) && lies_between(
                    tx_entries(*final(tx)),
                    m,
                    deleted_alone(
                        tx_entries(*old(tx)),
                        self.bucket_path(),
                        encode_utf8(name@),
                        Kind::Dir,
                    ),
                ),
                Effect::NotFound => r matches Err(Error::NotFound) && tx_entries(*final(tx))
                    == tx_entries(*old(tx)) && tx_pristine(*final(tx)) == tx_pristine(*old(tx)),
                _ => r matches Err(Error::DBError(_)),
            },
            tx_writable(*final(tx)) == tx_writable(*old(tx)),
    {
        let bytes = name_bytes(name);
        delete_entry(tx, self.path.as_slice(), bytes.as_slice(), Kind::Dir)
    }

    /// Deletes the file of this name in an open transaction.
    pub fn delete_file_in(&self, tx: &mut jammdb::Tx, name: &str) -> (r: Result<(), Error>)
        ensures
            match delete_effect(
                tx_entries(*old(tx)),
                tx_writable(*old(tx)),
                self.bucket_path(),
                encode_utf8(name@),
                Kind::File,
            ) {
                Effect::Applied(m) => r is Ok && tx_entries(*final(tx)) == m,
                Effect::NotFound => r matches Err(Error::NotFound) && tx_entries(*final(tx))
                    == tx_entries(*old(tx)) && tx_pristine(*final(tx)) == tx_pristine(*old(tx)),
                _ => r matches Err(Error::DBError(_)),
            },
            tx_writable(*final(tx)) == tx_writable(*old(tx)),
    {
        let bytes = name_bytes(name);
        delete_entry(tx, self.path.as_slice(), bytes.as_slice(), Kind::File)
    }

    /// Renames a file of the directory in an open transaction.
    pub fn rename_file_in(
        &self,
        tx: &mut jammdb::Tx,
        old_name: &str,
        new_name: &str,
    ) -> (r: Result<(), Error>)
        ensures
            match rename_effect(
                tx_entries(*old(tx)),
                tx_writable(*old(tx)),
                self.bucket_path(),
                encode_utf8(old_name@),
                encode_utf8(new_name@),
                Kind::File,
            ) {
                Effect::Applied(m) => r is Ok && tx_entries(*final(tx)) == m,
                Effect::NotFound => r matches Err(Error::NotFound) && tx_entries(*final(tx))
                    == tx_entries(*old(tx)) && tx_pristine(*final(tx)) == tx_pristine(*old(tx)),
                Effect::AlreadyExists => r matches Err(Error::AlreadyExists) && tx_entries(
                    *final(tx),
                ) == tx_entries(*old(tx)) && tx_pristine(*final(tx)) == tx_pristine(*old(tx)),
                Effect::StoreFailure => r matches Err(Error::DBError(_)),
                Effect::Unclassified => r matches Err(Error::Other),
            },
            old_name@ == new_name@ ==> tx_pristine(*final(tx)) == tx_pristine(*old(tx)),
            tx_writable(*final(tx)) == tx_writable(*old(tx)),
    {
        let old_bytes = name_bytes(old_name);
        let new_bytes = name_bytes(new_name);
        rename_entry(
            tx,
            self.path.as_slice(),
            old_bytes.as_slice(),
            new_bytes.as_slice(),
            Kind::File,
        )
    }

    /// Renames a directory of the directory in an open transaction. The
    /// directory arrives empty under its new name; the buckets of what lay
    /// below it go, in a transaction that has deleted before as many of
    /// them as the store's cursor reaches.
    pub fn rename_dir_in(
        &self,
        tx: &mut jammdb::Tx,
        old_name: &str,
        new_name: &str,
    ) -> (r: Result<(), Error>)
        ensures
            match rename_effect(
                tx_entries(*old(tx)),
                tx_writable(*old(tx)),
                self.bucket_path(),
                encode_utf8(old_name@),
                encode_utf8(new_name@),
                Kind::Dir,
            ) {
                Effect::Applied(m) => if tx_pristine(*old(tx)) || encode_utf8(old_name@)
                    == encode_utf8(new_name@) {
                    r is Ok && tx_entries(*final(tx)) == m
                } else {
                    (r is Ok || r matches Err(Error::DBError(_))) && (r is Ok ==> lies_between(
                        tx_entries(*final(tx)),
                        m,
                        renamed_alone(
                            tx_entries(*old(tx)),
                            self.bucket_path(),
                            encode_utf8(old_name@),
                            encode_utf8(new_name@),
                            Kind::Dir,
                        ),
                    ))
                },
                Effect::NotFound => r matches Err(Error::NotFound) && tx_entries(*final(tx))
                    == tx_entries(*old(tx)) && tx_pristine(*final(tx)) == tx_pristine(*old(tx)),
                Effect::AlreadyExists => r matches Err(Error::AlreadyExists) && tx_entries(
                    *final(tx),
                ) == tx_entries(*old(tx)) && tx_pristine(*final(tx)) == tx_pristine(*old(tx)),
                _ => r matches Err(Error::DBError(_)),
            },
            old_name@ == new_name@ ==> tx_pristine(*final(tx)) == tx_pristine(*old(tx)),
            tx_writable(*final(tx)) == tx_writable(*old(tx)),
    {
        let old_bytes = name_bytes(old_name);
        let new_bytes = name_bytes(new_name);
        rename_entry(
            tx,
            self.path.as_slice(),
            old_bytes.as_slice(),
            new_bytes.as_slice(),
            Kind::Dir,
        )
    }

    /// A handle on the directory of this name, looked up in an open
    /// transaction.
    pub fn cd_in(&self, tx: &jammdb::Tx, name: &str) -> (r: Result<Arc<Dir>, Error>)
        ensures
            match find_spec(tx_entries(*tx), self.bucket_path(), encode_utf8(name@), Kind::Dir) {
                Lookup::Found(p) => r matches Ok(d) && d.bucket_path() == p && d.store()
                    == self.store(),
                Lookup::NotFound => r matches Err(Error::NotFound),
                Lookup::StoreFailure => r matches Err(Error::DBError(_)),
            },
    {
        let bytes = name_bytes(name);
        match find_entry(tx, self.path.as_slice(), bytes.as_slice(), Kind::Dir) {
            Ok(path) => Ok(Arc::new(Dir { db: self.db.clone(), path })),
            Err(e) => Err(e),
        }
    }

    /// A handle on the file of this name, looked up in an open
    /// transaction.
    pub fn open_in(&self, tx: &jammdb::Tx, name: &str) -> (r: Result<Arc<File>, Error>)
        ensures
            match find_spec(tx_entries(*tx), self.bucket_path(), encode_utf8(name@), Kind::File) {
                Lookup::Found(p) => r matches Ok(f) && f.bucket_path() == p && f.store()
                    == self.store(),
                Lookup::NotFound => r matches Err(Error::NotFound),
                Lookup::StoreFailure => r matches Err(Error::DBError(_)),
            },
    {
        let bytes = name_bytes(name);
        match find_entry(tx, self.path.as_slice(), bytes.as_slice(), Kind::File) {
            Ok(path) => Ok(Arc::new(File { db: self.db.clone(), path })),
            Err(e) => Err(e),
        }
    }

    /// The names of the children in an open transaction, in the order of
    /// the store's cursor: all of them in a transaction that has deleted
    /// nothing.
    pub fn list_in(&self, tx: &jammdb::Tx) -> (r: Result<Vec<String>, Error>)
        ensures
            !is_bucket(tx_entries(*tx), seq![self.bucket_path()]) ==> r matches Err(
                Error::NotFound,
            ),
            is_bucket(tx_entries(*tx), seq![self.bucket_path()]) && !dir_ready(
                tx_entries(*tx),
                self.bucket_path(),
            ) ==> r matches Err(Error::DBError(_)),
            dir_ready(tx_entries(*tx), self.bucket_path()) && index_clean(
                tx_entries(*tx),
                self.bucket_path(),
            ) ==> r is Ok,
            dir_ready(tx_entries(*tx), self.bucket_path()) ==> (r is Err ==> (r matches Err(
                Error::Other,
            )) && !index_clean(tx_entries(*tx), self.bucket_path())),
            dir_ready(tx_entries(*tx), self.bucket_path()) ==> (r matches Ok(names)
                ==> is_partial_listing(tx_entries(*tx), self.bucket_path(), names_bytes(names@))),
            dir_ready(tx_entries(*tx), self.bucket_path()) && cursor_whole(*tx) ==> (r matches Ok(
                names,
            ) ==> index_clean(tx_entries(*tx), self.bucket_path()) && is_listing(
                tx_entries(*tx),
                self.bucket_path(),
                names_bytes(names@),
            )),
    {
        list_entries(tx, self.path.as_slice())
    }
}

impl DbFileSystem {
    /// The store that the file system lives in.
    pub closed spec fn store(&self) -> jammdb::DB {
        self.db.0
    }

    /// The file system on this store.
    pub fn new(db: jammdb::DB) -> (fs: Self)
        ensures
            fs.store() == db,
    {
        Self { db: Arc::new(SafeDb(db)) }
    }

    /// The store that the file system lives in.
    pub fn db(&self) -> (db: &Arc<SafeDb>)
        ensures
            db.0 == self.store(),
    {
        &self.db
    }

    /// The root directory, made sure of in an open transaction: its bucket
    /// and its index are made where they are missing and left as they are
    /// otherwise.
    pub fn root_in(&self, tx: &mut jammdb::Tx) -> (r: Result<Arc<Dir>, Error>)
        ensures
            match bootstrap_effect(tx_entries(*old(tx)), tx_writable(*old(tx))) {
                Effect::Applied(m) => r matches Ok(d) && d.bucket_path() == root_path()
                    && d.store() == self.store() && tx_entries(*final(tx)) == m,
                _ => r matches Err(Error::DBError(_)),
            },
            tx_writable(*final(tx)) == tx_writable(*old(tx)),
            tx_pristine(*final(tx)) == tx_pristine(*old(tx)),
    {
        match bootstrap(tx) {
            Ok(()) => Ok(Arc::new(Dir { db: self.db.clone(), path: root_name() })),
            Err(e) => Err(e),
        }
    }
}

} // verus!
