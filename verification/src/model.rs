//! What each operation of the file system does to the contents of a
//! transaction, as mathematics.
//!
//! A directory is a bucket at the root of the store; its index, the nested
//! bucket `data`, holds one key per child. A file is a bucket at the root
//! of the store whose content is the value under `data`. The functions
//! here say, for every possible content of a transaction, how an operation
//! ends and what it leaves behind.
use crate::content::write_spec;
use crate::encoder::{child_path_spec, decode_spec, index_key_spec, stem, Kind};
use crate::store::{bytes_before, is_bucket, is_value, nested_ready, value_at, without_subtree,
    Entries, Path};
use vstd::prelude::*;

verus! {

/// The key `data`: a directory's index, a file's content.
pub open spec fn data_key() -> Seq<u8> {
    seq![100u8, 97u8, 116u8, 97u8]
}

/// The path of the root directory's bucket: `root-d`.
pub open spec fn root_path() -> Seq<u8> {
    seq![114u8, 111u8, 111u8, 116u8, 45u8, 100u8]
}

/// Where the index of the directory at `dir` lives.
pub open spec fn index_path(dir: Seq<u8>) -> Path {
    seq![dir, data_key()]
}

/// Where the index of the directory at `dir` records a child.
pub open spec fn entry_path(dir: Seq<u8>, name: Seq<u8>, kind: Kind) -> Path {
    seq![dir, data_key(), index_key_spec(name, kind)]
}

/// Where the content of the file at `file` lives.
pub open spec fn content_path(file: Seq<u8>) -> Path {
    seq![file, data_key()]
}

/// The directory at `dir` has its bucket and its index.
pub open spec fn dir_ready(m: Entries, dir: Seq<u8>) -> bool {
    nested_ready(m, dir, data_key())
}

/// The directory at `dir` lists a child of this name and kind.
pub open spec fn has_entry(m: Entries, dir: Seq<u8>, name: Seq<u8>, kind: Kind) -> bool {
    is_value(m, entry_path(dir, name, kind))
}

/// The content of the file at `file`, if its bucket holds one.
pub open spec fn file_content(m: Entries, file: Seq<u8>) -> Option<Seq<u8>> {
    if is_bucket(m, seq![file]) {
        value_at(m, content_path(file))
    } else {
        None
    }
}

/// The directory at `dir` has its bucket and an index with nothing in it.
pub open spec fn dir_empty(m: Entries, dir: Seq<u8>) -> bool {
    dir_ready(m, dir) && forall|k: Seq<u8>| !m.contains_key(#[trigger] index_path(dir).push(k))
}

/// How a changing operation ends.
pub enum Effect {
    /// It went through; the transaction now holds this.
    Applied(Entries),
    /// The name is taken; nothing changed.
    AlreadyExists,
    /// The handle's own bucket or the name is not there; nothing changed.
    NotFound,
    /// The store refused a step; the transaction is to be dropped.
    StoreFailure,
    /// The store holds something that this file system never writes; the
    /// transaction is to be dropped.
    Unclassified,
}

/// The contents that an effect leaves, where it was applied.
pub open spec fn applied(e: Effect) -> Entries {
    match e {
        Effect::Applied(m) => m,
        _ => Map::empty(),
    }
}

/// How a lookup in a directory ends.
pub enum Lookup {
    /// The child is listed; this is the path of its bucket.
    Found(Seq<u8>),
    /// The directory is not in the store, or lists no such child.
    NotFound,
    /// The directory's bucket has no index.
    StoreFailure,
}

/// Whether something already sits where a new child's first leaf would go.
pub open spec fn slot_taken(m: Entries, child: Seq<u8>, kind: Kind) -> bool {
    match kind {
        Kind::File => is_bucket(m, content_path(child)),
        Kind::Dir => m.contains_key(index_path(child)),
    }
}

/// The first leaf of a new child: empty content, or an empty index.
pub open spec fn first_leaf(kind: Kind, content: Seq<u8>) -> Option<Seq<u8>> {
    match kind {
        Kind::File => Some(content),
        Kind::Dir => None,
    }
}

/// Looking up a child of the directory at `dir`.
pub open spec fn find_spec(m: Entries, dir: Seq<u8>, name: Seq<u8>, kind: Kind) -> Lookup {
    if !is_bucket(m, seq![dir]) {
        Lookup::NotFound
    } else if !dir_ready(m, dir) {
        Lookup::StoreFailure
    } else if has_entry(m, dir, name, kind) {
        Lookup::Found(child_path_spec(dir, name, kind))
    } else {
        Lookup::NotFound
    }
}

/// The contents after a child was created.
pub open spec fn created(m: Entries, dir: Seq<u8>, name: Seq<u8>, kind: Kind) -> Entries {
    let child = child_path_spec(dir, name, kind);
    m.insert(entry_path(dir, name, kind), Some(Seq::<u8>::empty())).insert(
        seq![child],
        None,
    ).insert(seq![child, data_key()], first_leaf(kind, Seq::<u8>::empty()))
}

/// Creating a child in the directory at `dir`, in a transaction that holds
/// `m` and is writable or not. A directory that is not in the store is not
/// found, and a name that is listed is refused; otherwise
/// the index gets the entry and the child its bucket, unless the store is
/// read-only or the places are taken by something else.
pub open spec fn create_effect(
    m: Entries,
    writable: bool,
    dir: Seq<u8>,
    name: Seq<u8>,
    kind: Kind,
) -> Effect {
    let child = child_path_spec(dir, name, kind);
    if !is_bucket(m, seq![dir]) {
        Effect::NotFound
    } else if !dir_ready(m, dir) {
        Effect::StoreFailure
    } else if has_entry(m, dir, name, kind) {
        Effect::AlreadyExists
    } else if !writable || is_bucket(m, entry_path(dir, name, kind)) || m.contains_key(
        seq![child],
    ) || slot_taken(m, child, kind) {
        Effect::StoreFailure
    } else {
        Effect::Applied(created(m, dir, name, kind))
    }
}

/// The beginning of the path of every bucket below the directory at
/// `path`: the path without its mark, and a slash.
pub open spec fn below(path: Seq<u8>) -> Seq<u8> {
    stem(path) + seq![47u8]
}

/// `m` without the buckets at the root whose names begin with `prefix`,
/// and without all that they hold.
pub open spec fn purged(m: Entries, prefix: Seq<u8>) -> Entries {
    m.remove_keys(
        Set::new(
            |q: Path| q.len() >= 1 && prefix.is_prefix_of(q[0]) && is_bucket(m, seq![q[0]]),
        ),
    )
}

/// `m` without the bucket of a child and all that it holds; for a
/// directory, also without the buckets of all that lies below it.
pub open spec fn cleared(m: Entries, child: Seq<u8>, kind: Kind) -> Entries {
    match kind {
        Kind::File => without_subtree(m, seq![child]),
        Kind::Dir => purged(without_subtree(m, seq![child]), below(child)),
    }
}

/// `x` holds all of `low` and nothing but what `high` holds.
pub open spec fn lies_between(x: Entries, low: Entries, high: Entries) -> bool {
    &&& forall|q: Path| #[trigger] low.contains_key(q) ==> x.contains_key(q)
    &&& forall|q: Path| #[trigger] x.contains_key(q) ==> high.contains_key(q) && x[q] == high[q]
}

/// The contents after a child was deleted, had nothing lain below it: the
/// index entry is gone and the child's own bucket with all that it held.
pub open spec fn deleted_alone(m: Entries, dir: Seq<u8>, name: Seq<u8>, kind: Kind) -> Entries {
    without_subtree(m.remove(entry_path(dir, name, kind)), seq![child_path_spec(dir, name, kind)])
}

/// The contents after a child was deleted: its index entry is gone, and so
/// is its bucket with all that it held; with a directory go the buckets of
/// everything below it.
pub open spec fn deleted(m: Entries, dir: Seq<u8>, name: Seq<u8>, kind: Kind) -> Entries {
    cleared(m.remove(entry_path(dir, name, kind)), child_path_spec(dir, name, kind), kind)
}

/// Deleting a child of the directory at `dir`.
pub open spec fn delete_effect(
    m: Entries,
    writable: bool,
    dir: Seq<u8>,
    name: Seq<u8>,
    kind: Kind,
) -> Effect {
    if !is_bucket(m, seq![dir]) {
        Effect::NotFound
    } else if !dir_ready(m, dir) {
        Effect::StoreFailure
    } else if !has_entry(m, dir, name, kind) {
        Effect::NotFound
    } else if !writable || !is_bucket(m, seq![child_path_spec(dir, name, kind)]) {
        Effect::StoreFailure
    } else {
        Effect::Applied(deleted(m, dir, name, kind))
    }
}

/// The contents of a rename before the new child is made: the index lists
/// the new name in place of the old one, and the old child is gone.
pub open spec fn moved_out(
    m: Entries,
    dir: Seq<u8>,
    old_name: Seq<u8>,
    new_name: Seq<u8>,
    kind: Kind,
) -> Entries {
    cleared(
        m.remove(entry_path(dir, old_name, kind)).insert(
            entry_path(dir, new_name, kind),
            Some(Seq::<u8>::empty()),
        ),
        child_path_spec(dir, old_name, kind),
        kind,
    )
}

/// The contents after a child was renamed, had nothing lain below it: as
/// after the rename, but for the buckets below a renamed directory.
pub open spec fn renamed_alone(
    m: Entries,
    dir: Seq<u8>,
    old_name: Seq<u8>,
    new_name: Seq<u8>,
    kind: Kind,
) -> Entries {
    let old_child = child_path_spec(dir, old_name, kind);
    let new_child = child_path_spec(dir, new_name, kind);
    let carried = match value_at(m, content_path(old_child)) {
        Some(c) => c,
        None => Seq::<u8>::empty(),
    };
    without_subtree(
        m.remove(entry_path(dir, old_name, kind)).insert(
            entry_path(dir, new_name, kind),
            Some(Seq::<u8>::empty()),
        ),
        seq![old_child],
    ).insert(seq![new_child], None).insert(seq![new_child, data_key()], first_leaf(kind, carried))
}

/// The contents after a child was renamed: the index lists the new name in
/// place of the old one, the old bucket is gone with all that it held, and
/// a new bucket holds the file's content, or, for a directory, an empty
/// index. What lay below a renamed directory is gone.
pub open spec fn renamed(
    m: Entries,
    dir: Seq<u8>,
    old_name: Seq<u8>,
    new_name: Seq<u8>,
    kind: Kind,
) -> Entries {
    let old_child = child_path_spec(dir, old_name, kind);
    let new_child = child_path_spec(dir, new_name, kind);
    let carried = match value_at(m, content_path(old_child)) {
        Some(c) => c,
        None => Seq::<u8>::empty(),
    };
    moved_out(m, dir, old_name, new_name, kind).insert(seq![new_child], None).insert(
        seq![new_child, data_key()],
        first_leaf(kind, carried),
    )
}

/// Renaming a child of the directory at `dir`. Equal names change nothing,
/// whatever the store holds.
pub open spec fn rename_effect(
    m: Entries,
    writable: bool,
    dir: Seq<u8>,
    old_name: Seq<u8>,
    new_name: Seq<u8>,
    kind: Kind,
) -> Effect {
    let old_child = child_path_spec(dir, old_name, kind);
    let new_child = child_path_spec(dir, new_name, kind);
    let between = moved_out(m, dir, old_name, new_name, kind);
    if old_name == new_name {
        Effect::Applied(m)
    } else if !is_bucket(m, seq![dir]) {
        Effect::NotFound
    } else if !dir_ready(m, dir) {
        Effect::StoreFailure
    } else if !has_entry(m, dir, old_name, kind) {
        Effect::NotFound
    } else if has_entry(m, dir, new_name, kind) {
        Effect::AlreadyExists
    } else if !writable || is_bucket(m, entry_path(dir, new_name, kind)) || !is_bucket(
        m,
        seq![old_child],
    ) {
        Effect::StoreFailure
    } else if kind == Kind::File && value_at(m, content_path(old_child)) is None {
        Effect::Unclassified
    } else if between.contains_key(seq![new_child]) || slot_taken(between, new_child, kind) {
        Effect::StoreFailure
    } else {
        Effect::Applied(renamed(m, dir, old_name, new_name, kind))
    }
}

/// The contents after the root directory was made sure of.
pub open spec fn bootstrapped(m: Entries) -> Entries {
    m.insert(seq![root_path()], None).insert(index_path(root_path()), None)
}

/// Making sure that the root directory has its bucket and its index.
pub open spec fn bootstrap_effect(m: Entries, writable: bool) -> Effect {
    if !writable || is_value(m, seq![root_path()]) || is_value(m, index_path(root_path())) {
        Effect::StoreFailure
    } else {
        Effect::Applied(bootstrapped(m))
    }
}

/// Writing to the file at `file`: the content is padded and extended.
pub open spec fn write_effect(
    m: Entries,
    writable: bool,
    file: Seq<u8>,
    offset: nat,
    bytes: Seq<u8>,
) -> Effect {
    if bytes.len() > u32::MAX {
        Effect::Unclassified
    } else if !is_bucket(m, seq![file]) {
        Effect::NotFound
    } else if value_at(m, content_path(file)) is None {
        Effect::Unclassified
    } else if !writable {
        Effect::StoreFailure
    } else {
        Effect::Applied(
            m.insert(
                content_path(file),
                Some(write_spec(value_at(m, content_path(file))->Some_0, offset, bytes)),
            ),
        )
    }
}

/// Clearing the file at `file`: the content becomes empty.
pub open spec fn clear_effect(m: Entries, writable: bool, file: Seq<u8>) -> Effect {
    if !is_bucket(m, seq![file]) {
        Effect::NotFound
    } else if !writable || is_bucket(m, content_path(file)) {
        Effect::StoreFailure
    } else {
        Effect::Applied(m.insert(content_path(file), Some(Seq::<u8>::empty())))
    }
}

/// Everything in the index of the directory at `dir` is an entry that this
/// file system wrote: a value under a key that ends in a mark, with a name
/// in UTF-8.
pub open spec fn index_clean(m: Entries, dir: Seq<u8>) -> bool {
    forall|k: Seq<u8>| #[trigger]
        m.contains_key(index_path(dir).push(k)) ==> is_value(m, index_path(dir).push(k))
            && decode_spec(k) is Some && vstd::utf8::valid_utf8(decode_spec(k)->Some_0.0)
}

/// `keys` are keys of the index of the directory at `dir`, each once and
/// in the order of the keys, and each name in `names` is what its key
/// records.
pub open spec fn names_of_keys(
    m: Entries,
    dir: Seq<u8>,
    keys: Seq<Seq<u8>>,
    names: Seq<Seq<u8>>,
) -> bool {
    &&& keys.len() == names.len()
    &&& keys.no_duplicates()
    &&& forall|i: int, j: int| 0 <= i < j < keys.len() ==> bytes_before(keys[i], keys[j])
    &&& forall|i: int|
        0 <= i < keys.len() ==> m.contains_key(#[trigger] index_path(dir).push(keys[i]))
    &&& forall|i: int|
        0 <= i < keys.len() ==> (#[trigger] decode_spec(keys[i])) is Some && decode_spec(
            keys[i],
        )->Some_0.0 == names[i]
}

/// `names` lists the children of the directory at `dir`: there is a row of
/// all the index's keys, each once and in the order of the keys, such that
/// each name is what its key records.
pub open spec fn is_listing(m: Entries, dir: Seq<u8>, names: Seq<Seq<u8>>) -> bool {
    exists|keys: Seq<Seq<u8>>|
        names_of_keys(m, dir, keys, names) && forall|k: Seq<u8>|
            m.contains_key(#[trigger] index_path(dir).push(k)) ==> keys.contains(k)
}

/// `names` lists children of the directory at `dir`, in the order of
/// their keys, but perhaps not all of them.
pub open spec fn is_partial_listing(m: Entries, dir: Seq<u8>, names: Seq<Seq<u8>>) -> bool {
    exists|keys: Seq<Seq<u8>>| names_of_keys(m, dir, keys, names)
}

} // verus!
