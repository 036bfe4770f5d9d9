//! The operations of the file system on an open transaction.
//!
//! Each function here takes a transaction, performs the steps of one
//! operation on it and says in its contract, over the model, how it ends.
//! None of them opens or commits a transaction.
use crate::content::{pad_and_append, read_range, read_spec};
use crate::encoder::{child_path, decode_index_key, decode_spec, index_key,
    lemma_child_path_injective, lemma_child_path_marked, lemma_index_key_injective, marked, stem,
    Kind};
use crate::error::Error;
use crate::model::{below, bootstrap_effect, clear_effect, content_path, create_effect, data_key,
    deleted_alone, lies_between, renamed_alone,
    delete_effect, dir_ready, entry_path, file_content, find_spec, index_clean, index_path,
    is_listing, is_partial_listing, names_of_keys, purged, rename_effect, root_path,
    write_effect, Effect, Lookup};
use crate::store::{cursor_whole, entry_delete, entry_get, entry_keys, entry_put, is_bucket,
    is_value, lists_all, lists_bucket, names_all, names_buckets, nested_create, nested_ensure,
    top_create, top_delete, top_ensure, top_names, tx_entries, tx_pristine, tx_writable,
    value_get, value_put, without_subtree, Entries, Path};
use crate::text::{names_bytes, string_from_utf8};
use vstd::prelude::*;

verus! {

/// The key `data`.
pub fn data_name() -> (k: Vec<u8>)
    ensures
        k@ == data_key(),
{
    let mut k: Vec<u8> = Vec::new();
    k.push(100u8);
    k.push(97u8);
    k.push(116u8);
    k.push(97u8);
    assert(k@ =~= data_key());
    k
}

/// The path of the root directory's bucket.
pub fn root_name() -> (k: Vec<u8>)
    ensures
        k@ == root_path(),
{
    let mut k: Vec<u8> = Vec::new();
    k.push(114u8);
    k.push(111u8);
    k.push(111u8);
    k.push(116u8);
    k.push(45u8);
    k.push(100u8);
    assert(k@ =~= root_path());
    k
}

/// Whether a bucket of this path lies at the root of the store.
pub fn bucket_present(tx: &jammdb::Tx, path: &[u8]) -> (present: bool)
    ensures
        present == is_bucket(tx_entries(*tx), seq![path@]),
{
    let data = data_name();
    match value_get(tx, path, data.as_slice()) {
        Ok(_) => true,
        Err(_) => false,
    }
}

/// Whether `bytes` begins with `prefix`.
pub fn starts_with(bytes: &[u8], prefix: &[u8]) -> (yes: bool)
    ensures
        yes == prefix@.is_prefix_of(bytes@),
{
    if prefix.len() > bytes.len() {
        return false;
    }
    let mut i: usize = 0;
    while i < prefix.len()
        invariant
            prefix.len() <= bytes.len(),
            i <= prefix.len(),
            prefix@.subrange(0, i as int) == bytes@.subrange(0, i as int),
        decreases prefix.len() - i,
    {
        if prefix[i] != bytes[i] {
            proof {
                if prefix@.is_prefix_of(bytes@) {
                    assert(bytes@.subrange(0, prefix@.len() as int)[i as int] == prefix@[i as int]);
                }
            }
            return false;
        }
        i += 1;
        assert(prefix@.subrange(0, i as int) =~= prefix@.subrange(0, i - 1).push(prefix[i - 1]));
        assert(bytes@.subrange(0, i as int) =~= bytes@.subrange(0, i - 1).push(bytes[i - 1]));
    }
    assert(prefix@ =~= prefix@.subrange(0, i as int));
    true
}

/// The beginning of the path of every bucket below the directory at
/// `path`.
pub fn below_path(path: &[u8]) -> (prefix: Vec<u8>)
    ensures
        prefix@ == below(path@),
{
    let mut prefix: Vec<u8> = Vec::new();
    let keep: usize = if path.len() >= 2 {
        path.len() - 2
    } else {
        0
    };
    let mut i: usize = 0;
    while i < keep
        invariant
            i <= keep <= path.len(),
            prefix@ == path@.subrange(0, i as int),
        decreases keep - i,
    {
        prefix.push(path[i]);
        i += 1;
        assert(prefix@ =~= path@.subrange(0, i as int));
    }
    assert(prefix@ =~= stem(path@));
    prefix.push(47u8);
    assert(prefix@ =~= below(path@));
    prefix
}

/// The paths that go with the buckets among the first `upto` of `names`
/// whose names begin with `prefix`.
pub open spec fn swept(names: Seq<Vec<u8>>, upto: int, prefix: Seq<u8>) -> Set<Path> {
    Set::new(
        |q: Path|
            q.len() >= 1 && prefix.is_prefix_of(q[0]) && exists|j: int|
                0 <= j < upto && names[j]@ == q[0],
    )
}

/// Deletes those of the buckets `names` whose name begins with `prefix`.
fn purge(tx: &mut jammdb::Tx, names: &Vec<Vec<u8>>, prefix: &[u8]) -> (r: Result<(), Error>)
    requires
        tx_writable(*old(tx)),
        forall|i: int, j: int| 0 <= i < j < names.len() ==> names[i]@ != names[j]@,
        forall|i: int|
            0 <= i < names.len() && prefix@.is_prefix_of(#[trigger] names[i]@) ==> is_bucket(
                tx_entries(*old(tx)),
                seq![names[i]@],
            ),
    ensures
        r is Ok,
        tx_entries(*final(tx)) == tx_entries(*old(tx)).remove_keys(
            swept(names@, names.len() as int, prefix@),
        ),
        tx_writable(*final(tx)),
{
    let ghost m0 = tx_entries(*tx);
    let mut i: usize = 0;
    assert(m0.remove_keys(swept(names@, 0, prefix@)) =~= m0);
    while i < names.len()
        invariant
            i <= names.len(),
            tx_writable(*tx),
            forall|a: int, b: int| 0 <= a < b < names.len() ==> names[a]@ != names[b]@,
            forall|a: int|
                0 <= a < names.len() && prefix@.is_prefix_of(#[trigger] names[a]@) ==> is_bucket(
                    m0,
                    seq![names[a]@],
                ),
            tx_entries(*tx) == m0.remove_keys(swept(names@, i as int, prefix@)),
        decreases names.len() - i,
    {
        let ghost cur = tx_entries(*tx);
        let ghost n = names[i as int]@;
        if starts_with(names[i].as_slice(), prefix) {
            proof {
                assert(seq![n][0] == n);
                assert(!swept(names@, i as int, prefix@).contains(seq![n]));
                assert(is_bucket(cur, seq![n]));
            }
            match top_delete(tx, names[i].as_slice()) {
                Err(e) => {
                    return Err(Error::DBError(e));
                },
                Ok(()) => {},
            }
            proof {
                assert forall|q: Path|
                    swept(names@, i + 1, prefix@).contains(q) <==> (swept(
                        names@,
                        i as int,
                        prefix@,
                    ).contains(q) || seq![n].is_prefix_of(q)) by {
                    if seq![n].is_prefix_of(q) {
                        assert(q.subrange(0, 1)[0] == seq![n][0]);
                    }
                    if q.len() >= 1 && q[0] == n {
                        assert(q.subrange(0, 1) =~= seq![n]);
                    }
                }
                assert(tx_entries(*tx) =~= m0.remove_keys(swept(names@, i + 1, prefix@)));
            }
        } else {
            proof {
                assert forall|q: Path|
                    swept(names@, i + 1, prefix@).contains(q) <==> swept(
                        names@,
                        i as int,
                        prefix@,
                    ).contains(q) by {}
                assert(swept(names@, i + 1, prefix@) =~= swept(names@, i as int, prefix@));
            }
        }
        i += 1;
    }
    Ok(())
}

/// Looks a child up in the directory at `dir` and gives the path of the
/// child's bucket. A directory that is not in the store is not found.
pub fn find_entry(tx: &jammdb::Tx, dir: &[u8], name: &[u8], kind: Kind) -> (r: Result<
    Vec<u8>,
    Error,
>)
    ensures
        match find_spec(tx_entries(*tx), dir@, name@, kind) {
            Lookup::Found(p) => r matches Ok(path) && path@ == p,
            Lookup::NotFound => r matches Err(Error::NotFound),
            Lookup::StoreFailure => r matches Err(Error::DBError(_)),
        },
{
    if !bucket_present(tx, dir) {
        return Err(Error::NotFound);
    }
    let data = data_name();
    let key = index_key(name, kind);
    match entry_get(tx, dir, data.as_slice(), key.as_slice()) {
        Err(e) => Err(Error::DBError(e)),
        Ok(None) => Err(Error::NotFound),
        Ok(Some(_)) => Ok(child_path(dir, name, kind)),
    }
}

/// Creates a child in the directory at `dir`: an index entry and the
/// child's bucket, with empty content for a file and an empty index for a
/// directory.
pub fn create_entry(tx: &mut jammdb::Tx, dir: &[u8], name: &[u8], kind: Kind) -> (r: Result<
    (),
    Error,
>)
    ensures
        match create_effect(tx_entries(*old(tx)), tx_writable(*old(tx)), dir@, name@, kind) {
            Effect::Applied(m) => r is Ok && tx_entries(*final(tx)) == m,
            Effect::AlreadyExists => r matches Err(Error::AlreadyExists) && tx_entries(*final(tx))
                == tx_entries(*old(tx)),
            Effect::NotFound => r matches Err(Error::NotFound) && tx_entries(*final(tx))
                == tx_entries(*old(tx)),
            _ => r matches Err(Error::DBError(_)),
        },
        tx_writable(*final(tx)) == tx_writable(*old(tx)),
        tx_pristine(*final(tx)) == tx_pristine(*old(tx)),
{
    if !bucket_present(tx, dir) {
        return Err(Error::NotFound);
    }
    let data = data_name();
    let key = index_key(name, kind);
    let child = child_path(dir, name, kind);
    let empty: Vec<u8> = Vec::new();
    match entry_get(tx, dir, data.as_slice(), key.as_slice()) {
        Err(e) => {
            return Err(Error::DBError(e));
        },
        Ok(Some(_)) => {
            return Err(Error::AlreadyExists);
        },
        Ok(None) => {},
    }
    match entry_put(tx, dir, data.as_slice(), key.as_slice(), empty.as_slice()) {
        Err(e) => {
            return Err(Error::DBError(e));
        },
        Ok(()) => {},
    }
    match top_create(tx, child.as_slice()) {
        Err(e) => {
            return Err(Error::DBError(e));
        },
        Ok(()) => {},
    }
    proof {
        let kp = entry_path(dir@, name@, kind);
        assert(kp.len() == 3 && seq![child@].len() == 1 && seq![child@, data_key()].len() == 2);
    }
    let last = match kind {
        Kind::File => value_put(tx, child.as_slice(), data.as_slice(), empty.as_slice()),
        Kind::Dir => nested_create(tx, child.as_slice(), data.as_slice()),
    };
    match last {
        Err(e) => Err(Error::DBError(e)),
        Ok(()) => Ok(()),
    }
}

/// What the names listed at the root say of the buckets below a child,
/// once the child's index entry and its own bucket are gone: the buckets
/// to sweep are still there, and where the names are all the buckets of
/// `before`, sweeping them leaves `after` without all that lies below.
proof fn lemma_sweep(
    before: Entries,
    after: Entries,
    names: Seq<Vec<u8>>,
    child: Seq<u8>,
    gone: Path,
)
    requires
        names_buckets(before, names),
        marked(child),
        gone.len() == 3,
        after == without_subtree(before.remove(gone), seq![child])
            || exists|put: Path|
            put.len() == 3 && after == without_subtree(
                before.remove(gone).insert(put, Some(Seq::<u8>::empty())),
                seq![child],
            ),
    ensures
        forall|i: int|
            0 <= i < names.len() && below(child).is_prefix_of(#[trigger] names[i]@) ==> is_bucket(
                after,
                seq![names[i]@],
            ),
        names_all(before, names) ==> after.remove_keys(
            swept(names, names.len() as int, below(child)),
        ) == purged(after, below(child)),
        lies_between(
            after.remove_keys(swept(names, names.len() as int, below(child))),
            purged(after, below(child)),
            after,
        ),
{
    let prefix = below(child);
    assert forall|k: Seq<u8>| prefix.is_prefix_of(k) implies (is_bucket(before, seq![k])
        <==> is_bucket(after, seq![k])) by {
        assert(seq![k].len() == 1 && seq![k][0] == k);
        assert(k != child) by {
            if k == child {
                lemma_below_misses_own(child);
            }
        }
        if seq![child].is_prefix_of(seq![k]) {
            assert(seq![k].subrange(0, 1)[0] == seq![child][0]);
        }
    }
    assert forall|i: int|
        0 <= i < names.len() && prefix.is_prefix_of(#[trigger] names[i]@) implies is_bucket(
        after,
        seq![names[i]@],
    ) by {}
    assert forall|q: Path| swept(names, names.len() as int, prefix).contains(q) implies q.len()
        >= 1 && prefix.is_prefix_of(q[0]) && is_bucket(after, seq![q[0]]) by {
        let j = choose|j: int| 0 <= j < names.len() && names[j]@ == q[0];
        assert(is_bucket(after, seq![names[j]@]));
    }
    if names_all(before, names) {
        assert forall|q: Path|
            swept(names, names.len() as int, prefix).contains(q) <==> (q.len() >= 1
                && prefix.is_prefix_of(q[0]) && is_bucket(after, seq![q[0]])) by {
            if q.len() >= 1 && prefix.is_prefix_of(q[0]) && is_bucket(after, seq![q[0]]) {
                assert(is_bucket(before, seq![q[0]]));
            }
        }
        assert(after.remove_keys(swept(names, names.len() as int, prefix))
            =~= purged(after, prefix));
    }
}

/// A path that ends in a mark does not begin with what lies below it.
pub proof fn lemma_below_misses_own(path: Seq<u8>)
    requires
        marked(path),
    ensures
        !below(path).is_prefix_of(path),
{
    if below(path).is_prefix_of(path) {
        let cut = path.len() - 2;
        assert(below(path)[cut] == 47u8);
        assert(path.subrange(0, below(path).len() as int)[cut] == path[cut]);
    }
}

/// Deletes a child of the directory at `dir`: its index entry and its
/// bucket with all that the bucket holds. With a directory go the buckets
/// of everything that lies below it: the buckets at the root of the store
/// whose paths begin with the directory's path and a slash. The cursor
/// that finds them is sure of all of them only in a transaction that has
/// deleted nothing before; in another one the entry and the directory's
/// own bucket go, and of what lies below as much as the cursor reaches.
pub fn delete_entry(tx: &mut jammdb::Tx, dir: &[u8], name: &[u8], kind: Kind) -> (r: Result<
    (),
    Error,
>)
    ensures
        match delete_effect(tx_entries(*old(tx)), tx_writable(*old(tx)), dir@, name@, kind) {
            Effect::Applied(m) => r is Ok && (kind == Kind::File || tx_pristine(*old(tx))
                ==> tx_entries(*final(tx)) == m) && lies_between(
                tx_entries(*final(tx)),
                m,
                deleted_alone(tx_entries(*old(tx)), dir@, name@, kind),
            ),
            Effect::NotFound => r matches Err(Error::NotFound) && tx_entries(*final(tx))
                == tx_entries(*old(tx)) && tx_pristine(*final(tx)) == tx_pristine(*old(tx)),
            _ => r matches Err(Error::DBError(_)),
        },
        tx_writable(*final(tx)) == tx_writable(*old(tx)),
{
    if !bucket_present(tx, dir) {
        return Err(Error::NotFound);
    }
    let data = data_name();
    let key = index_key(name, kind);
    let child = child_path(dir, name, kind);
    match entry_get(tx, dir, data.as_slice(), key.as_slice()) {
        Err(e) => {
            return Err(Error::DBError(e));
        },
        Ok(None) => {
            return Err(Error::NotFound);
        },
        Ok(Some(_)) => {},
    }
    let ghost m0 = tx_entries(*tx);
    let names: Vec<Vec<u8>> = match kind {
        Kind::Dir => top_names(tx),
        Kind::File => Vec::new(),
    };
    match entry_delete(tx, dir, data.as_slice(), key.as_slice()) {
        Err(e) => {
            return Err(Error::DBError(e));
        },
        Ok(()) => {},
    }
    match top_delete(tx, child.as_slice()) {
        Err(e) => {
            return Err(Error::DBError(e));
        },
        Ok(()) => {},
    }
    match kind {
        Kind::File => Ok(()),
        Kind::Dir => {
            let prefix = below_path(child.as_slice());
            let ghost after = tx_entries(*tx);
            proof {
                assert(entry_path(dir@, name@, kind).len() == 3);
                lemma_child_path_marked(dir@, name@, kind);
                lemma_sweep(m0, after, names@, child@, entry_path(dir@, name@, kind));
            }
            purge(tx, &names, prefix.as_slice())
        },
    }
}

/// Renames a child of the directory at `dir`. Equal names are accepted
/// at once, whatever the store holds. Otherwise the index entry moves to
/// the new name, the old bucket goes, and a new bucket takes the file's
/// content; a directory arrives empty under its new name, and the buckets
/// of what lay below it go. The cursor that finds them is sure of all of
/// them only in a transaction that has deleted nothing before; in another
/// one as many go as the cursor reaches, and the rename fails in the store
/// where one that stayed is in the way of the new bucket.
pub fn rename_entry(
    tx: &mut jammdb::Tx,
    dir: &[u8],
    old_name: &[u8],
    new_name: &[u8],
    kind: Kind,
) -> (r: Result<(), Error>)
    ensures
        match rename_effect(
            tx_entries(*old(tx)),
            tx_writable(*old(tx)),
            dir@,
            old_name@,
            new_name@,
            kind,
        ) {
            Effect::Applied(m) => if kind == Kind::File || tx_pristine(*old(tx)) || old_name@
                == new_name@ {
                r is Ok && tx_entries(*final(tx)) == m
            } else {
                (r is Ok || r matches Err(Error::DBError(_))) && (r is Ok ==> lies_between(
                    tx_entries(*final(tx)),
                    m,
                    renamed_alone(tx_entries(*old(tx)), dir@, old_name@, new_name@, kind),
                ))
            },
            Effect::NotFound => r matches Err(Error::NotFound) && tx_entries(*final(tx))
                == tx_entries(*old(tx)) && tx_pristine(*final(tx)) == tx_pristine(*old(tx)),
            Effect::AlreadyExists => r matches Err(Error::AlreadyExists) && tx_entries(*final(tx))
                == tx_entries(*old(tx)) && tx_pristine(*final(tx)) == tx_pristine(*old(tx)),
            Effect::StoreFailure => r matches Err(Error::DBError(_)),
            Effect::Unclassified => r matches Err(Error::Other),
        },
        old_name@ == new_name@ ==> tx_pristine(*final(tx)) == tx_pristine(*old(tx)),
        tx_writable(*final(tx)) == tx_writable(*old(tx)),
{
    if same_bytes(old_name, new_name) {
        return Ok(());
    }
    if !bucket_present(tx, dir) {
        return Err(Error::NotFound);
    }
    let data = data_name();
    let old_key = index_key(old_name, kind);
    let new_key = index_key(new_name, kind);
    let old_child = child_path(dir, old_name, kind);
    let new_child = child_path(dir, new_name, kind);
    let empty: Vec<u8> = Vec::new();
    proof {
        if old_key@ == new_key@ {
            lemma_index_key_injective(old_name@, kind, new_name@, kind);
        }
        if old_child@ == new_child@ {
            lemma_child_path_injective(dir@, old_name@, kind, new_name@, kind);
        }
        assert(entry_path(dir@, old_name@, kind)[2] == old_key@);
        assert(entry_path(dir@, new_name@, kind)[2] == new_key@);
        assert(seq![old_child@][0] == old_child@ && seq![new_child@][0] == new_child@);
        assert(content_path(new_child@).len() == 2);
    }
    match entry_get(tx, dir, data.as_slice(), old_key.as_slice()) {
        Err(e) => {
            return Err(Error::DBError(e));
        },
        Ok(None) => {
            return Err(Error::NotFound);
        },
        Ok(Some(_)) => {},
    }
    match entry_get(tx, dir, data.as_slice(), new_key.as_slice()) {
        Err(e) => {
            return Err(Error::DBError(e));
        },
        Ok(Some(_)) => {
            return Err(Error::AlreadyExists);
        },
        Ok(None) => {},
    }
    let ghost m0 = tx_entries(*tx);
    let names: Vec<Vec<u8>> = match kind {
        Kind::Dir => top_names(tx),
        Kind::File => Vec::new(),
    };
    match entry_delete(tx, dir, data.as_slice(), old_key.as_slice()) {
        Err(e) => {
            return Err(Error::DBError(e));
        },
        Ok(()) => {},
    }
    match entry_put(tx, dir, data.as_slice(), new_key.as_slice(), empty.as_slice()) {
        Err(e) => {
            return Err(Error::DBError(e));
        },
        Ok(()) => {},
    }
    let carried: Vec<u8> = match kind {
        Kind::File => match value_get(tx, old_child.as_slice(), data.as_slice()) {
            Err(e) => {
                return Err(Error::DBError(e));
            },
            Ok(None) => {
                return Err(Error::Other);
            },
            Ok(Some(c)) => c,
        },
        Kind::Dir => Vec::new(),
    };
    match top_delete(tx, old_child.as_slice()) {
        Err(e) => {
            return Err(Error::DBError(e));
        },
        Ok(()) => {},
    }
    match kind {
        Kind::File => {},
        Kind::Dir => {
            let prefix = below_path(old_child.as_slice());
            proof {
                assert(entry_path(dir@, old_name@, kind).len() == 3);
                assert(entry_path(dir@, new_name@, kind).len() == 3);
                lemma_child_path_marked(dir@, old_name@, kind);
                lemma_sweep(
                    m0,
                    tx_entries(*tx),
                    names@,
                    old_child@,
                    entry_path(dir@, old_name@, kind),
                );
            }
            match purge(tx, &names, prefix.as_slice()) {
                Err(e) => {
                    return Err(e);
                },
                Ok(()) => {},
            }
        },
    }
    match top_create(tx, new_child.as_slice()) {
        Err(e) => {
            return Err(Error::DBError(e));
        },
        Ok(()) => {},
    }
    let last = match kind {
        Kind::File => value_put(tx, new_child.as_slice(), data.as_slice(), carried.as_slice()),
        Kind::Dir => nested_create(tx, new_child.as_slice(), data.as_slice()),
    };
    match last {
        Err(e) => Err(Error::DBError(e)),
        Ok(()) => Ok(()),
    }
}

/// Whether two byte strings are the same.
pub fn same_bytes(a: &[u8], b: &[u8]) -> (same: bool)
    ensures
        same == (a@ == b@),
{
    if a.len() != b.len() {
        return false;
    }
    let mut i: usize = 0;
    while i < a.len()
        invariant
            a.len() == b.len(),
            i <= a.len(),
            a@.subrange(0, i as int) == b@.subrange(0, i as int),
        decreases a.len() - i,
    {
        if a[i] != b[i] {
            return false;
        }
        i += 1;
        assert(a@.subrange(0, i as int) =~= a@.subrange(0, i - 1).push(a[i - 1]));
        assert(b@.subrange(0, i as int) =~= b@.subrange(0, i - 1).push(b[i - 1]));
    }
    assert(a@ =~= a@.subrange(0, i as int));
    assert(b@ =~= b@.subrange(0, i as int));
    true
}

/// Makes sure that the root directory has its bucket and its index, and
/// leaves what they hold as it is.
pub fn bootstrap(tx: &mut jammdb::Tx) -> (r: Result<(), Error>)
    ensures
        match bootstrap_effect(tx_entries(*old(tx)), tx_writable(*old(tx))) {
            Effect::Applied(m) => r is Ok && tx_entries(*final(tx)) == m,
            _ => r matches Err(Error::DBError(_)),
        },
        tx_writable(*final(tx)) == tx_writable(*old(tx)),
        tx_pristine(*final(tx)) == tx_pristine(*old(tx)),
{
    let root = root_name();
    let data = data_name();
    proof {
        assert(seq![root@].len() == 1 && index_path(root@).len() == 2);
    }
    match top_ensure(tx, root.as_slice()) {
        Err(e) => {
            return Err(Error::DBError(e));
        },
        Ok(()) => {},
    }
    match nested_ensure(tx, root.as_slice(), data.as_slice()) {
        Err(e) => Err(Error::DBError(e)),
        Ok(()) => Ok(()),
    }
}

/// Reads from the file at `file`: the bytes from `offset` on, at most
/// `size` of them, and none where `offset` lies behind the end. A file
/// whose bucket is not in the store is not found.
pub fn read_file(tx: &jammdb::Tx, file: &[u8], offset: u32, size: u32) -> (r: Result<
    Vec<u8>,
    Error,
>)
    ensures
        !is_bucket(tx_entries(*tx), seq![file@]) ==> r matches Err(Error::NotFound),
        is_bucket(tx_entries(*tx), seq![file@]) ==> match file_content(tx_entries(*tx), file@) {
            Some(c) => r matches Ok(out) && out@ == read_spec(c, offset as nat, size as nat),
            None => r matches Err(Error::Other),
        },
{
    let data = data_name();
    match value_get(tx, file, data.as_slice()) {
        Err(_) => Err(Error::NotFound),
        Ok(None) => Err(Error::Other),
        Ok(Some(c)) => Ok(read_range(c.as_slice(), offset, size)),
    }
}

/// The length of the file at `file`.
pub fn file_size(tx: &jammdb::Tx, file: &[u8]) -> (r: Result<u32, Error>)
    ensures
        !is_bucket(tx_entries(*tx), seq![file@]) ==> r matches Err(Error::NotFound),
        is_bucket(tx_entries(*tx), seq![file@]) ==> match file_content(tx_entries(*tx), file@) {
            Some(c) => if c.len() <= u32::MAX {
                r matches Ok(n) && n == c.len()
            } else {
                r matches Err(Error::Other)
            },
            None => r matches Err(Error::Other),
        },
{
    let data = data_name();
    match value_get(tx, file, data.as_slice()) {
        Err(_) => Err(Error::NotFound),
        Ok(None) => Err(Error::Other),
        Ok(Some(c)) => {
            if c.len() as u64 <= u32::MAX as u64 {
                Ok(c.len() as u32)
            } else {
                Err(Error::Other)
            }
        },
    }
}

/// Writes to the file at `file`: pads the content with zeros up to
/// `offset` where it ends before, appends `bytes`, and returns their
/// number. More bytes than a `u32` counts are refused before anything is
/// touched.
pub fn write_file(tx: &mut jammdb::Tx, file: &[u8], offset: u32, bytes: &[u8]) -> (r: Result<
    u32,
    Error,
>)
    ensures
        match write_effect(
            tx_entries(*old(tx)),
            tx_writable(*old(tx)),
            file@,
            offset as nat,
            bytes@,
        ) {
            Effect::Applied(m) => r matches Ok(n) && n == bytes@.len() && tx_entries(*final(tx))
                == m,
            Effect::Unclassified => r matches Err(Error::Other) && tx_entries(*final(tx))
                == tx_entries(*old(tx)),
            Effect::NotFound => r matches Err(Error::NotFound) && tx_entries(*final(tx))
                == tx_entries(*old(tx)),
            _ => r matches Err(Error::DBError(_)) && tx_entries(*final(tx)) == tx_entries(
                *old(tx),
            ),
        },
        tx_writable(*final(tx)) == tx_writable(*old(tx)),
        tx_pristine(*final(tx)) == tx_pristine(*old(tx)),
{
    if bytes.len() as u64 > u32::MAX as u64 {
        return Err(Error::Other);
    }
    let data = data_name();
    let current: Vec<u8> = match value_get(tx, file, data.as_slice()) {
        Err(_) => {
            return Err(Error::NotFound);
        },
        Ok(None) => {
            return Err(Error::Other);
        },
        Ok(Some(c)) => c,
    };
    let next = pad_and_append(current, offset, bytes);
    match value_put(tx, file, data.as_slice(), next.as_slice()) {
        Err(e) => Err(Error::DBError(e)),
        Ok(()) => Ok(bytes.len() as u32),
    }
}

/// Empties the file at `file`.
pub fn clear_file(tx: &mut jammdb::Tx, file: &[u8]) -> (r: Result<(), Error>)
    ensures
        match clear_effect(tx_entries(*old(tx)), tx_writable(*old(tx)), file@) {
            Effect::Applied(m) => r is Ok && tx_entries(*final(tx)) == m,
            Effect::NotFound => r matches Err(Error::NotFound) && tx_entries(*final(tx))
                == tx_entries(*old(tx)),
            _ => r matches Err(Error::DBError(_)) && tx_entries(*final(tx)) == tx_entries(
                *old(tx),
            ),
        },
        tx_writable(*final(tx)) == tx_writable(*old(tx)),
        tx_pristine(*final(tx)) == tx_pristine(*old(tx)),
{
    if !bucket_present(tx, file) {
        return Err(Error::NotFound);
    }
    let data = data_name();
    let empty: Vec<u8> = Vec::new();
    match value_put(tx, file, data.as_slice(), empty.as_slice()) {
        Err(e) => Err(Error::DBError(e)),
        Ok(()) => Ok(()),
    }
}

/// Lists the children of the directory at `dir`, in the order in which the
/// store's cursor walks the index. A directory whose bucket is not in the
/// store is not found. An index in which the cursor meets anything but
/// entries of this file system is refused. The cursor is sure to reach
/// every entry in a transaction that has deleted nothing.
pub fn list_entries(tx: &jammdb::Tx, dir: &[u8]) -> (r: Result<Vec<String>, Error>)
    ensures
        !is_bucket(tx_entries(*tx), seq![dir@]) ==> r matches Err(Error::NotFound),
        is_bucket(tx_entries(*tx), seq![dir@]) && !dir_ready(tx_entries(*tx), dir@) ==> r matches Err(
            Error::DBError(_),
        ),
        dir_ready(tx_entries(*tx), dir@) && index_clean(tx_entries(*tx), dir@) ==> r is Ok,
        dir_ready(tx_entries(*tx), dir@) ==> (r is Err ==> (r matches Err(Error::Other))
            && !index_clean(tx_entries(*tx), dir@)),
        dir_ready(tx_entries(*tx), dir@) ==> (r matches Ok(names) ==> is_partial_listing(
            tx_entries(*tx),
            dir@,
            names_bytes(names@),
        )),
        dir_ready(tx_entries(*tx), dir@) && cursor_whole(*tx) ==> (r matches Ok(names)
            ==> index_clean(tx_entries(*tx), dir@) && is_listing(
            tx_entries(*tx),
            dir@,
            names_bytes(names@),
        )),
{
    if !bucket_present(tx, dir) {
        return Err(Error::NotFound);
    }
    let data = data_name();
    let items = match entry_keys(tx, dir, data.as_slice()) {
        Err(e) => {
            return Err(Error::DBError(e));
        },
        Ok(v) => v,
    };
    let ghost m = tx_entries(*tx);
    let mut names: Vec<String> = Vec::new();
    let mut i: usize = 0;
    while i < items.len()
        invariant
            i <= items.len(),
            names.len() == i,
            m == tx_entries(*tx),
            dir_ready(m, dir@),
            lists_bucket(m, index_path(dir@), items@),
            forall|j: int|
                0 <= j < i ==> items[j].1 && (#[trigger] decode_spec(items[j].0@)) is Some
                    && vstd::utf8::valid_utf8(decode_spec(items[j].0@)->Some_0.0) && decode_spec(
                    items[j].0@,
                )->Some_0.0 == vstd::utf8::encode_utf8(names[j]@),
        decreases items.len() - i,
    {
        let item = &items[i];
        assert(m.contains_key(index_path(dir@).push(items[i as int].0@)));
        if !item.1 {
            return Err(Error::Other);
        }
        let name: Vec<u8> = match decode_index_key(item.0.as_slice()) {
            None => {
                return Err(Error::Other);
            },
            Some((name, _)) => name,
        };
        match string_from_utf8(name) {
            None => {
                return Err(Error::Other);
            },
            Some(s) => {
                names.push(s);
            },
        }
        i += 1;
    }
    proof {
        let keys = Seq::new(items.len() as nat, |j: int| items[j].0@);
        assert forall|j: int| 0 <= j < keys.len() implies m.contains_key(
            #[trigger] index_path(dir@).push(keys[j]),
        ) by {
            assert(m.contains_key(index_path(dir@).push(items[j].0@)));
        }
        assert forall|j: int| 0 <= j < keys.len() implies (#[trigger] decode_spec(keys[j])) is Some
            && decode_spec(keys[j])->Some_0.0 == names_bytes(names@)[j] by {
            assert(decode_spec(items[j].0@) is Some);
        }
        assert(keys.len() == names_bytes(names@).len());
        assert(keys.no_duplicates());
        assert(names_of_keys(m, dir@, keys, names_bytes(names@)));
        if cursor_whole(*tx) {
            assert(lists_all(m, index_path(dir@), items@));
            assert forall|k: Seq<u8>|
                m.contains_key(#[trigger] index_path(dir@).push(k)) implies keys.contains(k)
                && is_value(m, index_path(dir@).push(k)) && decode_spec(k) is Some
                && vstd::utf8::valid_utf8(decode_spec(k)->Some_0.0) by {
                let j = choose|j: int| 0 <= j < items.len() && items[j].0@ == k;
                assert(keys[j] == k);
                assert(m.contains_key(index_path(dir@).push(items[j].0@)));
                assert(decode_spec(items[j].0@) is Some);
            }
        }
    }
    Ok(names)
}

} // verus!
