//! What holds between the operations of the file system.
//!
//! Every law speaks of the contents of a transaction before and after the
//! operations, as the contracts of the operations do.
use crate::encoder::{child_path_spec, decode_spec, index_key_spec, lemma_child_path_injective,
    lemma_decode_inverts_encode,
    lemma_child_path_longer, lemma_child_path_marked, lemma_index_key_injective, marked, stem,
    suffix, Kind};
use crate::model::{applied, below, bootstrap_effect, clear_effect, cleared, content_path,
    create_effect, index_clean, is_listing, names_of_keys, write_effect,
    data_key, delete_effect, dir_empty, dir_ready, entry_path, file_content, find_spec,
    has_entry, index_path, moved_out, rename_effect, root_path, Effect, Lookup};
use crate::ops::lemma_below_misses_own;
use crate::store::{is_bucket, is_value, without_subtree, Entries, Path};
use vstd::prelude::*;

verus! {

/// The keys that the index of the directory at `dir` holds.
pub open spec fn index_keys(m: Entries, dir: Seq<u8>) -> Set<Seq<u8>> {
    Set::new(|k: Seq<u8>| m.contains_key(index_path(dir).push(k)))
}

/// Some facts on the shape of the paths that one operation touches.
proof fn lemma_paths(dir: Seq<u8>, name: Seq<u8>, kind: Kind)
    ensures
        entry_path(dir, name, kind).len() == 3,
        entry_path(dir, name, kind) == index_path(dir).push(index_key_spec(name, kind)),
        entry_path(dir, name, kind)[2] == index_key_spec(name, kind),
        seq![child_path_spec(dir, name, kind)].len() == 1,
        seq![child_path_spec(dir, name, kind)][0] == child_path_spec(dir, name, kind),
        content_path(child_path_spec(dir, name, kind)).len() == 2,
        content_path(child_path_spec(dir, name, kind))[0] == child_path_spec(dir, name, kind),
        child_path_spec(dir, name, kind) != dir,
        seq![dir].len() == 1,
        seq![dir][0] == dir,
        index_path(dir).len() == 2,
        index_path(dir)[0] == dir,
        forall|k: Seq<u8>| (#[trigger] index_path(dir).push(k)).len() == 3,
        forall|k: Seq<u8>| (#[trigger] index_path(dir).push(k))[0] == dir,
        forall|k: Seq<u8>| (#[trigger] index_path(dir).push(k))[2] == k,
{
    lemma_child_path_longer(dir, name, kind);
    assert(entry_path(dir, name, kind) =~= index_path(dir).push(index_key_spec(name, kind)));
}

/// What lies below a child of a directory does not reach the directory
/// itself, where the directory's path ends in a mark.
pub proof fn lemma_below_misses_parent(dir: Seq<u8>, name: Seq<u8>, kind: Kind)
    requires
        marked(dir),
    ensures
        !below(child_path_spec(dir, name, kind)).is_prefix_of(dir),
{
    let child = child_path_spec(dir, name, kind);
    lemma_child_path_marked(dir, name, kind);
    let b = below(child);
    assert(b.len() == stem(dir).len() + 2 + name.len());
    if b.is_prefix_of(dir) {
        let cut = dir.len() - 2;
        assert(name.len() == 0);
        assert(b[cut] == 47u8);
        assert(dir.subrange(0, b.len() as int)[cut] == dir[cut]);
    }
}

/// What clearing a child away takes and what it leaves: nothing comes,
/// all at the child goes, and all in the directory's own bucket stays.
proof fn lemma_cleared_spares(m: Entries, dir: Seq<u8>, name: Seq<u8>, kind: Kind)
    requires
        kind == Kind::File || marked(dir),
    ensures
        forall|q: Path| #[trigger]
            cleared(m, child_path_spec(dir, name, kind), kind).contains_key(q) ==> m.contains_key(
                q,
            ) && cleared(m, child_path_spec(dir, name, kind), kind)[q] == m[q],
        forall|q: Path|
            q.len() >= 1 && q[0] == child_path_spec(dir, name, kind) ==> !(#[trigger] cleared(
                m,
                child_path_spec(dir, name, kind),
                kind,
            ).contains_key(q)),
        forall|q: Path|
            q.len() >= 1 && q[0] == dir && m.contains_key(q) ==> #[trigger] cleared(
                m,
                child_path_spec(dir, name, kind),
                kind,
            ).contains_key(q),
{
    let child = child_path_spec(dir, name, kind);
    lemma_paths(dir, name, kind);
    if kind == Kind::Dir {
        lemma_below_misses_parent(dir, name, kind);
    }
    assert forall|q: Path| q.len() >= 1 && q[0] == child implies !(#[trigger] cleared(
        m,
        child,
        kind,
    ).contains_key(q)) by {
        assert(q.subrange(0, 1) =~= seq![child]);
        assert(seq![child].is_prefix_of(q));
    }
    assert forall|q: Path| q.len() >= 1 && q[0] == dir && m.contains_key(q) implies #[trigger] cleared(
        m,
        child,
        kind,
    ).contains_key(q) by {
        if seq![child].is_prefix_of(q) {
            assert(q.subrange(0, 1)[0] == seq![child][0]);
        }
    }
}

/// A name is taken once: after a child was created, creating a child of
/// the same name and kind in the same directory is refused as existing,
/// in a writable transaction or not.
pub proof fn lemma_create_twice(
    m: Entries,
    dir: Seq<u8>,
    name: Seq<u8>,
    kind: Kind,
    writable: bool,
)
    requires
        create_effect(m, true, dir, name, kind) is Applied,
    ensures
        create_effect(applied(create_effect(m, true, dir, name, kind)), writable, dir, name, kind)
            is AlreadyExists,
        find_spec(applied(create_effect(m, true, dir, name, kind)), dir, name, kind)
            == Lookup::Found(child_path_spec(dir, name, kind)),
{
    lemma_paths(dir, name, kind);
}

/// A created child is new: a file has empty content, a directory an
/// empty index.
pub proof fn lemma_create_is_fresh(m: Entries, dir: Seq<u8>, name: Seq<u8>, kind: Kind)
    requires
        create_effect(m, true, dir, name, kind) is Applied,
        kind == Kind::Dir ==> forall|k: Seq<u8>|
            !m.contains_key(#[trigger] index_path(child_path_spec(dir, name, kind)).push(k)),
    ensures
        kind == Kind::File ==> file_content(
            applied(create_effect(m, true, dir, name, kind)),
            child_path_spec(dir, name, kind),
        ) == Some(Seq::<u8>::empty()),
        kind == Kind::Dir ==> dir_empty(
            applied(create_effect(m, true, dir, name, kind)),
            child_path_spec(dir, name, kind),
        ),
{
    lemma_paths(dir, name, kind);
    let child = child_path_spec(dir, name, kind);
    lemma_paths(child, name, kind);
    assert(content_path(child) == index_path(child));
}

/// Deleting makes room: after a child was deleted, creating one of the
/// same name and kind in the same directory goes through, and what it
/// creates is new: a file with empty content, a directory with an empty
/// index. For a file this holds in every directory; for a directory, in
/// one whose path ends in a mark, as the root's does and every path that
/// a lookup gives.
pub proof fn lemma_delete_then_create(m: Entries, dir: Seq<u8>, name: Seq<u8>, kind: Kind)
    requires
        delete_effect(m, true, dir, name, kind) is Applied,
        kind == Kind::File || marked(dir),
    ensures
        find_spec(applied(delete_effect(m, true, dir, name, kind)), dir, name, kind)
            == Lookup::NotFound,
        create_effect(applied(delete_effect(m, true, dir, name, kind)), true, dir, name, kind)
            is Applied,
        kind == Kind::File ==> file_content(
            applied(
                create_effect(
                    applied(delete_effect(m, true, dir, name, kind)),
                    true,
                    dir,
                    name,
                    kind,
                ),
            ),
            child_path_spec(dir, name, kind),
        ) == Some(Seq::<u8>::empty()),
        kind == Kind::Dir ==> dir_empty(
            applied(
                create_effect(
                    applied(delete_effect(m, true, dir, name, kind)),
                    true,
                    dir,
                    name,
                    kind,
                ),
            ),
            child_path_spec(dir, name, kind),
        ),
{
    lemma_paths(dir, name, kind);
    let child = child_path_spec(dir, name, kind);
    lemma_paths(child, name, kind);
    assert(content_path(child) == index_path(child));
    let before = m.remove(entry_path(dir, name, kind));
    let m2 = applied(delete_effect(m, true, dir, name, kind));
    assert(m2 == cleared(before, child, kind));
    lemma_cleared_spares(before, dir, name, kind);
    assert(before.contains_key(seq![dir]) && before.contains_key(index_path(dir)));
    assert(m2.contains_key(seq![dir]) && m2.contains_key(index_path(dir)));
    assert(!m2.contains_key(entry_path(dir, name, kind)));
    assert(!m2.contains_key(seq![child]));
    assert(!m2.contains_key(content_path(child)));
    assert forall|k: Seq<u8>| !m2.contains_key(#[trigger] index_path(child).push(k)) by {
        assert(index_path(child).push(k)[0] == child);
    }
    lemma_create_is_fresh(m2, dir, name, kind);
}

/// A rename moves a file: after a file was renamed to another name, the
/// old name is not found in the directory, the new name is, and the file
/// under the new name has the content that the file under the old name
/// had.
pub proof fn lemma_rename_moves_file(
    m: Entries,
    dir: Seq<u8>,
    old_name: Seq<u8>,
    new_name: Seq<u8>,
)
    requires
        old_name != new_name,
        rename_effect(m, true, dir, old_name, new_name, Kind::File) is Applied,
    ensures
        find_spec(
            applied(rename_effect(m, true, dir, old_name, new_name, Kind::File)),
            dir,
            old_name,
            Kind::File,
        ) == Lookup::NotFound,
        find_spec(
            applied(rename_effect(m, true, dir, old_name, new_name, Kind::File)),
            dir,
            new_name,
            Kind::File,
        ) == Lookup::Found(child_path_spec(dir, new_name, Kind::File)),
        file_content(m, child_path_spec(dir, old_name, Kind::File)) is Some,
        file_content(
            applied(rename_effect(m, true, dir, old_name, new_name, Kind::File)),
            child_path_spec(dir, new_name, Kind::File),
        ) == file_content(m, child_path_spec(dir, old_name, Kind::File)),
        file_content(
            applied(rename_effect(m, true, dir, old_name, new_name, Kind::File)),
            child_path_spec(dir, old_name, Kind::File),
        ) is None,
{
    let kind = Kind::File;
    lemma_paths(dir, old_name, kind);
    lemma_paths(dir, new_name, kind);
    let old_child = child_path_spec(dir, old_name, kind);
    let new_child = child_path_spec(dir, new_name, kind);
    if index_key_spec(old_name, kind) == index_key_spec(new_name, kind) {
        lemma_index_key_injective(old_name, kind, new_name, kind);
    }
    if old_child == new_child {
        lemma_child_path_injective(dir, old_name, kind, new_name, kind);
    }
    assert(seq![old_child].is_prefix_of(seq![old_child]));
    assert(!seq![old_child].is_prefix_of(seq![dir]));
    assert(!seq![old_child].is_prefix_of(index_path(dir)));
    assert(!seq![old_child].is_prefix_of(entry_path(dir, new_name, kind)));
    assert(!seq![old_child].is_prefix_of(seq![new_child]));
}

/// A rename moves a directory's name and not what the directory held:
/// after a directory was renamed to another name, the old name is not
/// found, the new name is, and the directory under the new name is empty.
pub proof fn lemma_rename_moves_dir(
    m: Entries,
    dir: Seq<u8>,
    old_name: Seq<u8>,
    new_name: Seq<u8>,
)
    requires
        old_name != new_name,
        marked(dir),
        rename_effect(m, true, dir, old_name, new_name, Kind::Dir) is Applied,
        forall|k: Seq<u8>|
            !m.contains_key(
                #[trigger] index_path(child_path_spec(dir, new_name, Kind::Dir)).push(k),
            ),
    ensures
        find_spec(
            applied(rename_effect(m, true, dir, old_name, new_name, Kind::Dir)),
            dir,
            old_name,
            Kind::Dir,
        ) == Lookup::NotFound,
        find_spec(
            applied(rename_effect(m, true, dir, old_name, new_name, Kind::Dir)),
            dir,
            new_name,
            Kind::Dir,
        ) == Lookup::Found(child_path_spec(dir, new_name, Kind::Dir)),
        dir_empty(
            applied(rename_effect(m, true, dir, old_name, new_name, Kind::Dir)),
            child_path_spec(dir, new_name, Kind::Dir),
        ),
{
    let kind = Kind::Dir;
    lemma_paths(dir, old_name, kind);
    lemma_paths(dir, new_name, kind);
    let old_child = child_path_spec(dir, old_name, kind);
    let new_child = child_path_spec(dir, new_name, kind);
    lemma_paths(new_child, new_name, kind);
    if index_key_spec(old_name, kind) == index_key_spec(new_name, kind) {
        lemma_index_key_injective(old_name, kind, new_name, kind);
    }
    if old_child == new_child {
        lemma_child_path_injective(dir, old_name, kind, new_name, kind);
    }
    let before = m.remove(entry_path(dir, old_name, kind)).insert(
        entry_path(dir, new_name, kind),
        Some(Seq::<u8>::empty()),
    );
    let between = moved_out(m, dir, old_name, new_name, kind);
    assert(between == cleared(before, old_child, kind));
    lemma_cleared_spares(before, dir, old_name, kind);
    assert(before.contains_key(seq![dir]) && before.contains_key(index_path(dir)));
    assert(between.contains_key(seq![dir]) && between.contains_key(index_path(dir)));
    assert(before.contains_key(entry_path(dir, new_name, kind)));
    assert(between.contains_key(entry_path(dir, new_name, kind)));
    assert(!between.contains_key(entry_path(dir, old_name, kind)));
    let m2 = applied(rename_effect(m, true, dir, old_name, new_name, kind));
    assert forall|k: Seq<u8>| !m2.contains_key(#[trigger] index_path(new_child).push(k)) by {
        let q = index_path(new_child).push(k);
        assert(q.len() == 3);
        if between.contains_key(q) {
            assert(before.contains_key(q));
            assert(q[0] == new_child);
            assert(entry_path(dir, new_name, kind)[0] == dir);
        }
    }
}

/// Renaming a child to its own name goes through and changes nothing,
/// whether the child exists or not and whatever the transaction holds.
pub proof fn lemma_rename_same_name(
    m: Entries,
    writable: bool,
    dir: Seq<u8>,
    name: Seq<u8>,
    kind: Kind,
)
    ensures
        rename_effect(m, writable, dir, name, name, kind) == Effect::Applied(m),
{
}

/// The index follows the operations: creating adds the child's key to the
/// directory's index, deleting takes it out, renaming replaces it, and no
/// other key comes or goes. Where a directory goes, this is said of a
/// directory whose own path ends in a mark.
pub proof fn lemma_index_follows(
    m: Entries,
    dir: Seq<u8>,
    name: Seq<u8>,
    new_name: Seq<u8>,
    kind: Kind,
)
    requires
        kind == Kind::File || marked(dir),
    ensures
        create_effect(m, true, dir, name, kind) is Applied ==> index_keys(
            applied(create_effect(m, true, dir, name, kind)),
            dir,
        ) == index_keys(m, dir).insert(index_key_spec(name, kind)),
        delete_effect(m, true, dir, name, kind) is Applied ==> index_keys(
            applied(delete_effect(m, true, dir, name, kind)),
            dir,
        ) == index_keys(m, dir).remove(index_key_spec(name, kind)),
        name != new_name && rename_effect(m, true, dir, name, new_name, kind) is Applied
            ==> index_keys(applied(rename_effect(m, true, dir, name, new_name, kind)), dir)
            == index_keys(m, dir).remove(index_key_spec(name, kind)).insert(
            index_key_spec(new_name, kind),
        ),
{
    lemma_paths(dir, name, kind);
    lemma_paths(dir, new_name, kind);
    let child = child_path_spec(dir, name, kind);
    let new_child = child_path_spec(dir, new_name, kind);
    if create_effect(m, true, dir, name, kind) is Applied {
        let m2 = applied(create_effect(m, true, dir, name, kind));
        assert forall|k: Seq<u8>|
            index_keys(m2, dir).contains(k) <==> index_keys(m, dir).insert(
                index_key_spec(name, kind),
            ).contains(k) by {
            let p = index_path(dir).push(k);
            assert(p.len() == 3);
        }
        assert(index_keys(m2, dir) =~= index_keys(m, dir).insert(index_key_spec(name, kind)));
    }
    if delete_effect(m, true, dir, name, kind) is Applied {
        let before = m.remove(entry_path(dir, name, kind));
        let m2 = applied(delete_effect(m, true, dir, name, kind));
        assert(m2 == cleared(before, child, kind));
        lemma_cleared_spares(before, dir, name, kind);
        assert forall|k: Seq<u8>|
            index_keys(m2, dir).contains(k) <==> index_keys(m, dir).remove(
                index_key_spec(name, kind),
            ).contains(k) by {
            let p = index_path(dir).push(k);
            assert(p.len() == 3 && p[0] == dir);
            if before.contains_key(p) {
                assert(m2.contains_key(p));
            }
            if m2.contains_key(p) {
                assert(before.contains_key(p));
            }
        }
        assert(index_keys(m2, dir) =~= index_keys(m, dir).remove(index_key_spec(name, kind)));
    }
    if name != new_name && rename_effect(m, true, dir, name, new_name, kind) is Applied {
        let before = m.remove(entry_path(dir, name, kind)).insert(
            entry_path(dir, new_name, kind),
            Some(Seq::<u8>::empty()),
        );
        let between = moved_out(m, dir, name, new_name, kind);
        assert(between == cleared(before, child, kind));
        lemma_cleared_spares(before, dir, name, kind);
        let m2 = applied(rename_effect(m, true, dir, name, new_name, kind));
        assert forall|k: Seq<u8>|
            index_keys(m2, dir).contains(k) <==> index_keys(m, dir).remove(
                index_key_spec(name, kind),
            ).insert(index_key_spec(new_name, kind)).contains(k) by {
            let p = index_path(dir).push(k);
            assert(p.len() == 3 && p[0] == dir);
            if before.contains_key(p) {
                assert(between.contains_key(p));
            }
            if between.contains_key(p) {
                assert(before.contains_key(p));
            }
        }
        assert(index_keys(m2, dir) =~= index_keys(m, dir).remove(
            index_key_spec(name, kind),
        ).insert(index_key_spec(new_name, kind)));
    }
}

/// Making sure of the root twice is making sure of it once: the second
/// time goes through and changes nothing, and the root is then a
/// directory.
pub proof fn lemma_bootstrap_settles(m: Entries)
    requires
        bootstrap_effect(m, true) is Applied,
    ensures
        dir_ready(applied(bootstrap_effect(m, true)), root_path()),
        bootstrap_effect(applied(bootstrap_effect(m, true)), true) == bootstrap_effect(m, true),
{
    let m2 = applied(bootstrap_effect(m, true));
    assert(seq![root_path()].len() == 1 && index_path(root_path()).len() == 2);
    assert(applied(bootstrap_effect(m2, true)) =~= m2);
}

/// Clearing a child away keeps a leaf whose first key is neither the child
/// nor below it.
proof fn lemma_kept(m: Entries, child: Seq<u8>, kind: Kind, q: Path)
    requires
        q.len() >= 1,
        q[0] != child,
        kind == Kind::Dir ==> !below(child).is_prefix_of(q[0]),
        m.contains_key(q),
    ensures
        cleared(m, child, kind).contains_key(q),
        cleared(m, child, kind)[q] == m[q],
{
    if seq![child].is_prefix_of(q) {
        assert(q.subrange(0, 1)[0] == seq![child][0]);
    }
}

/// Every child that the directory at `dir` lists has its bucket.
pub open spec fn entries_backed(m: Entries, dir: Seq<u8>) -> bool {
    forall|name: Seq<u8>, kind: Kind| #[trigger]
        has_entry(m, dir, name, kind) ==> is_bucket(m, seq![child_path_spec(dir, name, kind)])
}

/// No entry is left hanging: where every child that a directory lists has
/// its bucket, that is still so after a child was created in the
/// directory, deleted from it or renamed in it. For a directory that goes,
/// this asks that no other child of the same directory lies below it, as
/// a child with a slash in its name can.
pub proof fn lemma_entries_stay_backed(
    m: Entries,
    dir: Seq<u8>,
    name: Seq<u8>,
    new_name: Seq<u8>,
    kind: Kind,
)
    requires
        entries_backed(m, dir),
        kind == Kind::File || (marked(dir) && forall|n: Seq<u8>, k: Kind| #[trigger]
            has_entry(m, dir, n, k) ==> !below(child_path_spec(dir, name, kind)).is_prefix_of(
                child_path_spec(dir, n, k),
            )),
    ensures
        create_effect(m, true, dir, name, kind) is Applied ==> entries_backed(
            applied(create_effect(m, true, dir, name, kind)),
            dir,
        ),
        delete_effect(m, true, dir, name, kind) is Applied ==> entries_backed(
            applied(delete_effect(m, true, dir, name, kind)),
            dir,
        ),
        rename_effect(m, true, dir, name, new_name, kind) is Applied ==> entries_backed(
            applied(rename_effect(m, true, dir, name, new_name, kind)),
            dir,
        ),
{
    lemma_paths(dir, name, kind);
    lemma_paths(dir, new_name, kind);
    let child = child_path_spec(dir, name, kind);
    let new_child = child_path_spec(dir, new_name, kind);
    if create_effect(m, true, dir, name, kind) is Applied {
        let m2 = applied(create_effect(m, true, dir, name, kind));
        assert forall|n: Seq<u8>, k: Kind| #[trigger] has_entry(m2, dir, n, k) implies is_bucket(
            m2,
            seq![child_path_spec(dir, n, k)],
        ) by {
            lemma_paths(dir, n, k);
            if entry_path(dir, n, k) == entry_path(dir, name, kind) {
                lemma_index_key_injective(n, k, name, kind);
            } else {
                assert(has_entry(m, dir, n, k));
            }
        }
    }
    if delete_effect(m, true, dir, name, kind) is Applied {
        let before = m.remove(entry_path(dir, name, kind));
        let m2 = applied(delete_effect(m, true, dir, name, kind));
        assert(m2 == cleared(before, child, kind));
        lemma_cleared_spares(before, dir, name, kind);
        assert forall|n: Seq<u8>, k: Kind| #[trigger] has_entry(m2, dir, n, k) implies is_bucket(
            m2,
            seq![child_path_spec(dir, n, k)],
        ) by {
            lemma_paths(dir, n, k);
            assert(before.contains_key(entry_path(dir, n, k)));
            assert(has_entry(m, dir, n, k));
            if child_path_spec(dir, n, k) == child {
                lemma_child_path_injective(dir, n, k, name, kind);
            }
            lemma_kept(before, child, kind, seq![child_path_spec(dir, n, k)]);
        }
    }
    if rename_effect(m, true, dir, name, new_name, kind) is Applied && name != new_name {
        let before = m.remove(entry_path(dir, name, kind)).insert(
            entry_path(dir, new_name, kind),
            Some(Seq::<u8>::empty()),
        );
        let between = moved_out(m, dir, name, new_name, kind);
        assert(between == cleared(before, child, kind));
        lemma_cleared_spares(before, dir, name, kind);
        let m2 = applied(rename_effect(m, true, dir, name, new_name, kind));
        assert forall|n: Seq<u8>, k: Kind| #[trigger] has_entry(m2, dir, n, k) implies is_bucket(
            m2,
            seq![child_path_spec(dir, n, k)],
        ) by {
            lemma_paths(dir, n, k);
            assert(between.contains_key(entry_path(dir, n, k)));
            assert(before.contains_key(entry_path(dir, n, k)));
            if entry_path(dir, n, k) == entry_path(dir, new_name, kind) {
                lemma_index_key_injective(n, k, new_name, kind);
            } else {
                assert(has_entry(m, dir, n, k));
                if child_path_spec(dir, n, k) == child {
                    lemma_child_path_injective(dir, n, k, name, kind);
                }
                lemma_kept(before, child, kind, seq![child_path_spec(dir, n, k)]);
            }
        }
    }
}

/// An entry and its bucket go together: after a deletion neither the entry
/// nor the bucket is there, and after a rename to another name neither the
/// old entry nor the old bucket is. Where a directory goes, this is said
/// of a directory whose own path ends in a mark.
pub proof fn lemma_entry_and_bucket_go_together(
    m: Entries,
    dir: Seq<u8>,
    name: Seq<u8>,
    new_name: Seq<u8>,
    kind: Kind,
)
    requires
        kind == Kind::File || marked(dir),
    ensures
        delete_effect(m, true, dir, name, kind) is Applied ==> !has_entry(
            applied(delete_effect(m, true, dir, name, kind)),
            dir,
            name,
            kind,
        ) && !applied(delete_effect(m, true, dir, name, kind)).contains_key(
            seq![child_path_spec(dir, name, kind)],
        ),
        name != new_name && rename_effect(m, true, dir, name, new_name, kind) is Applied
            ==> !has_entry(
            applied(rename_effect(m, true, dir, name, new_name, kind)),
            dir,
            name,
            kind,
        ) && !applied(rename_effect(m, true, dir, name, new_name, kind)).contains_key(
            seq![child_path_spec(dir, name, kind)],
        ) && has_entry(applied(rename_effect(m, true, dir, name, new_name, kind)), dir, new_name, kind)
            && is_bucket(
            applied(rename_effect(m, true, dir, name, new_name, kind)),
            seq![child_path_spec(dir, new_name, kind)],
        ),
{
    lemma_paths(dir, name, kind);
    lemma_paths(dir, new_name, kind);
    let child = child_path_spec(dir, name, kind);
    let new_child = child_path_spec(dir, new_name, kind);
    lemma_cleared_spares(m.remove(entry_path(dir, name, kind)), dir, name, kind);
    if name != new_name {
        if index_key_spec(name, kind) == index_key_spec(new_name, kind) {
            lemma_index_key_injective(name, kind, new_name, kind);
        }
        if child == new_child {
            lemma_child_path_injective(dir, name, kind, new_name, kind);
        }
        let before = m.remove(entry_path(dir, name, kind)).insert(
            entry_path(dir, new_name, kind),
            Some(Seq::<u8>::empty()),
        );
        lemma_cleared_spares(before, dir, name, kind);
        assert(before.contains_key(entry_path(dir, new_name, kind)));
        assert(entry_path(dir, new_name, kind)[0] == dir);
    }
}

/// Every leaf sits in a bucket at the root of the store, as in every store
/// that was written through transactions.
pub open spec fn rooted(m: Entries) -> bool {
    forall|q: Path| #[trigger] m.contains_key(q) ==> q.len() >= 1 && is_bucket(m, seq![q[0]])
}

/// `q` lies at the bucket of path `child` or at a bucket below it.
pub open spec fn at_or_below(q: Path, child: Seq<u8>) -> bool {
    q.len() >= 1 && (q[0] == child || below(child).is_prefix_of(q[0]))
}

/// Clearing a directory away leaves nothing at it or below it.
proof fn lemma_cleared_dir_is_gone(m: Entries, before: Entries, child: Seq<u8>)
    requires
        rooted(m),
        marked(child),
        forall|q: Path| #[trigger] before.contains_key(q) && q.len() != 3 ==> m.contains_key(q),
        forall|q: Path| q.len() == 1 && m.contains_key(q) ==> #[trigger] before.contains_key(q),
        forall|q: Path| #[trigger] before.contains_key(q) ==> q.len() >= 1 && (q.len() == 1
            ==> before[q] == m[q]),
        forall|q: Path|
            q.len() == 3 && #[trigger] before.contains_key(q) ==> before.contains_key(
                seq![q[0]],
            ) && before[seq![q[0]]] is None,
    ensures
        forall|q: Path|
            at_or_below(q, child) ==> !(#[trigger] cleared(before, child, Kind::Dir).contains_key(
                q,
            )),
{
    lemma_below_misses_own(child);
    let mid = without_subtree(before, seq![child]);
    assert forall|q: Path| at_or_below(q, child) implies !(#[trigger] cleared(
        before,
        child,
        Kind::Dir,
    ).contains_key(q)) by {
        if q[0] == child {
            assert(q.subrange(0, 1) =~= seq![child]);
            assert(seq![child].is_prefix_of(q));
        } else if mid.contains_key(q) {
            let top = seq![q[0]];
            assert(top.len() == 1 && top[0] == q[0]);
            assert(before.contains_key(q));
            if q.len() != 3 {
                assert(m.contains_key(q));
                assert(is_bucket(m, top));
                assert(m.contains_key(top));
                assert(before.contains_key(top));
                assert(before[top] == m[top]);
            }
            assert(before.contains_key(top) && before[top] is None);
            if seq![child].is_prefix_of(top) {
                assert(top.subrange(0, 1)[0] == seq![child][0]);
            }
            assert(is_bucket(mid, top));
        }
    }
}

/// A deleted directory leaves no bucket behind: after a directory was
/// deleted, the store holds nothing at its path and nothing at a path
/// below it.
pub proof fn lemma_deleted_dir_takes_all(m: Entries, dir: Seq<u8>, name: Seq<u8>)
    requires
        rooted(m),
        delete_effect(m, true, dir, name, Kind::Dir) is Applied,
    ensures
        forall|q: Path|
            at_or_below(q, child_path_spec(dir, name, Kind::Dir)) ==> !(#[trigger] applied(
                delete_effect(m, true, dir, name, Kind::Dir),
            ).contains_key(q)),
{
    let kind = Kind::Dir;
    let child = child_path_spec(dir, name, kind);
    lemma_paths(dir, name, kind);
    lemma_child_path_marked(dir, name, kind);
    let before = m.remove(entry_path(dir, name, kind));
    assert forall|q: Path| q.len() == 3 && #[trigger] before.contains_key(q) implies before.contains_key(
        seq![q[0]],
    ) && before[seq![q[0]]] is None by {
        assert(m.contains_key(q));
        assert(seq![q[0]].len() == 1);
    }
    lemma_cleared_dir_is_gone(m, before, child);
}

/// A renamed directory leaves no bucket behind under its old name: after
/// a directory was renamed to another name, the store holds nothing at
/// its old path, and below its old path at most the directory itself
/// under its new name.
pub proof fn lemma_renamed_dir_takes_all(
    m: Entries,
    dir: Seq<u8>,
    old_name: Seq<u8>,
    new_name: Seq<u8>,
)
    requires
        rooted(m),
        old_name != new_name,
        rename_effect(m, true, dir, old_name, new_name, Kind::Dir) is Applied,
    ensures
        forall|q: Path|
            at_or_below(q, child_path_spec(dir, old_name, Kind::Dir)) && q[0] != child_path_spec(
                dir,
                new_name,
                Kind::Dir,
            ) ==> !(#[trigger] applied(
                rename_effect(m, true, dir, old_name, new_name, Kind::Dir),
            ).contains_key(q)),
{
    let kind = Kind::Dir;
    let child = child_path_spec(dir, old_name, kind);
    let new_child = child_path_spec(dir, new_name, kind);
    lemma_paths(dir, old_name, kind);
    lemma_paths(dir, new_name, kind);
    lemma_child_path_marked(dir, old_name, kind);
    let before = m.remove(entry_path(dir, old_name, kind)).insert(
        entry_path(dir, new_name, kind),
        Some(Seq::<u8>::empty()),
    );
    assert forall|q: Path| q.len() == 3 && #[trigger] before.contains_key(q) implies before.contains_key(
        seq![q[0]],
    ) && before[seq![q[0]]] is None by {
        assert(seq![q[0]].len() == 1);
        if q == entry_path(dir, new_name, kind) {
            assert(q[0] == dir);
        } else {
            assert(m.contains_key(q));
        }
    }
    lemma_cleared_dir_is_gone(m, before, child);
    assert(moved_out(m, dir, old_name, new_name, kind) == cleared(before, child, kind));
    assert(seq![new_child, data_key()][0] == new_child);
}

/// A directory that is made again takes children again: after a
/// directory was deleted and one of the same name was created, a child of
/// any name and kind can be created in it, and a file so created is
/// empty.
pub proof fn lemma_dir_made_again_takes_children(
    m: Entries,
    dir: Seq<u8>,
    name: Seq<u8>,
    child_name: Seq<u8>,
    child_kind: Kind,
)
    requires
        rooted(m),
        marked(dir),
        delete_effect(m, true, dir, name, Kind::Dir) is Applied,
    ensures
        create_effect(
            applied(delete_effect(m, true, dir, name, Kind::Dir)),
            true,
            dir,
            name,
            Kind::Dir,
        ) is Applied,
        create_effect(
            applied(
                create_effect(
                    applied(delete_effect(m, true, dir, name, Kind::Dir)),
                    true,
                    dir,
                    name,
                    Kind::Dir,
                ),
            ),
            true,
            child_path_spec(dir, name, Kind::Dir),
            child_name,
            child_kind,
        ) is Applied,
        child_kind == Kind::File ==> file_content(
            applied(
                create_effect(
                    applied(
                        create_effect(
                            applied(delete_effect(m, true, dir, name, Kind::Dir)),
                            true,
                            dir,
                            name,
                            Kind::Dir,
                        ),
                    ),
                    true,
                    child_path_spec(dir, name, Kind::Dir),
                    child_name,
                    child_kind,
                ),
            ),
            child_path_spec(child_path_spec(dir, name, Kind::Dir), child_name, child_kind),
        ) == Some(Seq::<u8>::empty()),
{
    let kind = Kind::Dir;
    let child = child_path_spec(dir, name, kind);
    let grand = child_path_spec(child, child_name, child_kind);
    lemma_delete_then_create(m, dir, name, kind);
    lemma_deleted_dir_takes_all(m, dir, name);
    lemma_paths(dir, name, kind);
    lemma_paths(child, child_name, child_kind);
    lemma_child_path_marked(dir, name, kind);
    let m2 = applied(delete_effect(m, true, dir, name, kind));
    let m3 = applied(create_effect(m2, true, dir, name, kind));
    assert(grand =~= below(child) + child_name + suffix(child_kind));
    assert(below(child).is_prefix_of(grand)) by {
        assert(grand.subrange(0, below(child).len() as int) =~= below(child));
    }
    assert(at_or_below(entry_path(child, child_name, child_kind), child));
    assert(at_or_below(seq![grand], child));
    assert(at_or_below(content_path(grand), child));
    assert(content_path(grand) == index_path(grand));
    assert(!m2.contains_key(entry_path(child, child_name, child_kind)));
    assert(!m2.contains_key(seq![grand]));
    assert(!m2.contains_key(content_path(grand)));
    assert(entry_path(dir, name, kind)[0] == dir);
    let m4 = applied(create_effect(m3, true, child, child_name, child_kind));
    if child_kind == Kind::File {
        lemma_create_is_fresh(m3, child, child_name, child_kind);
    }
}

/// Creating decides by the index alone, where the store does not fail:
/// in a directory that is there, a name is refused as existing exactly
/// when the index lists it; otherwise the child is created, is found
/// under its name, is empty, and its key is the one key that the index
/// gains.
pub proof fn lemma_create_in_general(m: Entries, dir: Seq<u8>, name: Seq<u8>, kind: Kind)
    requires
        dir_ready(m, dir),
        !(create_effect(m, true, dir, name, kind) is StoreFailure),
    ensures
        create_effect(m, true, dir, name, kind) is AlreadyExists <==> has_entry(
            m,
            dir,
            name,
            kind,
        ),
        !has_entry(m, dir, name, kind) ==> {
            &&& create_effect(m, true, dir, name, kind) is Applied
            &&& find_spec(applied(create_effect(m, true, dir, name, kind)), dir, name, kind)
                == Lookup::Found(child_path_spec(dir, name, kind))
            &&& kind == Kind::File ==> file_content(
                applied(create_effect(m, true, dir, name, kind)),
                child_path_spec(dir, name, kind),
            ) == Some(Seq::<u8>::empty())
            &&& index_keys(applied(create_effect(m, true, dir, name, kind)), dir) == index_keys(
                m,
                dir,
            ).insert(index_key_spec(name, kind))
            &&& !index_keys(m, dir).contains(index_key_spec(name, kind))
        },
{
    lemma_paths(dir, name, kind);
    if !has_entry(m, dir, name, kind) {
        lemma_create_twice(m, dir, name, kind, true);
        if kind == Kind::File {
            lemma_create_is_fresh(m, dir, name, kind);
        }
        let m2 = applied(create_effect(m, true, dir, name, kind));
        assert forall|k: Seq<u8>|
            index_keys(m2, dir).contains(k) <==> index_keys(m, dir).insert(
                index_key_spec(name, kind),
            ).contains(k) by {
            let p = index_path(dir).push(k);
            assert(p.len() == 3);
        }
        assert(index_keys(m2, dir) =~= index_keys(m, dir).insert(index_key_spec(name, kind)));
        assert(index_path(dir).push(index_key_spec(name, kind)) == entry_path(dir, name, kind));
    }
}

/// Renaming a file in general, where the store does not fail: in a
/// directory that lists a file under the old name and none under the new
/// one, the rename goes through; the old name is then not found, the new
/// one is and has the old content, the index has the new key in place of
/// the old one, and every other file that the directory lists keeps its
/// entry and its content.
pub proof fn lemma_rename_file_in_general(
    m: Entries,
    dir: Seq<u8>,
    old_name: Seq<u8>,
    new_name: Seq<u8>,
    other: Seq<u8>,
)
    requires
        old_name != new_name,
        dir_ready(m, dir),
        has_entry(m, dir, old_name, Kind::File),
        !has_entry(m, dir, new_name, Kind::File),
        !(rename_effect(m, true, dir, old_name, new_name, Kind::File) is StoreFailure),
        !(rename_effect(m, true, dir, old_name, new_name, Kind::File) is Unclassified),
    ensures
        rename_effect(m, true, dir, old_name, new_name, Kind::File) is Applied,
        find_spec(
            applied(rename_effect(m, true, dir, old_name, new_name, Kind::File)),
            dir,
            old_name,
            Kind::File,
        ) == Lookup::NotFound,
        find_spec(
            applied(rename_effect(m, true, dir, old_name, new_name, Kind::File)),
            dir,
            new_name,
            Kind::File,
        ) == Lookup::Found(child_path_spec(dir, new_name, Kind::File)),
        file_content(
            applied(rename_effect(m, true, dir, old_name, new_name, Kind::File)),
            child_path_spec(dir, new_name, Kind::File),
        ) == file_content(m, child_path_spec(dir, old_name, Kind::File)),
        index_keys(applied(rename_effect(m, true, dir, old_name, new_name, Kind::File)), dir)
            == index_keys(m, dir).remove(index_key_spec(old_name, Kind::File)).insert(
            index_key_spec(new_name, Kind::File),
        ),
        other != old_name && other != new_name ==> {
            &&& has_entry(
                applied(rename_effect(m, true, dir, old_name, new_name, Kind::File)),
                dir,
                other,
                Kind::File,
            ) == has_entry(m, dir, other, Kind::File)
            &&& file_content(
                applied(rename_effect(m, true, dir, old_name, new_name, Kind::File)),
                child_path_spec(dir, other, Kind::File),
            ) == file_content(m, child_path_spec(dir, other, Kind::File))
        },
{
    let kind = Kind::File;
    lemma_rename_moves_file(m, dir, old_name, new_name);
    lemma_index_follows(m, dir, old_name, new_name, kind);
    lemma_paths(dir, old_name, kind);
    lemma_paths(dir, new_name, kind);
    lemma_paths(dir, other, kind);
    let old_child = child_path_spec(dir, old_name, kind);
    let new_child = child_path_spec(dir, new_name, kind);
    let third = child_path_spec(dir, other, kind);
    if other != old_name && other != new_name {
        if index_key_spec(other, kind) == index_key_spec(old_name, kind) {
            lemma_index_key_injective(other, kind, old_name, kind);
        }
        if index_key_spec(other, kind) == index_key_spec(new_name, kind) {
            lemma_index_key_injective(other, kind, new_name, kind);
        }
        if third == old_child {
            lemma_child_path_injective(dir, other, kind, old_name, kind);
        }
        if third == new_child {
            lemma_child_path_injective(dir, other, kind, new_name, kind);
        }
        let before = m.remove(entry_path(dir, old_name, kind)).insert(
            entry_path(dir, new_name, kind),
            Some(Seq::<u8>::empty()),
        );
        assert(seq![third][0] == third && content_path(third)[0] == third);
        if seq![old_child].is_prefix_of(seq![third]) {
            assert(seq![third].subrange(0, 1)[0] == seq![old_child][0]);
        }
        if seq![old_child].is_prefix_of(content_path(third)) {
            assert(content_path(third).subrange(0, 1)[0] == seq![old_child][0]);
        }
        if seq![old_child].is_prefix_of(entry_path(dir, other, kind)) {
            assert(entry_path(dir, other, kind).subrange(0, 1)[0] == seq![old_child][0]);
        }
        assert(content_path(third).len() == 2 && content_path(new_child).len() == 2);
        assert(content_path(new_child)[0] == new_child);
    }
}

/// `name` is the name that some key of the directory's index records.
pub open spec fn is_child_name(m: Entries, dir: Seq<u8>, name: Seq<u8>) -> bool {
    exists|k: Seq<u8>|
        index_keys(m, dir).contains(k) && decode_spec(k) is Some && decode_spec(k)->Some_0.0
            == name
}

/// A listing names each key of the index once: where `names` lists all
/// the children of a directory, there are as many names as the index has
/// keys, every key's name is among them, and every name is the name of a
/// key.
pub proof fn lemma_listing_names_each_key_once(m: Entries, dir: Seq<u8>, names: Seq<Seq<u8>>)
    requires
        is_listing(m, dir, names),
    ensures
        index_keys(m, dir).finite(),
        names.len() == index_keys(m, dir).len(),
        forall|k: Seq<u8>| #[trigger]
            index_keys(m, dir).contains(k) ==> decode_spec(k) is Some && names.contains(
                decode_spec(k)->Some_0.0,
            ),
        forall|i: int| 0 <= i < names.len() ==> is_child_name(m, dir, #[trigger] names[i]),
{
    let keys = choose|keys: Seq<Seq<u8>>|
        names_of_keys(m, dir, keys, names) && forall|k: Seq<u8>|
            m.contains_key(#[trigger] index_path(dir).push(k)) ==> keys.contains(k);
    assert forall|k: Seq<u8>| keys.to_set().contains(k) <==> index_keys(m, dir).contains(k) by {
        if keys.contains(k) {
            let i = choose|i: int| 0 <= i < keys.len() && keys[i] == k;
            assert(m.contains_key(index_path(dir).push(keys[i])));
        }
        if index_keys(m, dir).contains(k) {
            assert(m.contains_key(index_path(dir).push(k)));
        }
    }
    assert(keys.to_set() =~= index_keys(m, dir));
    vstd::seq_lib::seq_to_set_is_finite(keys);
    keys.unique_seq_to_set();
    assert forall|k: Seq<u8>| #[trigger] index_keys(m, dir).contains(k) implies decode_spec(k)
        is Some && names.contains(decode_spec(k)->Some_0.0) by {
        assert(m.contains_key(index_path(dir).push(k)));
        let i = choose|i: int| 0 <= i < keys.len() && keys[i] == k;
        assert(decode_spec(keys[i]) is Some);
        assert(names[i] == decode_spec(k)->Some_0.0);
    }
    assert forall|i: int| 0 <= i < names.len() implies is_child_name(
        m,
        dir,
        #[trigger] names[i],
    ) by {
        assert(m.contains_key(index_path(dir).push(keys[i])));
        assert(decode_spec(keys[i]) is Some);
        assert(index_keys(m, dir).contains(keys[i]));
    }
}

/// The listing follows the operations: a listing of all the children has
/// one name more after a child was created, one less after a child was
/// deleted, and as many after a child was renamed; and the name that was
/// created, or renamed to, is among them.
pub proof fn lemma_listing_follows(
    m: Entries,
    dir: Seq<u8>,
    name: Seq<u8>,
    new_name: Seq<u8>,
    kind: Kind,
    before: Seq<Seq<u8>>,
    after: Seq<Seq<u8>>,
)
    requires
        kind == Kind::File || marked(dir),
        is_listing(m, dir, before),
    ensures
        create_effect(m, true, dir, name, kind) is Applied && is_listing(
            applied(create_effect(m, true, dir, name, kind)),
            dir,
            after,
        ) ==> after.len() == before.len() + 1 && after.contains(name),
        delete_effect(m, true, dir, name, kind) is Applied && is_listing(
            applied(delete_effect(m, true, dir, name, kind)),
            dir,
            after,
        ) ==> after.len() + 1 == before.len(),
        name != new_name && rename_effect(m, true, dir, name, new_name, kind) is Applied
            && is_listing(applied(rename_effect(m, true, dir, name, new_name, kind)), dir, after)
            ==> after.len() == before.len() && after.contains(new_name),
{
    broadcast use vstd::set::group_set_axioms;

    lemma_paths(dir, name, kind);
    lemma_paths(dir, new_name, kind);
    lemma_index_follows(m, dir, name, new_name, kind);
    lemma_listing_names_each_key_once(m, dir, before);
    lemma_decode_inverts_encode(name, kind);
    lemma_decode_inverts_encode(new_name, kind);
    let key = index_key_spec(name, kind);
    let new_key = index_key_spec(new_name, kind);
    assert(index_path(dir).push(key) == entry_path(dir, name, kind));
    assert(index_path(dir).push(new_key) == entry_path(dir, new_name, kind));
    if create_effect(m, true, dir, name, kind) is Applied && is_listing(
        applied(create_effect(m, true, dir, name, kind)),
        dir,
        after,
    ) {
        let m2 = applied(create_effect(m, true, dir, name, kind));
        lemma_listing_names_each_key_once(m2, dir, after);
        assert(!index_keys(m, dir).contains(key));
        assert(index_keys(m2, dir).contains(key));
    }
    if delete_effect(m, true, dir, name, kind) is Applied && is_listing(
        applied(delete_effect(m, true, dir, name, kind)),
        dir,
        after,
    ) {
        let m2 = applied(delete_effect(m, true, dir, name, kind));
        lemma_listing_names_each_key_once(m2, dir, after);
        assert(index_keys(m, dir).contains(key));
    }
    if name != new_name && rename_effect(m, true, dir, name, new_name, kind) is Applied
        && is_listing(applied(rename_effect(m, true, dir, name, new_name, kind)), dir, after) {
        let m2 = applied(rename_effect(m, true, dir, name, new_name, kind));
        lemma_listing_names_each_key_once(m2, dir, after);
        if key == new_key {
            lemma_index_key_injective(name, kind, new_name, kind);
        }
        assert(index_keys(m, dir).contains(key));
        assert(!index_keys(m, dir).contains(new_key));
        assert(!index_keys(m, dir).remove(key).contains(new_key));
        assert(index_keys(m2, dir).contains(new_key));
    }
}

/// Clearing a child away brings nothing into the store.
proof fn lemma_cleared_within(m: Entries, child: Seq<u8>, kind: Kind)
    ensures
        forall|q: Path| #[trigger]
            cleared(m, child, kind).contains_key(q) ==> m.contains_key(q) && cleared(
                m,
                child,
                kind,
            )[q] == m[q],
{
}

/// The operations keep every index clean: where the index of a directory
/// holds only entries of this file system, it still does after a child
/// with a name in UTF-8 was created, deleted or renamed in any directory,
/// after a file was written to or cleared, and after the root was made
/// sure of. A listing of that directory then goes through.
pub proof fn lemma_index_stays_clean(
    m: Entries,
    listed: Seq<u8>,
    dir: Seq<u8>,
    name: Seq<u8>,
    new_name: Seq<u8>,
    kind: Kind,
    offset: nat,
    bytes: Seq<u8>,
)
    requires
        index_clean(m, listed),
        vstd::utf8::valid_utf8(name),
        vstd::utf8::valid_utf8(new_name),
    ensures
        create_effect(m, true, dir, name, kind) is Applied ==> index_clean(
            applied(create_effect(m, true, dir, name, kind)),
            listed,
        ),
        delete_effect(m, true, dir, name, kind) is Applied ==> index_clean(
            applied(delete_effect(m, true, dir, name, kind)),
            listed,
        ),
        rename_effect(m, true, dir, name, new_name, kind) is Applied ==> index_clean(
            applied(rename_effect(m, true, dir, name, new_name, kind)),
            listed,
        ),
        write_effect(m, true, dir, offset, bytes) is Applied ==> index_clean(
            applied(write_effect(m, true, dir, offset, bytes)),
            listed,
        ),
        clear_effect(m, true, dir) is Applied ==> index_clean(
            applied(clear_effect(m, true, dir)),
            listed,
        ),
        bootstrap_effect(m, true) is Applied ==> index_clean(
            applied(bootstrap_effect(m, true)),
            listed,
        ),
{
    lemma_paths(dir, name, kind);
    lemma_paths(dir, new_name, kind);
    lemma_paths(listed, name, kind);
    lemma_decode_inverts_encode(name, kind);
    lemma_decode_inverts_encode(new_name, kind);
    let child = child_path_spec(dir, name, kind);
    let new_child = child_path_spec(dir, new_name, kind);
    if create_effect(m, true, dir, name, kind) is Applied {
        let m2 = applied(create_effect(m, true, dir, name, kind));
        assert forall|k: Seq<u8>| #[trigger]
            m2.contains_key(index_path(listed).push(k)) implies is_value(
            m2,
            index_path(listed).push(k),
        ) && decode_spec(k) is Some && vstd::utf8::valid_utf8(decode_spec(k)->Some_0.0) by {
            let p = index_path(listed).push(k);
            assert(p.len() == 3 && p[2] == k);
            if p != entry_path(dir, name, kind) {
                assert(m.contains_key(p));
            }
        }
    }
    if delete_effect(m, true, dir, name, kind) is Applied {
        let m2 = applied(delete_effect(m, true, dir, name, kind));
        lemma_cleared_within(m.remove(entry_path(dir, name, kind)), child, kind);
        assert forall|k: Seq<u8>| #[trigger]
            m2.contains_key(index_path(listed).push(k)) implies is_value(
            m2,
            index_path(listed).push(k),
        ) && decode_spec(k) is Some && vstd::utf8::valid_utf8(decode_spec(k)->Some_0.0) by {
            let p = index_path(listed).push(k);
            assert(m.remove(entry_path(dir, name, kind)).contains_key(p));
            assert(m.contains_key(p));
        }
    }
    if rename_effect(m, true, dir, name, new_name, kind) is Applied && name != new_name {
        let m2 = applied(rename_effect(m, true, dir, name, new_name, kind));
        let before = m.remove(entry_path(dir, name, kind)).insert(
            entry_path(dir, new_name, kind),
            Some(Seq::<u8>::empty()),
        );
        lemma_cleared_within(before, child, kind);
        assert forall|k: Seq<u8>| #[trigger]
            m2.contains_key(index_path(listed).push(k)) implies is_value(
            m2,
            index_path(listed).push(k),
        ) && decode_spec(k) is Some && vstd::utf8::valid_utf8(decode_spec(k)->Some_0.0) by {
            let p = index_path(listed).push(k);
            assert(p.len() == 3 && p[2] == k);
            assert(moved_out(m, dir, name, new_name, kind).contains_key(p));
            assert(before.contains_key(p));
            if p != entry_path(dir, new_name, kind) {
                assert(m.contains_key(p));
            }
        }
    }
    if write_effect(m, true, dir, offset, bytes) is Applied {
        let m2 = applied(write_effect(m, true, dir, offset, bytes));
        assert forall|k: Seq<u8>| #[trigger]
            m2.contains_key(index_path(listed).push(k)) implies is_value(
            m2,
            index_path(listed).push(k),
        ) && decode_spec(k) is Some && vstd::utf8::valid_utf8(decode_spec(k)->Some_0.0) by {
            let p = index_path(listed).push(k);
            assert(p.len() == 3 && content_path(dir).len() == 2);
            assert(m.contains_key(p));
        }
    }
    if clear_effect(m, true, dir) is Applied {
        let m2 = applied(clear_effect(m, true, dir));
        assert forall|k: Seq<u8>| #[trigger]
            m2.contains_key(index_path(listed).push(k)) implies is_value(
            m2,
            index_path(listed).push(k),
        ) && decode_spec(k) is Some && vstd::utf8::valid_utf8(decode_spec(k)->Some_0.0) by {
            let p = index_path(listed).push(k);
            assert(p.len() == 3 && content_path(dir).len() == 2);
            assert(m.contains_key(p));
        }
    }
    if bootstrap_effect(m, true) is Applied {
        let m2 = applied(bootstrap_effect(m, true));
        assert forall|k: Seq<u8>| #[trigger]
            m2.contains_key(index_path(listed).push(k)) implies is_value(
            m2,
            index_path(listed).push(k),
        ) && decode_spec(k) is Some && vstd::utf8::valid_utf8(decode_spec(k)->Some_0.0) by {
            let p = index_path(listed).push(k);
            assert(p.len() == 3 && seq![root_path()].len() == 1 && index_path(root_path()).len()
                == 2);
            assert(m.contains_key(p));
        }
    }
}

/// A directory that was just created has a clean index, and so has the
/// root in a store that held nothing.
pub proof fn lemma_new_index_is_clean(m: Entries, dir: Seq<u8>)
    requires
        dir_empty(m, dir),
    ensures
        index_clean(m, dir),
{
}

} // verus!
