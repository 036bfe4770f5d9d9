//! How names become keys.
//!
//! A directory keeps one index key per child: the child's name followed by
//! a two-byte mark of its kind. The child's own bucket lives at the root of
//! the store under a path built from the parent's path, a slash, the name
//! and the same mark. Everything here works on bytes.
use vstd::prelude::*;

verus! {

/// What a directory entry stands for.
#[derive(Clone, Copy, Debug, PartialEq, Eq, Structural)]
pub enum Kind {
    File,
    Dir,
}

/// The mark that closes a key: `-f` for a file, `-d` for a directory.
pub open spec fn suffix(kind: Kind) -> Seq<u8> {
    match kind {
        Kind::File => seq![45u8, 102u8],
        Kind::Dir => seq![45u8, 100u8],
    }
}

/// The key under which a directory's index records a child.
pub open spec fn index_key_spec(name: Seq<u8>, kind: Kind) -> Seq<u8> {
    name + suffix(kind)
}

/// A path without its closing mark (without its last two bytes).
pub open spec fn stem(path: Seq<u8>) -> Seq<u8> {
    if path.len() >= 2 {
        path.subrange(0, path.len() - 2)
    } else {
        Seq::empty()
    }
}

/// The path of the bucket that backs a child of the directory at `parent`.
pub open spec fn child_path_spec(parent: Seq<u8>, name: Seq<u8>, kind: Kind) -> Seq<u8> {
    stem(parent) + seq![47u8] + name + suffix(kind)
}

/// The name and kind that an index key records, if it ends in a mark.
pub open spec fn decode_spec(raw: Seq<u8>) -> Option<(Seq<u8>, Kind)> {
    if raw.len() >= 2 && raw[raw.len() - 2] == 45u8 && raw[raw.len() - 1] == 102u8 {
        Some((raw.subrange(0, raw.len() - 2), Kind::File))
    } else if raw.len() >= 2 && raw[raw.len() - 2] == 45u8 && raw[raw.len() - 1] == 100u8 {
        Some((raw.subrange(0, raw.len() - 2), Kind::Dir))
    } else {
        None
    }
}

/// Appends `bytes` to `out`.
pub fn append(out: &mut Vec<u8>, bytes: &[u8])
    ensures
        final(out)@ == old(out)@ + bytes@,
{
    let mut i: usize = 0;
    while i < bytes.len()
        invariant
            i <= bytes.len(),
            out@ == old(out)@ + bytes@.subrange(0, i as int),
        decreases bytes.len() - i,
    {
        out.push(bytes[i]);
        i += 1;
        assert(out@ =~= old(out)@ + bytes@.subrange(0, i as int));
    }
    assert(bytes@.subrange(0, i as int) =~= bytes@);
}

/// Appends the mark of `kind` to `out`.
fn push_suffix(out: &mut Vec<u8>, kind: Kind)
    ensures
        final(out)@ == old(out)@ + suffix(kind),
{
    out.push(45u8);
    match kind {
        Kind::File => out.push(102u8),
        Kind::Dir => out.push(100u8),
    }
    assert(out@ =~= old(out)@ + suffix(kind));
}

/// Builds the index key of a child.
pub fn index_key(name: &[u8], kind: Kind) -> (key: Vec<u8>)
    ensures
        key@ == index_key_spec(name@, kind),
{
    let mut key: Vec<u8> = Vec::new();
    append(&mut key, name);
    push_suffix(&mut key, kind);
    assert(key@ =~= index_key_spec(name@, kind));
    key
}

/// Builds the path of a child's bucket from the path of its directory.
pub fn child_path(parent: &[u8], name: &[u8], kind: Kind) -> (path: Vec<u8>)
    ensures
        path@ == child_path_spec(parent@, name@, kind),
{
    let mut path: Vec<u8> = Vec::new();
    let mut i: usize = 0;
    let keep: usize = if parent.len() >= 2 {
        parent.len() - 2
    } else {
        0
    };
    while i < keep
        invariant
            i <= keep <= parent.len(),
            path@ == parent@.subrange(0, i as int),
        decreases keep - i,
    {
        path.push(parent[i]);
        i += 1;
        assert(path@ =~= parent@.subrange(0, i as int));
    }
    assert(path@ =~= stem(parent@));
    path.push(47u8);
    append(&mut path, name);
    push_suffix(&mut path, kind);
    assert(path@ =~= child_path_spec(parent@, name@, kind));
    path
}

/// The view of a decoded key.
pub open spec fn decoded_view(d: Option<(Vec<u8>, Kind)>) -> Option<(Seq<u8>, Kind)> {
    match d {
        Some((name, kind)) => Some((name@, kind)),
        None => None,
    }
}

/// Reads an index key back into the child's name and kind. A key that does
/// not end in one of the two marks gives `None`.
pub fn decode_index_key(raw: &[u8]) -> (d: Option<(Vec<u8>, Kind)>)
    ensures
        decoded_view(d) == decode_spec(raw@),
{
    let n: usize = raw.len();
    if n < 2 || raw[n - 2] != 45u8 {
        return None;
    }
    let kind = if raw[n - 1] == 102u8 {
        Kind::File
    } else if raw[n - 1] == 100u8 {
        Kind::Dir
    } else {
        return None;
    };
    let mut name: Vec<u8> = Vec::new();
    let mut i: usize = 0;
    while i < n - 2
        invariant
            2 <= n == raw.len(),
            i <= n - 2,
            name@ == raw@.subrange(0, i as int),
        decreases n - 2 - i,
    {
        name.push(raw[i]);
        i += 1;
        assert(name@ =~= raw@.subrange(0, i as int));
    }
    Some((name, kind))
}

/// Decoding undoes encoding: the key built for a name and a kind reads back
/// as that name and that kind.
pub proof fn lemma_decode_inverts_encode(name: Seq<u8>, kind: Kind)
    ensures
        decode_spec(index_key_spec(name, kind)) == Some((name, kind)),
{
    let raw = index_key_spec(name, kind);
    assert(raw.len() == name.len() + 2);
    assert(raw[raw.len() - 2] == 45u8);
    assert(raw.subrange(0, raw.len() - 2) =~= name);
}

/// Two index keys are equal only if name and kind are.
pub proof fn lemma_index_key_injective(n1: Seq<u8>, k1: Kind, n2: Seq<u8>, k2: Kind)
    requires
        index_key_spec(n1, k1) == index_key_spec(n2, k2),
    ensures
        n1 == n2,
        k1 == k2,
{
    lemma_decode_inverts_encode(n1, k1);
    lemma_decode_inverts_encode(n2, k2);
}

/// Under one parent, two children have the same bucket path only if name
/// and kind are the same: no two entries of a directory share a bucket.
pub proof fn lemma_child_path_injective(
    parent: Seq<u8>,
    n1: Seq<u8>,
    k1: Kind,
    n2: Seq<u8>,
    k2: Kind,
)
    requires
        child_path_spec(parent, n1, k1) == child_path_spec(parent, n2, k2),
    ensures
        n1 == n2,
        k1 == k2,
{
    let head = stem(parent) + seq![47u8];
    let a = child_path_spec(parent, n1, k1);
    let b = child_path_spec(parent, n2, k2);
    assert(a =~= head + index_key_spec(n1, k1));
    assert(b =~= head + index_key_spec(n2, k2));
    assert(a.subrange(head.len() as int, a.len() as int) =~= index_key_spec(n1, k1));
    assert(b.subrange(head.len() as int, b.len() as int) =~= index_key_spec(n2, k2));
    lemma_index_key_injective(n1, k1, n2, k2);
}

/// A child's bucket path is longer than its parent's, so never the same.
pub proof fn lemma_child_path_longer(parent: Seq<u8>, name: Seq<u8>, kind: Kind)
    ensures
        child_path_spec(parent, name, kind).len() > parent.len(),
        child_path_spec(parent, name, kind) != parent,
{
}

/// A path that ends in the mark of a file or a directory, as the paths
/// of all children do.
pub open spec fn marked(path: Seq<u8>) -> bool {
    path.len() >= 2 && path[path.len() - 2] == 45u8
}

/// A child's bucket path ends in a mark.
pub proof fn lemma_child_path_marked(parent: Seq<u8>, name: Seq<u8>, kind: Kind)
    ensures
        marked(child_path_spec(parent, name, kind)),
        stem(child_path_spec(parent, name, kind)) == stem(parent) + seq![47u8] + name,
{
    let c = child_path_spec(parent, name, kind);
    assert(c.len() == stem(parent).len() + 1 + name.len() + 2);
    assert(c[c.len() - 2] == suffix(kind)[0]);
    assert(stem(c) =~= stem(parent) + seq![47u8] + name);
}

} // verus!
