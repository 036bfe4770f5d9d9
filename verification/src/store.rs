//! The key-value store as this library sees it.
//!
//! The contents of a transaction are modelled as a map from paths to
//! leaves. A path is the chain of keys that leads from the root of the
//! store to a leaf; a leaf is either a nested bucket (`None`) or a value
//! (`Some(bytes)`). The functions in the second half of this file call the
//! store; their contracts are taken on trust from the store's source.
//! None of them opens or commits a transaction: a transaction is opened
//! by the caller of the library and handed in.
//!
//! The store hands out handles on buckets that all change the one
//! transaction behind them. The verifier would take two such handles for
//! two values, so none of them leaves this file: every function here names
//! its bucket by the bucket's path, walks there from the transaction, does
//! one thing and lets the handle go. A function that changes the contents
//! takes the transaction by `&mut` and says what the contents are
//! afterwards.
use jammdb::Error as StoreError;
use vstd::prelude::*;

verus! {

/// A chain of keys from the root of the store.
pub type Path = Seq<Seq<u8>>;

/// What a transaction holds: for every path, a bucket (`None`) or a value.
pub type Entries = Map<Seq<Seq<u8>>, Option<Seq<u8>>>;

#[verifier::external_type_specification]
#[verifier::external_body]
pub struct ExDb(jammdb::DB);

#[verifier::external_type_specification]
#[verifier::external_body]
pub struct ExTx<'tx>(jammdb::Tx<'tx>);

#[verifier::external_type_specification]
#[verifier::external_body]
pub struct ExStoreError(StoreError);

/// The leaves that a transaction currently sees, its own writes included.
pub uninterp spec fn tx_entries(tx: jammdb::Tx) -> Map<Seq<Seq<u8>>, Option<Seq<u8>>>;

/// Whether a transaction was opened for writing.
pub uninterp spec fn tx_writable(tx: jammdb::Tx) -> bool;

/// Whether a transaction has deleted nothing yet, as is so of one that was
/// just opened. The store takes a
/// deleted key out of its leaf and mends the tree at the commit only, and
/// a cursor that meets an emptied leaf stops there: a cursor is sure to
/// reach every key only while nothing was deleted.
pub uninterp spec fn tx_pristine(tx: jammdb::Tx) -> bool;

/// `p` names a bucket.
pub open spec fn is_bucket(m: Entries, p: Path) -> bool {
    m.contains_key(p) && m[p] is None
}

/// `p` names a value.
pub open spec fn is_value(m: Entries, p: Path) -> bool {
    m.contains_key(p) && m[p] is Some
}

/// The value at `p`, if `p` names one.
pub open spec fn value_at(m: Entries, p: Path) -> Option<Seq<u8>> {
    if is_value(m, p) {
        m[p]
    } else {
        None
    }
}

/// `m` without the leaf at `p` and everything below it.
pub open spec fn without_subtree(m: Entries, p: Path) -> Entries {
    m.remove_keys(Set::new(|q: Path| p.is_prefix_of(q)))
}

/// `b` is a bucket at the root, and `n` a bucket inside it.
pub open spec fn nested_ready(m: Entries, b: Seq<u8>, n: Seq<u8>) -> bool {
    is_bucket(m, seq![b]) && is_bucket(m, seq![b, n])
}

/// The view of an optional byte string.
pub open spec fn bytes_view(v: Option<Vec<u8>>) -> Option<Seq<u8>> {
    match v {
        Some(b) => Some(b@),
        None => None,
    }
}

/// `a` comes before `b` in the order of the store's keys: byte by byte,
/// a shorter key before its extensions.
pub open spec fn bytes_before(a: Seq<u8>, b: Seq<u8>) -> bool {
    exists|n: int|
        0 <= n <= a.len() && n < b.len() && a.subrange(0, n) == b.subrange(0, n) && (n < a.len()
            ==> a[n] < b[n])
}

/// `items` lists keys directly inside the bucket at `p`, each once and in
/// the order of the keys, and tells for each whether it holds a value.
pub open spec fn lists_bucket(m: Entries, p: Path, items: Seq<(Vec<u8>, bool)>) -> bool {
    &&& forall|i: int, j: int| 0 <= i < j < items.len() ==> items[i].0@ != items[j].0@
    &&& forall|i: int, j: int|
        0 <= i < j < items.len() ==> bytes_before(items[i].0@, items[j].0@)
    &&& forall|i: int|
        0 <= i < items.len() ==> m.contains_key(#[trigger] p.push(items[i].0@)) && (items[i].1
            <==> is_value(m, p.push(items[i].0@)))
}

/// `items` leaves out no key of the bucket at `p`.
pub open spec fn lists_all(m: Entries, p: Path, items: Seq<(Vec<u8>, bool)>) -> bool {
    forall|k: Seq<u8>| #[trigger]
        m.contains_key(p.push(k)) ==> exists|i: int| 0 <= i < items.len() && items[i].0@ == k
}

/// `names` are names of buckets at the root of the store, each once and in
/// the order of the keys.
pub open spec fn names_buckets(m: Entries, names: Seq<Vec<u8>>) -> bool {
    &&& forall|i: int, j: int| 0 <= i < j < names.len() ==> names[i]@ != names[j]@
    &&& forall|i: int, j: int| 0 <= i < j < names.len() ==> bytes_before(names[i]@, names[j]@)
    &&& forall|i: int| 0 <= i < names.len() ==> is_bucket(m, seq![#[trigger] names[i]@])
}

/// `names` leave out no bucket at the root of the store.
pub open spec fn names_all(m: Entries, names: Seq<Vec<u8>>) -> bool {
    forall|k: Seq<u8>| #[trigger]
        is_bucket(m, seq![k]) ==> exists|i: int| 0 <= i < names.len() && names[i]@ == k
}

/// A cursor over a bucket of this transaction reaches every key.
pub open spec fn cursor_whole(tx: jammdb::Tx) -> bool {
    tx_pristine(tx) || !tx_writable(tx)
}

/// Calls `Tx::create_bucket`. Succeeds exactly when the transaction is
/// writable and nothing has the name; the new bucket is then the only
/// change. A failure changes nothing.
#[verifier::external_body]
pub(crate) fn top_create(tx: &mut jammdb::Tx, name: &[u8]) -> (r: Result<(), StoreError>)
    ensures
        r is Ok <==> tx_writable(*old(tx)) && !tx_entries(*old(tx)).contains_key(seq![name@]),
        r is Ok ==> tx_entries(*final(tx)) == tx_entries(*old(tx)).insert(seq![name@], None),
        r is Err ==> tx_entries(*final(tx)) == tx_entries(*old(tx)),
        tx_writable(*final(tx)) == tx_writable(*old(tx)),
        tx_pristine(*final(tx)) == tx_pristine(*old(tx)),
{
    tx.create_bucket(name.to_vec()).map(|_| ())
}

/// Calls `Tx::get_or_create_bucket`. Succeeds exactly when the transaction
/// is writable and the name holds no value; afterwards the name is a
/// bucket, and an existing one keeps what it held.
#[verifier::external_body]
pub(crate) fn top_ensure(tx: &mut jammdb::Tx, name: &[u8]) -> (r: Result<(), StoreError>)
    ensures
        r is Ok <==> tx_writable(*old(tx)) && !is_value(tx_entries(*old(tx)), seq![name@]),
        r is Ok ==> tx_entries(*final(tx)) == tx_entries(*old(tx)).insert(seq![name@], None),
        r is Err ==> tx_entries(*final(tx)) == tx_entries(*old(tx)),
        tx_writable(*final(tx)) == tx_writable(*old(tx)),
        tx_pristine(*final(tx)) == tx_pristine(*old(tx)),
{
    tx.get_or_create_bucket(name.to_vec()).map(|_| ())
}

/// Calls `Tx::delete_bucket`. Succeeds exactly when the transaction is
/// writable and the name is a bucket; the bucket then goes with all that is
/// nested in it. A failure changes nothing.
#[verifier::external_body]
pub(crate) fn top_delete(tx: &mut jammdb::Tx, name: &[u8]) -> (r: Result<(), StoreError>)
    ensures
        r is Ok <==> tx_writable(*old(tx)) && is_bucket(tx_entries(*old(tx)), seq![name@]),
        r is Ok ==> tx_entries(*final(tx)) == without_subtree(
            tx_entries(*old(tx)),
            seq![name@],
        ),
        r is Err ==> tx_entries(*final(tx)) == tx_entries(*old(tx)),
        tx_writable(*final(tx)) == tx_writable(*old(tx)),
        r is Ok ==> !tx_pristine(*final(tx)),
        r is Err ==> tx_pristine(*final(tx)) == tx_pristine(*old(tx)),
{
    tx.delete_bucket(name.to_vec())
}

/// Calls `Tx::get_bucket`, then `Bucket::get_kv`. Succeeds exactly when
/// `bucket` is a bucket, and hands out the value under `key`, or `None`
/// where `key` is absent or a nested bucket.
#[verifier::external_body]
pub(crate) fn value_get(tx: &jammdb::Tx, bucket: &[u8], key: &[u8]) -> (r: Result<
    Option<Vec<u8>>,
    StoreError,
>)
    ensures
        r is Ok <==> is_bucket(tx_entries(*tx), seq![bucket@]),
        r matches Ok(v) ==> bytes_view(v) == value_at(tx_entries(*tx), seq![bucket@, key@]),
{
    Ok(tx.get_bucket(bucket.to_vec())?.get_kv(key).map(|kv| kv.value().to_vec()))
}

/// Calls `Tx::get_bucket`, then `Bucket::put`. Succeeds exactly when
/// `bucket` is a bucket, the transaction is writable and `key` is no nested
/// bucket; the value under `key` is then `value`. A failure changes nothing.
#[verifier::external_body]
pub(crate) fn value_put(
    tx: &mut jammdb::Tx,
    bucket: &[u8],
    key: &[u8],
    value: &[u8],
) -> (r: Result<(), StoreError>)
    ensures
        r is Ok <==> is_bucket(tx_entries(*old(tx)), seq![bucket@]) && tx_writable(*old(tx))
            && !is_bucket(tx_entries(*old(tx)), seq![bucket@, key@]),
        r is Ok ==> tx_entries(*final(tx)) == tx_entries(*old(tx)).insert(
            seq![bucket@, key@],
            Some(value@),
        ),
        r is Err ==> tx_entries(*final(tx)) == tx_entries(*old(tx)),
        tx_writable(*final(tx)) == tx_writable(*old(tx)),
        tx_pristine(*final(tx)) == tx_pristine(*old(tx)),
{
    tx.get_bucket(bucket.to_vec())?.put(key.to_vec(), value.to_vec()).map(|_| ())
}

/// Calls `Tx::get_bucket`, then `Bucket::create_bucket`. Succeeds exactly
/// when `bucket` is a bucket, the transaction is writable and nothing in the
/// bucket has the name. A failure changes nothing.
#[verifier::external_body]
pub(crate) fn nested_create(tx: &mut jammdb::Tx, bucket: &[u8], name: &[u8]) -> (r: Result<
    (),
    StoreError,
>)
    ensures
        r is Ok <==> is_bucket(tx_entries(*old(tx)), seq![bucket@]) && tx_writable(*old(tx))
            && !tx_entries(*old(tx)).contains_key(seq![bucket@, name@]),
        r is Ok ==> tx_entries(*final(tx)) == tx_entries(*old(tx)).insert(
            seq![bucket@, name@],
            None,
        ),
        r is Err ==> tx_entries(*final(tx)) == tx_entries(*old(tx)),
        tx_writable(*final(tx)) == tx_writable(*old(tx)),
        tx_pristine(*final(tx)) == tx_pristine(*old(tx)),
{
    tx.get_bucket(bucket.to_vec())?.create_bucket(name.to_vec()).map(|_| ())
}

/// Calls `Tx::get_bucket`, then `Bucket::get_or_create_bucket`. Succeeds
/// exactly when `bucket` is a bucket, the transaction is writable and the
/// name holds no value; an existing nested bucket keeps what it held.
#[verifier::external_body]
pub(crate) fn nested_ensure(tx: &mut jammdb::Tx, bucket: &[u8], name: &[u8]) -> (r: Result<
    (),
    StoreError,
>)
    ensures
        r is Ok <==> is_bucket(tx_entries(*old(tx)), seq![bucket@]) && tx_writable(*old(tx))
            && !is_value(tx_entries(*old(tx)), seq![bucket@, name@]),
        r is Ok ==> tx_entries(*final(tx)) == tx_entries(*old(tx)).insert(
            seq![bucket@, name@],
            None,
        ),
        r is Err ==> tx_entries(*final(tx)) == tx_entries(*old(tx)),
        tx_writable(*final(tx)) == tx_writable(*old(tx)),
        tx_pristine(*final(tx)) == tx_pristine(*old(tx)),
{
    tx.get_bucket(bucket.to_vec())?.get_or_create_bucket(name.to_vec()).map(|_| ())
}

/// Calls `Tx::get_bucket`, `Bucket::get_bucket` and `Bucket::get_kv`.
/// Succeeds exactly when `bucket` and `nested` inside it are buckets, and
/// hands out the value under `key` in the nested bucket, if there is one.
#[verifier::external_body]
pub(crate) fn entry_get(tx: &jammdb::Tx, bucket: &[u8], nested: &[u8], key: &[u8]) -> (r: Result<
    Option<Vec<u8>>,
    StoreError,
>)
    ensures
        r is Ok <==> nested_ready(tx_entries(*tx), bucket@, nested@),
        r matches Ok(v) ==> bytes_view(v) == value_at(tx_entries(*tx), seq![bucket@, nested@, key@]),
{
    let inner = tx.get_bucket(bucket.to_vec())?.get_bucket(nested.to_vec())?;
    Ok(inner.get_kv(key).map(|kv| kv.value().to_vec()))
}

/// Calls `Tx::get_bucket`, `Bucket::get_bucket` and `Bucket::put`. Succeeds
/// exactly when `bucket` and `nested` inside it are buckets, the
/// transaction is writable and `key` is no bucket in the nested bucket. A
/// failure changes nothing.
#[verifier::external_body]
pub(crate) fn entry_put(
    tx: &mut jammdb::Tx,
    bucket: &[u8],
    nested: &[u8],
    key: &[u8],
    value: &[u8],
) -> (r: Result<(), StoreError>)
    ensures
        r is Ok <==> nested_ready(tx_entries(*old(tx)), bucket@, nested@) && tx_writable(*old(tx))
            && !is_bucket(tx_entries(*old(tx)), seq![bucket@, nested@, key@]),
        r is Ok ==> tx_entries(*final(tx)) == tx_entries(*old(tx)).insert(
            seq![bucket@, nested@, key@],
            Some(value@),
        ),
        r is Err ==> tx_entries(*final(tx)) == tx_entries(*old(tx)),
        tx_writable(*final(tx)) == tx_writable(*old(tx)),
        tx_pristine(*final(tx)) == tx_pristine(*old(tx)),
{
    let inner = tx.get_bucket(bucket.to_vec())?.get_bucket(nested.to_vec())?;
    inner.put(key.to_vec(), value.to_vec()).map(|_| ())
}

/// Calls `Tx::get_bucket`, `Bucket::get_bucket` and `Bucket::delete`.
/// Succeeds exactly when `bucket` and `nested` inside it are buckets, the
/// transaction is writable and `key` holds a value in the nested bucket;
/// that value is then gone. A failure changes nothing.
#[verifier::external_body]
pub(crate) fn entry_delete(
    tx: &mut jammdb::Tx,
    bucket: &[u8],
    nested: &[u8],
    key: &[u8],
) -> (r: Result<(), StoreError>)
    ensures
        r is Ok <==> nested_ready(tx_entries(*old(tx)), bucket@, nested@) && tx_writable(*old(tx))
            && is_value(tx_entries(*old(tx)), seq![bucket@, nested@, key@]),
        r is Ok ==> tx_entries(*final(tx)) == tx_entries(*old(tx)).remove(
            seq![bucket@, nested@, key@],
        ),
        r is Err ==> tx_entries(*final(tx)) == tx_entries(*old(tx)),
        tx_writable(*final(tx)) == tx_writable(*old(tx)),
        r is Ok ==> !tx_pristine(*final(tx)),
        r is Err ==> tx_pristine(*final(tx)) == tx_pristine(*old(tx)),
{
    let inner = tx.get_bucket(bucket.to_vec())?.get_bucket(nested.to_vec())?;
    inner.delete(key).map(|_| ())
}

/// Calls `Tx::get_bucket`, `Bucket::get_bucket` and `Bucket::cursor`.
/// Succeeds exactly when `bucket` and `nested` inside it are buckets, and
/// hands out the keys of the nested bucket that the cursor reaches, each
/// once, in the cursor's order, which is the order of the keys as byte
/// strings, each with the answer of `Data::is_kv`. The cursor is sure to
/// reach every key only in a transaction that has deleted nothing.
#[verifier::external_body]
pub(crate) fn entry_keys(tx: &jammdb::Tx, bucket: &[u8], nested: &[u8]) -> (r: Result<
    Vec<(Vec<u8>, bool)>,
    StoreError,
>)
    ensures
        r is Ok <==> nested_ready(tx_entries(*tx), bucket@, nested@),
        r matches Ok(v) ==> lists_bucket(tx_entries(*tx), seq![bucket@, nested@], v@),
        r matches Ok(v) ==> (cursor_whole(*tx) ==> lists_all(tx_entries(*tx), seq![bucket@, nested@], v@)),
{
    let inner = tx.get_bucket(bucket.to_vec())?.get_bucket(nested.to_vec())?;
    Ok(inner.cursor().map(|d| (d.key().to_vec(), d.is_kv())).collect())
}

/// Calls `Tx::buckets`. Hands out the names of the buckets at the root of
/// the store that the cursor reaches, each once, in the order of the keys;
/// all of them in a transaction that has deleted nothing.
#[verifier::external_body]
pub(crate) fn top_names(tx: &jammdb::Tx) -> (names: Vec<Vec<u8>>)
    ensures
        names_buckets(tx_entries(*tx), names@),
        cursor_whole(*tx) ==> names_all(tx_entries(*tx), names@),
{
    tx.buckets().map(|(name, _)| name.name().to_vec()).collect()
}

} // verus!
